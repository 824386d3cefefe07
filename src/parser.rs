//! The document parser: tokens are folded into an ordered list of items, a
//! named fragment absorbing the content that follows it.

use vstd::prelude::*;
use crate::text::{chars_of, trim, trim_name_of, trim_name, trim_ws};

verus! {

/// A named code fragment: `code` is the content gathered while it was open.
#[derive(Debug, PartialEq, Eq)]
pub struct Snippet {
    pub name: String,
    pub code: String,
}

/// One element of a parsed document, in document order.
#[derive(Debug, PartialEq, Eq)]
pub enum Item {
    Content(String),
    Snippet(Snippet),
}

/// One token of a document: a declaration carries the raw name text, content
/// carries its raw span.
#[derive(Debug, PartialEq, Eq)]
pub enum Token {
    Declaration(String),
    Content(String),
}

/// What an item is, as text.
pub enum ItemView {
    Content(Seq<char>),
    Snippet(Seq<char>, Seq<char>),
}

/// What a token is, as text.
pub enum TokenView {
    Declaration(Seq<char>),
    Content(Seq<char>),
}

impl View for Item {
    type V = ItemView;

    open spec fn view(&self) -> ItemView {
        match self {
            Item::Content(t) => ItemView::Content(t@),
            Item::Snippet(s) => ItemView::Snippet(s.name@, s.code@),
        }
    }
}

impl View for Token {
    type V = TokenView;

    open spec fn view(&self) -> TokenView {
        match self {
            Token::Declaration(t) => TokenView::Declaration(t@),
            Token::Content(t) => TokenView::Content(t@),
        }
    }
}

pub open spec fn items_view(v: Seq<Item>) -> Seq<ItemView> {
    v.map_values(|i: Item| i@)
}

pub open spec fn tokens_view(v: Seq<Token>) -> Seq<TokenView> {
    v.map_values(|t: Token| t@)
}

/// The item that a declaration with the (trimmed) name opens: an empty name
/// gives an empty content item, which closes the open fragment.
pub open spec fn declared(name: Seq<char>) -> ItemView {
    if name.len() == 0 {
        ItemView::Content(Seq::empty())
    } else {
        ItemView::Snippet(name, Seq::empty())
    }
}

/// The stack after one token: content joins the fragment on top, if any.
pub open spec fn step(stack: Seq<ItemView>, t: TokenView) -> Seq<ItemView> {
    match t {
        TokenView::Declaration(v) => stack.push(declared(trim_name(v))),
        TokenView::Content(c) => match stack.last() {
            ItemView::Snippet(n, code) if stack.len() > 0 => stack.drop_last().push(
                ItemView::Snippet(n, code + trim_ws(c)),
            ),
            _ => stack.push(ItemView::Content(trim_ws(c))),
        },
    }
}

/// The items that a token sequence folds into.
pub open spec fn fold_spec(ts: Seq<TokenView>) -> Seq<ItemView>
    decreases ts.len(),
{
    if ts.len() == 0 {
        Seq::empty()
    } else {
        step(fold_spec(ts.drop_last()), ts.last())
    }
}

impl Snippet {
    fn new(name: String) -> (r: Snippet)
        ensures
            r.name@ == name@,
            r.code@ == Seq::<char>::empty(),
    {
        Snippet { name, code: String::new() }
    }

    /// Appends `code` to the fragment's code.
    pub fn code(&mut self, code: &str)
        ensures
            final(self).name@ == old(self).name@,
            final(self).code@ == old(self).code@ + code@,
    {
        self.code.append(code);
    }
}

impl Item {
    fn new(name: &str) -> (r: Item)
        ensures
            r@ == declared(name@),
    {
        if name.unicode_len() == 0 {
            Item::Content(String::new())
        } else {
            Item::Snippet(Snippet::new(String::from_str(name)))
        }
    }

    fn new_content(content: &str) -> (r: Item)
        ensures
            r@ == ItemView::Content(content@),
    {
        Item::Content(String::from_str(content))
    }
}

/// Folds tokens, in order, onto a stack of items: a declaration pushes the
/// item it opens; content is appended to the fragment on top of the stack, or
/// else pushed as a content item of its own. Texts are trimmed first.
pub fn fold_items(tokens: &Vec<Token>) -> (r: Vec<Item>)
    ensures
        items_view(r@) == fold_spec(tokens_view(tokens@)),
{
    let mut stack: Vec<Item> = Vec::new();
    let n = tokens.len();
    let mut i: usize = 0;
    while i < n
        invariant
            n == tokens@.len(),
            i <= n,
            items_view(stack@) == fold_spec(tokens_view(tokens@.take(i as int))),
        decreases n - i,
    {
        let ghost before = items_view(stack@);
        assert(tokens_view(tokens@.take(i + 1)).drop_last() =~= tokens_view(tokens@.take(i as int)));
        match &tokens[i] {
            Token::Declaration(v) => {
                let name = trim_name_of(v.as_str());
                stack.push(Item::new(name.as_str()));
                assert(items_view(stack@) =~= before.push(declared(trim_name(v@))));
            },
            Token::Content(c) => {
                let content = trim(c.as_str());
                match stack.pop() {
                    Some(Item::Snippet(mut s)) => {
                        s.code(content.as_str());
                        stack.push(Item::Snippet(s));
                    },
                    Some(other) => {
                        stack.push(other);
                        stack.push(Item::new_content(content.as_str()));
                    },
                    None => {
                        stack.push(Item::new_content(content.as_str()));
                    },
                }
                assert(items_view(stack@) =~= step(before, tokens[i as int]@));
            },
        }
        i = i + 1;
    }
    assert(tokens@.take(n as int) =~= tokens@);
    stack
}

/// A declaration starts at `i`: a line that begins with `##`. The rest of
/// that line is the fragment's name.
pub open spec fn decl_at(s: Seq<char>, i: int) -> bool {
    0 <= i && i + 1 < s.len() && (i == 0 || s[i - 1] == '\n') && s[i] == '#' && s[i + 1]
        == '#'
}

/// The position of the first line break at or after `i`, or the length.
pub open spec fn line_end(s: Seq<char>, i: int) -> int
    decreases s.len() - i,
{
    if i < 0 || i >= s.len() || s[i] == '\n' {
        i
    } else {
        line_end(s, i + 1)
    }
}

/// The position of the first declaration at or after `i`, or the length.
pub open spec fn content_end(s: Seq<char>, i: int) -> int
    decreases s.len() - i,
{
    if i < 0 || i >= s.len() || decl_at(s, i) {
        i
    } else {
        content_end(s, i + 1)
    }
}

proof fn lemma_content_end(s: Seq<char>, i: int)
    requires
        0 <= i <= s.len(),
    ensures
        i <= content_end(s, i) <= s.len(),
        i < s.len() && !decl_at(s, i) ==> i < content_end(s, i),
    decreases s.len() - i,
{
    if i < s.len() && !decl_at(s, i) {
        lemma_content_end(s, i + 1);
    }
}

proof fn lemma_line_end(s: Seq<char>, i: int)
    requires
        0 <= i <= s.len(),
    ensures
        i <= line_end(s, i) <= s.len(),
    decreases s.len() - i,
{
    if i < s.len() && s[i] != '\n' {
        lemma_line_end(s, i + 1);
    }
}

/// The tokens of `s` from position `i` on: each declaration line, and each
/// maximal run of other lines as one content token.
pub open spec fn tokens_from(s: Seq<char>, i: int) -> Seq<TokenView>
    decreases s.len() - i,
    via tokens_from_decreases
{
    if i < 0 || i >= s.len() {
        Seq::empty()
    } else if decl_at(s, i) {
        let e = line_end(s, i + 2);
        let next = if e < s.len() { e + 1 } else { e };
        seq![TokenView::Declaration(s.subrange(i + 2, e))] + tokens_from(s, next)
    } else {
        let e = content_end(s, i);
        seq![TokenView::Content(s.subrange(i, e))] + tokens_from(s, e)
    }
}

#[via_fn]
proof fn tokens_from_decreases(s: Seq<char>, i: int) {
    if 0 <= i < s.len() {
        if decl_at(s, i) {
            lemma_line_end(s, i + 2);
        } else {
            lemma_content_end(s, i);
        }
    }
}

/// The tokens of a whole document.
pub open spec fn tokens_of(s: Seq<char>) -> Seq<TokenView> {
    tokens_from(s, 0)
}

/// The items of a whole document.
pub open spec fn parse_spec(s: Seq<char>) -> Seq<ItemView> {
    fold_spec(tokens_of(s))
}

fn is_decl_at(v: &Vec<char>, i: usize) -> (r: bool)
    requires
        i < v@.len(),
    ensures
        r == decl_at(v@, i as int),
{
    v.len() - i > 1 && (i == 0 || v[i - 1] == '\n') && v[i] == '#' && v[i + 1] == '#'
}

/// Splits a document into declaration and content tokens.
pub fn tokenize(s: &str) -> (r: Vec<Token>)
    ensures
        tokens_view(r@) == tokens_of(s@),
{
    let v = chars_of(s);
    let n = v.len();
    let mut out: Vec<Token> = Vec::new();
    let mut i: usize = 0;
    while i < n
        invariant
            v@ == s@,
            n == v@.len(),
            i <= n,
            tokens_view(out@) + tokens_from(s@, i as int) == tokens_of(s@),
        decreases n - i,
    {
        let ghost before = tokens_view(out@);
        if is_decl_at(&v, i) {
            let mut e: usize = i + 2;
            while e < n && v[e] != '\n'
                invariant
                    v@ == s@,
                    n == v@.len(),
                    i + 2 <= e <= n,
                    line_end(s@, e as int) == line_end(s@, i + 2),
                decreases n - e,
            {
                e = e + 1;
            }
            out.push(Token::Declaration(String::from_str(s.substring_char(i + 2, e))));
            assert(tokens_view(out@) =~= before.push(TokenView::Declaration(s@.subrange(i + 2, e as int))));
            i = if e < n { e + 1 } else { e };
        } else {
            let mut e: usize = i + 1;
            while e < n && !is_decl_at(&v, e)
                invariant
                    v@ == s@,
                    n == v@.len(),
                    i + 1 <= e <= n,
                    content_end(s@, e as int) == content_end(s@, i as int),
                decreases n - e,
            {
                e = e + 1;
            }
            out.push(Token::Content(String::from_str(s.substring_char(i, e))));
            assert(tokens_view(out@) =~= before.push(TokenView::Content(s@.subrange(i as int, e as int))));
            i = e;
        }
    }
    out
}

/// Parses a document into its items, in document order. A line that starts
/// with `##` declares a fragment named by the rest of the line (braces, spaces
/// and line breaks around the name are dropped; an empty name closes the open
/// fragment); every other run of lines is content. Every text is a document of
/// this form, so parsing always succeeds.
pub fn parse(file: &str) -> (r: Result<Vec<Item>, ()>)
    ensures
        r is Ok,
        r matches Ok(items) ==> items_view(items@) == parse_spec(file@),
{
    let tokens = tokenize(file);
    Ok(fold_items(&tokens))
}

/// Each token of `ts` is content.
pub open spec fn all_content(ts: Seq<TokenView>) -> bool {
    forall|k: int| 0 <= k < ts.len() ==> (#[trigger] ts[k]) is Content
}

/// A content item for each content token, holding its trimmed text.
pub open spec fn content_items(ts: Seq<TokenView>) -> Seq<ItemView> {
    ts.map_values(
        |t: TokenView|
            match t {
                TokenView::Content(c) => ItemView::Content(trim_ws(c)),
                TokenView::Declaration(v) => declared(trim_name(v)),
            },
    )
}

/// Without declarations, tokens fold into content items only, one for each
/// token, each holding that token's text with surrounding whitespace removed.
pub proof fn lemma_fold_without_declarations(ts: Seq<TokenView>)
    requires
        all_content(ts),
    ensures
        fold_spec(ts) == content_items(ts),
        forall|k: int| 0 <= k < fold_spec(ts).len() ==> (#[trigger] fold_spec(ts)[k]) is Content,
    decreases ts.len(),
{
    if ts.len() > 0 {
        let init = ts.drop_last();
        assert(all_content(init)) by {
            assert forall|k: int| 0 <= k < init.len() implies (#[trigger] init[k]) is Content by {
                assert(init[k] == ts[k]);
            }
        }
        lemma_fold_without_declarations(init);
        assert(ts.last() == ts[ts.len() - 1]);
        assert(fold_spec(ts) =~= content_items(ts));
    }
}

proof fn lemma_content_to_end(s: Seq<char>, i: int)
    requires
        0 <= i <= s.len(),
        forall|j: int| !decl_at(s, j),
    ensures
        content_end(s, i) == s.len(),
    decreases s.len() - i,
{
    if i < s.len() {
        lemma_content_to_end(s, i + 1);
    }
}

/// A document without declarations parses into content items only: none for
/// an empty document, else one holding the whole text with surrounding
/// whitespace removed.
pub proof fn lemma_parse_without_declarations(s: Seq<char>)
    requires
        forall|j: int| !decl_at(s, j),
    ensures
        forall|k: int| 0 <= k < parse_spec(s).len() ==> (#[trigger] parse_spec(s)[k]) is Content,
        s.len() == 0 ==> parse_spec(s) == Seq::<ItemView>::empty(),
        s.len() > 0 ==> parse_spec(s) == seq![ItemView::Content(trim_ws(s))],
{
    if s.len() > 0 {
        lemma_content_to_end(s, 0);
        assert(s.subrange(0, s.len() as int) =~= s);
        assert(!decl_at(s, 0));
        assert(tokens_from(s, s.len() as int) == Seq::<TokenView>::empty());
        let ts = tokens_of(s);
        assert(ts == seq![TokenView::Content(s.subrange(0, content_end(s, 0)))] + tokens_from(
            s,
            content_end(s, 0),
        ));
        assert(ts =~= seq![TokenView::Content(s)]);
        assert(ts.drop_last() =~= Seq::<TokenView>::empty());
        assert(fold_spec(ts.drop_last()) == Seq::<ItemView>::empty());
        assert(ts.last() == TokenView::Content(s));
        let stack = Seq::<ItemView>::empty();
        assert(step(stack, TokenView::Content(s)) == stack.push(ItemView::Content(trim_ws(s))));
        assert(parse_spec(s) =~= seq![ItemView::Content(trim_ws(s))]);
    } else {
        assert(parse_spec(s) =~= Seq::<ItemView>::empty());
    }
}

/// Parsing depends on the document's text alone: equal texts give equal items.
pub proof fn lemma_parse_deterministic(a: Seq<char>, b: Seq<char>)
    requires
        a == b,
    ensures
        parse_spec(a) == parse_spec(b),
{
}

/// The trimmed texts of content tokens, concatenated in order.
pub open spec fn joined(cs: Seq<TokenView>) -> Seq<char>
    decreases cs.len(),
{
    if cs.len() == 0 {
        Seq::empty()
    } else {
        joined(cs.drop_last()) + match cs.last() {
            TokenView::Content(c) => trim_ws(c),
            TokenView::Declaration(_) => Seq::empty(),
        }
    }
}

/// A declaration with a non-empty name, followed by content tokens only, adds
/// one fragment to what came before, whose code is those contents (trimmed)
/// concatenated in order; nothing before it is changed.
pub proof fn lemma_accumulation(before: Seq<TokenView>, name: Seq<char>, cs: Seq<TokenView>)
    requires
        trim_name(name).len() > 0,
        all_content(cs),
    ensures
        fold_spec(before + seq![TokenView::Declaration(name)] + cs) == fold_spec(before).push(
            ItemView::Snippet(trim_name(name), joined(cs)),
        ),
    decreases cs.len(),
{
    let open = before + seq![TokenView::Declaration(name)];
    if cs.len() == 0 {
        assert(open + cs =~= open);
        assert(open.drop_last() =~= before);
    } else {
        let init = cs.drop_last();
        assert(all_content(init)) by {
            assert forall|k: int| 0 <= k < init.len() implies (#[trigger] init[k]) is Content by {
                assert(init[k] == cs[k]);
            }
        }
        lemma_accumulation(before, name, init);
        assert((open + cs).drop_last() =~= open + init);
        assert((open + cs).last() == cs.last());
        assert(cs.last() == cs[cs.len() - 1]);
        let stack = fold_spec(open + init);
        assert(stack.drop_last() =~= fold_spec(before));
    }
}

/// Content tokens after a content item on top of the stack each become an
/// item of their own: none is appended to an earlier fragment.
pub proof fn lemma_contents_after_content(before: Seq<TokenView>, cs: Seq<TokenView>)
    requires
        fold_spec(before).len() > 0,
        fold_spec(before).last() is Content,
        all_content(cs),
    ensures
        fold_spec(before + cs) == fold_spec(before) + content_items(cs),
    decreases cs.len(),
{
    if cs.len() == 0 {
        assert(before + cs =~= before);
        assert(fold_spec(before) + content_items(cs) =~= fold_spec(before));
    } else {
        let init = cs.drop_last();
        assert(all_content(init)) by {
            assert forall|k: int| 0 <= k < init.len() implies (#[trigger] init[k]) is Content by {
                assert(init[k] == cs[k]);
            }
        }
        lemma_contents_after_content(before, init);
        assert((before + cs).drop_last() =~= before + init);
        assert((before + cs).last() == cs.last());
        assert(cs.last() == cs[cs.len() - 1]);
        let stack = fold_spec(before + init);
        if init.len() > 0 {
            assert(init.last() == init[init.len() - 1]);
            assert(stack.last() == content_items(init).last());
        } else {
            assert(stack =~= fold_spec(before));
        }
        assert(fold_spec(before + cs) =~= fold_spec(before) + content_items(cs));
    }
}

/// A fragment followed by its contents, then a declaration whose name trims
/// to nothing, then more content: the fragment keeps exactly the contents
/// before the empty declaration, the empty declaration adds an empty content
/// item, and each later content token becomes a content item of its own.
pub proof fn lemma_empty_declaration_closes(
    before: Seq<TokenView>,
    name: Seq<char>,
    xs: Seq<TokenView>,
    empty: Seq<char>,
    cs: Seq<TokenView>,
)
    requires
        trim_name(name).len() > 0,
        trim_name(empty).len() == 0,
        all_content(xs),
        all_content(cs),
    ensures
        fold_spec(
            before + seq![TokenView::Declaration(name)] + xs + seq![TokenView::Declaration(empty)]
                + cs,
        ) == fold_spec(before).push(ItemView::Snippet(trim_name(name), joined(xs))).push(
            ItemView::Content(Seq::empty()),
        ) + content_items(cs),
{
    let open = before + seq![TokenView::Declaration(name)] + xs;
    let closed = open + seq![TokenView::Declaration(empty)];
    lemma_accumulation(before, name, xs);
    assert(closed.drop_last() =~= open);
    assert(closed.last() == TokenView::Declaration(empty));
    assert(fold_spec(closed) == fold_spec(open).push(ItemView::Content(Seq::empty())));
    lemma_contents_after_content(closed, cs);
}

} // verus!
