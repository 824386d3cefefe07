//! Character-level helpers: whitespace, trimming and decimal rendering.

use vstd::prelude::*;

verus! {

broadcast use vstd::string::group_string_axioms;

/// The characters that `char::is_whitespace` accepts (Unicode White_Space).
pub open spec fn is_ws(c: char) -> bool {
    ('\u{9}' <= c && c <= '\u{d}') || c == ' ' || c == '\u{85}' || c == '\u{a0}'
        || c == '\u{1680}' || ('\u{2000}' <= c && c <= '\u{200a}') || c == '\u{2028}'
        || c == '\u{2029}' || c == '\u{202f}' || c == '\u{205f}' || c == '\u{3000}'
}

/// The characters stripped from both ends of a fragment name.
pub open spec fn is_name_pad(c: char) -> bool {
    c == '{' || c == '}' || c == ' ' || c == '\n' || c == '\r'
}

/// Whether `c` is stripped by the trimming of the given kind.
pub open spec fn strips(names: bool, c: char) -> bool {
    if names {
        is_name_pad(c)
    } else {
        is_ws(c)
    }
}

/// `s` without its leading stripped characters.
pub open spec fn trim_front(names: bool, s: Seq<char>) -> Seq<char>
    decreases s.len(),
{
    if s.len() > 0 && strips(names, s[0]) {
        trim_front(names, s.drop_first())
    } else {
        s
    }
}

/// `s` without its trailing stripped characters.
pub open spec fn trim_back(names: bool, s: Seq<char>) -> Seq<char>
    decreases s.len(),
{
    if s.len() > 0 && strips(names, s.last()) {
        trim_back(names, s.drop_last())
    } else {
        s
    }
}

/// `s` without stripped characters at either end.
pub open spec fn trimmed(names: bool, s: Seq<char>) -> Seq<char> {
    trim_back(names, trim_front(names, s))
}

/// `s.trim()`: surrounding whitespace removed.
pub open spec fn trim_ws(s: Seq<char>) -> Seq<char> {
    trimmed(false, s)
}

/// A fragment name with surrounding braces, spaces and line breaks removed.
pub open spec fn trim_name(s: Seq<char>) -> Seq<char> {
    trimmed(true, s)
}

pub fn is_whitespace(c: char) -> (r: bool)
    ensures
        r == is_ws(c),
{
    ('\u{9}' <= c && c <= '\u{d}') || c == ' ' || c == '\u{85}' || c == '\u{a0}'
        || c == '\u{1680}' || ('\u{2000}' <= c && c <= '\u{200a}') || c == '\u{2028}'
        || c == '\u{2029}' || c == '\u{202f}' || c == '\u{205f}' || c == '\u{3000}'
}

fn is_stripped(names: bool, c: char) -> (r: bool)
    ensures
        r == strips(names, c),
{
    if names {
        c == '{' || c == '}' || c == ' ' || c == '\n' || c == '\r'
    } else {
        is_whitespace(c)
    }
}

/// The characters of `s`, in order.
pub fn chars_of(s: &str) -> (r: Vec<char>)
    ensures
        r@ == s@,
{
    let mut v: Vec<char> = Vec::new();
    for c in it: s.chars()
        invariant
            it.seq() == s@,
            v@ == it.seq().take(it.index() as int),
    {
        v.push(c);
    }
    v
}

/// `s` with the stripped characters of the given kind removed from both ends.
fn trim_by(names: bool, s: &str) -> (r: String)
    ensures
        r@ == trimmed(names, s@),
{
    let v = chars_of(s);
    let n = v.len();
    let mut lo: usize = 0;
    assert(s@.subrange(0, n as int) =~= s@);
    while lo < n && is_stripped(names, v[lo])
        invariant
            v@ == s@,
            n == v@.len(),
            lo <= n,
            trim_front(names, s@) == trim_front(names, s@.subrange(lo as int, n as int)),
        decreases n - lo,
    {
        assert(s@.subrange(lo as int, n as int).drop_first() =~= s@.subrange(lo + 1, n as int));
        lo = lo + 1;
    }
    assert(trim_front(names, s@) == s@.subrange(lo as int, n as int));
    let mut hi: usize = n;
    while hi > lo && is_stripped(names, v[hi - 1])
        invariant
            v@ == s@,
            n == v@.len(),
            lo <= hi <= n,
            trimmed(names, s@) == trim_back(names, s@.subrange(lo as int, hi as int)),
        decreases hi,
    {
        assert(s@.subrange(lo as int, hi as int).drop_last() =~= s@.subrange(lo as int, hi - 1));
        hi = hi - 1;
    }
    String::from_str(s.substring_char(lo, hi))
}

/// `s.trim()`.
pub fn trim(s: &str) -> (r: String)
    ensures
        r@ == trim_ws(s@),
{
    trim_by(false, s)
}

/// `s.trim_matches(&['{', '}', ' ', '\n', '\r'])`.
pub fn trim_name_of(s: &str) -> (r: String)
    ensures
        r@ == trim_name(s@),
{
    trim_by(true, s)
}

/// The decimal digit for `d < 10`.
pub open spec fn digit(d: nat) -> char {
    seq!['0', '1', '2', '3', '4', '5', '6', '7', '8', '9'][d as int]
}

/// The decimal notation of `n`, without sign or leading zeros.
pub open spec fn decimal(n: nat) -> Seq<char>
    decreases n,
{
    if n < 10 {
        seq![digit(n)]
    } else {
        decimal(n / 10).push(digit(n % 10))
    }
}

/// Appends the decimal notation of `n` to `out`.
pub fn push_decimal(out: &mut String, n: u32)
    ensures
        final(out)@ == old(out)@ + decimal(n as nat),
    decreases n,
{
    if n >= 10 {
        push_decimal(out, n / 10);
    }
    let d: usize = (n % 10) as usize;
    let digits = "0123456789";
    proof {
        reveal_strlit("0123456789");
    }
    let one = digits.substring_char(d, d + 1);
    assert(one@ =~= seq![digit(d as nat)]);
    out.append(one);
    assert(out@ =~= old(out)@ + decimal(n as nat));
}

} // verus!
