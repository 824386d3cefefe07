//! The harness generator: each fragment becomes a guarded timing block, and a
//! parsed document becomes one self-contained script.

use vstd::prelude::*;
use crate::parser::{items_view, Item, ItemView, Snippet};
use crate::text::{chars_of, decimal, push_decimal};

verus! {

broadcast use vstd::string::group_string_axioms;

// The fixed pieces of a timing block, in order; the trial count, iteration
// count, code and name go between them.
pub const WRAP_OPEN: &'static str = "\ntry {\nconst _results = Array(";

pub const WRAP_LOOP: &'static str = ");\nfor (let _sample = 0; _sample < ";

pub const WRAP_COUNT: &'static str = "; _sample++) {\nlet _iteration = ";

pub const WRAP_BODY: &'static str = ";\nconst _start = performance.now();\nwhile (_iteration--) {\n";

pub const WRAP_LOG: &'static str =
    "\n};\n_results[_sample] = performance.now() - _start;\n}\n_jsbm_log('";

pub const WRAP_CATCH: &'static str = "', _jsbm_snd(_results));\n} catch (error) {\n_jsbm_log('";

pub const WRAP_CLOSE: &'static str = "', error);\n};";

/// The timing block for a fragment: `samples` trials, each running `code`
/// `iterations` times between two timestamps; the durations are reduced and
/// logged under `name`, and an error thrown by any trial is logged under
/// `name` in their place.
pub open spec fn wrap_text(name: Seq<char>, code: Seq<char>, samples: nat, iterations: nat) -> Seq<
    char,
> {
    WRAP_OPEN@ + decimal(samples) + WRAP_LOOP@ + decimal(samples) + WRAP_COUNT@ + decimal(
        iterations,
    ) + WRAP_BODY@ + code + WRAP_LOG@ + name + WRAP_CATCH@ + name + WRAP_CLOSE@
}

fn append_wrapped(out: &mut String, snippet: &Snippet, samples: u32, iterations: u32)
    ensures
        final(out)@ == old(out)@ + wrap_text(
            snippet.name@,
            snippet.code@,
            samples as nat,
            iterations as nat,
        ),
{
    out.append(WRAP_OPEN);
    push_decimal(out, samples);
    out.append(WRAP_LOOP);
    push_decimal(out, samples);
    out.append(WRAP_COUNT);
    push_decimal(out, iterations);
    out.append(WRAP_BODY);
    out.append(snippet.code.as_str());
    out.append(WRAP_LOG);
    out.append(snippet.name.as_str());
    out.append(WRAP_CATCH);
    out.append(snippet.name.as_str());
    out.append(WRAP_CLOSE);
    assert(out@ =~= old(out)@ + wrap_text(
        snippet.name@,
        snippet.code@,
        samples as nat,
        iterations as nat,
    ));
}

/// The timing block for one fragment.
pub fn wrap(snippet: Snippet, samples: u32, iterations: u32) -> (r: String)
    ensures
        r@ == wrap_text(snippet.name@, snippet.code@, samples as nat, iterations as nat),
{
    let mut r = String::new();
    append_wrapped(&mut r, &snippet, samples, iterations);
    assert(r@ =~= wrap_text(snippet.name@, snippet.code@, samples as nat, iterations as nat));
    r
}

// The fixed pieces of the banner.
pub const HEAD_OPEN: &'static str = "/*\nauto-generated using jsbm CLI\nhttps://github.com/9elt/jsbm\n\nsamples: ";

pub const HEAD_ITERATIONS: &'static str = "\niterations: ";

pub const HEAD_CLOSE: &'static str = "\n*/";

/// The banner that opens a script: where it comes from and its configuration.
pub open spec fn heading_text(iterations: nat, samples: nat) -> Seq<char> {
    HEAD_OPEN@ + decimal(samples) + HEAD_ITERATIONS@ + decimal(iterations) + HEAD_CLOSE@
}

/// The banner that opens a script.
pub fn heading(iterations: u32, samples: u32) -> (r: String)
    ensures
        r@ == heading_text(iterations as nat, samples as nat),
{
    let mut r = String::from_str(HEAD_OPEN);
    push_decimal(&mut r, samples);
    r.append(HEAD_ITERATIONS);
    push_decimal(&mut r, iterations);
    r.append(HEAD_CLOSE);
    r
}

/// The helper routines that every script holds once: the outlier-trimming
/// statistics, colouring, duration units and the report line.
pub const UTILS: &'static str = "
const _jsbm_snd = (samples) => {
samples.sort((a, b) => a - b);
let fq = samples.length / 4;
let t = Math.ceil(fq * 3);
let b = Math.floor(fq);
let mqr = (samples[t] - samples[b]) * 1.5;
let arr = [];
samples.forEach((v) => {
if (v <= samples[t] + mqr && v >= samples[b] - mqr) {
arr.push(v);
};});
let mean = 0;
arr.forEach(v => { mean += v });
mean = mean / arr.length;
let std = 0;
arr.forEach(v => { std += (v - mean) ** 2 });
return {
mean: Math.round(mean * 1000),
std: Math.round(Math.sqrt(std / arr.length) * 1000),
outliers: Math.round(100 - (arr.length * 100 / samples.length)),
};};
const _jsbm_ansi = (text, color) => {
switch(color) {
case 'red': return `\\x1b[38;5;204;1m${text}\\x1b[0m`;
case 'blue': return `\\x1b[38;5;39;1m${text}\\x1b[0m`;
default: return `\\x1b[1m${text}\\x1b[0m`;
}}
const _jsbm_unit = (micros) => {
if (micros < 1_000) {
return micros.toFixed(0) + 'μs';
} else if (micros < 1_000_000) {
return (micros/1_000).toFixed(2) + 'ms';
} else {
return (micros/1_000_000).toFixed(2) + 's';
}};
const _jsbm_fmt_res = (res) => {
return _jsbm_ansi(_jsbm_unit(res.mean)) +
` (std. ${_jsbm_unit(res.std)} o. ${res.outliers}%)`
}
const _jsbm_log = (name, res) => {
if ('std' in res) {
console.log(_jsbm_ansi(name, 'blue') + ' | ' + _jsbm_fmt_res(res))
} else {
console.log(_jsbm_ansi(name, 'red') + ' |\\n', res)
}};
";

/// What an item contributes to a script: content verbatim, a fragment as its
/// timing block.
pub open spec fn item_text(item: ItemView, samples: nat, iterations: nat) -> Seq<char> {
    match item {
        ItemView::Content(t) => t,
        ItemView::Snippet(name, code) => wrap_text(name, code, samples, iterations),
    }
}

/// The items' contributions, concatenated in order.
pub open spec fn body_text(items: Seq<ItemView>, samples: nat, iterations: nat) -> Seq<char>
    decreases items.len(),
{
    if items.len() == 0 {
        Seq::empty()
    } else {
        body_text(items.drop_last(), samples, iterations) + item_text(
            items.last(),
            samples,
            iterations,
        )
    }
}

/// The whole script for a parsed document.
pub open spec fn script_text(items: Seq<ItemView>, samples: nat, iterations: nat) -> Seq<char> {
    heading_text(iterations, samples) + UTILS@ + body_text(items, samples, iterations)
}

/// The whole script for a parsed document: the banner, the helper routines,
/// then each item in order.
pub fn script(items: &Vec<Item>, samples: u32, iterations: u32) -> (r: String)
    ensures
        r@ == script_text(items_view(items@), samples as nat, iterations as nat),
{
    let mut r = heading(iterations, samples);
    r.append(UTILS);
    let ghost head = r@;
    let n = items.len();
    let mut i: usize = 0;
    while i < n
        invariant
            n == items@.len(),
            i <= n,
            r@ == head + body_text(items_view(items@.take(i as int)), samples as nat, iterations as nat),
        decreases n - i,
    {
        let ghost before = r@;
        match &items[i] {
            Item::Content(t) => r.append(t.as_str()),
            Item::Snippet(s) => append_wrapped(&mut r, s, samples, iterations),
        }
        assert(items_view(items@.take(i + 1)).drop_last() =~= items_view(items@.take(i as int)));
        assert(r@ =~= head + body_text(items_view(items@.take(i + 1)), samples as nat, iterations as nat));
        i = i + 1;
    }
    assert(items@.take(n as int) =~= items@);
    r
}

/// The position of the last `.` before position `j`, or -1.
pub open spec fn last_dot(s: Seq<char>, j: int) -> int
    decreases j,
{
    if j <= 0 {
        -1
    } else if s[j - 1] == '.' {
        j - 1
    } else {
        last_dot(s, j - 1)
    }
}

/// Where the script for the document at `path` is written: `.jsbm` goes in
/// before the last extension (`a/b.js` gives `a/b.jsbm.js`); a path without
/// a dot is taken as the extension (`b` gives `jsbm.b`).
pub open spec fn output_path(path: Seq<char>) -> Seq<char> {
    let k = last_dot(path, path.len() as int);
    if k >= 0 {
        path.take(k) + seq!['.', 'j', 's', 'b', 'm', '.'] + path.skip(k + 1)
    } else {
        seq!['j', 's', 'b', 'm', '.'] + path
    }
}

/// Where the script for the document at `path` is written.
pub fn get_output_path(path: &str) -> (r: String)
    ensures
        r@ == output_path(path@),
{
    let v = chars_of(path);
    let n = v.len();
    let mut j: usize = n;
    while j > 0 && v[j - 1] != '.'
        invariant
            v@ == path@,
            n == v@.len(),
            j <= n,
            last_dot(path@, n as int) == last_dot(path@, j as int),
        decreases j,
    {
        j = j - 1;
    }
    let mid = ".jsbm.";
    proof {
        reveal_strlit(".jsbm.");
    }
    if j > 0 {
        let mut r = String::from_str(path.substring_char(0, j - 1));
        r.append(mid);
        r.append(path.substring_char(j, n));
        assert(r@ =~= output_path(path@));
        r
    } else {
        let mut r = String::from_str(mid.substring_char(1, 6));
        r.append(path);
        assert(r@ =~= output_path(path@));
        r
    }
}

/// A script's body is built item by item: the body of two item lists joined is
/// the first list's body followed by the second's. Each fragment thus brings
/// its own guarded block, whatever stands before or after it.
pub proof fn lemma_body_concat(a: Seq<ItemView>, b: Seq<ItemView>, samples: nat, iterations: nat)
    ensures
        body_text(a + b, samples, iterations) == body_text(a, samples, iterations) + body_text(
            b,
            samples,
            iterations,
        ),
    decreases b.len(),
{
    if b.len() == 0 {
        assert(a + b =~= a);
        assert(body_text(a, samples, iterations) + Seq::<char>::empty() =~= body_text(
            a,
            samples,
            iterations,
        ));
    } else {
        lemma_body_concat(a, b.drop_last(), samples, iterations);
        assert((a + b).drop_last() =~= a + b.drop_last());
        assert((a + b).last() == b.last());
        assert(body_text(a + b, samples, iterations) =~= body_text(a, samples, iterations)
            + body_text(b, samples, iterations));
    }
}

/// Each fragment's block opens a `try` before its first trial and closes with
/// the `catch` that logs its own error.
pub proof fn lemma_block_guarded(name: Seq<char>, code: Seq<char>, samples: nat, iterations: nat)
    ensures
        wrap_text(name, code, samples, iterations).take(WRAP_OPEN@.len() as int) == WRAP_OPEN@,
        wrap_text(name, code, samples, iterations).skip(
            wrap_text(name, code, samples, iterations).len() - (WRAP_CATCH@.len() + name.len()
                + WRAP_CLOSE@.len()),
        ) == WRAP_CATCH@ + name + WRAP_CLOSE@,
{
    let w = wrap_text(name, code, samples, iterations);
    let head = WRAP_OPEN@;
    let mid = decimal(samples) + WRAP_LOOP@ + decimal(samples) + WRAP_COUNT@ + decimal(iterations)
        + WRAP_BODY@ + code + WRAP_LOG@ + name;
    let tail = WRAP_CATCH@ + name + WRAP_CLOSE@;
    assert(w =~= head + mid + tail);
    assert(w.take(head.len() as int) =~= head);
    assert(w.skip(w.len() - tail.len()) =~= tail);
}

} // verus!
