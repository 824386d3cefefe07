use jsbm::{get_output_path, heading, parse, script, wrap, Snippet, UTILS};

#[test]
fn wrap_binds_samples_iterations_and_name() {
    let s = Snippet { name: "t".to_string(), code: "x++;".to_string() };
    let out = wrap(s, 5, 2);
    assert!(out.contains("const _results = Array(5);"));
    assert!(out.contains("for (let _sample = 0; _sample < 5; _sample++) {"));
    assert!(out.contains("let _iteration = 2;"));
    assert!(out.contains("while (_iteration--) {\nx++;\n};"));
    assert!(out.contains("_jsbm_log('t', _jsbm_snd(_results));"));
    assert!(out.contains("_jsbm_log('t', error);"));
}

#[test]
fn wrap_exact_text() {
    let s = Snippet { name: "t".to_string(), code: "x++;".to_string() };
    let expected = "
try {
const _results = Array(5);
for (let _sample = 0; _sample < 5; _sample++) {
let _iteration = 2;
const _start = performance.now();
while (_iteration--) {
x++;
};
_results[_sample] = performance.now() - _start;
}
_jsbm_log('t', _jsbm_snd(_results));
} catch (error) {
_jsbm_log('t', error);
};";
    assert_eq!(wrap(s, 5, 2), expected);
}

#[test]
fn wrap_large_counts() {
    let s = Snippet { name: "big".to_string(), code: "f();".to_string() };
    let out = wrap(s, 4294967295, 1000);
    assert!(out.contains("Array(4294967295);"));
    assert!(out.contains("let _iteration = 1000;"));
}

#[test]
fn heading_records_configuration() {
    let h = heading(3, 1000);
    assert!(h.starts_with("/*\n"));
    assert!(h.ends_with("samples: 1000\niterations: 3\n*/"));
}

#[test]
fn heading_full_text() {
    assert_eq!(
        heading(2, 5),
        "/*\nauto-generated using jsbm CLI\nhttps://github.com/9elt/jsbm\n\nsamples: 5\niterations: 2\n*/"
    );
}

#[test]
fn heading_with_zero_and_ten() {
    assert!(heading(0, 10).ends_with("samples: 10\niterations: 0\n*/"));
}

#[test]
fn script_guards_each_snippet_separately() {
    let items = parse("// prose\n##throws\nthrow new Error('x');\n##fine\nlet a = 1;\n").unwrap();
    let out = script(&items, 5, 2);
    assert!(out.starts_with(&heading(2, 5)));
    let after_utils = format!("{}{}", heading(2, 5), UTILS);
    assert!(out.starts_with(&after_utils));
    let body = &out[after_utils.len()..];
    assert!(body.starts_with("// prose\ntry {"));
    assert_eq!(body.matches("try {").count(), 2);
    assert_eq!(body.matches("} catch (error) {").count(), 2);
    let first = body.find("_jsbm_log('throws', error);").unwrap();
    let second = body.find("try {\nconst _results = Array(5);\nfor (let _sample = 0; _sample < 5; _sample++) {\nlet _iteration = 2;\nconst _start = performance.now();\nwhile (_iteration--) {\nlet a = 1;").unwrap();
    assert!(first < second);
    assert!(body.ends_with("_jsbm_log('fine', error);\n};"));
}

#[test]
fn script_without_items_is_heading_and_helpers() {
    let out = script(&vec![], 1000, 1);
    assert_eq!(out, format!("{}{}", heading(1, 1000), UTILS));
}

#[test]
fn helpers_hold_the_trimming_formula() {
    assert!(UTILS.contains("let fq = samples.length / 4;"));
    assert!(UTILS.contains("let t = Math.ceil(fq * 3);"));
    assert!(UTILS.contains("let b = Math.floor(fq);"));
    assert!(UTILS.contains("let mqr = (samples[t] - samples[b]) * 1.5;"));
}

#[test]
fn output_path_inserts_before_extension() {
    assert_eq!(get_output_path("bench/list.js"), "bench/list.jsbm.js");
    assert_eq!(get_output_path("a.b.c"), "a.b.jsbm.c");
    assert_eq!(get_output_path(".js"), ".jsbm.js");
}

#[test]
fn output_path_without_dot() {
    assert_eq!(get_output_path("file"), "jsbm.file");
    assert_eq!(get_output_path(""), "jsbm.");
}
