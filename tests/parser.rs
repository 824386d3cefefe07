use jsbm::{fold_items, parse, tokenize, Item, Snippet, Token};

fn snippet(name: &str, code: &str) -> Item {
    Item::Snippet(Snippet { name: name.to_string(), code: code.to_string() })
}

fn content(text: &str) -> Item {
    Item::Content(text.to_string())
}

#[test]
fn accumulation_closes_snippet_on_empty_declaration() {
    let tokens = vec![
        Token::Declaration("a".to_string()),
        Token::Content("x".to_string()),
        Token::Content("y".to_string()),
        Token::Declaration("".to_string()),
        Token::Content("z".to_string()),
    ];
    assert_eq!(fold_items(&tokens), vec![snippet("a", "xy"), content(""), content("z")]);
}

#[test]
fn document_with_empty_declaration() {
    let items = parse("##a\nx\n##\nz\n").unwrap();
    assert_eq!(items, vec![snippet("a", "x"), content(""), content("z")]);
}

#[test]
fn no_declarations_gives_trimmed_content() {
    let items = parse("  // some prose\nconst a = 1;\n\n").unwrap();
    assert_eq!(items, vec![content("// some prose\nconst a = 1;")]);
}

#[test]
fn no_declarations_in_tokens_gives_content_each() {
    let tokens = vec![Token::Content(" p \n".to_string()), Token::Content("\tq".to_string())];
    assert_eq!(fold_items(&tokens), vec![content("p"), content("q")]);
}

#[test]
fn empty_document_gives_no_items() {
    assert_eq!(parse("").unwrap(), vec![]);
}

#[test]
fn parse_is_deterministic() {
    let doc = "// intro\n##push {\nconst a = [];\na.push(1);\n##}\n// outro\n";
    assert_eq!(parse(doc).unwrap(), parse(doc).unwrap());
}

#[test]
fn declarations_in_a_row() {
    let items = parse("##first\n##second\ncode();\n").unwrap();
    assert_eq!(items, vec![snippet("first", ""), snippet("second", "code();")]);
}

#[test]
fn content_before_declaration_is_not_absorbed() {
    let items = parse("const x = 1;\n##loop\nx++;\n").unwrap();
    assert_eq!(items, vec![content("const x = 1;"), snippet("loop", "x++;")]);
}

#[test]
fn name_is_stripped_of_braces_and_spaces() {
    let items = parse("## {sum} \r\nlet s = 0;\r\n").unwrap();
    assert_eq!(items, vec![snippet("sum", "let s = 0;")]);
}

#[test]
fn hashes_inside_a_line_are_content() {
    let items = parse("a ## b\n #c\n").unwrap();
    assert_eq!(items, vec![content("a ## b\n #c")]);
}

#[test]
fn tokens_of_a_document() {
    let tokens = tokenize("intro\n##a\nx\n");
    assert_eq!(
        tokens,
        vec![
            Token::Content("intro\n".to_string()),
            Token::Declaration("a".to_string()),
            Token::Content("x\n".to_string()),
        ]
    );
}

#[test]
fn declaration_at_end_without_line_break() {
    let tokens = tokenize("x\n##last");
    assert_eq!(
        tokens,
        vec![Token::Content("x\n".to_string()), Token::Declaration("last".to_string())]
    );
    assert_eq!(parse("x\n##last").unwrap(), vec![content("x"), snippet("last", "")]);
}

#[test]
fn unicode_whitespace_is_trimmed() {
    let items = parse("\u{3000}text\u{a0}").unwrap();
    assert_eq!(items, vec![content("text")]);
}

#[test]
fn snippet_code_appends() {
    let mut s = Snippet { name: "n".to_string(), code: "a".to_string() };
    s.code("b");
    assert_eq!(s, Snippet { name: "n".to_string(), code: "ab".to_string() });
}
