use flyover::grammars::{parse, registry, Parsed};
use flyover::tokens::TokenClass;
use flyover::text::TokenSpan;

fn parse_lang(key: &str, source: &str) -> Parsed {
    let reg = registry().ok().expect("queries compile");
    let grammar = reg.get(key).expect("grammar present");
    parse(grammar, source, None).expect("parse succeeds")
}

#[test]
fn every_grammar_compiles() {
    let reg = registry().ok().expect("all queries compile against their grammars");
    for key in ["Rust", "Go", "Python", "JavaScript", "TypeScript", "TSX", "C", "C++", "Java", "C#", "Ruby", "PHP"] {
        assert_eq!(reg.get(key).map(|g| g.name()), Some(key));
    }
    assert!(reg.get("Markdown").is_none());
}

#[test]
fn rust_symbols_and_imports() {
    let got = parse_lang("Rust", "use std::collections::BTreeMap;\nfn main() {}\nstruct Point { x: i32 }\n");
    assert!(got.symbols.iter().any(|s| s.kind == "function" && s.name == "main"));
    assert!(got.symbols.iter().any(|s| s.kind == "struct" && s.name == "Point"));
    assert_eq!(got.imports.len(), 1);
    assert_eq!(got.imports[0].module, "std::collections::BTreeMap");
}

#[test]
fn python_imports_are_cleaned() {
    let got = parse_lang("Python", "import os\nfrom a.b import c\n");
    let modules: Vec<_> = got.imports.iter().map(|i| i.module.as_str()).collect();
    assert!(modules.contains(&"os"));
    assert!(modules.contains(&"a.b"));
}

#[test]
fn js_require_and_import_strings() {
    let got = parse_lang("JavaScript", "import x from \"./x\";\nconst y = require(\"y\");\nnotrequire(\"z\");\n");
    let modules: Vec<_> = got.imports.iter().map(|i| i.module.as_str()).collect();
    assert!(modules.contains(&"./x"));
    assert!(modules.contains(&"y"));
    assert!(!modules.contains(&"z"));
}

#[test]
fn go_import_quotes_stripped() {
    let got = parse_lang("Go", "package main\nimport \"fmt\"\n");
    assert_eq!(got.imports.iter().map(|i| &i.module).collect::<Vec<_>>(), vec!["fmt"]);
}

#[test]
fn budget_zero_abandons_parse() {
    let reg = registry().ok().unwrap();
    let grammar = reg.get("Rust").unwrap();
    let big = "fn f() {}\n".repeat(20_000);
    assert!(parse(grammar, &big, Some(1)).is_none());
}

#[test]
fn symbols_carry_one_based_lines_and_are_sorted() {
    let got = parse_lang("Rust", "\nfn b() {}\n\nfn a() {\n}\n");
    let lines: Vec<(u32, u32, &str)> =
        got.symbols.iter().map(|s| (s.start_line, s.end_line, s.name.as_str())).collect();
    assert_eq!(lines, vec![(2, 2, "b"), (4, 5, "a")]);
}

fn spans_for(key: &str, source: &str) -> Vec<TokenSpan> {
    parse_lang(key, source).tokens
}

fn classes<'a>(source: &'a str, spans: &[TokenSpan], want: TokenClass) -> Vec<&'a str> {
    spans
        .iter()
        .filter(|s| s.class == want.as_u8())
        .map(|s| &source[s.start as usize..(s.start + s.len) as usize])
        .collect()
}

#[test]
fn rust_leaves_are_classified() {
    let src = "// hi\nfn add(a: i32) -> i32 { a + 1 }\n";
    let spans = spans_for("Rust", src);
    assert_eq!(classes(src, &spans, TokenClass::Comment), vec!["// hi"]);
    assert!(classes(src, &spans, TokenClass::Keyword).contains(&"fn"));
    assert!(classes(src, &spans, TokenClass::Number).contains(&"1"));
    assert!(classes(src, &spans, TokenClass::Type).contains(&"i32"));
    assert!(classes(src, &spans, TokenClass::Operator).contains(&"+"));
}

#[test]
fn python_strings_and_comments() {
    let src = "# note\nx = \"hello\"\n";
    let spans = spans_for("Python", src);
    assert_eq!(classes(src, &spans, TokenClass::Comment), vec!["# note"]);
    assert!(classes(src, &spans, TokenClass::String).iter().any(|s| s.contains("hello")));
}

#[test]
fn spans_are_ordered_and_inside_the_source() {
    let src = "fn main() { let s = \"x\"; }\n";
    let spans = spans_for("Rust", src);
    assert!(!spans.is_empty());
    let mut last = 0;
    for s in &spans {
        assert!(s.start >= last, "spans must be sorted");
        assert!((s.start + s.len) as usize <= src.len());
        last = s.start;
    }
}

#[test]
fn a_string_is_one_span_not_its_pieces() {
    let src = "let s = \"a b\";\n";
    let spans = spans_for("Rust", src);
    assert_eq!(classes(src, &spans, TokenClass::String), vec!["\"a b\""]);
}
