use flyover::grammars::{Import, Symbol};
use flyover::symbols::{imports_from, parsed_from, sorted_imports, sorted_symbols, symbols_from, Capture, QueryMatch};
use flyover::tokens::Leaf;

fn cap(name: &str, text: Option<&str>, start_row: u32, end_row: u32) -> Capture {
    Capture { name: name.into(), text: text.map(|t| t.into()), start_row, end_row }
}

fn m(captures: Vec<Capture>) -> QueryMatch {
    QueryMatch { captures }
}

fn sym(start_line: u32, end_line: u32, kind: &str, name: &str) -> Symbol {
    Symbol { start_line, end_line, kind: kind.into(), name: name.into() }
}

fn imp(line: u32, module: &str) -> Import {
    Import { line, module: module.into() }
}

#[test]
fn a_definition_and_its_name_make_a_symbol() {
    let matches = vec![
        m(vec![cap("def.function", Some("fn add() {}"), 1, 3), cap("name", Some("add"), 1, 1)]),
        m(vec![cap("name", Some("orphan"), 5, 5)]),
        m(vec![cap("def.struct", Some("struct S;"), 7, 7), cap("name", Some(""), 7, 7)]),
        m(vec![cap("def.type", Some("type T = u8;"), 9, 9), cap("other", None, 9, 9), cap("name", Some("T"), 9, 9)]),
    ];
    assert_eq!(symbols_from(&matches), vec![sym(2, 4, "function", "add"), sym(10, 10, "type", "T")]);
}

#[test]
fn the_last_name_and_definition_of_a_match_win() {
    let matches = vec![m(vec![
        cap("name", Some("first"), 0, 0),
        cap("def.class", Some("class A"), 0, 4),
        cap("def.method", Some("def m"), 2, 3),
        cap("name", Some("second"), 2, 2),
    ])];
    assert_eq!(symbols_from(&matches), vec![sym(3, 4, "method", "second")]);
    let unreadable = vec![m(vec![cap("def.function", None, 0, 0), cap("name", Some("ok"), 0, 0), cap("name", None, 0, 0)])];
    assert!(symbols_from(&unreadable).is_empty());
}

#[test]
fn imports_are_cleaned_and_calls_filtered() {
    let callees = vec!["require".to_string()];
    let matches = vec![
        m(vec![cap("import", Some("\"./util\""), 0, 0)]),
        m(vec![cap("callee", Some("require"), 2, 2), cap("import", Some("'fs'"), 2, 2)]),
        m(vec![cap("callee", Some("print"), 3, 3), cap("import", Some("'nope'"), 3, 3)]),
        m(vec![cap("import", Some("  ''  "), 4, 4)]),
        m(vec![cap("import", None, 5, 5)]),
    ];
    assert_eq!(imports_from(&matches, &callees), vec![imp(1, "./util"), imp(3, "fs")]);
    assert_eq!(imports_from(&matches, &Vec::new()), vec![imp(1, "./util")]);
}

#[test]
fn symbols_and_imports_come_out_sorted_and_once() {
    let symbols = vec![sym(3, 3, "fn", "b"), sym(1, 2, "fn", "a"), sym(3, 3, "fn", "b"), sym(3, 3, "const", "z")];
    assert_eq!(
        sorted_symbols(symbols),
        vec![sym(1, 2, "fn", "a"), sym(3, 3, "const", "z"), sym(3, 3, "fn", "b")]
    );
    let imports = vec![imp(2, "b"), imp(2, "a"), imp(1, "z"), imp(2, "a")];
    assert_eq!(sorted_imports(imports), vec![imp(1, "z"), imp(2, "a"), imp(2, "b")]);
}

#[test]
fn a_parse_yields_sorted_symbols_imports_and_spans() {
    let source = "use a;\nfn f() {}\n";
    let symbol_matches = vec![
        m(vec![cap("def.function", Some("fn f() {}"), 1, 1), cap("name", Some("f"), 1, 1)]),
        m(vec![cap("def.function", Some("fn f() {}"), 1, 1), cap("name", Some("f"), 1, 1)]),
    ];
    let import_matches = vec![m(vec![cap("import", Some("a"), 0, 0)])];
    let leaf = |start: usize, end: usize, kind: &str, named: bool| Leaf {
        start,
        end,
        kind: kind.into(),
        named,
        extra: false,
        text: source[start..end].into(),
        parent: String::new(),
    };
    let leaves = vec![leaf(0, 3, "use", false), leaf(7, 9, "fn", false)];
    let parsed = parsed_from(&symbol_matches, &import_matches, &Vec::new(), &leaves, source);
    assert_eq!(parsed.symbols, vec![sym(2, 2, "function", "f")]);
    assert_eq!(parsed.imports, vec![imp(1, "a")]);
    assert_eq!(parsed.tokens.len(), 2);
    assert_eq!((parsed.tokens[0].start, parsed.tokens[0].len), (0, 3));
    assert_eq!((parsed.tokens[1].start, parsed.tokens[1].len), (7, 2));
}
