use flyover::grammars::registry;
use flyover::index::index_file;
use flyover::exclude::{excluded_by_header, excluded_by_name, excluded_dir, Reason};
use flyover::index::{sorted_excluded, ExcludedEntry};
use flyover::grammars::{clean_import, grammar_key};
use flyover::language::{detect, language_for, UNKNOWN};
use flyover::scan::{count_lines, is_binary, LanguageStats, ScanReport, MAX_TEXT_BYTES};
use flyover::tokens::{classify, is_atomic, spans_from_leaves, Leaf, TokenClass};

#[test]
fn detects_by_extension_case_insensitively() {
    assert_eq!(detect("src/main.rs"), "Rust");
    assert_eq!(detect("a/b/View.TSX"), "TypeScript");
    assert_eq!(detect("net/socket.cc"), "C++");
}

#[test]
fn detects_by_file_name() {
    assert_eq!(detect("chrome/BUILD.gn"), "GN");
    assert_eq!(detect("Dockerfile"), "Dockerfile");
}

#[test]
fn unknown_falls_back_to_other() {
    assert_eq!(detect("LICENSE"), UNKNOWN);
    assert_eq!(detect("data.xyz"), UNKNOWN);
}

#[test]
fn language_for_prefers_the_exact_name() {
    assert_eq!(language_for(Some("Makefile"), None), "Makefile");
    assert_eq!(language_for(Some("BUILD.gn"), Some("gn")), "GN");
    assert_eq!(language_for(Some("x.PY"), Some("PY")), "Python");
    assert_eq!(language_for(None, None), "Other");
    assert_eq!(detect("a/b/"), "Other");
}

#[test]
fn counts_lines_with_and_without_trailing_newline() {
    assert_eq!(count_lines(b""), 0);
    assert_eq!(count_lines(b"a"), 1);
    assert_eq!(count_lines(b"a\n"), 1);
    assert_eq!(count_lines(b"a\nb"), 2);
    assert_eq!(count_lines(b"a\nb\n"), 2);
}

#[test]
fn a_nul_near_the_start_means_binary() {
    assert!(is_binary(&[0u8, 1, 2, 3]));
    assert!(!is_binary(b"fn main() {}\n"));
    let mut late = vec![b'a'; 9000];
    late[8500] = 0;
    assert!(!is_binary(&late));
    late[8000] = 0;
    assert!(is_binary(&late));
}

#[test]
fn the_report_counts_text_files_per_language() {
    let mut report = ScanReport::new();
    report.add_file("Rust", 14, b"fn main() {\n}\n");
    report.add_file("TypeScript", 11, b"export {};\n");
    report.add_file("Rust", 3, b"x\ny");
    report.add_file("Other", 4, &[0u8, 1, 2, 3]);
    report.note_oversize();
    assert_eq!(report.files, 3);
    assert_eq!(report.lines, 5);
    assert_eq!(report.bytes, 28);
    assert_eq!(report.skipped_binary, 1);
    assert_eq!(report.skipped_oversize, 1);
    assert_eq!(
        report.stats_for("Rust"),
        Some(LanguageStats { files: 2, lines: 4, bytes: 17 })
    );
    assert_eq!(report.stats_for("TypeScript").unwrap().files, 1);
    assert_eq!(report.stats_for("JavaScript"), None);
    assert_eq!(MAX_TEXT_BYTES, 2 * 1024 * 1024);
}

#[test]
fn tsx_gets_its_own_grammar() {
    assert_eq!(grammar_key("TypeScript", Some("tsx")), "TSX");
    assert_eq!(grammar_key("TypeScript", Some("ts")), "TypeScript");
    assert_eq!(grammar_key("Rust", Some("tsx")), "Rust");
    assert_eq!(grammar_key("TypeScript", None), "TypeScript");
}

#[test]
fn imports_lose_one_layer_of_quotes() {
    assert_eq!(clean_import("\"fmt\""), "fmt");
    assert_eq!(clean_import("  <stdio.h> "), "stdio.h");
    assert_eq!(clean_import("'a'"), "a");
    assert_eq!(clean_import("`b`"), "b");
    assert_eq!(clean_import("\"\"x\"\""), "\"x\"");
    assert_eq!(clean_import("std::collections::BTreeMap"), "std::collections::BTreeMap");
    assert_eq!(clean_import("\"unbalanced'"), "\"unbalanced'");
    assert_eq!(clean_import("\""), "\"");
    assert_eq!(clean_import(""), "");
}

#[test]
fn leaves_are_classified_by_kind() {
    assert_eq!(classify("line_comment", true, "// hi", "source_file"), TokenClass::Comment);
    assert_eq!(classify("string_literal", true, "\"x\"", "call"), TokenClass::String);
    assert_eq!(classify("integer_literal", true, "1", "binary_expression"), TokenClass::Number);
    assert_eq!(classify("fn", false, "fn", "function_item"), TokenClass::Keyword);
    assert_eq!(classify("+", false, "+", "binary_expression"), TokenClass::Operator);
    assert_eq!(classify("(", false, "(", "parameters"), TokenClass::Punctuation);
    assert_eq!(classify("primitive_type", true, "i32", "parameter"), TokenClass::Type);
    assert_eq!(classify("identifier", true, "add", "function_item"), TokenClass::Function);
    assert_eq!(classify("identifier", true, "a", "parameter"), TokenClass::Variable);
    assert_eq!(classify("true", true, "true", "x"), TokenClass::Keyword);
    assert_eq!(classify("block", true, "{}", "x"), TokenClass::Other);
    assert_eq!(TokenClass::Punctuation.as_u8(), 9);
    assert_eq!(TokenClass::Other.as_u8(), 0);
    assert!(is_atomic("block_comment"));
    assert!(is_atomic("raw_string_literal"));
    assert!(!is_atomic("identifier"));
}

fn leaf(start: usize, end: usize, kind: &str, named: bool, text: &str) -> Leaf {
    Leaf {
        start,
        end,
        kind: kind.to_string(),
        named,
        extra: false,
        text: text.to_string(),
        parent: "function_item".to_string(),
    }
}

#[test]
fn leaf_spans_are_ordered_and_inside_the_source() {
    let src = "fn main() {}";
    let leaves = vec![
        leaf(3, 7, "identifier", true, "main"),
        leaf(0, 2, "fn", false, "fn"),
        leaf(0, 2, "identifier", true, "fn"),
        leaf(7, 8, "(", false, "("),
        leaf(20, 30, "identifier", true, "gone"),
        leaf(9, 9, "identifier", true, ""),
    ];
    let spans = spans_from_leaves(&leaves, src);
    assert_eq!(spans.len(), 3);
    let mut last = 0;
    for s in &spans {
        assert!(s.start >= last);
        assert!((s.start + s.len) as usize <= src.len());
        last = s.start;
    }
    assert_eq!(spans[0].class, TokenClass::Keyword.as_u8());
    assert_eq!(spans[1].class, TokenClass::Function.as_u8());
    assert_eq!(spans[2].class, TokenClass::Punctuation.as_u8());
}

#[test]
fn only_the_last_dot_starts_the_extension() {
    assert_eq!(detect("pkg/lib.tar.RS"), "Rust");
    assert_eq!(detect("pkg/.rs"), UNKNOWN);
    assert_eq!(detect("pkg/notes."), UNKNOWN);
    assert_eq!(detect("pkg/noext"), UNKNOWN);
}

#[test]
fn lockfiles_and_minified_scripts_are_excluded_by_name() {
    assert_eq!(excluded_by_name("package-lock.json"), Some(Reason::Lockfile));
    assert_eq!(excluded_by_name("Cargo.lock"), Some(Reason::Lockfile));
    assert_eq!(excluded_by_name("bundle.min.js"), Some(Reason::Minified));
    assert_eq!(excluded_by_name("keep.rs"), None);
    assert_eq!(excluded_by_name("min.js"), None);
    assert_eq!(Reason::Lockfile.as_str(), "lockfile");
    assert_eq!(Reason::Minified.as_str(), "minified");
}

#[test]
fn vendored_directories_are_pruned_by_name() {
    assert_eq!(excluded_dir("node_modules"), Some(Reason::NodeModules));
    assert_eq!(excluded_dir("vendor"), Some(Reason::Vendor));
    assert_eq!(excluded_dir("dist"), Some(Reason::Dist));
    assert_eq!(excluded_dir("third_party"), Some(Reason::ThirdParty));
    assert_eq!(excluded_dir("src"), None);
    assert_eq!(Reason::NodeModules.as_str(), "node_modules");
    assert_eq!(Reason::ThirdParty.as_str(), "third_party");
}

#[test]
fn generated_headers_are_recognised() {
    assert_eq!(excluded_by_header(b"// @generated by tool\npub fn g() {}\n"), Some(Reason::Generated));
    assert_eq!(excluded_by_header(b"// Code generated by protoc. DO NOT EDIT.\n"), Some(Reason::Generated));
    assert_eq!(excluded_by_header(b"pub fn keep() {}\n"), None);
    assert_eq!(excluded_by_header(b""), None);
    assert_eq!(Reason::Generated.as_str(), "generated");
}

#[test]
fn excluded_entries_come_out_in_path_order() {
    let e = |p: &str, r: &str| ExcludedEntry { path: p.into(), reason: r.into() };
    let out = sorted_excluded(vec![e("vendor", "vendor"), e("gen.rs", "generated"), e("dist", "dist"), e("bundle.min.js", "minified")]);
    let paths: Vec<&str> = out.iter().map(|x| x.path.as_str()).collect();
    assert_eq!(paths, vec!["bundle.min.js", "dist", "gen.rs", "vendor"]);
    assert_eq!(out[2].reason, "generated");
}

#[test]
fn exact_names_win_and_extension_case_does_not_matter() {
    assert_eq!(detect("x/CMakeLists.txt"), "CMake");
    assert_eq!(detect("BUILD.bazel"), "Starlark");
    assert_eq!(detect("a/lib.PY"), detect("b/c/other.py"));
    assert_eq!(detect("a/lib.Go"), "Go");
}

#[test]
fn a_read_file_is_parsed_only_with_a_grammar_and_as_utf8_text() {
    let reg = registry().ok().unwrap();
    let rust = reg.get("Rust");
    let src = b"fn main() {}\n";
    let r = index_file("src/main.rs".into(), "Rust".into(), src.len() as u64, src, rust, None);
    assert!(r.parsed && !r.is_binary && !r.is_oversize);
    assert_eq!(r.lines, 1);
    assert_eq!(r.symbols.len(), 1);
    assert_eq!(r.symbols[0].name, "main");
    assert!(!r.tokens.is_empty());
    assert_eq!(r.hash, blake3::hash(src).to_hex().to_string());
    let plain = index_file("notes.txt".into(), "Text".into(), src.len() as u64, src, None, None);
    assert!(!plain.parsed && plain.symbols.is_empty() && plain.text.is_none());
    let latin1 = b"fn f\xE9() {}\n";
    let bad = index_file("x.rs".into(), "Rust".into(), latin1.len() as u64, latin1, rust, None);
    assert!(!bad.parsed && bad.lines == 1);
    let bin = b"fn\0main";
    let b = index_file("x.rs".into(), "Rust".into(), bin.len() as u64, bin, rust, None);
    assert!(b.is_binary && !b.parsed && b.lines == 0);
}
