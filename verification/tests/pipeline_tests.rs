use flyover::font::Atlas;
use flyover::grammars::{Import, Parsed, Symbol};
use flyover::index::{
    file_record, header_verdict, is_oversize, name_verdict, oversize_record, to_slash, ContentHasher,
};
use flyover::exclude::Reason;
use flyover::layout::{default_repo_name, paths_index};
use flyover::loader::{Job, JobQueue};
use flyover::manifest::{check_format_version, ManifestError, FORMAT_VERSION};
use flyover::paths::PathsIndex;
use flyover::text::{encode_spans, TextTile, TokenSpan};
use flyover::textgrid::{layout_plan, MAX_GLYPHS, MAX_STRIPS};
use flyover::tileset::TileKey;
use flyover::tree::FileRow;

fn job(priority: i64, z: u8, x: u32, y: u32) -> Job {
    Job { priority, key: TileKey::new(z, x, y) }
}

#[test]
fn the_queue_hands_out_the_most_urgent_job_first() {
    let mut q = JobQueue::new();
    assert!(q.is_empty());
    q.push(job(1, 0, 0, 0));
    q.push(job(5, 2, 1, 1));
    q.push(job(5, 2, 0, 3));
    q.push(job(-3, 1, 1, 0));
    assert_eq!(q.len(), 4);
    assert_eq!(q.pop(), Some(job(5, 2, 1, 1)));
    assert_eq!(q.pop(), Some(job(5, 2, 0, 3)));
    assert_eq!(q.pop(), Some(job(1, 0, 0, 0)));
    assert_eq!(q.pop(), Some(job(-3, 1, 1, 0)));
    assert_eq!(q.pop(), None);
    assert!(q.is_empty());
}

#[test]
fn equal_jobs_are_both_kept() {
    let mut q = JobQueue::new();
    q.push(job(2, 1, 0, 0));
    q.push(job(2, 1, 0, 0));
    assert_eq!(q.len(), 2);
    assert_eq!(q.pop(), Some(job(2, 1, 0, 0)));
    assert_eq!(q.pop(), Some(job(2, 1, 0, 0)));
    assert_eq!(q.pop(), None);
}

#[test]
fn an_oversize_file_is_recorded_without_lines() {
    let mut digest = ContentHasher::new();
    digest.update(b"col_a,col_b\n");
    digest.update(b"1,2\n");
    let r = oversize_record("big/data.csv".into(), "CSV".into(), 50 << 20, &digest);
    assert_eq!(r.path, "big/data.csv");
    assert_eq!(r.bytes, 50 << 20);
    assert_eq!(r.lines, 0);
    assert!(r.is_oversize && !r.parsed && !r.is_binary);
    assert_eq!(r.hash, blake3::hash(b"col_a,col_b\n1,2\n").to_hex().to_string());
    assert!(r.text.is_none() && r.tokens.is_empty());
}

#[test]
fn a_streamed_digest_matches_the_whole_file_digest() {
    let data: Vec<u8> = (0..200_000u32).map(|i| (i % 251) as u8 + 1).collect();
    let mut digest = ContentHasher::new();
    for chunk in data.chunks(65_536) {
        digest.update(chunk);
    }
    let (hex, binary) = digest.finish();
    assert_eq!(hex, blake3::hash(&data).to_hex().to_string());
    assert!(!binary);
    let whole = file_record("f".into(), "Text".into(), data.len() as u64, &data, None);
    assert_eq!(whole.hash, hex);
}

#[test]
fn only_the_first_chunk_is_sniffed_for_binary() {
    let mut digest = ContentHasher::new();
    digest.update(b"");
    digest.update(b"\0binary");
    digest.update(b"text");
    assert!(digest.finish().1);
    let mut later = ContentHasher::new();
    later.update(b"text first");
    later.update(b"\0then binary");
    assert!(!later.finish().1);
    let empty = ContentHasher::new();
    assert_eq!(empty.finish(), (blake3::hash(b"").to_hex().to_string(), false));
}

#[test]
fn the_per_file_verdicts_follow_the_exclusion_rules() {
    assert_eq!(name_verdict("Cargo.lock", false), Some(Reason::Lockfile));
    assert_eq!(name_verdict("app.min.js", false), Some(Reason::Minified));
    assert_eq!(name_verdict("Cargo.lock", true), None);
    assert_eq!(name_verdict("main.rs", false), None);
    assert!(!is_oversize(2 * 1024 * 1024));
    assert!(is_oversize(2 * 1024 * 1024 + 1));
    assert_eq!(header_verdict(b"// Code generated by x. DO NOT EDIT.\n", false), Some(Reason::Generated));
    assert_eq!(header_verdict(b"// @generated\nfn f() {}", true), None);
    assert_eq!(header_verdict(b"\0// @generated", false), None);
    assert_eq!(header_verdict(b"fn main() {}\n", false), None);
    let mut late = vec![b' '; 9000];
    late.extend_from_slice(b"@generated");
    assert_eq!(header_verdict(&late, false), None);
}

#[test]
fn a_text_file_gets_its_hash_and_line_count() {
    let r = file_record("a.txt".into(), "Text".into(), 6, b"hi\nyo\n", None);
    assert_eq!(r.hash, blake3::hash(b"hi\nyo\n").to_hex().to_string());
    assert_eq!(r.lines, 2);
    assert!(!r.is_binary && !r.is_oversize && !r.parsed);
    assert!(r.text.is_none());
}

#[test]
fn the_empty_file_hashes_to_the_blake3_of_nothing() {
    let r = file_record("empty".into(), "Other".into(), 0, b"", None);
    assert_eq!(r.hash, "af1349b9f5f9a1a6a0404dea36dcc9499bcb25c9adc112b7cc9a93cae41f3262");
    assert_eq!(r.lines, 0);
}

#[test]
fn a_binary_file_is_recorded_but_not_counted() {
    let bytes = b"\x7fELF\0\0\x01";
    let parsed = Parsed { symbols: vec![], imports: vec![], tokens: vec![] };
    let r = file_record("bin/tool".into(), "Other".into(), 7, bytes, Some(parsed));
    assert!(r.is_binary);
    assert_eq!(r.lines, 0);
    assert!(!r.parsed && r.text.is_none() && r.tokens.is_empty());
}

#[test]
fn a_parsed_file_keeps_its_symbols_tokens_and_compressed_source() {
    let source = b"fn main() {}\n";
    let tokens = vec![TokenSpan { start: 0, len: 2, class: 1 }, TokenSpan { start: 3, len: 4, class: 5 }];
    let parsed = Parsed {
        symbols: vec![Symbol { start_line: 1, end_line: 1, kind: "function".into(), name: "main".into() }],
        imports: vec![Import { line: 1, module: "std".into() }],
        tokens: tokens.clone(),
    };
    let r = file_record("src/main.rs".into(), "Rust".into(), 13, source, Some(parsed));
    assert!(r.parsed);
    assert_eq!(r.lines, 1);
    assert_eq!(r.symbols.len(), 1);
    assert_eq!(r.symbols[0].name, "main");
    assert_eq!(r.imports[0].module, "std");
    assert_eq!(r.tokens, encode_spans(&tokens));
    let text = r.text.expect("compressed source");
    assert_ne!(text, source.to_vec());
    assert_eq!(zstd::stream::decode_all(&text[..]).unwrap(), source.to_vec());
}

#[test]
fn backslashes_become_forward_slashes() {
    assert_eq!(to_slash("src\\lib\\mod.rs"), "src/lib/mod.rs");
    assert_eq!(to_slash("already/fine"), "already/fine");
    assert_eq!(to_slash(""), "");
}

fn row(id: u32, path: &str, lines: u64, bytes: u64) -> FileRow {
    FileRow { id, path: path.into(), language: "Rust".into(), bytes, lines }
}

#[test]
fn the_path_index_clamps_counts_and_round_trips() {
    let files = vec![row(9, "b.rs", 3, 40), row(2, "a.rs", 1 << 40, 1 << 33)];
    let index = paths_index(&files);
    assert_eq!(index.entries.len(), 2);
    assert_eq!(index.entries[0].id, 9);
    assert_eq!(index.entries[1].lines, u32::MAX);
    assert_eq!(index.entries[1].bytes, u32::MAX);
    let back = PathsIndex::decode(&index.encode()).unwrap();
    assert_eq!(back.entries[0].id, 2);
    assert_eq!(back.entries[0].path, "a.rs");
    assert_eq!(back.entries[1].path, "b.rs");
}

#[test]
fn the_repo_name_defaults_to_the_index_directory() {
    assert_eq!(default_repo_name("x/repo/index.db"), "repo");
    assert_eq!(default_repo_name("/tmp/out/flyover/index.db"), "flyover");
    assert_eq!(default_repo_name("index.db"), "repo");
    assert_eq!(default_repo_name("./index.db"), "repo");
}

#[test]
fn a_newer_format_version_is_refused() {
    assert_eq!(check_format_version(FORMAT_VERSION), Ok(()));
    assert_eq!(
        check_format_version(FORMAT_VERSION + 1),
        Err(ManifestError::Version { found: FORMAT_VERSION + 1, expected: FORMAT_VERSION })
    );
}

fn atlas_bytes() -> Vec<u8> {
    let mut b = b"FATL".to_vec();
    for v in [1u32, 4, 2, 10, 12, 16, 95, 32] {
        b.extend_from_slice(&v.to_le_bytes());
    }
    for v in [0.6f32, 1.2, -0.1, -0.25, 0.55, 1.1, 0.1] {
        b.extend_from_slice(&v.to_bits().to_le_bytes());
    }
    b.extend(std::iter::repeat(128u8).take(8));
    b
}

fn tile(text: &str, spans: Vec<TokenSpan>) -> TextTile {
    TextTile { file_id: 7, text: text.into(), spans }
}

#[test]
fn an_empty_file_plans_no_glyphs_and_no_bars() {
    let bytes = atlas_bytes();
    let atlas = Atlas::parse(&bytes).unwrap();
    let plan = layout_plan(&tile("", vec![]), 0, &atlas);
    assert!(plan.glyphs.is_empty());
    assert!(plan.strips.is_empty());
}

#[test]
fn a_huge_file_is_capped() {
    let bytes = atlas_bytes();
    let atlas = Atlas::parse(&bytes).unwrap();
    let text = "let value = compute(x);\n".repeat(8000);
    let plan = layout_plan(&tile(&text, vec![]), 0, &atlas);
    assert!(plan.glyphs.len() <= MAX_GLYPHS);
    assert!(plan.strips.len() <= MAX_STRIPS);
}

#[test]
fn a_huge_file_plan_is_capped() {
    let bytes = atlas_bytes();
    let atlas = Atlas::parse(&bytes).unwrap();
    let text = "let value = compute(x);\n".repeat(8000);
    let plan = layout_plan(&tile(&text, vec![]), 0, &atlas);
    // One window of 1024 lines, 20 drawn characters and 4 runs on each.
    assert_eq!(plan.glyphs.len(), 1024 * 20);
    assert_eq!(plan.strips.len(), 1024 * 4);
    let wide = format!("{}\n", "x".repeat(100)).repeat(2000);
    let plan = layout_plan(&tile(&wide, vec![]), 0, &atlas);
    assert_eq!(plan.glyphs.len(), MAX_GLYPHS);
    assert_eq!(plan.strips.len(), 1024);
}

#[test]
fn token_runs_each_get_a_bar() {
    let bytes = atlas_bytes();
    let atlas = Atlas::parse(&bytes).unwrap();
    let spans = vec![
        TokenSpan { start: 0, len: 3, class: 1 },
        TokenSpan { start: 4, len: 1, class: 7 },
        TokenSpan { start: 8, len: 1, class: 4 },
    ];
    let plan = layout_plan(&tile("let x = 1;\n", spans), 0, &atlas);
    let classes: Vec<u8> = plan.strips.iter().map(|s| s.class).collect();
    assert_eq!(classes, vec![1, 7, 0, 4, 0]);
    assert_eq!(plan.glyphs.len(), 7);
    let again = layout_plan(&tile("let x = 1;\n", plan_spans()), 0, &atlas);
    assert_eq!(again.glyphs, plan.glyphs);
    assert_eq!(again.strips, plan.strips);
}

fn plan_spans() -> Vec<TokenSpan> {
    vec![
        TokenSpan { start: 0, len: 3, class: 1 },
        TokenSpan { start: 4, len: 1, class: 7 },
        TokenSpan { start: 8, len: 1, class: 4 },
    ]
}
