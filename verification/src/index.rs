//! What the indexer records for each file it reads: the row of the `files` table with the
//! symbols, imports, compressed source and packed token spans of the files it parsed.

use vstd::prelude::*;
use crate::compress::{zstd_compress, zstd_compressed};
use crate::exclude::{excluded_by_header, excluded_by_name, generated_header, name_exclusion, Reason};
use crate::grammars::{parse, parse_result, Grammar, Import, Parsed, Symbol};
use crate::scan::{binary_bytes, count_lines, is_binary, line_count, MAX_TEXT_BYTES, SNIFF_BYTES};
use crate::strings::{chars_of, push_char, string_from_utf8};
use vstd::utf8::{decode_utf8, valid_utf8};
use crate::text::{encode_spans, spans_bytes};
use crate::tree::{lex_lt, text_less};
use vstd::multiset::Multiset;

verus! {

/// Compression level for stored source text; it is decompressed again at layout time.
pub const TEXT_ZSTD_LEVEL: i32 = 9;

/// The lowercase hex BLAKE3 digest of `data`.
pub uninterp spec fn blake3_hex(data: Seq<u8>) -> Seq<char>;

/// `blake3::hash` of `data`, written as lowercase hex by `to_hex`. The contract names the digest
/// and says nothing more of it.
#[verifier::external_body]
fn content_hash(data: &[u8]) -> (r: String)
    ensures
        r@ == blake3_hex(data@),
{
    blake3::hash(data).to_hex().to_string()
}

#[verifier::external_type_specification]
#[verifier::external_body]
pub struct ExBlake3Hasher(blake3::Hasher);

/// The bytes a `blake3::Hasher` has been fed, in order.
pub uninterp spec fn hasher_input(h: blake3::Hasher) -> Seq<u8>;

/// `blake3::Hasher::new`: a hasher that has been fed nothing.
#[verifier::external_body]
fn hasher_new() -> (h: blake3::Hasher)
    ensures
        hasher_input(h) == Seq::<u8>::empty(),
{
    blake3::Hasher::new()
}

/// `blake3::Hasher::update`: feeds `chunk` after what the hasher has already been fed.
#[verifier::external_body]
fn hasher_update(h: &mut blake3::Hasher, chunk: &[u8])
    ensures
        hasher_input(*final(h)) == hasher_input(*old(h)) + chunk@,
{
    h.update(chunk);
}

/// `blake3::Hasher::finalize`, written as lowercase hex by `to_hex`. blake3 documents that
/// feeding input in pieces gives the digest `blake3::hash` gives for the pieces joined, so the
/// result is the digest of everything fed.
#[verifier::external_body]
fn hasher_hex(h: &blake3::Hasher) -> (r: String)
    ensures
        r@ == blake3_hex(hasher_input(*h)),
{
    h.finalize().to_hex().to_string()
}

/// The digest of a file streamed in chunks, with the binary sniff of its first chunk.
pub struct ContentHasher {
    hasher: blake3::Hasher,
    first_binary: Option<bool>,
}

impl ContentHasher {
    /// Everything fed so far, in order.
    pub closed spec fn seen(&self) -> Seq<u8> {
        hasher_input(self.hasher)
    }

    /// Whether the first non-empty chunk fed holds a NUL in its first [`SNIFF_BYTES`]; none
    /// before such a chunk.
    pub closed spec fn first_chunk_binary(&self) -> Option<bool> {
        self.first_binary
    }

    /// A hasher that has seen nothing.
    pub fn new() -> (h: ContentHasher)
        ensures
            h.seen() == Seq::<u8>::empty(),
            h.first_chunk_binary() is None,
    {
        ContentHasher { hasher: hasher_new(), first_binary: None }
    }

    /// Feed the next chunk of the file.
    pub fn update(&mut self, chunk: &[u8])
        ensures
            final(self).seen() == old(self).seen() + chunk@,
            final(self).first_chunk_binary() == if old(self).first_chunk_binary() is None && chunk@.len() > 0 {
                Some(binary_bytes(chunk@))
            } else {
                old(self).first_chunk_binary()
            },
    {
        if self.first_binary.is_none() && chunk.len() > 0 {
            self.first_binary = Some(is_binary(chunk));
        }
        hasher_update(&mut self.hasher, chunk);
    }

    /// The lowercase hex digest of everything fed, and whether the first chunk was binary.
    pub fn finish(&self) -> (r: (String, bool))
        ensures
            r.0@ == blake3_hex(self.seen()),
            r.1 == (self.first_chunk_binary() == Some(true)),
    {
        let hex = hasher_hex(&self.hasher);
        let binary = match self.first_binary {
            Some(b) => b,
            None => false,
        };
        (hex, binary)
    }
}

/// One row of the `files` table plus the symbols and imports found in it.
pub struct FileRecord {
    pub path: String,
    pub language: String,
    pub bytes: u64,
    pub lines: u64,
    pub hash: String,
    pub is_binary: bool,
    pub is_oversize: bool,
    pub parsed: bool,
    pub symbols: Vec<Symbol>,
    pub imports: Vec<Import>,
    /// zstd-compressed UTF-8 source, kept only for parsed files.
    pub text: Option<Vec<u8>>,
    /// Packed token spans.
    pub tokens: Vec<u8>,
}

/// One row of the `excluded` table.
pub struct ExcludedEntry {
    pub path: String,
    pub reason: String,
}

/// Everything the database writer needs, in path order.
pub struct IndexData {
    pub files: Vec<FileRecord>,
    pub excluded: Vec<ExcludedEntry>,
}

/// The record of a file too large to read line by line: its size, the digest and binary sniff
/// of what `digest` was fed while the file was streamed through it, no lines, not parsed.
pub fn oversize_record(path: String, language: String, size: u64, digest: &ContentHasher) -> (r: FileRecord)
    ensures
        r.path == path && r.language == language && r.hash@ == blake3_hex(digest.seen()),
        r.bytes == size && r.lines == 0,
        r.is_binary == (digest.first_chunk_binary() == Some(true)) && r.is_oversize && !r.parsed,
        r.symbols@.len() == 0 && r.imports@.len() == 0 && r.text is None && r.tokens@.len() == 0,
{
    let (hash, is_binary) = digest.finish();
    FileRecord {
        path,
        language,
        bytes: size,
        lines: 0,
        hash,
        is_binary,
        is_oversize: true,
        parsed: false,
        symbols: Vec::new(),
        imports: Vec::new(),
        text: None,
        tokens: Vec::new(),
    }
}

/// The record of a file read whole: its digest, and then either the binary flag (nothing else
/// is read from a binary file) or its line count, with, for a file the grammar parsed, its
/// symbols, imports, token spans and compressed source.
pub fn file_record(path: String, language: String, size: u64, bytes: &[u8], parsed: Option<Parsed>) -> (r: FileRecord)
    ensures
        r.path == path && r.language == language && r.bytes == size,
        r.hash@ == blake3_hex(bytes@),
        !r.is_oversize,
        r.is_binary == binary_bytes(bytes@),
        binary_bytes(bytes@) ==> r.lines == 0 && !r.parsed && r.symbols@.len() == 0 && r.imports@.len() == 0
            && r.text is None && r.tokens@.len() == 0,
        !binary_bytes(bytes@) ==> r.lines == line_count(bytes@),
        !binary_bytes(bytes@) ==> match parsed {
            Some(p) => {
                &&& r.parsed
                &&& r.symbols@ == p.symbols@
                &&& r.imports@ == p.imports@
                &&& r.tokens@ == spans_bytes(p.tokens@, 0)
                &&& r.text matches Some(t) ==> t@ == zstd_compressed(bytes@, TEXT_ZSTD_LEVEL)
            },
            None => !r.parsed && r.symbols@.len() == 0 && r.imports@.len() == 0 && r.text is None
                && r.tokens@.len() == 0,
        },
{
    let hash = content_hash(bytes);
    if is_binary(bytes) {
        return FileRecord {
            path,
            language,
            bytes: size,
            lines: 0,
            hash,
            is_binary: true,
            is_oversize: false,
            parsed: false,
            symbols: Vec::new(),
            imports: Vec::new(),
            text: None,
            tokens: Vec::new(),
        };
    }
    let lines = count_lines(bytes);
    match parsed {
        Some(p) => {
            let text = match zstd_compress(bytes, TEXT_ZSTD_LEVEL) {
                Ok(t) => Some(t),
                Err(_) => None,
            };
            let tokens = encode_spans(p.tokens.as_slice());
            FileRecord {
                path,
                language,
                bytes: size,
                lines,
                hash,
                is_binary: false,
                is_oversize: false,
                parsed: true,
                symbols: p.symbols,
                imports: p.imports,
                text,
                tokens,
            }
        },
        None => FileRecord {
            path,
            language,
            bytes: size,
            lines,
            hash,
            is_binary: false,
            is_oversize: false,
            parsed: false,
            symbols: Vec::new(),
            imports: Vec::new(),
            text: None,
            tokens: Vec::new(),
        },
    }
}

/// `s` with every backslash turned into a forward slash.
pub open spec fn slashed(s: Seq<char>) -> Seq<char> {
    s.map_values(|c: char| if c == '\\' { '/' } else { c })
}

/// A repo-relative path with forward slashes, so output is identical across platforms.
pub fn to_slash(path: &str) -> (r: String)
    ensures
        r@ == slashed(path@),
{
    let cs = chars_of(path);
    let mut out = String::new();
    let mut i: usize = 0;
    while i < cs.len()
        invariant
            i <= cs@.len(),
            cs@ == path@,
            out@ == slashed(cs@.take(i as int)),
        decreases cs.len() - i,
    {
        let c = cs[i];
        push_char(&mut out, if c == '\\' { '/' } else { c });
        i = i + 1;
        assert(out@ =~= slashed(cs@.take(i as int)));
    }
    assert(cs@.take(cs@.len() as int) =~= cs@);
    out
}

/// An excluded entry as a mathematical value: its path and reason.
pub open spec fn excluded_key(e: ExcludedEntry) -> (Seq<char>, Seq<char>) {
    (e.path@, e.reason@)
}

/// The keys of excluded entries, in order.
pub open spec fn excluded_keys(v: Seq<ExcludedEntry>) -> Seq<(Seq<char>, Seq<char>)> {
    v.map_values(|e: ExcludedEntry| excluded_key(e))
}

/// The entries are in path order.
pub open spec fn by_path(s: Seq<(Seq<char>, Seq<char>)>) -> bool {
    forall|i: int, j: int| 0 <= i < j < s.len() ==> !lex_lt(#[trigger] s[j].0, #[trigger] s[i].0)
}

/// Insert `e` after every entry whose path does not sort after its own.
fn insert_by_path(v: &mut Vec<ExcludedEntry>, e: ExcludedEntry)
    requires
        by_path(excluded_keys(old(v)@)),
    ensures
        by_path(excluded_keys(final(v)@)),
        excluded_keys(final(v)@).to_multiset() == excluded_keys(old(v)@).to_multiset().insert(excluded_key(e)),
{
    broadcast use vstd::seq_lib::group_to_multiset_ensures;
    let ghost before = excluded_keys(v@);
    let ghost k = excluded_key(e);
    let mut i: usize = 0;
    while i < v.len() && !text_less(e.path.as_str(), v[i].path.as_str())
        invariant
            i <= v@.len(),
            excluded_keys(v@) == before,
            k == excluded_key(e),
            by_path(before),
            forall|j: int| 0 <= j < i ==> !lex_lt(k.0, #[trigger] before[j].0),
        decreases v@.len() - i,
    {
        assert(before[i as int] == excluded_key(v@[i as int]));
        i = i + 1;
    }
    proof {
        if i < before.len() {
            assert(before[i as int] == excluded_key(v@[i as int]));
            assert(lex_lt(k.0, before[i as int].0));
        }
    }
    v.insert(i, e);
    let ghost after = excluded_keys(v@);
    assert(after =~= before.insert(i as int, k));
    assert forall|a: int, b: int| 0 <= a < b < after.len() implies !lex_lt(#[trigger] after[b].0, #[trigger] after[a].0) by {
        if a < i && b == i {
        } else if a < i && b > i {
            assert(after[b] == before[b - 1]);
            assert(!lex_lt(before[b - 1].0, before[a].0));
        } else if a == i {
            assert(after[b] == before[b - 1]);
            if lex_lt(before[b - 1].0, k.0) {
                if b - 1 == i {
                    crate::tree::lemma_lex_order(k.0, before[i as int].0);
                } else {
                    assert(!lex_lt(before[b - 1].0, before[i as int].0));
                    crate::tree::lemma_lex_trans(before[b - 1].0, k.0, before[i as int].0);
                }
            }
        } else if a > i {
            assert(after[a] == before[a - 1]);
            assert(after[b] == before[b - 1]);
        }
    }
    proof {
        vstd::seq_lib::to_multiset_insert(before, i as int, k);
    }
}

/// The excluded entries in path order.
pub fn sorted_excluded(entries: Vec<ExcludedEntry>) -> (r: Vec<ExcludedEntry>)
    ensures
        by_path(excluded_keys(r@)),
        excluded_keys(r@).to_multiset() == excluded_keys(entries@).to_multiset(),
{
    broadcast use vstd::seq_lib::group_to_multiset_ensures;
    let ghost all = excluded_keys(entries@);
    let mut rest = entries;
    let mut out: Vec<ExcludedEntry> = Vec::new();
    proof {
        assert(excluded_keys(out@) =~= Seq::<(Seq<char>, Seq<char>)>::empty());
        assert(excluded_keys(out@).to_multiset() =~= Multiset::empty());
        assert(excluded_keys(rest@) == all);
    }
    while rest.len() > 0
        invariant
            by_path(excluded_keys(out@)),
            excluded_keys(out@).to_multiset().add(excluded_keys(rest@).to_multiset()) == all.to_multiset(),
        decreases rest@.len(),
    {
        let ghost before = excluded_keys(rest@);
        let e = rest.remove(0);
        proof {
            assert(before =~= excluded_keys(rest@).insert(0, excluded_key(e)));
            vstd::seq_lib::to_multiset_insert(excluded_keys(rest@), 0, excluded_key(e));
        }
        let ghost out_before = excluded_keys(out@).to_multiset();
        insert_by_path(&mut out, e);
        assert(excluded_keys(out@).to_multiset().add(excluded_keys(rest@).to_multiset()) =~= all.to_multiset());
    }
    assert(excluded_keys(rest@).to_multiset() =~= Multiset::empty());
    assert(excluded_keys(out@).to_multiset().add(excluded_keys(rest@).to_multiset()) =~= excluded_keys(out@).to_multiset());
    out
}

/// The indexer's first look at a file, by its name alone: the reason it is left out, unless
/// vendored and generated code is kept.
pub fn name_verdict(file_name: &str, include_vendored: bool) -> (r: Option<Reason>)
    ensures
        r == (if include_vendored { None } else { name_exclusion(file_name@) }),
{
    if include_vendored {
        None
    } else {
        excluded_by_name(file_name)
    }
}

/// Whether a file of `size` bytes is too large to read whole; such a file is streamed through
/// a [`ContentHasher`] and recorded by [`oversize_record`].
pub fn is_oversize(size: u64) -> (r: bool)
    ensures
        r == (size > MAX_TEXT_BYTES),
{
    size > MAX_TEXT_BYTES
}

/// The leading bytes of a file that are sniffed: its first [`SNIFF_BYTES`].
pub open spec fn sniffed(bytes: Seq<u8>) -> Seq<u8> {
    if bytes.len() <= SNIFF_BYTES {
        bytes
    } else {
        bytes.take(SNIFF_BYTES as int)
    }
}

/// The indexer's look at a file it has read whole: left out as generated code where vendored
/// and generated code is not kept, the file is not binary and its sniffed bytes say so.
pub fn header_verdict(bytes: &[u8], include_vendored: bool) -> (r: Option<Reason>)
    ensures
        r == (if !include_vendored && !binary_bytes(bytes@) && generated_header(sniffed(bytes@)) {
            Some(Reason::Generated)
        } else {
            None
        }),
{
    if include_vendored || is_binary(bytes) {
        return None;
    }
    let end = if bytes.len() < SNIFF_BYTES { bytes.len() } else { SNIFF_BYTES };
    let sniff = vstd::slice::slice_subrange(bytes, 0, end);
    assert(sniff@ =~= sniffed(bytes@));
    excluded_by_header(sniff)
}

/// The record of a file read whole and not left out: parsed with `grammar` where it is not
/// binary, is UTF-8 and has a grammar, else file-level data only.
pub fn index_file(
    path: String,
    language: String,
    size: u64,
    bytes: &[u8],
    grammar: Option<&Grammar>,
    budget_nanos: Option<u64>,
) -> (r: FileRecord)
    ensures
        r.path == path && r.language == language && r.bytes == size,
        r.hash@ == blake3_hex(bytes@),
        !r.is_oversize,
        r.is_binary == binary_bytes(bytes@),
        binary_bytes(bytes@) ==> r.lines == 0,
        !binary_bytes(bytes@) ==> r.lines == line_count(bytes@),
        binary_bytes(bytes@) || !valid_utf8(bytes@) || grammar is None ==> !r.parsed,
        !r.parsed ==> r.symbols@.len() == 0 && r.imports@.len() == 0 && r.text is None && r.tokens@.len() == 0,
        r.parsed ==> (grammar matches Some(g) && exists|p: Parsed| #[trigger] parse_result(p, *g, decode_utf8(bytes@))
            && r.symbols@ == p.symbols@ && r.imports@ == p.imports@ && r.tokens@ == spans_bytes(p.tokens@, 0)),
        r.parsed ==> (r.text matches Some(t) ==> t@ == zstd_compressed(bytes@, TEXT_ZSTD_LEVEL)),
{
    let parsed = if is_binary(bytes) {
        None
    } else {
        match grammar {
            None => None,
            Some(g) => match string_from_utf8(vstd::slice::slice_to_vec(bytes)) {
                None => None,
                Some(text) => parse(g, text.as_str(), budget_nanos),
            },
        }
    };
    file_record(path, language, size, bytes, parsed)
}

} // verus!
