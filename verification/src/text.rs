//! Text tile: `.ftx`.
//!
//! One file's UTF-8 source plus the token spans produced at index time, so the renderer draws
//! colored source without shipping a parser. Fetched per file on demand when the camera gets close
//! enough for lines to be readable.
//!
//! Layout (little-endian), zstd-compressed as a whole:
//! ```text
//! header  magic "FTX1", format version u32, file id u32, text length u32, span bytes length u32
//! text    UTF-8 source
//! spans   packed: varint gap from the previous span's end, varint length, class u8
//! ```

use vstd::prelude::*;
use vstd::utf8::{decode_utf8, encode_utf8, encode_utf8_decode_utf8, encode_utf8_valid_utf8, valid_utf8};

use crate::bytes::{get_u32, le32, lemma_read_le32, push_all, push_u32, read_le32};
use crate::compress::{zstd_compress, zstd_compressed, zstd_decode_all, zstd_decoded, zstd_decompress, zstd_frame_content, zstd_magic, ZstdError};
use crate::manifest::FORMAT_VERSION;
use crate::strings::{decimal, push_decimal, string_from_utf8};

verus! {

/// A run of source bytes with one token class. Offsets are bytes into the file's text.
#[derive(Debug, Clone, Copy, PartialEq, Eq, Structural)]
pub struct TokenSpan {
    pub start: u32,
    pub len: u32,
    /// Token class; see [`crate::tokens::TokenClass`].
    pub class: u8,
}

/// One file's text and its token spans.
#[derive(Debug, Clone, PartialEq, Eq)]
pub struct TextTile {
    pub file_id: u32,
    pub text: String,
    pub spans: Vec<TokenSpan>,
}

/// A text tile as a mathematical value.
pub struct TextRecord {
    pub file_id: u32,
    pub text: Seq<char>,
    pub spans: Seq<TokenSpan>,
}

impl View for TextTile {
    type V = TextRecord;

    open spec fn view(&self) -> TextRecord {
        TextRecord { file_id: self.file_id, text: self.text@, spans: self.spans@ }
    }
}

/// Why a text tile could not be written or read.
#[derive(Debug, Clone, PartialEq, Eq)]
pub enum TextError {
    /// Reading or writing the compressed stream failed; the message.
    Io(String),
    /// The decompressed tile does not start with "FTX1".
    BadMagic,
    /// The tile is another format version.
    Version { found: u32, expected: u32 },
    /// The tile ends before its declared contents.
    Truncated,
    /// The text is not valid UTF-8.
    Utf8,
    /// The bytes are not a zstd frame; the decoder's message.
    Compression(String),
}

/// Compression level of text tiles.
pub const TEXT_ZSTD_LEVEL: i32 = 11;

/// "text/{file_id >> 12}/{file_id}.ftx".
pub open spec fn text_key_text(file_id: u32) -> Seq<char> {
    seq!['t', 'e', 'x', 't', '/'] + decimal((file_id >> 12u32) as nat) + seq!['/'] + decimal(
        file_id as nat,
    ) + seq!['.', 'f', 't', 'x']
}

/// Storage key of a file's text tile, relative to the tile set prefix. Files are grouped 4096 to
/// a directory so no directory grows unbounded.
pub fn text_key(file_id: u32) -> (r: String)
    ensures
        r@ == text_key_text(file_id),
{
    let mut s = String::new();
    s.append("text/");
    push_decimal(&mut s, file_id >> 12u32);
    s.append("/");
    push_decimal(&mut s, file_id);
    s.append(".ftx");
    proof {
        reveal_strlit("text/");
        reveal_strlit("/");
        reveal_strlit(".ftx");
    }
    assert(s@ =~= text_key_text(file_id));
    s
}

/// The varint bytes of `w`: seven bits at a time, low first, the high bit marking "more".
pub open spec fn varint(w: u32) -> Seq<u8>
    decreases w,
{
    if w < 0x80 {
        seq![w as u8]
    } else {
        proof {
            lemma_shift_smaller(w);
        }
        seq![(w as u8) | 0x80u8] + varint(w >> 7u32)
    }
}

pub proof fn lemma_shift_smaller(w: u32)
    requires
        w >= 0x80,
    ensures
        w >> 7u32 < w,
{
    assert(w >= 0x80u32 ==> w >> 7u32 < w) by (bit_vector);
}

/// Reading a varint whose first `k` bytes gave `acc`: the value and where it ends, or `None`
/// where the bytes run out or the value takes more than five bytes.
pub open spec fn varint_from(b: Seq<u8>, pos: int, k: nat, acc: u32) -> Option<(u32, int)>
    decreases 5 - k,
{
    if k >= 5 || pos < 0 || pos + k >= b.len() {
        None
    } else {
        let byte = b[pos + k];
        let acc2 = acc | (((byte & 0x7fu8) as u32) << ((7 * k) as u32));
        if byte & 0x80u8 == 0 {
            Some((acc2, pos + k + 1))
        } else if k >= 4 {
            None
        } else {
            varint_from(b, pos, k + 1, acc2)
        }
    }
}

/// The varint at `pos`: its value and where it ends.
pub open spec fn varint_at(b: Seq<u8>, pos: int) -> Option<(u32, int)> {
    varint_from(b, pos, 0, 0)
}

/// A varint ends after it starts.
pub proof fn lemma_varint_advances(b: Seq<u8>, pos: int, k: nat, acc: u32)
    ensures
        varint_from(b, pos, k, acc) matches Some((_, p)) ==> p > pos + k,
    decreases 5 - k,
{
    if !(k >= 5 || pos < 0 || pos + k >= b.len()) {
        let byte = b[pos + k];
        let acc2 = acc | (((byte & 0x7fu8) as u32) << ((7 * k) as u32));
        if byte & 0x80u8 != 0 && k < 4 {
            lemma_varint_advances(b, pos, k + 1, acc2);
        }
    }
}

/// The low `7 * k` bits.
pub open spec fn low_mask(k: nat) -> u32 {
    if k == 0 {
        0u32
    } else if k == 1 {
        0x7fu32
    } else if k == 2 {
        0x3fffu32
    } else if k == 3 {
        0x1fffffu32
    } else {
        0xfffffffu32
    }
}

/// The bit facts behind one byte of a varint.
proof fn lemma_varint_group(v: u32, k: nat)
    requires
        k <= 4,
    ensures
        (v >> ((7 * k) as u32)) < 0x80u32 ==> ((((v >> ((7 * k) as u32)) as u8) & 0x80u8) == 0u8
            && ((v & low_mask(k)) | (((((v >> ((7 * k) as u32)) as u8) & 0x7fu8) as u32) << ((7
            * k) as u32))) == v),
        k < 4 && (v >> ((7 * k) as u32)) >= 0x80u32 ==> ((((((v >> ((7 * k) as u32)) as u8)
            | 0x80u8) & 0x80u8) != 0u8) && ((v & low_mask(k)) | ((((((v >> ((7 * k) as u32))
            as u8) | 0x80u8) & 0x7fu8) as u32) << ((7 * k) as u32))) == (v & low_mask(k + 1))
            && ((v >> ((7 * k) as u32)) >> 7u32) == (v >> ((7 * (k + 1)) as u32))),
        k == 4 ==> (v >> 28u32) < 0x80u32,
{
    if k == 0 {
        assert(((v >> 0u32) < 0x80u32 ==> ((((v >> 0u32) as u8) & 0x80u8) == 0u8 && ((v & 0u32) | (((((v >> 0u32) as u8) & 0x7fu8) as u32) << 0u32)) == v)) && ((v >> 0u32) >= 0x80u32 ==> ((((((v >> 0u32) as u8) | 0x80u8) & 0x80u8) != 0u8) && ((v & 0u32) | ((((((v >> 0u32) as u8) | 0x80u8) & 0x7fu8) as u32) << 0u32)) == (v & 0x7fu32) && ((v >> 0u32) >> 7u32) == (v >> 7u32)))) by (bit_vector);
    } else if k == 1 {
        assert(((v >> 7u32) < 0x80u32 ==> ((((v >> 7u32) as u8) & 0x80u8) == 0u8 && ((v & 0x7fu32) | (((((v >> 7u32) as u8) & 0x7fu8) as u32) << 7u32)) == v)) && ((v >> 7u32) >= 0x80u32 ==> ((((((v >> 7u32) as u8) | 0x80u8) & 0x80u8) != 0u8) && ((v & 0x7fu32) | ((((((v >> 7u32) as u8) | 0x80u8) & 0x7fu8) as u32) << 7u32)) == (v & 0x3fffu32) && ((v >> 7u32) >> 7u32) == (v >> 14u32)))) by (bit_vector);
    } else if k == 2 {
        assert(((v >> 14u32) < 0x80u32 ==> ((((v >> 14u32) as u8) & 0x80u8) == 0u8 && ((v & 0x3fffu32) | (((((v >> 14u32) as u8) & 0x7fu8) as u32) << 14u32)) == v)) && ((v >> 14u32) >= 0x80u32 ==> ((((((v >> 14u32) as u8) | 0x80u8) & 0x80u8) != 0u8) && ((v & 0x3fffu32) | ((((((v >> 14u32) as u8) | 0x80u8) & 0x7fu8) as u32) << 14u32)) == (v & 0x1fffffu32) && ((v >> 14u32) >> 7u32) == (v >> 21u32)))) by (bit_vector);
    } else if k == 3 {
        assert(((v >> 21u32) < 0x80u32 ==> ((((v >> 21u32) as u8) & 0x80u8) == 0u8 && ((v & 0x1fffffu32) | (((((v >> 21u32) as u8) & 0x7fu8) as u32) << 21u32)) == v)) && ((v >> 21u32) >= 0x80u32 ==> ((((((v >> 21u32) as u8) | 0x80u8) & 0x80u8) != 0u8) && ((v & 0x1fffffu32) | ((((((v >> 21u32) as u8) | 0x80u8) & 0x7fu8) as u32) << 21u32)) == (v & 0xfffffffu32) && ((v >> 21u32) >> 7u32) == (v >> 28u32)))) by (bit_vector);
    } else if k == 4 {
        assert(((v >> 28u32) < 0x80u32 ==> ((((v >> 28u32) as u8) & 0x80u8) == 0u8 && ((v & 0xfffffffu32) | (((((v >> 28u32) as u8) & 0x7fu8) as u32) << 28u32)) == v)) && (v >> 28u32) < 0x80u32) by (bit_vector);
    }
}

/// Reading back the varint of `v` whose first `k` groups are already in hand.
proof fn lemma_varint_read(b: Seq<u8>, pos: int, k: nat, v: u32)
    requires
        0 <= pos,
        k <= 4,
        pos + k + varint(v >> ((7 * k) as u32)).len() <= b.len(),
        b.subrange(pos + k, pos + k + varint(v >> ((7 * k) as u32)).len()) == varint(
            v >> ((7 * k) as u32),
        ),
    ensures
        varint_from(b, pos, k, v & low_mask(k)) == Some(
            (v, pos + k + varint(v >> ((7 * k) as u32)).len()),
        ),
    decreases 4 - k,
{
    let w = v >> ((7 * k) as u32);
    let enc = varint(w);
    lemma_varint_group(v, k);
    assert(b[pos + k] == enc[0]);
    if w < 0x80 {
        assert(enc == seq![w as u8]);
    } else {
        assert(k < 4);
        let w2 = w >> 7u32;
        assert(enc == seq![(w as u8) | 0x80u8] + varint(w2));
        assert(w2 == v >> ((7 * (k + 1)) as u32));
        let whole = b.subrange(pos + k, pos + k + enc.len());
        assert(whole == enc);
        assert(b.subrange(pos + k + 1, pos + k + 1 + varint(w2).len()) =~= whole.subrange(
            1,
            enc.len() as int,
        ));
        assert(enc.subrange(1, enc.len() as int) =~= varint(w2));
        lemma_varint_read(b, pos, k + 1, v);
    }
}

/// Reading the varint of `v` laid out at `pre.len()` gives `v` and where it ends.
pub proof fn lemma_varint_at(pre: Seq<u8>, v: u32, post: Seq<u8>)
    ensures
        varint_at(pre + varint(v) + post, pre.len() as int) == Some(
            (v, pre.len() + varint(v).len() as int),
        ),
{
    let b = pre + varint(v) + post;
    assert(v >> 0u32 == v) by (bit_vector);
    assert(v & 0u32 == 0u32) by (bit_vector);
    assert(b.subrange(pre.len() as int, pre.len() + varint(v).len() as int) =~= varint(v));
    lemma_varint_read(b, pre.len() as int, 0, v);
}

/// Append the varint bytes of `value`.
pub fn put_varint(out: &mut Vec<u8>, value: u32)
    ensures
        final(out)@ == old(out)@ + varint(value),
{
    let mut v = value;
    while v >= 0x80
        invariant
            old(out)@ + varint(value) == out@ + varint(v),
        decreases v,
    {
        proof {
            lemma_shift_smaller(v);
        }
        let ghost before = out@;
        out.push((#[verifier::truncate] (v as u8)) | 0x80u8);
        assert(varint(v) == seq![(v as u8) | 0x80u8] + varint(v >> 7u32));
        v = v >> 7u32;
        assert(old(out)@ + varint(value) =~= out@ + varint(v));
    }
    out.push(v as u8);
    assert(varint(v) == seq![v as u8]);
    assert(final(out)@ =~= old(out)@ + varint(value));
}

/// Read the varint at `*at`, moving `*at` past it on success.
pub fn get_varint(bytes: &[u8], at: &mut usize) -> (r: Option<u32>)
    ensures
        match varint_at(bytes@, *old(at) as int) {
            Some((v, p)) => r == Some(v) && *final(at) == p,
            None => r is None,
        },
{
    let ghost start = *at as int;
    let mut value: u32 = 0;
    let mut shift: u32 = 0;
    let ghost mut k: nat = 0;
    loop
        invariant
            k <= 4,
            shift == 7 * k,
            *at == start + k,
            start == *old(at) as int,
            varint_at(bytes@, start) == varint_from(bytes@, start, k, value),
        decreases 4 - k,
    {
        if *at >= bytes.len() {
            return None;
        }
        let byte = bytes[*at];
        *at = *at + 1;
        value = value | (((byte & 0x7fu8) as u32) << shift);
        if byte & 0x80u8 == 0 {
            return Some(value);
        }
        shift = shift + 7;
        if shift > 28 {
            return None;
        }
        proof {
            k = k + 1;
        }
    }
}

/// `a - b`, or zero where `b` is larger.
pub open spec fn sat_sub(a: u32, b: u32) -> u32 {
    if a >= b {
        (a - b) as u32
    } else {
        0
    }
}

/// `a + b`, or `u32::MAX` where that overflows.
pub open spec fn sat_add(a: u32, b: u32) -> u32 {
    if a + b <= u32::MAX {
        (a + b) as u32
    } else {
        u32::MAX
    }
}

/// The packed bytes of `s`, gaps measured from `cursor`.
pub open spec fn spans_bytes(s: Seq<TokenSpan>, cursor: u32) -> Seq<u8>
    decreases s.len(),
{
    if s.len() == 0 {
        Seq::empty()
    } else {
        varint(sat_sub(s[0].start, cursor)) + varint(s[0].len) + seq![s[0].class] + spans_bytes(
            s.drop_first(),
            sat_add(s[0].start, s[0].len),
        )
    }
}

/// The spans packed in `b` from `at`, gaps measured from `cursor`; the walk stops at the first
/// span that cannot be read whole.
pub open spec fn spans_from(b: Seq<u8>, at: int, cursor: u32) -> Seq<TokenSpan>
    decreases b.len() - at,
{
    if at < 0 || at >= b.len() {
        Seq::empty()
    } else {
        match varint_at(b, at) {
            None => Seq::empty(),
            Some((gap, a1)) => match varint_at(b, a1) {
                None => Seq::empty(),
                Some((len, a2)) => if a2 >= b.len() {
                    Seq::empty()
                } else {
                    proof {
                        lemma_varint_advances(b, at, 0, 0);
                        lemma_varint_advances(b, a1, 0, 0);
                    }
                    let start = sat_add(cursor, gap);
                    seq![TokenSpan { start, len, class: b[a2] }] + spans_from(
                        b,
                        a2 + 1,
                        sat_add(start, len),
                    )
                },
            },
        }
    }
}

/// Spans that start at or after `cursor`, each after the previous one's end, with no end past
/// `u32::MAX`: the spans a tokenizer produces.
pub open spec fn ordered_from(s: Seq<TokenSpan>, cursor: u32) -> bool
    decreases s.len(),
{
    s.len() == 0 || (cursor <= s[0].start && s[0].start + s[0].len <= u32::MAX && ordered_from(
        s.drop_first(),
        (s[0].start + s[0].len) as u32,
    ))
}

/// Pack spans: varint gap since the previous span's end, varint length, class byte.
pub fn encode_spans(spans: &[TokenSpan]) -> (out: Vec<u8>)
    ensures
        out@ == spans_bytes(spans@, 0),
{
    let mut out: Vec<u8> = Vec::new();
    let mut cursor: u32 = 0;
    let mut i: usize = 0;
    assert(spans@.skip(0) =~= spans@);
    assert(out@ + spans_bytes(spans@, 0) =~= spans_bytes(spans@, 0));
    while i < spans.len()
        invariant
            i <= spans@.len(),
            out@ + spans_bytes(spans@.skip(i as int), cursor) == spans_bytes(spans@, 0),
        decreases spans@.len() - i,
    {
        let span = spans[i];
        let ghost rest = spans@.skip(i as int);
        assert(rest[0] == span);
        assert(rest.drop_first() =~= spans@.skip(i + 1));
        let ghost before = out@;
        let ghost old_cursor = cursor;
        put_varint(&mut out, span.start.saturating_sub(cursor));
        put_varint(&mut out, span.len);
        out.push(span.class);
        cursor = span.start.saturating_add(span.len);
        i = i + 1;
        assert(spans_bytes(rest, old_cursor) == varint(sat_sub(span.start, old_cursor)) + varint(
            span.len,
        ) + seq![span.class] + spans_bytes(rest.drop_first(), cursor));
        assert(out@ + spans_bytes(spans@.skip(i as int), cursor) =~= before + spans_bytes(
            rest,
            old_cursor,
        ));
    }
    assert(spans@.skip(spans@.len() as int) =~= Seq::<TokenSpan>::empty());
    assert(out@ + Seq::<u8>::empty() =~= out@);
    out
}

/// Inverse of [`encode_spans`]. Trailing garbage stops the walk rather than failing.
pub fn decode_spans(bytes: &[u8]) -> (out: Vec<TokenSpan>)
    ensures
        out@ == spans_from(bytes@, 0, 0),
{
    let ghost total = spans_from(bytes@, 0, 0);
    let mut out: Vec<TokenSpan> = Vec::new();
    let mut at: usize = 0;
    let mut cursor: u32 = 0;
    assert(out@ + spans_from(bytes@, 0, 0) =~= total);
    loop
        invariant
            at <= bytes@.len(),
            total == spans_from(bytes@, 0, 0),
            out@ + spans_from(bytes@, at as int, cursor) == total,
        ensures
            out@ == total,
        decreases bytes@.len() - at,
    {
        if at >= bytes.len() {
            assert(out@ + Seq::<TokenSpan>::empty() =~= out@);
            break;
        }
        let mut a = at;
        let gap = match get_varint(bytes, &mut a) {
            Some(g) => g,
            None => {
                assert(out@ + Seq::<TokenSpan>::empty() =~= out@);
                break;
            },
        };
        let ghost a1 = a as int;
        let len = match get_varint(bytes, &mut a) {
            Some(l) => l,
            None => {
                assert(out@ + Seq::<TokenSpan>::empty() =~= out@);
                break;
            },
        };
        proof {
            lemma_varint_advances(bytes@, at as int, 0, 0);
            lemma_varint_advances(bytes@, a1, 0, 0);
        }
        if a >= bytes.len() {
            assert(out@ + Seq::<TokenSpan>::empty() =~= out@);
            break;
        }
        let class = bytes[a];
        let start = cursor.saturating_add(gap);
        let span = TokenSpan { start, len, class };
        let ghost old_cursor = cursor;
        let ghost old_at = at as int;
        let ghost before = out@;
        out.push(span);
        cursor = start.saturating_add(len);
        assert(spans_from(bytes@, old_at, old_cursor) == seq![span] + spans_from(
            bytes@,
            a + 1,
            cursor,
        ));
        at = a + 1;
        assert(out@ + spans_from(bytes@, at as int, cursor) =~= before + spans_from(
            bytes@,
            old_at,
            old_cursor,
        ));
    }
    out
}

/// Reading back spans packed from `pre.len()` with gaps measured from `cursor`.
proof fn lemma_spans_from(pre: Seq<u8>, s: Seq<TokenSpan>, cursor: u32)
    requires
        ordered_from(s, cursor),
    ensures
        spans_from(pre + spans_bytes(s, cursor), pre.len() as int, cursor) == s,
    decreases s.len(),
{
    let b = pre + spans_bytes(s, cursor);
    if s.len() == 0 {
        assert(b =~= pre);
        assert(s =~= Seq::<TokenSpan>::empty());
    } else {
        let sp = s[0];
        let gap = sat_sub(sp.start, cursor);
        let next = sat_add(sp.start, sp.len);
        let rest_bytes = spans_bytes(s.drop_first(), next);
        let vg = varint(gap);
        let vl = varint(sp.len);
        assert(b =~= pre + vg + (vl + seq![sp.class] + rest_bytes));
        lemma_varint_at(pre, gap, vl + seq![sp.class] + rest_bytes);
        assert(b =~= (pre + vg) + vl + (seq![sp.class] + rest_bytes));
        lemma_varint_at(pre + vg, sp.len, seq![sp.class] + rest_bytes);
        let pre2 = pre + vg + vl + seq![sp.class];
        assert(b =~= pre2 + rest_bytes);
        let a2 = (pre.len() + vg.len() + vl.len()) as int;
        assert(b[a2] == sp.class);
        assert(sat_add(cursor, gap) == sp.start);
        lemma_spans_from(pre2, s.drop_first(), next);
        assert(spans_from(b, pre.len() as int, cursor) == seq![sp] + spans_from(b, a2 + 1, next));
        assert(s =~= seq![sp] + s.drop_first());
    }
}

/// Law: unpacking packed spans gives them back, for spans in source order.
pub proof fn law_spans_round_trip(s: Seq<TokenSpan>)
    requires
        ordered_from(s, 0),
    ensures
        spans_from(spans_bytes(s, 0), 0, 0) == s,
{
    lemma_spans_from(Seq::empty(), s, 0);
    assert(Seq::<u8>::empty() + spans_bytes(s, 0) =~= spans_bytes(s, 0));
}

/// "FTX1".
pub open spec fn text_magic() -> Seq<u8> {
    seq![70u8, 84u8, 88u8, 49u8]
}

/// The uncompressed bytes of a text tile.
pub open spec fn text_raw(t: TextRecord) -> Seq<u8> {
    text_magic() + le32(FORMAT_VERSION) + le32(t.file_id) + le32(encode_utf8(t.text).len() as u32)
        + le32(spans_bytes(t.spans, 0).len() as u32) + encode_utf8(t.text) + spans_bytes(t.spans, 0)
}

/// What reading the uncompressed bytes `raw` of a text tile gives.
pub open spec fn parse_text(raw: Seq<u8>) -> Result<TextRecord, TextError> {
    if raw.len() < 4 {
        Err(TextError::Truncated)
    } else if raw.subrange(0, 4) != text_magic() {
        Err(TextError::BadMagic)
    } else if raw.len() < 8 {
        Err(TextError::Truncated)
    } else if read_le32(raw, 4) != FORMAT_VERSION {
        Err(TextError::Version { found: read_le32(raw, 4), expected: FORMAT_VERSION })
    } else if raw.len() < 20 {
        Err(TextError::Truncated)
    } else {
        let text_end = 20 + read_le32(raw, 12);
        let span_end = text_end + read_le32(raw, 16);
        if text_end > raw.len() || span_end > raw.len() {
            Err(TextError::Truncated)
        } else if !valid_utf8(raw.subrange(20, text_end)) {
            Err(TextError::Utf8)
        } else {
            Ok(
                TextRecord {
                    file_id: read_le32(raw, 8),
                    text: decode_utf8(raw.subrange(20, text_end)),
                    spans: spans_from(raw.subrange(text_end, span_end), 0, 0),
                },
            )
        }
    }
}

/// What decompressing and reading the text tile `bytes` gives.
pub open spec fn decode_text(bytes: Seq<u8>) -> Option<Result<TextRecord, TextError>> {
    match zstd_frame_content(bytes) {
        None => None,
        Some(raw) => Some(parse_text(raw)),
    }
}

/// Law: reading the bytes of a text tile gives the tile back, for text and packed spans that
/// fit their `u32` lengths and spans in source order.
pub proof fn law_text_round_trip(t: TextRecord)
    requires
        encode_utf8(t.text).len() <= u32::MAX,
        spans_bytes(t.spans, 0).len() <= u32::MAX,
        ordered_from(t.spans, 0),
    ensures
        parse_text(text_raw(t)) == Ok::<TextRecord, TextError>(t),
{
    let raw = text_raw(t);
    let tb = encode_utf8(t.text);
    let sb = spans_bytes(t.spans, 0);
    assert(raw.subrange(0, 4) =~= text_magic());
    assert(raw.subrange(4, 8) =~= le32(FORMAT_VERSION));
    assert(raw.subrange(8, 12) =~= le32(t.file_id));
    assert(raw.subrange(12, 16) =~= le32(tb.len() as u32));
    assert(raw.subrange(16, 20) =~= le32(sb.len() as u32));
    lemma_read_le32(raw, 4, FORMAT_VERSION);
    lemma_read_le32(raw, 8, t.file_id);
    lemma_read_le32(raw, 12, tb.len() as u32);
    lemma_read_le32(raw, 16, sb.len() as u32);
    let te = 20 + tb.len() as int;
    assert(raw.subrange(20, te) =~= tb);
    assert(raw.subrange(te, te + sb.len() as int) =~= sb);
    encode_utf8_valid_utf8(t.text);
    encode_utf8_decode_utf8(t.text);
    law_spans_round_trip(t.spans);
}

/// Read the uncompressed bytes of a text tile.
pub fn parse_text_raw(raw: &[u8]) -> (r: Result<TextTile, TextError>)
    ensures
        match parse_text(raw@) {
            Ok(t) => r matches Ok(x) && x@ == t,
            Err(e) => r == Err::<TextTile, TextError>(e),
        },
{
    let n = raw.len();
    if n < 4 {
        return Err(TextError::Truncated);
    }
    if !(raw[0] == 70u8 && raw[1] == 84u8 && raw[2] == 88u8 && raw[3] == 49u8) {
        proof {
            if raw@.subrange(0, 4) == text_magic() {
                assert(raw@[0] == raw@.subrange(0, 4)[0]);
                assert(raw@[1] == raw@.subrange(0, 4)[1]);
                assert(raw@[2] == raw@.subrange(0, 4)[2]);
                assert(raw@[3] == raw@.subrange(0, 4)[3]);
            }
        }
        return Err(TextError::BadMagic);
    }
    assert(raw@.subrange(0, 4) =~= text_magic());
    if n < 8 {
        return Err(TextError::Truncated);
    }
    let version = get_u32(raw, 4);
    if version != FORMAT_VERSION {
        return Err(TextError::Version { found: version, expected: FORMAT_VERSION });
    }
    if n < 20 {
        return Err(TextError::Truncated);
    }
    let file_id = get_u32(raw, 8);
    let text_len = get_u32(raw, 12);
    let span_len = get_u32(raw, 16);
    if text_len as usize > n - 20 {
        return Err(TextError::Truncated);
    }
    let text_end = 20 + text_len as usize;
    if span_len as usize > n - text_end {
        return Err(TextError::Truncated);
    }
    let span_end = text_end + span_len as usize;
    let text_bytes = vstd::slice::slice_to_vec(vstd::slice::slice_subrange(raw, 20, text_end));
    let span_bytes = vstd::slice::slice_subrange(raw, text_end, span_end);
    let text = match string_from_utf8(text_bytes) {
        Some(t) => t,
        None => {
            return Err(TextError::Utf8);
        },
    };
    let spans = decode_spans(span_bytes);
    Ok(TextTile { file_id, text, spans })
}

impl TextTile {
    /// Encode and zstd-compress. Deterministic for a given tile.
    pub fn encode(&self) -> (r: Result<Vec<u8>, TextError>)
        ensures
            r matches Ok(out) ==> out@ == zstd_compressed(text_raw(self@), TEXT_ZSTD_LEVEL)
                && zstd_frame_content(out@) == Some(text_raw(self@)),
            r is Err ==> r matches Err(TextError::Io(_)),
    {
        let spans = encode_spans(self.spans.as_slice());
        let text = self.text.as_str().as_bytes();
        let mut buf: Vec<u8> = Vec::new();
        buf.push(70u8);
        buf.push(84u8);
        buf.push(88u8);
        buf.push(49u8);
        push_u32(&mut buf, FORMAT_VERSION);
        push_u32(&mut buf, self.file_id);
        push_u32(&mut buf, #[verifier::truncate] (text.len() as u32));
        push_u32(&mut buf, #[verifier::truncate] (spans.len() as u32));
        push_all(&mut buf, text);
        push_all(&mut buf, spans.as_slice());
        assert(buf@ =~= text_raw(self@));
        match zstd_compress(buf.as_slice(), TEXT_ZSTD_LEVEL) {
            Ok(out) => Ok(out),
            Err(message) => Err(TextError::Io(message)),
        }
    }

    /// Decompress and read a text tile written by [`TextTile::encode`].
    pub fn decode(bytes: &[u8]) -> (r: Result<TextTile, TextError>)
        ensures
            match decode_text(bytes@) {
                None => r matches Err(TextError::Compression(_)) || r matches Err(TextError::Io(_)),
                Some(Ok(t)) => r matches Ok(x) && x@ == t,
                Some(Err(e)) => r == Err::<TextTile, TextError>(e),
            },
            !zstd_magic(bytes@) ==> r is Err,
    {
        let raw = match zstd_decompress(bytes) {
            Ok(raw) => raw,
            Err(ZstdError::Frame(message)) => {
                return Err(TextError::Compression(message));
            },
            Err(ZstdError::Read(message)) => {
                return Err(TextError::Io(message));
            },
        };
        parse_text_raw(raw.as_slice())
    }
}

/// Law: the bytes [`TextTile::encode`] writes, whose zstd frame holds the raw text tile, decode
/// to the tile, for text and packed spans that fit their `u32` lengths and spans in source order.
pub proof fn law_text_round_trip_compressed(t: TextRecord, out: Seq<u8>)
    requires
        encode_utf8(t.text).len() <= u32::MAX,
        spans_bytes(t.spans, 0).len() <= u32::MAX,
        ordered_from(t.spans, 0),
        zstd_frame_content(out) == Some(text_raw(t)),
    ensures
        decode_text(out) == Some(Ok::<TextRecord, TextError>(t)),
{
    law_text_round_trip(t);
}

/// Fewer than three bytes left hold no whole span record: reading stops there.
proof fn lemma_short_tail(b: Seq<u8>, p: int, cursor: u32)
    requires
        0 <= p,
        b.len() - 2 <= p,
    ensures
        spans_from(b, p, cursor) == Seq::<TokenSpan>::empty(),
{
    reveal_with_fuel(varint_from, 3);
    if p < b.len() {
        lemma_varint_advances(b, p, 0, 0);
        if let Some((gap, a1)) = varint_at(b, p) {
            lemma_varint_advances(b, a1, 0, 0);
        }
    }
}

proof fn lemma_spans_from_tail(pre: Seq<u8>, s: Seq<TokenSpan>, cursor: u32, tail: Seq<u8>)
    requires
        ordered_from(s, cursor),
        tail.len() <= 2,
    ensures
        spans_from(pre + spans_bytes(s, cursor) + tail, pre.len() as int, cursor) == s,
    decreases s.len(),
{
    let b = pre + spans_bytes(s, cursor) + tail;
    if s.len() == 0 {
        assert(b =~= pre + tail);
        lemma_short_tail(b, pre.len() as int, cursor);
        assert(s =~= Seq::<TokenSpan>::empty());
    } else {
        let sp = s[0];
        let gap = sat_sub(sp.start, cursor);
        let next = sat_add(sp.start, sp.len);
        let rest_bytes = spans_bytes(s.drop_first(), next);
        let vg = varint(gap);
        let vl = varint(sp.len);
        assert(b =~= pre + vg + (vl + seq![sp.class] + rest_bytes + tail));
        lemma_varint_at(pre, gap, vl + seq![sp.class] + rest_bytes + tail);
        assert(b =~= (pre + vg) + vl + (seq![sp.class] + rest_bytes + tail));
        lemma_varint_at(pre + vg, sp.len, seq![sp.class] + rest_bytes + tail);
        let pre2 = pre + vg + vl + seq![sp.class];
        assert(b =~= pre2 + rest_bytes + tail);
        let a2 = (pre.len() + vg.len() + vl.len()) as int;
        assert(b[a2] == sp.class);
        assert(sat_add(cursor, gap) == sp.start);
        lemma_spans_from_tail(pre2, s.drop_first(), next, tail);
        assert(spans_from(b, pre.len() as int, cursor) == seq![sp] + spans_from(b, a2 + 1, next));
        assert(s =~= seq![sp] + s.drop_first());
    }
}

/// Law: an incomplete record after packed spans (one or two stray bytes) is ignored: reading
/// gives the spans back.
pub proof fn law_spans_ignore_incomplete_tail(s: Seq<TokenSpan>, tail: Seq<u8>)
    requires
        ordered_from(s, 0),
        tail.len() <= 2,
    ensures
        spans_from(spans_bytes(s, 0) + tail, 0, 0) == s,
{
    lemma_spans_from_tail(Seq::empty(), s, 0, tail);
    assert(Seq::<u8>::empty() + spans_bytes(s, 0) + tail =~= spans_bytes(s, 0) + tail);
}

/// The text tile of one stored file: its source, zstd-compressed as the index keeps it, and its
/// packed token spans. `None` where the stored source does not decompress or is not UTF-8 (such
/// a file gets no text tile); else what [`TextTile::encode`] gives for the tile.
pub fn text_tile_file(file_id: u32, content: &[u8], packed: &[u8]) -> (r: Option<Result<Vec<u8>, TextError>>)
    ensures
        r is None <==> match zstd_decoded(content@) {
            None => true,
            Some(d) => !valid_utf8(d),
        },
        r matches Some(Ok(out)) ==> zstd_decoded(content@) matches Some(d) && {
            let raw = text_raw(TextRecord { file_id, text: decode_utf8(d), spans: spans_from(packed@, 0, 0) });
            out@ == zstd_compressed(raw, TEXT_ZSTD_LEVEL) && zstd_frame_content(out@) == Some(raw)
        },
        r matches Some(Err(e)) ==> e is Io,
{
    let decoded = match zstd_decode_all(content) {
        Some(d) => d,
        None => {
            return None;
        },
    };
    let text = match string_from_utf8(decoded) {
        Some(t) => t,
        None => {
            return None;
        },
    };
    let tile = TextTile { file_id, text, spans: decode_spans(packed) };
    Some(tile.encode())
}

} // verus!
