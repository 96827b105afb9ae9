//! zstd compression of whole tiles, through the C `zstd` encoder and the pure-Rust `ruzstd`
//! decoder.

use std::io::Read;

use vstd::prelude::*;

verus! {

/// What `ruzstd::decoding::StreamingDecoder` reads from the front of `frame` (one zstd frame,
/// decompressed), or `None` where it reports an error.
pub uninterp spec fn zstd_frame_content(frame: Seq<u8>) -> Option<Seq<u8>>;

/// What `zstd::stream::encode_all` writes for `data` at compression `level`.
pub uninterp spec fn zstd_compressed(data: Seq<u8>, level: i32) -> Seq<u8>;

/// Why a zstd frame could not be read.
#[derive(Debug, Clone, PartialEq, Eq)]
pub enum ZstdError {
    /// The frame header was refused; the decoder's message.
    Frame(String),
    /// Decoding the frame's blocks failed; the reader's message.
    Read(String),
}

/// `zstd::stream::encode_all`: compress `data` into one zstd frame at `level`.
///
/// Claimed: on success the bytes are `zstd_compressed(data, level)`, and they form a standard
/// zstd frame whose content, as ruzstd reads it back, is `data` (zstd frames are specified by
/// RFC 8878, which both crates implement). Nothing is claimed of when it fails.
#[verifier::external_body]
pub(crate) fn zstd_compress(data: &[u8], level: i32) -> (r: Result<Vec<u8>, String>)
    ensures
        r matches Ok(out) ==> out@ == zstd_compressed(data@, level) && zstd_frame_content(out@)
            == Some(data@),
{
    zstd::stream::encode_all(data, level).map_err(|e| e.to_string())
}

/// Whether `s` starts with the zstd frame magic number, 0xFD2FB528 in little-endian order.
pub open spec fn zstd_magic(s: Seq<u8>) -> bool {
    s.len() >= 4 && s[0] == 0x28u8 && s[1] == 0xB5u8 && s[2] == 0x2Fu8 && s[3] == 0xFDu8
}

/// `ruzstd::decoding::StreamingDecoder::new` and `read_to_end`: decompress the zstd frame at
/// the front of `frame`.
///
/// Claimed: it succeeds exactly when `zstd_frame_content(frame)` is some content, and then
/// returns that content; bytes that do not start with the frame magic number are refused (the
/// frame-header read checks it first). Which of the two errors comes is left unsaid.
#[verifier::external_body]
pub(crate) fn zstd_decompress(frame: &[u8]) -> (r: Result<Vec<u8>, ZstdError>)
    ensures
        r is Ok <==> zstd_frame_content(frame@) is Some,
        r matches Ok(raw) ==> zstd_frame_content(frame@) == Some(raw@),
        !zstd_magic(frame@) ==> r is Err,
{
    let mut raw = Vec::new();
    let mut decoder = ruzstd::decoding::StreamingDecoder::new(frame)
        .map_err(|e| ZstdError::Frame(e.to_string()))?;
    decoder.read_to_end(&mut raw).map_err(|e| ZstdError::Read(e.to_string()))?;
    Ok(raw)
}

/// What `zstd::stream::decode_all` gives for `data` (every zstd frame in it, decompressed and
/// joined), or `None` where it reports an error.
pub uninterp spec fn zstd_decoded(data: Seq<u8>) -> Option<Seq<u8>>;

/// `zstd::stream::decode_all`: decompress all of `data`. The contract names the result and
/// says nothing more of it.
#[verifier::external_body]
pub(crate) fn zstd_decode_all(data: &[u8]) -> (r: Option<Vec<u8>>)
    ensures
        r is Some <==> zstd_decoded(data@) is Some,
        r matches Some(out) ==> zstd_decoded(data@) == Some(out@),
{
    zstd::stream::decode_all(data).ok()
}

} // verus!
