//! The baked monospace font atlas: one signed-distance-field cell per printable ASCII character.
//!
//! Header (little-endian): magic `FATL`, version, then `atlas_w, atlas_h, cell_w, cell_h, cols,
//! count, first_char` as u32, then `quad_w, quad_h, origin_x, origin_y, advance, line_height,
//! range` as f32 in em units, then `atlas_w * atlas_h` bytes of R8 distance field (128 = on the
//! edge, higher = inside). The metrics are carried here as their IEEE-754 bit patterns.

use vstd::prelude::*;
use crate::bytes::{get_u32, read_le32};

verus! {

/// Format version this build reads.
pub const ATLAS_VERSION: u32 = 1;

/// Header size: magic and version, seven `u32` fields, seven `f32` metrics.
pub const ATLAS_HEADER: usize = 64;

/// Glyph geometry in em units, each `f32` held as its bit pattern.
#[derive(Debug, Clone, Copy, PartialEq, Eq, Structural)]
pub struct MetricBits {
    /// Size of one glyph quad (larger than the advance: the cell is padded for the SDF).
    pub quad_w: u32,
    pub quad_h: u32,
    /// Lower-left corner of the quad relative to the pen position on the baseline.
    pub origin_x: u32,
    pub origin_y: u32,
    /// Pen advance per character.
    pub advance: u32,
    /// Baseline-to-baseline distance.
    pub line_height: u32,
    /// Distance from the glyph edge that the stored field spans.
    pub range: u32,
}

/// A parsed atlas: its layout and the distance-field pixels.
#[derive(Debug, Clone, Copy)]
pub struct Atlas<'a> {
    pub width: u32,
    pub height: u32,
    pub cell_w: u32,
    pub cell_h: u32,
    pub cols: u32,
    pub count: u32,
    pub first_char: u32,
    pub metrics: MetricBits,
    pub pixels: &'a [u8],
}

/// Why bytes are not a font atlas.
#[derive(Debug, Clone, Copy, PartialEq, Eq, Structural)]
pub enum AtlasError {
    /// Not a FATL font atlas (bad magic).
    BadMagic,
    /// The atlas is another format version.
    Version { found: u32, expected: u32 },
    /// The atlas is truncated.
    Truncated,
}

/// Whether `b` starts with the magic `FATL`.
pub open spec fn atlas_magic(b: Seq<u8>) -> bool {
    b[0] == 0x46 && b[1] == 0x41 && b[2] == 0x54 && b[3] == 0x4c
}

/// The outcome of parsing `b` as an atlas: the first failed check in the order the format is
/// read (length of the header, magic, version, pixel count), or success.
pub open spec fn atlas_check(b: Seq<u8>) -> Result<(), AtlasError> {
    if b.len() < ATLAS_HEADER {
        Err(AtlasError::Truncated)
    } else if !atlas_magic(b) {
        Err(AtlasError::BadMagic)
    } else if read_le32(b, 4) != ATLAS_VERSION {
        Err(AtlasError::Version { found: read_le32(b, 4), expected: ATLAS_VERSION })
    } else if b.len() - ATLAS_HEADER < read_le32(b, 8) * read_le32(b, 12) {
        Err(AtlasError::Truncated)
    } else {
        Ok(())
    }
}

impl<'a> Atlas<'a> {
    /// Read the header and take the pixels after it.
    pub fn parse(bytes: &'a [u8]) -> (r: Result<Atlas<'a>, AtlasError>)
        ensures
            match atlas_check(bytes@) {
                Err(e) => r == Err::<Atlas<'a>, AtlasError>(e),
                Ok(()) => r matches Ok(a) && {
                    let b = bytes@;
                    &&& a.width == read_le32(b, 8)
                    &&& a.height == read_le32(b, 12)
                    &&& a.cell_w == read_le32(b, 16)
                    &&& a.cell_h == read_le32(b, 20)
                    &&& a.cols == read_le32(b, 24)
                    &&& a.count == read_le32(b, 28)
                    &&& a.first_char == read_le32(b, 32)
                    &&& a.metrics == (MetricBits {
                        quad_w: read_le32(b, 36),
                        quad_h: read_le32(b, 40),
                        origin_x: read_le32(b, 44),
                        origin_y: read_le32(b, 48),
                        advance: read_le32(b, 52),
                        line_height: read_le32(b, 56),
                        range: read_le32(b, 60),
                    })
                    &&& a.pixels@ == b.subrange(
                        ATLAS_HEADER as int,
                        ATLAS_HEADER + read_le32(b, 8) * read_le32(b, 12),
                    )
                },
            },
    {
        if bytes.len() < ATLAS_HEADER {
            return Err(AtlasError::Truncated);
        }
        if !(bytes[0] == 0x46 && bytes[1] == 0x41 && bytes[2] == 0x54 && bytes[3] == 0x4c) {
            return Err(AtlasError::BadMagic);
        }
        let version = get_u32(bytes, 4);
        if version != ATLAS_VERSION {
            return Err(AtlasError::Version { found: version, expected: ATLAS_VERSION });
        }
        let width = get_u32(bytes, 8);
        let height = get_u32(bytes, 12);
        assert((width as int) * (height as int) <= 0xffff_fffe_0000_0001) by (nonlinear_arith)
            requires
                width <= 0xffff_ffff,
                height <= 0xffff_ffff,
        ;
        let area: u64 = (width as u64) * (height as u64);
        let available: usize = bytes.len() - ATLAS_HEADER;
        if (available as u64) < area {
            return Err(AtlasError::Truncated);
        }
        let end: usize = ATLAS_HEADER + area as usize;
        Ok(Atlas {
            width,
            height,
            cell_w: get_u32(bytes, 16),
            cell_h: get_u32(bytes, 20),
            cols: get_u32(bytes, 24),
            count: get_u32(bytes, 28),
            first_char: get_u32(bytes, 32),
            metrics: MetricBits {
                quad_w: get_u32(bytes, 36),
                quad_h: get_u32(bytes, 40),
                origin_x: get_u32(bytes, 44),
                origin_y: get_u32(bytes, 48),
                advance: get_u32(bytes, 52),
                line_height: get_u32(bytes, 56),
                range: get_u32(bytes, 60),
            },
            pixels: vstd::slice::slice_subrange(bytes, ATLAS_HEADER, end),
        })
    }

    /// Atlas cell for a character, or `None` for anything outside the baked range (drawn as a
    /// gap).
    pub fn cell(&self, ch: char) -> (r: Option<u32>)
        ensures
            r == (if self.first_char <= (ch as u32) < self.first_char + self.count {
                Some(((ch as u32) - self.first_char) as u32)
            } else {
                None
            }),
    {
        let code = ch as u32;
        if code >= self.first_char && code - self.first_char < self.count {
            Some(code - self.first_char)
        } else {
            None
        }
    }
}

} // verus!
