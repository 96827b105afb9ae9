//! The tile set as a whole: its format version, the storage keys of its files, and the
//! descriptors of its root description file.

use vstd::prelude::*;

use crate::strings::{decimal, push_decimal};

verus! {

/// Bumped on any breaking change to the description file or the binary tile layout.
pub const FORMAT_VERSION: u32 = 1;

/// How the outline of the map was made.
#[derive(Debug, Clone, Copy, PartialEq, Eq, Structural)]
pub enum ShapeSource {
    Generated,
    Uploaded,
    Rectangle,
}

/// Whether a layer's values are category indices or numbers.
#[derive(Debug, Clone, Copy, PartialEq, Eq, Structural)]
pub enum LayerKind {
    Categorical,
    Scalar,
}

/// The outline of the map, and the seed it was generated from, if any.
#[derive(Debug, Clone, PartialEq, Eq)]
pub struct Shape {
    pub source: ShapeSource,
    pub seed: Option<String>,
}

/// Where the tile set came from.
#[derive(Debug, Clone, PartialEq, Eq)]
pub struct RepoInfo {
    pub name: String,
    pub source: String,
    pub commit_sha: String,
}

/// Totals over the whole tile set.
#[derive(Debug, Clone, Copy, PartialEq, Eq, Default, Structural)]
pub struct Stats {
    pub files: u64,
    pub directories: u64,
    pub lines: u64,
    pub bytes: u64,
    pub languages: u32,
}

/// One entry of a categorical layer's legend.
#[derive(Debug, Clone, PartialEq)]
pub struct Category {
    pub label: String,
    pub color: String,
}

/// Why a manifest was refused.
#[derive(Debug, Clone, PartialEq)]
pub enum ManifestError {
    /// The text is not valid JSON for this format; the parser's message.
    Parse(String),
    /// The tile set is another format version.
    Version { found: u32, expected: u32 },
}

/// Accept a parsed manifest's `formatVersion` only if this build reads it.
pub fn check_format_version(found: u32) -> (r: Result<(), ManifestError>)
    ensures
        r is Ok <==> found == FORMAT_VERSION,
        r is Err ==> r == Err::<(), ManifestError>(
            ManifestError::Version { found, expected: FORMAT_VERSION },
        ),
{
    if found != FORMAT_VERSION {
        return Err(ManifestError::Version { found, expected: FORMAT_VERSION });
    }
    Ok(())
}

/// "tiles/{z}/{x}/{y}.fly".
pub open spec fn tile_key_text(z: u8, x: u32, y: u32) -> Seq<char> {
    seq!['t', 'i', 'l', 'e', 's', '/'] + decimal(z as nat) + seq!['/'] + decimal(x as nat) + seq![
        '/',
    ] + decimal(y as nat) + seq!['.', 'f', 'l', 'y']
}

/// "layers/{layer}/{z}/{x}/{y}.flv".
pub open spec fn layer_tile_key_text(layer: Seq<char>, z: u8, x: u32, y: u32) -> Seq<char> {
    seq!['l', 'a', 'y', 'e', 'r', 's', '/'] + layer + seq!['/'] + decimal(z as nat) + seq!['/']
        + decimal(x as nat) + seq!['/'] + decimal(y as nat) + seq!['.', 'f', 'l', 'v']
}

/// Append "{z}/{x}/{y}".
fn push_address(s: &mut String, z: u8, x: u32, y: u32)
    ensures
        final(s)@ == old(s)@ + decimal(z as nat) + seq!['/'] + decimal(x as nat) + seq!['/']
            + decimal(y as nat),
{
    push_decimal(s, z as u32);
    s.append("/");
    push_decimal(s, x);
    s.append("/");
    push_decimal(s, y);
    proof {
        reveal_strlit("/");
    }
    assert(s@ =~= old(s)@ + decimal(z as nat) + seq!['/'] + decimal(x as nat) + seq!['/']
        + decimal(y as nat));
}

/// Storage key of a geometry tile, relative to the tile set prefix.
pub fn tile_key(z: u8, x: u32, y: u32) -> (r: String)
    ensures
        r@ == tile_key_text(z, x, y),
{
    let mut s = String::new();
    s.append("tiles/");
    push_address(&mut s, z, x, y);
    s.append(".fly");
    proof {
        reveal_strlit("tiles/");
        reveal_strlit(".fly");
    }
    assert(s@ =~= tile_key_text(z, x, y));
    s
}

/// Storage key of a layer tile. Values line up with feature order in the geometry tile.
pub fn layer_tile_key(layer: &str, z: u8, x: u32, y: u32) -> (r: String)
    ensures
        r@ == layer_tile_key_text(layer@, z, x, y),
{
    let mut s = String::new();
    s.append("layers/");
    s.append(layer);
    s.append("/");
    push_address(&mut s, z, x, y);
    s.append(".flv");
    proof {
        reveal_strlit("layers/");
        reveal_strlit("/");
        reveal_strlit(".flv");
    }
    assert(s@ =~= layer_tile_key_text(layer@, z, x, y));
    s
}

} // verus!
