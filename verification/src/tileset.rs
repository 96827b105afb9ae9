//! Tile addresses of an open tile set: the quadtree over them, and how a layer's values are
//! fitted to a tile's features.

use vstd::prelude::*;
use crate::layer::LayerError;
use crate::manifest::ManifestError;
use crate::paths::PathsError;
use crate::tile::TileError;

verus! {

/// Quadtree tile address.
#[derive(Debug, Clone, Copy, PartialEq, Eq, Structural, Hash, PartialOrd, Ord)]
pub struct TileKey {
    pub z: u8,
    pub x: u32,
    pub y: u32,
}

/// The four children of `k`, one zoom deeper: `(2x, 2y)`, `(2x+1, 2y)`, `(2x, 2y+1)`,
/// `(2x+1, 2y+1)`.
pub open spec fn child_keys(k: TileKey) -> Seq<TileKey> {
    seq![
        TileKey { z: (k.z + 1) as u8, x: (2 * k.x) as u32, y: (2 * k.y) as u32 },
        TileKey { z: (k.z + 1) as u8, x: (2 * k.x + 1) as u32, y: (2 * k.y) as u32 },
        TileKey { z: (k.z + 1) as u8, x: (2 * k.x) as u32, y: (2 * k.y + 1) as u32 },
        TileKey { z: (k.z + 1) as u8, x: (2 * k.x + 1) as u32, y: (2 * k.y + 1) as u32 },
    ]
}

/// The tile one zoom coarser that covers `k`; zoom 0 has none.
pub open spec fn parent_key(k: TileKey) -> Option<TileKey> {
    if k.z > 0 {
        Some(TileKey { z: (k.z - 1) as u8, x: k.x / 2, y: k.y / 2 })
    } else {
        None
    }
}

/// Whether the children of `k` can be addressed: one more zoom level and doubled coordinates
/// must fit their integer types.
pub open spec fn has_children(k: TileKey) -> bool {
    k.z < 255 && k.x < 0x8000_0000 && k.y < 0x8000_0000
}

impl TileKey {
    pub fn new(z: u8, x: u32, y: u32) -> (r: TileKey)
        ensures
            r == (TileKey { z, x, y }),
    {
        TileKey { z, x, y }
    }

    /// The four children one zoom deeper.
    pub fn children(self) -> (r: [TileKey; 4])
        requires
            has_children(self),
        ensures
            r@ == child_keys(self),
    {
        let (z, x, y) = (self.z + 1, self.x * 2, self.y * 2);
        let r = [
            TileKey::new(z, x, y),
            TileKey::new(z, x + 1, y),
            TileKey::new(z, x, y + 1),
            TileKey::new(z, x + 1, y + 1),
        ];
        assert(r@ =~= child_keys(self));
        r
    }

    pub fn parent(self) -> (r: Option<TileKey>)
        ensures
            r == parent_key(self),
    {
        if self.z > 0 {
            Some(TileKey::new(self.z - 1, self.x / 2, self.y / 2))
        } else {
            None
        }
    }
}

/// Every child of a tile has that tile as its parent.
pub proof fn law_children_have_their_parent(k: TileKey, i: int)
    requires
        has_children(k),
        0 <= i < 4,
    ensures
        parent_key(child_keys(k)[i]) == Some(k),
        child_keys(k)[i].z == k.z + 1,
{
}

/// A tile below zoom 0 is one of its parent's children.
pub proof fn law_tile_is_a_child_of_its_parent(k: TileKey)
    requires
        k.z > 0,
    ensures
        parent_key(k) matches Some(p) && has_children(p) && child_keys(p).contains(k),
{
    let p = parent_key(k)->0;
    let i: int = (k.x % 2) + 2 * (k.y % 2);
    assert(child_keys(p)[i] == k);
}

/// Why part of a tile set could not be read.
#[derive(Debug)]
pub enum TileSetError {
    /// Reading a file failed: its path and the system's message.
    Io { path: String, message: String },
    Manifest(ManifestError),
    Paths(PathsError),
    Tile(TileKey, TileError),
    Layer(TileKey, String, LayerError),
}

/// Force a layer vector to the feature count (defensive against a mismatched layer tile):
/// values past `n` are dropped, and missing ones are `T::default()`.
pub fn fit<T: Clone + Default>(v: Vec<T>, n: usize) -> (r: Vec<T>)
    ensures
        r@.len() == n,
        forall|i: int| 0 <= i < n && i < v@.len() ==> r@[i] == v@[i],
        forall|i: int| v@.len() <= i < n ==> call_ensures(T::default, (), r@[i]),
{
    let mut r = v;
    if r.len() > n {
        r.truncate(n);
        return r;
    }
    let ghost start = r@.len();
    while r.len() < n
        invariant
            start <= r@.len() <= n,
            start == v@.len(),
            forall|i: int| 0 <= i < start ==> r@[i] == v@[i],
            forall|i: int| start <= i < r@.len() ==> call_ensures(T::default, (), r@[i]),
        decreases n - r.len(),
    {
        let d = T::default();
        r.push(d);
    }
    r
}

} // verus!
