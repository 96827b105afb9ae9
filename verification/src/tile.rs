//! Binary geometry tile: `.fly` v1.
//!
//! Layout (little-endian), zstd-compressed as a whole:
//! ```text
//! header    magic "FLY1", format version u32, z u8, x u32, y u32, feature count u32
//! features  per feature: id u32, kind u8, depth u8, parent id u32, lines u32,
//!           vertex offset u32, vertex count u32, index offset u32, index count u32
//! vertices  x, y pairs of IEEE-754 single-precision bit patterns, tile-local coordinates
//! indices   u32, pre-triangulated so the client does no geometry work
//! ```
//! Offsets are in element units: a vertex offset counts vertices, an index offset counts
//! indices. Vertex coordinates are carried as the bit patterns of `f32` values
//! (`f32::to_bits`), which is exactly what the file stores.

use vstd::prelude::*;

use crate::bytes::{
    concat_map, get_u32, le32, lemma_concat_map_fixed, lemma_concat_map_front,
    lemma_concat_map_len, lemma_concat_map_push, lemma_read_le32, push_u32, read_le32,
};
use crate::compress::{zstd_compress, zstd_compressed, zstd_decompress, zstd_frame_content, zstd_magic, ZstdError};
use crate::manifest::FORMAT_VERSION;

verus! {

/// Compression level of geometry tiles.
pub const TILE_ZSTD_LEVEL: i32 = 19;

/// Whether a feature is a directory slab or a file block.
#[derive(Debug, Clone, Copy, PartialEq, Eq, Structural)]
pub enum FeatureKind {
    Dir,
    File,
}

/// The byte a kind is stored as.
pub open spec fn kind_byte(k: FeatureKind) -> u8 {
    match k {
        FeatureKind::Dir => 0,
        FeatureKind::File => 1,
    }
}

impl FeatureKind {
    /// The byte this kind is stored as.
    pub fn to_u8(self) -> (r: u8)
        ensures
            r == kind_byte(self),
    {
        match self {
            FeatureKind::Dir => 0,
            FeatureKind::File => 1,
        }
    }

    /// The kind stored as `v`, or [`TileError::BadKind`].
    pub fn from_u8(v: u8) -> (r: Result<FeatureKind, TileError>)
        ensures
            v == 0 ==> r == Ok::<FeatureKind, TileError>(FeatureKind::Dir),
            v == 1 ==> r == Ok::<FeatureKind, TileError>(FeatureKind::File),
            v > 1 ==> r == Err::<FeatureKind, TileError>(TileError::BadKind(v)),
    {
        match v {
            0 => Ok(FeatureKind::Dir),
            1 => Ok(FeatureKind::File),
            other => Err(TileError::BadKind(other)),
        }
    }
}

/// One drawable cell: a directory slab or a file block, pre-triangulated in tile-local space.
#[derive(Debug, Clone, PartialEq)]
pub struct Feature {
    pub id: u32,
    pub kind: FeatureKind,
    pub depth: u8,
    pub parent_id: u32,
    pub lines: u32,
    /// Tile-local (x, y) positions, as `f32` bit patterns.
    pub vertices: Vec<[u32; 2]>,
    /// Triangle indices into `vertices`.
    pub indices: Vec<u32>,
}

/// A geometry tile at quadtree address `(z, x, y)`.
#[derive(Debug, Clone, PartialEq)]
pub struct Tile {
    pub z: u8,
    pub x: u32,
    pub y: u32,
    pub features: Vec<Feature>,
}

/// Why a geometry tile could not be written or read.
#[derive(Debug, Clone, PartialEq, Eq)]
pub enum TileError {
    /// Reading or writing the compressed stream failed; the message.
    Io(String),
    /// The decompressed tile does not start with "FLY1".
    BadMagic,
    /// The tile is another format version.
    Version { found: u32, expected: u32 },
    /// A feature kind byte other than 0 (dir) or 1 (file).
    BadKind(u8),
    /// The tile ends early, or a feature's offsets point past its arrays.
    Truncated,
    /// The bytes are not a zstd frame; the decoder's message.
    Compression(String),
}

/// A feature as a mathematical value.
pub struct FeatureRecord {
    pub id: u32,
    pub kind: FeatureKind,
    pub depth: u8,
    pub parent_id: u32,
    pub lines: u32,
    pub vertices: Seq<[u32; 2]>,
    pub indices: Seq<u32>,
}

/// A tile as a mathematical value.
pub struct TileRecord {
    pub z: u8,
    pub x: u32,
    pub y: u32,
    pub features: Seq<FeatureRecord>,
}

impl View for Feature {
    type V = FeatureRecord;

    open spec fn view(&self) -> FeatureRecord {
        FeatureRecord {
            id: self.id,
            kind: self.kind,
            depth: self.depth,
            parent_id: self.parent_id,
            lines: self.lines,
            vertices: self.vertices@,
            indices: self.indices@,
        }
    }
}

/// The features of a tile, as mathematical values.
pub open spec fn feature_records(v: Seq<Feature>) -> Seq<FeatureRecord> {
    v.map_values(|f: Feature| f@)
}

impl View for Tile {
    type V = TileRecord;

    open spec fn view(&self) -> TileRecord {
        TileRecord { z: self.z, x: self.x, y: self.y, features: feature_records(self.features@) }
    }
}

/// One row of the feature table, as stored.
#[derive(Clone, Copy)]
pub struct Meta {
    pub id: u32,
    pub kind: FeatureKind,
    pub depth: u8,
    pub parent_id: u32,
    pub lines: u32,
    pub voff: u32,
    pub vcount: u32,
    pub ioff: u32,
    pub icount: u32,
}

/// "FLY1".
pub open spec fn tile_magic() -> Seq<u8> {
    seq![70u8, 76u8, 89u8, 49u8]
}

/// The vertices of the first `n` features, one after another.
pub open spec fn all_vertices(fs: Seq<FeatureRecord>) -> Seq<[u32; 2]>
    decreases fs.len(),
{
    if fs.len() == 0 {
        Seq::empty()
    } else {
        all_vertices(fs.drop_last()) + fs.last().vertices
    }
}

/// The indices of all features, one after another.
pub open spec fn all_indices(fs: Seq<FeatureRecord>) -> Seq<u32>
    decreases fs.len(),
{
    if fs.len() == 0 {
        Seq::empty()
    } else {
        all_indices(fs.drop_last()) + fs.last().indices
    }
}

/// The table row of feature `f` whose vertices and indices start at `voff` and `ioff`.
pub open spec fn meta_of(f: FeatureRecord, voff: int, ioff: int) -> Meta {
    Meta {
        id: f.id,
        kind: f.kind,
        depth: f.depth,
        parent_id: f.parent_id,
        lines: f.lines,
        voff: voff as u32,
        vcount: f.vertices.len() as u32,
        ioff: ioff as u32,
        icount: f.indices.len() as u32,
    }
}

/// The thirty bytes of a table row.
pub open spec fn meta_bytes(m: Meta) -> Seq<u8> {
    le32(m.id) + seq![kind_byte(m.kind), m.depth] + le32(m.parent_id) + le32(m.lines) + le32(
        m.voff,
    ) + le32(m.vcount) + le32(m.ioff) + le32(m.icount)
}

/// The table rows the encoder writes for the first `n` features.
pub open spec fn metas_of(fs: Seq<FeatureRecord>, n: nat) -> Seq<Meta>
    decreases n,
{
    if n == 0 || n > fs.len() {
        Seq::empty()
    } else {
        metas_of(fs, (n - 1) as nat).push(
            meta_of(
                fs[n - 1],
                all_vertices(fs.take(n - 1)).len() as int,
                all_indices(fs.take(n - 1)).len() as int,
            ),
        )
    }
}

/// The bytes of one vertex.
pub open spec fn vertex_bytes(p: [u32; 2]) -> Seq<u8> {
    le32(p[0]) + le32(p[1])
}

/// The uncompressed bytes of a tile.
#[verifier::opaque]
pub open spec fn tile_raw(t: TileRecord) -> Seq<u8> {
    tile_magic() + le32(FORMAT_VERSION) + seq![t.z] + le32(t.x) + le32(t.y) + le32(
        t.features.len() as u32,
    ) + concat_map(metas_of(t.features, t.features.len()), |m: Meta| meta_bytes(m)) + concat_map(
        all_vertices(t.features),
        |p: [u32; 2]| vertex_bytes(p),
    ) + concat_map(all_indices(t.features), |i: u32| le32(i))
}

/// The table row at `pos`, or why it cannot be read.
pub open spec fn meta_at(raw: Seq<u8>, pos: int) -> Result<Meta, TileError> {
    if pos + 5 > raw.len() {
        Err(TileError::Truncated)
    } else if raw[pos + 4] > 1 {
        Err(TileError::BadKind(raw[pos + 4]))
    } else if pos + 30 > raw.len() {
        Err(TileError::Truncated)
    } else {
        Ok(
            Meta {
                id: read_le32(raw, pos),
                kind: if raw[pos + 4] == 0 {
                    FeatureKind::Dir
                } else {
                    FeatureKind::File
                },
                depth: raw[pos + 5],
                parent_id: read_le32(raw, pos + 6),
                lines: read_le32(raw, pos + 10),
                voff: read_le32(raw, pos + 14),
                vcount: read_le32(raw, pos + 18),
                ioff: read_le32(raw, pos + 22),
                icount: read_le32(raw, pos + 26),
            },
        )
    }
}

/// The first `n` table rows from `pos`, or the first reason one cannot be read.
pub open spec fn metas_at(raw: Seq<u8>, pos: int, n: nat) -> Result<Seq<Meta>, TileError>
    decreases n,
{
    if n == 0 {
        Ok(Seq::empty())
    } else {
        match metas_at(raw, pos, (n - 1) as nat) {
            Err(e) => Err(e),
            Ok(ms) => match meta_at(raw, pos + 30 * (n - 1)) {
                Err(e) => Err(e),
                Ok(m) => Ok(ms.push(m)),
            },
        }
    }
}

/// Sum of the vertex counts of the rows.
pub open spec fn total_vertices(ms: Seq<Meta>) -> int
    decreases ms.len(),
{
    if ms.len() == 0 {
        0
    } else {
        total_vertices(ms.drop_last()) + ms.last().vcount
    }
}

/// Sum of the index counts of the rows.
pub open spec fn total_indices(ms: Seq<Meta>) -> int
    decreases ms.len(),
{
    if ms.len() == 0 {
        0
    } else {
        total_indices(ms.drop_last()) + ms.last().icount
    }
}

/// The `n` vertices stored from `pos`.
pub open spec fn vertices_at(raw: Seq<u8>, pos: int, n: nat) -> Seq<[u32; 2]>
    decreases n,
{
    if n == 0 {
        Seq::empty()
    } else {
        seq![[read_le32(raw, pos), read_le32(raw, pos + 4)]] + vertices_at(raw, pos + 8, (n - 1) as nat)
    }
}

/// The `n` indices stored from `pos`.
pub open spec fn indices_at(raw: Seq<u8>, pos: int, n: nat) -> Seq<u32>
    decreases n,
{
    if n == 0 {
        Seq::empty()
    } else {
        seq![read_le32(raw, pos)] + indices_at(raw, pos + 4, (n - 1) as nat)
    }
}

/// A row's slices lie within the arrays.
pub open spec fn meta_in_range(m: Meta, nv: int, ni: int) -> bool {
    m.voff + m.vcount <= nv && m.ioff + m.icount <= ni
}

/// The feature a row describes, cut from the arrays.
pub open spec fn feature_of(m: Meta, vs: Seq<[u32; 2]>, is: Seq<u32>) -> FeatureRecord {
    FeatureRecord {
        id: m.id,
        kind: m.kind,
        depth: m.depth,
        parent_id: m.parent_id,
        lines: m.lines,
        vertices: vs.subrange(m.voff as int, m.voff + m.vcount),
        indices: is.subrange(m.ioff as int, m.ioff + m.icount),
    }
}

/// What reading the uncompressed bytes `raw` of a geometry tile gives.
pub open spec fn parse_tile(raw: Seq<u8>) -> Result<TileRecord, TileError> {
    if raw.len() < 4 {
        Err(TileError::Truncated)
    } else if raw.subrange(0, 4) != tile_magic() {
        Err(TileError::BadMagic)
    } else if raw.len() < 8 {
        Err(TileError::Truncated)
    } else if read_le32(raw, 4) != FORMAT_VERSION {
        Err(TileError::Version { found: read_le32(raw, 4), expected: FORMAT_VERSION })
    } else if raw.len() < 21 {
        Err(TileError::Truncated)
    } else {
        let count = read_le32(raw, 17);
        match metas_at(raw, 21, count as nat) {
            Err(e) => Err(e),
            Ok(ms) => {
                let pv = 21 + 30 * count;
                let nv = total_vertices(ms);
                let pi = pv + 8 * nv;
                let ni = total_indices(ms);
                if pi > raw.len() || pi + 4 * ni > raw.len() {
                    Err(TileError::Truncated)
                } else {
                    let vs = vertices_at(raw, pv, nv as nat);
                    let is = indices_at(raw, pi, ni as nat);
                    if forall|k: int| 0 <= k < ms.len() ==> meta_in_range(#[trigger] ms[k], nv, ni) {
                        Ok(
                            TileRecord {
                                z: raw[8],
                                x: read_le32(raw, 9),
                                y: read_le32(raw, 13),
                                features: ms.map_values(|m: Meta| feature_of(m, vs, is)),
                            },
                        )
                    } else {
                        Err(TileError::Truncated)
                    }
                }
            },
        }
    }
}

/// What decompressing and reading the tile `bytes` gives.
pub open spec fn decode_tile(bytes: Seq<u8>) -> Option<Result<TileRecord, TileError>> {
    match zstd_frame_content(bytes) {
        None => None,
        Some(raw) => Some(parse_tile(raw)),
    }
}

/// Append every element of `src`.
fn append_copy<T: Copy>(dst: &mut Vec<T>, src: &[T])
    ensures
        final(dst)@ == old(dst)@ + src@,
{
    let ghost start = dst@;
    let mut i: usize = 0;
    while i < src.len()
        invariant
            i <= src@.len(),
            dst@ == start + src@.subrange(0, i as int),
        decreases src@.len() - i,
    {
        dst.push(src[i]);
        i = i + 1;
        assert(dst@ =~= start + src@.subrange(0, i as int));
    }
    assert(src@.subrange(0, src@.len() as int) =~= src@);
}

/// The rows for one more feature are the rows so far plus that feature's row.
proof fn lemma_metas_of_step(fs: Seq<FeatureRecord>, i: int)
    requires
        0 <= i < fs.len(),
    ensures
        metas_of(fs, (i + 1) as nat) == metas_of(fs, i as nat).push(
            meta_of(fs[i], all_vertices(fs.take(i)).len() as int, all_indices(fs.take(i)).len() as int),
        ),
        all_vertices(fs.take(i + 1)) == all_vertices(fs.take(i)) + fs[i].vertices,
        all_indices(fs.take(i + 1)) == all_indices(fs.take(i)) + fs[i].indices,
{
    assert(fs.take(i + 1).drop_last() =~= fs.take(i));
    assert(fs.take(i + 1).last() == fs[i]);
}

impl Tile {
    /// Encode and zstd-compress. Deterministic for a given tile.
    pub fn encode(&self) -> (r: Result<Vec<u8>, TileError>)
        ensures
            r matches Ok(out) ==> out@ == zstd_compressed(tile_raw(self@), TILE_ZSTD_LEVEL)
                && zstd_frame_content(out@) == Some(tile_raw(self@)),
            r is Err ==> r matches Err(TileError::Io(_)),
    {
        let ghost fs = self@.features;
        let n = self.features.len();
        let mut buf: Vec<u8> = Vec::new();
        buf.push(70u8);
        buf.push(76u8);
        buf.push(89u8);
        buf.push(49u8);
        push_u32(&mut buf, FORMAT_VERSION);
        buf.push(self.z);
        push_u32(&mut buf, self.x);
        push_u32(&mut buf, self.y);
        push_u32(&mut buf, #[verifier::truncate] (n as u32));
        let ghost head = buf@;
        let ghost mb = |m: Meta| meta_bytes(m);
        let mut vertices: Vec<[u32; 2]> = Vec::new();
        let mut indices: Vec<u32> = Vec::new();
        let mut i: usize = 0;
        assert(fs.take(0) =~= Seq::<FeatureRecord>::empty());
        while i < n
            invariant
                n == self.features@.len(),
                fs == feature_records(self.features@),
                i <= n,
                mb == (|m: Meta| meta_bytes(m)),
                buf@ == head + concat_map(metas_of(fs, i as nat), mb),
                vertices@ == all_vertices(fs.take(i as int)),
                indices@ == all_indices(fs.take(i as int)),
            decreases n - i,
        {
            let f = &self.features[i];
            let voff = #[verifier::truncate] (vertices.len() as u32);
            let ioff = #[verifier::truncate] (indices.len() as u32);
            let ghost before = buf@;
            push_u32(&mut buf, f.id);
            buf.push(f.kind.to_u8());
            buf.push(f.depth);
            push_u32(&mut buf, f.parent_id);
            push_u32(&mut buf, f.lines);
            push_u32(&mut buf, voff);
            push_u32(&mut buf, #[verifier::truncate] (f.vertices.len() as u32));
            push_u32(&mut buf, ioff);
            push_u32(&mut buf, #[verifier::truncate] (f.indices.len() as u32));
            append_copy(&mut vertices, f.vertices.as_slice());
            append_copy(&mut indices, f.indices.as_slice());
            proof {
                assert(fs[i as int] == f@);
                lemma_metas_of_step(fs, i as int);
                let m = meta_of(
                    fs[i as int],
                    all_vertices(fs.take(i as int)).len() as int,
                    all_indices(fs.take(i as int)).len() as int,
                );
                assert(buf@ =~= before + meta_bytes(m));
                lemma_concat_map_push(metas_of(fs, i as nat), m, mb);
            }
            i = i + 1;
        }
        assert(fs.take(n as int) =~= fs);
        let ghost mid = buf@;
        let ghost vb = |p: [u32; 2]| vertex_bytes(p);
        let mut k: usize = 0;
        while k < vertices.len()
            invariant
                k <= vertices@.len(),
                vb == (|p: [u32; 2]| vertex_bytes(p)),
                buf@ == mid + concat_map(vertices@.take(k as int), vb),
            decreases vertices@.len() - k,
        {
            let p = vertices[k];
            let ghost before = buf@;
            push_u32(&mut buf, p[0]);
            push_u32(&mut buf, p[1]);
            proof {
                assert(vertices@.take(k + 1) =~= vertices@.take(k as int).push(p));
                lemma_concat_map_push(vertices@.take(k as int), p, vb);
                assert(buf@ =~= before + vertex_bytes(p));
            }
            k = k + 1;
        }
        assert(vertices@.take(vertices@.len() as int) =~= vertices@);
        let ghost mid2 = buf@;
        let ghost ib = |x: u32| le32(x);
        let mut q: usize = 0;
        while q < indices.len()
            invariant
                q <= indices@.len(),
                ib == (|x: u32| le32(x)),
                buf@ == mid2 + concat_map(indices@.take(q as int), ib),
            decreases indices@.len() - q,
        {
            let x = indices[q];
            push_u32(&mut buf, x);
            proof {
                assert(indices@.take(q + 1) =~= indices@.take(q as int).push(x));
                lemma_concat_map_push(indices@.take(q as int), x, ib);
            }
            q = q + 1;
        }
        assert(indices@.take(indices@.len() as int) =~= indices@);
        reveal(tile_raw);
        assert(buf@ =~= tile_raw(self@));
        match zstd_compress(buf.as_slice(), TILE_ZSTD_LEVEL) {
            Ok(out) => Ok(out),
            Err(message) => Err(TileError::Io(message)),
        }
    }
}

/// Minimal cursor over a byte slice.
struct Reader<'a> {
    data: &'a [u8],
    pos: usize,
}

impl<'a> Reader<'a> {
    fn new(data: &'a [u8]) -> (r: Self)
        ensures
            r.data@ == data@,
            r.pos == 0,
    {
        Reader { data, pos: 0 }
    }

    /// The next `n` bytes, or [`TileError::Truncated`] (without moving) where fewer are left.
    fn take(&mut self, n: usize) -> (r: Result<&'a [u8], TileError>)
        requires
            old(self).pos <= old(self).data@.len(),
        ensures
            final(self).data@ == old(self).data@,
            old(self).pos + n <= old(self).data@.len() ==> final(self).pos == old(self).pos + n
                && (r matches Ok(s) && s@ == old(self).data@.subrange(
                old(self).pos as int,
                old(self).pos + n,
            )),
            old(self).pos + n > old(self).data@.len() ==> final(self).pos == old(self).pos && r
                == Err::<&'a [u8], TileError>(TileError::Truncated),
    {
        if n > self.data.len() - self.pos {
            return Err(TileError::Truncated);
        }
        let end = self.pos + n;
        let s = vstd::slice::slice_subrange(self.data, self.pos, end);
        self.pos = end;
        Ok(s)
    }

    fn u8(&mut self) -> (r: Result<u8, TileError>)
        requires
            old(self).pos <= old(self).data@.len(),
        ensures
            final(self).data@ == old(self).data@,
            old(self).pos + 1 <= old(self).data@.len() ==> final(self).pos == old(self).pos + 1
                && r == Ok::<u8, TileError>(old(self).data@[old(self).pos as int]),
            old(self).pos + 1 > old(self).data@.len() ==> final(self).pos == old(self).pos && r
                == Err::<u8, TileError>(TileError::Truncated),
    {
        let b = self.take(1)?;
        Ok(b[0])
    }

    fn u32(&mut self) -> (r: Result<u32, TileError>)
        requires
            old(self).pos <= old(self).data@.len(),
        ensures
            final(self).data@ == old(self).data@,
            old(self).pos + 4 <= old(self).data@.len() ==> final(self).pos == old(self).pos + 4
                && r == Ok::<u32, TileError>(read_le32(old(self).data@, old(self).pos as int)),
            old(self).pos + 4 > old(self).data@.len() ==> final(self).pos == old(self).pos && r
                == Err::<u32, TileError>(TileError::Truncated),
    {
        let b = self.take(4)?;
        Ok(get_u32(b, 0))
    }
}

/// Read one table row.
fn read_meta(r: &mut Reader) -> (res: Result<Meta, TileError>)
    requires
        old(r).pos <= old(r).data@.len(),
    ensures
        final(r).data@ == old(r).data@,
        res == meta_at(old(r).data@, old(r).pos as int),
        res is Ok ==> final(r).pos == old(r).pos + 30,
{
    let id = r.u32()?;
    let kind = FeatureKind::from_u8(r.u8()?)?;
    let depth = r.u8()?;
    let parent_id = r.u32()?;
    let lines = r.u32()?;
    let voff = r.u32()?;
    let vcount = r.u32()?;
    let ioff = r.u32()?;
    let icount = r.u32()?;
    Ok(Meta { id, kind, depth, parent_id, lines, voff, vcount, ioff, icount })
}

/// Once reading the first rows fails, reading more rows fails the same way.
proof fn lemma_metas_at_error(raw: Seq<u8>, pos: int, n: nat, m: nat)
    requires
        n <= m,
        metas_at(raw, pos, n) is Err,
    ensures
        metas_at(raw, pos, m) == metas_at(raw, pos, n),
    decreases m - n,
{
    if n < m {
        lemma_metas_at_error(raw, pos, n, (m - 1) as nat);
    }
}

/// `vs[off..off + count]`, or [`TileError::Truncated`] where that runs past the end.
fn slice<T: Copy>(all: &[T], off: u32, count: u32) -> (r: Result<Vec<T>, TileError>)
    ensures
        off + count <= all@.len() ==> (r matches Ok(v) && v@ == all@.subrange(
            off as int,
            off + count,
        )),
        off + count > all@.len() ==> r == Err::<Vec<T>, TileError>(TileError::Truncated),
{
    let start = off as usize;
    if count as usize > all.len() || start > all.len() - count as usize {
        return Err(TileError::Truncated);
    }
    Ok(vstd::slice::slice_to_vec(vstd::slice::slice_subrange(all, start, start + count as usize)))
}

/// Read `count` table rows from the reader's position.
fn read_metas(r: &mut Reader, count: u32) -> (res: Result<Vec<Meta>, TileError>)
    requires
        old(r).pos <= old(r).data@.len(),
    ensures
        final(r).data@ == old(r).data@,
        match metas_at(old(r).data@, old(r).pos as int, count as nat) {
            Ok(ms) => (res matches Ok(v) && v@ == ms) && final(r).pos == old(r).pos + 30 * count,
            Err(e) => res == Err::<Vec<Meta>, TileError>(e),
        },
{
    let ghost raw = r.data@;
    let ghost start = r.pos as int;
    let mut metas: Vec<Meta> = Vec::new();
    let mut i: u32 = 0;
    while i < count
        invariant
            r.data@ == raw,
            raw == old(r).data@,
            start == old(r).pos as int,
            i <= count,
            r.pos == start + 30 * i,
            r.pos <= raw.len(),
            metas_at(raw, start, i as nat) == Ok::<Seq<Meta>, TileError>(metas@),
        decreases count - i,
    {
        let m = match read_meta(r) {
            Ok(m) => m,
            Err(e) => {
                proof {
                    assert(metas_at(raw, start, (i + 1) as nat) == Err::<Seq<Meta>, TileError>(e));
                    lemma_metas_at_error(raw, start, (i + 1) as nat, count as nat);
                }
                return Err(e);
            },
        };
        metas.push(m);
        i = i + 1;
    }
    Ok(metas)
}

/// Reading rows gives as many rows as asked for.
proof fn lemma_metas_at_len(raw: Seq<u8>, pos: int, n: nat)
    ensures
        metas_at(raw, pos, n) matches Ok(ms) ==> ms.len() == n,
    decreases n,
{
    if n > 0 {
        lemma_metas_at_len(raw, pos, (n - 1) as nat);
    }
}

/// The total vertex and index counts of the rows.
fn totals(metas: &Vec<Meta>) -> (r: (u64, u64))
    requires
        metas@.len() <= u32::MAX,
    ensures
        r.0 == total_vertices(metas@),
        r.1 == total_indices(metas@),
{
    let mut nv: u64 = 0;
    let mut ni: u64 = 0;
    let mut k: usize = 0;
    while k < metas.len()
        invariant
            k <= metas@.len(),
            metas@.len() <= u32::MAX,
            nv == total_vertices(metas@.take(k as int)),
            ni == total_indices(metas@.take(k as int)),
            nv <= k * 0xffff_ffff,
            ni <= k * 0xffff_ffff,
        decreases metas@.len() - k,
    {
        assert(metas@.take(k + 1).drop_last() =~= metas@.take(k as int));
        assert(nv + metas@[k as int].vcount <= (k + 1) * 0xffff_ffff) by (nonlinear_arith)
            requires
                nv <= k * 0xffff_ffff,
                metas@[k as int].vcount <= 0xffff_ffff,
        ;
        assert(ni + metas@[k as int].icount <= (k + 1) * 0xffff_ffff) by (nonlinear_arith)
            requires
                ni <= k * 0xffff_ffff,
                metas@[k as int].icount <= 0xffff_ffff,
        ;
        assert((k + 1) * 0xffff_ffff <= 0xffff_ffff * 0xffff_ffff) by (nonlinear_arith)
            requires
                k + 1 <= 0xffff_ffff,
        ;
        nv = nv + metas[k].vcount as u64;
        ni = ni + metas[k].icount as u64;
        k = k + 1;
    }
    assert(metas@.take(metas@.len() as int) =~= metas@);
    (nv, ni)
}

/// Read `nv` vertices from `pos`.
fn read_vertices(raw: &[u8], pv: usize, nv: u64) -> (r: Vec<[u32; 2]>)
    requires
        pv + 8 * nv <= raw@.len(),
    ensures
        r@ == vertices_at(raw@, pv as int, nv as nat),
        r@.len() == nv,
{
    let ghost total_v = vertices_at(raw@, pv as int, nv as nat);
    let mut vertices: Vec<[u32; 2]> = Vec::new();
    let mut pos = pv;
    let mut c: u64 = 0;
    let n = raw.len();
    while c < nv
        invariant
            n == raw@.len(),
            c <= nv,
            pos == pv + 8 * c,
            pv + 8 * nv <= raw@.len(),
            vertices@ + vertices_at(raw@, pos as int, (nv - c) as nat) == total_v,
            vertices@.len() == c,
        decreases nv - c,
    {
        let p = [get_u32(raw, pos), get_u32(raw, pos + 4)];
        assert(vertices_at(raw@, pos as int, (nv - c) as nat) =~= seq![p] + vertices_at(
            raw@,
            pos + 8,
            (nv - c - 1) as nat,
        ));
        vertices.push(p);
        assert(vertices@ + vertices_at(raw@, pos + 8, (nv - c - 1) as nat) =~= total_v);
        pos = pos + 8;
        c = c + 1;
    }
    assert(vertices@ =~= total_v);
    vertices
}

/// Read `ni` indices from `pos`.
fn read_indices(raw: &[u8], pi: usize, ni: u64) -> (r: Vec<u32>)
    requires
        pi + 4 * ni <= raw@.len(),
    ensures
        r@ == indices_at(raw@, pi as int, ni as nat),
        r@.len() == ni,
{
    let ghost total_i = indices_at(raw@, pi as int, ni as nat);
    let mut indices: Vec<u32> = Vec::new();
    let mut pos = pi;
    let mut c: u64 = 0;
    let n = raw.len();
    while c < ni
        invariant
            n == raw@.len(),
            c <= ni,
            pos == pi + 4 * c,
            pi + 4 * ni <= raw@.len(),
            indices@ + indices_at(raw@, pos as int, (ni - c) as nat) == total_i,
            indices@.len() == c,
        decreases ni - c,
    {
        let v = get_u32(raw, pos);
        assert(indices_at(raw@, pos as int, (ni - c) as nat) =~= seq![v] + indices_at(
            raw@,
            pos + 4,
            (ni - c - 1) as nat,
        ));
        indices.push(v);
        assert(indices@ + indices_at(raw@, pos + 4, (ni - c - 1) as nat) =~= total_i);
        pos = pos + 4;
        c = c + 1;
    }
    assert(indices@ =~= total_i);
    indices
}

/// Cut each row's feature from the arrays.
fn cut_features(metas: &Vec<Meta>, vertices: &Vec<[u32; 2]>, indices: &Vec<u32>) -> (r: Result<
    Vec<Feature>,
    TileError,
>)
    ensures
        (forall|k: int|
            0 <= k < metas@.len() ==> meta_in_range(
                #[trigger] metas@[k],
                vertices@.len() as int,
                indices@.len() as int,
            )) ==> (r matches Ok(fs) && feature_records(fs@) == metas@.map_values(
            |m: Meta| feature_of(m, vertices@, indices@),
        )),
        !(forall|k: int|
            0 <= k < metas@.len() ==> meta_in_range(
                #[trigger] metas@[k],
                vertices@.len() as int,
                indices@.len() as int,
            )) ==> r == Err::<Vec<Feature>, TileError>(TileError::Truncated),
{
    let mut features: Vec<Feature> = Vec::new();
    let mut j: usize = 0;
    while j < metas.len()
        invariant
            j <= metas@.len(),
            forall|q: int|
                0 <= q < j ==> meta_in_range(
                    #[trigger] metas@[q],
                    vertices@.len() as int,
                    indices@.len() as int,
                ),
            feature_records(features@) == metas@.take(j as int).map_values(
                |m: Meta| feature_of(m, vertices@, indices@),
            ),
        decreases metas@.len() - j,
    {
        let m = metas[j];
        let vs = slice(vertices.as_slice(), m.voff, m.vcount)?;
        let is = slice(indices.as_slice(), m.ioff, m.icount)?;
        let f = Feature {
            id: m.id,
            kind: m.kind,
            depth: m.depth,
            parent_id: m.parent_id,
            lines: m.lines,
            vertices: vs,
            indices: is,
        };
        let ghost before = features@;
        features.push(f);
        assert(feature_records(features@) =~= metas@.take(j + 1).map_values(
            |m: Meta| feature_of(m, vertices@, indices@),
        )) by {
            assert(feature_records(features@) =~= feature_records(before).push(f@));
            assert(metas@.take(j + 1) =~= metas@.take(j as int).push(m));
        }
        j = j + 1;
    }
    assert(metas@.take(metas@.len() as int) =~= metas@);
    Ok(features)
}

/// Read the uncompressed bytes of a geometry tile.
pub fn parse_tile_raw(raw: &[u8]) -> (res: Result<Tile, TileError>)
    ensures
        match parse_tile(raw@) {
            Ok(t) => res matches Ok(x) && x@ == t,
            Err(e) => res == Err::<Tile, TileError>(e),
        },
{
    let mut r = Reader::new(raw);
    let magic = r.take(4)?;
    if !(magic[0] == 70u8 && magic[1] == 76u8 && magic[2] == 89u8 && magic[3] == 49u8) {
        proof {
            if raw@.subrange(0, 4) == tile_magic() {
                assert(magic@[0] == raw@.subrange(0, 4)[0]);
                assert(magic@[1] == raw@.subrange(0, 4)[1]);
                assert(magic@[2] == raw@.subrange(0, 4)[2]);
                assert(magic@[3] == raw@.subrange(0, 4)[3]);
            }
        }
        return Err(TileError::BadMagic);
    }
    assert(raw@.subrange(0, 4) =~= tile_magic());
    let version = r.u32()?;
    if version != FORMAT_VERSION {
        return Err(TileError::Version { found: version, expected: FORMAT_VERSION });
    }
    let z = r.u8()?;
    let x = r.u32()?;
    let y = r.u32()?;
    let count = r.u32()?;
    let metas = read_metas(&mut r, count)?;
    proof {
        lemma_metas_at_len(raw@, 21, count as nat);
    }
    let (nv, ni) = totals(&metas);
    let n = raw.len();
    let pv = r.pos;
    let rem = n - pv;
    if nv > (rem / 8) as u64 {
        assert(pv + 8 * nv > n) by (nonlinear_arith)
            requires
                nv > rem / 8,
                rem == n - pv,
        ;
        return Err(TileError::Truncated);
    }
    assert(8 * nv <= rem) by (nonlinear_arith)
        requires
            nv <= rem / 8,
    ;
    let rem2 = rem - 8 * nv as usize;
    if ni > (rem2 / 4) as u64 {
        assert(pv + 8 * nv + 4 * ni > n) by (nonlinear_arith)
            requires
                ni > rem2 / 4,
                rem2 == n - pv - 8 * nv,
        ;
        return Err(TileError::Truncated);
    }
    assert(4 * ni <= rem2) by (nonlinear_arith)
        requires
            ni <= rem2 / 4,
    ;
    let vertices = read_vertices(raw, pv, nv);
    let indices = read_indices(raw, pv + 8 * nv as usize, ni);
    let features = cut_features(&metas, &vertices, &indices)?;
    let t = Tile { z, x, y, features };
    assert(t@.features =~= metas@.map_values(|m: Meta| feature_of(m, vertices@, indices@)));
    Ok(t)
}

impl Tile {
    /// Decompress and decode bytes produced by [`Tile::encode`].
    pub fn decode(bytes: &[u8]) -> (r: Result<Tile, TileError>)
        ensures
            match decode_tile(bytes@) {
                None => r matches Err(TileError::Compression(_)) || r matches Err(TileError::Io(_)),
                Some(Ok(t)) => r matches Ok(x) && x@ == t,
                Some(Err(e)) => r == Err::<Tile, TileError>(e),
            },
            !zstd_magic(bytes@) ==> r is Err,
    {
        let raw = match zstd_decompress(bytes) {
            Ok(raw) => raw,
            Err(ZstdError::Frame(message)) => {
                return Err(TileError::Compression(message));
            },
            Err(ZstdError::Read(message)) => {
                return Err(TileError::Io(message));
            },
        };
        parse_tile_raw(raw.as_slice())
    }
}

/// Reading a row laid out at `pos` gives it back.
proof fn lemma_meta_at(raw: Seq<u8>, pos: int, m: Meta)
    requires
        0 <= pos,
        pos + 30 <= raw.len(),
        raw.subrange(pos, pos + 30) == meta_bytes(m),
    ensures
        meta_at(raw, pos) == Ok::<Meta, TileError>(m),
{
    let b = meta_bytes(m);
    assert(b.subrange(0, 4) =~= le32(m.id));
    assert(b.subrange(6, 10) =~= le32(m.parent_id));
    assert(b.subrange(10, 14) =~= le32(m.lines));
    assert(b.subrange(14, 18) =~= le32(m.voff));
    assert(b.subrange(18, 22) =~= le32(m.vcount));
    assert(b.subrange(22, 26) =~= le32(m.ioff));
    assert(b.subrange(26, 30) =~= le32(m.icount));
    assert(raw.subrange(pos, pos + 4) =~= le32(m.id));
    assert(raw[pos + 4] == b[4]);
    assert(raw[pos + 5] == b[5]);
    assert(raw.subrange(pos + 6, pos + 10) =~= le32(m.parent_id));
    assert(raw.subrange(pos + 10, pos + 14) =~= le32(m.lines));
    assert(raw.subrange(pos + 14, pos + 18) =~= le32(m.voff));
    assert(raw.subrange(pos + 18, pos + 22) =~= le32(m.vcount));
    assert(raw.subrange(pos + 22, pos + 26) =~= le32(m.ioff));
    assert(raw.subrange(pos + 26, pos + 30) =~= le32(m.icount));
    lemma_read_le32(raw, pos, m.id);
    lemma_read_le32(raw, pos + 6, m.parent_id);
    lemma_read_le32(raw, pos + 10, m.lines);
    lemma_read_le32(raw, pos + 14, m.voff);
    lemma_read_le32(raw, pos + 18, m.vcount);
    lemma_read_le32(raw, pos + 22, m.ioff);
    lemma_read_le32(raw, pos + 26, m.icount);
}

/// The rows of the first `k` features are a prefix of the rows of all of them.
proof fn lemma_metas_of_prefix(fs: Seq<FeatureRecord>, k: nat, n: nat)
    requires
        k <= n <= fs.len(),
    ensures
        metas_of(fs, n).len() == n,
        metas_of(fs, n).take(k as int) == metas_of(fs, k),
    decreases n,
{
    if n > 0 {
        if k < n {
            lemma_metas_of_prefix(fs, k, (n - 1) as nat);
            assert(metas_of(fs, n).take(k as int) =~= metas_of(fs, (n - 1) as nat).take(k as int));
        } else {
            lemma_metas_of_prefix(fs, (n - 1) as nat, (n - 1) as nat);
            assert(metas_of(fs, n).take(k as int) =~= metas_of(fs, n));
        }
    } else {
        assert(metas_of(fs, n).take(k as int) =~= metas_of(fs, k));
    }
}

/// Reading the first `k` rows of a laid-out table gives the encoder's rows.
proof fn lemma_metas_at(raw: Seq<u8>, fs: Seq<FeatureRecord>, n: nat, k: nat)
    requires
        k <= n <= fs.len(),
        21 + 30 * n <= raw.len(),
        raw.subrange(21, 21 + 30 * n as int) == concat_map(metas_of(fs, n), |m: Meta| meta_bytes(m)),
    ensures
        metas_at(raw, 21, k) == Ok::<Seq<Meta>, TileError>(metas_of(fs, k)),
    decreases k,
{
    if k > 0 {
        lemma_metas_at(raw, fs, n, (k - 1) as nat);
        lemma_metas_of_prefix(fs, k, n);
        lemma_metas_of_prefix(fs, (k - 1) as nat, n);
        let ms = metas_of(fs, n);
        let f = |m: Meta| meta_bytes(m);
        let j = k - 1;
        lemma_concat_map_fixed(ms, f, 30, j);
        assert(raw.subrange(21 + 30 * j, 21 + 30 * j + 30) =~= concat_map(ms, f).subrange(
            30 * j,
            30 * j + 30,
        ));
        lemma_meta_at(raw, 21 + 30 * j, ms[j]);
        assert(metas_of(fs, k) =~= metas_of(fs, (k - 1) as nat).push(ms[j])) by {
            assert(ms.take(k as int) =~= ms.take(j).push(ms[j]));
        }
    }
}

/// The vertices of a concatenation of features are the two lists one after the other.
proof fn lemma_all_vertices_add(a: Seq<FeatureRecord>, b: Seq<FeatureRecord>)
    ensures
        all_vertices(a + b) == all_vertices(a) + all_vertices(b),
        all_indices(a + b) == all_indices(a) + all_indices(b),
    decreases b.len(),
{
    if b.len() == 0 {
        assert(a + b =~= a);
        assert(all_vertices(a) + all_vertices(b) =~= all_vertices(a));
        assert(all_indices(a) + all_indices(b) =~= all_indices(a));
    } else {
        lemma_all_vertices_add(a, b.drop_last());
        assert((a + b).drop_last() =~= a + b.drop_last());
        assert((a + b).last() == b.last());
        assert(all_vertices(a + b) =~= all_vertices(a) + all_vertices(b));
        assert(all_indices(a + b) =~= all_indices(a) + all_indices(b));
    }
}

/// The row of feature `k` counts its vertices and indices and points at them.
proof fn lemma_row(fs: Seq<FeatureRecord>, k: int)
    requires
        0 <= k < fs.len(),
        all_vertices(fs).len() <= u32::MAX,
        all_indices(fs).len() <= u32::MAX,
    ensures
        ({
            let m = metas_of(fs, fs.len())[k];
            &&& m.voff == all_vertices(fs.take(k)).len()
            &&& m.vcount == fs[k].vertices.len()
            &&& m.ioff == all_indices(fs.take(k)).len()
            &&& m.icount == fs[k].indices.len()
            &&& m.id == fs[k].id && m.kind == fs[k].kind && m.depth == fs[k].depth
            &&& m.parent_id == fs[k].parent_id && m.lines == fs[k].lines
            &&& meta_in_range(m, all_vertices(fs).len() as int, all_indices(fs).len() as int)
            &&& all_vertices(fs).subrange(m.voff as int, m.voff + m.vcount) == fs[k].vertices
            &&& all_indices(fs).subrange(m.ioff as int, m.ioff + m.icount) == fs[k].indices
        }),
{
    let n = fs.len();
    lemma_metas_of_prefix(fs, (k + 1) as nat, n);
    lemma_metas_of_prefix(fs, k as nat, k as nat);
    let ms = metas_of(fs, n);
    assert(ms[k] == ms.take(k + 1)[k]);
    lemma_metas_of_step(fs, k);
    let pre = fs.take(k);
    let tail = fs.skip(k + 1);
    assert(fs =~= fs.take(k + 1) + tail);
    lemma_all_vertices_add(fs.take(k + 1), tail);
    let av = all_vertices(fs);
    let ai = all_indices(fs);
    let pv = all_vertices(pre);
    let pi = all_indices(pre);
    assert(av == pv + fs[k].vertices + all_vertices(tail));
    assert(ai == pi + fs[k].indices + all_indices(tail));
    assert(pv.len() + fs[k].vertices.len() <= av.len());
    assert(pi.len() + fs[k].indices.len() <= ai.len());
    let m = meta_of(fs[k], pv.len() as int, pi.len() as int);
    assert(ms[k] == m);
    assert(m.voff == pv.len());
    assert(m.vcount == fs[k].vertices.len());
    assert(av.subrange(pv.len() as int, pv.len() + fs[k].vertices.len() as int) =~= fs[k].vertices);
    assert(ai.subrange(pi.len() as int, pi.len() + fs[k].indices.len() as int) =~= fs[k].indices);
}

/// The vertex total of the rows is the number of vertices.
proof fn lemma_totals(fs: Seq<FeatureRecord>, k: nat)
    requires
        k <= fs.len(),
        all_vertices(fs).len() <= u32::MAX,
        all_indices(fs).len() <= u32::MAX,
    ensures
        total_vertices(metas_of(fs, k)) == all_vertices(fs.take(k as int)).len(),
        total_indices(metas_of(fs, k)) == all_indices(fs.take(k as int)).len(),
    decreases k,
{
    if k == 0 {
        assert(fs.take(0) =~= Seq::<FeatureRecord>::empty());
    } else {
        lemma_totals(fs, (k - 1) as nat);
        lemma_metas_of_step(fs, k - 1);
        assert(fs =~= fs.take(k as int) + fs.skip(k as int));
        lemma_all_vertices_add(fs.take(k as int), fs.skip(k as int));
        assert(metas_of(fs, k).drop_last() =~= metas_of(fs, (k - 1) as nat));
    }
}

/// Reading back the vertices laid out from `pre.len()`.
proof fn lemma_vertices_at(pre: Seq<u8>, s: Seq<[u32; 2]>, post: Seq<u8>)
    ensures
        vertices_at(pre + concat_map(s, |p: [u32; 2]| vertex_bytes(p)) + post, pre.len() as int, s.len())
            == s,
    decreases s.len(),
{
    let f = |p: [u32; 2]| vertex_bytes(p);
    let b = pre + concat_map(s, f) + post;
    if s.len() == 0 {
        assert(vertices_at(b, pre.len() as int, s.len()) =~= s);
    } else {
        lemma_concat_map_front(s, f);
        let p = s[0];
        let pre2 = pre + vertex_bytes(p);
        let rest = s.drop_first();
        assert(b =~= pre2 + concat_map(rest, f) + post);
        lemma_vertices_at(pre2, rest, post);
        let q = pre.len() as int;
        assert(b.subrange(q, q + 4) =~= le32(p[0]));
        assert(b.subrange(q + 4, q + 8) =~= le32(p[1]));
        lemma_read_le32(b, q, p[0]);
        lemma_read_le32(b, q + 4, p[1]);
        assert([read_le32(b, q), read_le32(b, q + 4)] =~= p);
        assert(vertices_at(b, q, s.len()) =~= seq![p] + rest);
        assert(s =~= seq![p] + rest);
    }
}

/// Reading back the indices laid out from `pre.len()`.
proof fn lemma_indices_at(pre: Seq<u8>, s: Seq<u32>, post: Seq<u8>)
    ensures
        indices_at(pre + concat_map(s, |i: u32| le32(i)) + post, pre.len() as int, s.len()) == s,
    decreases s.len(),
{
    let f = |i: u32| le32(i);
    let b = pre + concat_map(s, f) + post;
    if s.len() == 0 {
        assert(indices_at(b, pre.len() as int, s.len()) =~= s);
    } else {
        lemma_concat_map_front(s, f);
        let v = s[0];
        let pre2 = pre + le32(v);
        let rest = s.drop_first();
        assert(b =~= pre2 + concat_map(rest, f) + post);
        lemma_indices_at(pre2, rest, post);
        let q = pre.len() as int;
        assert(b.subrange(q, q + 4) =~= le32(v));
        lemma_read_le32(b, q, v);
        assert(indices_at(b, q, s.len()) =~= seq![v] + rest);
        assert(s =~= seq![v] + rest);
    }
}

/// The sections of a tile's bytes: header, table, vertices, indices.
proof fn lemma_tile_sections(t: TileRecord)
    requires
        t.features.len() <= u32::MAX,
    ensures
        ({
            let raw = tile_raw(t);
            let n = t.features.len();
            let ms = metas_of(t.features, n);
            let mb = concat_map(ms, |m: Meta| meta_bytes(m));
            let vb = concat_map(all_vertices(t.features), |p: [u32; 2]| vertex_bytes(p));
            let ib = concat_map(all_indices(t.features), |i: u32| le32(i));
            let hm = raw.subrange(0, 21 + 30 * n as int);
            &&& raw.len() >= 21 + 30 * n
            &&& raw.subrange(0, 4) == tile_magic()
            &&& read_le32(raw, 4) == FORMAT_VERSION
            &&& raw[8] == t.z
            &&& read_le32(raw, 9) == t.x
            &&& read_le32(raw, 13) == t.y
            &&& read_le32(raw, 17) == n
            &&& raw.subrange(21, 21 + 30 * n as int) == mb
            &&& hm.len() == 21 + 30 * n
            &&& raw == hm + vb + ib
        }),
{
    reveal(tile_raw);
    let fs = t.features;
    let n = fs.len();
    let raw = tile_raw(t);
    let ms = metas_of(fs, n);
    let mf = |m: Meta| meta_bytes(m);
    let head = tile_magic() + le32(FORMAT_VERSION) + seq![t.z] + le32(t.x) + le32(t.y) + le32(n as u32);
    let mb = concat_map(ms, mf);
    let vb = concat_map(all_vertices(fs), |p: [u32; 2]| vertex_bytes(p));
    let ib = concat_map(all_indices(fs), |i: u32| le32(i));
    lemma_metas_of_prefix(fs, n, n);
    assert forall|i: int| 0 <= i < ms.len() implies #[trigger] mf(ms[i]).len() == 30 by {}
    lemma_concat_map_len(ms, mf, 30);
    assert(raw =~= head + mb + vb + ib);
    assert(raw.subrange(0, 4) =~= tile_magic());
    assert(raw.subrange(4, 8) =~= le32(FORMAT_VERSION));
    assert(raw.subrange(9, 13) =~= le32(t.x));
    assert(raw.subrange(13, 17) =~= le32(t.y));
    assert(raw.subrange(17, 21) =~= le32(n as u32));
    lemma_read_le32(raw, 4, FORMAT_VERSION);
    lemma_read_le32(raw, 9, t.x);
    lemma_read_le32(raw, 13, t.y);
    lemma_read_le32(raw, 17, n as u32);
    assert(raw.subrange(21, 21 + 30 * n as int) =~= mb);
    assert(raw.subrange(0, 21 + 30 * n as int) =~= head + mb);
}

/// The reading of a tile whose sections read back as they should.
proof fn lemma_parse_tile_ok(
    raw: Seq<u8>,
    t: TileRecord,
    ms: Seq<Meta>,
    vs: Seq<[u32; 2]>,
    is: Seq<u32>,
)
    requires
        raw.len() >= 21,
        raw.subrange(0, 4) == tile_magic(),
        read_le32(raw, 4) == FORMAT_VERSION,
        raw[8] == t.z,
        read_le32(raw, 9) == t.x,
        read_le32(raw, 13) == t.y,
        read_le32(raw, 17) == ms.len(),
        metas_at(raw, 21, ms.len()) == Ok::<Seq<Meta>, TileError>(ms),
        total_vertices(ms) == vs.len(),
        total_indices(ms) == is.len(),
        raw.len() == 21 + 30 * ms.len() + 8 * vs.len() + 4 * is.len(),
        vertices_at(raw, 21 + 30 * ms.len() as int, vs.len()) == vs,
        indices_at(raw, 21 + 30 * ms.len() as int + 8 * vs.len() as int, is.len()) == is,
        forall|k: int| 0 <= k < ms.len() ==> meta_in_range(#[trigger] ms[k], vs.len() as int, is.len() as int),
        ms.map_values(|m: Meta| feature_of(m, vs, is)) == t.features,
    ensures
        parse_tile(raw) == Ok::<TileRecord, TileError>(t),
{
}

/// Every row is in range and cuts its feature back out.
proof fn lemma_rows(fs: Seq<FeatureRecord>)
    requires
        all_vertices(fs).len() <= u32::MAX,
        all_indices(fs).len() <= u32::MAX,
    ensures
        ({
            let ms = metas_of(fs, fs.len());
            let av = all_vertices(fs);
            let ai = all_indices(fs);
            &&& forall|k: int| 0 <= k < ms.len() ==> meta_in_range(#[trigger] ms[k], av.len() as int, ai.len() as int)
            &&& ms.map_values(|m: Meta| feature_of(m, av, ai)) == fs
        }),
{
    let ms = metas_of(fs, fs.len());
    let av = all_vertices(fs);
    let ai = all_indices(fs);
    lemma_metas_of_prefix(fs, fs.len(), fs.len());
    assert forall|k: int| 0 <= k < ms.len() implies meta_in_range(#[trigger] ms[k], av.len() as int, ai.len() as int) by {
        lemma_row(fs, k);
    }
    let mapped = ms.map_values(|m: Meta| feature_of(m, av, ai));
    assert forall|k: int| 0 <= k < fs.len() implies #[trigger] mapped[k] == fs[k] by {
        lemma_row(fs, k);
    }
    assert(mapped =~= fs);
}

/// Law: reading the bytes of a tile gives the tile back, where its counts fit their `u32`
/// fields.
pub proof fn law_tile_round_trip(t: TileRecord)
    requires
        t.features.len() <= u32::MAX,
        all_vertices(t.features).len() <= u32::MAX,
        all_indices(t.features).len() <= u32::MAX,
    ensures
        parse_tile(tile_raw(t)) == Ok::<TileRecord, TileError>(t),
{
    let fs = t.features;
    let n = fs.len();
    let raw = tile_raw(t);
    let ms = metas_of(fs, n);
    let vf = |p: [u32; 2]| vertex_bytes(p);
    let xf = |i: u32| le32(i);
    let av = all_vertices(fs);
    let ai = all_indices(fs);
    let vb = concat_map(av, vf);
    let ib = concat_map(ai, xf);
    lemma_tile_sections(t);
    let hm = raw.subrange(0, 21 + 30 * n as int);
    lemma_metas_of_prefix(fs, n, n);
    lemma_metas_at(raw, fs, n, n);
    lemma_totals(fs, n);
    assert(fs.take(n as int) =~= fs);
    lemma_vertices_at(hm, av, ib);
    assert forall|i: int| 0 <= i < av.len() implies #[trigger] vf(av[i]).len() == 8 by {}
    lemma_concat_map_len(av, vf, 8);
    assert(raw =~= (hm + vb) + ib + Seq::<u8>::empty());
    lemma_indices_at(hm + vb, ai, Seq::<u8>::empty());
    assert forall|i: int| 0 <= i < ai.len() implies #[trigger] xf(ai[i]).len() == 4 by {}
    lemma_concat_map_len(ai, xf, 4);
    lemma_rows(fs);
    lemma_parse_tile_ok(raw, t, ms, av, ai);
}

/// Law: the bytes [`Tile::encode`] writes, whose zstd frame holds the raw tile, decode to the
/// tile, where its counts fit their `u32` fields.
pub proof fn law_tile_round_trip_compressed(t: TileRecord, out: Seq<u8>)
    requires
        t.features.len() <= u32::MAX,
        all_vertices(t.features).len() <= u32::MAX,
        all_indices(t.features).len() <= u32::MAX,
        zstd_frame_content(out) == Some(tile_raw(t)),
    ensures
        decode_tile(out) == Some(Ok::<TileRecord, TileError>(t)),
{
    law_tile_round_trip(t);
}

} // verus!
