//! Layer value tile: `.flv`.
//!
//! One value per feature, in the same order as the geometry tile's feature table. That alignment
//! is why binding a new layer never rewrites geometry. Scalar layers store `f32` values (carried
//! here as their bit patterns, `f32::to_bits`), categorical layers store a `u16` index into the
//! layer's category list.
//!
//! Layout (little-endian): magic "FLV1", format version u32, z u8, x u32, y u32, dtype u8,
//! count u32, then the packed array. Not compressed: the arrays are small and read as a block.

use vstd::prelude::*;

use crate::bytes::{
    concat_map, get_u16, get_u32, le16, le32, lemma_concat_map_front, lemma_concat_map_push,
    lemma_read_le16, lemma_read_le32, push_u16, push_u32, read_le16, read_le32,
};
use crate::manifest::FORMAT_VERSION;

verus! {

/// The values for one layer over one tile, aligned to that tile's features.
#[derive(Debug, Clone, PartialEq)]
pub enum LayerValues {
    /// Numbers, as `f32` bit patterns.
    Scalar(Vec<u32>),
    /// Indices into the layer's category list.
    Category(Vec<u16>),
}

/// Layer values as a mathematical value.
pub enum ValuesRecord {
    Scalar(Seq<u32>),
    Category(Seq<u16>),
}

impl View for LayerValues {
    type V = ValuesRecord;

    open spec fn view(&self) -> ValuesRecord {
        match self {
            LayerValues::Scalar(v) => ValuesRecord::Scalar(v@),
            LayerValues::Category(v) => ValuesRecord::Category(v@),
        }
    }
}

/// The number of values.
pub open spec fn values_len(v: ValuesRecord) -> nat {
    match v {
        ValuesRecord::Scalar(s) => s.len(),
        ValuesRecord::Category(s) => s.len(),
    }
}

/// The dtype byte: 0 for scalars, 1 for categories.
pub open spec fn dtype_of(v: ValuesRecord) -> u8 {
    match v {
        ValuesRecord::Scalar(_) => 0,
        ValuesRecord::Category(_) => 1,
    }
}

impl LayerValues {
    /// The number of values.
    pub fn len(&self) -> (r: usize)
        ensures
            r == values_len(self@),
    {
        match self {
            LayerValues::Scalar(v) => v.len(),
            LayerValues::Category(v) => v.len(),
        }
    }

    /// Whether there are no values.
    pub fn is_empty(&self) -> (r: bool)
        ensures
            r == (values_len(self@) == 0),
    {
        self.len() == 0
    }

    fn dtype(&self) -> (r: u8)
        ensures
            r == dtype_of(self@),
    {
        match self {
            LayerValues::Scalar(_) => 0,
            LayerValues::Category(_) => 1,
        }
    }
}

/// One layer's values over the tile at `(z, x, y)`.
#[derive(Debug, Clone, PartialEq)]
pub struct LayerTile {
    pub z: u8,
    pub x: u32,
    pub y: u32,
    pub values: LayerValues,
}

/// A layer tile as a mathematical value.
pub struct LayerRecord {
    pub z: u8,
    pub x: u32,
    pub y: u32,
    pub values: ValuesRecord,
}

impl View for LayerTile {
    type V = LayerRecord;

    open spec fn view(&self) -> LayerRecord {
        LayerRecord { z: self.z, x: self.x, y: self.y, values: self.values@ }
    }
}

/// Why a layer tile could not be read.
#[derive(Debug, Clone, Copy, PartialEq, Eq, Structural)]
pub enum LayerError {
    /// The tile does not start with "FLV1".
    BadMagic,
    /// The tile is another format version.
    Version { found: u32, expected: u32 },
    /// A dtype byte other than 0 (scalar) or 1 (category).
    BadDtype(u8),
    /// The tile ends before its declared values.
    Truncated,
}

/// "FLV1".
pub open spec fn layer_magic() -> Seq<u8> {
    seq![70u8, 76u8, 86u8, 49u8]
}

/// The packed array of the values.
pub open spec fn values_bytes(v: ValuesRecord) -> Seq<u8> {
    match v {
        ValuesRecord::Scalar(s) => concat_map(s, |x: u32| le32(x)),
        ValuesRecord::Category(s) => concat_map(s, |x: u16| le16(x)),
    }
}

/// The bytes of a layer tile.
pub open spec fn layer_file(t: LayerRecord) -> Seq<u8> {
    layer_magic() + le32(FORMAT_VERSION) + seq![t.z] + le32(t.x) + le32(t.y) + seq![
        dtype_of(t.values),
    ] + le32(values_len(t.values) as u32) + values_bytes(t.values)
}

/// The `n` four-byte values stored from `pos`.
pub open spec fn u32s_at(b: Seq<u8>, pos: int, n: nat) -> Seq<u32>
    decreases n,
{
    if n == 0 {
        Seq::empty()
    } else {
        seq![read_le32(b, pos)] + u32s_at(b, pos + 4, (n - 1) as nat)
    }
}

/// The `n` two-byte values stored from `pos`.
pub open spec fn u16s_at(b: Seq<u8>, pos: int, n: nat) -> Seq<u16>
    decreases n,
{
    if n == 0 {
        Seq::empty()
    } else {
        seq![read_le16(b, pos)] + u16s_at(b, pos + 2, (n - 1) as nat)
    }
}

/// What reading the layer tile bytes `b` gives.
pub open spec fn decode_layer(b: Seq<u8>) -> Result<LayerRecord, LayerError> {
    if b.len() < 4 {
        Err(LayerError::Truncated)
    } else if b.subrange(0, 4) != layer_magic() {
        Err(LayerError::BadMagic)
    } else if b.len() < 8 {
        Err(LayerError::Truncated)
    } else if read_le32(b, 4) != FORMAT_VERSION {
        Err(LayerError::Version { found: read_le32(b, 4), expected: FORMAT_VERSION })
    } else if b.len() < 22 {
        Err(LayerError::Truncated)
    } else {
        let count = read_le32(b, 18);
        let dtype = b[17];
        if dtype > 1 {
            Err(LayerError::BadDtype(dtype))
        } else if dtype == 0 {
            if b.len() - 22 < 4 * count {
                Err(LayerError::Truncated)
            } else {
                Ok(
                    LayerRecord {
                        z: b[8],
                        x: read_le32(b, 9),
                        y: read_le32(b, 13),
                        values: ValuesRecord::Scalar(u32s_at(b, 22, count as nat)),
                    },
                )
            }
        } else {
            if b.len() - 22 < 2 * count {
                Err(LayerError::Truncated)
            } else {
                Ok(
                    LayerRecord {
                        z: b[8],
                        x: read_le32(b, 9),
                        y: read_le32(b, 13),
                        values: ValuesRecord::Category(u16s_at(b, 22, count as nat)),
                    },
                )
            }
        }
    }
}

/// Reading back the four-byte values laid out from `pre.len()`.
proof fn lemma_u32s_at(pre: Seq<u8>, s: Seq<u32>, post: Seq<u8>)
    ensures
        u32s_at(pre + concat_map(s, |x: u32| le32(x)) + post, pre.len() as int, s.len()) == s,
        concat_map(s, |x: u32| le32(x)).len() == 4 * s.len(),
    decreases s.len(),
{
    let f = |x: u32| le32(x);
    let b = pre + concat_map(s, f) + post;
    if s.len() == 0 {
        assert(u32s_at(b, pre.len() as int, s.len()) =~= s);
    } else {
        lemma_concat_map_front(s, f);
        let v = s[0];
        let pre2 = pre + le32(v);
        let rest = s.drop_first();
        assert(b =~= pre2 + concat_map(rest, f) + post);
        lemma_u32s_at(pre2, rest, post);
        let q = pre.len() as int;
        assert(b.subrange(q, q + 4) =~= le32(v));
        lemma_read_le32(b, q, v);
        assert(u32s_at(b, q, s.len()) =~= seq![v] + rest);
        assert(s =~= seq![v] + rest);
    }
}

/// Reading back the two-byte values laid out from `pre.len()`.
proof fn lemma_u16s_at(pre: Seq<u8>, s: Seq<u16>, post: Seq<u8>)
    ensures
        u16s_at(pre + concat_map(s, |x: u16| le16(x)) + post, pre.len() as int, s.len()) == s,
        concat_map(s, |x: u16| le16(x)).len() == 2 * s.len(),
    decreases s.len(),
{
    let f = |x: u16| le16(x);
    let b = pre + concat_map(s, f) + post;
    if s.len() == 0 {
        assert(u16s_at(b, pre.len() as int, s.len()) =~= s);
    } else {
        lemma_concat_map_front(s, f);
        let v = s[0];
        let pre2 = pre + le16(v);
        let rest = s.drop_first();
        assert(b =~= pre2 + concat_map(rest, f) + post);
        lemma_u16s_at(pre2, rest, post);
        let q = pre.len() as int;
        assert(b.subrange(q, q + 2) =~= le16(v));
        lemma_read_le16(b, q, v);
        assert(u16s_at(b, q, s.len()) =~= seq![v] + rest);
        assert(s =~= seq![v] + rest);
    }
}

/// Law: reading a layer tile gives back the tile it was written from, where its value count
/// fits the `u32` count field.
pub proof fn law_layer_round_trip(t: LayerRecord)
    requires
        values_len(t.values) <= u32::MAX,
    ensures
        decode_layer(layer_file(t)) == Ok::<LayerRecord, LayerError>(t),
{
    let b = layer_file(t);
    let n = values_len(t.values) as u32;
    let head = layer_magic() + le32(FORMAT_VERSION) + seq![t.z] + le32(t.x) + le32(t.y) + seq![
        dtype_of(t.values),
    ] + le32(n);
    assert(b =~= head + values_bytes(t.values) + Seq::<u8>::empty());
    assert(b.subrange(0, 4) =~= layer_magic());
    assert(b.subrange(4, 8) =~= le32(FORMAT_VERSION));
    assert(b.subrange(9, 13) =~= le32(t.x));
    assert(b.subrange(13, 17) =~= le32(t.y));
    assert(b.subrange(18, 22) =~= le32(n));
    lemma_read_le32(b, 4, FORMAT_VERSION);
    lemma_read_le32(b, 9, t.x);
    lemma_read_le32(b, 13, t.y);
    lemma_read_le32(b, 18, n);
    match t.values {
        ValuesRecord::Scalar(s) => {
            lemma_u32s_at(head, s, Seq::<u8>::empty());
        },
        ValuesRecord::Category(s) => {
            lemma_u16s_at(head, s, Seq::<u8>::empty());
        },
    }
}

impl LayerTile {
    /// The tile's bytes.
    pub fn encode(&self) -> (out: Vec<u8>)
        ensures
            out@ == layer_file(self@),
    {
        let mut buf: Vec<u8> = Vec::new();
        buf.push(70u8);
        buf.push(76u8);
        buf.push(86u8);
        buf.push(49u8);
        push_u32(&mut buf, FORMAT_VERSION);
        buf.push(self.z);
        push_u32(&mut buf, self.x);
        push_u32(&mut buf, self.y);
        buf.push(self.values.dtype());
        push_u32(&mut buf, #[verifier::truncate] (self.values.len() as u32));
        let ghost head = buf@;
        match &self.values {
            LayerValues::Scalar(v) => {
                let ghost f = |x: u32| le32(x);
                let mut i: usize = 0;
                while i < v.len()
                    invariant
                        i <= v@.len(),
                        f == (|x: u32| le32(x)),
                        buf@ == head + concat_map(v@.take(i as int), f),
                    decreases v@.len() - i,
                {
                    push_u32(&mut buf, v[i]);
                    proof {
                        assert(v@.take(i + 1) =~= v@.take(i as int).push(v@[i as int]));
                        lemma_concat_map_push(v@.take(i as int), v@[i as int], f);
                    }
                    i = i + 1;
                }
                assert(v@.take(v@.len() as int) =~= v@);
            },
            LayerValues::Category(v) => {
                let ghost f = |x: u16| le16(x);
                let mut i: usize = 0;
                while i < v.len()
                    invariant
                        i <= v@.len(),
                        f == (|x: u16| le16(x)),
                        buf@ == head + concat_map(v@.take(i as int), f),
                    decreases v@.len() - i,
                {
                    push_u16(&mut buf, v[i]);
                    proof {
                        assert(v@.take(i + 1) =~= v@.take(i as int).push(v@[i as int]));
                        lemma_concat_map_push(v@.take(i as int), v@[i as int], f);
                    }
                    i = i + 1;
                }
                assert(v@.take(v@.len() as int) =~= v@);
            },
        }
        assert(buf@ =~= layer_file(self@));
        buf
    }

    /// Read a layer tile written by [`LayerTile::encode`].
    pub fn decode(bytes: &[u8]) -> (r: Result<LayerTile, LayerError>)
        ensures
            match decode_layer(bytes@) {
                Ok(t) => r matches Ok(x) && x@ == t,
                Err(e) => r == Err::<LayerTile, LayerError>(e),
            },
    {
        let n = bytes.len();
        if n < 4 {
            return Err(LayerError::Truncated);
        }
        if !(bytes[0] == 70u8 && bytes[1] == 76u8 && bytes[2] == 86u8 && bytes[3] == 49u8) {
            proof {
                if bytes@.subrange(0, 4) == layer_magic() {
                    assert(bytes@[0] == bytes@.subrange(0, 4)[0]);
                    assert(bytes@[1] == bytes@.subrange(0, 4)[1]);
                    assert(bytes@[2] == bytes@.subrange(0, 4)[2]);
                    assert(bytes@[3] == bytes@.subrange(0, 4)[3]);
                }
            }
            return Err(LayerError::BadMagic);
        }
        assert(bytes@.subrange(0, 4) =~= layer_magic());
        if n < 8 {
            return Err(LayerError::Truncated);
        }
        let version = get_u32(bytes, 4);
        if version != FORMAT_VERSION {
            return Err(LayerError::Version { found: version, expected: FORMAT_VERSION });
        }
        if n < 22 {
            return Err(LayerError::Truncated);
        }
        let z = bytes[8];
        let x = get_u32(bytes, 9);
        let y = get_u32(bytes, 13);
        let dtype = bytes[17];
        let count = get_u32(bytes, 18);
        let rest = n - 22;
        if dtype > 1 {
            return Err(LayerError::BadDtype(dtype));
        }
        if dtype == 0 {
            if count as usize > rest / 4 {
                assert(rest < 4 * count) by (nonlinear_arith)
                    requires
                        count > rest / 4,
                ;
                return Err(LayerError::Truncated);
            }
            assert(4 * count <= rest) by (nonlinear_arith)
                requires
                    count <= rest / 4,
            ;
            let ghost total = u32s_at(bytes@, 22, count as nat);
            let mut v: Vec<u32> = Vec::new();
            let mut pos: usize = 22;
            let mut i: u32 = 0;
            while i < count
                invariant
                    n == bytes@.len(),
                    i <= count,
                    pos == 22 + 4 * i,
                    22 + 4 * count <= n,
                    v@ + u32s_at(bytes@, pos as int, (count - i) as nat) == total,
                decreases count - i,
            {
                let w = get_u32(bytes, pos);
                assert(u32s_at(bytes@, pos as int, (count - i) as nat) =~= seq![w] + u32s_at(
                    bytes@,
                    pos + 4,
                    (count - i - 1) as nat,
                ));
                v.push(w);
                assert(v@ + u32s_at(bytes@, pos + 4, (count - i - 1) as nat) =~= total);
                pos = pos + 4;
                i = i + 1;
            }
            assert(v@ =~= total);
            Ok(LayerTile { z, x, y, values: LayerValues::Scalar(v) })
        } else {
            if count as usize > rest / 2 {
                assert(rest < 2 * count) by (nonlinear_arith)
                    requires
                        count > rest / 2,
                ;
                return Err(LayerError::Truncated);
            }
            assert(2 * count <= rest) by (nonlinear_arith)
                requires
                    count <= rest / 2,
            ;
            let ghost total = u16s_at(bytes@, 22, count as nat);
            let mut v: Vec<u16> = Vec::new();
            let mut pos: usize = 22;
            let mut i: u32 = 0;
            while i < count
                invariant
                    n == bytes@.len(),
                    i <= count,
                    pos == 22 + 2 * i,
                    22 + 2 * count <= n,
                    v@ + u16s_at(bytes@, pos as int, (count - i) as nat) == total,
                decreases count - i,
            {
                let w = get_u16(bytes, pos);
                assert(u16s_at(bytes@, pos as int, (count - i) as nat) =~= seq![w] + u16s_at(
                    bytes@,
                    pos + 2,
                    (count - i - 1) as nat,
                ));
                v.push(w);
                assert(v@ + u16s_at(bytes@, pos + 2, (count - i - 1) as nat) =~= total);
                pos = pos + 2;
                i = i + 1;
            }
            assert(v@ =~= total);
            Ok(LayerTile { z, x, y, values: LayerValues::Category(v) })
        }
    }
}

} // verus!
