//! Little-endian integer encoding shared by every binary format of the tile set.

use vstd::prelude::*;

verus! {

/// The four little-endian bytes of `x`.
pub open spec fn le32(x: u32) -> Seq<u8> {
    seq![(x & 0xff) as u8, ((x >> 8) & 0xff) as u8, ((x >> 16) & 0xff) as u8, ((x >> 24) & 0xff) as u8]
}

/// The two little-endian bytes of `x`.
pub open spec fn le16(x: u16) -> Seq<u8> {
    seq![(x & 0xff) as u8, ((x >> 8) & 0xff) as u8]
}

/// The `u32` whose little-endian bytes are `a, b, c, d`.
pub open spec fn u32_of(a: u8, b: u8, c: u8, d: u8) -> u32 {
    (a as u32) | ((b as u32) << 8u32) | ((c as u32) << 16u32) | ((d as u32) << 24u32)
}

/// The `u16` whose little-endian bytes are `a, b`.
pub open spec fn u16_of(a: u8, b: u8) -> u16 {
    (a as u16) | ((b as u16) << 8u16)
}

/// The `u32` stored little-endian at `pos` in `s`.
pub open spec fn read_le32(s: Seq<u8>, pos: int) -> u32 {
    u32_of(s[pos], s[pos + 1], s[pos + 2], s[pos + 3])
}

/// The `u16` stored little-endian at `pos` in `s`.
pub open spec fn read_le16(s: Seq<u8>, pos: int) -> u16 {
    u16_of(s[pos], s[pos + 1])
}

/// Decoding the four bytes of `x` gives back `x`.
pub proof fn lemma_le32_round_trip(x: u32)
    ensures
        le32(x).len() == 4,
        u32_of(le32(x)[0], le32(x)[1], le32(x)[2], le32(x)[3]) == x,
{
    assert((((x & 0xff) as u8) as u32) | (((((x >> 8) & 0xff) as u8) as u32) << 8u32) | (
    ((((x >> 16) & 0xff) as u8) as u32) << 16u32) | (((((x >> 24) & 0xff) as u8) as u32) << 24u32)
        == x) by (bit_vector);
}

/// Decoding the two bytes of `x` gives back `x`.
pub proof fn lemma_le16_round_trip(x: u16)
    ensures
        le16(x).len() == 2,
        u16_of(le16(x)[0], le16(x)[1]) == x,
{
    assert((((x & 0xff) as u8) as u16) | (((((x >> 8) & 0xff) as u8) as u16) << 8u16) == x)
        by (bit_vector);
}

/// Where the bytes of `x` sit at `pos` in `s`, reading there gives back `x`.
pub proof fn lemma_read_le32(s: Seq<u8>, pos: int, x: u32)
    requires
        0 <= pos,
        pos + 4 <= s.len(),
        s.subrange(pos, pos + 4) == le32(x),
    ensures
        read_le32(s, pos) == x,
{
    lemma_le32_round_trip(x);
    assert(s[pos] == s.subrange(pos, pos + 4)[0]);
    assert(s[pos + 1] == s.subrange(pos, pos + 4)[1]);
    assert(s[pos + 2] == s.subrange(pos, pos + 4)[2]);
    assert(s[pos + 3] == s.subrange(pos, pos + 4)[3]);
}

/// Where the bytes of `x` sit at `pos` in `s`, reading there gives back `x`.
pub proof fn lemma_read_le16(s: Seq<u8>, pos: int, x: u16)
    requires
        0 <= pos,
        pos + 2 <= s.len(),
        s.subrange(pos, pos + 2) == le16(x),
    ensures
        read_le16(s, pos) == x,
{
    lemma_le16_round_trip(x);
    assert(s[pos] == s.subrange(pos, pos + 2)[0]);
    assert(s[pos + 1] == s.subrange(pos, pos + 2)[1]);
}

/// Append the little-endian bytes of `x`.
pub fn push_u32(buf: &mut Vec<u8>, x: u32)
    ensures
        final(buf)@ == old(buf)@ + le32(x),
{
    buf.push((x & 0xff) as u8);
    buf.push(((x >> 8) & 0xff) as u8);
    buf.push(((x >> 16) & 0xff) as u8);
    buf.push(((x >> 24) & 0xff) as u8);
    assert(buf@ =~= old(buf)@ + le32(x));
}

/// Append the little-endian bytes of `x`.
pub fn push_u16(buf: &mut Vec<u8>, x: u16)
    ensures
        final(buf)@ == old(buf)@ + le16(x),
{
    buf.push((x & 0xff) as u8);
    buf.push(((x >> 8) & 0xff) as u8);
    assert(buf@ =~= old(buf)@ + le16(x));
}

/// Append every byte of `src`.
pub fn push_all(buf: &mut Vec<u8>, src: &[u8])
    ensures
        final(buf)@ == old(buf)@ + src@,
{
    let ghost start = buf@;
    let mut i: usize = 0;
    while i < src.len()
        invariant
            i <= src@.len(),
            buf@ == start + src@.subrange(0, i as int),
        decreases src@.len() - i,
    {
        buf.push(src[i]);
        i = i + 1;
        assert(buf@ =~= start + src@.subrange(0, i as int));
    }
    assert(src@.subrange(0, src@.len() as int) =~= src@);
}

/// The `u32` stored little-endian at `pos`.
pub fn get_u32(s: &[u8], pos: usize) -> (r: u32)
    requires
        pos + 4 <= s@.len(),
    ensures
        r == read_le32(s@, pos as int),
{
    (s[pos] as u32) | ((s[pos + 1] as u32) << 8u32) | ((s[pos + 2] as u32) << 16u32) | ((s[pos
        + 3] as u32) << 24u32)
}

/// The `u16` stored little-endian at `pos`.
pub fn get_u16(s: &[u8], pos: usize) -> (r: u16)
    requires
        pos + 2 <= s@.len(),
    ensures
        r == read_le16(s@, pos as int),
{
    (s[pos] as u16) | ((s[pos + 1] as u16) << 8u16)
}

/// The bytes of every element of `s`, one after another, each encoded by `f`.
pub open spec fn concat_map<A>(s: Seq<A>, f: spec_fn(A) -> Seq<u8>) -> Seq<u8>
    decreases s.len(),
{
    if s.len() == 0 {
        Seq::empty()
    } else {
        concat_map(s.drop_last(), f) + f(s.last())
    }
}

/// Appending one element appends its bytes.
pub proof fn lemma_concat_map_push<A>(s: Seq<A>, x: A, f: spec_fn(A) -> Seq<u8>)
    ensures
        concat_map(s.push(x), f) == concat_map(s, f) + f(x),
{
    assert(s.push(x).drop_last() =~= s);
}

/// The bytes of a non-empty sequence start with the bytes of its first element.
pub proof fn lemma_concat_map_front<A>(s: Seq<A>, f: spec_fn(A) -> Seq<u8>)
    requires
        s.len() > 0,
    ensures
        concat_map(s, f) == f(s[0]) + concat_map(s.drop_first(), f),
    decreases s.len(),
{
    if s.len() == 1 {
        assert(s.drop_last() =~= Seq::<A>::empty());
        assert(s.drop_first() =~= Seq::<A>::empty());
        assert(concat_map(s, f) =~= f(s[0]) + concat_map(s.drop_first(), f));
    } else {
        lemma_concat_map_front(s.drop_last(), f);
        assert(s.drop_last().drop_first() =~= s.drop_first().drop_last());
        assert(s.drop_first().last() == s.last());
        assert(concat_map(s, f) =~= f(s[0]) + concat_map(s.drop_first(), f));
    }
}

/// The bytes of a prefix one element longer are the bytes of the prefix plus that element's.
pub proof fn lemma_concat_map_take<A>(s: Seq<A>, i: int, f: spec_fn(A) -> Seq<u8>)
    requires
        0 <= i < s.len(),
    ensures
        concat_map(s.take(i + 1), f) == concat_map(s.take(i), f) + f(s[i]),
{
    assert(s.take(i + 1).drop_last() =~= s.take(i));
}

/// Where every element's bytes are `w` long, the bytes of element `j` sit at `w * j`.
pub proof fn lemma_concat_map_fixed<A>(s: Seq<A>, f: spec_fn(A) -> Seq<u8>, w: nat, j: int)
    requires
        forall|i: int| 0 <= i < s.len() ==> #[trigger] f(s[i]).len() == w,
        0 <= j < s.len(),
    ensures
        concat_map(s, f).len() == w * s.len(),
        concat_map(s, f).subrange(w * j, w * j + w) == f(s[j]),
    decreases s.len(),
{
    lemma_concat_map_len(s, f, w);
    let n = s.len() as int;
    let front = s.drop_last();
    assert(f(s[n - 1]).len() == w);
    lemma_concat_map_len(front, f, w);
    assert(w * (n - 1) + w == w * n) by (nonlinear_arith);
    if j < n - 1 {
        assert forall|i: int| 0 <= i < front.len() implies #[trigger] f(front[i]).len() == w by {
            assert(front[i] == s[i]);
        }
        lemma_concat_map_fixed(front, f, w, j);
        assert(w * j + w <= w * (n - 1)) by (nonlinear_arith)
            requires
                j < n - 1,
        ;
        assert(concat_map(s, f).subrange(w * j, w * j + w) =~= concat_map(front, f).subrange(
            w * j,
            w * j + w,
        ));
    } else {
        assert(concat_map(s, f).subrange(w * j, w * j + w) =~= f(s.last()));
    }
}

/// Where every element's bytes are `w` long, all of them take `w` per element.
pub proof fn lemma_concat_map_len<A>(s: Seq<A>, f: spec_fn(A) -> Seq<u8>, w: nat)
    requires
        forall|i: int| 0 <= i < s.len() ==> #[trigger] f(s[i]).len() == w,
    ensures
        concat_map(s, f).len() == w * s.len(),
    decreases s.len(),
{
    if s.len() > 0 {
        let front = s.drop_last();
        assert forall|i: int| 0 <= i < front.len() implies #[trigger] f(front[i]).len() == w by {
            assert(front[i] == s[i]);
        }
        lemma_concat_map_len(front, f, w);
        assert(f(s[s.len() - 1]).len() == w);
        assert(w * (s.len() - 1) + w == w * s.len()) by (nonlinear_arith);
    }
}

} // verus!
