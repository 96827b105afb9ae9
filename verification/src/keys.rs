//! `index/tiles.bin`: the address of every geometry tile in the set.
//!
//! A reader that fetches over HTTP cannot list directories, yet LOD selection needs to know which
//! children exist before it descends. Layout writes this list once.
//!
//! Layout (little-endian): magic "FTIX", format version u32, count u32, then per tile (sorted by
//! z, x, y, without repeats): z u8, x u32, y u32.

use vstd::prelude::*;

use crate::bytes::{concat_map, get_u32, le32, lemma_concat_map_front, lemma_concat_map_take, lemma_le32_round_trip, lemma_read_le32, push_u32, read_le32};
use crate::manifest::FORMAT_VERSION;

verus! {

/// A quadtree tile address `(z, x, y)`.
pub type TileAddress = (u8, u32, u32);

/// Why an FTIX index could not be read.
#[derive(Debug, Clone, Copy, PartialEq, Eq, Structural)]
pub enum KeysError {
    /// The file does not start with "FTIX".
    BadMagic,
    /// The file is another format version.
    Version { found: u32, expected: u32 },
    /// The file ends before its declared contents.
    Truncated,
}

/// Storage key of the index, relative to the tile set prefix.
pub const KEYS_PATH: &'static str = "index/tiles.bin";

/// "FTIX".
pub open spec fn keys_magic() -> Seq<u8> {
    seq![70u8, 84u8, 73u8, 88u8]
}

/// Lexicographic order on addresses: by zoom, then x, then y.
pub open spec fn address_lt(a: TileAddress, b: TileAddress) -> bool {
    a.0 < b.0 || (a.0 == b.0 && (a.1 < b.1 || (a.1 == b.1 && a.2 < b.2)))
}

/// Every address is smaller than every later one: sorted, and no address twice.
pub open spec fn strictly_sorted(s: Seq<TileAddress>) -> bool {
    forall|i: int, j: int| 0 <= i < j < s.len() ==> address_lt(#[trigger] s[i], #[trigger] s[j])
}

/// The sorted list, without repeats, of a set of addresses.
pub open spec fn sorted_addresses(set: Set<TileAddress>) -> Seq<TileAddress> {
    choose|s: Seq<TileAddress>| strictly_sorted(s) && s.to_set() == set
}

/// The nine bytes of one address.
pub open spec fn address_bytes(k: TileAddress) -> Seq<u8> {
    seq![k.0] + le32(k.1) + le32(k.2)
}

/// The index file holding exactly the addresses `s`, in that order.
pub open spec fn keys_file(s: Seq<TileAddress>) -> Seq<u8> {
    keys_magic() + le32(FORMAT_VERSION) + le32(s.len() as u32) + concat_map(
        s,
        |k: TileAddress| address_bytes(k),
    )
}

/// The address stored at `pos`.
pub open spec fn address_at(b: Seq<u8>, pos: int) -> TileAddress {
    (b[pos], read_le32(b, pos + 1), read_le32(b, pos + 5))
}

/// The `n` addresses stored one after another from `pos`.
pub open spec fn addresses_at(b: Seq<u8>, pos: int, n: nat) -> Seq<TileAddress>
    decreases n,
{
    if n == 0 {
        Seq::empty()
    } else {
        seq![address_at(b, pos)] + addresses_at(b, pos + 9, (n - 1) as nat)
    }
}

/// What reading the index bytes `b` gives.
pub open spec fn decode_keys(b: Seq<u8>) -> Result<Seq<TileAddress>, KeysError> {
    if b.len() < 4 {
        Err(KeysError::Truncated)
    } else if b.subrange(0, 4) != keys_magic() {
        Err(KeysError::BadMagic)
    } else if b.len() < 8 {
        Err(KeysError::Truncated)
    } else if read_le32(b, 4) != FORMAT_VERSION {
        Err(KeysError::Version { found: read_le32(b, 4), expected: FORMAT_VERSION })
    } else if b.len() < 12 {
        Err(KeysError::Truncated)
    } else if b.len() - 12 < 9 * read_le32(b, 8) {
        Err(KeysError::Truncated)
    } else {
        Ok(addresses_at(b, 12, read_le32(b, 8) as nat))
    }
}

fn address_less(a: TileAddress, b: TileAddress) -> (r: bool)
    ensures
        r == address_lt(a, b),
{
    a.0 < b.0 || (a.0 == b.0 && (a.1 < b.1 || (a.1 == b.1 && a.2 < b.2)))
}

/// Insert `k` into a strictly sorted vector unless it is already there.
fn insert_sorted(v: &mut Vec<TileAddress>, k: TileAddress)
    requires
        strictly_sorted(old(v)@),
    ensures
        strictly_sorted(final(v)@),
        final(v)@.to_set() == old(v)@.to_set().insert(k),
{
    let ghost before = v@;
    let mut i: usize = 0;
    while i < v.len()
        invariant
            i <= v@.len(),
            v@ == before,
            strictly_sorted(before),
            forall|j: int| 0 <= j < i ==> address_lt(#[trigger] before[j], k),
        ensures
            i <= v@.len(),
            v@ == before,
            forall|j: int| 0 <= j < i ==> address_lt(#[trigger] before[j], k),
            i == v@.len() || !address_lt(v@[i as int], k),
        decreases v@.len() - i,
    {
        if !address_less(v[i], k) {
            break;
        }
        i = i + 1;
    }
    if i < v.len() && v[i].0 == k.0 && v[i].1 == k.1 && v[i].2 == k.2 {
        assert(v@[i as int] == k);
        assert(before.to_set().insert(k) =~= before.to_set());
        return;
    }
    v.insert(i, k);
    let ghost after = v@;
    assert(after == before.insert(i as int, k));
    assert forall|a: int, b: int| 0 <= a < b < after.len() implies address_lt(
        #[trigger] after[a],
        #[trigger] after[b],
    ) by {
        if a < i && b == i {
        } else if a < i && b > i {
            assert(after[b] == before[b - 1]);
            if i < before.len() {
                assert(address_lt(k, before[i as int]));
            }
        } else if a == i {
            assert(after[b] == before[b - 1]);
            assert(address_lt(k, before[i as int]));
        } else if a > i {
            assert(after[a] == before[a - 1]);
            assert(after[b] == before[b - 1]);
        }
    }
    assert forall|x: TileAddress| after.to_set().contains(x) == before.to_set().insert(
        k,
    ).contains(x) by {
        if after.contains(x) {
            let j = choose|j: int| 0 <= j < after.len() && after[j] == x;
            if j < i {
                assert(before[j] == x);
            } else if j > i {
                assert(before[j - 1] == x);
            }
        }
        if before.contains(x) {
            let j = choose|j: int| 0 <= j < before.len() && before[j] == x;
            if j < i {
                assert(after[j] == x);
            } else {
                assert(after[j + 1] == x);
            }
        }
        if x == k {
            assert(after[i as int] == x);
        }
    }
    assert(after.to_set() =~= before.to_set().insert(k));
}

/// Pushing one element adds it to the set of elements.
pub proof fn lemma_to_set_push<A>(s: Seq<A>, x: A)
    ensures
        s.push(x).to_set() == s.to_set().insert(x),
{
    let t = s.push(x);
    assert forall|y: A| t.to_set().contains(y) == s.to_set().insert(x).contains(y) by {
        if t.contains(y) {
            let j = choose|j: int| 0 <= j < t.len() && t[j] == y;
            if j < s.len() {
                assert(s[j] == y);
            }
        }
        if s.contains(y) {
            let j = choose|j: int| 0 <= j < s.len() && s[j] == y;
            assert(t[j] == y);
        }
        if y == x {
            assert(t[s.len() as int] == y);
        }
    }
    assert(t.to_set() =~= s.to_set().insert(x));
}

/// Two strictly sorted sequences holding the same addresses are equal.
pub proof fn lemma_sorted_unique(s1: Seq<TileAddress>, s2: Seq<TileAddress>)
    requires
        strictly_sorted(s1),
        strictly_sorted(s2),
        s1.to_set() == s2.to_set(),
    ensures
        s1 == s2,
    decreases s1.len(),
{
    if s1.len() == 0 {
        if s2.len() > 0 {
            assert(s2.to_set().contains(s2[0]));
        }
        assert(s1 =~= s2);
    } else {
        assert(s1.to_set().contains(s1[0]));
        assert(s2.to_set().contains(s2[0]));
        let i2 = choose|j: int| 0 <= j < s2.len() && s2[j] == s1[0];
        let i1 = choose|j: int| 0 <= j < s1.len() && s1[j] == s2[0];
        if i2 > 0 {
            assert(address_lt(s2[0], s2[i2]));
            if i1 > 0 {
                assert(address_lt(s1[0], s1[i1]));
            }
        }
        assert(s1[0] == s2[0]);
        let t1 = s1.drop_first();
        let t2 = s2.drop_first();
        assert forall|x: TileAddress| t1.to_set().contains(x) == t2.to_set().contains(x) by {
            if t1.contains(x) {
                let j = choose|j: int| 0 <= j < t1.len() && t1[j] == x;
                assert(s1[j + 1] == x);
                assert(s1.to_set().contains(x));
                let k = choose|k: int| 0 <= k < s2.len() && s2[k] == x;
                assert(address_lt(s1[0], s1[j + 1]));
                if k == 0 {
                    assert(false);
                }
                assert(t2[k - 1] == x);
            }
            if t2.contains(x) {
                let j = choose|j: int| 0 <= j < t2.len() && t2[j] == x;
                assert(s2[j + 1] == x);
                assert(s2.to_set().contains(x));
                let k = choose|k: int| 0 <= k < s1.len() && s1[k] == x;
                assert(address_lt(s2[0], s2[j + 1]));
                if k == 0 {
                    assert(false);
                }
                assert(t1[k - 1] == x);
            }
        }
        assert(t1.to_set() =~= t2.to_set());
        lemma_sorted_unique(t1, t2);
        assert(s1 =~= seq![s1[0]] + t1);
        assert(s2 =~= seq![s2[0]] + t2);
    }
}

/// Reading back the addresses that `concat_map` laid out from `pos`.
proof fn lemma_addresses_at(pre: Seq<u8>, s: Seq<TileAddress>, post: Seq<u8>)
    ensures
        addresses_at(
            pre + concat_map(s, |k: TileAddress| address_bytes(k)) + post,
            pre.len() as int,
            s.len(),
        ) == s,
    decreases s.len(),
{
    let f = |k: TileAddress| address_bytes(k);
    let b = pre + concat_map(s, f) + post;
    if s.len() == 0 {
        assert(addresses_at(b, pre.len() as int, s.len()) =~= s);
    } else {
        lemma_concat_map_front(s, f);
        let k = s[0];
        let pre2 = pre + address_bytes(k);
        let rest = s.drop_first();
        assert(b =~= pre2 + concat_map(rest, f) + post);
        lemma_addresses_at(pre2, rest, post);
        let p = pre.len() as int;
        assert(b[p] == k.0);
        assert(b.subrange(p + 1, p + 5) =~= le32(k.1));
        assert(b.subrange(p + 5, p + 9) =~= le32(k.2));
        lemma_read_le32(b, p + 1, k.1);
        lemma_read_le32(b, p + 5, k.2);
        assert(address_at(b, p) == k);
        assert(addresses_at(b, p, s.len()) =~= seq![k] + rest);
        assert(s =~= seq![k] + rest);
    }
}

/// Law: reading an index gives back the addresses it was written from, in order.
pub proof fn law_keys_round_trip(s: Seq<TileAddress>)
    requires
        s.len() <= u32::MAX,
    ensures
        decode_keys(keys_file(s)) == Ok::<Seq<TileAddress>, KeysError>(s),
{
    let f = |k: TileAddress| address_bytes(k);
    let b = keys_file(s);
    let head = keys_magic() + le32(FORMAT_VERSION) + le32(s.len() as u32);
    lemma_le32_round_trip(FORMAT_VERSION);
    lemma_le32_round_trip(s.len() as u32);
    assert(b.subrange(0, 4) =~= keys_magic());
    assert(b.subrange(4, 8) =~= le32(FORMAT_VERSION));
    assert(b.subrange(8, 12) =~= le32(s.len() as u32));
    lemma_read_le32(b, 4, FORMAT_VERSION);
    lemma_read_le32(b, 8, s.len() as u32);
    lemma_concat_map_width(s);
    assert(b =~= head + concat_map(s, f) + Seq::<u8>::empty());
    lemma_addresses_at(head, s, Seq::<u8>::empty());
}

/// Each address takes nine bytes.
proof fn lemma_concat_map_width(s: Seq<TileAddress>)
    ensures
        concat_map(s, |k: TileAddress| address_bytes(k)).len() == 9 * s.len(),
    decreases s.len(),
{
    if s.len() > 0 {
        lemma_concat_map_width(s.drop_last());
    }
}

/// Law: the index depends only on which addresses it is given, not on their order or repeats.
pub proof fn law_keys_order_free(a: Seq<TileAddress>, b: Seq<TileAddress>)
    requires
        a.to_set() == b.to_set(),
    ensures
        sorted_addresses(a.to_set()) == sorted_addresses(b.to_set()),
{
}

/// Encode tile addresses, sorted and without repeats, so the bytes depend only on the set.
pub fn encode(keys: &[TileAddress]) -> (out: Vec<u8>)
    ensures
        strictly_sorted(sorted_addresses(keys@.to_set())),
        sorted_addresses(keys@.to_set()).to_set() == keys@.to_set(),
        out@ == keys_file(sorted_addresses(keys@.to_set())),
{
    let mut sorted: Vec<TileAddress> = Vec::new();
    let mut i: usize = 0;
    while i < keys.len()
        invariant
            i <= keys@.len(),
            strictly_sorted(sorted@),
            sorted@.to_set() == keys@.take(i as int).to_set(),
        decreases keys@.len() - i,
    {
        insert_sorted(&mut sorted, keys[i]);
        assert(keys@.take(i + 1) =~= keys@.take(i as int).push(keys@[i as int]));
        proof {
            lemma_to_set_push(keys@.take(i as int), keys@[i as int]);
        }
        i = i + 1;
    }
    assert(keys@.take(keys@.len() as int) =~= keys@);
    let ghost set = keys@.to_set();
    proof {
        let canon = sorted_addresses(set);
        assert(strictly_sorted(sorted@) && sorted@.to_set() == set);
        assert(strictly_sorted(canon) && canon.to_set() == set);
        lemma_sorted_unique(sorted@, canon);
    }
    let mut buf: Vec<u8> = Vec::new();
    buf.push(70u8);
    buf.push(84u8);
    buf.push(73u8);
    buf.push(88u8);
    push_u32(&mut buf, FORMAT_VERSION);
    push_u32(&mut buf, #[verifier::truncate] (sorted.len() as u32));
    let ghost head = buf@;
    let ghost f = |k: TileAddress| address_bytes(k);
    assert(head =~= keys_magic() + le32(FORMAT_VERSION) + le32(#[verifier::truncate] (sorted@.len() as u32)));
    let mut j: usize = 0;
    while j < sorted.len()
        invariant
            j <= sorted@.len(),
            buf@ == head + concat_map(sorted@.take(j as int), f),
            f == (|k: TileAddress| address_bytes(k)),
        decreases sorted@.len() - j,
    {
        let k = sorted[j];
        let ghost before = buf@;
        buf.push(k.0);
        push_u32(&mut buf, k.1);
        push_u32(&mut buf, k.2);
        proof {
            lemma_concat_map_take(sorted@, j as int, f);
            assert(buf@ =~= before + address_bytes(k));
            assert(f(sorted@[j as int]) == address_bytes(k));
        }
        assert(buf@ =~= head + concat_map(sorted@.take(j + 1), f));
        j = j + 1;
    }
    assert(sorted@.take(sorted@.len() as int) =~= sorted@);
    buf
}

/// Read an index written by [`encode`].
pub fn decode(bytes: &[u8]) -> (r: Result<Vec<TileAddress>, KeysError>)
    ensures
        match decode_keys(bytes@) {
            Ok(s) => r matches Ok(v) && v@ == s,
            Err(e) => r == Err::<Vec<TileAddress>, KeysError>(e),
        },
{
    let n = bytes.len();
    if n < 4 {
        return Err(KeysError::Truncated);
    }
    if !(bytes[0] == 70u8 && bytes[1] == 84u8 && bytes[2] == 73u8 && bytes[3] == 88u8) {
        proof {
            if bytes@.subrange(0, 4) == keys_magic() {
                assert(bytes@[0] == bytes@.subrange(0, 4)[0]);
                assert(bytes@[1] == bytes@.subrange(0, 4)[1]);
                assert(bytes@[2] == bytes@.subrange(0, 4)[2]);
                assert(bytes@[3] == bytes@.subrange(0, 4)[3]);
            }
        }
        return Err(KeysError::BadMagic);
    }
    assert(bytes@.subrange(0, 4) =~= keys_magic());
    if n < 8 {
        return Err(KeysError::Truncated);
    }
    let version = get_u32(bytes, 4);
    if version != FORMAT_VERSION {
        return Err(KeysError::Version { found: version, expected: FORMAT_VERSION });
    }
    if n < 12 {
        return Err(KeysError::Truncated);
    }
    let count = get_u32(bytes, 8);
    let body = n - 12;
    if count as usize > body / 9 {
        assert(body < 9 * count) by (nonlinear_arith)
            requires
                count > body / 9,
        ;
        return Err(KeysError::Truncated);
    }
    assert(9 * count <= body) by (nonlinear_arith)
        requires
            count <= body / 9,
    ;
    let ghost total = addresses_at(bytes@, 12, count as nat);
    let mut out: Vec<TileAddress> = Vec::new();
    let mut i: u32 = 0;
    let mut pos: usize = 12;
    while i < count
        invariant
            i <= count,
            pos == 12 + 9 * i,
            9 * count <= n - 12,
            n == bytes@.len(),
            out@ + addresses_at(bytes@, pos as int, (count - i) as nat) == total,
        decreases count - i,
    {
        let k = (bytes[pos], get_u32(bytes, pos + 1), get_u32(bytes, pos + 5));
        assert(addresses_at(bytes@, pos as int, (count - i) as nat) =~= seq![k]
            + addresses_at(bytes@, pos + 9, (count - i - 1) as nat));
        out.push(k);
        assert(out@ + addresses_at(bytes@, pos + 9, (count - i - 1) as nat) =~= total);
        pos = pos + 9;
        i = i + 1;
    }
    assert(out@ =~= total);
    Ok(out)
}

} // verus!
