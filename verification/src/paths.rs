//! `index/paths.bin`: a compact fileId -> path and stats table for picking and search.
//!
//! Layout (little-endian):
//! ```text
//! header  magic "FPTH", format version u32, entry count u32
//! entries per entry (sorted by id): id u32, lines u32, bytes u32, path len u32, path bytes (UTF-8)
//! ```
//! Not compressed: it is fetched once and read randomly. Entries are sorted by id, keeping the
//! given order among equal ids, so output is deterministic.

use vstd::prelude::*;
use vstd::utf8::{decode_utf8, encode_utf8, encode_utf8_decode_utf8, encode_utf8_valid_utf8, valid_utf8};

use crate::bytes::{
    concat_map, get_u32, le32, lemma_concat_map_front, lemma_concat_map_take,
    lemma_le32_round_trip, lemma_read_le32, push_all, push_u32, read_le32,
};
use crate::manifest::FORMAT_VERSION;
use crate::strings::string_from_utf8;

verus! {

/// One file: its id, line and byte counts, and repo-relative path.
#[derive(Debug, Clone, PartialEq, Eq)]
pub struct PathEntry {
    pub id: u32,
    pub lines: u32,
    pub bytes: u32,
    pub path: String,
}

/// The whole table.
#[derive(Debug, Clone, PartialEq, Eq, Default)]
pub struct PathsIndex {
    pub entries: Vec<PathEntry>,
}

/// Why a paths table could not be read.
#[derive(Debug, Clone, Copy, PartialEq, Eq, Structural)]
pub enum PathsError {
    /// The file does not start with "FPTH".
    BadMagic,
    /// The file is another format version.
    Version { found: u32, expected: u32 },
    /// The file ends before its declared contents.
    Truncated,
    /// A path is not valid UTF-8.
    Utf8,
}

/// A path entry as a mathematical value.
pub struct PathRecord {
    pub id: u32,
    pub lines: u32,
    pub bytes: u32,
    pub path: Seq<char>,
}

impl View for PathEntry {
    type V = PathRecord;

    open spec fn view(&self) -> PathRecord {
        PathRecord { id: self.id, lines: self.lines, bytes: self.bytes, path: self.path@ }
    }
}

/// The entries of a table, as mathematical values.
pub open spec fn records(v: Seq<PathEntry>) -> Seq<PathRecord> {
    v.map_values(|e: PathEntry| e@)
}

impl View for PathsIndex {
    type V = Seq<PathRecord>;

    open spec fn view(&self) -> Seq<PathRecord> {
        records(self.entries@)
    }
}

/// "FPTH".
pub open spec fn paths_magic() -> Seq<u8> {
    seq![70u8, 80u8, 84u8, 72u8]
}

/// The bytes of one entry.
pub open spec fn entry_bytes(r: PathRecord) -> Seq<u8> {
    le32(r.id) + le32(r.lines) + le32(r.bytes) + le32(encode_utf8(r.path).len() as u32)
        + encode_utf8(r.path)
}

/// The table file holding exactly the entries `s`, in that order.
pub open spec fn paths_file(s: Seq<PathRecord>) -> Seq<u8> {
    paths_magic() + le32(FORMAT_VERSION) + le32(s.len() as u32) + concat_map(
        s,
        |r: PathRecord| entry_bytes(r),
    )
}

/// `order` lists every index of `s` exactly once, by id and, among equal ids, by index.
pub open spec fn is_id_order(s: Seq<PathRecord>, order: Seq<int>) -> bool {
    &&& order.len() == s.len()
    &&& forall|k: int| 0 <= k < order.len() ==> 0 <= #[trigger] order[k] < s.len()
    &&& forall|i: int, j: int|
        0 <= i < j < order.len() ==> id_index_lt(s, #[trigger] order[i], #[trigger] order[j])
}

/// Entry `a` comes before entry `b`: a smaller id, or the same id and an earlier place.
pub open spec fn id_index_lt(s: Seq<PathRecord>, a: int, b: int) -> bool {
    s[a].id < s[b].id || (s[a].id == s[b].id && a < b)
}

/// The order in which [`PathsIndex::encode`] writes the entries of `s`.
pub open spec fn id_order(s: Seq<PathRecord>) -> Seq<int> {
    choose|order: Seq<int>| is_id_order(s, order)
}

/// The entries of `s` sorted by id, equal ids keeping their order.
pub open spec fn sorted_by_id(s: Seq<PathRecord>) -> Seq<PathRecord> {
    id_order(s).map_values(|k: int| s[k])
}

/// The entry at `pos` and where the next one starts, or why it cannot be read.
#[verifier::opaque]
pub open spec fn entry_at(b: Seq<u8>, pos: int) -> Result<(PathRecord, int), PathsError> {
    if pos + 16 > b.len() {
        Err(PathsError::Truncated)
    } else {
        let end = pos + 16 + read_le32(b, pos + 12);
        if end > b.len() {
            Err(PathsError::Truncated)
        } else if !valid_utf8(b.subrange(pos + 16, end)) {
            Err(PathsError::Utf8)
        } else {
            Ok(
                (
                    PathRecord {
                        id: read_le32(b, pos),
                        lines: read_le32(b, pos + 4),
                        bytes: read_le32(b, pos + 8),
                        path: decode_utf8(b.subrange(pos + 16, end)),
                    },
                    end,
                ),
            )
        }
    }
}

/// The `n` entries stored one after another from `pos`, or the first reason one cannot be read.
pub open spec fn entries_at(b: Seq<u8>, pos: int, n: nat) -> Result<Seq<PathRecord>, PathsError>
    decreases n,
{
    if n == 0 {
        Ok(Seq::empty())
    } else {
        match entry_at(b, pos) {
            Err(e) => Err(e),
            Ok((r, next)) => match entries_at(b, next, (n - 1) as nat) {
                Err(e) => Err(e),
                Ok(rest) => Ok(seq![r] + rest),
            },
        }
    }
}

/// What reading the table bytes `b` gives.
pub open spec fn decode_paths(b: Seq<u8>) -> Result<Seq<PathRecord>, PathsError> {
    if b.len() < 4 {
        Err(PathsError::Truncated)
    } else if b.subrange(0, 4) != paths_magic() {
        Err(PathsError::BadMagic)
    } else if b.len() < 8 {
        Err(PathsError::Truncated)
    } else if read_le32(b, 4) != FORMAT_VERSION {
        Err(PathsError::Version { found: read_le32(b, 4), expected: FORMAT_VERSION })
    } else if b.len() < 12 {
        Err(PathsError::Truncated)
    } else {
        entries_at(b, 12, read_le32(b, 8) as nat)
    }
}

/// `done` entries read so far, followed by whatever reading `rest` gives.
pub open spec fn prepend(done: Seq<PathRecord>, rest: Result<Seq<PathRecord>, PathsError>) -> Result<
    Seq<PathRecord>,
    PathsError,
> {
    match rest {
        Ok(r) => Ok(done + r),
        Err(e) => Err(e),
    }
}

/// Two orders of the same entries that both satisfy [`is_id_order`] are equal.
proof fn lemma_id_order_unique(s: Seq<PathRecord>, o1: Seq<int>, o2: Seq<int>, n: int)
    requires
        0 <= n <= o1.len(),
        o1.len() == o2.len(),
        is_id_order(s, o1),
        is_id_order(s, o2),
        forall|k: int| 0 <= k < n ==> o1[k] == o2[k],
    ensures
        o1 == o2,
    decreases o1.len() - n,
{
    if n == o1.len() {
        assert(o1 =~= o2);
    } else {
        // Both orders are injective into 0..len with len elements, so each holds every index.
        lemma_order_covers(s, o1);
        lemma_order_covers(s, o2);
        let a = o1[n];
        let b = o2[n];
        assert(o2.contains(a));
        assert(o1.contains(b));
        let ia = choose|k: int| 0 <= k < o2.len() && o2[k] == a;
        let ib = choose|k: int| 0 <= k < o1.len() && o1[k] == b;
        if ia < n {
            assert(o1[ia] == a);
            assert(id_index_lt(s, o1[ia], o1[n]));
        }
        if ib < n {
            assert(o2[ib] == b);
            assert(id_index_lt(s, o2[ib], o2[n]));
        }
        if a != b {
            assert(ia > n && ib > n);
            assert(id_index_lt(s, o2[n], o2[ia]));
            assert(id_index_lt(s, o1[n], o1[ib]));
        }
        lemma_id_order_unique(s, o1, o2, n + 1);
    }
}

/// An order of `s` names every index of `s`.
proof fn lemma_order_covers(s: Seq<PathRecord>, o: Seq<int>)
    requires
        is_id_order(s, o),
    ensures
        forall|x: int| 0 <= x < s.len() ==> #[trigger] o.contains(x),
{
    let set_o = o.to_set();
    assert(o.no_duplicates()) by {
        assert forall|i: int, j: int| 0 <= i < o.len() && 0 <= j < o.len() && i != j implies o[i]
            != o[j] by {
            if i < j {
                assert(id_index_lt(s, o[i], o[j]));
            } else {
                assert(id_index_lt(s, o[j], o[i]));
            }
        }
    }
    o.unique_seq_to_set();
    let full = Set::new(|x: int| 0 <= x < s.len());
    assert(set_o.subset_of(full));
    vstd::set_lib::lemma_int_range(0, s.len() as int);
    assert(full =~= vstd::set_lib::set_int_range(0, s.len() as int));
    vstd::set_lib::lemma_subset_equality(set_o, full);
    assert forall|x: int| 0 <= x < s.len() implies #[trigger] o.contains(x) by {
        assert(full.contains(x));
        assert(set_o.contains(x));
    }
}

/// The indices of `order` as mathematical integers.
pub open spec fn as_ints(order: Seq<usize>) -> Seq<int> {
    order.map_values(|x: usize| x as int)
}

/// Insert index `k` (larger than every index already there) at its place in an id order.
fn insert_by_id(order: &mut Vec<usize>, entries: &Vec<PathEntry>, k: usize)
    requires
        k < entries@.len(),
        forall|m: int| 0 <= m < old(order)@.len() ==> old(order)@[m] < k,
        forall|i: int, j: int|
            0 <= i < j < old(order)@.len() ==> id_index_lt(
                records(entries@),
                #[trigger] old(order)@[i] as int,
                #[trigger] old(order)@[j] as int,
            ),
    ensures
        final(order)@.len() == old(order)@.len() + 1,
        forall|m: int| 0 <= m < final(order)@.len() ==> final(order)@[m] <= k,
        forall|i: int, j: int|
            0 <= i < j < final(order)@.len() ==> id_index_lt(
                records(entries@),
                #[trigger] final(order)@[i] as int,
                #[trigger] final(order)@[j] as int,
            ),
{
    let ghost s = records(entries@);
    let ghost before = order@;
    let mut p: usize = order.len();
    while p > 0
        invariant
            p <= before.len(),
            order@ == before,
            k < entries@.len(),
            forall|m: int| 0 <= m < before.len() ==> before[m] < entries@.len(),
            forall|m: int|
                p <= m < before.len() ==> entries@[k as int].id < entries@[#[trigger] before[m] as int].id,
        ensures
            p <= before.len(),
            order@ == before,
            forall|m: int|
                p <= m < before.len() ==> entries@[k as int].id < entries@[#[trigger] before[m] as int].id,
            p == 0 || entries@[before[p - 1] as int].id <= entries@[k as int].id,
        decreases p,
    {
        if entries[order[p - 1]].id <= entries[k].id {
            break;
        }
        p = p - 1;
    }
    order.insert(p, k);
    let ghost after = order@;
    assert(after == before.insert(p as int, k));
    assert forall|i: int, j: int| 0 <= i < j < after.len() implies id_index_lt(
        s,
        #[trigger] after[i] as int,
        #[trigger] after[j] as int,
    ) by {
        if j < p {
        } else if j == p {
            assert(after[i] == before[i]);
            if i < p - 1 {
                assert(id_index_lt(s, before[i] as int, before[p - 1] as int));
            }
        } else if i < p {
            assert(after[i] == before[i]);
            assert(after[j] == before[j - 1]);
        } else if i == p {
            assert(after[j] == before[j - 1]);
        } else {
            assert(after[i] == before[i - 1]);
            assert(after[j] == before[j - 1]);
        }
    }
}

/// Where `concat_map` laid entries out from `pre.len()`, reading them back gives them.
proof fn lemma_entries_at(pre: Seq<u8>, s: Seq<PathRecord>, post: Seq<u8>)
    requires
        forall|i: int| 0 <= i < s.len() ==> encode_utf8(#[trigger] s[i].path).len() <= u32::MAX,
    ensures
        entries_at(
            pre + concat_map(s, |r: PathRecord| entry_bytes(r)) + post,
            pre.len() as int,
            s.len(),
        ) == Ok::<Seq<PathRecord>, PathsError>(s),
    decreases s.len(),
{
    let f = |r: PathRecord| entry_bytes(r);
    let b = pre + concat_map(s, f) + post;
    if s.len() == 0 {
        assert(s =~= Seq::<PathRecord>::empty());
    } else {
        lemma_concat_map_front(s, f);
        let r = s[0];
        let pre2 = pre + entry_bytes(r);
        let rest = s.drop_first();
        assert(b =~= pre2 + concat_map(rest, f) + post);
        assert forall|i: int| 0 <= i < rest.len() implies encode_utf8(
            #[trigger] rest[i].path,
        ).len() <= u32::MAX by {
            assert(rest[i] == s[i + 1]);
        }
        lemma_entries_at(pre2, rest, post);
        lemma_entry_at(pre, r, concat_map(rest, f) + post);
        assert(b =~= pre + entry_bytes(r) + (concat_map(rest, f) + post));
        lemma_entries_at_step(b, pre.len() as int, s.len());
        assert(pre2.len() == pre.len() + entry_bytes(r).len());
        assert(seq![r] + rest =~= s);
    }
}

/// Reading one entry laid out at `pre.len()` gives it back, and where it ends.
proof fn lemma_entry_at(pre: Seq<u8>, r: PathRecord, post: Seq<u8>)
    requires
        encode_utf8(r.path).len() <= u32::MAX,
    ensures
        entry_at(pre + entry_bytes(r) + post, pre.len() as int) == Ok::<(PathRecord, int), PathsError>(
            (r, pre.len() + entry_bytes(r).len() as int),
        ),
{
    reveal(entry_at);
    let b = pre + entry_bytes(r) + post;
    let p = pre.len() as int;
    let pb = encode_utf8(r.path);
    let plen = pb.len() as u32;
    assert(b.subrange(p, p + 4) =~= le32(r.id));
    assert(b.subrange(p + 4, p + 8) =~= le32(r.lines));
    assert(b.subrange(p + 8, p + 12) =~= le32(r.bytes));
    assert(b.subrange(p + 12, p + 16) =~= le32(plen));
    lemma_read_le32(b, p, r.id);
    lemma_read_le32(b, p + 4, r.lines);
    lemma_read_le32(b, p + 8, r.bytes);
    lemma_read_le32(b, p + 12, plen);
    assert(b.subrange(p + 16, p + 16 + plen) =~= pb);
    encode_utf8_valid_utf8(r.path);
    encode_utf8_decode_utf8(r.path);
}

/// Each entry's bytes carry at least its sixteen-byte head.
proof fn lemma_concat_map_width(s: Seq<PathRecord>)
    ensures
        concat_map(s, |r: PathRecord| entry_bytes(r)).len() >= 16 * s.len(),
    decreases s.len(),
{
    if s.len() > 0 {
        lemma_concat_map_width(s.drop_last());
    }
}

/// Law: reading a table gives back the entries it was written from, in order.
pub proof fn law_paths_round_trip(s: Seq<PathRecord>)
    requires
        s.len() <= u32::MAX,
        forall|i: int| 0 <= i < s.len() ==> encode_utf8(#[trigger] s[i].path).len() <= u32::MAX,
    ensures
        decode_paths(paths_file(s)) == Ok::<Seq<PathRecord>, PathsError>(s),
{
    let f = |r: PathRecord| entry_bytes(r);
    let b = paths_file(s);
    let head = paths_magic() + le32(FORMAT_VERSION) + le32(s.len() as u32);
    assert(b.subrange(0, 4) =~= paths_magic());
    assert(b.subrange(4, 8) =~= le32(FORMAT_VERSION));
    assert(b.subrange(8, 12) =~= le32(s.len() as u32));
    lemma_read_le32(b, 4, FORMAT_VERSION);
    lemma_read_le32(b, 8, s.len() as u32);
    assert(b =~= head + concat_map(s, f) + Seq::<u8>::empty());
    lemma_entries_at(head, s, Seq::<u8>::empty());
}

/// One step of reading: the first entry, then the rest.
proof fn lemma_entries_at_step(b: Seq<u8>, pos: int, n: nat)
    requires
        n > 0,
    ensures
        entries_at(b, pos, n) == match entry_at(b, pos) {
            Err(e) => Err(e),
            Ok((r, next)) => prepend(seq![r], entries_at(b, next, (n - 1) as nat)),
        },
{
}

impl PathsIndex {
    /// Encode, sorting entries by id first (equal ids keep their order) so the bytes are
    /// deterministic.
    pub fn encode(&self) -> (out: Vec<u8>)
        ensures
            is_id_order(self@, id_order(self@)),
            out@ == paths_file(sorted_by_id(self@)),
    {
        let ghost s = self@;
        let n = self.entries.len();
        let mut order: Vec<usize> = Vec::new();
        let mut k: usize = 0;
        while k < n
            invariant
                n == self.entries@.len(),
                s == records(self.entries@),
                k <= n,
                order@.len() == k,
                forall|m: int| 0 <= m < order@.len() ==> order@[m] < k,
                forall|i: int, j: int|
                    0 <= i < j < order@.len() ==> id_index_lt(
                        s,
                        #[trigger] order@[i] as int,
                        #[trigger] order@[j] as int,
                    ),
            decreases n - k,
        {
            insert_by_id(&mut order, &self.entries, k);
            k = k + 1;
        }
        let ghost o = as_ints(order@);
        assert(is_id_order(s, o)) by {
            assert forall|i: int, j: int| 0 <= i < j < o.len() implies id_index_lt(
                s,
                #[trigger] o[i],
                #[trigger] o[j],
            ) by {
                assert(id_index_lt(s, order@[i] as int, order@[j] as int));
            }
        }
        proof {
            let canon = id_order(s);
            assert(is_id_order(s, canon));
            lemma_id_order_unique(s, o, canon, 0);
        }
        let ghost sorted = sorted_by_id(s);
        let ghost f = |r: PathRecord| entry_bytes(r);
        let mut buf: Vec<u8> = Vec::new();
        buf.push(70u8);
        buf.push(80u8);
        buf.push(84u8);
        buf.push(72u8);
        push_u32(&mut buf, FORMAT_VERSION);
        push_u32(&mut buf, #[verifier::truncate] (n as u32));
        let ghost head = buf@;
        assert(head =~= paths_magic() + le32(FORMAT_VERSION) + le32(
            #[verifier::truncate] (sorted.len() as u32),
        ));
        let mut j: usize = 0;
        while j < n
            invariant
                n == self.entries@.len(),
                s == records(self.entries@),
                order@.len() == n,
                as_ints(order@) == id_order(s),
                sorted == id_order(s).map_values(|k: int| s[k]),
                forall|m: int| 0 <= m < order@.len() ==> order@[m] < n,
                j <= n,
                f == (|r: PathRecord| entry_bytes(r)),
                buf@ == head + concat_map(sorted.take(j as int), f),
            decreases n - j,
        {
            let e = &self.entries[order[j]];
            let ghost before = buf@;
            let path = e.path.as_str().as_bytes();
            push_u32(&mut buf, e.id);
            push_u32(&mut buf, e.lines);
            push_u32(&mut buf, e.bytes);
            push_u32(&mut buf, #[verifier::truncate] (path.len() as u32));
            push_all(&mut buf, path);
            proof {
                assert(as_ints(order@)[j as int] == order@[j as int] as int);
                assert(sorted[j as int] == s[order@[j as int] as int]);
                assert(sorted[j as int] == e@);
                lemma_concat_map_take(sorted, j as int, f);
                assert(buf@ =~= before + entry_bytes(e@));
            }
            j = j + 1;
        }
        assert(sorted.take(n as int) =~= sorted);
        buf
    }

    /// Read a table written by [`PathsIndex::encode`].
    pub fn decode(bytes: &[u8]) -> (r: Result<PathsIndex, PathsError>)
        ensures
            match decode_paths(bytes@) {
                Ok(s) => r matches Ok(t) && t@ == s,
                Err(e) => r == Err::<PathsIndex, PathsError>(e),
            },
    {
        let n = bytes.len();
        if n < 4 {
            return Err(PathsError::Truncated);
        }
        if !(bytes[0] == 70u8 && bytes[1] == 80u8 && bytes[2] == 84u8 && bytes[3] == 72u8) {
            proof {
                if bytes@.subrange(0, 4) == paths_magic() {
                    assert(bytes@[0] == bytes@.subrange(0, 4)[0]);
                    assert(bytes@[1] == bytes@.subrange(0, 4)[1]);
                    assert(bytes@[2] == bytes@.subrange(0, 4)[2]);
                    assert(bytes@[3] == bytes@.subrange(0, 4)[3]);
                }
            }
            return Err(PathsError::BadMagic);
        }
        assert(bytes@.subrange(0, 4) =~= paths_magic());
        if n < 8 {
            return Err(PathsError::Truncated);
        }
        let version = get_u32(bytes, 4);
        if version != FORMAT_VERSION {
            return Err(PathsError::Version { found: version, expected: FORMAT_VERSION });
        }
        if n < 12 {
            return Err(PathsError::Truncated);
        }
        let count = get_u32(bytes, 8);
        let ghost total = decode_paths(bytes@);
        let mut entries: Vec<PathEntry> = Vec::new();
        let mut i: u32 = 0;
        let mut pos: usize = 12;
        while i < count
            invariant
                n == bytes@.len(),
                i <= count,
                pos <= n,
                total == decode_paths(bytes@),
                total == prepend(records(entries@), entries_at(bytes@, pos as int, (count - i) as nat)),
            decreases count - i,
        {
            let ghost rest = (count - i - 1) as nat;
            proof {
                reveal(entry_at);
                lemma_entries_at_step(bytes@, pos as int, (count - i) as nat);
            }
            if n - pos < 16 {
                return Err(PathsError::Truncated);
            }
            let id = get_u32(bytes, pos);
            let lines = get_u32(bytes, pos + 4);
            let byte_count = get_u32(bytes, pos + 8);
            let path_len = get_u32(bytes, pos + 12);
            if path_len as usize > n - pos - 16 {
                return Err(PathsError::Truncated);
            }
            let end = pos + 16 + path_len as usize;
            let mut raw: Vec<u8> = Vec::new();
            let mut q = pos + 16;
            while q < end
                invariant
                    pos + 16 <= q <= end <= n,
                    n == bytes@.len(),
                    raw@ == bytes@.subrange(pos + 16, q as int),
                decreases end - q,
            {
                raw.push(bytes[q]);
                q = q + 1;
                assert(raw@ =~= bytes@.subrange(pos + 16, q as int));
            }
            let path = match string_from_utf8(raw) {
                Some(p) => p,
                None => {
                    return Err(PathsError::Utf8);
                },
            };
            let e = PathEntry { id, lines, bytes: byte_count, path };
            let ghost before = entries@;
            entries.push(e);
            proof {
                assert(entry_at(bytes@, pos as int) == Ok::<(PathRecord, int), PathsError>((e@, end as int)));
                assert(records(entries@) =~= records(before) + seq![e@]);
                match entries_at(bytes@, end as int, rest) {
                    Ok(r) => {
                        assert(records(entries@) + r =~= records(before) + (seq![e@] + r));
                    },
                    Err(_) => {},
                }
            }
            pos = end;
            i = i + 1;
        }
        assert(records(entries@) + Seq::<PathRecord>::empty() =~= records(entries@));
        Ok(PathsIndex { entries })
    }
}

/// The position in `o` of the first index whose entry has an id above `xid`, searching from
/// `from` (the length of `o` if there is none).
spec fn first_above(s: Seq<PathRecord>, o: Seq<int>, xid: u32, from: int) -> int
    decreases o.len() - from,
{
    if from >= o.len() || from < 0 {
        o.len() as int
    } else if s[o[from]].id > xid {
        from
    } else {
        first_above(s, o, xid, from + 1)
    }
}

proof fn lemma_first_above(s: Seq<PathRecord>, o: Seq<int>, xid: u32, from: int)
    requires
        0 <= from <= o.len(),
        forall|k: int| 0 <= k < o.len() ==> 0 <= #[trigger] o[k] < s.len(),
    ensures
        from <= first_above(s, o, xid, from) <= o.len(),
        forall|i: int| from <= i < first_above(s, o, xid, from) ==> s[#[trigger] o[i]].id <= xid,
        first_above(s, o, xid, from) < o.len() ==> s[o[first_above(s, o, xid, from)]].id > xid,
    decreases o.len() - from,
{
    if from < o.len() && s[o[from]].id <= xid {
        lemma_first_above(s, o, xid, from + 1);
    }
}

/// Every table has an order of its entries by id.
proof fn lemma_id_order_exists(s: Seq<PathRecord>)
    ensures
        is_id_order(s, id_order(s)),
    decreases s.len(),
{
    let o = lemma_some_order(s);
}

proof fn lemma_some_order(s: Seq<PathRecord>) -> (o: Seq<int>)
    ensures
        is_id_order(s, o),
    decreases s.len(),
{
    if s.len() == 0 {
        Seq::<int>::empty()
    } else {
        let t = s.drop_last();
        let n = t.len() as int;
        let o0 = lemma_some_order(t);
        assert forall|k: int| 0 <= k < o0.len() implies 0 <= #[trigger] o0[k] < s.len() by {}
        let xid = s[n].id;
        lemma_first_above(s, o0, xid, 0);
        let p = first_above(s, o0, xid, 0);
        let o = o0.insert(p, n);
        assert forall|k: int| 0 <= k < o.len() implies 0 <= #[trigger] o[k] < s.len() by {
            if k < p {
                assert(o[k] == o0[k]);
            } else if k > p {
                assert(o[k] == o0[k - 1]);
            }
        }
        assert forall|i: int, j: int| 0 <= i < j < o.len() implies id_index_lt(s, #[trigger] o[i], #[trigger] o[j]) by {
            if i < p && j < p {
                assert(o[i] == o0[i] && o[j] == o0[j]);
                assert(id_index_lt(t, o0[i], o0[j]));
            } else if i < p && j == p {
                assert(o[i] == o0[i]);
                assert(s[o0[i]].id <= xid);
            } else if i < p && j > p {
                assert(o[i] == o0[i] && o[j] == o0[j - 1]);
                assert(id_index_lt(t, o0[i], o0[j - 1]));
            } else if i == p {
                assert(o[j] == o0[j - 1]);
                assert(s[o0[p]].id > xid);
                if j - 1 > p {
                    assert(id_index_lt(t, o0[p], o0[j - 1]));
                }
            } else {
                assert(o[i] == o0[i - 1] && o[j] == o0[j - 1]);
                assert(id_index_lt(t, o0[i - 1], o0[j - 1]));
            }
        }
        o
    }
}

/// No two entries share an id.
pub open spec fn ids_distinct(s: Seq<PathRecord>) -> bool {
    forall|i: int, j: int| 0 <= i < j < s.len() ==> (#[trigger] s[i]).id != (#[trigger] s[j]).id
}

/// Ids rise strictly along `s`.
pub open spec fn ids_increasing(s: Seq<PathRecord>) -> bool {
    forall|i: int, j: int| 0 <= i < j < s.len() ==> (#[trigger] s[i]).id < (#[trigger] s[j]).id
}

/// With distinct ids, the entries sorted by id are the same entries with ids rising.
proof fn lemma_sorted_by_id(s: Seq<PathRecord>)
    requires
        ids_distinct(s),
    ensures
        ids_increasing(sorted_by_id(s)),
        sorted_by_id(s).to_set() == s.to_set(),
{
    lemma_id_order_exists(s);
    let o = id_order(s);
    let t = sorted_by_id(s);
    assert forall|i: int, j: int| 0 <= i < j < t.len() implies (#[trigger] t[i]).id < (#[trigger] t[j]).id by {
        assert(id_index_lt(s, o[i], o[j]));
        if o[i] < o[j] {
            assert(s[o[i]].id != s[o[j]].id);
        } else if o[j] < o[i] {
            assert(s[o[j]].id != s[o[i]].id);
        }
    }
    lemma_order_covers(s, o);
    assert forall|x: PathRecord| t.to_set().contains(x) == s.to_set().contains(x) by {
        if t.contains(x) {
            let k = choose|k: int| 0 <= k < t.len() && t[k] == x;
            assert(s[o[k]] == x);
        }
        if s.contains(x) {
            let k = choose|k: int| 0 <= k < s.len() && s[k] == x;
            assert(o.contains(k));
            let m = choose|m: int| 0 <= m < o.len() && o[m] == k;
            assert(t[m] == x);
        }
    }
    assert(t.to_set() =~= s.to_set());
}

proof fn lemma_increasing_unique(s1: Seq<PathRecord>, s2: Seq<PathRecord>)
    requires
        ids_increasing(s1),
        ids_increasing(s2),
        s1.to_set() == s2.to_set(),
    ensures
        s1 == s2,
    decreases s1.len(),
{
    if s1.len() == 0 {
        if s2.len() > 0 {
            assert(s2.to_set().contains(s2[0]));
        }
        assert(s1 =~= s2);
    } else {
        assert(s1.to_set().contains(s1[0]));
        assert(s2.to_set().contains(s2[0]));
        let i2 = choose|j: int| 0 <= j < s2.len() && s2[j] == s1[0];
        let i1 = choose|j: int| 0 <= j < s1.len() && s1[j] == s2[0];
        if i2 > 0 {
            assert(s2[0].id < s2[i2].id);
            if i1 > 0 {
                assert(s1[0].id < s1[i1].id);
            }
        }
        assert(s1[0] == s2[0]);
        let t1 = s1.drop_first();
        let t2 = s2.drop_first();
        assert forall|x: PathRecord| t1.to_set().contains(x) == t2.to_set().contains(x) by {
            if t1.contains(x) {
                let j = choose|j: int| 0 <= j < t1.len() && t1[j] == x;
                assert(s1[j + 1] == x);
                assert(s1.to_set().contains(x));
                let k = choose|k: int| 0 <= k < s2.len() && s2[k] == x;
                assert(s1[0].id < s1[j + 1].id);
                if k == 0 {
                    assert(false);
                }
                assert(t2[k - 1] == x);
            }
            if t2.contains(x) {
                let j = choose|j: int| 0 <= j < t2.len() && t2[j] == x;
                assert(s2[j + 1] == x);
                assert(s2.to_set().contains(x));
                let k = choose|k: int| 0 <= k < s1.len() && s1[k] == x;
                assert(s2[0].id < s2[j + 1].id);
                if k == 0 {
                    assert(false);
                }
                assert(t1[k - 1] == x);
            }
        }
        assert(t1.to_set() =~= t2.to_set());
        lemma_increasing_unique(t1, t2);
        assert(s1 =~= seq![s1[0]] + t1);
        assert(s2 =~= seq![s2[0]] + t2);
    }
}

/// Law: tables that hold the same entries in any order, no two with one id, are written as the
/// same bytes, with the entries in strictly rising id order.
pub proof fn law_paths_encode_order_free(a: Seq<PathRecord>, b: Seq<PathRecord>)
    requires
        a.to_multiset() == b.to_multiset(),
        ids_distinct(a),
        ids_distinct(b),
    ensures
        paths_file(sorted_by_id(a)) == paths_file(sorted_by_id(b)),
        ids_increasing(sorted_by_id(a)),
{
    broadcast use vstd::seq_lib::group_to_multiset_ensures;
    lemma_sorted_by_id(a);
    lemma_sorted_by_id(b);
    assert forall|x: PathRecord| a.to_set().contains(x) == b.to_set().contains(x) by {
        assert(a.contains(x) == (a.to_multiset().count(x) > 0));
        assert(b.contains(x) == (b.to_multiset().count(x) > 0));
    }
    assert(a.to_set() =~= b.to_set());
    lemma_increasing_unique(sorted_by_id(a), sorted_by_id(b));
}

} // verus!
