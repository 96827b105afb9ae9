//! The ledger of the viewer's GPU tile cache: which tiles are resident, the bytes their buffers
//! take, and the frame that last drew each one. Eviction drops the least recently used tiles,
//! oldest first, until the cache is back under its byte budget, and never drops a tile that
//! the current frame drew.

use vstd::prelude::*;
use crate::loader::key_lt;
use crate::tileset::TileKey;

verus! {

/// One resident tile: its address, the bytes its buffers take, and the last frame that drew it.
#[derive(Debug, Clone, Copy, PartialEq, Eq, Structural)]
pub struct Resident {
    pub key: TileKey,
    pub bytes: u64,
    pub last_used: u64,
}

/// Eviction order: `a` goes before `b` when it was drawn less recently, or at the same frame and
/// has the lower address.
pub open spec fn older(a: Resident, b: Resident) -> bool {
    a.last_used < b.last_used || (a.last_used == b.last_used && key_lt(a.key, b.key))
}

/// The bytes of all the tiles of `s`.
pub open spec fn total(s: Seq<Resident>) -> nat
    decreases s.len(),
{
    if s.len() == 0 {
        0
    } else {
        total(s.drop_last()) + s.last().bytes as nat
    }
}

/// The bytes of the tiles of `s` that are not older than `e`: what is left when eviction, going
/// oldest first, reaches `e`.
pub open spec fn total_from(s: Seq<Resident>, e: Resident) -> nat
    decreases s.len(),
{
    if s.len() == 0 {
        0
    } else {
        total_from(s.drop_last(), e) + if older(s.last(), e) { 0 } else { s.last().bytes as nat }
    }
}

/// Whether eviction at `frame` under `budget` drops `e` from `s`: `e` was last drawn before this
/// frame, and the tiles not older than it still take more than the budget.
pub open spec fn evicted(s: Seq<Resident>, budget: u64, frame: u64, e: Resident) -> bool {
    e.last_used < frame && total_from(s, e) > budget
}

/// Whether eviction at `frame` under `budget` keeps a tile of `s`.
pub open spec fn keeps(s: Seq<Resident>, budget: u64, frame: u64) -> spec_fn(Resident) -> bool {
    |e: Resident| !evicted(s, budget, frame, e)
}

/// What eviction at `frame` under `budget` keeps of `s`, in order.
pub open spec fn survivors(s: Seq<Resident>, budget: u64, frame: u64) -> Seq<Resident> {
    s.filter(keeps(s, budget, frame))
}

/// No address occurs twice.
pub open spec fn keys_distinct(s: Seq<Resident>) -> bool {
    forall|i: int, j: int| 0 <= i < j < s.len() ==> (#[trigger] s[i]).key != (#[trigger] s[j]).key
}

/// Whether some tile of `s` has address `key`.
pub open spec fn holds(s: Seq<Resident>, key: TileKey) -> bool {
    exists|i: int| 0 <= i < s.len() && (#[trigger] s[i]).key == key
}

/// The position of `key` in `s`, when it is there.
pub open spec fn slot(s: Seq<Resident>, key: TileKey) -> int {
    choose|i: int| 0 <= i < s.len() && (#[trigger] s[i]).key == key
}

/// The bytes `s` holds under `key` (0 when it holds none).
pub open spec fn bytes_at(s: Seq<Resident>, key: TileKey) -> nat {
    if holds(s, key) { s[slot(s, key)].bytes as nat } else { 0 }
}

/// `s` after an upload of `r`: it replaces the tile with the same address, or joins at the end.
pub open spec fn placed(s: Seq<Resident>, r: Resident) -> Seq<Resident> {
    if holds(s, r.key) { s.update(slot(s, r.key), r) } else { s.push(r) }
}

/// `s` after the tile at `key`, if any, is drawn at `frame`.
pub open spec fn touched(s: Seq<Resident>, key: TileKey, frame: u64) -> Seq<Resident> {
    if holds(s, key) {
        let i = slot(s, key);
        s.update(i, Resident { last_used: frame, ..s[i] })
    } else {
        s
    }
}

/// The bytes of the tiles `i` of `s` with `gone[i]` false.
spec fn kept_total(s: Seq<Resident>, gone: Seq<bool>) -> nat
    decreases s.len(),
{
    if s.len() == 0 || gone.len() == 0 {
        0
    } else {
        kept_total(s.drop_last(), gone.drop_last()) + if gone.last() { 0 } else { s.last().bytes as nat }
    }
}

/// How many of `gone` are false.
spec fn live_count(gone: Seq<bool>) -> nat
    decreases gone.len(),
{
    if gone.len() == 0 {
        0
    } else {
        live_count(gone.drop_last()) + if gone.last() { 0nat } else { 1nat }
    }
}

proof fn lemma_live_mark(gone: Seq<bool>, m: int)
    requires
        0 <= m < gone.len(),
        !gone[m],
    ensures
        live_count(gone.update(m, true)) + 1 == live_count(gone),
    decreases gone.len(),
{
    if m < gone.len() - 1 {
        assert(gone.update(m, true).drop_last() =~= gone.drop_last().update(m, true));
        lemma_live_mark(gone.drop_last(), m);
    } else {
        assert(gone.update(m, true).drop_last() =~= gone.drop_last());
    }
}

proof fn lemma_live_all(gone: Seq<bool>)
    requires
        forall|i: int| 0 <= i < gone.len() ==> !gone[i],
    ensures
        live_count(gone) == gone.len(),
    decreases gone.len(),
{
    if gone.len() > 0 {
        lemma_live_all(gone.drop_last());
    }
}

/// Whether `a` goes before `b` in eviction order.
fn is_older(a: &Resident, b: &Resident) -> (r: bool)
    ensures
        r == older(*a, *b),
{
    a.last_used < b.last_used || (a.last_used == b.last_used && (a.key.z < b.key.z || (a.key.z == b.key.z
        && (a.key.x < b.key.x || (a.key.x == b.key.x && a.key.y < b.key.y)))))
}

proof fn lemma_older_total(a: Resident, b: Resident)
    requires
        a.key != b.key,
    ensures
        older(a, b) != older(b, a),
{
}

proof fn lemma_older_trans(a: Resident, b: Resident, c: Resident)
    requires
        older(a, b),
        older(b, c),
    ensures
        older(a, c),
{
}

proof fn lemma_total_push(s: Seq<Resident>, r: Resident)
    ensures
        total(s.push(r)) == total(s) + r.bytes,
{
    assert(s.push(r).drop_last() =~= s);
}

proof fn lemma_total_update(s: Seq<Resident>, i: int, r: Resident)
    requires
        0 <= i < s.len(),
    ensures
        total(s.update(i, r)) + s[i].bytes == total(s) + r.bytes,
    decreases s.len(),
{
    if i < s.len() - 1 {
        assert(s.update(i, r).drop_last() =~= s.drop_last().update(i, r));
        lemma_total_update(s.drop_last(), i, r);
    } else {
        assert(s.update(i, r).drop_last() =~= s.drop_last());
    }
}

proof fn lemma_kept_all(s: Seq<Resident>, gone: Seq<bool>)
    requires
        s.len() == gone.len(),
        forall|i: int| 0 <= i < gone.len() ==> !gone[i],
    ensures
        kept_total(s, gone) == total(s),
    decreases s.len(),
{
    if s.len() > 0 {
        lemma_kept_all(s.drop_last(), gone.drop_last());
    }
}

proof fn lemma_kept_mark(s: Seq<Resident>, gone: Seq<bool>, m: int)
    requires
        s.len() == gone.len(),
        0 <= m < s.len(),
        !gone[m],
    ensures
        kept_total(s, gone.update(m, true)) + s[m].bytes == kept_total(s, gone),
    decreases s.len(),
{
    if m < s.len() - 1 {
        assert(gone.update(m, true).drop_last() =~= gone.drop_last().update(m, true));
        lemma_kept_mark(s.drop_last(), gone.drop_last(), m);
    } else {
        assert(gone.update(m, true).drop_last() =~= gone.drop_last());
    }
}

/// When the kept tiles are exactly those not older than `e`, they hold `total_from(s, e)`.
proof fn lemma_kept_is_from(s: Seq<Resident>, gone: Seq<bool>, e: Resident)
    requires
        s.len() == gone.len(),
        forall|i: int| 0 <= i < s.len() ==> #[trigger] gone[i] == older(s[i], e),
    ensures
        kept_total(s, gone) == total_from(s, e),
    decreases s.len(),
{
    if s.len() > 0 {
        let (t, g) = (s.drop_last(), gone.drop_last());
        assert forall|i: int| 0 <= i < t.len() implies #[trigger] g[i] == older(t[i], e) by {
            assert(g[i] == gone[i] && t[i] == s[i]);
        }
        lemma_kept_is_from(t, g, e);
    }
}

/// When every tile not older than `e` is kept, they hold no more than the kept tiles.
proof fn lemma_from_at_most_kept(s: Seq<Resident>, gone: Seq<bool>, e: Resident)
    requires
        s.len() == gone.len(),
        forall|i: int| 0 <= i < s.len() && #[trigger] gone[i] ==> older(s[i], e),
    ensures
        total_from(s, e) <= kept_total(s, gone),
    decreases s.len(),
{
    if s.len() > 0 {
        let (t, g) = (s.drop_last(), gone.drop_last());
        assert forall|i: int| 0 <= i < t.len() && #[trigger] g[i] implies older(t[i], e) by {
            assert(g[i] == gone[i] && t[i] == s[i]);
        }
        lemma_from_at_most_kept(t, g, e);
    }
}

/// The bytes of what a filter keeps, over the first `i` tiles.
proof fn lemma_filter_step(s: Seq<Resident>, p: spec_fn(Resident) -> bool, i: int)
    requires
        0 <= i < s.len(),
    ensures
        s.take(i + 1).filter(p) == if p(s[i]) { s.take(i).filter(p).push(s[i]) } else { s.take(i).filter(p) },
{
    reveal(Seq::filter);
    assert(s.take(i + 1).drop_last() =~= s.take(i));
    assert(s.take(i + 1).last() == s[i]);
}

/// The cache ledger: the resident tiles in the order they were first uploaded, their bytes, and
/// the budget eviction keeps them under.
pub struct GpuCache {
    tiles: Vec<Resident>,
    bytes: u64,
    budget: u64,
}

impl View for GpuCache {
    type V = Seq<Resident>;

    closed spec fn view(&self) -> Seq<Resident> {
        self.tiles@
    }
}

impl GpuCache {
    /// Each address occurs once, and the byte count is the sum over the tiles.
    pub closed spec fn wf(&self) -> bool {
        &&& keys_distinct(self.tiles@)
        &&& self.bytes == total(self.tiles@)
    }

    /// The byte budget.
    pub closed spec fn budget(&self) -> u64 {
        self.budget
    }

    /// An empty cache with a budget of `budget_bytes`.
    pub fn new(budget_bytes: u64) -> (r: GpuCache)
        ensures
            r.wf(),
            r@ == Seq::<Resident>::empty(),
            r.budget() == budget_bytes,
    {
        let r = GpuCache { tiles: Vec::new(), bytes: 0, budget: budget_bytes };
        assert(r.tiles@ =~= Seq::<Resident>::empty());
        r
    }

    fn find(&self, key: TileKey) -> (r: Option<usize>)
        ensures
            r matches Some(i) ==> i < self@.len() && self@[i as int].key == key,
            r is None ==> !holds(self@, key),
    {
        let mut i: usize = 0;
        while i < self.tiles.len()
            invariant
                i <= self.tiles@.len(),
                forall|j: int| 0 <= j < i ==> (#[trigger] self.tiles@[j]).key != key,
            decreases self.tiles@.len() - i,
        {
            if self.tiles[i].key == key {
                return Some(i);
            }
            i = i + 1;
        }
        None
    }

    /// Whether the tile at `key` is resident.
    pub fn contains(&self, key: TileKey) -> (r: bool)
        ensures
            r == holds(self@, key),
    {
        self.find(key).is_some()
    }

    /// The number of resident tiles.
    pub fn len(&self) -> (r: usize)
        ensures
            r == self@.len(),
    {
        self.tiles.len()
    }

    pub fn is_empty(&self) -> (r: bool)
        ensures
            r == (self@.len() == 0),
    {
        self.tiles.len() == 0
    }

    /// The bytes the resident tiles take.
    pub fn bytes(&self) -> (r: u64)
        requires
            self.wf(),
        ensures
            r == total(self@),
    {
        self.bytes
    }

    /// Record an upload of `bytes` for the tile at `key`, drawn at `frame`; it replaces the tile
    /// already held at that address.
    pub fn upload(&mut self, key: TileKey, bytes: u64, frame: u64)
        requires
            old(self).wf(),
            total(old(self)@) - bytes_at(old(self)@, key) + bytes <= u64::MAX,
        ensures
            final(self).wf(),
            final(self).budget() == old(self).budget(),
            final(self)@ == placed(old(self)@, Resident { key, bytes, last_used: frame }),
    {
        let ghost s = self.tiles@;
        let r = Resident { key, bytes, last_used: frame };
        match self.find(key) {
            Some(i) => {
                proof {
                    assert(holds(s, key));
                    let j = slot(s, key);
                    assert(j == i as int) by {
                        if j != i as int {
                            if j < i {
                                assert(s[j].key != s[i as int].key);
                            } else {
                                assert(s[i as int].key != s[j].key);
                            }
                        }
                    }
                    lemma_total_update(s, i as int, r);
                    lemma_total_update(s, i as int, Resident { bytes: 0, ..r });
                }
                let old_bytes = self.tiles[i].bytes;
                self.tiles.set(i, r);
                self.bytes = self.bytes - old_bytes + bytes;
                proof {
                    let t = self.tiles@;
                    assert forall|a: int, b: int| 0 <= a < b < t.len() implies (#[trigger] t[a]).key != (#[trigger] t[b]).key by {
                        if a != i && b != i {
                            assert(t[a] == s[a] && t[b] == s[b]);
                        } else if a == i {
                            assert(t[b] == s[b]);
                        } else {
                            assert(t[a] == s[a]);
                        }
                    }
                }
            },
            None => {
                proof {
                    lemma_total_push(s, r);
                }
                self.tiles.push(r);
                self.bytes = self.bytes + bytes;
                proof {
                    let t = self.tiles@;
                    assert forall|a: int, b: int| 0 <= a < b < t.len() implies (#[trigger] t[a]).key != (#[trigger] t[b]).key by {
                        if b == s.len() {
                            assert(t[a] == s[a]);
                            if s[a].key == key {
                                assert(holds(s, key));
                            }
                        } else {
                            assert(t[a] == s[a] && t[b] == s[b]);
                        }
                    }
                }
            },
        }
    }

    /// Mark the tile at `key`, if resident, as drawn at `frame`.
    pub fn touch(&mut self, key: TileKey, frame: u64)
        requires
            old(self).wf(),
        ensures
            final(self).wf(),
            final(self).budget() == old(self).budget(),
            final(self)@ == touched(old(self)@, key, frame),
    {
        let ghost s = self.tiles@;
        if let Some(i) = self.find(key) {
            let t = self.tiles[i];
            let r = Resident { key: t.key, bytes: t.bytes, last_used: frame };
            proof {
                assert(holds(s, key));
                let j = slot(s, key);
                assert(j == i as int) by {
                    if j != i as int {
                        if j < i {
                            assert(s[j].key != s[i as int].key);
                        } else {
                            assert(s[i as int].key != s[j].key);
                        }
                    }
                }
                lemma_total_update(s, i as int, r);
            }
            self.tiles.set(i, r);
            proof {
                let u = self.tiles@;
                assert forall|a: int, b: int| 0 <= a < b < u.len() implies (#[trigger] u[a]).key != (#[trigger] u[b]).key by {
                    assert(u[a].key == s[a].key && u[b].key == s[b].key);
                }
            }
        }
    }

    /// Drop least recently used tiles, oldest first, until the cache is within its budget; tiles
    /// drawn at `frame` or later are kept whatever the bytes.
    pub fn evict(&mut self, frame: u64)
        requires
            old(self).wf(),
        ensures
            final(self).wf(),
            final(self).budget() == old(self).budget(),
            final(self)@ == survivors(old(self)@, old(self).budget(), frame),
            total(final(self)@) <= final(self).budget() || forall|i: int| 0 <= i < final(self)@.len()
                ==> (#[trigger] final(self)@[i]).last_used >= frame,
    {
        let ghost s = self.tiles@;
        let budget = self.budget;
        let n = self.tiles.len();
        let mut gone: Vec<bool> = Vec::new();
        let mut k: usize = 0;
        while k < n
            invariant
                k <= n == s.len(),
                gone@.len() == k,
                forall|i: int| 0 <= i < k ==> !(#[trigger] gone@[i]),
            decreases n - k,
        {
            gone.push(false);
            k = k + 1;
        }
        proof {
            lemma_kept_all(s, gone@);
            lemma_live_all(gone@);
        }
        let mut bytes = self.bytes;
        let mut live: usize = n;
        let mut within = false;
        loop
            invariant_except_break
                !within,
            invariant
                s == self.tiles@,
                n == s.len(),
                budget == self.budget,
                keys_distinct(s),
                gone@.len() == n,
                live == live_count(gone@),
                bytes == kept_total(s, gone@),
                forall|i: int| 0 <= i < n && #[trigger] gone@[i] ==> evicted(s, budget, frame, s[i]),
                forall|i: int, j: int| 0 <= i < n && 0 <= j < n && #[trigger] gone@[i] && !#[trigger] gone@[j]
                    ==> older(s[i], s[j]),
                within ==> forall|i: int| 0 <= i < n && !(#[trigger] gone@[i]) ==> !evicted(s, budget, frame, s[i]),
                within ==> bytes <= budget || forall|i: int| 0 <= i < n && !(#[trigger] gone@[i])
                    ==> s[i].last_used >= frame,
            ensures
                within,
            decreases live,
        {
            let mut oldest: Option<usize> = None;
            let mut i: usize = 0;
            while i < n
                invariant
                    s == self.tiles@,
                    n == s.len(),
                    gone@.len() == n,
                    i <= n,
                    oldest is None ==> forall|j: int| 0 <= j < i ==> #[trigger] gone@[j],
                    oldest matches Some(m) ==> m < i && !gone@[m as int] && forall|j: int| 0 <= j < i
                        && !(#[trigger] gone@[j]) ==> !older(s[j], s[m as int]),
                decreases n - i,
            {
                if !gone[i] {
                    match oldest {
                        None => {
                            oldest = Some(i);
                        },
                        Some(m) => {
                            if is_older(&self.tiles[i], &self.tiles[m]) {
                                proof {
                                    assert forall|j: int| 0 <= j < i + 1 && !(#[trigger] gone@[j]) implies !older(
                                        s[j],
                                        s[i as int],
                                    ) by {
                                        if j < i && older(s[j], s[i as int]) {
                                            lemma_older_trans(s[j], s[i as int], s[m as int]);
                                        }
                                    }
                                }
                                oldest = Some(i);
                            }
                        },
                    }
                }
                i = i + 1;
            }
            match oldest {
                None => {
                    proof {
                        lemma_kept_none(s, gone@);
                    }
                    within = true;
                    break;
                },
                Some(m) => {
                    proof {
                        assert forall|j: int| 0 <= j < n implies #[trigger] gone@[j] == older(s[j], s[m as int]) by {
                            if gone@[j] {
                                assert(older(s[j], s[m as int]));
                            } else if j != m {
                                assert(!older(s[j], s[m as int]));
                            }
                        }
                        lemma_kept_is_from(s, gone@, s[m as int]);
                    }
                    if bytes <= budget || self.tiles[m].last_used >= frame {
                        proof {
                            assert forall|i: int| 0 <= i < n && !(#[trigger] gone@[i]) implies !evicted(s, budget, frame, s[i])
                                && (bytes > budget ==> s[i].last_used >= frame) by {
                                if i != m {
                                    lemma_older_total(s[i], s[m as int]);
                                }
                                if bytes <= budget {
                                    assert forall|j: int| 0 <= j < s.len() && #[trigger] gone@[j] implies older(s[j], s[i]) by {}
                                    lemma_from_at_most_kept(s, gone@, s[i]);
                                }
                            }
                        }
                        within = true;
                        break;
                    }
                    proof {
                        lemma_kept_mark(s, gone@, m as int);
                        lemma_live_mark(gone@, m as int);
                        assert(evicted(s, budget, frame, s[m as int]));
                    }
                    bytes = bytes - self.tiles[m].bytes;
                    let ghost before = gone@;
                    gone.set(m, true);
                    proof {
                        assert forall|i: int| 0 <= i < n && #[trigger] gone@[i] implies evicted(s, budget, frame, s[i]) by {
                            if i != m {
                                assert(before[i]);
                            }
                        }
                        assert forall|i: int, j: int| 0 <= i < n && 0 <= j < n && #[trigger] gone@[i] && !#[trigger] gone@[j]
                            implies older(s[i], s[j]) by {
                            if i == m {
                                assert(!before[j]);
                                lemma_older_total(s[j], s[m as int]);
                            } else {
                                assert(before[i] && !before[j]);
                            }
                        }
                    }
                    live = live - 1;
                },
            }
        }
        let mut kept: Vec<Resident> = Vec::new();
        let ghost p = keeps(s, budget, frame);
        proof {
            assert forall|i: int| 0 <= i < n implies (#[trigger] gone@[i] <==> !p(s[i])) by {
                if gone@[i] {
                    assert(evicted(s, budget, frame, s[i]));
                } else {
                    assert(!evicted(s, budget, frame, s[i]));
                }
            }
            assert(kept@ =~= s.take(0));
        }
        let mut j: usize = 0;
        while j < n
            invariant
                s == self.tiles@,
                n == s.len(),
                j <= n,
                gone@.len() == n,
                keys_distinct(s),
                forall|i: int| 0 <= i < n ==> (#[trigger] gone@[i] <==> !p(s[i])),
                kept@ == s.take(j as int).filter(p),
                total(kept@) == kept_total(s.take(j as int), gone@.take(j as int)),
                forall|a: int| 0 <= a < kept@.len() ==> exists|b: int| 0 <= b < j && !gone@[b] && #[trigger] kept@[a] == s[b],
                keys_distinct(kept@),
            decreases n - j,
        {
            proof {
                lemma_filter_step(s, p, j as int);
                assert(s.take(j + 1).drop_last() =~= s.take(j as int));
                assert(gone@.take(j + 1).drop_last() =~= gone@.take(j as int));
            }
            if !gone[j] {
                let ghost prev = kept@;
                proof {
                    lemma_total_push(prev, s[j as int]);
                }
                kept.push(self.tiles[j]);
                proof {
                    assert forall|a: int, b: int| 0 <= a < b < kept@.len() implies (#[trigger] kept@[a]).key
                        != (#[trigger] kept@[b]).key by {
                        if b == prev.len() {
                            let c = choose|c: int| 0 <= c < j && !gone@[c] && #[trigger] prev[a] == s[c];
                            assert(s[c].key != s[j as int].key);
                        } else {
                            assert(kept@[a] == prev[a] && kept@[b] == prev[b]);
                        }
                    }
                    assert forall|a: int| 0 <= a < kept@.len() implies exists|b: int| 0 <= b < j + 1 && !gone@[b] && #[trigger] kept@[a]
                        == s[b] by {
                        if a < prev.len() {
                            let c = choose|c: int| 0 <= c < j && !gone@[c] && #[trigger] prev[a] == s[c];
                            assert(kept@[a] == s[c]);
                        } else {
                            assert(kept@[a] == s[j as int]);
                        }
                    }
                }
            }
            j = j + 1;
        }
        proof {
            assert(s.take(n as int) =~= s);
            assert(gone@.take(n as int) =~= gone@);
            assert(total(kept@) == bytes);
            if bytes > budget {
                assert forall|a: int| 0 <= a < kept@.len() implies (#[trigger] kept@[a]).last_used >= frame by {
                    let c = choose|c: int| 0 <= c < n && !gone@[c] && #[trigger] kept@[a] == s[c];
                }
            }
        }
        self.tiles = kept;
        self.bytes = bytes;
    }
}

proof fn lemma_kept_none(s: Seq<Resident>, gone: Seq<bool>)
    requires
        s.len() == gone.len(),
        forall|i: int| 0 <= i < gone.len() ==> #[trigger] gone[i],
    ensures
        kept_total(s, gone) == 0,
    decreases s.len(),
{
    if s.len() > 0 {
        lemma_kept_none(s.drop_last(), gone.drop_last());
    }
}

proof fn lemma_from_at_most_total(s: Seq<Resident>, e: Resident)
    ensures
        total_from(s, e) <= total(s),
    decreases s.len(),
{
    if s.len() > 0 {
        lemma_from_at_most_total(s.drop_last(), e);
    }
}

proof fn lemma_filter_keeps_all(s: Seq<Resident>, p: spec_fn(Resident) -> bool)
    requires
        forall|i: int| 0 <= i < s.len() ==> #[trigger] p(s[i]),
    ensures
        s.filter(p) == s,
    decreases s.len(),
{
    reveal(Seq::filter);
    if s.len() > 0 {
        let t = s.drop_last();
        assert forall|i: int| 0 <= i < t.len() implies #[trigger] p(t[i]) by {
            assert(t[i] == s[i]);
        }
        lemma_filter_keeps_all(t, p);
        assert(p(s[s.len() - 1]));
        assert(t.push(s.last()) =~= s);
    }
}

/// Eviction never drops a tile drawn at the frame it runs for, or later.
pub proof fn law_eviction_spares_tiles_in_use(s: Seq<Resident>, budget: u64, frame: u64, i: int)
    requires
        0 <= i < s.len(),
        s[i].last_used >= frame,
    ensures
        survivors(s, budget, frame).contains(s[i]),
{
    s.filter_lemma(keeps(s, budget, frame));
}

/// A cache within its budget loses nothing to eviction.
pub proof fn law_eviction_within_budget_keeps_all(s: Seq<Resident>, budget: u64, frame: u64)
    requires
        total(s) <= budget,
    ensures
        survivors(s, budget, frame) == s,
{
    let p = keeps(s, budget, frame);
    assert forall|i: int| 0 <= i < s.len() implies #[trigger] p(s[i]) by {
        lemma_from_at_most_total(s, s[i]);
    }
    lemma_filter_keeps_all(s, p);
}

} // verus!
