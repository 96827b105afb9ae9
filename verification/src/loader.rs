//! The request queue of the tile loader: requested tiles wait here until a worker takes the
//! most urgent one. Urgency is the priority, then the tile address.

use vstd::prelude::*;
use vstd::multiset::Multiset;
use crate::tileset::TileKey;

verus! {

broadcast use vstd::seq_lib::group_to_multiset_ensures;

/// A tile to load and how urgent it is.
#[derive(Debug, Clone, Copy, PartialEq, Eq, Structural)]
pub struct Job {
    pub priority: i64,
    pub key: TileKey,
}

/// Tile addresses in `(z, x, y)` order.
pub open spec fn key_lt(a: TileKey, b: TileKey) -> bool {
    a.z < b.z || (a.z == b.z && (a.x < b.x || (a.x == b.x && a.y < b.y)))
}

/// Job `a` is less urgent than job `b`: a lower priority, or the same and a lower address.
pub open spec fn job_lt(a: Job, b: Job) -> bool {
    a.priority < b.priority || (a.priority == b.priority && key_lt(a.key, b.key))
}

/// Whether `a` is less urgent than `b`.
pub fn job_less(a: &Job, b: &Job) -> (r: bool)
    ensures
        r == job_lt(*a, *b),
{
    a.priority < b.priority || (a.priority == b.priority && (a.key.z < b.key.z || (a.key.z == b.key.z
        && (a.key.x < b.key.x || (a.key.x == b.key.x && a.key.y < b.key.y)))))
}

/// The jobs are in order of urgency, least urgent first.
pub open spec fn jobs_ordered(s: Seq<Job>) -> bool {
    forall|i: int, j: int| 0 <= i < j < s.len() ==> !job_lt(#[trigger] s[j], #[trigger] s[i])
}

/// The waiting jobs, least urgent first.
pub struct JobQueue {
    jobs: Vec<Job>,
}

impl View for JobQueue {
    type V = Multiset<Job>;

    closed spec fn view(&self) -> Multiset<Job> {
        self.jobs@.to_multiset()
    }
}

impl JobQueue {
    /// The queue keeps its jobs in order of urgency.
    pub closed spec fn wf(&self) -> bool {
        jobs_ordered(self.jobs@)
    }

    pub fn new() -> (r: JobQueue)
        ensures
            r.wf(),
            r@ == Multiset::<Job>::empty(),
    {
        let r = JobQueue { jobs: Vec::new() };
        proof {
            assert(r.jobs@ =~= Seq::<Job>::empty());
        }
        r
    }

    pub fn len(&self) -> (r: usize)
        requires
            self.wf(),
        ensures
            r == self@.len(),
    {
        self.jobs.len()
    }

    pub fn is_empty(&self) -> (r: bool)
        requires
            self.wf(),
        ensures
            r == (self@.len() == 0),
    {
        self.jobs.len() == 0
    }

    /// Add a job.
    pub fn push(&mut self, job: Job)
        requires
            old(self).wf(),
        ensures
            final(self).wf(),
            final(self)@ == old(self)@.insert(job),
    {
        let ghost before = self.jobs@;
        let mut i: usize = 0;
        while i < self.jobs.len() && !job_less(&job, &self.jobs[i])
            invariant
                i <= self.jobs@.len(),
                self.jobs@ == before,
                jobs_ordered(before),
                forall|j: int| 0 <= j < i ==> !job_lt(job, #[trigger] before[j]),
            decreases self.jobs@.len() - i,
        {
            i = i + 1;
        }
        self.jobs.insert(i, job);
        let ghost after = self.jobs@;
        proof {
            assert(after == before.insert(i as int, job));
            assert forall|a: int, b: int| 0 <= a < b < after.len() implies !job_lt(#[trigger] after[b], #[trigger] after[a]) by {
                if a < i && b == i {
                } else if a < i && b > i {
                    assert(after[b] == before[b - 1]);
                    if a < b - 1 {
                        assert(!job_lt(before[b - 1], before[a]));
                    }
                } else if a == i {
                    assert(after[b] == before[b - 1]);
                    assert(job_lt(job, before[i as int]));
                    if b - 1 > i {
                        assert(!job_lt(before[b - 1], before[i as int]));
                    }
                } else if a > i {
                    assert(after[a] == before[a - 1]);
                    assert(after[b] == before[b - 1]);
                }
            }
            vstd::seq_lib::to_multiset_insert(before, i as int, job);
        }
    }

    /// Take the most urgent job: one that no waiting job is more urgent than.
    pub fn pop(&mut self) -> (r: Option<Job>)
        requires
            old(self).wf(),
        ensures
            final(self).wf(),
            old(self)@.len() == 0 ==> r is None && final(self)@ == old(self)@,
            old(self)@.len() > 0 ==> (r matches Some(j) && old(self)@.count(j) > 0 && final(self)@ == old(self)@.remove(j)
                && forall|o: Job| old(self)@.count(o) > 0 ==> !job_lt(j, o)),
    {
        let ghost before = self.jobs@;
        match self.jobs.pop() {
            None => {
                assert(before.len() == 0);
                None
            },
            Some(j) => {
                proof {
                    assert(before.len() > 0);
                    assert(self.jobs@ == before.remove(before.len() - 1));
                    vstd::seq_lib::to_multiset_remove(before, before.len() - 1);
                    assert forall|o: Job| before.to_multiset().count(o) > 0 implies !job_lt(j, o) by {
                        assert(before.contains(o));
                        let k = choose|k: int| 0 <= k < before.len() && before[k] == o;
                        if k < before.len() - 1 {
                            assert(!job_lt(before[before.len() - 1], before[k]));
                        } else {
                            assert(o == j);
                        }
                    }
                    assert(before.contains(j)) by {
                        assert(before[before.len() - 1] == j);
                    }
                }
                Some(j)
            },
        }
    }
}

/// The loader's bookkeeping: the tiles requested and not yet delivered, and the jobs waiting for
/// a worker. A tile is requested at most once until its load is delivered.
pub struct TileLoader {
    queue: JobQueue,
    inflight: Vec<TileKey>,
}

impl TileLoader {
    /// The tiles in flight: requested, and not yet delivered.
    pub closed spec fn in_flight_set(&self) -> Set<TileKey> {
        self.inflight@.to_set()
    }

    /// The jobs waiting for a worker.
    pub closed spec fn queued(&self) -> Multiset<Job> {
        self.queue@
    }

    pub closed spec fn wf(&self) -> bool {
        &&& self.queue.wf()
        &&& self.inflight@.no_duplicates()
    }

    pub fn new() -> (r: TileLoader)
        ensures
            r.wf(),
            r.in_flight_set() == Set::<TileKey>::empty(),
            r.queued() == Multiset::<Job>::empty(),
    {
        let r = TileLoader { queue: JobQueue::new(), inflight: Vec::new() };
        assert(r.inflight@.to_set() =~= Set::<TileKey>::empty());
        r
    }

    fn position(&self, key: TileKey) -> (r: Option<usize>)
        ensures
            r matches Some(i) ==> i < self.inflight@.len() && self.inflight@[i as int] == key,
            r is None ==> !self.inflight@.contains(key),
    {
        let mut i: usize = 0;
        while i < self.inflight.len()
            invariant
                i <= self.inflight@.len(),
                forall|j: int| 0 <= j < i ==> self.inflight@[j] != key,
            decreases self.inflight@.len() - i,
        {
            if self.inflight[i] == key {
                return Some(i);
            }
            i = i + 1;
        }
        None
    }

    /// Whether the tile at `key` has been requested and not yet delivered.
    pub fn in_flight(&self, key: TileKey) -> (r: bool)
        ensures
            r == self.in_flight_set().contains(key),
    {
        self.position(key).is_some()
    }

    /// Queue the tile at `key` for loading, unless it is already in flight. Higher `priority`
    /// loads sooner.
    pub fn request(&mut self, key: TileKey, priority: i64)
        requires
            old(self).wf(),
        ensures
            final(self).wf(),
            old(self).in_flight_set().contains(key) ==> final(self).in_flight_set() == old(self).in_flight_set()
                && final(self).queued() == old(self).queued(),
            !old(self).in_flight_set().contains(key) ==> final(self).in_flight_set() == old(self).in_flight_set().insert(key)
                && final(self).queued() == old(self).queued().insert(Job { priority, key }),
    {
        if self.position(key).is_some() {
            return;
        }
        let ghost before = self.inflight@;
        self.inflight.push(key);
        proof {
            assert(self.inflight@.to_set() =~= before.to_set().insert(key)) by {
                assert forall|k: TileKey| #[trigger] self.inflight@.contains(k) <==> before.contains(k) || k == key by {
                    if self.inflight@.contains(k) && k != key {
                        let j = choose|j: int| 0 <= j < self.inflight@.len() && self.inflight@[j] == k;
                        assert(before[j] == k);
                    }
                    if before.contains(k) {
                        let j = choose|j: int| 0 <= j < before.len() && before[j] == k;
                        assert(self.inflight@[j] == k);
                    }
                    if k == key {
                        assert(self.inflight@[before.len() as int] == key);
                    }
                }
            }
            assert forall|a: int, b: int| 0 <= a < b < self.inflight@.len() implies self.inflight@[a] != self.inflight@[b] by {
                if b == before.len() {
                    assert(before[a] == self.inflight@[a]);
                }
            }
        }
        self.queue.push(Job { priority, key });
    }

    /// The most urgent waiting job, taken off the queue; the tile stays in flight until it is
    /// delivered.
    pub fn next(&mut self) -> (r: Option<Job>)
        requires
            old(self).wf(),
        ensures
            final(self).wf(),
            final(self).in_flight_set() == old(self).in_flight_set(),
            old(self).queued().len() == 0 ==> r is None && final(self).queued() == old(self).queued(),
            old(self).queued().len() > 0 ==> (r matches Some(j) && old(self).queued().count(j) > 0
                && final(self).queued() == old(self).queued().remove(j)
                && forall|o: Job| old(self).queued().count(o) > 0 ==> !job_lt(j, o)),
    {
        self.queue.pop()
    }

    /// Record that the load of the tile at `key` was delivered, whether it succeeded or not, so
    /// the tile can be requested again.
    pub fn finish(&mut self, key: TileKey)
        requires
            old(self).wf(),
        ensures
            final(self).wf(),
            final(self).in_flight_set() == old(self).in_flight_set().remove(key),
            final(self).queued() == old(self).queued(),
    {
        let ghost before = self.inflight@;
        if let Some(i) = self.position(key) {
            self.inflight.remove(i);
            proof {
                let after = self.inflight@;
                assert(after == before.remove(i as int));
                assert forall|a: int, b: int| 0 <= a < b < after.len() implies after[a] != after[b] by {
                    let a2 = if a < i { a } else { a + 1 };
                    let b2 = if b < i { b } else { b + 1 };
                    assert(after[a] == before[a2] && after[b] == before[b2]);
                }
                assert(after.to_set() =~= before.to_set().remove(key)) by {
                    assert forall|k: TileKey| #[trigger] after.contains(k) <==> before.contains(k) && k != key by {
                        if after.contains(k) {
                            let j = choose|j: int| 0 <= j < after.len() && after[j] == k;
                            let j2 = if j < i { j } else { j + 1 };
                            assert(before[j2] == k);
                            assert(j2 != i);
                        }
                        if before.contains(k) && k != key {
                            let j = choose|j: int| 0 <= j < before.len() && before[j] == k;
                            assert(j != i);
                            let j2 = if j < i { j } else { j - 1 };
                            assert(after[j2] == k);
                        }
                    }
                }
            }
        } else {
            assert(before.to_set() =~= before.to_set().remove(key));
        }
    }
}

} // verus!
