//! The task ledger and the assignment / fault-timeout policy.
//!
//! The ledger holds one entry per pending map task (keyed by input
//! filename) and one per pending reduce task (keyed by partition
//! ordinal), each with the time it was last assigned.  An entry is
//! removed when its completion is reported and never recreated; an
//! entry whose lease has expired is handed out again.

use vstd::prelude::*;
use crate::task::{ReportArgs, RequestReply, TaskType, strs_view};

verus! {

/// A task assigned at time `t` is presumed in flight until `t + timeout`;
/// from that instant on it is eligible for (re)assignment.  A task never
/// assigned is always eligible.
pub open spec fn task_eligible(last: Option<u64>, now: u64, timeout: u64) -> bool {
    match last {
        Option::None => true,
        Option::Some(t) => now >= t + timeout,
    }
}

/// Index of the first ledger entry with key `k`, or `-1` if none.
pub open spec fn find_key<K>(m: Seq<(K, Option<u64>)>, k: K) -> int
    decreases m.len(),
{
    if m.len() == 0 {
        -1
    } else if m[0].0 == k {
        0
    } else if find_key(m.drop_first(), k) < 0 {
        -1
    } else {
        find_key(m.drop_first(), k) + 1
    }
}

/// The ledger after the completion keyed `k` is reported: the entry is
/// removed if present, and nothing happens otherwise.
pub open spec fn remove_key<K>(m: Seq<(K, Option<u64>)>, k: K) -> Seq<(K, Option<u64>)> {
    if find_key(m, k) < 0 {
        m
    } else {
        m.remove(find_key(m, k))
    }
}

pub open spec fn keys_unique<K>(m: Seq<(K, Option<u64>)>) -> bool {
    forall|i: int, j: int| 0 <= i < j < m.len() ==> m[i].0 != m[j].0
}

pub open spec fn has_key<K>(m: Seq<(K, Option<u64>)>, k: K) -> bool {
    exists|i: int| 0 <= i < m.len() && m[i].0 == k
}

pub proof fn lemma_find_key<K>(m: Seq<(K, Option<u64>)>, k: K)
    ensures
        find_key(m, k) >= 0 ==> find_key(m, k) < m.len() && m[find_key(m, k)].0 == k && (forall|
            j: int,
        | 0 <= j < find_key(m, k) ==> m[j].0 != k),
        find_key(m, k) < 0 ==> (forall|j: int| 0 <= j < m.len() ==> m[j].0 != k),
    decreases m.len(),
{
    if m.len() == 0 {
    } else if m[0].0 == k {
    } else {
        let mt = m.drop_first();
        lemma_find_key(mt, k);
        if find_key(mt, k) < 0 {
            assert forall|j: int| 0 <= j < m.len() implies m[j].0 != k by {
                if j > 0 {
                    assert(mt[j - 1] == m[j]);
                }
            }
        } else {
            let r = find_key(mt, k);
            assert(m[r + 1] == mt[r]);
            assert forall|j: int| 0 <= j < r + 1 implies m[j].0 != k by {
                if j > 0 {
                    assert(mt[j - 1] == m[j]);
                }
            }
        }
    }
}

/// Lease expiry: a task stamped at time `t` becomes eligible for
/// reassignment at any instant at or after `t + timeout`, and at no
/// instant strictly before.
pub proof fn lemma_lease_expiry(t: u64, now: u64, timeout: u64)
    ensures
        task_eligible(Some(t), now, timeout) <==> now >= t + timeout,
        !task_eligible(Some(t), now, timeout) <==> now < t + timeout,
{
}

/// Idempotence of reporting: removing the same key twice leaves the
/// ledger exactly as removing it once does.
pub proof fn lemma_remove_key_idempotent<K>(m: Seq<(K, Option<u64>)>, k: K)
    requires
        keys_unique(m),
    ensures
        remove_key(remove_key(m, k), k) == remove_key(m, k),
{
    lemma_find_key(m, k);
    if find_key(m, k) >= 0 {
        let i = find_key(m, k);
        let m2 = m.remove(i);
        m.remove_ensures(i);
        assert forall|j: int| 0 <= j < m2.len() implies m2[j].0 != k by {
            if j < i {
                assert(m2[j] == m[j]);
            } else {
                assert(m2[j] == m[j + 1]);
                assert(m[i].0 == k);
            }
        }
        lemma_find_key(m2, k);
        if find_key(m2, k) >= 0 {
            assert(m2[find_key(m2, k)].0 == k);
        }
    }
}

/// Removal keeps the keys of a ledger distinct.
pub proof fn lemma_remove_key_unique<K>(m: Seq<(K, Option<u64>)>, k: K)
    requires
        keys_unique(m),
    ensures
        keys_unique(remove_key(m, k)),
        remove_key(m, k).len() <= m.len(),
        !has_key(remove_key(m, k), k),
        forall|k2: K| k2 != k ==> (has_key(remove_key(m, k), k2) <==> has_key(m, k2)),
{
    lemma_find_key(m, k);
    if find_key(m, k) >= 0 {
        let i = find_key(m, k);
        let m2 = m.remove(i);
        m.remove_ensures(i);
        assert(forall|j: int|
            0 <= j < m2.len() ==> m2[j] == (if j < i {
                m[j]
            } else {
                m[j + 1]
            }));
        assert forall|k2: K| k2 != k && has_key(m, k2) implies has_key(m2, k2) by {
            let j = choose|j: int| 0 <= j < m.len() && m[j].0 == k2;
            if j < i {
                assert(m2[j].0 == k2);
            } else {
                assert(j != i);
                assert(m2[j - 1].0 == k2);
            }
        }
        assert forall|j: int| 0 <= j < m2.len() implies m2[j].0 != k by {
            if j >= i {
                assert(m2[j] == m[j + 1]);
            }
        }
    } else {
        assert forall|j: int| 0 <= j < m.len() implies m[j].0 != k by {}
    }
}

struct MapEntry {
    file: String,
    last: Option<u64>,
}

struct ReduceEntry {
    ord: usize,
    last: Option<u64>,
}

fn find_map_index(v: &Vec<MapEntry>, f: &String) -> (r: Option<usize>)
    ensures
        r matches Some(i) ==> i < v@.len() && v@[i as int].file@ == f@ && (forall|j: int|
            0 <= j < i ==> v@[j].file@ != f@),
        r is None ==> (forall|q: int| 0 <= q < v@.len() ==> v@[q].file@ != f@),
{
    let mut j: usize = 0;
    while j < v.len()
        invariant
            j <= v@.len(),
            forall|q: int| 0 <= q < j ==> v@[q].file@ != f@,
        decreases v@.len() - j,
    {
        if v[j].file == *f {
            return Some(j);
        }
        j = j + 1;
    }
    None
}

fn find_reduce_index(v: &Vec<ReduceEntry>, id: usize) -> (r: Option<usize>)
    ensures
        r matches Some(i) ==> i < v@.len() && v@[i as int].ord == id && (forall|j: int|
            0 <= j < i ==> v@[j].ord != id),
        r is None ==> (forall|q: int| 0 <= q < v@.len() ==> v@[q].ord != id),
{
    let mut j: usize = 0;
    while j < v.len()
        invariant
            j <= v@.len(),
            forall|q: int| 0 <= q < j ==> v@[q].ord != id,
        decreases v@.len() - j,
    {
        if v[j].ord == id {
            return Some(j);
        }
        j = j + 1;
    }
    None
}

fn contains_file(v: &Vec<MapEntry>, f: &String) -> (r: bool)
    ensures
        r == (exists|q: int| 0 <= q < v@.len() && v@[q].file@ == f@),
{
    let mut j: usize = 0;
    while j < v.len()
        invariant
            j <= v@.len(),
            forall|q: int| 0 <= q < j ==> v@[q].file@ != f@,
        decreases v@.len() - j,
    {
        if v[j].file == *f {
            return true;
        }
        j = j + 1;
    }
    false
}

/// The coordinator's whole mutable state: the two task ledgers, the
/// per-partition index of intermediate files, the assignment counter
/// and the configured reduce count and lease timeout.
pub struct Coordinator {
    map_tasks: Vec<MapEntry>,
    reduce_tasks: Vec<ReduceEntry>,
    n_worker: usize,
    n_reduce: usize,
    timeout: u64,
    intermediates: Vec<Vec<String>>,
}

impl Coordinator {
    /// The map ledger: one (filename, last-assigned) pair per pending map task.
    pub closed spec fn map_view(self) -> Seq<(Seq<char>, Option<u64>)> {
        self.map_tasks@.map_values(|e: MapEntry| (e.file@, e.last))
    }

    /// The reduce ledger: one (ordinal, last-assigned) pair per pending reduce task.
    pub closed spec fn reduce_view(self) -> Seq<(int, Option<u64>)> {
        self.reduce_tasks@.map_values(|e: ReduceEntry| (e.ord as int, e.last))
    }

    /// The intermediate-file index: for each partition, the filenames
    /// contributed by completed map tasks, in arrival order.
    pub closed spec fn inter_view(self) -> Seq<Seq<Seq<char>>> {
        self.intermediates@.map_values(|v: Vec<String>| strs_view(v@))
    }

    pub closed spec fn spec_n_reduce(self) -> int {
        self.n_reduce as int
    }

    pub closed spec fn spec_timeout(self) -> u64 {
        self.timeout
    }

    pub closed spec fn spec_n_worker(self) -> int {
        self.n_worker as int
    }

    /// The run is finished exactly when both ledgers have drained; a
    /// task absent from its ledger is permanently done, so this can
    /// never become false again.
    pub open spec fn spec_done(self) -> bool {
        self.map_view().len() == 0 && self.reduce_view().len() == 0
    }

    pub open spec fn wf(self) -> bool {
        &&& keys_unique(self.map_view())
        &&& keys_unique(self.reduce_view())
        &&& (forall|i: int|
            0 <= i < self.reduce_view().len() ==> 0 <= #[trigger] self.reduce_view()[i].0
                < self.spec_n_reduce())
        &&& self.inter_view().len() == self.spec_n_reduce()
    }

    /// Builds the ledger for a fresh run: one never-assigned map task
    /// per distinct input file, one never-assigned reduce task per
    /// partition, and an empty intermediate index.
    pub fn new(timeout: u64, n_reduce: usize, files: Vec<String>) -> (r: Self)
        ensures
            r.wf(),
            r.spec_timeout() == timeout,
            r.spec_n_reduce() == n_reduce,
            r.spec_n_worker() == 0,
            forall|k: Seq<char>| #[trigger]
                has_key(r.map_view(), k) <==> strs_view(files@).contains(k),
            forall|i: int| 0 <= i < r.map_view().len() ==> r.map_view()[i].1 is None,
            r.reduce_view().len() == n_reduce,
            forall|i: int|
                0 <= i < n_reduce ==> r.reduce_view()[i] == (i as int, Option::<u64>::None),
            forall|i: int| 0 <= i < n_reduce ==> r.inter_view()[i] == Seq::<Seq<char>>::empty(),
    {
        let mut c = Coordinator {
            map_tasks: Vec::new(),
            reduce_tasks: Vec::new(),
            n_worker: 0,
            n_reduce,
            timeout,
            intermediates: Vec::new(),
        };
        let mut i: usize = 0;
        while i < files.len()
            invariant
                i <= files@.len(),
                keys_unique(c.map_view()),
                forall|j: int| 0 <= j < c.map_view().len() ==> c.map_view()[j].1 is None,
                forall|k: Seq<char>| #[trigger]
                    has_key(c.map_view(), k) <==> strs_view(files@.subrange(0, i as int)).contains(
                        k,
                    ),
                c.reduce_tasks@.len() == 0,
                c.intermediates@.len() == 0,
                c.n_worker == 0,
                c.n_reduce == n_reduce,
                c.timeout == timeout,
            decreases files@.len() - i,
        {
            let ghost prev = c.map_view();
            let ghost sub_i = strs_view(files@.subrange(0, i as int));
            let ghost sub_i1 = strs_view(files@.subrange(0, i as int + 1));
            let f = &files[i];
            let seen = contains_file(&c.map_tasks, f);
            if !seen {
                c.map_tasks.push(MapEntry { file: f.clone(), last: None });
                proof {
                    assert(c.map_view() =~= prev.push((f@, Option::<u64>::None)));
                }
            }
            proof {
                assert(sub_i1 =~= sub_i.push(files@[i as int]@));
                assert forall|k: Seq<char>| #[trigger] has_key(c.map_view(), k) implies sub_i1.contains(
                    k,
                ) by {
                    let q = choose|q: int| 0 <= q < c.map_view().len() && c.map_view()[q].0 == k;
                    if q < prev.len() {
                        assert(prev[q].0 == k);
                        assert(has_key(prev, k));
                        assert(sub_i.contains(k));
                        let w = choose|w: int| 0 <= w < sub_i.len() && sub_i[w] == k;
                        assert(sub_i1[w] == k);
                    } else {
                        assert(c.map_view()[q] == (f@, Option::<u64>::None));
                        assert(sub_i1[i as int] == k);
                    }
                }
                assert forall|k: Seq<char>| sub_i1.contains(k) implies #[trigger] has_key(
                    c.map_view(),
                    k,
                ) by {
                    let w = choose|w: int| 0 <= w < sub_i1.len() && sub_i1[w] == k;
                    if w < i {
                        assert(sub_i[w] == k);
                        assert(sub_i.contains(k));
                        assert(has_key(prev, k));
                        let q = choose|q: int| 0 <= q < prev.len() && prev[q].0 == k;
                        assert(c.map_view()[q].0 == k);
                    } else {
                        assert(k == f@);
                        if seen {
                            let q = choose|q: int|
                                0 <= q < c.map_tasks@.len() && c.map_tasks@[q].file@ == f@;
                            assert(c.map_view()[q].0 == k);
                        } else {
                            assert(c.map_view()[prev.len() as int].0 == k);
                        }
                    }
                }
            }
            i = i + 1;
        }
        proof {
            assert(files@.subrange(0, files@.len() as int) =~= files@);
        }
        let mut o: usize = 0;
        while o < n_reduce
            invariant
                o <= n_reduce,
                c.reduce_tasks@.len() == o,
                forall|t: int|
                    0 <= t < o ==> c.reduce_view()[t] == (t as int, Option::<u64>::None),
                c.intermediates@.len() == o,
                forall|t: int| 0 <= t < o ==> c.inter_view()[t] == Seq::<Seq<char>>::empty(),
                keys_unique(c.map_view()),
                forall|j: int| 0 <= j < c.map_view().len() ==> c.map_view()[j].1 is None,
                forall|k: Seq<char>| #[trigger]
                    has_key(c.map_view(), k) <==> strs_view(files@).contains(k),
                c.n_worker == 0,
                c.n_reduce == n_reduce,
                c.timeout == timeout,
            decreases n_reduce - o,
        {
            let ghost prev_rv = c.reduce_view();
            let ghost prev_iv = c.inter_view();
            c.reduce_tasks.push(ReduceEntry { ord: o, last: None });
            c.intermediates.push(Vec::new());
            proof {
                assert(c.reduce_view() =~= prev_rv.push((o as int, Option::<u64>::None)));
                assert(strs_view(Seq::<String>::empty()) =~= Seq::<Seq<char>>::empty());
                assert(c.inter_view() =~= prev_iv.push(Seq::<Seq<char>>::empty()));
            }
            o = o + 1;
        }
        c
    }

    /// How many task assignments have been handed out: the source of
    /// the distinct ordinals given to workers.
    pub fn workers_assigned(&self) -> (r: usize)
        ensures
            r as int == self.spec_n_worker(),
    {
        self.n_worker
    }

    /// True when no map task and no reduce task remains.
    pub fn done(&self) -> (r: bool)
        ensures
            r == self.spec_done(),
    {
        self.map_tasks.len() == 0 && self.reduce_tasks.len() == 0
    }

    /// Scans the map ledger for a task whose lease has expired; stamps
    /// it with `now` and returns its filename, or returns nothing if
    /// every pending map task is still presumed in flight.
    pub fn next_map_task(&mut self, now: u64) -> (r: Option<String>)
        requires
            old(self).wf(),
        ensures
            final(self).wf(),
            final(self).reduce_view() == old(self).reduce_view(),
            final(self).inter_view() == old(self).inter_view(),
            final(self).spec_n_reduce() == old(self).spec_n_reduce(),
            final(self).spec_timeout() == old(self).spec_timeout(),
            final(self).spec_n_worker() == old(self).spec_n_worker(),
            final(self).map_view().len() == old(self).map_view().len(),
            r matches Some(f) ==> exists|i: int|
                0 <= i < old(self).map_view().len() && old(self).map_view()[i].0 == f@
                    && task_eligible(
                    old(self).map_view()[i].1,
                    now,
                    old(self).spec_timeout(),
                ) && final(self).map_view() == old(self).map_view().update(i, (f@, Some(now))),
            r is None ==> *final(self) == *old(self) && (forall|i: int|
                0 <= i < old(self).map_view().len() ==> !task_eligible(
                    old(self).map_view()[i].1,
                    now,
                    old(self).spec_timeout(),
                )),
    {
        let mut i: usize = 0;
        while i < self.map_tasks.len()
            invariant
                *self == *old(self),
                self.wf(),
                i <= self.map_tasks@.len(),
                forall|j: int|
                    0 <= j < i ==> !task_eligible(
                        self.map_view()[j].1,
                        now,
                        self.spec_timeout(),
                    ),
            decreases self.map_tasks@.len() - i,
        {
            let eligible: bool = match self.map_tasks[i].last {
                None => true,
                Some(t) => now >= t && now - t >= self.timeout,
            };
            if eligible {
                let f = self.map_tasks[i].file.clone();
                self.map_tasks[i].last = Some(now);
                proof {
                    assert(self.map_view() =~= old(self).map_view().update(
                        i as int,
                        (f@, Some(now)),
                    ));
                    assert(forall|q: int|
                        0 <= q < self.map_view().len() ==> #[trigger] self.map_view()[q].0 == old(
                            self,
                        ).map_view()[q].0);
                }
                return Some(f);
            }
            i = i + 1;
        }
        None
    }

    /// The reduce-ledger counterpart of `next_map_task`: stamps and
    /// returns the ordinal of a reduce task whose lease has expired.
    pub fn next_reduce_task(&mut self, now: u64) -> (r: Option<usize>)
        requires
            old(self).wf(),
        ensures
            final(self).wf(),
            final(self).map_view() == old(self).map_view(),
            final(self).inter_view() == old(self).inter_view(),
            final(self).spec_n_reduce() == old(self).spec_n_reduce(),
            final(self).spec_timeout() == old(self).spec_timeout(),
            final(self).spec_n_worker() == old(self).spec_n_worker(),
            final(self).reduce_view().len() == old(self).reduce_view().len(),
            r matches Some(o) ==> o < old(self).spec_n_reduce() && exists|i: int|
                0 <= i < old(self).reduce_view().len() && old(self).reduce_view()[i].0 == o as int
                    && task_eligible(
                    old(self).reduce_view()[i].1,
                    now,
                    old(self).spec_timeout(),
                ) && final(self).reduce_view() == old(self).reduce_view().update(
                    i,
                    (o as int, Some(now)),
                ),
            r is None ==> *final(self) == *old(self) && (forall|i: int|
                0 <= i < old(self).reduce_view().len() ==> !task_eligible(
                    old(self).reduce_view()[i].1,
                    now,
                    old(self).spec_timeout(),
                )),
    {
        let mut i: usize = 0;
        while i < self.reduce_tasks.len()
            invariant
                *self == *old(self),
                self.wf(),
                i <= self.reduce_tasks@.len(),
                forall|j: int|
                    0 <= j < i ==> !task_eligible(
                        self.reduce_view()[j].1,
                        now,
                        self.spec_timeout(),
                    ),
            decreases self.reduce_tasks@.len() - i,
        {
            let eligible: bool = match self.reduce_tasks[i].last {
                None => true,
                Some(t) => now >= t && now - t >= self.timeout,
            };
            if eligible {
                let o = self.reduce_tasks[i].ord;
                self.reduce_tasks[i].last = Some(now);
                proof {
                    assert(old(self).reduce_view()[i as int].0 == o as int);
                    assert(self.reduce_view() =~= old(self).reduce_view().update(
                        i as int,
                        (o as int, Some(now)),
                    ));
                    assert(forall|q: int|
                        0 <= q < self.reduce_view().len() ==> #[trigger] self.reduce_view()[q].0
                            == old(self).reduce_view()[q].0);
                }
                return Some(o);
            }
            i = i + 1;
        }
        None
    }

    /// Assigns work in strict priority order: an eligible map task
    /// first; an eligible reduce task only once the map ledger has
    /// fully drained; otherwise no task, with the `done` flag set.
    pub fn request_task(&mut self, now: u64) -> (r: RequestReply)
        requires
            old(self).wf(),
            old(self).spec_n_worker() < usize::MAX,
        ensures
            final(self).wf(),
            final(self).spec_n_reduce() == old(self).spec_n_reduce(),
            final(self).spec_timeout() == old(self).spec_timeout(),
            final(self).inter_view() == old(self).inter_view(),
            final(self).map_view().len() == old(self).map_view().len(),
            final(self).reduce_view().len() == old(self).reduce_view().len(),
            r.n_reduce == old(self).spec_n_reduce(),
            r.kind == TaskType::ReduceTask ==> old(self).map_view().len() == 0,
            r.kind == TaskType::MapTask ==> ({
                &&& r.done == false
                &&& r.task_no == old(self).spec_n_worker() + 1
                &&& final(self).spec_n_worker() == old(self).spec_n_worker() + 1
                &&& final(self).reduce_view() == old(self).reduce_view()
                &&& exists|i: int|
                    0 <= i < old(self).map_view().len() && old(self).map_view()[i].0 == r.filename@
                        && task_eligible(old(self).map_view()[i].1, now, old(self).spec_timeout())
                        && final(self).map_view() == old(self).map_view().update(
                        i,
                        (r.filename@, Some(now)),
                    )
            }),
            r.kind == TaskType::ReduceTask ==> ({
                &&& final(self).map_view() == old(self).map_view()
                &&& final(self).spec_n_worker() == old(self).spec_n_worker()
                &&& r.task_no < old(self).spec_n_reduce()
                &&& strs_view(r.intermediates@) == old(self).inter_view()[r.task_no as int]
                &&& r.done == final(self).spec_done()
                &&& exists|i: int|
                    0 <= i < old(self).reduce_view().len() && old(self).reduce_view()[i].0
                        == r.task_no as int && task_eligible(
                        old(self).reduce_view()[i].1,
                        now,
                        old(self).spec_timeout(),
                    ) && final(self).reduce_view() == old(self).reduce_view().update(
                        i,
                        (r.task_no as int, Some(now)),
                    )
            }),
            r.kind == TaskType::NoTask ==> ({
                &&& *final(self) == *old(self)
                &&& r.done == old(self).spec_done()
                &&& (forall|i: int|
                    0 <= i < old(self).map_view().len() ==> !task_eligible(
                        old(self).map_view()[i].1,
                        now,
                        old(self).spec_timeout(),
                    ))
                &&& (old(self).map_view().len() > 0 || (forall|i: int|
                    0 <= i < old(self).reduce_view().len() ==> !task_eligible(
                        old(self).reduce_view()[i].1,
                        now,
                        old(self).spec_timeout(),
                    )))
            }),
            old(self).spec_done() ==> final(self).spec_done() && r.kind == TaskType::NoTask,
    {
        let m = self.next_map_task(now);
        match m {
            Some(f) => {
                self.n_worker = self.n_worker + 1;
                let n_reduce = self.n_reduce;
                let task_no = self.n_worker;
                return RequestReply {
                    kind: TaskType::MapTask,
                    filename: f,
                    task_no,
                    n_reduce,
                    intermediates: Vec::new(),
                    done: false,
                };
            },
            None => {},
        }
        if self.map_tasks.len() == 0 {
            let rt = self.next_reduce_task(now);
            match rt {
                Some(o) => {
                    let inter = self.intermediates[o].clone();
                    proof {
                        assert(strs_view(inter@) =~= self.inter_view()[o as int]);
                    }
                    let d = self.done();
                    let n_reduce = self.n_reduce;
                    return RequestReply {
                        kind: TaskType::ReduceTask,
                        filename: String::new(),
                        task_no: o,
                        n_reduce,
                        intermediates: inter,
                        done: d,
                    };
                },
                None => {},
            }
        }
        let d = self.done();
        let n_reduce = self.n_reduce;
        RequestReply {
            kind: TaskType::NoTask,
            filename: String::new(),
            task_no: 0,
            n_reduce,
            intermediates: Vec::new(),
            done: d,
        }
    }

    /// Records a completion report.  A map completion removes its
    /// filename from the map ledger and appends each produced
    /// intermediate file to its partition's index entry; a reduce
    /// completion removes its ordinal from the reduce ledger.  Either
    /// removal is a no-op when the entry is already gone, so duplicate
    /// reports from reassigned stragglers are accepted unchanged.
    pub fn report_task(&mut self, args: ReportArgs)
        requires
            old(self).wf(),
        ensures
            final(self).wf(),
            final(self).spec_n_reduce() == old(self).spec_n_reduce(),
            final(self).spec_timeout() == old(self).spec_timeout(),
            final(self).spec_n_worker() == old(self).spec_n_worker(),
            final(self).inter_view().len() == old(self).inter_view().len(),
            args matches ReportArgs::MapDone { task, intermediates } ==> ({
                &&& final(self).map_view() == remove_key(old(self).map_view(), task@)
                &&& final(self).reduce_view() == old(self).reduce_view()
                &&& (forall|p: int|
                    0 <= p < final(self).inter_view().len() ==> #[trigger] final(self).inter_view()[p]
                        == (if p < intermediates@.len() {
                        old(self).inter_view()[p].push(intermediates@[p]@)
                    } else {
                        old(self).inter_view()[p]
                    }))
            }),
            args matches ReportArgs::ReduceDone { id } ==> ({
                &&& final(self).reduce_view() == remove_key(old(self).reduce_view(), id as int)
                &&& final(self).map_view() == old(self).map_view()
                &&& final(self).inter_view() == old(self).inter_view()
            }),
            old(self).spec_done() ==> final(self).spec_done(),
    {
        match args {
            ReportArgs::MapDone { task, intermediates } => {
                let ghost m0 = self.map_view();
                proof {
                    lemma_find_key(m0, task@);
                }
                let idx = find_map_index(&self.map_tasks, &task);
                match idx {
                    Some(i) => {
                        proof {
                            assert(m0[i as int].0 == task@);
                            assert(forall|j: int| 0 <= j < i ==> m0[j].0 != task@);
                            assert(find_key(m0, task@) == i as int) by {
                                let fk = find_key(m0, task@);
                                if fk < 0 {
                                    assert(m0[i as int].0 != task@);
                                } else if fk < i as int {
                                    assert(m0[fk].0 == task@);
                                } else if fk > i as int {
                                    assert(m0[i as int].0 != task@);
                                }
                            }
                        }
                        self.map_tasks.remove(i);
                        proof {
                            assert(self.map_view() =~= m0.remove(i as int));
                            lemma_remove_key_unique(m0, task@);
                        }
                    },
                    None => {
                        proof {
                            assert(find_key(m0, task@) < 0) by {
                                if find_key(m0, task@) >= 0 {
                                    assert(m0[find_key(m0, task@)].0 == task@);
                                }
                            }
                        }
                    },
                }
                let ghost base = self.inter_view();
                let mut p: usize = 0;
                while p < intermediates.len() && p < self.n_reduce
                    invariant
                        p <= intermediates@.len(),
                        self.inter_view().len() == base.len(),
                        base.len() == self.spec_n_reduce(),
                        p <= self.spec_n_reduce(),
                        self.map_view() == remove_key(m0, task@),
                        self.reduce_view() == old(self).reduce_view(),
                        self.spec_n_reduce() == old(self).spec_n_reduce(),
                        self.spec_timeout() == old(self).spec_timeout(),
                        self.spec_n_worker() == old(self).spec_n_worker(),
                        keys_unique(self.map_view()),
                        keys_unique(self.reduce_view()),
                        forall|q: int|
                            0 <= q < base.len() ==> #[trigger] self.inter_view()[q] == (if q < p {
                                base[q].push(intermediates@[q]@)
                            } else {
                                base[q]
                            }),
                    decreases intermediates@.len() - p,
                {
                    let ghost before = self.inter_view();
                    let file = intermediates[p].clone();
                    self.intermediates[p].push(file);
                    proof {
                        assert(strs_view(self.intermediates@[p as int]@) =~= before[p as int].push(
                            intermediates@[p as int]@,
                        ));
                        assert(self.inter_view() =~= before.update(
                            p as int,
                            before[p as int].push(intermediates@[p as int]@),
                        ));
                    }
                    p = p + 1;
                }
            },
            ReportArgs::ReduceDone { id } => {
                let ghost m0 = self.reduce_view();
                proof {
                    lemma_find_key(m0, id as int);
                }
                let idx = find_reduce_index(&self.reduce_tasks, id);
                match idx {
                    Some(i) => {
                        proof {
                            assert(m0[i as int].0 == id as int);
                            assert(forall|j: int| 0 <= j < i ==> m0[j].0 != id as int);
                            assert(find_key(m0, id as int) == i as int) by {
                                let fk = find_key(m0, id as int);
                                if fk < 0 {
                                    assert(m0[i as int].0 != id as int);
                                } else if fk < i as int {
                                    assert(m0[fk].0 == id as int);
                                } else if fk > i as int {
                                    assert(m0[i as int].0 != id as int);
                                }
                            }
                        }
                        self.reduce_tasks.remove(i);
                        proof {
                            assert(self.reduce_view() =~= m0.remove(i as int));
                            lemma_remove_key_unique(m0, id as int);
                            assert(forall|q: int|
                                0 <= q < self.reduce_view().len() ==> #[trigger] self.reduce_view()[q]
                                    == (if q < i as int {
                                    m0[q]
                                } else {
                                    m0[q + 1]
                                }));
                        }
                    },
                    None => {
                        proof {
                            assert(find_key(m0, id as int) < 0) by {
                                if find_key(m0, id as int) >= 0 {
                                    assert(m0[find_key(m0, id as int)].0 == id as int);
                                }
                            }
                        }
                    },
                }
            },
        }
    }
}

/// The coordinator wrapped for service by a concurrent RPC server;
/// the surrounding process guards it with one exclusive lock and
/// feeds each operation the current time.
pub struct CoordinatorService {
    pub coordinator: Coordinator,
}

impl CoordinatorService {
    pub fn new(timeout: u64, n_reduce: usize, files: Vec<String>) -> (r: Self)
        ensures
            r.coordinator.wf(),
            r.coordinator.spec_timeout() == timeout,
            r.coordinator.spec_n_reduce() == n_reduce,
            r.coordinator.spec_n_worker() == 0,
            forall|k: Seq<char>| #[trigger]
                has_key(r.coordinator.map_view(), k) <==> strs_view(files@).contains(k),
            forall|i: int|
                0 <= i < r.coordinator.map_view().len() ==> r.coordinator.map_view()[i].1 is None,
            r.coordinator.reduce_view().len() == n_reduce,
            forall|i: int|
                0 <= i < n_reduce ==> r.coordinator.reduce_view()[i] == (
                    i as int,
                    Option::<u64>::None,
                ),
            forall|i: int|
                0 <= i < n_reduce ==> r.coordinator.inter_view()[i] == Seq::<Seq<char>>::empty(),
    {
        CoordinatorService { coordinator: Coordinator::new(timeout, n_reduce, files) }
    }
}

} // verus!
