use vstd::prelude::*;
use crate::profile::{no_dups, ProfileBuilder, copy_addrs};

verus! {

/// What is kept of one thread between samples.
pub struct ThreadState {
    pub tid: u32,
    pub samples_taken: u64,
    pub last_stack: Vec<u64>,
}

/// One process being sampled: its task and process ids, the threads seen
/// at the latest sample, how many samples were begun, and its profile.
pub struct TaskProfiler {
    pub task: u32,
    pub pid: u32,
    pub threads: Vec<ThreadState>,
    pub ticks: u64,
    pub profile: ProfileBuilder,
}

/// One more, unless already at the largest `u64`.
pub open spec fn bump(n: u64) -> u64 {
    if n < u64::MAX { (n + 1) as u64 } else { n }
}

/// The ids of a list of thread states.
pub open spec fn ids_of(s: Seq<ThreadState>) -> Seq<u32> {
    s.map_values(|t: ThreadState| t.tid)
}

/// `t` is what `old` knew of thread `t.tid`, or a fresh state when `old`
/// did not know that thread.
pub open spec fn carried(old: TaskProfiler, t: ThreadState) -> bool {
    if old.has_thread(t.tid) {
        exists|j: int|
            0 <= j < old.threads@.len() && (#[trigger] old.threads@[j]).tid == t.tid && old.threads@[j].samples_taken
                == t.samples_taken && old.threads@[j].last_stack@ == t.last_stack@
    } else {
        t.samples_taken == 0 && t.last_stack@.len() == 0
    }
}

/// The position of thread `tid` in `threads`.
pub fn position_of(threads: &Vec<ThreadState>, tid: u32) -> (r: Option<usize>)
    ensures
        r.is_none() <==> !ids_of(threads@).contains(tid),
        r.is_some() ==> r.unwrap() < threads@.len() && threads@[r.unwrap() as int].tid == tid,
{
    let mut i: usize = 0;
    while i < threads.len()
        invariant
            i <= threads@.len(),
            forall|k: int| 0 <= k < i ==> ids_of(threads@)[k] != tid,
        decreases threads@.len() - i,
    {
        if threads[i].tid == tid {
            proof {
                assert(ids_of(threads@)[i as int] == tid);
            }
            return Some(i);
        }
        i = i + 1;
    }
    None
}

impl TaskProfiler {
    /// The ids of the known threads.
    pub open spec fn tids(&self) -> Seq<u32> {
        ids_of(self.threads@)
    }

    pub open spec fn has_thread(&self, tid: u32) -> bool {
        self.tids().contains(tid)
    }

    /// The profile is well formed and no thread is known twice.
    pub open spec fn wf(&self) -> bool {
        &&& self.profile.wf()
        &&& no_dups(self.tids())
    }

    /// What holds after `begin_sample(live)` turned `old` into `new`: the
    /// known threads are exactly those of `live`; one already known keeps
    /// its state, one seen for the first time starts from nothing.
    pub open spec fn begun(old: TaskProfiler, live: Seq<u32>, new: TaskProfiler) -> bool {
        &&& new.wf()
        &&& new.task == old.task
        &&& new.pid == old.pid
        &&& new.ticks == bump(old.ticks)
        &&& new.profile == old.profile
        &&& forall|tid: u32| new.has_thread(tid) <==> live.contains(tid)
        &&& forall|k: int| 0 <= k < new.threads@.len() ==> carried(old, #[trigger] new.threads@[k])
    }

    /// What holds after `record_thread(tid, timestamp, addrs)` turned `old`
    /// into `new` and answered `accepted`. A thread that is not known records
    /// nothing; a known one adds the sample to the profile, unless it comes
    /// before that thread's latest one. No other thread's samples change.
    pub open spec fn recorded_thread(
        old: TaskProfiler,
        tid: u32,
        timestamp: u64,
        addrs: Seq<u64>,
        accepted: bool,
        new: TaskProfiler,
    ) -> bool {
        let r = old.profile.recorded(tid);
        &&& new.wf()
        &&& new.task == old.task
        &&& new.pid == old.pid
        &&& new.ticks == old.ticks
        &&& new.tids() == old.tids()
        &&& accepted == (old.has_thread(tid) && (r.len() == 0 || r.last().0 <= timestamp))
        &&& accepted ==> new.profile.recorded(tid) == r.push((timestamp, addrs))
        &&& !accepted ==> new.profile.recorded(tid) == r
        &&& forall|o: u32| o != tid ==> new.profile.recorded(o) == old.profile.recorded(o)
        &&& forall|k: int| 0 <= k < new.threads@.len() && (#[trigger] new.threads@[k]).tid != tid ==> new.threads@[k] == old.threads@[k]
        &&& forall|k: int| 0 <= k < new.threads@.len() && (#[trigger] new.threads@[k]).tid == tid ==> {
            &&& accepted ==> new.threads@[k].samples_taken == bump(old.threads@[k].samples_taken)
            &&& accepted ==> new.threads@[k].last_stack@ == addrs
            &&& !accepted ==> new.threads@[k] == old.threads@[k]
        }
    }

    /// A profiler for the process `pid` with task handle `task`, whose profile
    /// names `command_name`, `start_time` and the sampling `interval`.
    pub fn new(task: u32, pid: u32, start_time: u64, command_name: String, interval: u64) -> (r: TaskProfiler)
        ensures
            r.wf(),
            r.task == task,
            r.pid == pid,
            r.ticks == 0,
            r.threads@.len() == 0,
            r.profile.command_name@ == command_name@,
            r.profile.start_time == start_time,
            r.profile.interval == interval,
            forall|tid: u32| r.profile.recorded(tid).len() == 0,
    {
        let profile = ProfileBuilder::new(command_name, start_time, interval);
        let r = TaskProfiler { task, pid, threads: Vec::new(), ticks: 0, profile };
        proof {
            assert(r.tids() =~= Seq::<u32>::empty());
        }
        r
    }

    /// The position of thread `tid` among the known threads.
    pub fn find_thread(&self, tid: u32) -> (r: Option<usize>)
        ensures
            r.is_none() <==> !self.has_thread(tid),
            r.is_some() ==> r.unwrap() < self.threads@.len() && self.threads@[r.unwrap() as int].tid == tid,
    {
        position_of(&self.threads, tid)
    }

    /// Starts a sample: `live` lists the threads that the task holds now.
    /// Threads not seen before are added, threads that are gone are dropped.
    pub fn begin_sample(&mut self, live: &Vec<u32>)
        requires
            old(self).wf(),
        ensures
            TaskProfiler::begun(*old(self), live@, *final(self)),
    {
        let mut next: Vec<ThreadState> = Vec::new();
        let mut i: usize = 0;
        while i < live.len()
            invariant
                i <= live@.len(),
                *self == *old(self),
                no_dups(ids_of(next@)),
                forall|tid: u32| ids_of(next@).contains(tid) <==> live@.subrange(0, i as int).contains(tid),
                forall|k: int| 0 <= k < next@.len() ==> carried(*old(self), #[trigger] next@[k]),
            decreases live@.len() - i,
        {
            let tid = live[i];
            let ghost before = next@;
            let ghost sub0 = live@.subrange(0, i as int);
            let ghost sub1 = live@.subrange(0, i + 1);
            proof {
                assert(sub1 =~= sub0.push(tid));
            }
            if position_of(&next, tid).is_none() {
                let st = match self.find_thread(tid) {
                    Some(j) => {
                        let st = ThreadState {
                            tid,
                            samples_taken: self.threads[j].samples_taken,
                            last_stack: copy_addrs(&self.threads[j].last_stack),
                        };
                        proof {
                            assert(old(self).threads@[j as int].tid == tid);
                        }
                        st
                    },
                    None => ThreadState { tid, samples_taken: 0, last_stack: Vec::new() },
                };
                next.push(st);
                proof {
                    assert(ids_of(next@) =~= ids_of(before).push(tid));
                    let ids = ids_of(next@);
                    assert forall|a: int, b: int| 0 <= a < ids.len() && 0 <= b < ids.len() && ids[a] == ids[b] implies a == b by {
                        if a < before.len() && b < before.len() {
                            assert(ids_of(before)[a] == ids_of(before)[b]);
                        } else if a < before.len() {
                            assert(ids_of(before).contains(ids[a]));
                        } else if b < before.len() {
                            assert(ids_of(before).contains(ids[b]));
                        }
                    }
                    assert forall|t: u32| ids_of(next@).contains(t) <==> sub1.contains(t) by {
                        if ids_of(next@).contains(t) {
                            if t != tid {
                                let q = choose|q: int| 0 <= q < ids.len() && ids[q] == t;
                                assert(ids_of(before)[q] == t);
                                assert(ids_of(before).contains(t));
                                assert(sub0.contains(t));
                                let q2 = choose|q2: int| 0 <= q2 < sub0.len() && sub0[q2] == t;
                                assert(sub1[q2] == t);
                            } else {
                                assert(sub1[i as int] == tid);
                            }
                        }
                        if sub1.contains(t) {
                            let q = choose|q: int| 0 <= q < i + 1 && sub1[q] == t;
                            if q < i {
                                assert(sub0[q] == t);
                                assert(ids_of(before).contains(t));
                                let p = choose|p: int| 0 <= p < before.len() && ids_of(before)[p] == t;
                                assert(ids[p] == t);
                            } else {
                                assert(ids[before.len() as int] == t);
                            }
                        }
                    }
                    assert forall|k: int| 0 <= k < next@.len() implies carried(*old(self), #[trigger] next@[k]) by {
                        if k < before.len() {
                            assert(next@[k] == before[k]);
                        }
                    }
                }
            } else {
                proof {
                    assert forall|t: u32| ids_of(next@).contains(t) <==> sub1.contains(t) by {
                        if sub1.contains(t) {
                            let q = choose|q: int| 0 <= q < i + 1 && sub1[q] == t;
                            if q < i {
                                assert(sub0[q] == t);
                            }
                        }
                        if ids_of(next@).contains(t) {
                            assert(sub0.contains(t));
                            let q = choose|q: int| 0 <= q < i && sub0[q] == t;
                            assert(sub1[q] == t);
                        }
                    }
                }
            }
            i = i + 1;
        }
        proof {
            assert(live@.subrange(0, live@.len() as int) =~= live@);
        }
        self.threads = next;
        if self.ticks < u64::MAX {
            self.ticks = self.ticks + 1;
        }
    }

    /// Records the stack `addrs` (innermost frame first) of thread `tid`,
    /// captured at `timestamp`. Only a thread that `begin_sample` found live
    /// is recorded.
    pub fn record_thread(&mut self, tid: u32, timestamp: u64, addrs: &Vec<u64>) -> (accepted: bool)
        requires
            old(self).wf(),
        ensures
            TaskProfiler::recorded_thread(*old(self), tid, timestamp, addrs@, accepted, *final(self)),
    {
        match self.find_thread(tid) {
            None => false,
            Some(j) => {
                let ok = self.profile.record_sample(tid, timestamp, addrs);
                if ok {
                    let mut st = self.threads.remove(j);
                    if st.samples_taken < u64::MAX {
                        st.samples_taken = st.samples_taken + 1;
                    }
                    st.last_stack = copy_addrs(addrs);
                    self.threads.insert(j, st);
                    proof {
                        assert(self.threads@ =~= old(self).threads@.update(j as int, st));
                        assert(self.tids() =~= old(self).tids());
                    }
                }
                proof {
                    assert forall|k: int| 0 <= k < self.threads@.len() && (#[trigger] self.threads@[k]).tid == tid implies k == j by {
                        assert(self.tids()[k] == self.tids()[j as int]);
                    }
                }
                ok
            },
        }
    }
}

} // verus!

verus! {

/// A thread that is gone when a sample begins is no longer known, and
/// recording it afterwards adds nothing to any thread's samples; the threads
/// still live stay known and are recorded as before.
pub proof fn lemma_vanished_thread_records_nothing(
    t0: TaskProfiler,
    live: Seq<u32>,
    t1: TaskProfiler,
    tid: u32,
    timestamp: u64,
    addrs: Seq<u64>,
    accepted: bool,
    t2: TaskProfiler,
)
    requires
        TaskProfiler::begun(t0, live, t1),
        !live.contains(tid),
        TaskProfiler::recorded_thread(t1, tid, timestamp, addrs, accepted, t2),
    ensures
        !t1.has_thread(tid),
        !accepted,
        forall|o: u32| t2.profile.recorded(o) == t0.profile.recorded(o),
        forall|o: u32| live.contains(o) ==> t2.has_thread(o),
{
    assert forall|o: u32| live.contains(o) implies t2.has_thread(o) by {
        assert(t1.has_thread(o));
    }
}

/// A thread that is live when a sample begins gains exactly one sample
/// when it is recorded at a time no earlier than its latest sample: so a
/// thread's samples count the ticks during which it was seen alive.
pub proof fn lemma_live_thread_gains_one_sample(
    t0: TaskProfiler,
    live: Seq<u32>,
    t1: TaskProfiler,
    tid: u32,
    timestamp: u64,
    addrs: Seq<u64>,
    accepted: bool,
    t2: TaskProfiler,
)
    requires
        TaskProfiler::begun(t0, live, t1),
        live.contains(tid),
        t0.profile.recorded(tid).len() == 0 || t0.profile.recorded(tid).last().0 <= timestamp,
        TaskProfiler::recorded_thread(t1, tid, timestamp, addrs, accepted, t2),
    ensures
        accepted,
        t2.profile.recorded(tid) == t0.profile.recorded(tid).push((timestamp, addrs)),
        t2.profile.recorded(tid).len() == t0.profile.recorded(tid).len() + 1,
{
}

} // verus!
