use vstd::prelude::*;

verus! {

/// One recorded sample: when it was taken and which interned stack it hit.
#[derive(Clone, Copy, Debug, PartialEq, Eq, Structural)]
pub struct Sample {
    pub timestamp: u64,
    pub stack: usize,
}

/// No value occurs twice in `s`.
pub open spec fn no_dups<T>(s: Seq<T>) -> bool {
    forall|i: int, j: int| 0 <= i < s.len() && 0 <= j < s.len() && s[i] == s[j] ==> i == j
}

/// The addresses that a stack of frame indices stands for.
pub open spec fn addrs_of(frames: Seq<u64>, stack: Seq<usize>) -> Seq<u64> {
    stack.map_values(|f: usize| frames[f as int])
}

/// Timestamps never go down along `s`.
pub open spec fn sorted_by_time(s: Seq<Sample>) -> bool {
    forall|i: int, j: int| 0 <= i <= j < s.len() ==> s[i].timestamp <= s[j].timestamp
}

/// `a` is an initial part of `b`.
pub open spec fn extends<T>(a: Seq<T>, b: Seq<T>) -> bool {
    a.len() <= b.len() && forall|i: int| 0 <= i < a.len() ==> #[trigger] b[i] == a[i]
}

/// Whether two stacks of frame indices are equal, element by element.
pub fn same_indices(a: &Vec<usize>, b: &Vec<usize>) -> (r: bool)
    ensures
        r == (a@ == b@),
{
    if a.len() != b.len() {
        return false;
    }
    let mut i: usize = 0;
    while i < a.len()
        invariant
            i <= a@.len(),
            a@.len() == b@.len(),
            forall|k: int| 0 <= k < i ==> a@[k] == b@[k],
        decreases a@.len() - i,
    {
        if a[i] != b[i] {
            return false;
        }
        i = i + 1;
    }
    proof {
        assert(a@ =~= b@);
    }
    true
}

/// A copy of a stack of frame indices.
pub fn copy_indices(v: &Vec<usize>) -> (r: Vec<usize>)
    ensures
        r@ == v@,
{
    let mut r: Vec<usize> = Vec::new();
    let mut i: usize = 0;
    while i < v.len()
        invariant
            i <= v@.len(),
            r@ == v@.subrange(0, i as int),
        decreases v@.len() - i,
    {
        r.push(v[i]);
        i = i + 1;
        proof {
            assert(r@ =~= v@.subrange(0, i as int));
        }
    }
    proof {
        assert(r@ =~= v@);
    }
    r
}

/// A copy of a sequence of addresses.
pub fn copy_addrs(v: &Vec<u64>) -> (r: Vec<u64>)
    ensures
        r@ == v@,
{
    let mut r: Vec<u64> = Vec::new();
    let mut i: usize = 0;
    while i < v.len()
        invariant
            i <= v@.len(),
            r@ == v@.subrange(0, i as int),
        decreases v@.len() - i,
    {
        r.push(v[i]);
        i = i + 1;
        proof {
            assert(r@ =~= v@.subrange(0, i as int));
        }
    }
    proof {
        assert(r@ =~= v@);
    }
    r
}

/// The samples of one thread, with its interned frame and stack tables.
pub struct ThreadProfile {
    pub tid: u32,
    pub frames: Vec<u64>,
    pub stacks: Vec<Vec<usize>>,
    pub samples: Vec<Sample>,
}

impl ThreadProfile {
    /// The stack table, each stack as a sequence of frame indices.
    pub open spec fn stacks_view(&self) -> Seq<Seq<usize>> {
        self.stacks@.map_values(|v: Vec<usize>| v@)
    }

    /// The addresses of the stack at index `s`.
    pub open spec fn stack_addrs(&self, s: int) -> Seq<u64> {
        addrs_of(self.frames@, self.stacks@[s]@)
    }

    /// The addresses of the stack that sample `i` hit.
    pub open spec fn sample_addrs(&self, i: int) -> Seq<u64> {
        self.stack_addrs(self.samples@[i].stack as int)
    }

    /// Tables deduplicated, every index in range, samples in time order.
    pub open spec fn wf(&self) -> bool {
        &&& no_dups(self.frames@)
        &&& no_dups(self.stacks_view())
        &&& forall|s: int, k: int|
            0 <= s < self.stacks@.len() && 0 <= k < self.stacks@[s]@.len() ==> (#[trigger] self.stacks@[s]@[k]) < self.frames@.len()
        &&& forall|i: int| 0 <= i < self.samples@.len() ==> (#[trigger] self.samples@[i]).stack < self.stacks@.len()
        &&& sorted_by_time(self.samples@)
    }

    /// An empty profile for thread `tid`.
    pub fn new(tid: u32) -> (r: ThreadProfile)
        ensures
            r.wf(),
            r.tid == tid,
            r.frames@.len() == 0,
            r.stacks@.len() == 0,
            r.samples@.len() == 0,
    {
        ThreadProfile { tid, frames: Vec::new(), stacks: Vec::new(), samples: Vec::new() }
    }

    /// Same thread id and the same tables and samples.
    pub open spec fn same_content(&self, o: ThreadProfile) -> bool {
        &&& self.tid == o.tid
        &&& self.frames@ == o.frames@
        &&& self.stacks_view() == o.stacks_view()
        &&& self.samples@ == o.samples@
    }

    /// A copy of this profile.
    pub fn copy(&self) -> (r: ThreadProfile)
        ensures
            r.same_content(*self),
    {
        let frames = copy_addrs(&self.frames);
        let mut stacks: Vec<Vec<usize>> = Vec::new();
        let mut i: usize = 0;
        while i < self.stacks.len()
            invariant
                i <= self.stacks@.len(),
                stacks@.len() == i,
                forall|j: int| 0 <= j < i ==> (#[trigger] stacks@[j])@ == self.stacks@[j]@,
            decreases self.stacks@.len() - i,
        {
            stacks.push(copy_indices(&self.stacks[i]));
            i = i + 1;
        }
        let mut samples: Vec<Sample> = Vec::new();
        let mut i: usize = 0;
        while i < self.samples.len()
            invariant
                i <= self.samples@.len(),
                samples@ == self.samples@.subrange(0, i as int),
            decreases self.samples@.len() - i,
        {
            samples.push(self.samples[i]);
            i = i + 1;
            proof {
                assert(samples@ =~= self.samples@.subrange(0, i as int));
            }
        }
        proof {
            assert(samples@ =~= self.samples@);
        }
        let r = ThreadProfile { tid: self.tid, frames, stacks, samples };
        proof {
            assert(r.stacks_view() =~= self.stacks_view());
        }
        r
    }

    /// The timestamp of the latest sample, if any.
    pub fn last_timestamp(&self) -> (r: Option<u64>)
        ensures
            self.samples@.len() == 0 ==> r.is_none(),
            self.samples@.len() > 0 ==> r == Some(self.samples@.last().timestamp),
    {
        if self.samples.len() == 0 {
            None
        } else {
            Some(self.samples[self.samples.len() - 1].timestamp)
        }
    }

    /// The index of `addr` in the frame table, adding it at the end if new.
    pub fn intern_frame(&mut self, addr: u64) -> (r: usize)
        requires
            old(self).wf(),
        ensures
            final(self).wf(),
            final(self).tid == old(self).tid,
            r < final(self).frames@.len(),
            final(self).frames@[r as int] == addr,
            old(self).frames@.contains(addr) ==> final(self).frames@ == old(self).frames@,
            !old(self).frames@.contains(addr) ==> final(self).frames@ == old(self).frames@.push(addr),
            final(self).stacks@ == old(self).stacks@,
            final(self).samples@ == old(self).samples@,
    {
        let mut i: usize = 0;
        while i < self.frames.len()
            invariant
                i <= self.frames@.len(),
                self.wf(),
                self.frames@ == old(self).frames@,
                self.stacks@ == old(self).stacks@,
                self.samples@ == old(self).samples@,
                self.tid == old(self).tid,
                forall|k: int| 0 <= k < i ==> self.frames@[k] != addr,
            decreases self.frames@.len() - i,
        {
            if self.frames[i] == addr {
                return i;
            }
            i = i + 1;
        }
        let r = self.frames.len();
        proof {
            assert(!self.frames@.contains(addr));
        }
        self.frames.push(addr);
        proof {
            let f = self.frames@;
            assert forall|a: int, b: int| 0 <= a < f.len() && 0 <= b < f.len() && f[a] == f[b] implies a == b by {
                if a < r && b < r {
                    assert(old(self).frames@[a] == old(self).frames@[b]);
                }
            }
            assert forall|s: int, k: int|
                0 <= s < self.stacks@.len() && 0 <= k < self.stacks@[s]@.len() implies (#[trigger] self.stacks@[s]@[k]) < self.frames@.len() by {
                assert(old(self).stacks@[s]@[k] < old(self).frames@.len());
            }
        }
        r
    }

    /// The index of `stack` in the stack table, adding it at the end if new.
    pub fn intern_stack(&mut self, stack: Vec<usize>) -> (r: usize)
        requires
            old(self).wf(),
            forall|k: int| 0 <= k < stack@.len() ==> stack@[k] < old(self).frames@.len(),
        ensures
            final(self).wf(),
            final(self).tid == old(self).tid,
            r < final(self).stacks@.len(),
            final(self).stacks@[r as int]@ == stack@,
            old(self).stacks_view().contains(stack@) ==> final(self).stacks_view() == old(self).stacks_view(),
            !old(self).stacks_view().contains(stack@) ==> final(self).stacks_view() == old(self).stacks_view().push(stack@),
            final(self).frames@ == old(self).frames@,
            final(self).samples@ == old(self).samples@,
    {
        let mut i: usize = 0;
        while i < self.stacks.len()
            invariant
                i <= self.stacks@.len(),
                self.wf(),
                self.frames@ == old(self).frames@,
                self.stacks@ == old(self).stacks@,
                self.samples@ == old(self).samples@,
                self.tid == old(self).tid,
                forall|k: int| 0 <= k < i ==> self.stacks@[k]@ != stack@,
            decreases self.stacks@.len() - i,
        {
            if same_indices(&self.stacks[i], &stack) {
                proof {
                    assert(self.stacks_view()[i as int] == stack@);
                }
                return i;
            }
            i = i + 1;
        }
        let r = self.stacks.len();
        let ghost sv = stack@;
        proof {
            assert forall|k: int| 0 <= k < self.stacks_view().len() implies self.stacks_view()[k] != sv by {
                assert(self.stacks@[k]@ != sv);
            }
        }
        self.stacks.push(stack);
        proof {
            let v = self.stacks_view();
            assert(v =~= old(self).stacks_view().push(sv));
            assert forall|a: int, b: int| 0 <= a < v.len() && 0 <= b < v.len() && v[a] == v[b] implies a == b by {
                if a < r && b < r {
                    assert(old(self).stacks_view()[a] == old(self).stacks_view()[b]);
                }
            }
            assert forall|s: int, k: int|
                0 <= s < self.stacks@.len() && 0 <= k < self.stacks@[s]@.len() implies (#[trigger] self.stacks@[s]@[k]) < self.frames@.len() by {
                if s < r {
                    assert(old(self).stacks@[s]@[k] < old(self).frames@.len());
                }
            }
        }
        r
    }

    /// Appends a sample at `timestamp` whose stack is `addrs`, innermost
    /// frame first. Refused, leaving everything as it was, when `timestamp`
    /// precedes the latest sample.
    pub fn record(&mut self, timestamp: u64, addrs: &Vec<u64>) -> (accepted: bool)
        requires
            old(self).wf(),
        ensures
            final(self).wf(),
            final(self).tid == old(self).tid,
            accepted == (old(self).samples@.len() == 0 || old(self).samples@.last().timestamp <= timestamp),
            !accepted ==> *final(self) == *old(self),
            extends(old(self).frames@, final(self).frames@),
            extends(old(self).stacks_view(), final(self).stacks_view()),
            accepted ==> final(self).samples@.len() == old(self).samples@.len() + 1,
            accepted ==> final(self).samples@.drop_last() == old(self).samples@,
            accepted ==> final(self).samples@.last().timestamp == timestamp,
            accepted ==> final(self).sample_addrs(final(self).samples@.len() - 1) == addrs@,
            forall|i: int| 0 <= i < old(self).samples@.len() ==> final(self).sample_addrs(i) == old(self).sample_addrs(i),
    {
        if self.samples.len() > 0 && self.samples[self.samples.len() - 1].timestamp > timestamp {
            return false;
        }
        let ghost f0 = self.frames@;
        let mut idx: Vec<usize> = Vec::new();
        let mut k: usize = 0;
        while k < addrs.len()
            invariant
                k <= addrs@.len(),
                self.wf(),
                self.tid == old(self).tid,
                extends(f0, self.frames@),
                self.stacks@ == old(self).stacks@,
                self.samples@ == old(self).samples@,
                idx@.len() == k,
                forall|j: int| 0 <= j < k ==> (#[trigger] idx@[j]) < self.frames@.len(),
                forall|j: int| 0 <= j < k ==> self.frames@[(#[trigger] idx@[j]) as int] == addrs@[j],
            decreases addrs@.len() - k,
        {
            let ghost before = self.frames@;
            let f = self.intern_frame(addrs[k]);
            proof {
                assert forall|j: int| 0 <= j < k implies self.frames@[(#[trigger] idx@[j]) as int] == addrs@[j] by {
                    assert(idx@[j] < before.len());
                    assert(before[idx@[j] as int] == addrs@[j]);
                }
            }
            idx.push(f);
            k = k + 1;
        }
        let ghost iv = idx@;
        let ghost sv0 = self.stacks_view();
        let s = self.intern_stack(idx);
        proof {
            assert(addrs_of(self.frames@, iv) =~= addrs@);
        }
        let ghost mid = *self;
        self.samples.push(Sample { timestamp, stack: s });
        proof {
            assert(self.samples@.drop_last() =~= old(self).samples@);
            assert forall|i: int, j: int| 0 <= i <= j < self.samples@.len() implies self.samples@[i].timestamp <= self.samples@[j].timestamp by {
                if j < self.samples@.len() - 1 {
                    assert(old(self).samples@[i].timestamp <= old(self).samples@[j].timestamp);
                } else if i < j {
                    assert(old(self).samples@[i].timestamp <= old(self).samples@.last().timestamp);
                }
            }
            assert forall|i: int| 0 <= i < old(self).samples@.len() implies self.sample_addrs(i) == old(self).sample_addrs(i) by {
                let st = old(self).samples@[i].stack as int;
                assert(self.samples@[i] == old(self).samples@[i]);
                assert(self.stacks_view()[st] == sv0[st]);
                assert(self.stacks@[st]@ == old(self).stacks@[st]@);
                assert forall|q: int| 0 <= q < old(self).stacks@[st]@.len() implies self.frames@[old(self).stacks@[st]@[q] as int] == f0[old(self).stacks@[st]@[q] as int] by {
                    assert(old(self).stacks@[st]@[q] < f0.len());
                }
                assert(self.sample_addrs(i) =~= old(self).sample_addrs(i));
            }
        }
        true
    }
}

} // verus!

verus! {

/// The position of the last `x` in `s`, or -1 when `s` holds none.
pub open spec fn slot_of(s: Seq<u32>, x: u32) -> int
    decreases s.len(),
{
    if s.len() == 0 {
        -1
    } else if s.last() == x {
        s.len() - 1
    } else {
        slot_of(s.drop_last(), x)
    }
}

proof fn lemma_slot_of(s: Seq<u32>, x: u32)
    ensures
        -1 <= slot_of(s, x) < s.len(),
        slot_of(s, x) >= 0 ==> s[slot_of(s, x)] == x,
        slot_of(s, x) == -1 <==> !s.contains(x),
        no_dups(s) ==> forall|k: int| 0 <= k < s.len() && s[k] == x ==> k == slot_of(s, x),
    decreases s.len(),
{
    if s.len() > 0 {
        lemma_slot_of(s.drop_last(), x);
        if s.last() != x {
            if s.contains(x) {
                let k = choose|k: int| 0 <= k < s.len() && s[k] == x;
                assert(s.drop_last()[k] == x);
            }
            if s.drop_last().contains(x) {
                let k = choose|k: int| 0 <= k < s.drop_last().len() && s.drop_last()[k] == x;
                assert(s[k] == x);
            }
        } else {
            assert(s[s.len() - 1] == x);
        }
    }
}

/// Everything recorded while sampling one process: one profile per thread,
/// and what the process was.
pub struct ProfileBuilder {
    pub command_name: String,
    pub start_time: u64,
    pub interval: u64,
    pub threads: Vec<ThreadProfile>,
}

impl ProfileBuilder {
    /// The thread ids, in the order in which the threads were first seen.
    pub open spec fn tids(&self) -> Seq<u32> {
        self.threads@.map_values(|t: ThreadProfile| t.tid)
    }

    /// Each thread profile well formed, no thread id twice.
    pub open spec fn wf(&self) -> bool {
        &&& forall|k: int| 0 <= k < self.threads@.len() ==> (#[trigger] self.threads@[k]).wf()
        &&& no_dups(self.tids())
    }

    /// What thread `tid` has recorded: each sample's time and addresses.
    pub open spec fn recorded(&self, tid: u32) -> Seq<(u64, Seq<u64>)> {
        let k = slot_of(self.tids(), tid);
        if k < 0 {
            Seq::empty()
        } else {
            let t = self.threads@[k];
            Seq::new(t.samples@.len(), |i: int| (t.samples@[i].timestamp, t.sample_addrs(i)))
        }
    }

    /// An empty profile of the command `command_name`, started at
    /// `start_time` and sampled every `interval`.
    pub fn new(command_name: String, start_time: u64, interval: u64) -> (r: ProfileBuilder)
        ensures
            r.wf(),
            r.command_name@ == command_name@,
            r.start_time == start_time,
            r.interval == interval,
            r.threads@.len() == 0,
            forall|tid: u32| r.recorded(tid).len() == 0,
    {
        let r = ProfileBuilder { command_name, start_time, interval, threads: Vec::new() };
        proof {
            assert forall|tid: u32| r.recorded(tid).len() == 0 by {
                assert(r.tids().len() == 0);
            }
        }
        r
    }

    /// The position of thread `tid` in the thread list.
    pub fn find_thread(&self, tid: u32) -> (r: Option<usize>)
        requires
            self.wf(),
        ensures
            r.is_none() <==> slot_of(self.tids(), tid) == -1,
            r.is_some() ==> r.unwrap() == slot_of(self.tids(), tid),
    {
        proof {
            lemma_slot_of(self.tids(), tid);
        }
        let mut i: usize = 0;
        while i < self.threads.len()
            invariant
                i <= self.threads@.len(),
                self.wf(),
                forall|k: int| 0 <= k < i ==> self.tids()[k] != tid,
            decreases self.threads@.len() - i,
        {
            if self.threads[i].tid == tid {
                proof {
                    assert(self.tids()[i as int] == tid);
                    lemma_slot_of(self.tids(), tid);
                }
                return Some(i);
            }
            i = i + 1;
        }
        proof {
            assert(!self.tids().contains(tid));
        }
        None
    }

    /// Records a sample of thread `tid` at `timestamp` with the stack `addrs`,
    /// innermost frame first; a thread seen for the first time gets an empty
    /// profile first. Refused, changing nothing, when `timestamp` precedes that
    /// thread's latest sample.
    pub fn record_sample(&mut self, tid: u32, timestamp: u64, addrs: &Vec<u64>) -> (accepted: bool)
        requires
            old(self).wf(),
        ensures
            final(self).wf(),
            final(self).command_name@ == old(self).command_name@,
            final(self).start_time == old(self).start_time,
            final(self).interval == old(self).interval,
            accepted == (old(self).recorded(tid).len() == 0 || old(self).recorded(tid).last().0 <= timestamp),
            accepted ==> final(self).recorded(tid) == old(self).recorded(tid).push((timestamp, addrs@)),
            !accepted ==> final(self).recorded(tid) == old(self).recorded(tid),
            forall|o: u32| o != tid ==> final(self).recorded(o) == old(self).recorded(o),
    {
        proof {
            lemma_slot_of(self.tids(), tid);
        }
        match self.find_thread(tid) {
            Some(k) => {
                let ghost t0 = self.threads@[k as int];
                let mut t = self.threads.remove(k);
                let ok = t.record(timestamp, addrs);
                self.threads.insert(k, t);
                proof {
                    assert(self.threads@ =~= old(self).threads@.update(k as int, t));
                    assert(self.tids() =~= old(self).tids());
                    let ot = old(self).recorded(tid);
                    let nt = self.recorded(tid);
                    if ok {
                        assert(t.samples@[t.samples@.len() - 1] == t.samples@.last());
                        assert forall|i: int| 0 <= i < ot.len() implies nt[i] == ot[i] by {
                            assert(t.samples@[i] == t.samples@.drop_last()[i]);
                        }
                        assert(nt =~= ot.push((timestamp, addrs@)));
                    } else {
                        assert(nt =~= ot);
                    }
                    assert forall|o: u32| o != tid implies self.recorded(o) == old(self).recorded(o) by {
                        lemma_slot_of(self.tids(), o);
                    }
                    assert forall|j: int| 0 <= j < self.threads@.len() implies (#[trigger] self.threads@[j]).wf() by {
                        if j != k {
                            assert(self.threads@[j] == old(self).threads@[j]);
                        }
                    }
                }
                ok
            },
            None => {
                let mut t = ThreadProfile::new(tid);
                let ok = t.record(timestamp, addrs);
                self.threads.push(t);
                proof {
                    assert(self.tids() =~= old(self).tids().push(tid));
                    assert(self.tids().drop_last() =~= old(self).tids());
                    let nt = self.recorded(tid);
                    assert(t.samples@[0] == t.samples@.last());
                    assert(nt =~= seq![(timestamp, addrs@)]);
                    assert(old(self).recorded(tid) =~= Seq::empty());
                    assert(nt =~= old(self).recorded(tid).push((timestamp, addrs@)));
                    assert forall|o: u32| o != tid implies self.recorded(o) == old(self).recorded(o) by {
                        lemma_slot_of(old(self).tids(), o);
                        let j = slot_of(old(self).tids(), o);
                        if j >= 0 {
                            assert(self.threads@[j] == old(self).threads@[j]);
                        }
                    }
                    let ts = self.tids();
                    assert forall|a: int, b: int| 0 <= a < ts.len() && 0 <= b < ts.len() && ts[a] == ts[b] implies a == b by {
                        if a < ts.len() - 1 && b < ts.len() - 1 {
                            assert(old(self).tids()[a] == old(self).tids()[b]);
                        } else if a < ts.len() - 1 {
                            assert(old(self).tids().contains(ts[a]));
                        } else if b < ts.len() - 1 {
                            assert(old(self).tids().contains(ts[b]));
                        }
                    }
                    assert forall|j: int| 0 <= j < self.threads@.len() implies (#[trigger] self.threads@[j]).wf() by {
                        if j < old(self).threads@.len() {
                            assert(self.threads@[j] == old(self).threads@[j]);
                        }
                    }
                }
                ok
            },
        }
    }

    /// The finished profile as a document of its own. Reading the builder
    /// changes nothing, so every call gives the same document.
    pub fn to_export_document(&self) -> (r: ProfileDocument)
        requires
            self.wf(),
        ensures
            r.command_name@ == self.command_name@,
            r.start_time == self.start_time,
            r.interval == self.interval,
            r.threads@.len() == self.threads@.len(),
            forall|k: int| 0 <= k < r.threads@.len() ==> (#[trigger] r.threads@[k]).same_content(self.threads@[k]),
            forall|tid: u32| r.recorded(tid) == self.recorded(tid),
    {
        let mut threads: Vec<ThreadProfile> = Vec::new();
        let mut k: usize = 0;
        while k < self.threads.len()
            invariant
                k <= self.threads@.len(),
                threads@.len() == k,
                forall|j: int| 0 <= j < k ==> (#[trigger] threads@[j]).same_content(self.threads@[j]),
            decreases self.threads@.len() - k,
        {
            threads.push(self.threads[k].copy());
            k = k + 1;
        }
        let r = ProfileDocument {
            command_name: self.command_name.clone(),
            start_time: self.start_time,
            interval: self.interval,
            threads,
        };
        proof {
            assert(r.tids() =~= self.tids());
            assert forall|tid: u32| r.recorded(tid) == self.recorded(tid) by {
                let j = slot_of(self.tids(), tid);
                if j >= 0 {
                    lemma_slot_of(self.tids(), tid);
                    let a = r.threads@[j];
                    let b = self.threads@[j];
                    assert forall|i: int| 0 <= i < a.samples@.len() implies a.sample_addrs(i) == b.sample_addrs(i) by {
                        assert(b.wf());
                        let st = b.samples@[i].stack as int;
                        assert(a.samples@[i] == b.samples@[i]);
                        assert(0 <= st < b.stacks@.len());
                        assert(a.stacks_view().len() == a.stacks@.len());
                        assert(b.stacks_view().len() == b.stacks@.len());
                        assert(a.stacks@.len() == b.stacks@.len());
                        assert(a.stacks@[st]@ == a.stacks_view()[st]);
                        assert(b.stacks@[st]@ == b.stacks_view()[st]);
                    }
                    assert(r.recorded(tid) =~= self.recorded(tid));
                }
            }
        }
        r
    }
}

} // verus!

verus! {

/// The finished profile: the process's metadata and, per thread, the
/// interned frames and stacks and the timestamped samples.
pub struct ProfileDocument {
    pub command_name: String,
    pub start_time: u64,
    pub interval: u64,
    pub threads: Vec<ThreadProfile>,
}

impl ProfileDocument {
    /// The thread ids, in document order.
    pub open spec fn tids(&self) -> Seq<u32> {
        self.threads@.map_values(|t: ThreadProfile| t.tid)
    }

    /// What thread `tid` holds: each sample's time and addresses.
    pub open spec fn recorded(&self, tid: u32) -> Seq<(u64, Seq<u64>)> {
        let k = slot_of(self.tids(), tid);
        if k < 0 {
            Seq::empty()
        } else {
            let t = self.threads@[k];
            Seq::new(t.samples@.len(), |i: int| (t.samples@[i].timestamp, t.sample_addrs(i)))
        }
    }
}

} // verus!

verus! {

/// Interning is by content: in any thread of a well-formed profile, two
/// samples whose stacks hold the same addresses point at the same stack
/// index, and the frame table holds no address twice.
pub proof fn lemma_same_addresses_same_stack(b: ProfileBuilder, k: int, i: int, j: int)
    requires
        b.wf(),
        0 <= k < b.threads@.len(),
        0 <= i < b.threads@[k].samples@.len(),
        0 <= j < b.threads@[k].samples@.len(),
        b.threads@[k].sample_addrs(i) == b.threads@[k].sample_addrs(j),
    ensures
        b.threads@[k].samples@[i].stack == b.threads@[k].samples@[j].stack,
        no_dups(b.threads@[k].frames@),
{
    let t = b.threads@[k];
    assert(t.wf());
    let si = t.samples@[i].stack as int;
    let sj = t.samples@[j].stack as int;
    let a = t.stacks@[si]@;
    let c = t.stacks@[sj]@;
    assert(t.stack_addrs(si).len() == a.len());
    assert(t.stack_addrs(sj).len() == c.len());
    assert forall|q: int| 0 <= q < a.len() implies a[q] == c[q] by {
        assert(t.stack_addrs(si)[q] == t.frames@[a[q] as int]);
        assert(t.stack_addrs(sj)[q] == t.frames@[c[q] as int]);
        assert(t.stacks@[si]@[q] < t.frames@.len());
        assert(t.stacks@[sj]@[q] < t.frames@.len());
    }
    assert(a =~= c);
    assert(t.stacks_view()[si] == t.stacks_view()[sj]);
}

/// Every thread's samples come out in time order, whatever was recorded.
pub proof fn lemma_recorded_in_time_order(b: ProfileBuilder, tid: u32)
    requires
        b.wf(),
    ensures
        forall|i: int, j: int|
            0 <= i <= j < b.recorded(tid).len() ==> b.recorded(tid)[i].0 <= b.recorded(tid)[j].0,
{
    lemma_slot_of(b.tids(), tid);
    let k = slot_of(b.tids(), tid);
    if k >= 0 {
        assert(b.threads@[k].wf());
    }
}

} // verus!
