use vstd::prelude::*;
use vstd::arithmetic::div_mod::{lemma_div_is_ordered, lemma_div_multiples_vanish, lemma_fundamental_div_mod, lemma_mod_pos_bound};

verus! {

/// How a sampling run ended.
#[derive(Clone, Copy, Debug, PartialEq, Eq, Structural)]
pub enum Outcome {
    /// Every process was gone and no more could come.
    Finished,
    /// The time limit was reached.
    TimedOut,
}

/// What the sampling loop does next.
#[derive(Clone, Copy, Debug, PartialEq, Eq, Structural)]
pub enum Step {
    /// Sleep until this time, then ask again.
    Sleep(u64),
    /// Take one sample of every process now; this is the tick scheduled at
    /// the given time.
    Sample(u64),
    /// Stop sampling.
    Stop(Outcome),
}

/// The schedule of a sampling run. Times are in nanoseconds. Tick `n`
/// (counting from one) is due at `start + n * interval`, however long
/// earlier ticks took, so that no delay adds up over a run.
pub struct Schedule {
    pub start: u64,
    pub interval: u64,
    pub time_limit: Option<u64>,
    pub ticks: u64,
}

impl Schedule {
    /// When the next tick is due.
    pub open spec fn next_deadline(&self) -> int {
        self.start + (self.ticks + 1) * self.interval
    }

    /// When the run's time is up, if it has a limit.
    pub open spec fn end(&self) -> Option<int> {
        match self.time_limit {
            Some(t) => Some(self.start + t),
            None => None,
        }
    }

    /// The interval is positive and, under a time limit, no more ticks were
    /// taken than fit in it.
    pub open spec fn wf(&self) -> bool {
        &&& self.interval > 0
        &&& self.time_limit matches Some(t) ==> self.ticks <= t / self.interval
    }

    /// What holds after `step(now, has_tasks, input_closed)` turned `old`
    /// into `new` and answered `r`.
    pub open spec fn stepped(old: Schedule, now: u64, has_tasks: bool, input_closed: bool, r: Step, new: Schedule) -> bool {
        let d = old.next_deadline();
        let past_end = old.end() is Some && d > old.end()->0;
        let out_of_time = d > u64::MAX || (past_end && now >= old.end()->0);
        let wait_for_end = !out_of_time && past_end;
        &&& new.wf()
        &&& new.start == old.start
        &&& new.interval == old.interval
        &&& new.time_limit == old.time_limit
        &&& out_of_time ==> r == Step::Stop(Outcome::TimedOut)
        &&& !out_of_time && !has_tasks && input_closed ==> r == Step::Stop(Outcome::Finished)
        &&& !out_of_time && (has_tasks || !input_closed) && wait_for_end ==> r == Step::Sleep(old.end()->0 as u64)
        &&& !out_of_time && (has_tasks || !input_closed) && !wait_for_end && now < d ==> r == Step::Sleep(d as u64)
        &&& !out_of_time && (has_tasks || !input_closed) && !wait_for_end && now >= d ==> r == Step::Sample(d as u64)
        &&& r is Sample ==> new.ticks == old.ticks + 1
        &&& !(r is Sample) ==> new.ticks == old.ticks
    }

    /// A schedule starting at `start`; none for a zero interval.
    pub fn new(start: u64, interval: u64, time_limit: Option<u64>) -> (r: Option<Schedule>)
        ensures
            r.is_none() <==> interval == 0,
            r matches Some(s) ==> s.wf() && s.start == start && s.interval == interval && s.time_limit == time_limit
                && s.ticks == 0,
    {
        if interval == 0 {
            None
        } else {
            Some(Schedule { start, interval, time_limit, ticks: 0 })
        }
    }

    /// Decides what the loop does at time `now`. `has_tasks` says whether any
    /// process is still being sampled or was just handed over;
    /// `input_closed`, whether no more can be handed over.
    pub fn step(&mut self, now: u64, has_tasks: bool, input_closed: bool) -> (r: Step)
        requires
            old(self).wf(),
        ensures
            Schedule::stepped(*old(self), now, has_tasks, input_closed, r, *final(self)),
    {
        proof {
            let x = self.ticks + 1;
            let i = self.interval as int;
            assert(x * i >= x) by (nonlinear_arith)
                requires
                    i >= 1,
                    x >= 0,
            ;
        }
        if self.ticks == u64::MAX {
            return Step::Stop(Outcome::TimedOut);
        }
        let n: u64 = self.ticks + 1;
        let d: u64 = match n.checked_mul(self.interval) {
            Some(p) => match self.start.checked_add(p) {
                Some(d) => d,
                None => return Step::Stop(Outcome::TimedOut),
            },
            None => {
                proof {
                    assert(n * self.interval <= self.start + n * self.interval);
                }
                return Step::Stop(Outcome::TimedOut);
            },
        };
        let mut wait_until: Option<u64> = None;
        if let Some(t) = self.time_limit {
            let e: u64 = match self.start.checked_add(t) {
                Some(e) => e,
                None => {
                    proof {
                        assert(d as int <= u64::MAX);
                    }
                    u64::MAX
                },
            };
            if self.start.checked_add(t).is_some() && d > e {
                if now >= e {
                    return Step::Stop(Outcome::TimedOut);
                }
                wait_until = Some(e);
            }
        }
        if !has_tasks && input_closed {
            return Step::Stop(Outcome::Finished);
        }
        match wait_until {
            Some(e) => Step::Sleep(e),
            None => {
                if now < d {
                    Step::Sleep(d)
                } else {
                    proof {
                        if let Some(t) = self.time_limit {
                            let x = (self.ticks + 1) as int;
                            let i = self.interval as int;
                            assert(i * x <= t) by (nonlinear_arith)
                                requires
                                    x * i <= t,
                            ;
                            lemma_div_is_ordered(i * x, t as int, i);
                            lemma_div_multiples_vanish(x, i);
                        }
                    }
                    self.ticks = n;
                    Step::Sample(d)
                }
            },
        }
    }
}

} // verus!

verus! {

/// Under a time limit `t` whose end still fits in a `u64`: ticks never
/// outnumber `t / interval`; each tick is due exactly `interval` times its
/// number after the start, so lateness never accumulates; and a run stops on
/// the time limit only once all `t / interval` ticks have been taken.
pub proof fn lemma_ticks_fill_time_limit(
    s0: Schedule,
    t: u64,
    now: u64,
    has_tasks: bool,
    input_closed: bool,
    r: Step,
    s1: Schedule,
)
    requires
        s0.wf(),
        s0.time_limit == Some(t),
        s0.start + t <= u64::MAX,
        Schedule::stepped(s0, now, has_tasks, input_closed, r, s1),
    ensures
        s1.ticks <= t / s1.interval,
        r matches Step::Sample(d) ==> d == s1.start + s1.ticks * s1.interval,
        r == Step::Stop(Outcome::TimedOut) ==> s1.ticks == t / s1.interval,
{
    if r == Step::Stop(Outcome::TimedOut) {
        let i = s0.interval as int;
        let x = s0.ticks + 1;
        let q = t as int / i;
        assert(s0.next_deadline() > s0.start + t);
        assert(x * i > t);
        lemma_fundamental_div_mod(t as int, i);
        lemma_mod_pos_bound(t as int, i);
        if x <= q {
            assert(x * i <= q * i) by (nonlinear_arith)
                requires
                    x <= q,
                    i > 0,
            ;
            assert(i * q == q * i) by (nonlinear_arith);
        }
    }
}

} // verus!
