use perfrecord::sampler::{Outcome, Schedule, Step};

fn run_to_end(interval: u64, limit: u64, work: u64) -> (u64, Outcome) {
    // Simulated clock: each sample takes `work` ns; sleeps land on time.
    let mut s = Schedule::new(0, interval, Some(limit)).unwrap();
    let mut now: u64 = 0;
    let mut samples: u64 = 0;
    loop {
        match s.step(now, true, false) {
            Step::Sleep(t) => now = t,
            Step::Sample(d) => {
                assert_eq!(d, (samples + 1) * interval);
                samples += 1;
                now += work;
            }
            Step::Stop(o) => return (samples, o),
        }
    }
}

#[test]
fn ticks_match_time_limit() {
    assert_eq!(run_to_end(10, 100, 0), (10, Outcome::TimedOut));
    assert_eq!(run_to_end(10, 105, 0), (10, Outcome::TimedOut));
    assert_eq!(run_to_end(3, 10, 0), (3, Outcome::TimedOut));
}

#[test]
fn slow_ticks_do_not_drift() {
    assert_eq!(run_to_end(10, 100, 7), (10, Outcome::TimedOut));
    assert_eq!(run_to_end(10, 100, 9), (10, Outcome::TimedOut));
}

#[test]
fn interval_longer_than_limit_gives_no_ticks() {
    assert_eq!(run_to_end(50, 20, 0), (0, Outcome::TimedOut));
}

#[test]
fn zero_interval_is_refused() {
    assert!(Schedule::new(0, 0, None).is_none());
}

#[test]
fn finished_when_no_tasks_remain() {
    let mut s = Schedule::new(0, 10, None).unwrap();
    assert_eq!(s.step(0, true, false), Step::Sleep(10));
    assert_eq!(s.step(10, true, false), Step::Sample(10));
    assert_eq!(s.step(11, false, false), Step::Sleep(20));
    assert_eq!(s.step(20, false, true), Step::Stop(Outcome::Finished));
    assert_eq!(s.ticks, 1);
}

#[test]
fn waits_for_the_limit_before_timing_out() {
    let mut s = Schedule::new(1000, 10, Some(25)).unwrap();
    assert_eq!(s.step(1010, true, false), Step::Sample(1010));
    assert_eq!(s.step(1020, true, false), Step::Sample(1020));
    assert_eq!(s.step(1021, true, false), Step::Sleep(1025));
    assert_eq!(s.step(1025, true, false), Step::Stop(Outcome::TimedOut));
}

#[test]
fn late_wakeup_samples_at_once() {
    let mut s = Schedule::new(0, 10, None).unwrap();
    assert_eq!(s.step(35, true, false), Step::Sample(10));
    assert_eq!(s.step(36, true, false), Step::Sample(20));
    assert_eq!(s.step(37, true, false), Step::Sample(30));
    assert_eq!(s.step(38, true, false), Step::Sleep(40));
}
