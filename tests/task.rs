use perfrecord::kernel_error::{KernelError, KernelOp};
use perfrecord::modules::{find_module, ModuleMapping};
use perfrecord::task::TaskProfiler;

fn profiler() -> TaskProfiler {
    TaskProfiler::new(0x303, 4242, 0, "sleep".to_string(), 1_000_000)
}

#[test]
fn new_threads_are_added_and_gone_ones_dropped() {
    let mut t = profiler();
    t.begin_sample(&vec![1, 2, 3]);
    let ids: Vec<u32> = t.threads.iter().map(|s| s.tid).collect();
    assert_eq!(ids, vec![1, 2, 3]);
    t.begin_sample(&vec![3, 4, 1]);
    let ids: Vec<u32> = t.threads.iter().map(|s| s.tid).collect();
    assert_eq!(ids, vec![3, 4, 1]);
    assert_eq!(t.ticks, 2);
}

#[test]
fn vanished_thread_contributes_no_samples() {
    let mut t = profiler();
    t.begin_sample(&vec![1, 2]);
    assert!(t.record_thread(1, 10, &vec![0xa]));
    assert!(t.record_thread(2, 10, &vec![0xb]));
    t.begin_sample(&vec![1]);
    assert!(!t.record_thread(2, 20, &vec![0xb]));
    assert!(t.record_thread(1, 20, &vec![0xa]));
    let p = &t.profile;
    assert_eq!(p.threads[0].samples.len(), 2);
    assert_eq!(p.threads[1].samples.len(), 1);
    assert_eq!(t.find_thread(2), None);
}

#[test]
fn thread_state_carries_over() {
    let mut t = profiler();
    t.begin_sample(&vec![5]);
    assert!(t.record_thread(5, 1, &vec![0x1, 0x2]));
    t.begin_sample(&vec![6, 5, 5]);
    assert_eq!(t.threads.len(), 2);
    let k = t.find_thread(5).unwrap();
    assert_eq!(t.threads[k].samples_taken, 1);
    assert_eq!(t.threads[k].last_stack, vec![0x1, 0x2]);
    let n = t.find_thread(6).unwrap();
    assert_eq!(t.threads[n].samples_taken, 0);
    assert!(t.threads[n].last_stack.is_empty());
}

#[test]
fn sample_count_matches_ticks_alive() {
    let mut t = profiler();
    for tick in 1..=5u64 {
        let live = if tick <= 3 { vec![1, 2] } else { vec![1] };
        t.begin_sample(&live);
        for tid in &live {
            assert!(t.record_thread(*tid, tick * 10, &vec![0x10 + *tid as u64]));
        }
    }
    let p = &t.profile;
    assert_eq!(p.threads[p.find_thread(1).unwrap()].samples.len(), 5);
    assert_eq!(p.threads[p.find_thread(2).unwrap()].samples.len(), 3);
}

#[test]
fn module_lookup() {
    let mods = vec![
        ModuleMapping { load_address: 0x1000, size: 0x100, path: "a".to_string(), load_bias: None },
        ModuleMapping { load_address: 0x2000, size: 0x10, path: "b".to_string(), load_bias: Some(4) },
    ];
    assert_eq!(find_module(&mods, 0x1000), Some(0));
    assert_eq!(find_module(&mods, 0x10ff), Some(0));
    assert_eq!(find_module(&mods, 0x1100), None);
    assert_eq!(find_module(&mods, 0x200f), Some(1));
    assert_eq!(find_module(&mods, 0x2010), None);
    assert!(mods[1].contains(0x2000));
}

#[test]
fn kernel_error_keeps_its_parts() {
    let e = KernelError::new(KernelOp::MemoryRead, 268435459);
    assert_eq!(e.op(), KernelOp::MemoryRead);
    assert_eq!(e.code(), 268435459);
}
