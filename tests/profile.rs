use perfrecord::profile::{ProfileBuilder, ThreadProfile};

fn builder() -> ProfileBuilder {
    ProfileBuilder::new("ls".to_string(), 100, 1_000_000)
}

#[test]
fn identical_stacks_share_an_index() {
    let mut b = builder();
    assert!(b.record_sample(7, 10, &vec![0x10, 0x20, 0x30]));
    assert!(b.record_sample(7, 20, &vec![0x10, 0x40]));
    assert!(b.record_sample(7, 30, &vec![0x10, 0x20, 0x30]));
    let t = &b.threads[0];
    assert_eq!(t.samples.len(), 3);
    assert_eq!(t.samples[0].stack, t.samples[2].stack);
    assert_ne!(t.samples[0].stack, t.samples[1].stack);
    assert_eq!(t.stacks.len(), 2);
    assert_eq!(t.frames, vec![0x10, 0x20, 0x30, 0x40]);
}

#[test]
fn frame_table_has_no_duplicates() {
    let mut b = builder();
    b.record_sample(1, 1, &vec![5, 5, 6]);
    b.record_sample(1, 2, &vec![6, 5]);
    let t = &b.threads[0];
    assert_eq!(t.frames, vec![5, 6]);
    assert_eq!(t.stacks[0], vec![0, 0, 1]);
    assert_eq!(t.stacks[1], vec![1, 0]);
}

#[test]
fn samples_stay_in_time_order() {
    let mut b = builder();
    assert!(b.record_sample(3, 50, &vec![1]));
    assert!(b.record_sample(3, 50, &vec![2]));
    assert!(!b.record_sample(3, 49, &vec![3]));
    assert!(b.record_sample(3, 60, &vec![3]));
    let ts: Vec<u64> = b.threads[0].samples.iter().map(|s| s.timestamp).collect();
    assert_eq!(ts, vec![50, 50, 60]);
}

#[test]
fn threads_are_kept_apart() {
    let mut b = builder();
    b.record_sample(1, 10, &vec![0xa]);
    b.record_sample(2, 5, &vec![0xb]);
    b.record_sample(1, 20, &vec![0xa]);
    assert_eq!(b.threads.len(), 2);
    assert_eq!(b.threads[0].tid, 1);
    assert_eq!(b.threads[0].samples.len(), 2);
    assert_eq!(b.threads[1].tid, 2);
    assert_eq!(b.threads[1].samples.len(), 1);
    assert_eq!(b.find_thread(2), Some(1));
    assert_eq!(b.find_thread(9), None);
}

#[test]
fn empty_stack_is_a_valid_sample() {
    let mut b = builder();
    assert!(b.record_sample(4, 1, &vec![]));
    let t = &b.threads[0];
    assert_eq!(t.stacks.len(), 1);
    assert!(t.stacks[0].is_empty());
    assert!(t.frames.is_empty());
}

#[test]
fn export_is_repeatable() {
    let mut b = builder();
    b.record_sample(1, 10, &vec![1, 2]);
    b.record_sample(1, 20, &vec![1, 2]);
    let d1 = b.to_export_document();
    let d2 = b.to_export_document();
    assert_eq!(d1.command_name, "ls");
    assert_eq!(d1.start_time, 100);
    assert_eq!(d1.interval, 1_000_000);
    assert_eq!(d1.threads.len(), 1);
    assert_eq!(d1.threads[0].frames, vec![1, 2]);
    assert_eq!(d1.threads[0].samples, b.threads[0].samples);
    assert_eq!(d1.threads[0].frames, d2.threads[0].frames);
    assert_eq!(d1.threads[0].stacks, d2.threads[0].stacks);
    assert_eq!(d1.threads[0].samples, d2.threads[0].samples);
}

#[test]
fn empty_profile_exports_metadata_only() {
    let b = builder();
    let d = b.to_export_document();
    assert!(d.threads.is_empty());
    assert_eq!(d.command_name, "ls");
}

#[test]
fn thread_profile_interning() {
    let mut t = ThreadProfile::new(9);
    assert_eq!(t.intern_frame(0x50), 0);
    assert_eq!(t.intern_frame(0x60), 1);
    assert_eq!(t.intern_frame(0x50), 0);
    assert_eq!(t.intern_stack(vec![1, 0]), 0);
    assert_eq!(t.intern_stack(vec![0]), 1);
    assert_eq!(t.intern_stack(vec![1, 0]), 0);
    assert_eq!(t.last_timestamp(), None);
    assert!(t.record(5, &vec![0x60]));
    assert_eq!(t.last_timestamp(), Some(5));
    let c = t.copy();
    assert_eq!(c.frames, t.frames);
    assert_eq!(c.stacks, t.stacks);
    assert_eq!(c.samples, t.samples);
}
