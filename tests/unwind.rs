use perfrecord::unwind::{capture_stack, is_record, unwind};

// Stack copy at 0x1000: records at 0x1000 -> 0x1010 -> 0x1020 -> null.
fn chain() -> Vec<u64> {
    vec![0x1010, 0xaaa, 0x1020, 0xbbb, 0, 0xccc, 0, 0]
}

#[test]
fn null_frame_pointer_ends_the_walk() {
    let r = unwind(0x1000, &chain(), 0x1000, 100);
    assert_eq!(r, vec![0xaaa, 0xbbb, 0xccc]);
}

#[test]
fn null_start_gives_no_frames() {
    assert!(unwind(0x1000, &chain(), 0, 100).is_empty());
}

#[test]
fn depth_limit_truncates() {
    assert_eq!(unwind(0x1000, &chain(), 0x1000, 2), vec![0xaaa, 0xbbb]);
    assert!(unwind(0x1000, &chain(), 0x1000, 0).is_empty());
}

#[test]
fn pointer_outside_the_copy_stops() {
    let words = vec![0x9000, 0xaaa, 0, 0];
    assert_eq!(unwind(0x1000, &words, 0x1000, 10), vec![0xaaa]);
    assert!(unwind(0x1000, &words, 0x2000, 10).is_empty());
    assert!(unwind(0x1000, &words, 0x0ff8, 10).is_empty());
}

#[test]
fn misaligned_or_backward_pointer_stops() {
    assert!(unwind(0x1000, &chain(), 0x1004, 10).is_empty());
    let words = vec![0x1000, 0xaaa, 0, 0];
    assert_eq!(unwind(0x1000, &words, 0x1000, 10), vec![0xaaa]);
}

#[test]
fn record_must_fit_in_the_copy() {
    let words = chain();
    assert!(is_record(0x1000, &words, 0x1030));
    assert!(!is_record(0x1000, &words, 0x1038));
    assert!(!is_record(0x1000, &words, 0));
}

#[test]
fn capture_puts_the_pc_first() {
    assert_eq!(capture_stack(0x77, 0x1000, &chain(), 0x1000, 100), vec![0x77, 0xaaa, 0xbbb, 0xccc]);
    assert_eq!(capture_stack(0x77, 0x1000, &chain(), 0, 100), vec![0x77]);
}
