use rcore_sync::semaphore::{DownOutcome, Semaphore};

#[test]
fn new_semaphore_is_empty() {
    let s = Semaphore::new(2);
    assert_eq!(s.get_count(), 2);
    assert!(s.get_holders().is_empty());
    assert!(s.get_wait_queue_tids().is_empty());
}

#[test]
fn down_acquires_while_units_are_left() {
    let mut s = Semaphore::new(2);
    assert_eq!(s.down(7), DownOutcome::Acquired);
    assert_eq!(s.down(8), DownOutcome::Acquired);
    assert_eq!(s.get_count(), 0);
    assert_eq!(s.get_holders(), vec![7, 8]);
    assert!(s.get_wait_queue_tids().is_empty());
}

#[test]
fn down_blocks_when_no_unit_is_left() {
    let mut s = Semaphore::new(1);
    assert_eq!(s.down(1), DownOutcome::Acquired);
    assert_eq!(s.down(2), DownOutcome::Blocked);
    assert_eq!(s.down(3), DownOutcome::Blocked);
    assert_eq!(s.get_count(), -2);
    assert_eq!(s.get_holders(), vec![1]);
    assert_eq!(s.get_wait_queue_tids(), vec![2, 3]);
}

#[test]
fn up_wakes_the_oldest_waiter() {
    let mut s = Semaphore::new(0);
    assert_eq!(s.down(4), DownOutcome::Blocked);
    assert_eq!(s.down(5), DownOutcome::Blocked);
    assert_eq!(s.up(9), Some(4));
    assert_eq!(s.get_count(), -1);
    assert_eq!(s.get_wait_queue_tids(), vec![5]);
    assert_eq!(s.up(9), Some(5));
    assert_eq!(s.get_count(), 0);
    assert_eq!(s.up(9), None);
    assert_eq!(s.get_count(), 1);
}

#[test]
fn up_releases_the_first_unit_held_by_the_caller() {
    let mut s = Semaphore::new(3);
    s.down(1);
    s.down(2);
    s.down(1);
    assert_eq!(s.get_holders(), vec![1, 2, 1]);
    assert_eq!(s.up(1), None);
    assert_eq!(s.get_holders(), vec![2, 1]);
    // a thread holding nothing may still release a unit
    assert_eq!(s.up(6), None);
    assert_eq!(s.get_holders(), vec![2, 1]);
    assert_eq!(s.get_count(), 2);
}

#[test]
fn down_then_up_gives_the_semaphore_back() {
    let mut s = Semaphore::new(2);
    s.down(3);
    let count = s.get_count();
    let holders = s.get_holders();
    assert_eq!(s.down(4), DownOutcome::Acquired);
    assert_eq!(s.up(4), None);
    assert_eq!(s.get_count(), count);
    assert_eq!(s.get_holders(), holders);
    assert!(s.get_wait_queue_tids().is_empty());
}

#[test]
fn unit_passes_from_releaser_to_woken_waiter() {
    let mut s = Semaphore::new(1);
    assert_eq!(s.down(1), DownOutcome::Acquired);
    assert_eq!(s.down(2), DownOutcome::Blocked);
    assert_eq!(s.up(1), Some(2));
    s.finish_down(2);
    assert_eq!(s.get_holders(), vec![2]);
    assert_eq!(s.get_count(), 0);
    assert!(s.get_wait_queue_tids().is_empty());
}

#[test]
fn waiters_match_a_negative_count() {
    let mut s = Semaphore::new(1);
    for tid in 0..5 {
        s.down(tid);
        let c = s.get_count();
        let expected = if c < 0 { (-c) as usize } else { 0 };
        assert_eq!(s.get_wait_queue_tids().len(), expected);
    }
    for tid in 0..5 {
        s.up(tid);
        let c = s.get_count();
        let expected = if c < 0 { (-c) as usize } else { 0 };
        assert_eq!(s.get_wait_queue_tids().len(), expected);
    }
}

#[test]
fn huge_initial_count_wraps_like_a_cast() {
    let s = Semaphore::new(usize::MAX);
    assert_eq!(s.get_count(), -1);
}
