use rcore_sync::bankers::bankers_deadlock;
use rcore_sync::mutex_deadlock::{mutex_deadlock_detect, MutexState};
use std::collections::VecDeque;

fn mutex(holder: Option<usize>, waiters: &[usize]) -> Option<MutexState> {
    Some(MutexState {
        blocking: true,
        holder,
        wait_queue: waiters.iter().copied().collect::<VecDeque<usize>>(),
    })
}

#[test]
fn textbook_safe_state_has_no_deadlock() {
    // available (3,3,2); allocation and remaining need of five threads
    let available = vec![3, 3, 2];
    let allocation = vec![
        vec![0, 1, 0],
        vec![2, 0, 0],
        vec![3, 0, 2],
        vec![2, 1, 1],
        vec![0, 0, 2],
    ];
    let need = vec![
        vec![7, 4, 3],
        vec![1, 2, 2],
        vec![6, 0, 0],
        vec![0, 1, 1],
        vec![4, 3, 1],
    ];
    assert!(!bankers_deadlock(&available, &allocation, &need));
}

#[test]
fn textbook_unsafe_state_is_a_deadlock() {
    let available = vec![0, 2, 0];
    let allocation = vec![
        vec![0, 1, 0],
        vec![3, 0, 2],
        vec![3, 0, 2],
        vec![2, 1, 1],
        vec![0, 0, 2],
    ];
    let need = vec![
        vec![7, 4, 3],
        vec![0, 2, 0],
        vec![6, 0, 0],
        vec![0, 1, 1],
        vec![4, 3, 1],
    ];
    assert!(bankers_deadlock(&available, &allocation, &need));
}

#[test]
fn bankers_without_threads_is_safe() {
    assert!(!bankers_deadlock(&vec![0, 0], &vec![], &vec![]));
}

#[test]
fn bankers_circular_wait_is_a_deadlock() {
    // each thread holds one resource and needs the other's
    let available = vec![0, 0];
    let allocation = vec![vec![1, 0], vec![0, 1]];
    let need = vec![vec![0, 1], vec![1, 0]];
    assert!(bankers_deadlock(&available, &allocation, &need));
}

#[test]
fn bankers_thread_order_does_not_matter() {
    // the second thread must finish first to free what the first needs
    let available = vec![0];
    let allocation = vec![vec![0], vec![2]];
    let need = vec![vec![2], vec![0]];
    assert!(!bankers_deadlock(&available, &allocation, &need));
}

#[test]
fn unlocked_mutex_never_deadlocks() {
    let ms = vec![mutex(None, &[])];
    assert!(!mutex_deadlock_detect(&ms, 1, 0));
}

#[test]
fn relocking_a_held_mutex_deadlocks() {
    let ms = vec![mutex(Some(1), &[])];
    assert!(mutex_deadlock_detect(&ms, 1, 0));
}

#[test]
fn two_thread_cycle_is_detected() {
    // thread 2 holds m0 and waits for m1, held by thread 1; thread 1 asks for m0
    let ms = vec![mutex(Some(2), &[]), mutex(Some(1), &[2])];
    assert!(mutex_deadlock_detect(&ms, 1, 0));
}

#[test]
fn three_thread_cycle_is_detected() {
    // 1 asks m0 (held by 2); 2 waits m1 (held by 3); 3 waits m2 (held by 1)
    let ms = vec![
        mutex(Some(2), &[]),
        mutex(Some(3), &[2]),
        mutex(Some(1), &[3]),
    ];
    assert!(mutex_deadlock_detect(&ms, 1, 0));
}

#[test]
fn chain_that_ends_elsewhere_is_no_deadlock() {
    // 1 asks m0 (held by 2); 2 waits m1 (held by 3); 3 waits for nothing
    let ms = vec![mutex(Some(2), &[]), mutex(Some(3), &[2]), mutex(None, &[])];
    assert!(!mutex_deadlock_detect(&ms, 1, 0));
}

#[test]
fn cycle_not_through_the_requester_is_no_deadlock() {
    // 2 and 3 wait for each other; 1 asks for m0 held by 2
    let ms = vec![mutex(Some(2), &[3]), mutex(Some(3), &[2])];
    assert!(!mutex_deadlock_detect(&ms, 1, 0));
}

#[test]
fn walk_follows_only_the_first_unvisited_mutex() {
    // thread 2 sits in the queues of m1 (held by 3) and m2 (held by 1): the
    // walk goes to 3, which waits for nothing, and stops there
    let ms = vec![
        mutex(Some(2), &[]),
        mutex(Some(3), &[2]),
        mutex(Some(1), &[2]),
    ];
    assert!(!mutex_deadlock_detect(&ms, 1, 0));
}

#[test]
fn empty_slots_are_skipped() {
    let ms = vec![mutex(Some(2), &[]), None, mutex(Some(1), &[2])];
    assert!(mutex_deadlock_detect(&ms, 1, 0));
}

#[test]
fn bankers_verdict_survives_renumbering() {
    // the textbook unsafe state with threads reversed and resources rotated
    let available = vec![2, 0, 0];
    let allocation = vec![
        vec![0, 2, 0],
        vec![1, 1, 2],
        vec![0, 2, 3],
        vec![0, 2, 3],
        vec![1, 0, 0],
    ];
    let need = vec![
        vec![3, 1, 4],
        vec![1, 1, 0],
        vec![0, 0, 6],
        vec![2, 0, 0],
        vec![4, 3, 7],
    ];
    assert!(bankers_deadlock(&available, &allocation, &need));
}

#[test]
fn more_available_units_keep_a_state_safe() {
    let allocation = vec![vec![1, 0], vec![0, 1]];
    let need = vec![vec![0, 1], vec![1, 0]];
    assert!(!bankers_deadlock(&vec![0, 1], &allocation, &need));
    assert!(!bankers_deadlock(&vec![3, 1], &allocation, &need));
}
