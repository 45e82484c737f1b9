use rcore_sync::mutex_deadlock::MutexState;
use rcore_sync::process::{sys_get_time, sys_sbrk, sys_trace, PageEntry, TimeVal};
use rcore_sync::sem_deadlock::semaphore_deadlock_detect;
use rcore_sync::semaphore::{DownOutcome, Semaphore};
use rcore_sync::sync::{
    sys_condvar_create, sys_enable_deadlock_detect, sys_mutex_create, sys_mutex_lock,
    sys_semaphore_create, sys_semaphore_down, sys_semaphore_up, sys_sleep, Condvar, ProcessSync,
    DEADLOCK_DETECTED,
};
use std::collections::VecDeque;

fn process(tids: &[usize]) -> ProcessSync {
    ProcessSync {
        mutex_list: Vec::new(),
        semaphore_list: Vec::new(),
        condvar_list: Vec::new(),
        tasks: tids.iter().map(|t| Some(*t)).collect(),
        deadlock_detect_enabled: false,
    }
}

#[test]
fn created_objects_take_the_lowest_free_id() {
    let mut p = process(&[1]);
    assert_eq!(sys_mutex_create(&mut p, false), 0);
    assert_eq!(sys_mutex_create(&mut p, true), 1);
    assert_eq!(sys_mutex_create(&mut p, true), 2);
    p.mutex_list[1] = None;
    assert_eq!(sys_mutex_create(&mut p, false), 1);
    let m = p.mutex_list[1].as_ref().unwrap();
    assert!(!m.blocking);
    assert!(m.holder.is_none());
    assert!(m.wait_queue.is_empty());
    assert_eq!(p.mutex_list.len(), 3);
}

#[test]
fn semaphore_create_appends_when_full() {
    let mut p = process(&[1]);
    assert_eq!(sys_semaphore_create(&mut p, 3), 0);
    assert_eq!(sys_semaphore_create(&mut p, 1), 1);
    assert_eq!(p.semaphore_list.len(), 2);
    assert_eq!(p.semaphore_list[0].as_ref().unwrap().get_count(), 3);
    p.semaphore_list[0] = None;
    assert_eq!(sys_semaphore_create(&mut p, 5), 0);
    assert_eq!(p.semaphore_list[0].as_ref().unwrap().get_count(), 5);
}

#[test]
fn condvar_create_reuses_slots() {
    let mut p = process(&[1]);
    assert_eq!(sys_condvar_create(&mut p), 0);
    assert_eq!(sys_condvar_create(&mut p), 1);
    p.condvar_list[0] = None;
    assert_eq!(sys_condvar_create(&mut p), 0);
    assert!(p.condvar_list[0].as_ref().unwrap().wait_queue.is_empty());
    assert_eq!(Condvar::new().wait_queue.len(), 0);
}

#[test]
fn enable_deadlock_detect_accepts_only_zero_and_one() {
    let mut p = process(&[1]);
    assert_eq!(sys_enable_deadlock_detect(&mut p, 1), 0);
    assert!(p.deadlock_detect_enabled);
    assert_eq!(sys_enable_deadlock_detect(&mut p, 2), -1);
    assert!(p.deadlock_detect_enabled);
    assert_eq!(sys_enable_deadlock_detect(&mut p, 0), 0);
    assert!(!p.deadlock_detect_enabled);
    assert_eq!(sys_enable_deadlock_detect(&mut p, usize::MAX), -1);
    assert!(!p.deadlock_detect_enabled);
}

#[test]
fn mutex_lock_refuses_a_cycle_only_when_detection_is_on() {
    let mut p = process(&[1, 2]);
    p.mutex_list.push(Some(MutexState {
        blocking: true,
        holder: Some(2),
        wait_queue: VecDeque::new(),
    }));
    p.mutex_list.push(Some(MutexState {
        blocking: true,
        holder: Some(1),
        wait_queue: VecDeque::from(vec![2]),
    }));
    assert_eq!(sys_mutex_lock(&p, 1, 0), 0);
    sys_enable_deadlock_detect(&mut p, 1);
    assert_eq!(sys_mutex_lock(&p, 1, 0), DEADLOCK_DETECTED);
    assert_eq!(DEADLOCK_DETECTED, -0xdead);
    // thread 3 locking m0 closes no cycle
    assert_eq!(sys_mutex_lock(&p, 3, 0), 0);
}

#[test]
fn mutex_lock_of_a_free_mutex_proceeds() {
    let mut p = process(&[1]);
    sys_mutex_create(&mut p, true);
    sys_enable_deadlock_detect(&mut p, 1);
    assert_eq!(sys_mutex_lock(&p, 1, 0), 0);
}

#[test]
fn semaphore_up_reports_the_thread_to_wake() {
    let mut p = process(&[1, 2]);
    sys_semaphore_create(&mut p, 0);
    assert_eq!(sys_semaphore_down(&mut p, 2, 0), (0, true));
    assert_eq!(sys_semaphore_up(&mut p, 1, 0), (0, Some(2)));
    assert_eq!(sys_semaphore_up(&mut p, 1, 0), (0, None));
    assert_eq!(p.semaphore_list[0].as_ref().unwrap().get_count(), 1);
}

#[test]
fn semaphore_down_detects_the_deadlock_of_a_crossed_request() {
    let mut p = process(&[1, 2]);
    sys_semaphore_create(&mut p, 1);
    sys_semaphore_create(&mut p, 1);
    sys_enable_deadlock_detect(&mut p, 1);
    assert_eq!(sys_semaphore_down(&mut p, 1, 0), (0, false));
    assert_eq!(sys_semaphore_down(&mut p, 2, 1), (0, false));
    // thread 2 may wait for semaphore 0: thread 1 can still finish
    assert_eq!(sys_semaphore_down(&mut p, 2, 0), (0, true));
    // thread 1 waiting for semaphore 1 would leave neither able to go on
    let count_before = p.semaphore_list[1].as_ref().unwrap().get_count();
    assert_eq!(sys_semaphore_down(&mut p, 1, 1), (DEADLOCK_DETECTED, false));
    assert_eq!(p.semaphore_list[1].as_ref().unwrap().get_count(), count_before);
    assert!(p.semaphore_list[1].as_ref().unwrap().get_wait_queue_tids().is_empty());
}

#[test]
fn semaphore_down_without_detection_just_blocks() {
    let mut p = process(&[1, 2]);
    sys_semaphore_create(&mut p, 1);
    sys_semaphore_create(&mut p, 1);
    sys_semaphore_down(&mut p, 1, 0);
    sys_semaphore_down(&mut p, 2, 1);
    sys_semaphore_down(&mut p, 2, 0);
    assert_eq!(sys_semaphore_down(&mut p, 1, 1), (0, true));
    assert_eq!(
        p.semaphore_list[1].as_ref().unwrap().get_wait_queue_tids(),
        vec![1]
    );
}

#[test]
fn semaphore_down_with_units_left_skips_detection() {
    let mut p = process(&[1]);
    sys_semaphore_create(&mut p, 2);
    sys_enable_deadlock_detect(&mut p, 1);
    assert_eq!(sys_semaphore_down(&mut p, 1, 0), (0, false));
    assert_eq!(sys_semaphore_down(&mut p, 1, 0), (0, false));
    assert_eq!(p.semaphore_list[0].as_ref().unwrap().get_holders(), vec![1, 1]);
}

#[test]
fn semaphore_detector_ignores_exited_threads_and_empty_slots() {
    let mut p = process(&[]);
    p.tasks = vec![Some(1), None, Some(2)];
    let mut s0 = Semaphore::new(1);
    assert_eq!(s0.down(1), DownOutcome::Acquired);
    let mut s1 = Semaphore::new(1);
    assert_eq!(s1.down(2), DownOutcome::Acquired);
    assert_eq!(s1.down(1), DownOutcome::Blocked);
    p.semaphore_list = vec![Some(s0), None, Some(s1)];
    // 2 asks for s0 (held by 1, who waits for s1 held by 2)
    assert!(semaphore_deadlock_detect(&p.semaphore_list, &p.tasks, 2, 0));
    // a thread unknown to the process adds no request: thread 2 can finish,
    // and then thread 1
    assert!(!semaphore_deadlock_detect(&p.semaphore_list, &p.tasks, 9, 0));
    // with the waiter gone, the request is safe
    p.semaphore_list[2].as_mut().unwrap().inner.wait_queue.clear();
    assert!(!semaphore_deadlock_detect(&p.semaphore_list, &p.tasks, 2, 0));
}

#[test]
fn get_time_splits_microseconds() {
    let mut ts = TimeVal { sec: 0, usec: 0 };
    assert_eq!(sys_get_time(3_250_001, &mut ts), 0);
    assert_eq!(ts, TimeVal { sec: 3, usec: 250_001 });
    assert_eq!(sys_get_time(999_999, &mut ts), 0);
    assert_eq!(ts, TimeVal { sec: 0, usec: 999_999 });
}

#[test]
fn trace_reads_and_writes_mapped_bytes() {
    let rw = Some(PageEntry { valid: true, writable: true });
    let ro = Some(PageEntry { valid: true, writable: false });
    let invalid = Some(PageEntry { valid: false, writable: true });
    let mut byte: u8 = 42;
    assert_eq!(sys_trace(0, 0, rw, &mut byte, 0), 42);
    assert_eq!(sys_trace(0, 0, invalid, &mut byte, 0), -1);
    assert_eq!(sys_trace(0, 0, None, &mut byte, 0), -1);
    assert_eq!(sys_trace(1, 0x1ff, rw, &mut byte, 0), 0);
    assert_eq!(byte, 0xff);
    assert_eq!(sys_trace(1, 7, ro, &mut byte, 0), -1);
    assert_eq!(byte, 0xff);
    assert_eq!(sys_trace(1, 7, None, &mut byte, 0), -1);
    assert_eq!(sys_trace(2, 0, None, &mut byte, 17), 17);
    assert_eq!(sys_trace(3, 0, rw, &mut byte, 17), -1);
    assert_eq!(byte, 0xff);
}

#[test]
fn sbrk_returns_the_old_break_or_minus_one() {
    assert_eq!(sys_sbrk(Some(0x1000)), 0x1000);
    assert_eq!(sys_sbrk(None), -1);
}

#[test]
fn sleep_sets_the_expiry() {
    assert_eq!(sys_sleep(100, 25), (0, 125));
}

fn crossed_state(order_swapped: bool, extra_unit: bool) -> (Vec<Option<Semaphore>>, Vec<Option<usize>>, usize) {
    // thread 1 holds a, waits for b; thread 2 holds b; thread 2 asks for a
    let mut a = Semaphore::new(if extra_unit { 2 } else { 1 });
    a.down(1);
    let mut b = Semaphore::new(1);
    b.down(2);
    b.down(1);
    if order_swapped {
        (vec![Some(b), None, Some(a)], vec![Some(2), None, Some(1)], 2)
    } else {
        (vec![Some(a), Some(b)], vec![Some(1), Some(2)], 0)
    }
}

#[test]
fn detector_ignores_the_order_of_threads_and_semaphores() {
    let (l1, t1, id1) = crossed_state(false, false);
    let (l2, t2, id2) = crossed_state(true, false);
    let r1 = semaphore_deadlock_detect(&l1, &t1, 2, id1);
    let r2 = semaphore_deadlock_detect(&l2, &t2, 2, id2);
    assert!(r1);
    assert_eq!(r1, r2);
}

#[test]
fn a_free_unit_makes_the_crossed_request_safe() {
    let (l1, t1, id1) = crossed_state(false, true);
    assert!(!semaphore_deadlock_detect(&l1, &t1, 2, id1));
    let (l2, t2, id2) = crossed_state(true, true);
    assert!(!semaphore_deadlock_detect(&l2, &t2, 2, id2));
}

#[test]
fn detector_ignores_order_even_with_a_repeated_tid() {
    let (l, _, id) = crossed_state(false, false);
    let a = vec![Some(1), Some(2), Some(1)];
    let b = vec![Some(2), Some(1), None, Some(1)];
    let ra = semaphore_deadlock_detect(&l, &a, 2, id);
    let rb = semaphore_deadlock_detect(&l, &b, 2, id);
    assert!(ra);
    assert_eq!(ra, rb);
}
