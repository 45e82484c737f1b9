//! Synchronisation state of a process and the decision logic of the sync
//! system calls.
//!
//! Blocking, waking and timers belong to the scheduler: a call that must block
//! or wake a thread returns that action, and the caller carries it out.
use crate::mutex_deadlock::{mutex_deadlock_detect, mutex_deadlock_spec, MutexState};
use crate::semaphore::{down_result, up_result, DownOutcome, Semaphore};
use crate::sem_deadlock::{semaphore_deadlock_detect, semaphore_deadlock_spec, semaphores_fit};
use crate::table::{alloc_slot, first_free, store_at};
use std::collections::VecDeque;
use vstd::prelude::*;

verus! {

/// Returned by a lock or `down` that would deadlock the process.
pub const DEADLOCK_DETECTED: isize = -0xdead;

/// A condition variable: the threads waiting on it, oldest first.
pub struct Condvar {
    pub wait_queue: VecDeque<usize>,
}

impl Condvar {
    /// A condition variable nobody waits on.
    pub fn new() -> (c: Self)
        ensures
            c.wait_queue@ == Seq::<usize>::empty(),
    {
        Condvar { wait_queue: VecDeque::new() }
    }
}

/// The synchronisation objects of one process and the tids of its threads.
pub struct ProcessSync {
    pub mutex_list: Vec<Option<MutexState>>,
    pub semaphore_list: Vec<Option<Semaphore>>,
    pub condvar_list: Vec<Option<Condvar>>,
    /// tids of the process's threads, `None` where a thread has exited
    pub tasks: Vec<Option<usize>>,
    pub deadlock_detect_enabled: bool,
}

/// A table entry holding a new, unlocked mutex of the given kind.
pub open spec fn is_fresh_mutex(e: Option<MutexState>, blocking: bool) -> bool {
    &&& e is Some
    &&& e->0.blocking == blocking
    &&& e->0.holder is None
    &&& e->0.wait_queue@ == Seq::<usize>::empty()
}

/// A table entry holding a new semaphore with `res_count` units.
pub open spec fn is_fresh_semaphore(e: Option<Semaphore>, res_count: usize) -> bool {
    &&& e is Some
    &&& e->0@.count == res_count as isize
    &&& e->0@.holders == Seq::<usize>::empty()
    &&& e->0@.waiting == Seq::<usize>::empty()
}

/// `new` is `old` with only the semaphore in slot `id` changed.
pub open spec fn only_semaphore_changed(old: ProcessSync, new: ProcessSync, id: int) -> bool {
    &&& new.mutex_list == old.mutex_list
    &&& new.condvar_list == old.condvar_list
    &&& new.tasks == old.tasks
    &&& new.deadlock_detect_enabled == old.deadlock_detect_enabled
    &&& new.semaphore_list@.len() == old.semaphore_list@.len()
    &&& new.semaphore_list@[id] is Some
    &&& forall|k: int|
        0 <= k < old.semaphore_list@.len() && k != id ==> new.semaphore_list@[k]
            == old.semaphore_list@[k]
}

/// mutex create syscall: a spinning or blocking mutex in the lowest free slot
/// (or a new one); returns its id.
pub fn sys_mutex_create(process: &mut ProcessSync, blocking: bool) -> (ret: isize)
    ensures
        ret == first_free(old(process).mutex_list@) as isize,
        final(process).mutex_list@ == store_at(
            old(process).mutex_list@,
            first_free(old(process).mutex_list@),
            final(process).mutex_list@[first_free(old(process).mutex_list@)]->0,
        ),
        is_fresh_mutex(
            final(process).mutex_list@[first_free(old(process).mutex_list@)],
            blocking,
        ),
        final(process).semaphore_list == old(process).semaphore_list,
        final(process).condvar_list == old(process).condvar_list,
        final(process).tasks == old(process).tasks,
        final(process).deadlock_detect_enabled == old(process).deadlock_detect_enabled,
{
    let mutex = MutexState::new(blocking);
    let id = alloc_slot(&mut process.mutex_list, mutex);
    id as isize
}

/// mutex lock syscall, by thread `my_tid`. With deadlock detection on, a lock
/// of a held mutex that would close a wait-for cycle is refused with
/// `DEADLOCK_DETECTED`; otherwise returns 0 and the caller locks the mutex
/// (blocking while it is held).
pub fn sys_mutex_lock(process: &ProcessSync, my_tid: usize, mutex_id: usize) -> (ret: isize)
    requires
        mutex_id < process.mutex_list@.len(),
        process.mutex_list@[mutex_id as int] is Some,
    ensures
        ret == if process.deadlock_detect_enabled && process.mutex_list@[mutex_id as int]->0.holder is Some
            && mutex_deadlock_spec(process.mutex_list@, my_tid, mutex_id as int) {
            DEADLOCK_DETECTED
        } else {
            0
        },
{
    // Check deadlock before locking
    if process.deadlock_detect_enabled {
        let locked = process.mutex_list[mutex_id].as_ref().unwrap().holder.is_some();
        if locked && mutex_deadlock_detect(&process.mutex_list, my_tid, mutex_id) {
            return DEADLOCK_DETECTED;
        }
    }
    0
}

/// semaphore create syscall: a semaphore with `res_count` units in the lowest
/// free slot (or a new one); returns its id.
pub fn sys_semaphore_create(process: &mut ProcessSync, res_count: usize) -> (ret: isize)
    ensures
        ret == first_free(old(process).semaphore_list@) as isize,
        final(process).semaphore_list@ == store_at(
            old(process).semaphore_list@,
            first_free(old(process).semaphore_list@),
            final(process).semaphore_list@[first_free(old(process).semaphore_list@)]->0,
        ),
        is_fresh_semaphore(
            final(process).semaphore_list@[first_free(old(process).semaphore_list@)],
            res_count,
        ),
        final(process).mutex_list == old(process).mutex_list,
        final(process).condvar_list == old(process).condvar_list,
        final(process).tasks == old(process).tasks,
        final(process).deadlock_detect_enabled == old(process).deadlock_detect_enabled,
{
    let sem = Semaphore::new(res_count);
    let id = alloc_slot(&mut process.semaphore_list, sem);
    id as isize
}

/// semaphore up syscall, by thread `my_tid`: returns 0 and the thread to wake, if any.
pub fn sys_semaphore_up(process: &mut ProcessSync, my_tid: usize, sem_id: usize) -> (ret: (isize, Option<usize>))
    requires
        sem_id < old(process).semaphore_list@.len(),
        old(process).semaphore_list@[sem_id as int] is Some,
        old(process).semaphore_list@[sem_id as int]->0@.count < isize::MAX,
    ensures
        ret.0 == 0,
        only_semaphore_changed(*old(process), *final(process), sem_id as int),
        (final(process).semaphore_list@[sem_id as int]->0@, ret.1) == up_result(
            old(process).semaphore_list@[sem_id as int]->0@,
            my_tid,
        ),
{
    let mut sem = process.semaphore_list[sem_id].take().unwrap();
    let woken = sem.up(my_tid);
    process.semaphore_list.set(sem_id, Some(sem));
    (0, woken)
}

/// semaphore down syscall, by thread `my_tid`. With deadlock detection on, a
/// `down` that would block and that the banker's algorithm finds unsafe is
/// refused with `DEADLOCK_DETECTED` and changes nothing. Otherwise returns 0
/// and whether the caller must block; a blocked caller, once woken, completes
/// with `Semaphore::finish_down`.
pub fn sys_semaphore_down(process: &mut ProcessSync, my_tid: usize, sem_id: usize) -> (ret: (isize, bool))
    requires
        sem_id < old(process).semaphore_list@.len(),
        old(process).semaphore_list@[sem_id as int] is Some,
        old(process).semaphore_list@[sem_id as int]->0@.count > isize::MIN,
        old(process).deadlock_detect_enabled && old(process).semaphore_list@[sem_id as int]->0@.count
            <= 0 ==> semaphores_fit(old(process).semaphore_list@),
    ensures
        ({
            let before = old(process).semaphore_list@[sem_id as int]->0@;
            if old(process).deadlock_detect_enabled && before.count <= 0 && semaphore_deadlock_spec(
                old(process).semaphore_list@,
                old(process).tasks@,
                my_tid,
                sem_id as int,
            ) {
                &&& ret == (DEADLOCK_DETECTED, false)
                &&& *final(process) == *old(process)
            } else {
                &&& ret.0 == 0
                &&& only_semaphore_changed(*old(process), *final(process), sem_id as int)
                &&& final(process).semaphore_list@[sem_id as int]->0@ == down_result(
                    before,
                    my_tid,
                ).0
                &&& ret.1 == (down_result(before, my_tid).1 == DownOutcome::Blocked)
            }
        }),
{
    // Check deadlock before down
    if process.deadlock_detect_enabled {
        let would_block = process.semaphore_list[sem_id].as_ref().unwrap().get_count() <= 0;
        if would_block && semaphore_deadlock_detect(
            &process.semaphore_list,
            &process.tasks,
            my_tid,
            sem_id,
        ) {
            return (DEADLOCK_DETECTED, false);
        }
    }
    let mut sem = process.semaphore_list[sem_id].take().unwrap();
    let outcome = sem.down(my_tid);
    process.semaphore_list.set(sem_id, Some(sem));
    (0, outcome == DownOutcome::Blocked)
}

/// condvar create syscall: a condition variable in the lowest free slot (or a
/// new one); returns its id.
pub fn sys_condvar_create(process: &mut ProcessSync) -> (ret: isize)
    ensures
        ret == first_free(old(process).condvar_list@) as isize,
        final(process).condvar_list@ == store_at(
            old(process).condvar_list@,
            first_free(old(process).condvar_list@),
            final(process).condvar_list@[first_free(old(process).condvar_list@)]->0,
        ),
        final(process).condvar_list@[first_free(old(process).condvar_list@)] is Some,
        final(process).condvar_list@[first_free(
            old(process).condvar_list@,
        )]->0.wait_queue@ == Seq::<usize>::empty(),
        final(process).mutex_list == old(process).mutex_list,
        final(process).semaphore_list == old(process).semaphore_list,
        final(process).tasks == old(process).tasks,
        final(process).deadlock_detect_enabled == old(process).deadlock_detect_enabled,
{
    let id = alloc_slot(&mut process.condvar_list, Condvar::new());
    id as isize
}

/// enable deadlock detection syscall: 1 turns detection on, 0 off (returns 0);
/// any other value is refused with -1 and changes nothing.
pub fn sys_enable_deadlock_detect(process: &mut ProcessSync, enabled: usize) -> (ret: isize)
    ensures
        enabled == 0 || enabled == 1 ==> ret == 0 && final(process).deadlock_detect_enabled == (
        enabled == 1),
        !(enabled == 0 || enabled == 1) ==> ret == -1 && final(process).deadlock_detect_enabled
            == old(process).deadlock_detect_enabled,
        final(process).mutex_list == old(process).mutex_list,
        final(process).semaphore_list == old(process).semaphore_list,
        final(process).condvar_list == old(process).condvar_list,
        final(process).tasks == old(process).tasks,
{
    if enabled != 0 && enabled != 1 {
        return -1;
    }
    process.deadlock_detect_enabled = enabled == 1;
    0
}

/// sleep syscall at time `now_ms`: returns 0 and the time (ms) at which the
/// caller's timer expires; the caller blocks until then.
pub fn sys_sleep(now_ms: usize, ms: usize) -> (ret: (isize, usize))
    requires
        now_ms + ms <= usize::MAX,
    ensures
        ret == (0isize, (now_ms + ms) as usize),
{
    let expire_ms = now_ms + ms;
    (0, expire_ms)
}

} // verus!
