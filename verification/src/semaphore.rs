//! Counting semaphore that records which threads hold its units and which
//! wait for one.
use crate::seqs::{
    first_index,
    is_first_index, lemma_first_index_is, lemma_first_index_range, position_of, remove_first,
};
use std::collections::VecDeque;
use vstd::prelude::*;

verus! {

/// What a semaphore holds.
pub struct SemaphoreInner {
    /// Units left; a negative value counts the threads waiting.
    pub count: isize,
    /// tids of threads currently holding units of this semaphore
    pub holders: Vec<usize>,
    /// tids of the threads blocked in `down`, oldest first
    pub wait_queue: VecDeque<usize>,
}

/// A counting semaphore.
pub struct Semaphore {
    pub inner: SemaphoreInner,
}

/// What `down` asks of the scheduler.
#[derive(PartialEq, Eq, Structural, Debug, Clone, Copy)]
pub enum DownOutcome {
    /// A unit was free: the caller now holds it and goes on.
    Acquired,
    /// No unit was free: the caller was queued and must block until woken.
    Blocked,
}

/// Abstract state of a semaphore.
pub ghost struct SemaphoreModel {
    pub count: int,
    pub holders: Seq<usize>,
    pub waiting: Seq<usize>,
}

/// Effect of `up` by thread `tid`: one more unit, `tid` stops holding one, and
/// when the count is still not positive the oldest waiter is woken.
pub open spec fn up_result(v: SemaphoreModel, tid: usize) -> (SemaphoreModel, Option<usize>) {
    let count = v.count + 1;
    let holders = remove_first(v.holders, tid);
    if count <= 0 && v.waiting.len() > 0 {
        (SemaphoreModel { count, holders, waiting: v.waiting.drop_first() }, Some(v.waiting[0]))
    } else {
        (SemaphoreModel { count, holders, waiting: v.waiting }, None)
    }
}

/// Effect of `down` by thread `tid`: one unit less; the caller holds it when
/// the count stays non-negative, and is queued otherwise.
pub open spec fn down_result(v: SemaphoreModel, tid: usize) -> (SemaphoreModel, DownOutcome) {
    let count = v.count - 1;
    if count < 0 {
        (
            SemaphoreModel { count, holders: v.holders, waiting: v.waiting.push(tid) },
            DownOutcome::Blocked,
        )
    } else {
        (
            SemaphoreModel { count, holders: v.holders.push(tid), waiting: v.waiting },
            DownOutcome::Acquired,
        )
    }
}

/// The semaphore's balance: as many threads wait as the count is below zero,
/// and none wait while it is not.
pub open spec fn balanced(v: SemaphoreModel) -> bool {
    v.waiting.len() == if v.count < 0 { -v.count } else { 0 }
}

/// What `up` by thread `tid` does: one more unit; the caller gives back its
/// earliest unit (the holders lose exactly that entry, the rest kept in order,
/// and stay as they were when the caller holds none); and when the count is
/// still not positive and someone waits, the oldest waiter is woken and leaves
/// the queue, otherwise nobody is woken and the queue stays.
pub proof fn lemma_up_behaviour(v: SemaphoreModel, tid: usize)
    ensures
        up_result(v, tid).0.count == v.count + 1,
        !v.holders.contains(tid) ==> up_result(v, tid).0.holders == v.holders,
        v.holders.contains(tid) ==> exists|p: int|
            0 <= p < v.holders.len() && v.holders[p] == tid && (forall|k: int|
                0 <= k < p ==> v.holders[k] != tid) && up_result(v, tid).0.holders
                == v.holders.remove(p),
        up_result(v, tid).0.holders.len() == if v.holders.contains(tid) {
            v.holders.len() - 1
        } else {
            v.holders.len() as int
        },
        v.count + 1 <= 0 && v.waiting.len() > 0 ==> up_result(v, tid).1 == Some(v.waiting[0])
            && up_result(v, tid).0.waiting == v.waiting.subrange(1, v.waiting.len() as int),
        !(v.count + 1 <= 0 && v.waiting.len() > 0) ==> up_result(v, tid).1 is None && up_result(
            v,
            tid,
        ).0.waiting == v.waiting,
{
    lemma_first_index_range(v.holders, tid);
    if v.holders.contains(tid) {
        let p = first_index(v.holders, tid);
        assert(is_first_index(v.holders, tid, p));
    }
}

/// What `down` by thread `tid` does: one unit less; with no unit free
/// (count not positive) the caller is queued last and blocks, the holders
/// untouched; otherwise it is added as the last holder and the queue stays.
pub proof fn lemma_down_behaviour(v: SemaphoreModel, tid: usize)
    ensures
        down_result(v, tid).0.count == v.count - 1,
        v.count <= 0 ==> down_result(v, tid).1 == DownOutcome::Blocked && down_result(
            v,
            tid,
        ).0.holders == v.holders && down_result(v, tid).0.waiting == v.waiting.push(tid),
        v.count > 0 ==> down_result(v, tid).1 == DownOutcome::Acquired && down_result(
            v,
            tid,
        ).0.holders == v.holders.push(tid) && down_result(v, tid).0.waiting == v.waiting,
{
}

/// Every `up` and `down` keeps the balance between a negative count and the
/// waiters, whatever the count; and under the balance an `up` wakes a thread
/// exactly when the count was negative.
pub proof fn lemma_balance_kept(v: SemaphoreModel, tid: usize)
    requires
        balanced(v),
    ensures
        balanced(down_result(v, tid).0),
        balanced(up_result(v, tid).0),
        up_result(v, tid).1 is Some <==> v.count < 0,
{
}

/// A `down` that acquires a unit, followed by an `up` of the same thread,
/// gives the semaphore back exactly as it was and wakes nobody (provided the
/// thread held no unit before).
pub proof fn lemma_down_then_up_restores(v: SemaphoreModel, tid: usize)
    requires
        v.count >= 1,
        !v.holders.contains(tid),
    ensures
        down_result(v, tid).1 == DownOutcome::Acquired,
        up_result(down_result(v, tid).0, tid) == (v, None::<usize>),
{
    let h = v.holders.push(tid);
    assert forall|k: int| 0 <= k < v.holders.len() implies h[k] != tid by {
        assert(h[k] == v.holders[k]);
    }
    assert(is_first_index(h, tid, v.holders.len() as int));
    lemma_first_index_is(h, tid, v.holders.len() as int);
    assert(h.remove(v.holders.len() as int) =~= v.holders);
}

impl View for Semaphore {
    type V = SemaphoreModel;

    open spec fn view(&self) -> SemaphoreModel {
        SemaphoreModel {
            count: self.inner.count as int,
            holders: self.inner.holders@,
            waiting: self.inner.wait_queue@,
        }
    }
}

impl Semaphore {
    /// Create a new semaphore with `res_count` units.
    pub fn new(res_count: usize) -> (s: Self)
        ensures
            s@.count == res_count as isize,
            s@.holders == Seq::<usize>::empty(),
            s@.waiting == Seq::<usize>::empty(),
            res_count <= isize::MAX ==> balanced(s@),
    {
        Semaphore {
            inner: SemaphoreInner {
                count: res_count as isize,
                holders: Vec::new(),
                wait_queue: VecDeque::new(),
            },
        }
    }

    /// up operation of semaphore, by thread `tid`; returns the thread to wake.
    pub fn up(&mut self, tid: usize) -> (woken: Option<usize>)
        requires
            old(self)@.count < isize::MAX,
        ensures
            (final(self)@, woken) == up_result(old(self)@, tid),
            balanced(old(self)@) ==> balanced(final(self)@) && (woken is Some <==> old(
                self,
            )@.count < 0),
    {
        self.inner.count = self.inner.count + 1;
        // Remove this thread from holders
        if let Some(pos) = position_of(&self.inner.holders, tid) {
            proof {
                lemma_first_index_range(self.inner.holders@, tid);
            }
            self.inner.holders.remove(pos);
        }
        if self.inner.count <= 0 {
            if let Some(task) = self.inner.wait_queue.pop_front() {
                return Some(task);
            }
        }
        None
    }

    /// down operation of semaphore, by thread `tid`. (`lemma_balance_kept`
    /// states the balance law for every count.)
    pub fn down(&mut self, tid: usize) -> (outcome: DownOutcome)
        requires
            old(self)@.count > isize::MIN,
        ensures
            (final(self)@, outcome) == down_result(old(self)@, tid),
            balanced(old(self)@) ==> balanced(final(self)@),
    {
        self.inner.count = self.inner.count - 1;
        if self.inner.count < 0 {
            self.inner.wait_queue.push_back(tid);
            DownOutcome::Blocked
        } else {
            self.inner.holders.push(tid);
            DownOutcome::Acquired
        }
    }

    /// Second half of a `down` that blocked: the woken thread `tid` now holds a unit.
    pub fn finish_down(&mut self, tid: usize)
        ensures
            final(self)@ == (SemaphoreModel { holders: old(self)@.holders.push(tid), ..old(self)@ }),
    {
        self.inner.holders.push(tid);
    }

    /// Get the current count for deadlock detection
    pub fn get_count(&self) -> (c: isize)
        ensures
            c == self@.count,
    {
        self.inner.count
    }

    /// Get the tids of current holders for deadlock detection
    pub fn get_holders(&self) -> (h: Vec<usize>)
        ensures
            h@ == self@.holders,
    {
        let mut h: Vec<usize> = Vec::new();
        let mut i: usize = 0;
        while i < self.inner.holders.len()
            invariant
                i <= self.inner.holders@.len(),
                h@ == self.inner.holders@.take(i as int),
            decreases self.inner.holders@.len() - i,
        {
            h.push(self.inner.holders[i]);
            i = i + 1;
            assert(h@ =~= self.inner.holders@.take(i as int));
        }
        assert(h@ =~= self.inner.holders@);
        h
    }

    /// Get the tids of waiting threads for deadlock detection
    pub fn get_wait_queue_tids(&self) -> (w: Vec<usize>)
        ensures
            w@ == self@.waiting,
    {
        let mut w: Vec<usize> = Vec::new();
        let mut i: usize = 0;
        while i < self.inner.wait_queue.len()
            invariant
                i <= self.inner.wait_queue@.len(),
                w@ == self.inner.wait_queue@.take(i as int),
            decreases self.inner.wait_queue@.len() - i,
        {
            w.push(self.inner.wait_queue[i]);
            i = i + 1;
            assert(w@ =~= self.inner.wait_queue@.take(i as int));
        }
        assert(w@ =~= self.inner.wait_queue@);
        w
    }
}

} // verus!
