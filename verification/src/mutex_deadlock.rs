//! Mutex deadlock detection by following the wait-for chain from the holder
//! of the requested mutex.
use crate::seqs::{queue_contains, vec_contains};
use std::collections::VecDeque;
use vstd::prelude::*;
use vstd::set_lib::{lemma_int_range, lemma_len_subset, set_int_range};

verus! {

/// What the kernel knows of one mutex of a process.
pub struct MutexState {
    /// Blocking mutex (the waiter sleeps) rather than a spinning one.
    pub blocking: bool,
    /// tid of the thread holding the mutex, when it is locked
    pub holder: Option<usize>,
    /// tids of the threads waiting to lock it, oldest first
    pub wait_queue: VecDeque<usize>,
}

impl MutexState {
    /// A fresh, unlocked mutex with nobody waiting.
    pub fn new(blocking: bool) -> (m: Self)
        ensures
            m.blocking == blocking,
            m.holder is None,
            m.wait_queue@ == Seq::<usize>::empty(),
    {
        MutexState { blocking, holder: None, wait_queue: VecDeque::new() }
    }
}

/// Mutex `k` exists and thread `t` holds it.
pub open spec fn holds(ms: Seq<Option<MutexState>>, k: int, t: usize) -> bool {
    &&& 0 <= k < ms.len()
    &&& ms[k] is Some
    &&& ms[k]->0.holder == Some(t)
}

/// Thread `t` holds some mutex.
pub open spec fn is_holder(ms: Seq<Option<MutexState>>, t: usize) -> bool {
    exists|k: int| holds(ms, k, t)
}

/// Thread `a` waits for a mutex that thread `b` holds.
pub open spec fn waits_for(ms: Seq<Option<MutexState>>, a: usize, b: usize) -> bool {
    exists|k: int| holds(ms, k, b) && ms[k]->0.wait_queue@.contains(a)
}

/// Each thread of `p` waits for a mutex held by the next one.
pub open spec fn is_wait_chain(ms: Seq<Option<MutexState>>, p: Seq<usize>) -> bool {
    &&& p.len() >= 1
    &&& forall|i: int| 0 <= i < p.len() - 1 ==> waits_for(ms, #[trigger] p[i], p[i + 1])
}

/// No thread waits in the queues of two different mutexes.
pub open spec fn waits_on_one_mutex(ms: Seq<Option<MutexState>>) -> bool {
    forall|a: usize, k1: int, k2: int|
        0 <= k1 < ms.len() && 0 <= k2 < ms.len() && ms[k1] is Some && ms[k2] is Some
            && ms[k1]->0.wait_queue@.contains(a) && ms[k2]->0.wait_queue@.contains(a) ==> k1 == k2
}

/// Mutex `k` is a step of the walk from `cur`: `cur` waits for it, it is held,
/// and its holder is the requesting thread `me` or not yet visited.
pub open spec fn step_ok(
    ms: Seq<Option<MutexState>>,
    visited: Seq<usize>,
    me: usize,
    cur: usize,
    k: int,
) -> bool {
    &&& 0 <= k < ms.len()
    &&& ms[k] is Some
    &&& ms[k]->0.wait_queue@.contains(cur)
    &&& ms[k]->0.holder is Some
    &&& (ms[k]->0.holder->0 == me || !visited.contains(ms[k]->0.holder->0))
}

/// `k` is the first mutex, in table order, that is a step of the walk.
pub open spec fn first_step(
    ms: Seq<Option<MutexState>>,
    visited: Seq<usize>,
    me: usize,
    cur: usize,
    k: int,
) -> bool {
    step_ok(ms, visited, me, cur, k) && forall|k2: int|
        0 <= k2 < k ==> !step_ok(ms, visited, me, cur, k2)
}

/// Index of the mutex the walk takes from `cur`, or -1 when there is none.
pub open spec fn next_step(ms: Seq<Option<MutexState>>, visited: Seq<usize>, me: usize, cur: usize) -> int {
    if exists|k: int| first_step(ms, visited, me, cur, k) {
        choose|k: int| first_step(ms, visited, me, cur, k)
    } else {
        -1
    }
}

/// The walk from `cur`, having visited `visited`, reaches the requesting
/// thread `me`. Each step adds a thread holding some mutex, so the walk never
/// visits more threads than there are mutexes.
pub open spec fn chain_closes(ms: Seq<Option<MutexState>>, me: usize, visited: Seq<usize>, cur: usize) -> bool
    decreases ms.len() + 1 - visited.len(),
{
    if visited.len() > ms.len() {
        false
    } else {
        let k = next_step(ms, visited, me, cur);
        if k < 0 {
            false
        } else if ms[k]->0.holder->0 == me {
            true
        } else {
            chain_closes(ms, me, visited.push(ms[k]->0.holder->0), ms[k]->0.holder->0)
        }
    }
}

/// Locking mutex `id` by thread `me` would deadlock: `me` holds it already, or
/// the wait-for walk from its holder comes back to `me`.
pub open spec fn mutex_deadlock_spec(ms: Seq<Option<MutexState>>, me: usize, id: int) -> bool {
    match ms[id]->0.holder {
        None => false,
        Some(h) => h == me || chain_closes(ms, me, seq![h], h),
    }
}

proof fn lemma_first_step_unique(
    ms: Seq<Option<MutexState>>,
    visited: Seq<usize>,
    me: usize,
    cur: usize,
    k: int,
)
    requires
        first_step(ms, visited, me, cur, k),
    ensures
        next_step(ms, visited, me, cur) == k,
{
    let k2 = choose|k2: int| first_step(ms, visited, me, cur, k2);
    if k2 < k {
        assert(!step_ok(ms, visited, me, cur, k2));
    }
    if k < k2 {
        assert(!step_ok(ms, visited, me, cur, k));
    }
}

/// Distinct threads that each hold some mutex are no more than the mutexes.
proof fn lemma_holders_bounded(ms: Seq<Option<MutexState>>, visited: Seq<usize>)
    requires
        visited.no_duplicates(),
        forall|i: int| 0 <= i < visited.len() ==> is_holder(ms, #[trigger] visited[i]),
    ensures
        visited.len() <= ms.len(),
{
    let idx = Seq::new(visited.len(), |i: int| choose|k: int| holds(ms, k, visited[i]));
    assert forall|i: int| 0 <= i < idx.len() implies holds(ms, idx[i], visited[i]) by {
        assert(is_holder(ms, visited[i]));
    }
    assert forall|a: int, b: int| 0 <= a < idx.len() && 0 <= b < idx.len() && a != b implies idx[a]
        != idx[b] by {
        assert(holds(ms, idx[a], visited[a]));
        assert(holds(ms, idx[b], visited[b]));
    }
    assert(idx.no_duplicates());
    idx.unique_seq_to_set();
    lemma_int_range(0, ms.len() as int);
    assert forall|x: int| idx.to_set().contains(x) implies set_int_range(0, ms.len() as int).contains(
        x,
    ) by {
        let i = choose|i: int| 0 <= i < idx.len() && idx[i] == x;
        assert(holds(ms, idx[i], visited[i]));
    }
    lemma_len_subset(idx.to_set(), set_int_range(0, ms.len() as int));
}

proof fn lemma_chain_sound(ms: Seq<Option<MutexState>>, me: usize, visited: Seq<usize>, cur: usize)
    requires
        chain_closes(ms, me, visited, cur),
    ensures
        exists|p: Seq<usize>| is_wait_chain(ms, p) && p[0] == cur && p.last() == me,
    decreases ms.len() + 1 - visited.len(),
{
    let k = next_step(ms, visited, me, cur);
    assert(first_step(ms, visited, me, cur, k));
    let h = ms[k]->0.holder->0;
    assert(holds(ms, k, h));
    assert(waits_for(ms, cur, h));
    if h == me {
        let p = seq![cur, me];
        assert forall|i: int| 0 <= i < p.len() - 1 implies waits_for(ms, #[trigger] p[i], p[i + 1]) by {
            assert(p[0] == cur && p[1] == me);
        }
        assert(is_wait_chain(ms, p) && p[0] == cur && p.last() == me);
    } else {
        lemma_chain_sound(ms, me, visited.push(h), h);
        let q = choose|q: Seq<usize>| is_wait_chain(ms, q) && q[0] == h && q.last() == me;
        let p = seq![cur] + q;
        assert forall|i: int| 0 <= i < p.len() - 1 implies waits_for(ms, #[trigger] p[i], p[i + 1]) by {
            if i > 0 {
                assert(p[i] == q[i - 1]);
                assert(p[i + 1] == q[i]);
            }
        }
        assert(is_wait_chain(ms, p) && p[0] == cur && p.last() == me);
    }
}

/// When locking mutex `id` is reported as a deadlock, there really is a cycle:
/// its holder is `me`, or a chain of threads, each waiting for a mutex the next
/// one holds, leads from its holder back to `me`.
pub proof fn lemma_mutex_detect_sound(ms: Seq<Option<MutexState>>, me: usize, id: int)
    requires
        0 <= id < ms.len(),
        ms[id] is Some,
        mutex_deadlock_spec(ms, me, id),
    ensures
        exists|p: Seq<usize>|
            is_wait_chain(ms, p) && p[0] == ms[id]->0.holder->0 && p.last() == me,
{
    let h = ms[id]->0.holder->0;
    if h == me {
        let p = seq![h];
        assert(is_wait_chain(ms, p) && p[0] == h && p.last() == me);
    } else {
        lemma_chain_sound(ms, me, seq![h], h);
    }
}

/// A wait chain can be shortened to one that visits no thread twice.
proof fn lemma_simple_chain(ms: Seq<Option<MutexState>>, p: Seq<usize>)
    requires
        is_wait_chain(ms, p),
    ensures
        exists|q: Seq<usize>|
            is_wait_chain(ms, q) && q.no_duplicates() && q[0] == p[0] && q.last() == p.last(),
    decreases p.len(),
{
    if p.no_duplicates() {
    } else {
        let (i, j) = choose|i: int, j: int|
            0 <= i < p.len() && 0 <= j < p.len() && i != j && p[i] == p[j];
        let (a, b) = if i < j {
            (i, j)
        } else {
            (j, i)
        };
        let q = p.take(a + 1) + p.skip(b + 1);
        assert(q.len() == p.len() - (b - a));
        assert forall|x: int| 0 <= x < q.len() - 1 implies waits_for(ms, #[trigger] q[x], q[x + 1]) by {
            if x < a {
                assert(q[x] == p[x] && q[x + 1] == p[x + 1]);
            } else if x == a {
                assert(q[x] == p[b] && q[x + 1] == p[b + 1]);
            } else {
                assert(q[x] == p[x + b - a] && q[x + 1] == p[x + 1 + b - a]);
            }
        }
        assert(q[0] == p[0]);
        if b == p.len() - 1 {
            assert(q.last() == p[a]);
        } else {
            assert(q.last() == p.last());
        }
        lemma_simple_chain(ms, q);
    }
}

proof fn lemma_walk_complete(
    ms: Seq<Option<MutexState>>,
    me: usize,
    visited: Seq<usize>,
    cur: usize,
    q: Seq<usize>,
)
    requires
        waits_on_one_mutex(ms),
        is_wait_chain(ms, q),
        q.no_duplicates(),
        q[0] == cur,
        q.last() == me,
        cur != me,
        forall|i: int| 1 <= i < q.len() ==> !visited.contains(#[trigger] q[i]),
        visited.no_duplicates(),
        forall|i: int| 0 <= i < visited.len() ==> is_holder(ms, #[trigger] visited[i]),
    ensures
        chain_closes(ms, me, visited, cur),
    decreases q.len(),
{
    lemma_holders_bounded(ms, visited);
    assert(q.len() >= 2);
    assert(waits_for(ms, q[0], q[1]));
    let k = choose|k: int| holds(ms, k, q[1]) && ms[k]->0.wait_queue@.contains(q[0]);
    assert(step_ok(ms, visited, me, cur, k));
    assert forall|k2: int| 0 <= k2 < k implies !step_ok(ms, visited, me, cur, k2) by {
        if step_ok(ms, visited, me, cur, k2) {
            assert(k2 == k);
        }
    }
    lemma_first_step_unique(ms, visited, me, cur, k);
    if q[1] != me {
        let nv = visited.push(q[1]);
        let nq = q.drop_first();
        assert(is_holder(ms, q[1]));
        assert forall|i: int| 0 <= i < nv.len() implies is_holder(ms, #[trigger] nv[i]) by {
            if i < visited.len() {
                assert(nv[i] == visited[i]);
            }
        }
        assert forall|i: int| 1 <= i < nq.len() implies !nv.contains(#[trigger] nq[i]) by {
            assert(nq[i] == q[i + 1]);
            assert(!visited.contains(q[i + 1]));
            if nv.contains(nq[i]) {
                let x = choose|x: int| 0 <= x < nv.len() && nv[x] == nq[i];
                if x < visited.len() {
                    assert(visited[x] == q[i + 1]);
                }
            }
        }
        assert(!visited.contains(q[1]));
        assert forall|a: int, b: int|
            0 <= a < nv.len() && 0 <= b < nv.len() && a != b implies nv[a] != nv[b] by {
            if a < visited.len() && b < visited.len() {
                assert(nv[a] == visited[a] && nv[b] == visited[b]);
            } else if a < visited.len() {
                assert(nv[a] == visited[a]);
            } else if b < visited.len() {
                assert(nv[b] == visited[b]);
            }
        }
        assert forall|i: int| 0 <= i < nq.len() - 1 implies waits_for(ms, #[trigger] nq[i], nq[i + 1]) by {
            assert(nq[i] == q[i + 1] && nq[i + 1] == q[i + 2]);
        }
        lemma_walk_complete(ms, me, nv, q[1], nq);
    }
}

/// When no thread waits on two mutexes at once (as in a running system, where
/// a blocked thread sits in one queue), detection misses no deadlock: if a
/// wait chain leads from the holder of mutex `id` to `me`, locking `id` by
/// `me` is reported.
pub proof fn lemma_mutex_detect_complete(ms: Seq<Option<MutexState>>, me: usize, id: int, p: Seq<usize>)
    requires
        0 <= id < ms.len(),
        ms[id] is Some,
        ms[id]->0.holder is Some,
        waits_on_one_mutex(ms),
        is_wait_chain(ms, p),
        p[0] == ms[id]->0.holder->0,
        p.last() == me,
    ensures
        mutex_deadlock_spec(ms, me, id),
{
    let h = ms[id]->0.holder->0;
    if h != me {
        lemma_simple_chain(ms, p);
        let q = choose|q: Seq<usize>|
            is_wait_chain(ms, q) && q.no_duplicates() && q[0] == p[0] && q.last() == p.last();
        let v = seq![h];
        assert(holds(ms, id, h));
        assert(is_holder(ms, v[0]));
        assert forall|i: int| 1 <= i < q.len() implies !v.contains(#[trigger] q[i]) by {
            if v.contains(q[i]) {
                assert(v[0] == q[i]);
                assert(q[0] == q[i]);
            }
        }
        lemma_walk_complete(ms, me, v, h, q);
    }
}

/// Mutex `id` is held, and a wait chain leads from its holder to `me`: `me`
/// locking it would close a cycle of waiting threads.
pub open spec fn closes_wait_cycle(ms: Seq<Option<MutexState>>, me: usize, id: int) -> bool {
    &&& ms[id]->0.holder is Some
    &&& exists|p: Seq<usize>| is_wait_chain(ms, p) && p[0] == ms[id]->0.holder->0 && p.last() == me
}

/// When no thread waits on two mutexes at once, detection reports exactly the
/// locks that would close a cycle of waiting threads.
pub proof fn lemma_mutex_detect_exact(ms: Seq<Option<MutexState>>, me: usize, id: int)
    requires
        0 <= id < ms.len(),
        ms[id] is Some,
        waits_on_one_mutex(ms),
    ensures
        mutex_deadlock_spec(ms, me, id) <==> closes_wait_cycle(ms, me, id),
{
    if mutex_deadlock_spec(ms, me, id) {
        lemma_mutex_detect_sound(ms, me, id);
    }
    if closes_wait_cycle(ms, me, id) {
        let p = choose|p: Seq<usize>|
            is_wait_chain(ms, p) && p[0] == ms[id]->0.holder->0 && p.last() == me;
        lemma_mutex_detect_complete(ms, me, id, p);
    }
}

/// The first mutex that is a step of the walk from `cur`.
fn next_wait_step(mutex_list: &Vec<Option<MutexState>>, visited: &Vec<usize>, my_tid: usize, cur: usize) -> (r: Option<usize>)
    ensures
        match r {
            Some(k) => first_step(mutex_list@, visited@, my_tid, cur, k as int),
            None => forall|k: int| !step_ok(mutex_list@, visited@, my_tid, cur, k),
        },
{
    let mut k: usize = 0;
    while k < mutex_list.len()
        invariant
            k <= mutex_list@.len(),
            forall|k2: int| 0 <= k2 < k ==> !step_ok(mutex_list@, visited@, my_tid, cur, k2),
        decreases mutex_list@.len() - k,
    {
        if let Some(m) = &mutex_list[k] {
            if queue_contains(&m.wait_queue, cur) {
                if let Some(next_holder) = m.holder {
                    if next_holder == my_tid || !vec_contains(visited, next_holder) {
                        return Some(k);
                    }
                }
            }
        }
        k = k + 1;
    }
    None
}

/// Check if locking `mutex_id` by thread `my_tid` would cause a deadlock.
/// Uses simple cycle detection: follow holder chain to see if we reach ourselves.
pub fn mutex_deadlock_detect(mutex_list: &Vec<Option<MutexState>>, my_tid: usize, mutex_id: usize) -> (deadlock: bool)
    requires
        mutex_id < mutex_list@.len(),
        mutex_list@[mutex_id as int] is Some,
    ensures
        deadlock == mutex_deadlock_spec(mutex_list@, my_tid, mutex_id as int),
        waits_on_one_mutex(mutex_list@) ==> (deadlock <==> closes_wait_cycle(
            mutex_list@,
            my_tid,
            mutex_id as int,
        )),
{
    let ghost ms = mutex_list@;
    proof {
        if waits_on_one_mutex(ms) {
            lemma_mutex_detect_exact(ms, my_tid, mutex_id as int);
        }
    }
    // Get holder of target mutex
    let target_mutex = mutex_list[mutex_id].as_ref().unwrap();
    let mut current_holder = match target_mutex.holder {
        Some(tid) => tid,
        None => return false,  // mutex is not locked, no deadlock
    };
    // Self-deadlock: same thread trying to lock a mutex it already holds
    if current_holder == my_tid {
        return true;
    }
    // Follow the wait-for chain: the mutex the holder waits for, its holder, and so on.
    let mut visited: Vec<usize> = Vec::new();
    visited.push(current_holder);
    proof {
        assert(visited@ =~= seq![current_holder]);
        assert(holds(ms, mutex_id as int, visited@[0]));
        assert(is_holder(ms, visited@[0]));
    }
    loop
        invariant
            ms == mutex_list@,
            mutex_id < ms.len(),
            ms[mutex_id as int] is Some,
            ms[mutex_id as int]->0.holder is Some,
            ms[mutex_id as int]->0.holder->0 != my_tid,
            visited@.len() >= 1,
            current_holder != my_tid,
            visited@.no_duplicates(),
            forall|i: int| 0 <= i < visited@.len() ==> is_holder(ms, #[trigger] visited@[i]),
            waits_on_one_mutex(ms) ==> (mutex_deadlock_spec(ms, my_tid, mutex_id as int)
                <==> closes_wait_cycle(ms, my_tid, mutex_id as int)),
            mutex_deadlock_spec(ms, my_tid, mutex_id as int) == chain_closes(
                ms,
                my_tid,
                visited@,
                current_holder,
            ),
        decreases ms.len() + 1 - visited@.len(),
    {
        proof {
            lemma_holders_bounded(ms, visited@);
        }
        match next_wait_step(mutex_list, &visited, my_tid, current_holder) {
            None => {
                proof {
                    if exists|k: int| first_step(ms, visited@, my_tid, current_holder, k) {
                        let k = choose|k: int| first_step(ms, visited@, my_tid, current_holder, k);
                        assert(step_ok(ms, visited@, my_tid, current_holder, k));
                    }
                }
                return false;  // holder is not waiting for any mutex, no cycle
            },
            Some(k) => {
                proof {
                    lemma_first_step_unique(ms, visited@, my_tid, current_holder, k as int);
                }
                let next_holder = mutex_list[k].as_ref().unwrap().holder.unwrap();
                if next_holder == my_tid {
                    return true;  // cycle: we're in the chain
                }
                let ghost old_visited = visited@;
                visited.push(next_holder);
                current_holder = next_holder;
                proof {
                    assert(holds(ms, k as int, next_holder));
                    assert forall|i: int| 0 <= i < visited@.len() implies is_holder(
                        ms,
                        #[trigger] visited@[i],
                    ) by {
                        if i < old_visited.len() {
                            assert(visited@[i] == old_visited[i]);
                        } else {
                            assert(holds(ms, k as int, visited@[i]));
                        }
                    }
                    assert forall|a: int, b: int|
                        0 <= a < visited@.len() && 0 <= b < visited@.len() && a != b implies visited@[a]
                        != visited@[b] by {
                        if b == old_visited.len() {
                            assert(!old_visited.contains(next_holder));
                        }
                        if a == old_visited.len() {
                            assert(!old_visited.contains(next_holder));
                        }
                    }
                }
            },
        }
    }
}

} // verus!
