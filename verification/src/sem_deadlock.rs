//! Semaphore deadlock detection: the banker's algorithm run on what the
//! semaphores of a process record.
use crate::bankers::{
    bankers_deadlock, bankers_input_ok, bankers_unsafe, int_rows, ints, is_permutation,
    lemma_bankers_more_available, lemma_bankers_renumbered, lemma_stuck_thread, lemma_permutation_onto, released,
};
use crate::semaphore::Semaphore;
use crate::seqs::{first_index, lemma_first_index_range, position_of};
use crate::table::{lemma_somes_all, lemma_somes_prefix, lemma_somes_step, somes};
use vstd::prelude::*;

verus! {

/// Entries of `s` that belong to thread slot `i`: their tid first occurs at
/// position `i` of `tids`.
pub open spec fn count_slot(s: Seq<usize>, tids: Seq<usize>, i: int) -> int
    decreases s.len(),
{
    if s.len() == 0 {
        0
    } else {
        count_slot(s.drop_last(), tids, i) + if first_index(tids, s.last()) == i {
            1int
        } else {
            0int
        }
    }
}

/// Available units of each semaphore (a negative count offers none).
pub open spec fn avail_of(sems: Seq<Semaphore>) -> Seq<int> {
    Seq::new(sems.len(), |j: int| if sems[j]@.count > 0 { sems[j]@.count } else { 0 })
}

/// Units of semaphore `j` held by thread `i`.
pub open spec fn alloc_of(sems: Seq<Semaphore>, tids: Seq<usize>) -> Seq<Seq<int>> {
    Seq::new(
        tids.len(),
        |i: int| Seq::new(sems.len(), |j: int| count_slot(sems[j]@.holders, tids, i)),
    )
}

/// Units of semaphore `j` that thread `i` waits for, counting the request of
/// thread `me` for semaphore `jt`.
pub open spec fn need_of(sems: Seq<Semaphore>, tids: Seq<usize>, me: usize, jt: int) -> Seq<Seq<int>> {
    Seq::new(
        tids.len(),
        |i: int|
            Seq::new(
                sems.len(),
                |j: int|
                    count_slot(sems[j]@.waiting, tids, i) + if i == first_index(tids, me) && j
                        == jt {
                        1int
                    } else {
                        0int
                    },
            ),
    )
}

/// A `down` of semaphore `sem_id` by thread `me` would deadlock the process:
/// it has semaphores, and the banker's algorithm over its live threads (the
/// tids in `tasks`) finds no order in which all of them finish.
pub open spec fn semaphore_deadlock_spec(
    list: Seq<Option<Semaphore>>,
    tasks: Seq<Option<usize>>,
    me: usize,
    sem_id: int,
) -> bool {
    let sems = somes(list);
    let tids = somes(tasks);
    let jt = somes(list.take(sem_id)).len() as int;
    sems.len() > 0 && bankers_unsafe(avail_of(sems), alloc_of(sems, tids), need_of(sems, tids, me, jt))
}

/// For each semaphore, its available units plus its holders, and its waiters
/// plus one, fit in an `isize` (the detector counts them in `isize`).
pub open spec fn semaphores_fit(list: Seq<Option<Semaphore>>) -> bool {
    forall|k: int|
        0 <= k < list.len() && #[trigger] list[k] is Some ==> {
            let v = list[k]->0@;
            &&& (if v.count > 0 {
                v.count
            } else {
                0
            }) + v.holders.len() <= isize::MAX
            &&& v.waiting.len() < isize::MAX
        }
}

/// Entries of `s` whose tid occurs among the first `n` of `tids`.
pub open spec fn slot_total(s: Seq<usize>, tids: Seq<usize>, n: nat) -> int
    decreases n,
{
    if n == 0 {
        0
    } else {
        slot_total(s, tids, (n - 1) as nat) + count_slot(s, tids, n - 1)
    }
}

proof fn lemma_count_slot_bounds(s: Seq<usize>, tids: Seq<usize>, i: int)
    ensures
        0 <= count_slot(s, tids, i) <= s.len(),
    decreases s.len(),
{
    if s.len() > 0 {
        lemma_count_slot_bounds(s.drop_last(), tids, i);
    }
}

proof fn lemma_slot_total_step(s: Seq<usize>, tids: Seq<usize>, n: nat)
    requires
        s.len() > 0,
    ensures
        slot_total(s, tids, n) == slot_total(s.drop_last(), tids, n) + if 0 <= first_index(
            tids,
            s.last(),
        ) < n {
            1int
        } else {
            0int
        },
    decreases n,
{
    if n > 0 {
        lemma_slot_total_step(s, tids, (n - 1) as nat);
    }
}

proof fn lemma_slot_total_le(s: Seq<usize>, tids: Seq<usize>, n: nat)
    ensures
        slot_total(s, tids, n) <= s.len(),
    decreases s.len(),
{
    if s.len() == 0 {
        lemma_slot_total_zero(s, tids, n);
    } else {
        lemma_slot_total_step(s, tids, n);
        lemma_slot_total_le(s.drop_last(), tids, n);
    }
}

proof fn lemma_slot_total_zero(s: Seq<usize>, tids: Seq<usize>, n: nat)
    requires
        s.len() == 0,
    ensures
        slot_total(s, tids, n) == 0,
    decreases n,
{
    if n > 0 {
        lemma_slot_total_zero(s, tids, (n - 1) as nat);
    }
}

proof fn lemma_released_is_slot_total(sems: Seq<Semaphore>, tids: Seq<usize>, j: int, n: nat)
    requires
        n <= tids.len(),
        0 <= j < sems.len(),
    ensures
        released(alloc_of(sems, tids), Set::full(), j, n) == slot_total(sems[j]@.holders, tids, n),
    decreases n,
{
    if n > 0 {
        lemma_released_is_slot_total(sems, tids, j, (n - 1) as nat);
    }
}

/// `list2` is `list1` with some semaphore counts raised: the same slots, the
/// same holders and the same waiters.
pub open spec fn more_units(list1: Seq<Option<Semaphore>>, list2: Seq<Option<Semaphore>>) -> bool {
    &&& list1.len() == list2.len()
    &&& forall|k: int| 0 <= k < list1.len() ==> (#[trigger] list1[k] is Some <==> list2[k] is Some)
    &&& forall|k: int|
        0 <= k < list1.len() && #[trigger] list1[k] is Some ==> {
            &&& list2[k]->0@.holders == list1[k]->0@.holders
            &&& list2[k]->0@.waiting == list1[k]->0@.waiting
            &&& list1[k]->0@.count <= list2[k]->0@.count
        }
}

spec fn sems_more(s1: Seq<Semaphore>, s2: Seq<Semaphore>) -> bool {
    &&& s1.len() == s2.len()
    &&& forall|j: int|
        0 <= j < s1.len() ==> {
            &&& (#[trigger] s2[j])@.holders == s1[j]@.holders
            &&& s2[j]@.waiting == s1[j]@.waiting
            &&& s1[j]@.count <= s2[j]@.count
        }
}

proof fn lemma_somes_more(l1: Seq<Option<Semaphore>>, l2: Seq<Option<Semaphore>>)
    requires
        more_units(l1, l2),
    ensures
        sems_more(somes(l1), somes(l2)),
    decreases l1.len(),
{
    if l1.len() > 0 {
        let k = l1.len() - 1;
        assert(l1[k] is Some <==> l2[k] is Some);
        assert(more_units(l1.drop_last(), l2.drop_last())) by {
            assert forall|i: int| 0 <= i < l1.drop_last().len() implies (#[trigger] l1.drop_last()[i] is Some
                <==> l2.drop_last()[i] is Some) by {
                assert(l1[i] is Some <==> l2[i] is Some);
            }
            assert forall|i: int|
                0 <= i < l1.drop_last().len() && #[trigger] l1.drop_last()[i] is Some implies {
                &&& l2.drop_last()[i]->0@.holders == l1.drop_last()[i]->0@.holders
                &&& l2.drop_last()[i]->0@.waiting == l1.drop_last()[i]->0@.waiting
                &&& l1.drop_last()[i]->0@.count <= l2.drop_last()[i]->0@.count
            } by {
                assert(l1[i] is Some);
            }
        }
        lemma_somes_more(l1.drop_last(), l2.drop_last());
        if l1[k] is Some {
            assert(l1[k] is Some);
        }
    }
}

/// More free units never turn a safe `down` into a deadlock: when a process
/// differs from another only in having higher semaphore counts (the same
/// threads, holders and waiters), a request the detector lets through in the
/// first is let through in the second.
pub proof fn lemma_more_units_stay_safe(
    list1: Seq<Option<Semaphore>>,
    list2: Seq<Option<Semaphore>>,
    tasks: Seq<Option<usize>>,
    me: usize,
    sem_id: int,
)
    requires
        0 <= sem_id <= list1.len(),
        more_units(list1, list2),
        !semaphore_deadlock_spec(list1, tasks, me, sem_id),
    ensures
        !semaphore_deadlock_spec(list2, tasks, me, sem_id),
{
    let s1 = somes(list1);
    let s2 = somes(list2);
    let tids = somes(tasks);
    lemma_somes_more(list1, list2);
    assert(more_units(list1.take(sem_id), list2.take(sem_id))) by {
        assert forall|k: int| 0 <= k < sem_id implies (#[trigger] list1.take(sem_id)[k] is Some
            <==> list2.take(sem_id)[k] is Some) by {
            assert(list1[k] is Some <==> list2[k] is Some);
        }
        assert forall|k: int|
            0 <= k < sem_id && #[trigger] list1.take(sem_id)[k] is Some implies {
            &&& list2.take(sem_id)[k]->0@.holders == list1.take(sem_id)[k]->0@.holders
            &&& list2.take(sem_id)[k]->0@.waiting == list1.take(sem_id)[k]->0@.waiting
            &&& list1.take(sem_id)[k]->0@.count <= list2.take(sem_id)[k]->0@.count
        } by {
            assert(list1[k] is Some);
        }
    }
    lemma_somes_more(list1.take(sem_id), list2.take(sem_id));
    let jt = somes(list1.take(sem_id)).len() as int;
    if s1.len() > 0 {
        assert forall|i: int| 0 <= i < tids.len() implies #[trigger] alloc_of(s2, tids)[i] =~= alloc_of(
            s1,
            tids,
        )[i] by {
            assert forall|j: int| 0 <= j < s1.len() implies alloc_of(s2, tids)[i][j] == alloc_of(
                s1,
                tids,
            )[i][j] by {
                assert(s2[j]@.holders == s1[j]@.holders);
            }
        }
        assert(alloc_of(s2, tids) =~= alloc_of(s1, tids));
        assert forall|i: int| 0 <= i < tids.len() implies #[trigger] need_of(s2, tids, me, jt)[i]
            =~= need_of(s1, tids, me, jt)[i] by {
            assert forall|j: int| 0 <= j < s1.len() implies need_of(s2, tids, me, jt)[i][j]
                == need_of(s1, tids, me, jt)[i][j] by {
                assert(s2[j]@.waiting == s1[j]@.waiting);
            }
        }
        assert(need_of(s2, tids, me, jt) =~= need_of(s1, tids, me, jt));
        assert forall|j: int| 0 <= j < s1.len() implies avail_of(s1)[j] <= avail_of(s2)[j] by {
            assert(s1[j]@.count <= s2[j]@.count);
        }
        lemma_bankers_more_available(
            avail_of(s1),
            avail_of(s2),
            alloc_of(s1, tids),
            need_of(s1, tids, me, jt),
        );
    }
}

/// Position in the first thread list that plays the part of position `j`
/// once the second list (the first permuted by `tp`) is read: for the tid `x`
/// at `j`, the position `a` that the first occurrence of `x` in the second
/// list comes from and the first occurrence `b` of `x` in the first list
/// trade places; every other position stays.
pub open spec fn class_swap(t1: Seq<usize>, t2: Seq<usize>, tp: Seq<int>, j: int) -> int {
    let x = t1[j];
    let a = tp[first_index(t2, x)];
    let b = first_index(t1, x);
    if j == a {
        b
    } else if j == b {
        a
    } else {
        j
    }
}

/// Thread `i` of the second list corresponds to thread `row_match(..)[i]` of
/// the first: first occurrences of a tid to first occurrences, repeats to
/// repeats.
pub open spec fn row_match(t1: Seq<usize>, t2: Seq<usize>, tp: Seq<int>) -> Seq<int> {
    Seq::new(t1.len(), |i: int| class_swap(t1, t2, tp, tp[i]))
}

proof fn lemma_class_swap(t1: Seq<usize>, t2: Seq<usize>, tp: Seq<int>, j: int)
    requires
        is_permutation(tp, t1.len() as int),
        t2.len() == t1.len(),
        forall|k: int| 0 <= k < t2.len() ==> #[trigger] t2[k] == t1[tp[k]],
        0 <= j < t1.len(),
    ensures
        0 <= first_index(t2, t1[j]) < t1.len(),
        0 <= tp[first_index(t2, t1[j])] < t1.len(),
        t1[tp[first_index(t2, t1[j])]] == t1[j],
        0 <= first_index(t1, t1[j]) < t1.len(),
        t1[first_index(t1, t1[j])] == t1[j],
        0 <= class_swap(t1, t2, tp, j) < t1.len(),
        t1[class_swap(t1, t2, tp, j)] == t1[j],
        class_swap(t1, t2, tp, class_swap(t1, t2, tp, j)) == j,
{
    let x = t1[j];
    lemma_permutation_onto(tp, t1.len() as int);
    assert(tp.contains(j));
    let i = choose|i: int| 0 <= i < tp.len() && tp[i] == j;
    assert(t2[i] == x);
    lemma_first_index_range(t2, x);
    lemma_first_index_range(t1, x);
    assert(t1[j] == x);
    let f2 = first_index(t2, x);
    assert(t2[f2] == x);
    assert(t1[tp[f2]] == x);
}

/// The tid `y` is first met at position `i` of the second list exactly when it
/// is first met at the matching position of the first list.
proof fn lemma_first_index_matched(t1: Seq<usize>, t2: Seq<usize>, tp: Seq<int>, y: usize, i: int)
    requires
        is_permutation(tp, t1.len() as int),
        t2.len() == t1.len(),
        forall|k: int| 0 <= k < t2.len() ==> #[trigger] t2[k] == t1[tp[k]],
        0 <= i < t1.len(),
    ensures
        (first_index(t2, y) == i) <==> (first_index(t1, y) == row_match(t1, t2, tp)[i]),
{
    let j = tp[i];
    let x = t1[j];
    lemma_class_swap(t1, t2, tp, j);
    assert(t2[i] == x);
    let a = tp[first_index(t2, x)];
    let b = first_index(t1, x);
    let sig = row_match(t1, t2, tp)[i];
    assert(sig == class_swap(t1, t2, tp, j));
    lemma_first_index_range(t2, y);
    lemma_first_index_range(t1, y);
    if first_index(t2, y) == i {
        assert(y == x);
        assert(j == a);
    }
    if first_index(t1, y) == sig {
        assert(t1[sig] == y);
        assert(y == x);
        if j != a {
            if j == b {
                assert(sig == a);
                assert(a != b);
            } else {
                assert(sig == j);
            }
        }
        assert(j == a);
        assert(tp[i] == tp[first_index(t2, x)]);
        assert(i == first_index(t2, x));
    }
}

/// `row_match` is a permutation of the threads.
proof fn lemma_row_match_permutation(t1: Seq<usize>, t2: Seq<usize>, tp: Seq<int>)
    requires
        is_permutation(tp, t1.len() as int),
        t2.len() == t1.len(),
        forall|k: int| 0 <= k < t2.len() ==> #[trigger] t2[k] == t1[tp[k]],
    ensures
        is_permutation(row_match(t1, t2, tp), t1.len() as int),
{
    let r = row_match(t1, t2, tp);
    assert forall|i: int| 0 <= i < t1.len() implies 0 <= #[trigger] r[i] < t1.len() by {
        lemma_class_swap(t1, t2, tp, tp[i]);
    }
    assert forall|a: int, b: int| 0 <= a < r.len() && 0 <= b < r.len() && a != b implies r[a]
        != r[b] by {
        lemma_class_swap(t1, t2, tp, tp[a]);
        lemma_class_swap(t1, t2, tp, tp[b]);
        assert(tp[a] != tp[b]);
        if r[a] == r[b] {
            assert(class_swap(t1, t2, tp, r[a]) == tp[a]);
            assert(class_swap(t1, t2, tp, r[b]) == tp[b]);
        }
    }
}

proof fn lemma_count_slot_matched(
    s: Seq<usize>,
    t1: Seq<usize>,
    t2: Seq<usize>,
    tp: Seq<int>,
    i: int,
)
    requires
        is_permutation(tp, t1.len() as int),
        t2.len() == t1.len(),
        forall|k: int| 0 <= k < t2.len() ==> #[trigger] t2[k] == t1[tp[k]],
        0 <= i < t1.len(),
    ensures
        count_slot(s, t2, i) == count_slot(s, t1, row_match(t1, t2, tp)[i]),
    decreases s.len(),
{
    if s.len() > 0 {
        lemma_count_slot_matched(s.drop_last(), t1, t2, tp, i);
        lemma_first_index_matched(t1, t2, tp, s.last(), i);
    }
}

/// Where the requested semaphore stands among the semaphores of the table.
pub open spec fn live_position(list: Seq<Option<Semaphore>>, sem_id: int) -> int {
    somes(list.take(sem_id)).len() as int
}

/// The detector's answer does not depend on the order of the thread list or
/// of the semaphore table. The second process lists its threads (ignoring
/// exited ones) as the first permuted by `tp`, and its semaphores (ignoring
/// empty slots) as the first permuted by `sp`, with the requested semaphore
/// the same one. A tid listed more than once counts at its first position
/// only, so the answer holds with repeated tids too.
pub proof fn lemma_detect_order_independent(
    list1: Seq<Option<Semaphore>>,
    tasks1: Seq<Option<usize>>,
    id1: int,
    list2: Seq<Option<Semaphore>>,
    tasks2: Seq<Option<usize>>,
    id2: int,
    me: usize,
    sp: Seq<int>,
    tp: Seq<int>,
)
    requires
        0 <= id1 < list1.len(),
        list1[id1] is Some,
        0 <= id2 < list2.len(),
        list2[id2] is Some,
        is_permutation(sp, somes(list1).len() as int),
        somes(list2).len() == somes(list1).len(),
        forall|j: int| 0 <= j < somes(list2).len() ==> #[trigger] somes(list2)[j] == somes(list1)[sp[j]],
        sp[live_position(list2, id2)] == live_position(list1, id1),
        is_permutation(tp, somes(tasks1).len() as int),
        somes(tasks2).len() == somes(tasks1).len(),
        forall|i: int| 0 <= i < somes(tasks2).len() ==> #[trigger] somes(tasks2)[i] == somes(tasks1)[tp[i]],
    ensures
        semaphore_deadlock_spec(list1, tasks1, me, id1) == semaphore_deadlock_spec(
            list2,
            tasks2,
            me,
            id2,
        ),
{
    let s1 = somes(list1);
    let s2 = somes(list2);
    let t1 = somes(tasks1);
    let t2 = somes(tasks2);
    let jt1 = live_position(list1, id1);
    let jt2 = live_position(list2, id2);
    let m = s1.len() as int;
    let n = t1.len() as int;
    lemma_somes_step(list2, id2);
    lemma_somes_prefix(list2, id2 + 1);
    assert(0 <= jt2 < m);
    let rp = row_match(t1, t2, tp);
    lemma_row_match_permutation(t1, t2, tp);
    assert forall|j: int| 0 <= j < m implies avail_of(s2)[j] == avail_of(s1)[sp[j]] by {
        assert(s2[j] == s1[sp[j]]);
    }
    assert forall|i: int, j: int| 0 <= i < n && 0 <= j < m implies alloc_of(s2, t2)[i][j] == alloc_of(
        s1,
        t1,
    )[rp[i]][sp[j]] && need_of(s2, t2, me, jt2)[i][j] == need_of(s1, t1, me, jt1)[rp[i]][sp[j]] by {
        assert(s2[j] == s1[sp[j]]);
        lemma_count_slot_matched(s2[j]@.holders, t1, t2, tp, i);
        lemma_count_slot_matched(s2[j]@.waiting, t1, t2, tp, i);
        lemma_first_index_matched(t1, t2, tp, me, i);
        if sp[j] == jt1 {
            assert(sp[j] == sp[jt2]);
        }
    }
    lemma_bankers_renumbered(
        avail_of(s1),
        alloc_of(s1, t1),
        need_of(s1, t1, me, jt1),
        avail_of(s2),
        alloc_of(s2, t2),
        need_of(s2, t2, me, jt2),
        rp,
        sp,
    );
}

proof fn lemma_count_slot_positive(s: Seq<usize>, tids: Seq<usize>, t: usize)
    requires
        s.contains(t),
    ensures
        count_slot(s, tids, first_index(tids, t)) >= 1,
    decreases s.len(),
{
    lemma_count_slot_bounds(s, tids, first_index(tids, t));
    let d = s.drop_last();
    if s.last() != t {
        let k = choose|k: int| 0 <= k < s.len() && s[k] == t;
        assert(d[k] == t);
        lemma_count_slot_positive(d, tids, t);
    } else {
        lemma_count_slot_bounds(d, tids, first_index(tids, t));
    }
}

proof fn lemma_count_slot_none(s: Seq<usize>, tids: Seq<usize>, i: int)
    requires
        forall|k: int| 0 <= k < s.len() ==> first_index(tids, #[trigger] s[k]) != i,
    ensures
        count_slot(s, tids, i) == 0,
    decreases s.len(),
{
    if s.len() > 0 {
        assert(first_index(tids, s[s.len() - 1]) != i);
        lemma_count_slot_none(s.drop_last(), tids, i);
    }
}

/// Thread `t` needs `extra` more units of the semaphore in slot `k` than it
/// waits for, no unit of it is free, and no live thread but `t` holds one:
/// the detector finds a deadlock.
proof fn lemma_detect_stuck(
    list: Seq<Option<Semaphore>>,
    tasks: Seq<Option<usize>>,
    me: usize,
    sem_id: int,
    k: int,
    t: usize,
)
    requires
        0 <= sem_id < list.len(),
        list[sem_id] is Some,
        0 <= k < list.len(),
        list[k] is Some,
        list[k]->0@.count <= 0,
        somes(tasks).contains(t),
        list[k]->0@.waiting.contains(t) || (t == me && k == sem_id),
        forall|h: usize|
            list[k]->0@.holders.contains(h) ==> h == t || !somes(tasks).contains(h),
    ensures
        semaphore_deadlock_spec(list, tasks, me, sem_id),
{
    let sems = somes(list);
    let tids = somes(tasks);
    lemma_somes_step(list, k);
    lemma_somes_prefix(list, k + 1);
    let j = somes(list.take(k)).len() as int;
    assert(sems[j] == list[k]->0);
    let jt = somes(list.take(sem_id)).len() as int;
    if t == me && k == sem_id {
        assert(jt == j);
    }
    lemma_first_index_range(tids, t);
    let i0 = first_index(tids, t);
    let v = list[k]->0@;
    lemma_count_slot_bounds(v.waiting, tids, i0);
    if v.waiting.contains(t) {
        lemma_count_slot_positive(v.waiting, tids, t);
    }
    assert(need_of(sems, tids, me, jt)[i0][j] >= 1);
    assert(avail_of(sems)[j] == 0);
    assert forall|i: int| 0 <= i < tids.len() && i != i0 implies alloc_of(sems, tids)[i][j] == 0 by {
        assert forall|q: int| 0 <= q < v.holders.len() implies first_index(tids, #[trigger] v.holders[q])
            != i by {
            let h = v.holders[q];
            assert(v.holders.contains(h));
            lemma_first_index_range(tids, h);
        }
        lemma_count_slot_none(v.holders, tids, i);
    }
    lemma_stuck_thread(avail_of(sems), alloc_of(sems, tids), need_of(sems, tids, me, jt), i0, j);
}

/// A live thread waiting on a semaphore with no free unit, which no other live
/// thread holds (for instance one with no holder at all), can never be served:
/// every request is then reported as a deadlock.
pub proof fn lemma_hopeless_waiter_is_deadlock(
    list: Seq<Option<Semaphore>>,
    tasks: Seq<Option<usize>>,
    me: usize,
    sem_id: int,
    k: int,
    t: usize,
)
    requires
        0 <= sem_id < list.len(),
        list[sem_id] is Some,
        0 <= k < list.len(),
        list[k] is Some,
        list[k]->0@.count <= 0,
        somes(tasks).contains(t),
        list[k]->0@.waiting.contains(t),
        forall|h: usize|
            list[k]->0@.holders.contains(h) ==> h == t || !somes(tasks).contains(h),
    ensures
        semaphore_deadlock_spec(list, tasks, me, sem_id),
{
    lemma_detect_stuck(list, tasks, me, sem_id, k, t);
}

/// A live thread asking for a semaphore with no free unit that no other live
/// thread holds is refused, also when it holds units of it itself (it would
/// wait on itself); in particular the only thread of a process always is.
pub proof fn lemma_request_nobody_can_serve_is_deadlock(
    list: Seq<Option<Semaphore>>,
    tasks: Seq<Option<usize>>,
    me: usize,
    sem_id: int,
)
    requires
        0 <= sem_id < list.len(),
        list[sem_id] is Some,
        list[sem_id]->0@.count <= 0,
        somes(tasks).contains(me),
        forall|h: usize|
            list[sem_id]->0@.holders.contains(h) ==> h == me || !somes(tasks).contains(h),
    ensures
        semaphore_deadlock_spec(list, tasks, me, sem_id),
{
    lemma_detect_stuck(list, tasks, me, sem_id, sem_id, me);
}

/// A row of `m` zeros.
fn zeros(m: usize) -> (v: Vec<isize>)
    ensures
        v@.len() == m,
        forall|j: int| 0 <= j < m ==> v@[j] == 0,
{
    let mut v: Vec<isize> = Vec::new();
    let mut j: usize = 0;
    while j < m
        invariant
            j <= m,
            v@.len() == j,
            forall|k: int| 0 <= k < j ==> v@[k] == 0,
        decreases m - j,
    {
        v.push(0);
        j = j + 1;
    }
    v
}

/// Adds to column `j` of `matrix`, for every entry of `items`, one unit in the
/// row of the thread slot that entry belongs to.
fn add_column_counts(matrix: &mut Vec<Vec<isize>>, tids: &Vec<usize>, items: &Vec<usize>, j: usize)
    requires
        old(matrix)@.len() == tids@.len(),
        forall|i: int| 0 <= i < old(matrix)@.len() ==> j < (#[trigger] old(matrix)@[i])@.len(),
        forall|i: int|
            0 <= i < old(matrix)@.len() ==> 0 <= (#[trigger] old(matrix)@[i])@[j as int]
                && old(matrix)@[i]@[j as int] + items@.len() <= isize::MAX,
    ensures
        final(matrix)@.len() == old(matrix)@.len(),
        forall|i: int|
            0 <= i < final(matrix)@.len() ==> (#[trigger] final(matrix)@[i])@.len()
                == old(matrix)@[i]@.len(),
        forall|i: int, j2: int|
            0 <= i < final(matrix)@.len() && 0 <= j2 < final(matrix)@[i]@.len()
                ==> (#[trigger] final(matrix)@[i]@[j2]) == old(matrix)@[i]@[j2] + if j2 == j {
                count_slot(items@, tids@, i)
            } else {
                0
            },
{
    let ghost m0 = matrix@;
    let mut h: usize = 0;
    while h < items.len()
        invariant
            h <= items@.len(),
            matrix@.len() == m0.len(),
            m0.len() == tids@.len(),
            m0 == old(matrix)@,
            forall|i: int| 0 <= i < m0.len() ==> j < (#[trigger] m0[i])@.len(),
            forall|i: int|
                0 <= i < m0.len() ==> 0 <= (#[trigger] m0[i])@[j as int] && m0[i]@[j as int]
                    + items@.len() <= isize::MAX,
            forall|i: int| 0 <= i < matrix@.len() ==> (#[trigger] matrix@[i])@.len() == m0[i]@.len(),
            forall|i: int, j2: int|
                0 <= i < matrix@.len() && 0 <= j2 < matrix@[i]@.len() ==> (#[trigger] matrix@[i]@[j2])
                    == m0[i]@[j2] + if j2 == j {
                    count_slot(items@.take(h as int), tids@, i)
                } else {
                    0
                },
        decreases items@.len() - h,
    {
        let ghost before = matrix@;
        let p = position_of(tids, items[h]);
        proof {
            assert(items@.take(h + 1).drop_last() =~= items@.take(h as int));
            lemma_first_index_range(tids@, items@[h as int]);
            assert forall|i: int| 0 <= i < m0.len() implies count_slot(
                items@.take(h as int),
                tids@,
                i,
            ) <= h by {
                lemma_count_slot_bounds(items@.take(h as int), tids@, i);
            }
        }
        if let Some(i) = p {
            let cur = matrix[i][j];
            matrix[i][j] = cur + 1;
            proof {
                assert forall|i2: int| 0 <= i2 < matrix@.len() implies (#[trigger] matrix@[i2])@.len()
                    == m0[i2]@.len() by {
                    if i2 == i {
                    } else {
                        assert(matrix@[i2] == before[i2]);
                    }
                }
            }
        }
        h = h + 1;
        proof {
            assert forall|i2: int, j2: int|
                0 <= i2 < matrix@.len() && 0 <= j2 < matrix@[i2]@.len() implies (#[trigger] matrix@[i2]@[j2])
                == m0[i2]@[j2] + if j2 == j {
                count_slot(items@.take(h as int), tids@, i2)
            } else {
                0
            } by {
                assert(items@.take(h as int).last() == items@[h - 1]);
                if p is Some && i2 == p->0 as int {
                } else {
                    assert(matrix@[i2] == before[i2]);
                }
            }
        }
    }
    assert(items@.take(items@.len() as int) =~= items@);
}

/// Banker's algorithm for semaphore deadlock detection: would a `down` of
/// semaphore `sem_id` by thread `my_tid` lead to deadlock? `tasks` holds the
/// tids of the process's threads (`None` where a thread has exited).
pub fn semaphore_deadlock_detect(
    semaphore_list: &Vec<Option<Semaphore>>,
    tasks: &Vec<Option<usize>>,
    my_tid: usize,
    sem_id: usize,
) -> (deadlock: bool)
    requires
        sem_id < semaphore_list@.len(),
        semaphore_list@[sem_id as int] is Some,
        semaphores_fit(semaphore_list@),
    ensures
        deadlock == semaphore_deadlock_spec(semaphore_list@, tasks@, my_tid, sem_id as int),
{
    let ghost list = semaphore_list@;
    let ghost sems = somes(list);
    // Collect all semaphores (by their slots), and find the requested one among them
    let mut sem_idx: Vec<usize> = Vec::new();
    let mut target_j: usize = 0;
    let mut idx: usize = 0;
    while idx < semaphore_list.len()
        invariant
            idx <= list.len(),
            list == semaphore_list@,
            sem_id < list.len(),
            list[sem_id as int] is Some,
            sem_idx@.len() == somes(list.take(idx as int)).len(),
            forall|j: int|
                0 <= j < sem_idx@.len() ==> #[trigger] sem_idx@[j] < idx && list[sem_idx@[j] as int] is Some
                    && list[sem_idx@[j] as int]->0 == somes(list.take(idx as int))[j],
            sem_id < idx ==> target_j == somes(list.take(sem_id as int)).len(),
        decreases list.len() - idx,
    {
        proof {
            lemma_somes_step(list, idx as int);
        }
        if semaphore_list[idx].is_some() {
            if idx == sem_id {
                target_j = sem_idx.len();
            }
            sem_idx.push(idx);
        }
        idx = idx + 1;
    }
    proof {
        lemma_somes_all(list);
        lemma_somes_step(list, sem_id as int);
        lemma_somes_prefix(list, sem_id as int + 1);
    }
    let m = sem_idx.len();
    if m == 0 {
        return false;
    }
    assert(target_j < m);
    // Collect all thread tids that participate in this process
    let ghost tl = tasks@;
    let mut all_tids: Vec<usize> = Vec::new();
    let mut k: usize = 0;
    while k < tasks.len()
        invariant
            k <= tl.len(),
            tl == tasks@,
            all_tids@ == somes(tl.take(k as int)),
        decreases tl.len() - k,
    {
        proof {
            lemma_somes_step(tl, k as int);
        }
        if let Some(t) = tasks[k] {
            all_tids.push(t);
        }
        k = k + 1;
    }
    proof {
        lemma_somes_all(tl);
    }
    let ghost tids = all_tids@;
    let n = all_tids.len();
    // Build Available, Allocation, Need
    let mut available: Vec<isize> = Vec::new();
    let mut allocation: Vec<Vec<isize>> = Vec::new();
    let mut need: Vec<Vec<isize>> = Vec::new();
    let mut i: usize = 0;
    while i < n
        invariant
            i <= n,
            allocation@.len() == i,
            need@.len() == i,
            forall|i2: int| 0 <= i2 < i ==> (#[trigger] allocation@[i2])@.len() == m,
            forall|i2: int| 0 <= i2 < i ==> (#[trigger] need@[i2])@.len() == m,
            forall|i2: int, j2: int| 0 <= i2 < i && 0 <= j2 < m ==> #[trigger] allocation@[i2]@[j2] == 0,
            forall|i2: int, j2: int| 0 <= i2 < i && 0 <= j2 < m ==> #[trigger] need@[i2]@[j2] == 0,
        decreases n - i,
    {
        allocation.push(zeros(m));
        need.push(zeros(m));
        i = i + 1;
    }
    let mut j: usize = 0;
    while j < m
        invariant
            j <= m,
            m == sem_idx@.len(),
            m == sems.len(),
            n == tids.len(),
            tids == all_tids@,
            list == semaphore_list@,
            sems == somes(list),
            semaphores_fit(list),
            forall|j2: int|
                0 <= j2 < m ==> #[trigger] sem_idx@[j2] < list.len() && list[sem_idx@[j2] as int] is Some
                    && list[sem_idx@[j2] as int]->0 == sems[j2],
            available@.len() == j,
            forall|j2: int| 0 <= j2 < j ==> #[trigger] available@[j2] as int == avail_of(sems)[j2],
            allocation@.len() == n,
            need@.len() == n,
            forall|i2: int| 0 <= i2 < n ==> (#[trigger] allocation@[i2])@.len() == m,
            forall|i2: int| 0 <= i2 < n ==> (#[trigger] need@[i2])@.len() == m,
            forall|i2: int, j2: int|
                0 <= i2 < n && 0 <= j2 < m ==> #[trigger] allocation@[i2]@[j2] == if j2 < j {
                    count_slot(sems[j2]@.holders, tids, i2)
                } else {
                    0
                },
            forall|i2: int, j2: int|
                0 <= i2 < n && 0 <= j2 < m ==> #[trigger] need@[i2]@[j2] == if j2 < j {
                    count_slot(sems[j2]@.waiting, tids, i2)
                } else {
                    0
                },
        decreases m - j,
    {
        let sem = semaphore_list[sem_idx[j]].as_ref().unwrap();
        proof {
            assert(list[sem_idx@[j as int] as int] is Some);
        }
        let c = sem.get_count();
        available.push(if c > 0 {
            c
        } else {
            0
        });
        let holders = sem.get_holders();
        let waiters = sem.get_wait_queue_tids();
        let ghost a0 = allocation@;
        let ghost n0 = need@;
        add_column_counts(&mut allocation, &all_tids, &holders, j);
        add_column_counts(&mut need, &all_tids, &waiters, j);
        proof {
            assert forall|i2: int, j2: int|
                0 <= i2 < n && 0 <= j2 < m implies #[trigger] allocation@[i2]@[j2] == if j2 < j
                + 1 {
                count_slot(sems[j2]@.holders, tids, i2)
            } else {
                0
            } by {
                assert(allocation@[i2]@[j2] == a0[i2]@[j2] + if j2 == j {
                    count_slot(holders@, tids, i2)
                } else {
                    0
                });
            }
            assert forall|i2: int, j2: int|
                0 <= i2 < n && 0 <= j2 < m implies #[trigger] need@[i2]@[j2] == if j2 < j + 1 {
                count_slot(sems[j2]@.waiting, tids, i2)
            } else {
                0
            } by {
                assert(need@[i2]@[j2] == n0[i2]@[j2] + if j2 == j {
                    count_slot(waiters@, tids, i2)
                } else {
                    0
                });
            }
        }
        j = j + 1;
    }
    // Add the current request to Need
    let ghost n1 = need@;
    let me_slot = position_of(&all_tids, my_tid);
    if let Some(i) = me_slot {
        proof {
            let w = sems[target_j as int]@.waiting;
            lemma_count_slot_bounds(w, tids, i as int);
            assert(list[sem_idx@[target_j as int] as int]->0 == sems[target_j as int]);
        }
        let cur = need[i][target_j];
        need[i][target_j] = cur + 1;
    }
    proof {
        let jt = somes(list.take(sem_id as int)).len() as int;
        assert(ints(available@) =~= avail_of(sems));
        assert forall|i2: int| 0 <= i2 < n implies #[trigger] int_rows(allocation@)[i2] =~= alloc_of(
            sems,
            tids,
        )[i2] by {}
        assert(int_rows(allocation@) =~= alloc_of(sems, tids));
        assert forall|i2: int| 0 <= i2 < n implies #[trigger] int_rows(need@)[i2] =~= need_of(
            sems,
            tids,
            my_tid,
            jt,
        )[i2] by {
            if me_slot is Some && i2 == me_slot->0 as int {
                assert(need@[i2]@ == n1[i2]@.update(target_j as int, (n1[i2]@[target_j as int] + 1) as isize));
            } else {
                if me_slot is Some {
                    assert(need@[i2] == n1[i2]);
                }
            }
        }
        assert(int_rows(need@) =~= need_of(sems, tids, my_tid, jt));
        assert forall|i2: int, j2: int| 0 <= i2 < n && 0 <= j2 < m implies (#[trigger] allocation@[i2]@[j2]) >= 0 by {
            lemma_count_slot_bounds(sems[j2]@.holders, tids, i2);
        }
        assert forall|j2: int| 0 <= j2 < m implies available@[j2] + released(
            int_rows(allocation@),
            Set::full(),
            j2,
            n as nat,
        ) <= isize::MAX by {
            lemma_released_is_slot_total(sems, tids, j2, n as nat);
            lemma_slot_total_le(sems[j2]@.holders, tids, n as nat);
            assert(list[sem_idx@[j2] as int]->0 == sems[j2]);
        }
        assert(bankers_input_ok(available@, allocation@, need@));
    }
    // Banker's algorithm
    bankers_deadlock(&available, &allocation, &need)
}

} // verus!
