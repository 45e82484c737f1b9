//! Banker's algorithm: can every thread still run to completion?
use vstd::prelude::*;
use vstd::set_lib::{lemma_int_range, lemma_len_subset, lemma_subset_equality, set_int_range};

verus! {

/// The entries of `s`, as mathematical integers.
pub open spec fn ints(s: Seq<isize>) -> Seq<int> {
    s.map_values(|x: isize| x as int)
}

/// The rows of a matrix, as mathematical integers.
pub open spec fn int_rows(rows: Seq<Vec<isize>>) -> Seq<Seq<int>> {
    rows.map_values(|r: Vec<isize>| ints(r@))
}

/// Units of resource `j` held by the threads of `done` among threads `0..n`.
pub open spec fn released(alloc: Seq<Seq<int>>, done: Set<int>, j: int, n: nat) -> int
    decreases n,
{
    if n == 0 {
        0
    } else {
        released(alloc, done, j, (n - 1) as nat) + if done.contains(n - 1) {
            alloc[n - 1][j]
        } else {
            0
        }
    }
}

/// `order` lists every thread (threads are `0..alloc.len()`, resources
/// `0..avail.len()`), and each thread's outstanding need is covered by what is
/// available plus what the threads listed before it release when they finish.
pub open spec fn is_safe_order(
    avail: Seq<int>,
    alloc: Seq<Seq<int>>,
    need: Seq<Seq<int>>,
    order: Seq<int>,
) -> bool {
    let n = alloc.len();
    &&& forall|i: int| 0 <= i < n ==> order.contains(i)
    &&& forall|k: int| 0 <= k < order.len() ==> 0 <= #[trigger] order[k] < n
    &&& forall|k: int, j: int|
        0 <= k < order.len() && 0 <= j < avail.len() ==> need[order[k]][j] <= avail[j]
            + released(alloc, order.take(k).to_set(), j, n)
}

/// No order lets all threads finish: the state is deadlocked (or bound to be).
pub open spec fn bankers_unsafe(avail: Seq<int>, alloc: Seq<Seq<int>>, need: Seq<Seq<int>>) -> bool {
    !exists|order: Seq<int>| is_safe_order(avail, alloc, need, order)
}

/// Every thread has one allocation row and one need row, each with one entry
/// per resource; allocations are non-negative; and for each resource, what is
/// available plus everything allocated fits in an `isize`.
pub open spec fn bankers_input_ok(avail: Seq<isize>, alloc: Seq<Vec<isize>>, need: Seq<Vec<isize>>) -> bool {
    &&& alloc.len() == need.len()
    &&& forall|i: int| 0 <= i < alloc.len() ==> (#[trigger] alloc[i])@.len() == avail.len()
    &&& forall|i: int| 0 <= i < need.len() ==> (#[trigger] need[i])@.len() == avail.len()
    &&& forall|i: int, j: int|
        0 <= i < alloc.len() && 0 <= j < avail.len() ==> (#[trigger] alloc[i]@[j]) >= 0
    &&& forall|j: int|
        0 <= j < avail.len() ==> avail[j] + released(int_rows(alloc), Set::full(), j, alloc.len())
            <= isize::MAX
}

/// Threads still running.
pub open spec fn count_unfinished(f: Seq<bool>) -> nat
    decreases f.len(),
{
    if f.len() == 0 {
        0
    } else {
        count_unfinished(f.drop_last()) + if f.last() {
            0nat
        } else {
            1nat
        }
    }
}

/// The finished threads.
pub open spec fn finished_set(f: Seq<bool>) -> Set<int> {
    Set::new(|i: int| 0 <= i < f.len() && f[i])
}

proof fn lemma_count_unfinished_update(f: Seq<bool>, i: int)
    requires
        0 <= i < f.len(),
        !f[i],
    ensures
        count_unfinished(f.update(i, true)) + 1 == count_unfinished(f),
    decreases f.len(),
{
    let g = f.update(i, true);
    if i == f.len() - 1 {
        assert(g.drop_last() =~= f.drop_last());
    } else {
        assert(g.drop_last() =~= f.drop_last().update(i, true));
        lemma_count_unfinished_update(f.drop_last(), i);
    }
}

proof fn lemma_released_ext(alloc: Seq<Seq<int>>, s: Set<int>, t: Set<int>, j: int, n: nat)
    requires
        forall|i: int| 0 <= i < n ==> (s.contains(i) <==> t.contains(i)),
    ensures
        released(alloc, s, j, n) == released(alloc, t, j, n),
    decreases n,
{
    if n > 0 {
        lemma_released_ext(alloc, s, t, j, (n - 1) as nat);
    }
}

proof fn lemma_released_mono(alloc: Seq<Seq<int>>, s: Set<int>, t: Set<int>, j: int, n: nat)
    requires
        forall|i: int| 0 <= i < n && s.contains(i) ==> t.contains(i),
        forall|i: int| 0 <= i < n ==> alloc[i][j] >= 0,
    ensures
        released(alloc, s, j, n) <= released(alloc, t, j, n),
    decreases n,
{
    if n > 0 {
        lemma_released_mono(alloc, s, t, j, (n - 1) as nat);
    }
}

proof fn lemma_released_insert(alloc: Seq<Seq<int>>, s: Set<int>, x: int, j: int, n: nat)
    requires
        0 <= x < n,
        !s.contains(x),
    ensures
        released(alloc, s.insert(x), j, n) == released(alloc, s, j, n) + alloc[x][j],
    decreases n,
{
    if x == n - 1 {
        lemma_released_ext(alloc, s.insert(x), s, j, (n - 1) as nat);
    } else {
        lemma_released_insert(alloc, s, x, j, (n - 1) as nat);
    }
}

/// Threads listed in a safe order before position `k` are all finished, when
/// every unfinished thread needs more of some resource than the finished
/// threads and the available units cover.
proof fn lemma_safe_prefix_finished(
    avail: Seq<int>,
    alloc: Seq<Seq<int>>,
    need: Seq<Seq<int>>,
    fin: Set<int>,
    order: Seq<int>,
    k: int,
)
    requires
        is_safe_order(avail, alloc, need, order),
        0 <= k <= order.len(),
        forall|i: int, j: int| 0 <= i < alloc.len() && 0 <= j < avail.len() ==> alloc[i][j] >= 0,
        forall|i: int|
            0 <= i < alloc.len() && !fin.contains(i) ==> exists|j: int|
                0 <= j < avail.len() && need[i][j] > avail[j] + released(
                    alloc,
                    fin,
                    j,
                    alloc.len(),
                ),
    ensures
        forall|k2: int| 0 <= k2 < k ==> fin.contains(order[k2]),
    decreases k,
{
    if k > 0 {
        lemma_safe_prefix_finished(avail, alloc, need, fin, order, k - 1);
        let t = order[k - 1];
        assert(0 <= t < alloc.len());
        if !fin.contains(t) {
            let j = choose|j: int|
                0 <= j < avail.len() && need[t][j] > avail[j] + released(
                    alloc,
                    fin,
                    j,
                    alloc.len(),
                );
            let pre = order.take(k - 1).to_set();
            assert forall|i: int| 0 <= i < alloc.len() && pre.contains(i) implies fin.contains(
                i,
            ) by {
                assert(order.take(k - 1).contains(i));
                let k2 = choose|k2: int| 0 <= k2 < k - 1 && #[trigger] order.take(k - 1)[k2] == i;
                assert(order[k2] == i);
            }
            lemma_released_mono(alloc, pre, fin, j, alloc.len());
            assert(need[order[k - 1]][j] <= avail[j] + released(alloc, pre, j, alloc.len()));
        }
    }
}

/// Banker's algorithm. Threads are the rows of `allocation` and `need`,
/// resources the entries of `available`. Repeatedly lets any thread whose need
/// is covered by the working pool finish and return its allocation; reports a
/// deadlock when some thread can never finish.
pub fn bankers_deadlock(available: &Vec<isize>, allocation: &Vec<Vec<isize>>, need: &Vec<Vec<isize>>) -> (deadlock: bool)
    requires
        bankers_input_ok(available@, allocation@, need@),
    ensures
        deadlock == bankers_unsafe(ints(available@), int_rows(allocation@), int_rows(need@)),
{
    let n = allocation.len();
    let m = available.len();
    let ghost av = ints(available@);
    let ghost al = int_rows(allocation@);
    let ghost nd = int_rows(need@);
    let ghost full = Set::<int>::full();

    let mut work: Vec<isize> = Vec::new();
    let mut j: usize = 0;
    while j < m
        invariant
            j <= m,
            m == available@.len(),
            work@ == available@.take(j as int),
        decreases m - j,
    {
        work.push(available[j]);
        j = j + 1;
        assert(work@ =~= available@.take(j as int));
    }
    assert(work@ =~= available@);
    let mut finish: Vec<bool> = Vec::new();
    let mut i: usize = 0;
    while i < n
        invariant
            i <= n,
            finish@.len() == i,
            forall|k: int| 0 <= k < i ==> !finish@[k],
        decreases n - i,
    {
        finish.push(false);
        i = i + 1;
    }
    proof {
        assert forall|jj: int| 0 <= jj < m implies work@[jj] as int == av[jj] + released(
            al,
            finished_set(finish@),
            jj,
            n as nat,
        ) by {
            lemma_released_ext(al, finished_set(finish@), Set::empty(), jj, n as nat);
            assert(released(al, Set::empty(), jj, n as nat) == 0) by {
                lemma_released_zero(al, jj, n as nat);
            }
        }
    }
    let ghost mut done: Seq<int> = Seq::empty();
    let mut progress = true;
    while progress
        invariant
            n == allocation@.len(),
            n == need@.len(),
            m == available@.len(),
            bankers_input_ok(available@, allocation@, need@),
            av == ints(available@),
            al == int_rows(allocation@),
            nd == int_rows(need@),
            full == Set::<int>::full(),
            finish@.len() == n,
            work@.len() == m,
            forall|jj: int|
                0 <= jj < m ==> #[trigger] work@[jj] as int == av[jj] + released(
                    al,
                    finished_set(finish@),
                    jj,
                    n as nat,
                ),
            forall|k: int| 0 <= k < done.len() ==> 0 <= #[trigger] done[k] < n && finish@[done[k]],
            forall|ii: int| 0 <= ii < n && finish@[ii] ==> done.contains(ii),
            forall|k: int, jj: int|
                0 <= k < done.len() && 0 <= jj < m ==> nd[done[k]][jj] <= av[jj] + released(
                    al,
                    done.take(k).to_set(),
                    jj,
                    n as nat,
                ),
            !progress ==> forall|ii: int|
                0 <= ii < n && !finish@[ii] ==> exists|jj: int|
                    0 <= jj < m && nd[ii][jj] > work@[jj],
        decreases count_unfinished(finish@) + if progress {
            1nat
        } else {
            0nat
        },
    {
        progress = false;
        let ghost u0 = count_unfinished(finish@);
        let ghost f0 = finish@;
        let ghost w0 = work@;
        let mut i: usize = 0;
        while i < n
            invariant
                i <= n,
                n == allocation@.len(),
                n == need@.len(),
                m == available@.len(),
                bankers_input_ok(available@, allocation@, need@),
                av == ints(available@),
                al == int_rows(allocation@),
                nd == int_rows(need@),
                finish@.len() == n,
                work@.len() == m,
                forall|jj: int|
                    0 <= jj < m ==> #[trigger] work@[jj] as int == av[jj] + released(
                        al,
                        finished_set(finish@),
                        jj,
                        n as nat,
                    ),
                forall|k: int|
                    0 <= k < done.len() ==> 0 <= #[trigger] done[k] < n && finish@[done[k]],
                forall|ii: int| 0 <= ii < n && finish@[ii] ==> done.contains(ii),
                forall|k: int, jj: int|
                    0 <= k < done.len() && 0 <= jj < m ==> nd[done[k]][jj] <= av[jj] + released(
                        al,
                        done.take(k).to_set(),
                        jj,
                        n as nat,
                    ),
                count_unfinished(finish@) <= u0,
                progress ==> count_unfinished(finish@) < u0,
                !progress ==> finish@ == f0 && work@ == w0,
                !progress ==> forall|ii: int|
                    0 <= ii < i && !finish@[ii] ==> exists|jj: int|
                        0 <= jj < m && nd[ii][jj] > work@[jj],
            decreases n - i,
        {
            if !finish[i] {
                // Check if Need[i] <= Work
                let mut can_satisfy = true;
                let mut j: usize = 0;
                while j < m && can_satisfy
                    invariant
                        j <= m,
                        i < n,
                        m == available@.len(),
                        n == need@.len(),
                        work@.len() == m,
                        nd == int_rows(need@),
                        bankers_input_ok(available@, allocation@, need@),
                        can_satisfy ==> forall|jj: int| 0 <= jj < j ==> nd[i as int][jj] <= work@[jj],
                        !can_satisfy ==> exists|jj: int|
                            0 <= jj < m && nd[i as int][jj] > work@[jj],
                    decreases m - j,
                {
                    assert(need@[i as int]@.len() == m);
                    if need[i][j] > work[j] {
                        can_satisfy = false;
                        assert(nd[i as int][j as int] > work@[j as int]);
                    }
                    j = j + 1;
                }
                if can_satisfy {
                    // Thread i can finish — release its allocation
                    let ghost fs = finished_set(finish@);
                    let ghost wold = work@;
                    assert(!fs.contains(i as int));
                    proof {
                        assert forall|jj: int| 0 <= jj < m implies nd[i as int][jj] <= av[jj]
                            + released(al, done.to_set(), jj, n as nat) by {
                            assert forall|x: int| 0 <= x < n implies (done.to_set().contains(x)
                                <==> fs.contains(x)) by {
                                if done.to_set().contains(x) {
                                    let k = choose|k: int| 0 <= k < done.len() && done[k] == x;
                                    assert(finish@[done[k]]);
                                }
                            }
                            lemma_released_ext(al, done.to_set(), fs, jj, n as nat);
                            assert(nd[i as int][jj] <= work@[jj]);
                        }
                    }
                    let mut j: usize = 0;
                    while j < m
                        invariant
                            j <= m,
                            i < n,
                            n == allocation@.len(),
                            m == available@.len(),
                            bankers_input_ok(available@, allocation@, need@),
                            av == ints(available@),
                            al == int_rows(allocation@),
                            work@.len() == m,
                            wold.len() == m,
                            !fs.contains(i as int),
                            nd == int_rows(need@),
                            forall|jj: int|
                                0 <= jj < m ==> nd[i as int][jj] <= av[jj] + released(
                                    al,
                                    done.to_set(),
                                    jj,
                                    n as nat,
                                ),
                            forall|jj: int|
                                0 <= jj < m ==> #[trigger] wold[jj] as int == av[jj] + released(
                                    al,
                                    fs,
                                    jj,
                                    n as nat,
                                ),
                            forall|jj: int|
                                0 <= jj < j ==> #[trigger] work@[jj] as int == wold[jj] as int
                                    + al[i as int][jj],
                            forall|jj: int| j <= jj < m ==> #[trigger] work@[jj] == wold[jj],
                        decreases m - j,
                    {
                        assert(allocation@[i as int]@.len() == m);
                        proof {
                            let jj = j as int;
                            lemma_released_insert(al, fs, i as int, jj, n as nat);
                            lemma_released_mono(al, fs.insert(i as int), Set::full(), jj, n as nat);
                            assert(al[i as int][jj] == allocation@[i as int]@[jj]);
                        }
                        let add = allocation[i][j];
                        work.set(j, work[j] + add);
                        j = j + 1;
                    }
                    proof {
                        lemma_count_unfinished_update(finish@, i as int);
                    }
                    finish.set(i, true);
                    proof {
                        let newfs = finished_set(finish@);
                        assert(newfs =~= fs.insert(i as int));
                        assert forall|jj: int|
                            0 <= jj < m implies #[trigger] work@[jj] as int == av[jj] + released(
                                al,
                                finished_set(finish@),
                                jj,
                                n as nat,
                            ) by {
                            lemma_released_insert(al, fs, i as int, jj, n as nat);
                        }
                        let old_done = done;
                        done = done.push(i as int);
                        assert(done.take(old_done.len() as int) =~= old_done);
                        assert forall|k: int, jj: int|
                            0 <= k < done.len() && 0 <= jj < m implies nd[done[k]][jj] <= av[jj]
                            + released(al, done.take(k).to_set(), jj, n as nat) by {
                            if k < old_done.len() {
                                assert(done.take(k) =~= old_done.take(k));
                            }
                        }
                        assert forall|ii: int| 0 <= ii < n && finish@[ii] implies done.contains(
                            ii,
                        ) by {
                            if ii == i {
                                assert(done[old_done.len() as int] == ii);
                            } else {
                                assert(old_done.contains(ii));
                                let k = choose|k: int| 0 <= k < old_done.len() && old_done[k] == ii;
                                assert(done[k] == ii);
                            }
                        }
                    }
                    progress = true;
                }
            }
            i = i + 1;
        }
    }
    proof {
        let fs = finished_set(finish@);
        assert forall|ii: int, jj: int|
            0 <= ii < al.len() && 0 <= jj < av.len() implies al[ii][jj] >= 0 by {
            assert(allocation@[ii]@[jj] >= 0);
        }
        if exists|k: int| 0 <= k < n && !finish@[k] {
            assert forall|ii: int|
                0 <= ii < al.len() && !fs.contains(ii) implies exists|jj: int|
                0 <= jj < av.len() && nd[ii][jj] > av[jj] + released(al, fs, jj, al.len()) by {
                assert(!finish@[ii]);
                let jj = choose|jj: int| 0 <= jj < m && nd[ii][jj] > work@[jj];
                assert(work@[jj] as int == av[jj] + released(al, fs, jj, n as nat));
            }
            if exists|order: Seq<int>| is_safe_order(av, al, nd, order) {
                let order = choose|order: Seq<int>| is_safe_order(av, al, nd, order);
                let i0 = choose|k: int| 0 <= k < n && !finish@[k];
                lemma_safe_prefix_finished(av, al, nd, fs, order, order.len() as int);
                assert(order.contains(i0));
                let k = choose|k: int| 0 <= k < order.len() && order[k] == i0;
                assert(fs.contains(order[k]));
            }
        } else {
            assert forall|ii: int| 0 <= ii < n implies done.contains(ii) by {
                assert(finish@[ii]);
            }
            assert(is_safe_order(av, al, nd, done));
        }
    }
    let ghost verdict = bankers_unsafe(av, al, nd);
    // If any thread cannot finish, deadlock
    let mut i: usize = 0;
    while i < n
        invariant
            i <= n,
            finish@.len() == n,
            forall|k: int| 0 <= k < i ==> finish@[k],
            (exists|k: int| 0 <= k < n && !finish@[k]) == verdict,
            verdict == bankers_unsafe(ints(available@), int_rows(allocation@), int_rows(need@)),
        decreases n - i,
    {
        if !finish[i] {
            return true;
        }
        i = i + 1;
    }
    false
}

/// `p` lists each of `0..n` exactly once.
pub open spec fn is_permutation(p: Seq<int>, n: int) -> bool {
    &&& p.len() == n
    &&& forall|k: int| 0 <= k < n ==> 0 <= #[trigger] p[k] < n
    &&& p.no_duplicates()
}

/// `g(0) + ... + g(n - 1)`.
pub open spec fn sum_to(g: spec_fn(int) -> int, n: nat) -> int
    decreases n,
{
    if n == 0 {
        0
    } else {
        sum_to(g, (n - 1) as nat) + g(n - 1)
    }
}

proof fn lemma_sum_ext(g1: spec_fn(int) -> int, g2: spec_fn(int) -> int, n: nat)
    requires
        forall|i: int| 0 <= i < n ==> #[trigger] g1(i) == g2(i),
    ensures
        sum_to(g1, n) == sum_to(g2, n),
    decreases n,
{
    if n > 0 {
        lemma_sum_ext(g1, g2, (n - 1) as nat);
    }
}

proof fn lemma_sum_update(g1: spec_fn(int) -> int, g2: spec_fn(int) -> int, n: nat, k: int)
    requires
        0 <= k < n,
        forall|i: int| 0 <= i < n && i != k ==> #[trigger] g1(i) == g2(i),
    ensures
        sum_to(g2, n) == sum_to(g1, n) - g1(k) + g2(k),
    decreases n,
{
    if k == n - 1 {
        lemma_sum_ext(g1, g2, (n - 1) as nat);
    } else {
        lemma_sum_update(g1, g2, (n - 1) as nat, k);
    }
}

/// A permutation of `0..n` takes every value.
pub proof fn lemma_permutation_onto(p: Seq<int>, n: int)
    requires
        is_permutation(p, n),
    ensures
        forall|x: int| 0 <= x < n ==> p.contains(x),
{
    p.unique_seq_to_set();
    lemma_int_range(0, n);
    assert forall|x: int| p.to_set().contains(x) implies set_int_range(0, n).contains(x) by {
        let k = choose|k: int| 0 <= k < p.len() && p[k] == x;
    }
    lemma_len_subset(p.to_set(), set_int_range(0, n));
    lemma_subset_equality(p.to_set(), set_int_range(0, n));
    assert forall|x: int| 0 <= x < n implies p.contains(x) by {
        assert(set_int_range(0, n).contains(x));
        assert(p.to_set().contains(x));
    }
}

/// The inverse of a permutation.
proof fn lemma_permutation_inverse(p: Seq<int>, n: int) -> (q: Seq<int>)
    requires
        is_permutation(p, n),
    ensures
        is_permutation(q, n),
        forall|x: int| 0 <= x < n ==> p[#[trigger] q[x]] == x,
        forall|k: int| 0 <= k < n ==> q[#[trigger] p[k]] == k,
{
    lemma_permutation_onto(p, n);
    let q = Seq::new(n as nat, |x: int| choose|k: int| 0 <= k < p.len() && p[k] == x);
    assert forall|x: int| 0 <= x < n implies 0 <= #[trigger] q[x] < n && p[q[x]] == x by {
        assert(p.contains(x));
    }
    assert forall|k: int| 0 <= k < n implies q[#[trigger] p[k]] == k by {
        let x = p[k];
        assert(p[q[x]] == x);
    }
    assert forall|a: int, b: int| 0 <= a < q.len() && 0 <= b < q.len() && a != b implies q[a]
        != q[b] by {
        assert(p[q[a]] == a && p[q[b]] == b);
    }
    q
}

/// Summing over a permutation of `0..n` gives the same total.
proof fn lemma_sum_permuted(g: spec_fn(int) -> int, p: Seq<int>, n: nat)
    requires
        is_permutation(p, n as int),
    ensures
        sum_to(|i: int| g(p[i]), n) == sum_to(g, n),
    decreases n,
{
    if n > 0 {
        let m = (n - 1) as nat;
        lemma_permutation_onto(p, n as int);
        assert(p.contains(m as int));
        let k = choose|k: int| 0 <= k < p.len() && p[k] == m;
        let gp = |i: int| g(p[i]);
        if k == m {
            let q = p.take(m as int);
            assert(is_permutation(q, m as int)) by {
                assert forall|i: int| 0 <= i < m implies 0 <= #[trigger] q[i] < m by {
                    assert(p[i] != p[k]);
                }
            }
            lemma_sum_permuted(g, q, m);
            lemma_sum_ext(|i: int| g(q[i]), gp, m);
        } else {
            let q = p.update(k, p[m as int]).take(m as int);
            assert(is_permutation(q, m as int)) by {
                assert forall|i: int| 0 <= i < m implies 0 <= #[trigger] q[i] < m by {
                    if i != k {
                        assert(p[i] != p[k]);
                    } else {
                        assert(p[m as int] != p[k]);
                    }
                }
                assert forall|a: int, b: int|
                    0 <= a < q.len() && 0 <= b < q.len() && a != b implies q[a] != q[b] by {
                    if a == k {
                        assert(p[m as int] != p[b]);
                    } else if b == k {
                        assert(p[m as int] != p[a]);
                    } else {
                        assert(p[a] != p[b]);
                    }
                }
            }
            lemma_sum_permuted(g, q, m);
            lemma_sum_update(gp, |i: int| g(q[i]), m, k);
        }
    }
}

/// Resources released, as a sum over the threads.
proof fn lemma_released_as_sum(alloc: Seq<Seq<int>>, s: Set<int>, j: int, n: nat)
    ensures
        released(alloc, s, j, n) == sum_to(
            |i: int|
                if s.contains(i) {
                    alloc[i][j]
                } else {
                    0
                },
            n,
        ),
    decreases n,
{
    if n > 0 {
        lemma_released_as_sum(alloc, s, j, (n - 1) as nat);
    }
}

/// A safe order stays safe when threads are renumbered by `rp` and resources
/// by `cp` (thread `i`, resource `j` of the second state being thread `rp[i]`,
/// resource `cp[j]` of the first).
proof fn lemma_safe_order_renumbered(
    av1: Seq<int>,
    al1: Seq<Seq<int>>,
    nd1: Seq<Seq<int>>,
    av2: Seq<int>,
    al2: Seq<Seq<int>>,
    nd2: Seq<Seq<int>>,
    rp: Seq<int>,
    cp: Seq<int>,
    order: Seq<int>,
)
    requires
        is_permutation(rp, al1.len() as int),
        cp.len() == av2.len(),
        forall|j: int| 0 <= j < av2.len() ==> 0 <= #[trigger] cp[j] < av1.len(),
        al2.len() == al1.len(),
        forall|j: int| 0 <= j < av2.len() ==> av2[j] == av1[cp[j]],
        forall|i: int, j: int|
            0 <= i < al2.len() && 0 <= j < av2.len() ==> al2[i][j] == al1[rp[i]][cp[j]]
                && nd2[i][j] == nd1[rp[i]][cp[j]],
        is_safe_order(av1, al1, nd1, order),
    ensures
        exists|o: Seq<int>| is_safe_order(av2, al2, nd2, o),
{
    let n = al1.len();
    let rinv = lemma_permutation_inverse(rp, n as int);
    let o2 = Seq::new(order.len(), |k: int| rinv[order[k]]);
    assert forall|i: int| 0 <= i < n implies o2.contains(i) by {
        assert(order.contains(rp[i]));
        let k = choose|k: int| 0 <= k < order.len() && order[k] == rp[i];
        assert(o2[k] == i);
    }
    assert forall|k: int, j: int|
        0 <= k < o2.len() && 0 <= j < av2.len() implies nd2[o2[k]][j] <= av2[j] + released(
        al2,
        o2.take(k).to_set(),
        j,
        n,
    ) by {
        let s1 = order.take(k).to_set();
        let s2 = o2.take(k).to_set();
        let c = cp[j];
        let g = |x: int|
            if s1.contains(x) {
                al1[x][c]
            } else {
                0
            };
        assert forall|i: int| 0 <= i < n implies (s2.contains(i) <==> s1.contains(rp[i])) by {
            if s2.contains(i) {
                let k2 = choose|k2: int| 0 <= k2 < k && o2.take(k)[k2] == i;
                assert(order.take(k)[k2] == rp[i]);
            }
            if s1.contains(rp[i]) {
                let k2 = choose|k2: int| 0 <= k2 < k && order.take(k)[k2] == rp[i];
                assert(o2.take(k)[k2] == i);
            }
        }
        lemma_released_as_sum(al2, s2, j, n);
        lemma_released_as_sum(al1, s1, c, n);
        lemma_sum_permuted(g, rp, n);
        lemma_sum_ext(
            |i: int|
                if s2.contains(i) {
                    al2[i][j]
                } else {
                    0
                },
            |i: int| g(rp[i]),
            n,
        );
        assert(rp[o2[k]] == order[k]);
    }
    assert(is_safe_order(av2, al2, nd2, o2));
}

/// Renumbering threads and resources does not change the verdict of the
/// banker's algorithm: when the second state is the first with its threads
/// permuted by `rp` and its resources by `cp`, one is unsafe exactly when the
/// other is.
pub proof fn lemma_bankers_renumbered(
    av1: Seq<int>,
    al1: Seq<Seq<int>>,
    nd1: Seq<Seq<int>>,
    av2: Seq<int>,
    al2: Seq<Seq<int>>,
    nd2: Seq<Seq<int>>,
    rp: Seq<int>,
    cp: Seq<int>,
)
    requires
        is_permutation(rp, al1.len() as int),
        is_permutation(cp, av1.len() as int),
        al2.len() == al1.len(),
        nd1.len() == al1.len(),
        nd2.len() == al1.len(),
        av2.len() == av1.len(),
        forall|j: int| 0 <= j < av2.len() ==> av2[j] == av1[cp[j]],
        forall|i: int, j: int|
            0 <= i < al2.len() && 0 <= j < av2.len() ==> al2[i][j] == al1[rp[i]][cp[j]]
                && nd2[i][j] == nd1[rp[i]][cp[j]],
    ensures
        bankers_unsafe(av1, al1, nd1) == bankers_unsafe(av2, al2, nd2),
{
    let n = al1.len() as int;
    let m = av1.len() as int;
    if exists|o: Seq<int>| is_safe_order(av1, al1, nd1, o) {
        let o = choose|o: Seq<int>| is_safe_order(av1, al1, nd1, o);
        lemma_safe_order_renumbered(av1, al1, nd1, av2, al2, nd2, rp, cp, o);
    }
    if exists|o: Seq<int>| is_safe_order(av2, al2, nd2, o) {
        let o = choose|o: Seq<int>| is_safe_order(av2, al2, nd2, o);
        let rinv = lemma_permutation_inverse(rp, n);
        let cinv = lemma_permutation_inverse(cp, m);
        assert forall|j: int| 0 <= j < av1.len() implies av1[j] == av2[cinv[j]] by {
            assert(cp[cinv[j]] == j);
        }
        assert forall|i: int, j: int|
            0 <= i < al1.len() && 0 <= j < av1.len() implies al1[i][j] == al2[rinv[i]][cinv[j]]
            && nd1[i][j] == nd2[rinv[i]][cinv[j]] by {
            assert(rp[rinv[i]] == i && cp[cinv[j]] == j);
        }
        lemma_safe_order_renumbered(av2, al2, nd2, av1, al1, nd1, rinv, cinv, o);
    }
}

/// More available units never make a safe state unsafe.
pub proof fn lemma_bankers_more_available(
    av1: Seq<int>,
    av2: Seq<int>,
    alloc: Seq<Seq<int>>,
    need: Seq<Seq<int>>,
)
    requires
        av2.len() == av1.len(),
        forall|j: int| 0 <= j < av1.len() ==> av1[j] <= av2[j],
        !bankers_unsafe(av1, alloc, need),
    ensures
        !bankers_unsafe(av2, alloc, need),
{
    let o = choose|o: Seq<int>| is_safe_order(av1, alloc, need, o);
    assert(is_safe_order(av2, alloc, need, o));
}

proof fn lemma_first_occurrence(o: Seq<int>, x: int)
    requires
        o.contains(x),
    ensures
        exists|k: int| 0 <= k < o.len() && o[k] == x && forall|k2: int| 0 <= k2 < k ==> o[k2] != x,
    decreases o.len(),
{
    let d = o.drop_last();
    if d.contains(x) {
        lemma_first_occurrence(d, x);
        let k = choose|k: int| 0 <= k < d.len() && d[k] == x && forall|k2: int| 0 <= k2 < k ==> d[k2] != x;
        assert(o[k] == x);
        assert forall|k2: int| 0 <= k2 < k implies o[k2] != x by {
            assert(o[k2] == d[k2]);
        }
    } else {
        let k = o.len() - 1;
        assert(o[k] == x) by {
            let i = choose|i: int| 0 <= i < o.len() && o[i] == x;
            if i < k {
                assert(d[i] == x);
            }
        }
        assert forall|k2: int| 0 <= k2 < k implies o[k2] != x by {
            assert(o[k2] == d[k2]);
        }
    }
}

proof fn lemma_released_without(alloc: Seq<Seq<int>>, s: Set<int>, i0: int, j: int, n: nat)
    requires
        !s.contains(i0),
        forall|i: int| 0 <= i < n && i != i0 ==> alloc[i][j] == 0,
    ensures
        released(alloc, s, j, n) == 0,
    decreases n,
{
    if n > 0 {
        lemma_released_without(alloc, s, i0, j, (n - 1) as nat);
    }
}

/// A thread that needs more of a resource than is available, when no other
/// thread holds any of it, can never finish: the state is unsafe.
pub proof fn lemma_stuck_thread(
    avail: Seq<int>,
    alloc: Seq<Seq<int>>,
    need: Seq<Seq<int>>,
    i0: int,
    j: int,
)
    requires
        0 <= i0 < alloc.len(),
        0 <= j < avail.len(),
        need[i0][j] > avail[j],
        forall|i: int| 0 <= i < alloc.len() && i != i0 ==> alloc[i][j] == 0,
    ensures
        bankers_unsafe(avail, alloc, need),
{
    if exists|o: Seq<int>| is_safe_order(avail, alloc, need, o) {
        let o = choose|o: Seq<int>| is_safe_order(avail, alloc, need, o);
        assert(o.contains(i0));
        lemma_first_occurrence(o, i0);
        let k = choose|k: int|
            0 <= k < o.len() && o[k] == i0 && forall|k2: int| 0 <= k2 < k ==> o[k2] != i0;
        let pre = o.take(k).to_set();
        assert(!pre.contains(i0)) by {
            if pre.contains(i0) {
                let k2 = choose|k2: int| 0 <= k2 < k && o.take(k)[k2] == i0;
                assert(o[k2] == i0);
            }
        }
        lemma_released_without(alloc, pre, i0, j, alloc.len());
        assert(need[o[k]][j] <= avail[j] + released(alloc, pre, j, alloc.len()));
    }
}

proof fn lemma_released_zero(alloc: Seq<Seq<int>>, j: int, n: nat)
    ensures
        released(alloc, Set::empty(), j, n) == 0,
    decreases n,
{
    if n > 0 {
        lemma_released_zero(alloc, j, (n - 1) as nat);
    }
}

} // verus!
