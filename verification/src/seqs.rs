//! Small verified helpers over sequences of thread ids.
use std::collections::VecDeque;
use vstd::prelude::*;

verus! {

/// `p` is the position of the first occurrence of `x` in `s`.
pub open spec fn is_first_index(s: Seq<usize>, x: usize, p: int) -> bool {
    &&& 0 <= p < s.len()
    &&& s[p] == x
    &&& forall|k: int| 0 <= k < p ==> s[k] != x
}

/// Position of the first occurrence of `x` in `s`, or -1 when `x` does not occur.
pub open spec fn first_index(s: Seq<usize>, x: usize) -> int {
    if exists|p: int| is_first_index(s, x, p) {
        choose|p: int| is_first_index(s, x, p)
    } else {
        -1
    }
}

/// `s` with the first occurrence of `x` taken out (unchanged when `x` does not occur).
pub open spec fn remove_first(s: Seq<usize>, x: usize) -> Seq<usize> {
    if first_index(s, x) >= 0 {
        s.remove(first_index(s, x))
    } else {
        s
    }
}

/// The first occurrence is unique, so `first_index` names it.
pub proof fn lemma_first_index_is(s: Seq<usize>, x: usize, p: int)
    requires
        is_first_index(s, x, p),
    ensures
        first_index(s, x) == p,
{
    let q = choose|q: int| is_first_index(s, x, q);
    assert(is_first_index(s, x, q));
    if q < p {
        assert(s[q] != x);
    }
    if p < q {
        assert(s[p] != x);
    }
}

/// Without an occurrence, `first_index` is -1.
pub proof fn lemma_first_index_absent(s: Seq<usize>, x: usize)
    requires
        !s.contains(x),
    ensures
        first_index(s, x) == -1,
{
    if exists|p: int| is_first_index(s, x, p) {
        let p = choose|p: int| is_first_index(s, x, p);
        assert(s.contains(x));
    }
}

/// Every occurrence lies at or after the first one, and `first_index` is in
/// range exactly when `x` occurs.
pub proof fn lemma_first_index_range(s: Seq<usize>, x: usize)
    ensures
        -1 <= first_index(s, x) < s.len(),
        first_index(s, x) >= 0 <==> s.contains(x),
        first_index(s, x) >= 0 ==> is_first_index(s, x, first_index(s, x)),
    decreases s.len(),
{
    if s.contains(x) {
        let i = choose|i: int| 0 <= i < s.len() && s[i] == x;
        if s[0] == x {
            assert(is_first_index(s, x, 0));
            lemma_first_index_is(s, x, 0);
        } else {
            let t = s.drop_first();
            assert(t[i - 1] == x);
            lemma_first_index_range(t, x);
            let p = first_index(t, x);
            assert forall|k: int| 0 <= k < p + 1 implies s[k] != x by {
                if k > 0 {
                    assert(s[k] == t[k - 1]);
                }
            }
            assert(is_first_index(s, x, p + 1));
            lemma_first_index_is(s, x, p + 1);
        }
    } else {
        lemma_first_index_absent(s, x);
    }
}

/// Position of the first occurrence of `x` in `v`.
pub fn position_of(v: &Vec<usize>, x: usize) -> (r: Option<usize>)
    ensures
        match r {
            Some(p) => p == first_index(v@, x),
            None => first_index(v@, x) == -1 && !v@.contains(x),
        },
{
    let mut i: usize = 0;
    while i < v.len()
        invariant
            i <= v.len(),
            forall|k: int| 0 <= k < i ==> v@[k] != x,
        decreases v.len() - i,
    {
        if v[i] == x {
            proof {
                lemma_first_index_is(v@, x, i as int);
            }
            return Some(i);
        }
        i = i + 1;
    }
    proof {
        lemma_first_index_absent(v@, x);
    }
    None
}

/// Whether `x` occurs in `v`.
pub fn vec_contains(v: &Vec<usize>, x: usize) -> (r: bool)
    ensures
        r == v@.contains(x),
{
    let mut i: usize = 0;
    while i < v.len()
        invariant
            i <= v.len(),
            forall|k: int| 0 <= k < i ==> v@[k] != x,
        decreases v.len() - i,
    {
        if v[i] == x {
            return true;
        }
        i = i + 1;
    }
    false
}

/// Whether `x` occurs in the queue `q`.
pub fn queue_contains(q: &VecDeque<usize>, x: usize) -> (r: bool)
    ensures
        r == q@.contains(x),
{
    let mut i: usize = 0;
    while i < q.len()
        invariant
            i <= q@.len(),
            forall|k: int| 0 <= k < i ==> q@[k] != x,
        decreases q@.len() - i,
    {
        if q[i] == x {
            return true;
        }
        i = i + 1;
    }
    false
}

} // verus!
