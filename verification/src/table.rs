//! Per-process tables of kernel objects: slot allocation and the list of live
//! entries.
use vstd::prelude::*;

verus! {

/// `i` is the lowest empty slot of `s`.
pub open spec fn is_first_free<T>(s: Seq<Option<T>>, i: int) -> bool {
    &&& 0 <= i < s.len()
    &&& s[i] is None
    &&& forall|k: int| 0 <= k < i ==> s[k] is Some
}

/// Id that a new object gets: the lowest empty slot, or a new slot at the end
/// when every slot is taken.
pub open spec fn first_free<T>(s: Seq<Option<T>>) -> int {
    if exists|i: int| is_first_free(s, i) {
        choose|i: int| is_first_free(s, i)
    } else {
        s.len() as int
    }
}

/// The table after storing `item` under id `id`: the slot is replaced in place,
/// or appended when `id` is the current length.
pub open spec fn store_at<T>(s: Seq<Option<T>>, id: int, item: T) -> Seq<Option<T>> {
    if id < s.len() {
        s.update(id, Some(item))
    } else {
        s.push(Some(item))
    }
}

proof fn lemma_first_free_is<T>(s: Seq<Option<T>>, i: int)
    requires
        is_first_free(s, i),
    ensures
        first_free(s) == i,
{
    let j = choose|j: int| is_first_free(s, j);
    if j < i {
        assert(s[j] is Some);
    }
    if i < j {
        assert(s[i] is Some);
    }
}

/// Store `item` in the lowest empty slot of `list`, or append it; returns its id.
pub fn alloc_slot<T>(list: &mut Vec<Option<T>>, item: T) -> (id: usize)
    ensures
        id == first_free(old(list)@),
        final(list)@ == store_at(old(list)@, id as int, item),
{
    let mut i: usize = 0;
    while i < list.len()
        invariant
            i <= list@.len(),
            list@ == old(list)@,
            forall|k: int| 0 <= k < i ==> list@[k] is Some,
        decreases list@.len() - i,
    {
        if list[i].is_none() {
            proof {
                lemma_first_free_is(list@, i as int);
            }
            list.set(i, Some(item));
            return i;
        }
        i = i + 1;
    }
    proof {
        if exists|j: int| is_first_free(list@, j) {
            let j = choose|j: int| is_first_free(list@, j);
            assert(list@[j] is Some);
        }
    }
    list.push(Some(item));
    list.len() - 1
}

/// The entries present in `s`, in table order.
pub open spec fn somes<T>(s: Seq<Option<T>>) -> Seq<T>
    decreases s.len(),
{
    if s.len() == 0 {
        Seq::empty()
    } else {
        match s.last() {
            Some(x) => somes(s.drop_last()).push(x),
            None => somes(s.drop_last()),
        }
    }
}

/// Extending a prefix by one slot adds its entry, if any.
pub proof fn lemma_somes_step<T>(s: Seq<Option<T>>, a: int)
    requires
        0 <= a < s.len(),
    ensures
        somes(s.take(a + 1)) == match s[a] {
            Some(x) => somes(s.take(a)).push(x),
            None => somes(s.take(a)),
        },
{
    assert(s.take(a + 1).drop_last() =~= s.take(a));
    assert(s.take(a + 1).last() == s[a]);
}

/// The entries of a prefix are a prefix of the entries.
pub proof fn lemma_somes_prefix<T>(s: Seq<Option<T>>, a: int)
    requires
        0 <= a <= s.len(),
    ensures
        somes(s.take(a)).len() <= somes(s).len(),
        forall|j: int| 0 <= j < somes(s.take(a)).len() ==> somes(s.take(a))[j] == somes(s)[j],
    decreases s.len() - a,
{
    if a == s.len() {
        assert(s.take(a) =~= s);
    } else {
        lemma_somes_step(s, a);
        lemma_somes_prefix(s, a + 1);
    }
}

/// The entries of the whole table.
pub proof fn lemma_somes_all<T>(s: Seq<Option<T>>)
    ensures
        somes(s.take(s.len() as int)) == somes(s),
{
    assert(s.take(s.len() as int) =~= s);
}

} // verus!
