//! Slices: copies of them and rearrangements of them.

use vstd::prelude::*;

verus! {

/// `copy` holds, position by position, a clone of each element of `list`.
pub open spec fn clones_of<T: Clone>(list: Seq<T>, copy: Seq<T>) -> bool {
    &&& copy.len() == list.len()
    &&& forall|i: int| 0 <= i < list.len() ==> cloned(#[trigger] list[i], copy[i])
}

/// `arranged` holds a clone of each element of `list`, in some order.
pub open spec fn rearranged_clones<T: Clone>(list: Seq<T>, arranged: Seq<T>) -> bool {
    exists|copy: Seq<T>| #[trigger] clones_of(list, copy) && copy.to_multiset() == arranged.to_multiset()
}

/// Where cloning is exact, a list of clones is the list.
pub proof fn lemma_exact_clones<T: Clone>(list: Seq<T>, copy: Seq<T>)
    requires
        crate::order::clone_is_exact::<T>(),
        clones_of(list, copy),
    ensures
        copy == list,
{
    assert(copy =~= list);
}

/// The empty sequence holds nothing.
pub proof fn lemma_nothing_held<T>(s: Seq<T>)
    requires
        s.len() == 0,
    ensures
        s.to_multiset() == vstd::multiset::Multiset::<T>::empty(),
{
    vstd::seq_lib::to_multiset_len(s);
    vstd::multiset::lemma_multiset_empty_len(s.to_multiset());
}

/// Exchanging two elements of a sequence keeps what it holds.
pub proof fn lemma_swap_keeps_elements<T>(s: Seq<T>, a: int, b: int)
    requires
        0 <= a < s.len(),
        0 <= b < s.len(),
    ensures
        s.update(a, s[b]).update(b, s[a]).to_multiset() == s.to_multiset(),
{
    broadcast use vstd::multiset::group_multiset_axioms;

    vstd::seq_lib::to_multiset_update(s, a, s[b]);
    vstd::seq_lib::to_multiset_update(s.update(a, s[b]), b, s[a]);
    vstd::seq_lib::to_multiset_contains(s, s[a]);
    vstd::seq_lib::to_multiset_contains(s, s[b]);
    assert(s.contains(s[a]));
    assert(s.contains(s[b]));
    if a == b {
        assert(s.update(a, s[b]).update(b, s[a]) =~= s);
    } else {
        assert(s.update(a, s[b]).update(b, s[a]).to_multiset() =~= s.to_multiset());
    }
}

/// A vector with a clone of each element of `list`, in the order of `list`.
pub fn clone_list<T: Clone>(list: &[T]) -> (copy: Vec<T>)
    ensures
        clones_of(list@, copy@),
{
    let mut copy: Vec<T> = Vec::new();
    for i in 0..list.len()
        invariant
            copy@.len() == i,
            forall|k: int| 0 <= k < i ==> cloned(#[trigger] list@[k], copy@[k]),
    {
        copy.push(list[i].clone());
    }
    copy
}

} // verus!
