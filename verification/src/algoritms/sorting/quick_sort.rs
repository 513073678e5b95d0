//! Quick sort: the elements smaller than a pivot, sorted, then those equal
//! to it, then the greater ones, sorted.

use crate::order::{
    is_gt, is_lt, key_lt, lemma_lt_transitive, lemma_trichotomy, non_descending, total_order,
};
use vstd::prelude::*;

verus! {

/// Every element of `s` is smaller than `pivot`.
pub open spec fn all_less<T: Ord>(s: Seq<T>, pivot: T) -> bool {
    forall|i: int| 0 <= i < s.len() ==> key_lt(#[trigger] s[i], pivot)
}

/// Every element of `s` is greater than `pivot`.
pub open spec fn all_greater<T: Ord>(s: Seq<T>, pivot: T) -> bool {
    forall|i: int| 0 <= i < s.len() ==> key_lt(pivot, #[trigger] s[i])
}

/// Every element of `s` is `pivot`.
pub open spec fn all_equal<T>(s: Seq<T>, pivot: T) -> bool {
    forall|i: int| 0 <= i < s.len() ==> #[trigger] s[i] == pivot
}

/// A rearrangement of elements that are all smaller than `pivot` holds only
/// elements smaller than `pivot`; the same for greater ones.
proof fn lemma_rearranged_side<T: Ord>(before: Seq<T>, after: Seq<T>, pivot: T)
    requires
        before.to_multiset() == after.to_multiset(),
    ensures
        all_less(before, pivot) ==> all_less(after, pivot),
        all_greater(before, pivot) ==> all_greater(after, pivot),
        before.len() == after.len(),
{
    vstd::seq_lib::to_multiset_len(before);
    vstd::seq_lib::to_multiset_len(after);
    assert forall|i: int| 0 <= i < after.len() implies before.contains(#[trigger] after[i]) by {
        vstd::seq_lib::to_multiset_contains(after, after[i]);
        vstd::seq_lib::to_multiset_contains(before, after[i]);
        assert(after.contains(after[i]));
    }
    if all_less(before, pivot) {
        assert forall|i: int| 0 <= i < after.len() implies key_lt(#[trigger] after[i], pivot) by {
            assert(before.contains(after[i]));
        }
    }
    if all_greater(before, pivot) {
        assert forall|i: int| 0 <= i < after.len() implies key_lt(pivot, #[trigger] after[i]) by {
            assert(before.contains(after[i]));
        }
    }
}

/// Sorted smaller elements, then the pivot's equals, then sorted greater
/// elements: a sorted sequence.
proof fn lemma_three_parts<T: Ord>(less: Seq<T>, equal: Seq<T>, greater: Seq<T>, pivot: T)
    requires
        total_order::<T>(),
        non_descending(less),
        non_descending(greater),
        all_less(less, pivot),
        all_equal(equal, pivot),
        all_greater(greater, pivot),
    ensures
        non_descending(less + equal + greater),
{
    let s = less + equal + greater;
    let a = less.len() as int;
    let b = a + equal.len();
    assert forall|i: int, j: int| #![trigger s[i], s[j]] 0 <= i < j < s.len() implies !key_lt(
        s[j],
        s[i],
    ) by {
        lemma_trichotomy(pivot, pivot);
        if j < a {
            assert(s[i] == less[i] && s[j] == less[j]);
        } else if j < b {
            assert(s[j] == equal[j - a]);
            if i < a {
                assert(s[i] == less[i]);
                lemma_trichotomy(s[i], pivot);
            } else {
                assert(s[i] == equal[i - a]);
            }
        } else {
            assert(s[j] == greater[j - b]);
            if i < a {
                assert(s[i] == less[i]);
                lemma_lt_transitive(s[i], pivot, s[j]);
                lemma_trichotomy(s[i], s[j]);
            } else if i < b {
                assert(s[i] == equal[i - a]);
                lemma_trichotomy(pivot, s[j]);
            } else {
                assert(s[i] == greater[i - b]);
            }
        }
    }
}

/// The elements of `input_list` in sorted order.
pub fn quick_sort<T: Clone + Copy + Ord>(input_list: &[T]) -> (sorted: Vec<T>)
    requires
        total_order::<T>(),
    ensures
        non_descending(sorted@),
        sorted@.to_multiset() == input_list@.to_multiset(),
    decreases input_list@.len(),
{
    broadcast use vstd::multiset::group_multiset_axioms;

    if input_list.len() < 2 {
        return vstd::slice::slice_to_vec(input_list);
    }
    let mut less: Vec<T> = Vec::new();
    let mut greater: Vec<T> = Vec::new();
    let mut equal: Vec<T> = Vec::new();

    let pivot = input_list[input_list.len() / 2];
    proof {
        crate::slices::lemma_nothing_held(less@);
        crate::slices::lemma_nothing_held(equal@);
        crate::slices::lemma_nothing_held(greater@);
        crate::slices::lemma_nothing_held(input_list@.take(0));
        assert(less@.to_multiset().add(equal@.to_multiset()).add(greater@.to_multiset())
            =~= input_list@.take(0).to_multiset());
    }

    for i in 0..input_list.len()
        invariant
            total_order::<T>(),
            input_list@.len() >= 2,
            pivot == input_list@[input_list@.len() as int / 2],
            all_less(less@, pivot),
            all_greater(greater@, pivot),
            all_equal(equal@, pivot),
            less@.to_multiset().add(equal@.to_multiset()).add(greater@.to_multiset())
                == input_list@.take(i as int).to_multiset(),
            i > input_list@.len() as int / 2 ==> equal@.len() > 0,
    {
        let x = input_list[i];
        proof {
            assert(input_list@.take(i + 1) =~= input_list@.take(i as int).push(x));
            vstd::seq_lib::to_multiset_build(input_list@.take(i as int), x);
            vstd::seq_lib::to_multiset_build(less@, x);
            vstd::seq_lib::to_multiset_build(greater@, x);
            vstd::seq_lib::to_multiset_build(equal@, x);
            lemma_trichotomy(x, pivot);
        }
        if is_lt(&x, &pivot) {
            less.push(x);
        } else if is_gt(&x, &pivot) {
            greater.push(x);
        } else {
            equal.push(x);
        }
        proof {
            assert(less@.to_multiset().add(equal@.to_multiset()).add(greater@.to_multiset())
                =~= input_list@.take(i + 1).to_multiset());
        }
    }
    proof {
        assert(input_list@.take(input_list@.len() as int) =~= input_list@);
        vstd::seq_lib::to_multiset_len(less@);
        vstd::seq_lib::to_multiset_len(equal@);
        vstd::seq_lib::to_multiset_len(greater@);
        vstd::seq_lib::to_multiset_len(input_list@);
    }
    let mut sorted = quick_sort(less.as_slice());
    let mut sorted_greater = quick_sort(greater.as_slice());
    proof {
        lemma_rearranged_side(less@, sorted@, pivot);
        lemma_rearranged_side(greater@, sorted_greater@, pivot);
        lemma_three_parts(sorted@, equal@, sorted_greater@, pivot);
        vstd::seq_lib::lemma_multiset_commutative(sorted@, equal@);
        vstd::seq_lib::lemma_multiset_commutative(sorted@ + equal@, sorted_greater@);
    }
    sorted.append(&mut equal);
    sorted.append(&mut sorted_greater);
    sorted
}

} // verus!
