//! Bubble sort: in each pass the greatest element of the unsorted front
//! moves, exchange by exchange, to the end of that front.

use crate::order::{
    clone_is_exact, is_gt, key_lt, lemma_not_gt_transitive, lemma_trichotomy, non_descending,
    total_order,
};
use crate::slices::{
    clone_list, clones_of, lemma_exact_clones, lemma_swap_keeps_elements, rearranged_clones,
};
use vstd::prelude::*;

verus! {

/// From position `from` on, `s` is sorted, and nothing before `from` is
/// greater than anything from `from` on.
pub open spec fn settled_from<T: Ord>(s: Seq<T>, from: int) -> bool {
    &&& forall|a: int, b: int|
        #![trigger s[a], s[b]]
        from <= a < b < s.len() ==> !key_lt(s[b], s[a])
    &&& forall|a: int, b: int|
        #![trigger s[a], s[b]]
        0 <= a < from <= b < s.len() ==> !key_lt(s[b], s[a])
}

/// No element of `s` up to position `at` is greater than the one at `at`.
pub open spec fn greatest_at<T: Ord>(s: Seq<T>, at: int) -> bool {
    forall|a: int| 0 <= a <= at ==> !key_lt(s[at], #[trigger] s[a])
}

/// One step of a pass: the elements at `j` and `j + 1` are in order, after
/// an exchange where they were not. The greatest element of the front has
/// moved on to `j + 1`, and nothing else has changed.
proof fn lemma_bubble_step<T: Ord>(before: Seq<T>, after: Seq<T>, j: int, from: int)
    requires
        total_order::<T>(),
        0 <= j,
        j + 1 < from <= before.len(),
        settled_from(before, from),
        greatest_at(before, j),
        key_lt(before[j + 1], before[j]) ==> after == before.update(j, before[j + 1]).update(
            j + 1,
            before[j],
        ),
        !key_lt(before[j + 1], before[j]) ==> after == before,
    ensures
        settled_from(after, from),
        greatest_at(after, j + 1),
        after.to_multiset() == before.to_multiset(),
{
    lemma_swap_keeps_elements(before, j, j + 1);
    lemma_trichotomy(before[j], before[j + 1]);
    lemma_trichotomy(before[j], before[j]);
    lemma_trichotomy(before[j + 1], before[j + 1]);
    assert forall|a: int| 0 <= a <= j + 1 implies !key_lt(after[j + 1], #[trigger] after[a]) by {
        if key_lt(before[j + 1], before[j]) {
            if a < j {
                assert(after[a] == before[a]);
            }
        } else {
            if a <= j {
                lemma_not_gt_transitive(before[a], before[j], before[j + 1]);
            }
        }
    }
    assert forall|a: int, b: int| #![trigger after[a], after[b]] 0 <= a < from <= b < after.len()
        implies !key_lt(after[b], after[a]) by {
        assert(after[b] == before[b]);
        if a == j {
            assert(!key_lt(before[b], before[j]) && !key_lt(before[b], before[j + 1]));
        } else if a == j + 1 {
            assert(!key_lt(before[b], before[j]) && !key_lt(before[b], before[j + 1]));
        } else {
            assert(after[a] == before[a]);
        }
    }
    assert forall|a: int, b: int| #![trigger after[a], after[b]] from <= a < b < after.len()
        implies !key_lt(after[b], after[a]) by {
        assert(after[a] == before[a] && after[b] == before[b]);
    }
}

/// After a pass the front is one shorter.
proof fn lemma_bubble_pass<T: Ord>(s: Seq<T>, from: int)
    requires
        0 < from <= s.len(),
        settled_from(s, from),
        greatest_at(s, from - 1),
    ensures
        settled_from(s, from - 1),
{
}

/// A sorted vector of clones of the elements of `input_list`.
pub fn bubble_sort<T: Clone + Ord>(input_list: &[T]) -> (sorted: Vec<T>)
    requires
        total_order::<T>(),
    ensures
        non_descending(sorted@),
        rearranged_clones(input_list@, sorted@),
        clone_is_exact::<T>() ==> sorted@.to_multiset() == input_list@.to_multiset(),
{
    let mut result = clone_list(input_list);
    let n = result.len();
    let ghost copy = result@;

    for i in 0..n
        invariant
            total_order::<T>(),
            result@.len() == n,
            result@.to_multiset() == copy.to_multiset(),
            settled_from(result@, n - i),
    {
        proof {
            lemma_trichotomy(result@[0], result@[0]);
        }
        for j in 0..(n - i - 1)
            invariant
                total_order::<T>(),
                i < n,
                result@.len() == n,
                result@.to_multiset() == copy.to_multiset(),
                settled_from(result@, n - i),
                greatest_at(result@, j as int),
        {
            let ghost before = result@;
            if is_gt(&result[j], &result[j + 1]) {
                result.swap(j, j + 1);
            }
            proof {
                lemma_bubble_step(before, result@, j as int, n - i);
            }
        }
        proof {
            lemma_bubble_pass(result@, n - i);
        }
    }
    proof {
        assert(clones_of(input_list@, copy));
        if clone_is_exact::<T>() {
            lemma_exact_clones(input_list@, copy);
        }
    }
    result
}

} // verus!
