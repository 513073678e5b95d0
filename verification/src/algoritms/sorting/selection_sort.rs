//! Selection sort: the smallest number of what is left goes next into the
//! result, until nothing is left.

use vstd::prelude::*;

verus! {

/// No number of `s` is followed by a smaller one.
pub open spec fn ascending_numbers(s: Seq<i32>) -> bool {
    forall|i: int, j: int| 0 <= i < j < s.len() ==> s[i] <= s[j]
}

/// `at` is the first position of the smallest number of `s`.
pub open spec fn first_smallest(s: Seq<i32>, at: int) -> bool {
    &&& 0 <= at < s.len()
    &&& forall|i: int| 0 <= i < s.len() ==> s[at] <= s[i]
    &&& forall|i: int| 0 <= i < at ==> s[at] < s[i]
}

/// The position of the smallest number of a list that is not empty; the
/// first such position where the smallest number occurs more than once.
pub fn find_smallest(input_list: &[i32]) -> (smallest_index: usize)
    requires
        input_list@.len() > 0,
    ensures
        first_smallest(input_list@, smallest_index as int),
{
    let mut smallest = input_list[0];

    let mut smallest_index: usize = 0;

    for i in 0..input_list.len()
        invariant
            smallest_index < input_list@.len(),
            smallest_index <= i,
            smallest == input_list@[smallest_index as int],
            forall|k: int| 0 <= k < i ==> smallest <= input_list@[k],
            forall|k: int| 0 <= k < smallest_index ==> smallest < input_list@[k],
    {
        let number = input_list[i];
        if number < smallest {
            smallest = number;
            smallest_index = i;
        }
    }
    smallest_index
}

/// Taking the element at `i` out of `s` by moving the last element into its
/// place keeps the other elements.
proof fn lemma_swap_remove_keeps_elements(s: Seq<i32>, i: int)
    requires
        0 <= i < s.len(),
    ensures
        s.update(i, s.last()).drop_last().to_multiset().insert(s[i]) == s.to_multiset(),
{
    broadcast use vstd::multiset::group_multiset_axioms;

    let shorter = s.update(i, s.last()).drop_last();
    let n = s.len() as int;
    if i == n - 1 {
        assert(shorter =~= s.drop_last());
        assert(s =~= s.drop_last().push(s[i]));
        vstd::seq_lib::to_multiset_build(s.drop_last(), s[i]);
    } else {
        assert(shorter =~= s.drop_last().update(i, s.last()));
        assert(s =~= s.drop_last().push(s.last()));
        vstd::seq_lib::to_multiset_build(s.drop_last(), s.last());
        vstd::seq_lib::to_multiset_update(s.drop_last(), i, s.last());
        vstd::seq_lib::to_multiset_contains(s.drop_last(), s[i]);
        assert(s.drop_last()[i] == s[i]);
        assert(s.drop_last().contains(s[i]));
        assert(shorter.to_multiset().insert(s[i]) =~= s.to_multiset());
    }
}

/// The numbers of `input_list` in sorted order.
pub fn selection_sort(input_list: &[i32]) -> (sorted: Vec<i32>)
    ensures
        ascending_numbers(sorted@),
        sorted@.to_multiset() == input_list@.to_multiset(),
{
    broadcast use vstd::multiset::group_multiset_axioms;

    let mut result: Vec<i32> = vec![];
    let mut cloned_list = vstd::slice::slice_to_vec(input_list);
    proof {
        crate::slices::lemma_nothing_held(result@);
        assert(result@.to_multiset().add(cloned_list@.to_multiset())
            =~= input_list@.to_multiset());
    }

    while !cloned_list.is_empty()
        invariant
            ascending_numbers(result@),
            forall|i: int, j: int|
                0 <= i < result@.len() && 0 <= j < cloned_list@.len() ==> result@[i]
                    <= cloned_list@[j],
            result@.to_multiset().add(cloned_list@.to_multiset()) == input_list@.to_multiset(),
        decreases cloned_list@.len(),
    {
        let smallest = find_smallest(cloned_list.as_slice());
        let ghost left = cloned_list@;
        let ghost done = result@;
        proof {
            lemma_swap_remove_keeps_elements(left, smallest as int);
            vstd::seq_lib::to_multiset_build(done, left[smallest as int]);
        }

        result.push(cloned_list.swap_remove(smallest));
        proof {
            assert(result@.to_multiset().add(cloned_list@.to_multiset())
                =~= input_list@.to_multiset());
        }
    }
    proof {
        crate::slices::lemma_nothing_held(cloned_list@);
        assert(result@.to_multiset() =~= input_list@.to_multiset());
    }

    result
}

} // verus!
