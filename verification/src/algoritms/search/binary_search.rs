//! Binary search in a sorted list of numbers.

use vstd::prelude::*;

verus! {

/// No number of `s` is followed by a smaller one.
pub open spec fn sorted_numbers(s: Seq<i32>) -> bool {
    forall|i: int, j: int| 0 <= i <= j < s.len() ==> s[i] <= s[j]
}

/// Binary search
///
/// Looks for `target` by halving the range in which it can stand. An answer
/// is always a number of the list that equals `target`. In a sorted list the
/// search finds `target` whenever the list holds it.
pub fn binary_search(input_list: &[i32], target: i32) -> (found: Option<i32>)
    ensures
        found matches Some(number) ==> number == target && input_list@.contains(target),
        sorted_numbers(input_list@) ==> (found is Some <==> input_list@.contains(target)),
{
    let mut low: usize = 0;
    let mut high: usize = input_list.len();

    while low < high
        invariant
            low <= high <= input_list@.len(),
            sorted_numbers(input_list@) ==> forall|k: int|
                0 <= k < input_list@.len() && input_list@[k] == target ==> low <= k < high,
        decreases high - low,
    {
        let mid = low + (high - low) / 2;
        let result: i32 = input_list[mid];
        if result == target {
            assert(input_list@[mid as int] == target);
            return Some(input_list[mid]);
        } else if result < target {
            low = mid + 1
        } else {
            high = mid
        }
    }
    None
}

} // verus!
