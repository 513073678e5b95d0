//! Sum, count and maximum of a list of numbers, each by recursion on the
//! list: the answer for a list comes from its first number and the answer for
//! the rest.

use vstd::prelude::*;

verus! {

/// The sum of the numbers of `s`.
pub open spec fn sum_of(s: Seq<i32>) -> int
    decreases s.len(),
{
    if s.len() == 0 {
        0
    } else {
        s[0] + sum_of(s.drop_first())
    }
}

/// The sum of `s` and of each of its tails is an `i32`: adding up from the
/// right never leaves the range of the type.
pub open spec fn tail_sums_fit(s: Seq<i32>) -> bool {
    forall|i: int| 0 <= i <= s.len() ==> i32::MIN <= #[trigger] sum_of(s.skip(i)) <= i32::MAX
}

/// `m` is the greatest number of `s`.
pub open spec fn is_max_of(s: Seq<i32>, m: i32) -> bool {
    &&& s.contains(m)
    &&& forall|i: int| 0 <= i < s.len() ==> s[i] <= m
}

/// The tails of the rest of a list are tails of the list.
pub proof fn lemma_rest_fits(s: Seq<i32>)
    requires
        s.len() > 0,
        tail_sums_fit(s),
    ensures
        tail_sums_fit(s.drop_first()),
        i32::MIN <= sum_of(s) <= i32::MAX,
        i32::MIN <= sum_of(s.drop_first()) <= i32::MAX,
{
    let rest = s.drop_first();
    assert forall|i: int| 0 <= i <= rest.len() implies i32::MIN <= #[trigger] sum_of(rest.skip(i))
        <= i32::MAX by {
        assert(rest.skip(i) =~= s.skip(i + 1));
    }
    assert(s.skip(0) =~= s);
    assert(s.skip(1) =~= rest);
}

/// The greatest number of a list is its first number or the greatest of
/// the rest, whichever is greater.
pub proof fn lemma_max_of_rest(s: Seq<i32>, rest_max: i32)
    requires
        s.len() > 1,
        is_max_of(s.drop_first(), rest_max),
    ensures
        is_max_of(
            s,
            if s[0] >= rest_max {
                s[0]
            } else {
                rest_max
            },
        ),
{
    let rest = s.drop_first();
    let i = choose|i: int| 0 <= i < rest.len() && rest[i] == rest_max;
    assert(s[i + 1] == rest_max);
    assert(s[0] == s[0]);
    let m = if s[0] >= rest_max {
        s[0]
    } else {
        rest_max
    };
    assert forall|j: int| 0 <= j < s.len() implies #[trigger] s[j] <= m by {
        if j > 0 {
            assert(rest[j - 1] == s[j]);
        }
    }
}

/// The sum of the numbers: the first number and the sum of the rest.
pub fn sum_recursive(input_list: &[i32]) -> (sum: i32)
    requires
        tail_sums_fit(input_list@),
    ensures
        sum == sum_of(input_list@),
    decreases input_list@.len(),
{
    if input_list.is_empty() {
        return 0;
    }
    let first = input_list[0];
    let rest = &input_list[1..input_list.len()];
    proof {
        lemma_rest_fits(input_list@);
        assert(rest@ =~= input_list@.drop_first());
    }
    first + sum_recursive(rest)
}

/// The sum of the numbers, by taking the list apart into its first number
/// and the rest.
pub fn sum_recursive_match(input_list: &[i32]) -> (sum: i32)
    requires
        tail_sums_fit(input_list@),
    ensures
        sum == sum_of(input_list@),
    decreases input_list@.len(),
{
    match input_list.split_first() {
        None => 0,
        Some((first, rest)) => {
            proof {
                lemma_rest_fits(input_list@);
            }
            *first + sum_recursive_match(rest)
        },
    }
}

/// The number of the numbers: one more than the number of the rest.
pub fn count_recursive(input_list: &[i32]) -> (count: i32)
    requires
        input_list@.len() <= i32::MAX,
    ensures
        count == input_list@.len(),
    decreases input_list@.len(),
{
    if input_list.is_empty() {
        return 0;
    }
    let rest = &input_list[1..input_list.len()];
    1 + count_recursive(rest)
}

/// The number of the numbers, by taking the list apart into its first
/// number and the rest.
pub fn count_recursive_match(input_list: &[i32]) -> (count: i32)
    requires
        input_list@.len() <= i32::MAX,
    ensures
        count == input_list@.len(),
    decreases input_list@.len(),
{
    match input_list.split_first() {
        None => 0,
        Some((_, rest)) => 1 + count_recursive_match(rest),
    }
}

/// The greatest number of a list that is not empty.
pub fn max_value_recursive(input_list: &[i32]) -> (max: i32)
    requires
        input_list@.len() > 0,
    ensures
        is_max_of(input_list@, max),
    decreases input_list@.len(),
{
    if input_list.len() == 1 {
        assert(input_list@[0] == input_list@[0]);
        return input_list[0];
    }
    let first = input_list[0];
    let rest = &input_list[1..input_list.len()];
    assert(rest@ =~= input_list@.drop_first());
    let max_rest = max_value_recursive(rest);
    proof {
        lemma_max_of_rest(input_list@, max_rest);
    }

    first.max(max_rest)
}

/// The greatest number of a list that is not empty.
pub fn max_value_recursive_pattern(input_list: &[i32]) -> (max: i32)
    requires
        input_list@.len() > 0,
    ensures
        is_max_of(input_list@, max),
    decreases input_list@.len(),
{
    match input_list.split_first() {
        Some((single, rest)) if rest.is_empty() => {
            assert(input_list@[0] == input_list@[0]);
            *single
        },
        Some((first, rest)) => {
            let max_rest = max_value_recursive_pattern(rest);
            proof {
                lemma_max_of_rest(input_list@, max_rest);
            }
            *first.max(&max_rest)
        },
        None => unreached(),
    }
}

} // verus!
