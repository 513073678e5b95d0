//! The order on keys that the search trees and the sorting routines rely on.
//!
//! Everything here is stated over the comparison that `Ord` gives a type.
//! A type qualifies when that comparison is a strict total order whose
//! `Equal` case is plain equality; the integers do.

use core::cmp::Ordering;
use vstd::prelude::*;
use vstd::std_specs::cmp::{OrdSpec, PartialEqSpec, PartialOrdSpec};

verus! {

/// The comparison of `K` is a total order, and two values compare equal
/// exactly when they are the same value.
pub open spec fn total_order<K: Ord>() -> bool {
    vstd::laws_cmp::obeys_cmp::<K>() && vstd::laws_eq::obeys_concrete_eq::<K>()
}

/// Two values of `K` compare equal with `==` exactly when they are the same
/// value.
pub open spec fn exact_eq<K: PartialEq>() -> bool {
    vstd::laws_eq::obeys_concrete_eq::<K>()
}

/// Cloning a value of `T` gives that value again.
pub open spec fn clone_is_exact<T: Clone>() -> bool {
    forall|a: T, b: T| #[trigger] cloned(a, b) ==> a == b
}

/// `a` comes strictly before `b`.
pub open spec fn key_lt<K: Ord>(a: K, b: K) -> bool {
    a.partial_cmp_spec(&b) == Some(Ordering::Less)
}


/// No element of `s` is followed by a smaller one.
pub open spec fn non_descending<K: Ord>(s: Seq<K>) -> bool {
    forall|i: int, j: int| #![trigger s[i], s[j]] 0 <= i < j < s.len() ==> !key_lt(s[j], s[i])
}

/// Of two keys exactly one holds: the first is smaller, they are equal, or
/// the second is smaller.
pub proof fn lemma_trichotomy<K: Ord>(a: K, b: K)
    requires
        total_order::<K>(),
    ensures
        key_lt(a, b) || a == b || key_lt(b, a),
        !(key_lt(a, b) && a == b),
        !(key_lt(b, a) && a == b),
        !(key_lt(a, b) && key_lt(b, a)),
{
    reveal(vstd::laws_cmp::obeys_cmp_partial_ord);
    reveal(vstd::laws_cmp::obeys_cmp_ord);
    reveal(vstd::laws_cmp::obeys_partial_cmp_spec_properties);
    reveal(vstd::laws_eq::obeys_eq_spec_properties);
    reveal(vstd::laws_eq::obeys_concrete_eq);
    let ab = a.partial_cmp_spec(&b);
    let ba = b.partial_cmp_spec(&a);
    assert(ab == Some(a.cmp_spec(&b)));
    assert(ba == Some(b.cmp_spec(&a)));
    assert(ab == Some(Ordering::Equal) <==> a.eq_spec(&b));
    assert(ba == Some(Ordering::Equal) <==> b.eq_spec(&a));
    assert(ab == Some(Ordering::Less) <==> ba == Some(Ordering::Greater));
    assert(ba == Some(Ordering::Less) <==> ab == Some(Ordering::Greater));
}

/// The order is transitive.
pub proof fn lemma_lt_transitive<K: Ord>(a: K, b: K, c: K)
    requires
        total_order::<K>(),
        key_lt(a, b),
        key_lt(b, c),
    ensures
        key_lt(a, c),
{
    reveal(vstd::laws_cmp::obeys_partial_cmp_spec_properties);
}

/// Not being greater is transitive.
pub proof fn lemma_not_gt_transitive<K: Ord>(a: K, b: K, c: K)
    requires
        total_order::<K>(),
        !key_lt(b, a),
        !key_lt(c, b),
    ensures
        !key_lt(c, a),
{
    lemma_trichotomy(a, b);
    lemma_trichotomy(b, c);
    if key_lt(c, a) {
        if a == b {
        } else if b == c {
        } else {
            lemma_lt_transitive(c, a, b);
        }
    }
}

/// Is `a` strictly smaller than `b`?
pub fn is_lt<K: Ord>(a: &K, b: &K) -> (r: bool)
    requires
        total_order::<K>(),
    ensures
        r == key_lt(*a, *b),
{
    proof {
        reveal(vstd::laws_cmp::obeys_cmp_partial_ord);
    }
    *a < *b
}

/// Is `a` strictly greater than `b`?
pub fn is_gt<K: Ord>(a: &K, b: &K) -> (r: bool)
    requires
        total_order::<K>(),
    ensures
        r == key_lt(*b, *a),
{
    proof {
        reveal(vstd::laws_cmp::obeys_cmp_partial_ord);
        reveal(vstd::laws_cmp::obeys_partial_cmp_spec_properties);
    }
    *a > *b
}

/// Are `a` and `b` the same key?
pub fn is_eq<K: Ord>(a: &K, b: &K) -> (r: bool)
    requires
        total_order::<K>(),
    ensures
        r == (*a == *b),
{
    proof {
        reveal(vstd::laws_eq::obeys_concrete_eq);
    }
    *a == *b
}

/// Are `a` and `b` the same value?
pub fn is_same<K: PartialEq>(a: &K, b: &K) -> (r: bool)
    requires
        exact_eq::<K>(),
    ensures
        r == (*a == *b),
{
    proof {
        reveal(vstd::laws_eq::obeys_concrete_eq);
    }
    *a == *b
}

} // verus!
