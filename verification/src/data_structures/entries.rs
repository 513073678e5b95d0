//! Key-value sequences in ascending key order: the model of the search trees.
//!
//! A search tree stands for the sequence of its entries as an in-order walk
//! meets them. While the keys of that sequence ascend strictly, no key occurs
//! twice, and the sequence determines a finite map.

use crate::order::{key_lt, lemma_lt_transitive, lemma_trichotomy, total_order};
use vstd::prelude::*;

verus! {

/// The keys of `s` ascend strictly from left to right.
#[verifier::opaque]
pub open spec fn ascending<K: Ord, V>(s: Seq<(K, V)>) -> bool {
    forall|i: int, j: int| #![trigger s[i], s[j]] 0 <= i < j < s.len() ==> key_lt(s[i].0, s[j].0)
}

/// Some entry of `s` has the key `k`.
pub open spec fn has_key<K, V>(s: Seq<(K, V)>, k: K) -> bool {
    exists|i: int| 0 <= i < s.len() && (#[trigger] s[i]).0 == k
}

/// A position in `s` at which the key `k` stands, if there is one.
pub open spec fn position_of<K, V>(s: Seq<(K, V)>, k: K) -> int {
    choose|i: int| 0 <= i < s.len() && (#[trigger] s[i]).0 == k
}

/// The map that sends each key of `s` to the value beside it.
#[verifier::opaque]
pub open spec fn to_map<K, V>(s: Seq<(K, V)>) -> Map<K, V> {
    Map::new(|k: K| has_key(s, k), |k: K| s[position_of(s, k)].1)
}

/// Every key of `s` is smaller than `k`.
#[verifier::opaque]
pub open spec fn all_below<K: Ord, V>(s: Seq<(K, V)>, k: K) -> bool {
    forall|i: int| 0 <= i < s.len() ==> key_lt((#[trigger] s[i]).0, k)
}

/// Every key of `s` is greater than `k`.
#[verifier::opaque]
pub open spec fn all_above<K: Ord, V>(s: Seq<(K, V)>, k: K) -> bool {
    forall|i: int| 0 <= i < s.len() ==> key_lt(k, (#[trigger] s[i]).0)
}

/// `left`, then the entry `mid`, then `right`.
pub open spec fn around<K, V>(left: Seq<(K, V)>, mid: (K, V), right: Seq<(K, V)>) -> Seq<(K, V)> {
    left.push(mid) + right
}

/// Taking the entries of a rotated tree: the same sequence, bracketed the
/// other way.
pub proof fn lemma_around_assoc<K, V>(
    a: Seq<(K, V)>,
    x: (K, V),
    b: Seq<(K, V)>,
    y: (K, V),
    c: Seq<(K, V)>,
)
    ensures
        around(around(a, x, b), y, c) == around(a, x, around(b, y, c)),
{
    assert(around(around(a, x, b), y, c) =~= around(a, x, around(b, y, c)));
}

/// In an ascending sequence the entry at position `i` is the one that the map
/// holds for its key.
pub proof fn lemma_entry_in_map<K: Ord, V>(s: Seq<(K, V)>, i: int)
    requires
        total_order::<K>(),
        ascending(s),
        0 <= i < s.len(),
    ensures
        to_map(s).contains_key(s[i].0),
        to_map(s)[s[i].0] == s[i].1,
        position_of(s, s[i].0) == i,
{
    reveal(ascending);
    reveal(to_map);
    let k = s[i].0;
    assert(has_key(s, k));
    let j = position_of(s, k);
    if j != i {
        lemma_trichotomy(s[i].0, s[j].0);
        if i < j {
            assert(key_lt(s[i].0, s[j].0));
        } else {
            assert(key_lt(s[j].0, s[i].0));
        }
    }
}

/// A key of the map stands somewhere in the sequence, beside its value.
pub proof fn lemma_key_has_entry<K: Ord, V>(s: Seq<(K, V)>, k: K)
    requires
        to_map(s).contains_key(k),
    ensures
        0 <= position_of(s, k) < s.len(),
        s[position_of(s, k)] == (k, to_map(s)[k]),
{
    reveal(to_map);
    assert(has_key(s, k));
}

/// The parts of an ascending sequence ascend, and the entry between them
/// separates their keys.
pub proof fn lemma_split<K: Ord, V>(left: Seq<(K, V)>, mid: (K, V), right: Seq<(K, V)>)
    requires
        ascending(around(left, mid, right)),
    ensures
        ascending(left),
        ascending(right),
        all_below(left, mid.0),
        all_above(right, mid.0),
{
    reveal(ascending);
    reveal(all_below);
    reveal(all_above);
    let s = around(left, mid, right);
    let n = left.len() as int;
    assert(s[n] == mid);
    assert forall|i: int, j: int| #![trigger left[i], left[j]] 0 <= i < j < left.len() implies key_lt(
        left[i].0,
        left[j].0,
    ) by {
        assert(s[i] == left[i] && s[j] == left[j]);
    }
    assert forall|i: int, j: int| #![trigger right[i], right[j]] 0 <= i < j < right.len() implies key_lt(
        right[i].0,
        right[j].0,
    ) by {
        assert(s[n + 1 + i] == right[i] && s[n + 1 + j] == right[j]);
    }
    assert forall|i: int| 0 <= i < left.len() implies key_lt((#[trigger] left[i]).0, mid.0) by {
        assert(s[i] == left[i]);
    }
    assert forall|i: int| 0 <= i < right.len() implies key_lt(mid.0, (#[trigger] right[i]).0) by {
        assert(s[n + 1 + i] == right[i]);
    }
}

/// Two ascending sequences and an entry that separates their keys make one
/// ascending sequence.
pub proof fn lemma_join<K: Ord, V>(left: Seq<(K, V)>, mid: (K, V), right: Seq<(K, V)>)
    requires
        total_order::<K>(),
        ascending(left),
        ascending(right),
        all_below(left, mid.0),
        all_above(right, mid.0),
    ensures
        ascending(around(left, mid, right)),
{
    reveal(ascending);
    reveal(all_below);
    reveal(all_above);
    let s = around(left, mid, right);
    let n = left.len() as int;
    assert forall|i: int, j: int| #![trigger s[i], s[j]] 0 <= i < j < s.len() implies key_lt(
        s[i].0,
        s[j].0,
    ) by {
        if j < n {
            assert(s[i] == left[i] && s[j] == left[j]);
        } else if j == n {
            assert(s[i] == left[i] && s[j] == mid);
        } else if i < n {
            assert(s[i] == left[i] && s[j] == right[j - n - 1]);
            lemma_lt_transitive(left[i].0, mid.0, right[j - n - 1].0);
        } else if i == n {
            assert(s[i] == mid && s[j] == right[j - n - 1]);
        } else {
            assert(s[i] == right[i - n - 1] && s[j] == right[j - n - 1]);
        }
    }
}

/// The map of an ascending sequence, taken apart at one entry: the keys of
/// the three parts are disjoint, and each part keeps its values.
pub proof fn lemma_map_around<K: Ord, V>(left: Seq<(K, V)>, mid: (K, V), right: Seq<(K, V)>)
    requires
        total_order::<K>(),
        ascending(around(left, mid, right)),
    ensures
        to_map(around(left, mid, right)) == to_map(left).union_prefer_right(to_map(right)).insert(
            mid.0,
            mid.1,
        ),
        !to_map(left).contains_key(mid.0),
        !to_map(right).contains_key(mid.0),
        forall|k: K| to_map(left).contains_key(k) ==> key_lt(k, mid.0),
        forall|k: K| to_map(right).contains_key(k) ==> key_lt(mid.0, k),
        forall|k: K| !(to_map(left).contains_key(k) && to_map(right).contains_key(k)),
{
    reveal(to_map);
    reveal(all_below);
    reveal(all_above);
    let s = around(left, mid, right);
    let n = left.len() as int;
    let whole = to_map(s);
    let parts = to_map(left).union_prefer_right(to_map(right)).insert(mid.0, mid.1);
    lemma_split(left, mid, right);
    assert(s[n] == mid);
    assert forall|k: K| to_map(left).contains_key(k) implies key_lt(k, mid.0) by {
        lemma_key_has_entry(left, k);
    }
    assert forall|k: K| to_map(right).contains_key(k) implies key_lt(mid.0, k) by {
        lemma_key_has_entry(right, k);
    }
    lemma_trichotomy(mid.0, mid.0);
    assert forall|k: K| !(to_map(left).contains_key(k) && to_map(right).contains_key(k)) by {
        if to_map(left).contains_key(k) && to_map(right).contains_key(k) {
            lemma_lt_transitive(k, mid.0, k);
            lemma_trichotomy(k, k);
        }
    }
    assert forall|k: K| whole.contains_key(k) <==> parts.contains_key(k) by {
        if whole.contains_key(k) {
            lemma_key_has_entry(s, k);
            let i = position_of(s, k);
            if i < n {
                assert(left[i] == s[i]);
                assert(has_key(left, k));
            } else if i > n {
                assert(right[i - n - 1] == s[i]);
                assert(has_key(right, k));
            }
        }
        if parts.contains_key(k) {
            if k == mid.0 {
                assert(has_key(s, k));
            } else if to_map(right).contains_key(k) {
                lemma_key_has_entry(right, k);
                assert(s[n + 1 + position_of(right, k)] == right[position_of(right, k)]);
                assert(has_key(s, k));
            } else {
                lemma_key_has_entry(left, k);
                assert(s[position_of(left, k)] == left[position_of(left, k)]);
                assert(has_key(s, k));
            }
        }
    }
    assert forall|k: K| whole.contains_key(k) implies whole[k] == parts[k] by {
        lemma_key_has_entry(s, k);
        let i = position_of(s, k);
        if i < n {
            assert(left[i] == s[i]);
            lemma_entry_in_map(left, i);
        } else if i > n {
            assert(right[i - n - 1] == s[i]);
            lemma_entry_in_map(right, i - n - 1);
        }
    }
    assert(whole =~= parts);
}

/// An ascending sequence holds each key once: its map has as many keys as
/// the sequence has entries.
pub proof fn lemma_map_len<K: Ord, V>(s: Seq<(K, V)>)
    requires
        total_order::<K>(),
        ascending(s),
    ensures
        to_map(s).dom().finite(),
        to_map(s).dom().len() == s.len(),
    decreases s.len(),
{
    reveal(to_map);
    if s.len() == 0 {
        assert(to_map(s).dom() =~= Set::<K>::empty());
    } else {
        let front = s.drop_last();
        let last = s.last();
        assert(s =~= around(front, last, Seq::<(K, V)>::empty()));
        lemma_map_around(front, last, Seq::<(K, V)>::empty());
        lemma_split(front, last, Seq::<(K, V)>::empty());
        lemma_map_len(front);
        assert(to_map(Seq::<(K, V)>::empty()).dom() =~= Set::<K>::empty());
        assert(to_map(s).dom() =~= to_map(front).dom().insert(last.0));
    }
}

/// The empty sequence ascends, and its map is empty.
pub proof fn lemma_map_none<K: Ord, V>()
    ensures
        ascending(Seq::<(K, V)>::empty()),
        to_map(Seq::<(K, V)>::empty()) == Map::<K, V>::empty(),
{
    reveal(ascending);
    reveal(to_map);
    assert(to_map(Seq::<(K, V)>::empty()) =~= Map::<K, V>::empty());
}

/// The map of the empty sequence is empty, and the map of one entry holds
/// that entry.
pub proof fn lemma_map_small<K: Ord, V>(e: (K, V))
    requires
        total_order::<K>(),
    ensures
        to_map(Seq::<(K, V)>::empty()) == Map::<K, V>::empty(),
        ascending(Seq::<(K, V)>::empty()),
        ascending(around(Seq::empty(), e, Seq::empty())),
        to_map(around(Seq::empty(), e, Seq::empty())) == Map::<K, V>::empty().insert(e.0, e.1),
{
    reveal(ascending);
    reveal(to_map);
    reveal(all_below);
    reveal(all_above);
    let none = Seq::<(K, V)>::empty();
    assert(to_map(none) =~= Map::<K, V>::empty());
    lemma_join(none, e, none);
    lemma_map_around(none, e, none);
    assert(Map::<K, V>::empty().union_prefer_right(Map::<K, V>::empty()) =~= Map::<K, V>::empty());
}

/// Every key of an ascending sequence whose map lies below `k` lies below `k`.
pub proof fn lemma_keys_below<K: Ord, V>(s: Seq<(K, V)>, k: K)
    requires
        total_order::<K>(),
        ascending(s),
        forall|x: K| to_map(s).contains_key(x) ==> key_lt(x, k),
    ensures
        all_below(s, k),
{
    reveal(all_below);
    assert forall|i: int| 0 <= i < s.len() implies key_lt((#[trigger] s[i]).0, k) by {
        lemma_entry_in_map(s, i);
    }
}

/// Every key of an ascending sequence whose map lies above `k` lies above `k`.
pub proof fn lemma_keys_above<K: Ord, V>(s: Seq<(K, V)>, k: K)
    requires
        total_order::<K>(),
        ascending(s),
        forall|x: K| to_map(s).contains_key(x) ==> key_lt(k, x),
    ensures
        all_above(s, k),
{
    reveal(all_above);
    assert forall|i: int| 0 <= i < s.len() implies key_lt(k, (#[trigger] s[i]).0) by {
        lemma_entry_in_map(s, i);
    }
}

/// Putting a smaller key into the left part puts it into the whole.
pub proof fn lemma_insert_left<K: Ord, V>(
    left: Seq<(K, V)>,
    mid: (K, V),
    right: Seq<(K, V)>,
    new_left: Seq<(K, V)>,
    key: K,
    value: V,
)
    requires
        total_order::<K>(),
        ascending(around(left, mid, right)),
        key_lt(key, mid.0),
        ascending(new_left),
        to_map(new_left) == to_map(left).insert(key, value),
    ensures
        ascending(around(new_left, mid, right)),
        to_map(around(new_left, mid, right)) == to_map(around(left, mid, right)).insert(key, value),
{
    lemma_split(left, mid, right);
    lemma_map_around(left, mid, right);
    lemma_keys_below(new_left, mid.0);
    lemma_join(new_left, mid, right);
    lemma_map_around(new_left, mid, right);
    lemma_trichotomy(key, mid.0);
    assert(to_map(around(new_left, mid, right)) =~= to_map(around(left, mid, right)).insert(
        key,
        value,
    ));
}

/// Putting a greater key into the right part puts it into the whole.
pub proof fn lemma_insert_right<K: Ord, V>(
    left: Seq<(K, V)>,
    mid: (K, V),
    right: Seq<(K, V)>,
    new_right: Seq<(K, V)>,
    key: K,
    value: V,
)
    requires
        total_order::<K>(),
        ascending(around(left, mid, right)),
        key_lt(mid.0, key),
        ascending(new_right),
        to_map(new_right) == to_map(right).insert(key, value),
    ensures
        ascending(around(left, mid, new_right)),
        to_map(around(left, mid, new_right)) == to_map(around(left, mid, right)).insert(key, value),
{
    lemma_split(left, mid, right);
    lemma_map_around(left, mid, right);
    lemma_keys_above(new_right, mid.0);
    lemma_join(left, mid, new_right);
    lemma_map_around(left, mid, new_right);
    lemma_trichotomy(key, mid.0);
    assert forall|k: K| !(to_map(left).contains_key(k) && k == key) by {
        if to_map(left).contains_key(k) && k == key {
            lemma_lt_transitive(k, mid.0, key);
            lemma_trichotomy(k, key);
        }
    }
    assert(to_map(around(left, mid, new_right)) =~= to_map(around(left, mid, right)).insert(
        key,
        value,
    ));
}

/// Giving the middle entry a new value overwrites that key in the map.
pub proof fn lemma_insert_here<K: Ord, V>(
    left: Seq<(K, V)>,
    mid: (K, V),
    right: Seq<(K, V)>,
    value: V,
)
    requires
        total_order::<K>(),
        ascending(around(left, mid, right)),
    ensures
        ascending(around(left, (mid.0, value), right)),
        to_map(around(left, (mid.0, value), right)) == to_map(around(left, mid, right)).insert(
            mid.0,
            value,
        ),
{
    lemma_split(left, mid, right);
    lemma_map_around(left, mid, right);
    lemma_join(left, (mid.0, value), right);
    lemma_map_around(left, (mid.0, value), right);
    assert(to_map(around(left, (mid.0, value), right)) =~= to_map(around(left, mid, right)).insert(
        mid.0,
        value,
    ));
}

/// A key smaller than the middle entry is looked up in the left part, a
/// greater one in the right part.
pub proof fn lemma_key_side<K: Ord, V>(
    left: Seq<(K, V)>,
    mid: (K, V),
    right: Seq<(K, V)>,
    key: K,
)
    requires
        total_order::<K>(),
        ascending(around(left, mid, right)),
    ensures
        key_lt(key, mid.0) ==> !to_map(right).contains_key(key) && (to_map(
            around(left, mid, right),
        ).contains_key(key) <==> to_map(left).contains_key(key)),
        key_lt(key, mid.0) && to_map(left).contains_key(key) ==> to_map(
            around(left, mid, right),
        )[key] == to_map(left)[key],
        key_lt(mid.0, key) ==> !to_map(left).contains_key(key) && (to_map(
            around(left, mid, right),
        ).contains_key(key) <==> to_map(right).contains_key(key)),
        key_lt(mid.0, key) && to_map(right).contains_key(key) ==> to_map(
            around(left, mid, right),
        )[key] == to_map(right)[key],
        to_map(around(left, mid, right)).contains_key(mid.0),
        to_map(around(left, mid, right))[mid.0] == mid.1,
{
    lemma_map_around(left, mid, right);
    lemma_trichotomy(key, mid.0);
    if to_map(left).contains_key(key) && key_lt(mid.0, key) {
        lemma_lt_transitive(key, mid.0, key);
        lemma_trichotomy(key, key);
    }
    if to_map(right).contains_key(key) && key_lt(key, mid.0) {
        lemma_lt_transitive(key, mid.0, key);
        lemma_trichotomy(key, key);
    }
}

/// `after` is `before` without `key`: it holds the other keys, each with
/// the value it had or a clone of that value.
pub open spec fn removed<K, V: Clone>(before: Map<K, V>, key: K, after: Map<K, V>) -> bool {
    &&& after.dom() == before.dom().remove(key)
    &&& forall|k: K| #[trigger] after.contains_key(k) ==> cloned(before[k], after[k])
}

/// Where cloning a value gives the value again, removing a key is removing
/// it from the map.
pub proof fn lemma_removed_exact<K, V: Clone>(before: Map<K, V>, key: K, after: Map<K, V>)
    requires
        removed(before, key, after),
        crate::order::clone_is_exact::<V>(),
    ensures
        after == before.remove(key),
{
    assert(after =~= before.remove(key));
}

/// Removing a key that is not there leaves the map as it was, where no
/// value was cloned.
pub proof fn lemma_removed_absent<K, V: Clone>(before: Map<K, V>, key: K)
    requires
        !before.contains_key(key),
    ensures
        removed(before, key, before),
{
    assert(before.dom() =~= before.dom().remove(key));
}

/// Taking a smaller key out of the left part takes it out of the whole.
pub proof fn lemma_remove_left<K: Ord, V: Clone>(
    left: Seq<(K, V)>,
    mid: (K, V),
    right: Seq<(K, V)>,
    new_left: Seq<(K, V)>,
    key: K,
)
    requires
        total_order::<K>(),
        ascending(around(left, mid, right)),
        key_lt(key, mid.0),
        ascending(new_left),
        removed(to_map(left), key, to_map(new_left)),
    ensures
        ascending(around(new_left, mid, right)),
        removed(to_map(around(left, mid, right)), key, to_map(around(new_left, mid, right))),
{
    lemma_split(left, mid, right);
    lemma_map_around(left, mid, right);
    lemma_keys_below(new_left, mid.0);
    lemma_join(new_left, mid, right);
    lemma_map_around(new_left, mid, right);
    lemma_key_side(left, mid, right, key);
    lemma_trichotomy(key, mid.0);
    let before = to_map(around(left, mid, right));
    let after = to_map(around(new_left, mid, right));
    assert(after.dom() =~= before.dom().remove(key));
    assert forall|k: K| #[trigger] after.contains_key(k) implies cloned(
        before[k],
        after[k],
    ) by {
        if to_map(new_left).contains_key(k) {
            assert(cloned(to_map(left)[k], to_map(new_left)[k]));
        }
    }
}

/// Taking a greater key out of the right part takes it out of the whole.
pub proof fn lemma_remove_right<K: Ord, V: Clone>(
    left: Seq<(K, V)>,
    mid: (K, V),
    right: Seq<(K, V)>,
    new_right: Seq<(K, V)>,
    key: K,
)
    requires
        total_order::<K>(),
        ascending(around(left, mid, right)),
        key_lt(mid.0, key),
        ascending(new_right),
        removed(to_map(right), key, to_map(new_right)),
    ensures
        ascending(around(left, mid, new_right)),
        removed(to_map(around(left, mid, right)), key, to_map(around(left, mid, new_right))),
{
    lemma_split(left, mid, right);
    lemma_map_around(left, mid, right);
    lemma_keys_above(new_right, mid.0);
    lemma_join(left, mid, new_right);
    lemma_map_around(left, mid, new_right);
    lemma_key_side(left, mid, right, key);
    lemma_trichotomy(key, mid.0);
    let before = to_map(around(left, mid, right));
    let after = to_map(around(left, mid, new_right));
    assert(after.dom() =~= before.dom().remove(key));
    assert forall|k: K| #[trigger] after.contains_key(k) implies cloned(
        before[k],
        after[k],
    ) by {
        if to_map(new_right).contains_key(k) {
            assert(cloned(to_map(right)[k], to_map(new_right)[k]));
        }
    }
}

/// Taking the middle entry out where one side is empty leaves the other
/// side.
pub proof fn lemma_remove_mid_one_side<K: Ord, V: Clone>(
    left: Seq<(K, V)>,
    mid: (K, V),
    right: Seq<(K, V)>,
)
    requires
        total_order::<K>(),
        ascending(around(left, mid, right)),
    ensures
        left.len() == 0 ==> removed(to_map(around(left, mid, right)), mid.0, to_map(right)),
        right.len() == 0 ==> removed(to_map(around(left, mid, right)), mid.0, to_map(left)),
        ascending(left),
        ascending(right),
{
    lemma_split(left, mid, right);
    lemma_map_around(left, mid, right);
    lemma_map_small(mid);
    let before = to_map(around(left, mid, right));
    if left.len() == 0 {
        assert(left =~= Seq::<(K, V)>::empty());
        assert(to_map(right).dom() =~= before.dom().remove(mid.0));
    }
    if right.len() == 0 {
        assert(right =~= Seq::<(K, V)>::empty());
        assert(to_map(left).dom() =~= before.dom().remove(mid.0));
    }
}

/// Taking the middle entry out by putting the first entry of the right part
/// (or a clone of it) in its place, and taking that entry out of the right
/// part.
pub proof fn lemma_remove_mid_successor<K: Ord, V: Clone>(
    left: Seq<(K, V)>,
    mid: (K, V),
    right: Seq<(K, V)>,
    successor: (K, V),
    new_right: Seq<(K, V)>,
)
    requires
        total_order::<K>(),
        ascending(around(left, mid, right)),
        right.len() > 0,
        successor.0 == right[0].0,
        cloned(right[0].1, successor.1),
        ascending(new_right),
        removed(to_map(right), successor.0, to_map(new_right)),
    ensures
        ascending(around(left, successor, new_right)),
        removed(to_map(around(left, mid, right)), mid.0, to_map(around(left, successor, new_right))),
{
    reveal(ascending);
    reveal(all_below);
    lemma_split(left, mid, right);
    lemma_map_around(left, mid, right);
    lemma_entry_in_map(right, 0);
    assert(key_lt(mid.0, successor.0));
    assert forall|x: K| to_map(new_right).contains_key(x) implies key_lt(successor.0, x) by {
        lemma_key_has_entry(right, x);
        let j = position_of(right, x);
        assert(j != 0);
        assert(key_lt(right[0].0, right[j].0));
    }
    lemma_keys_above(new_right, successor.0);
    assert forall|i: int| 0 <= i < left.len() implies key_lt((#[trigger] left[i]).0, successor.0) by {
        lemma_lt_transitive(left[i].0, mid.0, successor.0);
    }
    lemma_join(left, successor, new_right);
    lemma_map_around(left, successor, new_right);
    let before = to_map(around(left, mid, right));
    let after = to_map(around(left, successor, new_right));
    assert(after.dom() =~= before.dom().remove(mid.0));
    assert forall|k: K| #[trigger] after.contains_key(k) implies cloned(
        before[k],
        after[k],
    ) by {
        if to_map(new_right).contains_key(k) {
            assert(cloned(to_map(right)[k], to_map(new_right)[k]));
        }
    }
}

/// An ascending sequence starts with its smallest key.
pub proof fn lemma_first_of_around<K, V>(left: Seq<(K, V)>, mid: (K, V), right: Seq<(K, V)>)
    ensures
        around(left, mid, right).len() == left.len() + 1 + right.len(),
        left.len() > 0 ==> around(left, mid, right)[0] == left[0],
        left.len() == 0 ==> around(left, mid, right)[0] == mid,
{
}

} // verus!
