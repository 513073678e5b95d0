//! Buckets of entries as a collection: the model of the hash map whose keys
//! are hashed by the standard library.
//!
//! Which bucket a key goes to is decided outside this library. What the
//! library knows of a table is what its buckets hold, all together.

use vstd::multiset::Multiset;
use vstd::prelude::*;

verus! {

/// The entries of all buckets, each as often as it occurs.
pub open spec fn items<K, V>(table: Seq<Seq<(K, V)>>) -> Multiset<(K, V)>
    decreases table.len(),
{
    if table.len() == 0 {
        Multiset::empty()
    } else {
        items(table.drop_last()).add(table.last().to_multiset())
    }
}

/// The first position of `key` in the bucket, or the length of the bucket
/// where it does not hold `key`.
pub open spec fn first_of<K, V>(bucket: Seq<(K, V)>, key: K) -> int
    decreases bucket.len(),
{
    if bucket.len() == 0 {
        0
    } else if bucket[0].0 == key {
        0
    } else {
        1 + first_of(bucket.drop_first(), key)
    }
}

/// `first_of` is the first position of the key, and no more than the length.
pub proof fn lemma_first_of<K, V>(bucket: Seq<(K, V)>, key: K)
    ensures
        0 <= first_of(bucket, key) <= bucket.len(),
        first_of(bucket, key) < bucket.len() ==> bucket[first_of(bucket, key)].0 == key,
        forall|j: int| 0 <= j < first_of(bucket, key) ==> (#[trigger] bucket[j]).0 != key,
    decreases bucket.len(),
{
    if bucket.len() > 0 && bucket[0].0 != key {
        let rest = bucket.drop_first();
        lemma_first_of(rest, key);
        assert forall|j: int| 0 <= j < first_of(bucket, key) implies (#[trigger] bucket[j]).0
            != key by {
            if j > 0 {
                assert(rest[j - 1] == bucket[j]);
            }
        }
    }
}

/// A position before which the bucket does not hold the key, and at which
/// it does or which is the length, is `first_of`.
pub proof fn lemma_is_first<K, V>(bucket: Seq<(K, V)>, key: K, at: int)
    requires
        0 <= at <= bucket.len(),
        forall|j: int| 0 <= j < at ==> (#[trigger] bucket[j]).0 != key,
        at < bucket.len() ==> bucket[at].0 == key,
    ensures
        first_of(bucket, key) == at,
{
    lemma_first_of(bucket, key);
    let f = first_of(bucket, key);
    if f < at {
        assert(bucket[f].0 != key);
    }
}

/// What is left after taking the same things away from equal collections
/// is equal.
proof fn lemma_cancel<A>(x: Multiset<A>, y: Multiset<A>, common: Multiset<A>)
    requires
        x.add(common) =~= y.add(common),
    ensures
        x == y,
{
    broadcast use vstd::multiset::group_multiset_axioms;

    assert forall|a: A| x.count(a) == y.count(a) by {
        assert(x.add(common).count(a) == y.add(common).count(a));
    }
    assert(x =~= y);
}

/// Replacing one bucket replaces what it held.
pub proof fn lemma_items_update<K, V>(table: Seq<Seq<(K, V)>>, i: int, bucket: Seq<(K, V)>)
    requires
        0 <= i < table.len(),
    ensures
        items(table.update(i, bucket)).add(table[i].to_multiset()) == items(table).add(
            bucket.to_multiset(),
        ),
    decreases table.len(),
{
    broadcast use vstd::multiset::group_multiset_axioms;

    let after = table.update(i, bucket);
    assert(items(after) == items(after.drop_last()).add(after.last().to_multiset()));
    assert(items(table) == items(table.drop_last()).add(table.last().to_multiset()));
    if i == table.len() - 1 {
        assert(after.drop_last() =~= table.drop_last());
        assert(after.last() == bucket);
    } else {
        assert(after.drop_last() =~= table.drop_last().update(i, bucket));
        assert(after.last() == table.last());
        assert(table.drop_last()[i] == table[i]);
        lemma_items_update(table.drop_last(), i, bucket);
    }
    assert forall|e: (K, V)|
        items(after).add(table[i].to_multiset()).count(e) == items(table).add(
            bucket.to_multiset(),
        ).count(e) by {
        let was = table[i].to_multiset();
        let is = bucket.to_multiset();
        let rest = items(table.drop_last());
        if i == table.len() - 1 {
            assert(items(after).count(e) == rest.count(e) + is.count(e));
            assert(items(table).count(e) == rest.count(e) + was.count(e));
        } else {
            let changed = items(table.drop_last().update(i, bucket));
            let tail = table.last().to_multiset();
            assert(changed.add(was).count(e) == rest.add(is).count(e));
            assert(items(after).count(e) == changed.count(e) + tail.count(e));
            assert(items(table).count(e) == rest.count(e) + tail.count(e));
        }
    }
    assert(items(after).add(table[i].to_multiset()) =~= items(table).add(bucket.to_multiset()));
}

/// A table of empty buckets holds nothing.
pub proof fn lemma_no_items<K, V>(table: Seq<Seq<(K, V)>>)
    requires
        forall|i: int| 0 <= i < table.len() ==> (#[trigger] table[i]).len() == 0,
    ensures
        items(table) == Multiset::<(K, V)>::empty(),
    decreases table.len(),
{
    broadcast use vstd::multiset::group_multiset_axioms;

    if table.len() > 0 {
        lemma_no_items(table.drop_last());
        crate::slices::lemma_nothing_held(table.last());
        assert(items(table) =~= Multiset::<(K, V)>::empty());
    }
}

/// An entry goes to the end of bucket `i`.
pub proof fn lemma_items_push<K, V>(table: Seq<Seq<(K, V)>>, i: int, entry: (K, V))
    requires
        0 <= i < table.len(),
    ensures
        items(table.update(i, table[i].push(entry))) == items(table).insert(entry),
{
    broadcast use vstd::multiset::group_multiset_axioms;

    let after = table.update(i, table[i].push(entry));
    lemma_items_update(table, i, table[i].push(entry));
    vstd::seq_lib::to_multiset_build(table[i], entry);
    lemma_cancel(items(after), items(table).insert(entry), table[i].to_multiset());
}

/// Every entry of a bucket is among the items of the table.
pub proof fn lemma_items_contain<K, V>(table: Seq<Seq<(K, V)>>, i: int, j: int)
    requires
        0 <= i < table.len(),
        0 <= j < table[i].len(),
    ensures
        items(table).contains(table[i][j]),
    decreases table.len(),
{
    broadcast use vstd::multiset::group_multiset_axioms;

    if i == table.len() - 1 {
        vstd::seq_lib::to_multiset_contains(table[i], table[i][j]);
        assert(table[i].contains(table[i][j]));
    } else {
        assert(table.drop_last()[i] == table[i]);
        lemma_items_contain(table.drop_last(), i, j);
    }
}

/// The entry at `j` of bucket `i` gets the value `value`.
pub proof fn lemma_items_set<K, V>(table: Seq<Seq<(K, V)>>, i: int, j: int, value: V)
    requires
        0 <= i < table.len(),
        0 <= j < table[i].len(),
    ensures
        items(table).contains(table[i][j]),
        items(table.update(i, table[i].update(j, (table[i][j].0, value)))) == items(table).remove(
            table[i][j],
        ).insert((table[i][j].0, value)),
{
    broadcast use vstd::multiset::group_multiset_axioms;

    let entry = (table[i][j].0, value);
    lemma_items_contain(table, i, j);
    lemma_items_update(table, i, table[i].update(j, entry));
    vstd::seq_lib::to_multiset_update(table[i], j, entry);
    vstd::seq_lib::to_multiset_contains(table[i], table[i][j]);
    assert(table[i].contains(table[i][j]));
    lemma_cancel(
        items(table.update(i, table[i].update(j, entry))),
        items(table).remove(table[i][j]).insert(entry),
        table[i].to_multiset(),
    );
}

/// The entry at `j` leaves bucket `i`: the last entry of the bucket takes
/// its place.
pub proof fn lemma_items_take<K, V>(table: Seq<Seq<(K, V)>>, i: int, j: int)
    requires
        0 <= i < table.len(),
        0 <= j < table[i].len(),
    ensures
        items(table).contains(table[i][j]),
        items(table.update(i, table[i].update(j, table[i].last()).drop_last())) == items(
            table,
        ).remove(table[i][j]),
{
    broadcast use vstd::multiset::group_multiset_axioms;

    let s = table[i];
    let shorter = s.update(j, s.last()).drop_last();
    let n = s.len() as int;
    lemma_items_contain(table, i, j);
    lemma_items_update(table, i, shorter);
    vstd::seq_lib::to_multiset_contains(s, s[j]);
    assert(s.contains(s[j]));
    if j == n - 1 {
        assert(shorter =~= s.drop_last());
        assert(s =~= s.drop_last().push(s[j]));
        vstd::seq_lib::to_multiset_build(s.drop_last(), s[j]);
        assert(shorter.to_multiset() =~= s.to_multiset().remove(s[j]));
    } else {
        assert(shorter =~= s.drop_last().update(j, s.last()));
        assert(s =~= s.drop_last().push(s.last()));
        vstd::seq_lib::to_multiset_build(s.drop_last(), s.last());
        vstd::seq_lib::to_multiset_update(s.drop_last(), j, s.last());
        vstd::seq_lib::to_multiset_contains(s.drop_last(), s[j]);
        assert(s.drop_last()[j] == s[j]);
        assert(s.drop_last().contains(s[j]));
        assert(shorter.to_multiset() =~= s.to_multiset().remove(s[j]));
    }
    lemma_cancel(items(table.update(i, shorter)), items(table).remove(s[j]), s.to_multiset());
}

/// The items of the first `a` buckets and of the first `b` entries of
/// bucket `a`.
pub open spec fn items_before<K, V>(table: Seq<Seq<(K, V)>>, a: int, b: int) -> Multiset<(K, V)> {
    if a < table.len() {
        items(table.take(a)).add(table[a].take(b).to_multiset())
    } else {
        items(table.take(a))
    }
}

/// Walking through the buckets entry by entry collects the items.
pub proof fn lemma_items_walk<K, V>(table: Seq<Seq<(K, V)>>, a: int, b: int)
    requires
        0 <= a <= table.len(),
        a < table.len() ==> 0 <= b <= table[a].len(),
    ensures
        a == 0 && b == 0 ==> items_before(table, a, b) == Multiset::<(K, V)>::empty(),
        a < table.len() && b < table[a].len() ==> items_before(table, a, b + 1) == items_before(
            table,
            a,
            b,
        ).insert(table[a][b]),
        a < table.len() && b == table[a].len() ==> items_before(table, a + 1, 0) == items_before(
            table,
            a,
            b,
        ),
        a == table.len() ==> items_before(table, a, b) == items(table),
{
    broadcast use vstd::multiset::group_multiset_axioms;

    if a < table.len() {
        if b < table[a].len() {
            assert(table[a].take(b + 1) =~= table[a].take(b).push(table[a][b]));
            vstd::seq_lib::to_multiset_build(table[a].take(b), table[a][b]);
            assert(items_before(table, a, b + 1) =~= items_before(table, a, b).insert(table[a][b]));
        } else {
            assert(table[a].take(b) =~= table[a]);
            assert(table.take(a + 1).drop_last() =~= table.take(a));
            if a + 1 < table.len() {
                crate::slices::lemma_nothing_held(table[a + 1].take(0));
            }
            assert(items_before(table, a + 1, 0) =~= items_before(table, a, b));
        }
        if a == 0 && b == 0 {
            crate::slices::lemma_nothing_held(table[a].take(0));
            assert(table.take(0) =~= Seq::<Seq<(K, V)>>::empty());
            assert(items_before(table, a, b) =~= Multiset::<(K, V)>::empty());
        }
    } else {
        assert(table.take(a) =~= table);
        if a == 0 {
            assert(items_before(table, a, b) =~= Multiset::<(K, V)>::empty());
        }
    }
}

} // verus!
