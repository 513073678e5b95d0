//! A hash map with chaining whose keys are hashed by the standard library.
//!
//! The bucket of a key is whatever the hasher says, and this library does
//! not know what it says. So each operation comes twice: once on a given
//! bucket, with an exact contract, and once with the bucket taken from the
//! hasher, with a contract that holds whichever bucket that is.

use crate::data_structures::buckets::{lemma_total_take, lemma_total_update, total};
use crate::data_structures::chains::{
    first_of, items, items_before, lemma_first_of, lemma_is_first, lemma_items_contain,
    lemma_items_push, lemma_items_set, lemma_items_take, lemma_items_walk, lemma_no_items,
};
use crate::order::{exact_eq, is_same};
use std::hash::{DefaultHasher, Hash, Hasher};
use vstd::multiset::Multiset;
use vstd::prelude::*;
use vstd::std_specs::hash::DefaultHasherAdditionalSpecFns;

verus! {

/// A hash map from keys of any kind that can be hashed to values.
pub struct MoMap<K, V> {
    bucket_item_count: u32,
    buckets: Vec<Vec<(K, V)>>,
}

/// `Hash::hash` feeds a key to a hasher. Nothing is claimed of what the
/// hasher holds afterwards.
#[verifier::external_body]
fn feed<K: Hash>(key: &K, hasher: &mut DefaultHasher) {
    key.hash(hasher)
}

/// The bucket out of `size` that the digest names which the default hasher
/// gives after it was fed `fed`: the digest, cut to a `usize`, modulo the
/// number of buckets.
pub open spec fn digest_slot(fed: Seq<Seq<u8>>, size: usize) -> int {
    (DefaultHasher::spec_finish(fed) as usize) as int % size as int
}

/// `index` is the bucket out of `size` that the digest of the default hasher
/// names, for something that the hasher was fed. What a key feeds to the
/// hasher is the key's own matter.
pub open spec fn hashed_to(index: int, size: usize) -> bool {
    exists|fed: Seq<Seq<u8>>| index == #[trigger] digest_slot(fed, size)
}

/// The first entry with `key` left bucket `index` of `before`: `after` is
/// what is left, and `value` the value that the entry had, if there was one.
pub open spec fn took_at<K, V>(
    before: Seq<Seq<(K, V)>>,
    index: int,
    key: K,
    after: Seq<Seq<(K, V)>>,
    value: Option<V>,
) -> bool {
    &&& 0 <= index < before.len()
    &&& after == taken_at(before, index, key)
    &&& value == held_at(before, index, key)
}

/// The table after `value` went in under `key` by way of bucket `index`:
/// the first entry of that bucket with `key` has the new value, or, where
/// the bucket has none, a new entry stands at its end.
pub open spec fn put_at<K, V>(table: Seq<Seq<(K, V)>>, index: int, key: K, value: V) -> Seq<
    Seq<(K, V)>,
> {
    let at = first_of(table[index], key);
    if at < table[index].len() {
        table.update(index, table[index].update(at, (table[index][at].0, value)))
    } else {
        table.update(index, table[index].push((key, value)))
    }
}

/// The value of the first entry with `key` in bucket `index`, if there is
/// one.
pub open spec fn held_at<K, V>(table: Seq<Seq<(K, V)>>, index: int, key: K) -> Option<V> {
    let at = first_of(table[index], key);
    if at < table[index].len() {
        Some(table[index][at].1)
    } else {
        None
    }
}

/// The table after the first entry with `key` left bucket `index`, the last
/// entry of the bucket taking its place.
pub open spec fn taken_at<K, V>(table: Seq<Seq<(K, V)>>, index: int, key: K) -> Seq<Seq<(K, V)>> {
    let at = first_of(table[index], key);
    if at < table[index].len() {
        table.update(index, table[index].update(at, table[index].last()).drop_last())
    } else {
        table
    }
}

impl<K, V> MoMap<K, V> where K: Clone + PartialEq + Hash, V: Clone {
    /// The buckets with their entries.
    pub closed spec fn table(self) -> Seq<Seq<(K, V)>> {
        Seq::new(self.buckets@.len(), |i: int| self.buckets@[i]@)
    }

    /// The number of entries that the map has counted.
    pub closed spec fn counted(self) -> nat {
        self.bucket_item_count as nat
    }

    /// The number of buckets.
    pub open spec fn slots(self) -> nat {
        self.table().len()
    }

    /// The entries of the map, each as often as it occurs.
    pub open spec fn items(self) -> Multiset<(K, V)> {
        items(self.table())
    }

    /// The invariant of the map: it has a bucket, and its count is the
    /// number of its entries.
    pub open spec fn well_formed(self) -> bool {
        &&& self.slots() > 0
        &&& self.counted() == total(self.table())
    }

    /// Seven tenths of the buckets, or more, hold an entry on average: the
    /// load at which the table doubles before the next insertion.
    pub open spec fn full(self) -> bool {
        10 * self.counted() >= 7 * self.slots()
    }

    /// The empty map, with 8 buckets.
    pub fn new() -> (map: Self)
        ensures
            map.well_formed(),
            map.items() == Multiset::<(K, V)>::empty(),
            map.counted() == 0,
            map.slots() == 8,
    {
        let buckets: Vec<Vec<(K, V)>> = vec![Vec::new(); 8];
        let map = MoMap { bucket_item_count: 0, buckets };
        proof {
            lemma_no_items(map.table());
            lemma_none_counted(map.table());
        }
        map
    }

    /// The number of entries.
    pub fn bucket_item_count(&self) -> (count: u32)
        ensures
            count == self.counted(),
    {
        self.bucket_item_count
    }

    /// The number of buckets.
    pub fn bucket_count(&self) -> (count: usize)
        ensures
            count == self.slots(),
    {
        self.buckets.len()
    }

    /// The number of entries in the bucket `index`.
    pub fn bucket_len(&self, index: usize) -> (len: usize)
        requires
            index < self.slots(),
        ensures
            len == self.table()[index as int].len(),
    {
        self.buckets[index].len()
    }

    /// The entries of the bucket `index`, in the order in which they are
    /// kept.
    pub fn bucket(&self, index: usize) -> (entries: &Vec<(K, V)>)
        requires
            index < self.slots(),
        ensures
            entries@ == self.table()[index as int],
    {
        &self.buckets[index]
    }

    /// Puts `value` under `key`, in the bucket that the hasher names for
    /// `key`, and returns the value that the bucket had for `key`, if it had
    /// one. A table that is full doubles first.
    pub fn insert(&mut self, key: K, value: V) -> (previous: Option<V>)
        requires
            exact_eq::<K>(),
            old(self).well_formed(),
            old(self).counted() < u32::MAX,
            old(self).slots() * 2 <= usize::MAX,
        ensures
            final(self).well_formed(),
            match previous {
                Some(p) => {
                    &&& old(self).items().contains((key, p))
                    &&& final(self).items() == old(self).items().remove((key, p)).insert(
                        (key, value),
                    )
                    &&& final(self).counted() == old(self).counted()
                },
                None => {
                    &&& final(self).items() == old(self).items().insert((key, value))
                    &&& final(self).counted() == old(self).counted() + 1
                },
            },
            final(self).slots() == if old(self).full() {
                2 * old(self).slots()
            } else {
                old(self).slots()
            },
    {
        self.resize();
        let index: usize = self.hashing_function(&key);
        let ghost table = self.table();
        proof {
            lemma_first_of(table[index as int], key);
            let at = first_of(table[index as int], key);
            if at < table[index as int].len() {
                lemma_items_set(table, index as int, at, value);
            } else {
                lemma_items_push(table, index as int, (key, value));
            }
        }
        self.insert_at(index, key, value)
    }

    /// Puts `value` under `key` in the bucket `index` and returns the value
    /// that the bucket had for `key`, if it had one.
    pub fn insert_at(&mut self, index: usize, key: K, value: V) -> (previous: Option<V>)
        requires
            exact_eq::<K>(),
            old(self).well_formed(),
            old(self).counted() < u32::MAX,
            index < old(self).slots(),
        ensures
            final(self).well_formed(),
            final(self).table() == put_at(old(self).table(), index as int, key, value),
            previous == held_at(old(self).table(), index as int, key),
            final(self).counted() == if previous is Some {
                old(self).counted()
            } else {
                old(self).counted() + 1
            },
    {
        let ghost table = self.table();
        let found = Self::position_in(&self.buckets[index], &key);
        if let Some(at) = found {
            let existing = &mut self.buckets[index][at];
            let old_value = std::mem::replace(&mut existing.1, value);
            proof {
                assert(self.table() =~~= put_at(table, index as int, key, value));
                lemma_total_update(
                    table,
                    index as int,
                    table[index as int].update(at as int, (table[index as int][at as int].0, value)),
                );
            }
            Some(old_value)
        } else {
            self.buckets[index].push((key, value));
            self.bucket_item_count += 1;
            proof {
                assert(self.table() =~~= put_at(table, index as int, key, value));
                lemma_total_update(table, index as int, table[index as int].push((key, value)));
            }
            None
        }
    }

    /// The value under `key` in the bucket that the hasher names for `key`.
    pub fn get(&self, key: &K) -> (value: Option<&V>)
        requires
            exact_eq::<K>(),
            self.well_formed(),
        ensures
            value matches Some(v) ==> self.items().contains((*key, *v)),
            value is None ==> exists|index: int|
                0 <= index < self.slots() && #[trigger] held_at(self.table(), index, *key) is None,
    {
        let index: usize = self.hashing_function(key);
        proof {
            lemma_first_of(self.table()[index as int], *key);
            let at = first_of(self.table()[index as int], *key);
            if at < self.table()[index as int].len() {
                lemma_items_contain(self.table(), index as int, at);
            }
        }
        self.get_at(index, key)
    }

    /// The value of the first entry with `key` in the bucket `index`.
    pub fn get_at(&self, index: usize, key: &K) -> (value: Option<&V>)
        requires
            exact_eq::<K>(),
            index < self.slots(),
        ensures
            match value {
                Some(v) => Some(*v),
                None => None,
            } == held_at(self.table(), index as int, *key),
    {
        match Self::position_in(&self.buckets[index], key) {
            Some(at) => Some(&self.buckets[index][at].1),
            None => None,
        }
    }

    /// Takes `key` out of the bucket that the hasher names for `key` and
    /// returns the value it had there, if the bucket held `key`. The first
    /// entry with `key` leaves the bucket, and the last entry of the bucket
    /// takes its place.
    pub fn remove(&mut self, key: &K) -> (value: Option<V>)
        requires
            exact_eq::<K>(),
            old(self).well_formed(),
        ensures
            final(self).well_formed(),
            final(self).slots() == old(self).slots(),
            exists|index: int|
                hashed_to(index, old(self).slots() as usize) && #[trigger] took_at(
                    old(self).table(),
                    index,
                    *key,
                    final(self).table(),
                    value,
                ),
            match value {
                Some(v) => {
                    &&& old(self).items().contains((*key, v))
                    &&& final(self).items() == old(self).items().remove((*key, v))
                    &&& final(self).counted() + 1 == old(self).counted()
                },
                None => {
                    &&& final(self).table() == old(self).table()
                    &&& final(self).counted() == old(self).counted()
                },
            },
    {
        let index: usize = self.hashing_function(key);
        proof {
            let table = self.table();
            lemma_first_of(table[index as int], *key);
            let at = first_of(table[index as int], *key);
            if at < table[index as int].len() {
                lemma_items_take(table, index as int, at);
            }
        }
        let value = self.remove_at(index, key);
        proof {
            assert(took_at(old(self).table(), index as int, *key, self.table(), value));
        }
        value
    }

    /// Takes the first entry with `key` out of the bucket `index` and
    /// returns its value, if the bucket held `key`.
    pub fn remove_at(&mut self, index: usize, key: &K) -> (value: Option<V>)
        requires
            exact_eq::<K>(),
            old(self).well_formed(),
            index < old(self).slots(),
        ensures
            final(self).well_formed(),
            final(self).table() == taken_at(old(self).table(), index as int, *key),
            value == held_at(old(self).table(), index as int, *key),
            final(self).counted() == if value is Some {
                old(self).counted() - 1
            } else {
                old(self).counted() as int
            },
    {
        let ghost table = self.table();

        match Self::position_in(&self.buckets[index], key) {
            Some(v) => {
                proof {
                    lemma_total_update(
                        table,
                        index as int,
                        table[index as int].update(v as int, table[index as int].last()).drop_last(),
                    );
                }
                self.bucket_item_count -= 1;
                let entry = self.buckets[index].swap_remove(v);
                proof {
                    assert(self.table() =~~= taken_at(table, index as int, *key));
                }
                Some(entry.1)
            },
            None => {
                proof {
                    assert(self.table() =~~= table);
                }
                None
            },
        }
    }

    /// The first position of `key` in the bucket, if the bucket holds `key`.
    fn position_in(bucket: &Vec<(K, V)>, key: &K) -> (found: Option<usize>)
        requires
            exact_eq::<K>(),
        ensures
            match found {
                Some(at) => at < bucket@.len() && at == first_of(bucket@, *key),
                None => first_of(bucket@, *key) == bucket@.len(),
            },
    {
        for i in 0..bucket.len()
            invariant
                exact_eq::<K>(),
                forall|j: int| 0 <= j < i ==> (#[trigger] bucket@[j]).0 != *key,
        {
            if is_same(&bucket[i].0, key) {
                proof {
                    lemma_is_first(bucket@, *key, i as int);
                }
                return Some(i);
            }
        }
        proof {
            lemma_is_first(bucket@, *key, bucket@.len() as int);
        }
        None
    }

    /// The number of a bucket out of `size` for `key`, from the hash that
    /// the standard library's default hasher computes: the digest of the
    /// hasher after the key was fed to it, cut to a `usize`, modulo `size`.
    fn hash_with_size(&self, key: &K, size: usize) -> (index: usize)
        requires
            size > 0,
        ensures
            index < size,
            hashed_to(index as int, size),
    {
        let mut hasher = DefaultHasher::new();

        feed(key, &mut hasher);
        let hash_value = #[verifier::truncate]
        (hasher.finish() as usize);
        proof {
            assert(hash_value as int % size as int == digest_slot(hasher@, size));
        }

        hash_value % size
    }

    /// The number of a bucket for `key`, as the hasher names it: the digest
    /// for `key`, modulo the number of buckets.
    fn hashing_function(&self, key: &K) -> (index: usize)
        requires
            self.slots() > 0,
        ensures
            index < self.slots(),
            hashed_to(index as int, self.slots() as usize),
    {
        self.hash_with_size(key, self.buckets.len())
    }

    /// Doubles the table when seven tenths of its buckets, or more, hold an
    /// entry on average. Every entry goes to the bucket that the hasher
    /// names for its key in the larger table.
    fn resize(&mut self)
        requires
            old(self).well_formed(),
            old(self).slots() * 2 <= usize::MAX,
        ensures
            final(self).well_formed(),
            final(self).items() == old(self).items(),
            final(self).counted() == old(self).counted(),
            final(self).slots() == if old(self).full() {
                2 * old(self).slots()
            } else {
                old(self).slots()
            },
            !old(self).full() ==> final(self).table() == old(self).table(),
    {
        let new_size = self.buckets.len() * 2;
        let ghost from = self.table();

        if self.bucket_item_count as u128 * 10 >= self.buckets.len() as u128 * 7 {
            let new_buckets: Vec<Vec<(K, V)>> = vec![Vec::new(); new_size];
            let old_buckets = std::mem::replace(&mut self.buckets, new_buckets);
            self.bucket_item_count = 0;
            proof {
                lemma_no_items(self.table());
                lemma_none_counted(self.table());
                lemma_items_walk(from, 0, 0);
                lemma_total_take(from, 0);
                assert(from.take(0) =~= Seq::<Seq<(K, V)>>::empty());
            }
            for buckets in moving: old_buckets
                invariant
                    moving.seq() == old_buckets@,
                    from =~~= Seq::new(old_buckets@.len(), |i: int| old_buckets@[i]@),
                    total(from) <= u32::MAX,
                    new_size == 2 * from.len(),
                    new_size > 0,
                    self.table().len() == new_size,
                    items(self.table()) == items_before(from, moving.index() as int, 0),
                    self.counted() == total(self.table()),
                    total(self.table()) == total(from.take(moving.index() as int)),
            {
                let ghost a = moving.index() as int;
                assert(buckets@ == from[a]);
                for (k, v) in entries: buckets
                    invariant
                        entries.seq() == buckets@,
                        buckets@ == from[a],
                        0 <= a < from.len(),
                        total(from) <= u32::MAX,
                        new_size == 2 * from.len(),
                        new_size > 0,
                        self.table().len() == new_size,
                        items(self.table()) == items_before(from, a, entries.index() as int),
                        self.counted() == total(self.table()),
                        total(self.table()) == total(from.take(a)) + entries.index(),
                {
                    let ghost b = entries.index() as int;
                    let ghost to = self.table();
                    let index: usize = self.hash_with_size(&k, new_size);
                    proof {
                        lemma_items_walk(from, a, b);
                        lemma_items_push(to, index as int, (k, v));
                        lemma_total_update(to, index as int, to[index as int].push((k, v)));
                        lemma_total_take(from, a);
                        lemma_total_take(from, a + 1);
                    }
                    self.buckets[index].push((k, v));
                    self.bucket_item_count += 1;
                    proof {
                        assert(self.table() =~~= to.update(
                            index as int,
                            to[index as int].push((k, v)),
                        ));
                    }
                }
                proof {
                    lemma_items_walk(from, a, from[a].len() as int);
                    lemma_total_take(from, a);
                }
            }
            proof {
                lemma_items_walk(from, from.len() as int, 0);
                lemma_total_take(from, from.len() as int);
            }
        }
    }
}

/// After a value went in under a key by way of a bucket, the bucket holds
/// that value for the key, and the other buckets are as they were.
pub proof fn lemma_put_then_held<K, V>(table: Seq<Seq<(K, V)>>, index: int, key: K, value: V)
    requires
        0 <= index < table.len(),
    ensures
        held_at(put_at(table, index, key, value), index, key) == Some(value),
        put_at(table, index, key, value).len() == table.len(),
        forall|other: int|
            0 <= other < table.len() && other != index ==> #[trigger] put_at(
                table,
                index,
                key,
                value,
            )[other] == table[other],
{
    let bucket = table[index];
    let at = first_of(bucket, key);
    lemma_first_of(bucket, key);
    if at < bucket.len() {
        let changed = bucket.update(at, (bucket[at].0, value));
        assert forall|j: int| 0 <= j < at implies (#[trigger] changed[j]).0 != key by {
            assert(changed[j] == bucket[j]);
        }
        lemma_is_first(changed, key, at);
    } else {
        let longer = bucket.push((key, value));
        assert forall|j: int| 0 <= j < at implies (#[trigger] longer[j]).0 != key by {
            assert(longer[j] == bucket[j]);
        }
        lemma_is_first(longer, key, at);
    }
}

/// After a key left a bucket that held it once, the bucket does not hold
/// it.
pub proof fn lemma_taken_then_held<K, V>(table: Seq<Seq<(K, V)>>, index: int, key: K)
    requires
        0 <= index < table.len(),
        forall|i: int, j: int|
            #![trigger table[index][i], table[index][j]]
            0 <= i < j < table[index].len() ==> !(table[index][i].0 == key && table[index][j].0
                == key),
    ensures
        held_at(taken_at(table, index, key), index, key) is None,
{
    let bucket = table[index];
    let at = first_of(bucket, key);
    lemma_first_of(bucket, key);
    if at < bucket.len() {
        let shorter = bucket.update(at, bucket.last()).drop_last();
        assert forall|j: int| 0 <= j < shorter.len() implies (#[trigger] shorter[j]).0 != key by {
            if j == at {
                assert(shorter[j] == bucket[bucket.len() - 1]);
                assert(!(bucket[at].0 == key && bucket[bucket.len() - 1].0 == key));
            } else {
                assert(shorter[j] == bucket[j]);
                if j > at {
                    assert(!(bucket[at].0 == key && bucket[j].0 == key));
                }
            }
        }
        lemma_is_first(shorter, key, shorter.len() as int);
    }
}

/// A table of empty buckets counts no entry.
pub proof fn lemma_none_counted<E>(table: Seq<Seq<E>>)
    requires
        forall|i: int| 0 <= i < table.len() ==> (#[trigger] table[i]).len() == 0,
    ensures
        total(table) == 0,
    decreases table.len(),
{
    if table.len() > 0 {
        lemma_none_counted(table.drop_last());
    }
}

} // verus!
