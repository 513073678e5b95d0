//! A hash map from strings to values, with chaining: an entry goes into the
//! bucket that the hash of its key names, and the table doubles when it
//! fills up.

use crate::data_structures::buckets::{
    holds, lemma_all_empty, lemma_lookup, lemma_move_bucket_done, lemma_move_done, lemma_move_one,
    lemma_move_start, lemma_put_new, lemma_put_over, lemma_take_out, moved_map, poly_hash, slot_of,
    table_map, table_ok, total, Bucket,
};
use vstd::prelude::*;

verus! {

/// A hash map from strings to values.
pub struct MoMap<V> {
    bucket_item_count: u32,
    buckets: Vec<Vec<(String, V)>>,
}

/// A bucket as plain values: each key as its text.
pub open spec fn bucket_view<V>(bucket: Vec<(String, V)>) -> Bucket<V> {
    Seq::new(bucket@.len(), |j: int| (bucket@[j].0@, bucket@[j].1))
}

/// The buckets as plain values.
pub open spec fn buckets_view<V>(buckets: Seq<Vec<(String, V)>>) -> Seq<Bucket<V>> {
    Seq::new(buckets.len(), |i: int| bucket_view(buckets[i]))
}

impl<V: Clone> View for MoMap<V> {
    type V = Map<Seq<char>, V>;

    /// The map from the keys, as texts, to their values.
    open spec fn view(&self) -> Map<Seq<char>, V> {
        table_map(self.table())
    }
}

impl<V> MoMap<V> where V: Clone {
    /// The buckets with their entries.
    pub closed spec fn table(self) -> Seq<Bucket<V>> {
        buckets_view(self.buckets@)
    }

    /// The number of entries that the map has counted.
    pub closed spec fn counted(self) -> nat {
        self.bucket_item_count as nat
    }

    /// The number of buckets.
    pub open spec fn slots(self) -> nat {
        self.table().len()
    }

    /// The invariant of the map: every entry lies in the bucket of its key,
    /// no key occurs twice, and the count is the number of entries.
    pub open spec fn well_formed(self) -> bool {
        &&& table_ok(self.table())
        &&& self.counted() == total(self.table())
    }

    /// Seven tenths of the buckets, or more, hold an entry on average: the
    /// load at which the table doubles before the next insertion.
    pub open spec fn full(self) -> bool {
        10 * self.counted() >= 7 * self.slots()
    }

    /// The map has counted one entry for each of its keys.
    pub proof fn lemma_counted(self)
        requires
            self.well_formed(),
        ensures
            self@.dom().finite(),
            self@.dom().len() == self.counted(),
    {
        crate::data_structures::buckets::lemma_one_entry_each(self.table());
    }

    /// The empty map, with 8 buckets.
    pub fn new() -> (map: Self)
        ensures
            map.well_formed(),
            map@ == Map::<Seq<char>, V>::empty(),
            map.counted() == 0,
            map.slots() == 8,
    {
        let buckets: Vec<Vec<(String, V)>> = vec![Vec::new(); 8];
        let map = MoMap { bucket_item_count: 0, buckets };
        proof {
            lemma_all_empty(map.table());
        }
        map
    }

    /// The number of entries.
    pub fn bucket_item_count(&self) -> (count: u32)
        ensures
            count == self.counted(),
    {
        self.bucket_item_count
    }

    /// The number of buckets.
    pub fn bucket_count(&self) -> (count: usize)
        ensures
            count == self.slots(),
    {
        self.buckets.len()
    }

    /// The number of entries in the bucket `index`.
    pub fn bucket_len(&self, index: usize) -> (len: usize)
        requires
            index < self.slots(),
        ensures
            len == self.table()[index as int].len(),
    {
        self.buckets[index].len()
    }

    /// The entries of the bucket `index`, in the order in which they are
    /// kept.
    pub fn bucket(&self, index: usize) -> (entries: &Vec<(String, V)>)
        requires
            index < self.slots(),
        ensures
            bucket_view(*entries) == self.table()[index as int],
    {
        &self.buckets[index]
    }

    /// Puts `value` under `key` and returns the value that `key` had, if
    /// it had one. A table that is full doubles first.
    pub fn insert(&mut self, key: String, value: V) -> (previous: Option<V>)
        requires
            old(self).well_formed(),
            old(self).counted() < u32::MAX,
            old(self).slots() * 2 <= usize::MAX,
        ensures
            final(self).well_formed(),
            final(self)@ == old(self)@.insert(key@, value),
            previous == if old(self)@.contains_key(key@) {
                Some(old(self)@[key@])
            } else {
                None
            },
            final(self).counted() == if old(self)@.contains_key(key@) {
                old(self).counted()
            } else {
                old(self).counted() + 1
            },
            final(self).slots() == if old(self).full() {
                2 * old(self).slots()
            } else {
                old(self).slots()
            },
    {
        self.resize();
        let ghost table = self.table();
        proof {
            lemma_lookup(table, key@);
        }
        let index: usize = self.hashing_function(key.as_str());
        let found = Self::position_in(&self.buckets[index], key.as_str());
        if let Some(at) = found {
            proof {
                assert(table[index as int][at as int].0 == key@);
                lemma_put_over(table, key@, value, at as int);
            }
            let existing = &mut self.buckets[index][at];
            let old_value = std::mem::replace(&mut existing.1, value);
            proof {
                assert(self.table() =~~= table.update(
                    index as int,
                    table[index as int].update(at as int, (key@, value)),
                ));
            }
            Some(old_value)
        } else {
            proof {
                lemma_put_new(table, key@, value);
            }
            self.buckets[index].push((key, value));
            self.bucket_item_count += 1;
            proof {
                assert(self.table() =~~= table.update(
                    index as int,
                    table[index as int].push((key@, value)),
                ));
            }
            None
        }
    }

    /// The value under `key`, if the map holds `key`.
    pub fn get(&self, key: &str) -> (value: Option<&V>)
        requires
            self.well_formed(),
        ensures
            match value {
                Some(v) => self@.contains_key(key@) && *v == self@[key@],
                None => !self@.contains_key(key@),
            },
    {
        proof {
            lemma_lookup(self.table(), key@);
        }
        let index: usize = self.hashing_function(key);
        match Self::position_in(&self.buckets[index], key) {
            Some(at) => {
                assert(self.table()[index as int][at as int] == (
                    key@,
                    self.buckets@[index as int]@[at as int].1,
                ));
                Some(&self.buckets[index][at].1)
            },
            None => None,
        }
    }

    /// Takes `key` out of the map and returns the value it had, if the map
    /// held `key`.
    pub fn remove(&mut self, key: &str) -> (value: Option<V>)
        requires
            old(self).well_formed(),
        ensures
            final(self).well_formed(),
            final(self)@ == old(self)@.remove(key@),
            value == if old(self)@.contains_key(key@) {
                Some(old(self)@[key@])
            } else {
                None
            },
            final(self).counted() == if old(self)@.contains_key(key@) {
                old(self).counted() - 1
            } else {
                old(self).counted() as int
            },
            final(self).slots() == old(self).slots(),
    {
        let ghost table = self.table();
        proof {
            lemma_lookup(table, key@);
        }
        let index: usize = self.hashing_function(key);

        match Self::position_in(&self.buckets[index], key) {
            Some(v) => {
                proof {
                    assert(table[index as int][v as int].0 == key@);
                    lemma_take_out(table, key@, v as int);
                    crate::data_structures::buckets::lemma_total_update(
                        table,
                        index as int,
                        table[index as int].update(v as int, table[index as int].last()).drop_last(),
                    );
                }
                self.bucket_item_count -= 1;
                let entry = self.buckets[index].swap_remove(v);
                proof {
                    assert(self.table() =~~= table.update(
                        index as int,
                        table[index as int].update(v as int, table[index as int].last()).drop_last(),
                    ));
                }
                Some(entry.1)
            },
            None => {
                proof {
                    assert(old(self)@.remove(key@) =~= old(self)@);
                }
                None
            },
        }
    }

    /// The first position of `key` in the bucket, if the bucket holds `key`.
    fn position_in(bucket: &Vec<(String, V)>, key: &str) -> (found: Option<usize>)
        ensures
            match found {
                Some(at) => at < bucket@.len() && bucket@[at as int].0@ == key@,
                None => !holds(bucket_view(*bucket), key@),
            },
    {
        for i in 0..bucket.len()
            invariant
                forall|j: int| 0 <= j < i ==> bucket@[j].0@ != key@,
        {
            if bucket[i].0 == key {
                return Some(i);
            }
        }
        proof {
            assert forall|j: int| 0 <= j < bucket_view(*bucket).len() implies (
            #[trigger] bucket_view(*bucket)[j]).0 != key@ by {
                assert(bucket@[j].0@ != key@);
            }
        }
        None
    }

    /// The hash of `key`, reduced to the number of a bucket out of `size`.
    ///
    /// The hash multiplies by the prime 31 at every character, which a
    /// compiler can turn into a shift and a subtraction.
    fn hash_with_size(&self, key: &str, size: usize) -> (index: usize)
        requires
            size > 0,
        ensures
            index == slot_of(key@, size as nat),
    {
        let mut sum: usize = 0;
        for c in chars: key.chars()
            invariant
                chars.seq() == key@,
                sum == poly_hash(key@.take(chars.index() as int)),
        {
            proof {
                assert(key@.take(chars.index() + 1).drop_last() =~= key@.take(chars.index() as int));
            }
            sum = sum.wrapping_mul(31).wrapping_add(c as usize);
        }
        proof {
            assert(key@.take(key@.len() as int) =~= key@);
        }

        sum % size
    }

    /// The number of the bucket for `key`.
    fn hashing_function(&self, key: &str) -> (index: usize)
        requires
            self.slots() > 0,
        ensures
            index == slot_of(key@, self.slots()),
    {
        self.hash_with_size(key, self.buckets.len())
    }

    /// Doubles the table when seven tenths of its buckets, or more, hold an
    /// entry on average.
    fn resize(&mut self)
        requires
            old(self).well_formed(),
            old(self).slots() * 2 <= usize::MAX,
        ensures
            final(self).well_formed(),
            final(self)@ == old(self)@,
            final(self).counted() == old(self).counted(),
            final(self).slots() == if old(self).full() {
                2 * old(self).slots()
            } else {
                old(self).slots()
            },
    {
        let new_size = self.buckets.len() * 2;
        let ghost from = self.table();
        proof {
            lemma_lookup(from, Seq::<char>::empty());
        }

        if self.bucket_item_count as u128 * 10 >= self.buckets.len() as u128 * 7 {
            let new_buckets: Vec<Vec<(String, V)>> = vec![Vec::new(); new_size];
            let old_buckets = std::mem::replace(&mut self.buckets, new_buckets);
            self.bucket_item_count = 0;
            proof {
                lemma_all_empty(self.table());
                lemma_move_start(from);
            }
            for buckets in moving: old_buckets
                invariant
                    moving.seq() == old_buckets@,
                    buckets_view(old_buckets@) == from,
                    table_ok(from),
                    total(from) <= u32::MAX,
                    new_size == 2 * from.len(),
                    self.table().len() == new_size,
                    table_ok(self.table()),
                    table_map(self.table()) == moved_map(from, moving.index() as int, 0),
                    self.counted() == total(self.table()),
                    total(self.table()) == total(from.take(moving.index() as int)),
            {
                let ghost a = moving.index() as int;
                assert(bucket_view(buckets) == from[a]);
                for (k, v) in entries: buckets
                    invariant
                        entries.seq() == buckets@,
                        bucket_view(buckets) == from[a],
                        0 <= a < from.len(),
                        table_ok(from),
                        total(from) <= u32::MAX,
                        new_size == 2 * from.len(),
                        self.table().len() == new_size,
                        table_ok(self.table()),
                        table_map(self.table()) == moved_map(from, a, entries.index() as int),
                        self.counted() == total(self.table()),
                        total(self.table()) == total(from.take(a)) + entries.index(),
                {
                    let ghost b = entries.index() as int;
                    let ghost to = self.table();
                    proof {
                        assert(from[a][b] == (k@, v));
                        lemma_move_one(from, to, a, b);
                    }
                    let index: usize = self.hash_with_size(k.as_str(), new_size);
                    self.buckets[index].push((k, v));
                    self.bucket_item_count += 1;
                    proof {
                        assert(self.table() =~~= to.update(
                            index as int,
                            to[index as int].push(from[a][b]),
                        ));
                    }
                }
                proof {
                    lemma_move_bucket_done(from, a);
                }
            }
            proof {
                lemma_move_done(from);
            }
        }
    }
}

} // verus!
