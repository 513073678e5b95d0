//! A table of buckets: the model of the hash map with string keys.
//!
//! The table is a sequence of buckets, a bucket a sequence of entries. Every
//! entry lies in the bucket that the hash of its key names, and no bucket
//! holds a key twice. So no key occurs twice in the table, and the table
//! determines a map.

use vstd::prelude::*;

verus! {

/// A bucket: entries of key and value, in the order in which they came.
pub type Bucket<V> = Seq<(Seq<char>, V)>;

/// The hash of a text: for each character in turn, 31 times the hash so far
/// plus the character's code point, in the wrapping arithmetic of `usize`.
pub open spec fn poly_hash(text: Seq<char>) -> usize
    decreases text.len(),
{
    if text.len() == 0 {
        0
    } else {
        poly_hash(text.drop_last()).wrapping_mul(31).wrapping_add(text.last() as usize)
    }
}

/// The number of the bucket for `key` in a table of `slots` buckets.
pub open spec fn slot_of(key: Seq<char>, slots: nat) -> int {
    poly_hash(key) as int % slots as int
}

/// The bucket holds an entry for `key`.
pub open spec fn holds<V>(bucket: Bucket<V>, key: Seq<char>) -> bool {
    exists|j: int| 0 <= j < bucket.len() && (#[trigger] bucket[j]).0 == key
}

/// A position of `key` in the bucket, if it holds `key`.
pub open spec fn place_of<V>(bucket: Bucket<V>, key: Seq<char>) -> int {
    choose|j: int| 0 <= j < bucket.len() && (#[trigger] bucket[j]).0 == key
}

/// No key occurs twice in the bucket.
pub open spec fn distinct_keys<V>(bucket: Bucket<V>) -> bool {
    forall|j: int, k: int|
        #![trigger bucket[j], bucket[k]]
        0 <= j < k < bucket.len() ==> bucket[j].0 != bucket[k].0
}

/// Every key of the bucket belongs into bucket number `slot` of `slots`.
pub open spec fn placed<V>(bucket: Bucket<V>, slot: int, slots: nat) -> bool {
    forall|j: int| 0 <= j < bucket.len() ==> slot_of((#[trigger] bucket[j]).0, slots) == slot
}

/// The invariant of a table: there is a bucket, every entry lies in the
/// bucket of its key, and no bucket holds a key twice.
#[verifier::opaque]
pub open spec fn table_ok<V>(table: Seq<Bucket<V>>) -> bool {
    &&& table.len() > 0
    &&& forall|i: int|
        0 <= i < table.len() ==> placed(#[trigger] table[i], i, table.len()) && distinct_keys(
            table[i],
        )
}

/// The number of entries of the table.
pub open spec fn total<E>(table: Seq<Seq<E>>) -> nat
    decreases table.len(),
{
    if table.len() == 0 {
        0
    } else {
        total(table.drop_last()) + table.last().len()
    }
}

/// The table as a map from its keys to their values.
#[verifier::opaque]
pub open spec fn table_map<V>(table: Seq<Bucket<V>>) -> Map<Seq<char>, V> {
    Map::new(
        |key: Seq<char>| holds(table[slot_of(key, table.len())], key),
        |key: Seq<char>|
            {
                let bucket = table[slot_of(key, table.len())];
                bucket[place_of(bucket, key)].1
            },
    )
}

/// The bucket for a key is one of the buckets.
pub proof fn lemma_slot_in_range(key: Seq<char>, slots: nat)
    requires
        slots > 0,
    ensures
        0 <= slot_of(key, slots) < slots,
{
}

/// Replacing one bucket changes the number of entries by the difference in
/// length.
pub proof fn lemma_total_update<E>(table: Seq<Seq<E>>, i: int, bucket: Seq<E>)
    requires
        0 <= i < table.len(),
    ensures
        total(table.update(i, bucket)) + table[i].len() == total(table) + bucket.len(),
    decreases table.len(),
{
    let after = table.update(i, bucket);
    if i == table.len() - 1 {
        assert(after.drop_last() =~= table.drop_last());
    } else {
        assert(after.drop_last() =~= table.drop_last().update(i, bucket));
        lemma_total_update(table.drop_last(), i, bucket);
    }
}

/// A table of empty buckets holds nothing.
pub proof fn lemma_all_empty<V>(table: Seq<Bucket<V>>)
    requires
        table.len() > 0,
        forall|i: int| 0 <= i < table.len() ==> (#[trigger] table[i]).len() == 0,
    ensures
        table_ok(table),
        total(table) == 0,
        table_map(table) == Map::<Seq<char>, V>::empty(),
    decreases table.len(),
{
    reveal(table_ok);
    reveal(table_map);
    if table.len() > 1 {
        lemma_all_empty(table.drop_last());
    } else {
        assert(total(table.drop_last()) == 0);
    }
    assert forall|key: Seq<char>| !table_map(table).contains_key(key) by {
        lemma_slot_in_range(key, table.len());
    }
    assert(table_map(table) =~= Map::<Seq<char>, V>::empty());
}

/// What the map says of `key`, read off the bucket of `key`.
pub proof fn lemma_lookup<V>(table: Seq<Bucket<V>>, key: Seq<char>)
    requires
        table_ok(table),
    ensures
        0 <= slot_of(key, table.len()) < table.len(),
        table_map(table).contains_key(key) <==> holds(table[slot_of(key, table.len())], key),
        forall|j: int|
            0 <= j < table[slot_of(key, table.len())].len() && (#[trigger] table[slot_of(
                key,
                table.len(),
            )][j]).0 == key ==> table_map(table)[key] == table[slot_of(key, table.len())][j].1,
{
    reveal(table_ok);
    reveal(table_map);
    lemma_slot_in_range(key, table.len());
    let bucket = table[slot_of(key, table.len())];
    assert(distinct_keys(bucket));
    assert forall|j: int| 0 <= j < bucket.len() && (#[trigger] bucket[j]).0 == key implies table_map(
        table,
    )[key] == bucket[j].1 by {
        let p = place_of(bucket, key);
        if p < j {
            assert(bucket[p].0 != bucket[j].0);
        } else if j < p {
            assert(bucket[j].0 != bucket[p].0);
        }
    }
}

/// Changing the bucket of `key` to one that holds the same other entries
/// changes the map at `key` only.
proof fn lemma_other_keys<V>(
    table: Seq<Bucket<V>>,
    after: Seq<Bucket<V>>,
    key: Seq<char>,
    other: Seq<char>,
)
    requires
        table_ok(table),
        table_ok(after),
        after.len() == table.len(),
        forall|i: int|
            0 <= i < table.len() && i != slot_of(key, table.len()) ==> #[trigger] after[i]
                == table[i],
        other != key,
        forall|j: int|
            #![trigger table[slot_of(key, table.len())][j]]
            0 <= j < table[slot_of(key, table.len())].len() && table[slot_of(key, table.len())][j].0
                != key ==> exists|k: int|
                0 <= k < after[slot_of(key, table.len())].len() && #[trigger] after[slot_of(
                    key,
                    table.len(),
                )][k] == table[slot_of(key, table.len())][j],
        forall|k: int|
            #![trigger after[slot_of(key, table.len())][k]]
            0 <= k < after[slot_of(key, table.len())].len() && after[slot_of(key, table.len())][k].0
                != key ==> exists|j: int|
                0 <= j < table[slot_of(key, table.len())].len() && #[trigger] table[slot_of(
                    key,
                    table.len(),
                )][j] == after[slot_of(key, table.len())][k],
    ensures
        table_map(after).contains_key(other) <==> table_map(table).contains_key(other),
        table_map(table).contains_key(other) ==> table_map(after)[other] == table_map(table)[other],
{
    lemma_lookup(table, other);
    lemma_lookup(after, other);
    lemma_lookup(table, key);
    let s = slot_of(key, table.len());
    let o = slot_of(other, table.len());
    if o == s {
        if holds(table[s], other) {
            let j = place_of(table[s], other);
            assert(table[s][j].0 != key);
            let k = choose|k: int| 0 <= k < after[s].len() && #[trigger] after[s][k] == table[s][j];
            assert(after[s][k].0 == other);
        }
        if holds(after[s], other) {
            let k = place_of(after[s], other);
            assert(after[s][k].0 != key);
            let j = choose|j: int| 0 <= j < table[s].len() && #[trigger] table[s][j] == after[s][k];
            assert(table[s][j].0 == other);
        }
    } else {
        assert(after[o] == table[o]);
    }
}

/// A new key goes to the end of its bucket.
pub proof fn lemma_put_new<V>(table: Seq<Bucket<V>>, key: Seq<char>, value: V)
    requires
        table_ok(table),
        !holds(table[slot_of(key, table.len())], key),
    ensures
        table_ok(
            table.update(
                slot_of(key, table.len()),
                table[slot_of(key, table.len())].push((key, value)),
            ),
        ),
        table_map(
            table.update(
                slot_of(key, table.len()),
                table[slot_of(key, table.len())].push((key, value)),
            ),
        ) == table_map(table).insert(key, value),
        !table_map(table).contains_key(key),
        total(
            table.update(
                slot_of(key, table.len()),
                table[slot_of(key, table.len())].push((key, value)),
            ),
        ) == total(table) + 1,
{
    let s = slot_of(key, table.len());
    lemma_lookup(table, key);
    let bucket = table[s].push((key, value));
    let after = table.update(s, bucket);
    lemma_total_update(table, s, bucket);
    assert(table_ok(after)) by {
        reveal(table_ok);
        assert forall|i: int| 0 <= i < after.len() implies placed(
            #[trigger] after[i],
            i,
            after.len(),
        ) && distinct_keys(after[i]) by {
            if i == s {
                assert(placed(table[s], s, table.len()) && distinct_keys(table[s]));
                assert forall|j: int, k: int|
                    #![trigger bucket[j], bucket[k]]
                    0 <= j < k < bucket.len() implies bucket[j].0 != bucket[k].0 by {
                    if k == bucket.len() - 1 {
                        assert(bucket[j] == table[s][j]);
                    } else {
                        assert(bucket[j] == table[s][j] && bucket[k] == table[s][k]);
                    }
                }
                assert forall|j: int| 0 <= j < bucket.len() implies slot_of(
                    (#[trigger] bucket[j]).0,
                    after.len(),
                ) == s by {
                    if j < bucket.len() - 1 {
                        assert(bucket[j] == table[s][j]);
                    }
                }
            } else {
                assert(after[i] == table[i]);
                assert(placed(table[i], i, table.len()) && distinct_keys(table[i]));
            }
        }
    }
    lemma_lookup(after, key);
    assert(after[s][bucket.len() - 1] == (key, value));
    assert(holds(after[s], key));
    assert(table_map(after)[key] == value);
    assert forall|other: Seq<char>| other != key implies (#[trigger] table_map(after).contains_key(
        other,
    ) <==> table_map(table).contains_key(other)) && (table_map(table).contains_key(other)
        ==> table_map(after)[other] == table_map(table)[other]) by {
        assert forall|j: int|
            #![trigger table[s][j]]
            0 <= j < table[s].len() && table[s][j].0 != key implies exists|k: int|
            0 <= k < after[s].len() && #[trigger] after[s][k] == table[s][j] by {
            assert(after[s][j] == table[s][j]);
        }
        assert forall|k: int|
            #![trigger after[s][k]]
            0 <= k < after[s].len() && after[s][k].0 != key implies exists|j: int|
            0 <= j < table[s].len() && #[trigger] table[s][j] == after[s][k] by {
            assert(table[s][k] == after[s][k]);
        }
        lemma_other_keys(table, after, key, other);
    }
    assert(table_map(after).dom() =~= table_map(table).insert(key, value).dom());
    assert(table_map(after) =~= table_map(table).insert(key, value));
}

/// A key that the table holds gets a new value where it stands.
pub proof fn lemma_put_over<V>(table: Seq<Bucket<V>>, key: Seq<char>, value: V, at: int)
    requires
        table_ok(table),
        0 <= at < table[slot_of(key, table.len())].len(),
        table[slot_of(key, table.len())][at].0 == key,
    ensures
        table_ok(
            table.update(
                slot_of(key, table.len()),
                table[slot_of(key, table.len())].update(at, (key, value)),
            ),
        ),
        table_map(
            table.update(
                slot_of(key, table.len()),
                table[slot_of(key, table.len())].update(at, (key, value)),
            ),
        ) == table_map(table).insert(key, value),
        table_map(table).contains_key(key),
        table_map(table)[key] == table[slot_of(key, table.len())][at].1,
        total(
            table.update(
                slot_of(key, table.len()),
                table[slot_of(key, table.len())].update(at, (key, value)),
            ),
        ) == total(table),
{
    let s = slot_of(key, table.len());
    lemma_lookup(table, key);
    let bucket = table[s].update(at, (key, value));
    let after = table.update(s, bucket);
    lemma_total_update(table, s, bucket);
    assert(table_ok(after)) by {
        reveal(table_ok);
        assert forall|i: int| 0 <= i < after.len() implies placed(
            #[trigger] after[i],
            i,
            after.len(),
        ) && distinct_keys(after[i]) by {
            if i == s {
                assert(placed(table[s], s, table.len()) && distinct_keys(table[s]));
                assert forall|j: int, k: int|
                    #![trigger bucket[j], bucket[k]]
                    0 <= j < k < bucket.len() implies bucket[j].0 != bucket[k].0 by {
                    assert(bucket[j].0 == table[s][j].0 && bucket[k].0 == table[s][k].0);
                }
                assert forall|j: int| 0 <= j < bucket.len() implies slot_of(
                    (#[trigger] bucket[j]).0,
                    after.len(),
                ) == s by {
                    assert(bucket[j].0 == table[s][j].0);
                }
            } else {
                assert(after[i] == table[i]);
                assert(placed(table[i], i, table.len()) && distinct_keys(table[i]));
            }
        }
    }
    lemma_lookup(after, key);
    assert(holds(table[s], key));
    assert(after[s][at] == (key, value));
    assert(holds(after[s], key));
    assert(table_map(after)[key] == value);
    assert forall|other: Seq<char>| other != key implies (#[trigger] table_map(after).contains_key(
        other,
    ) <==> table_map(table).contains_key(other)) && (table_map(table).contains_key(other)
        ==> table_map(after)[other] == table_map(table)[other]) by {
        assert forall|j: int|
            #![trigger table[s][j]]
            0 <= j < table[s].len() && table[s][j].0 != key implies exists|k: int|
            0 <= k < after[s].len() && #[trigger] after[s][k] == table[s][j] by {
            assert(after[s][j] == table[s][j]);
        }
        assert forall|k: int|
            #![trigger after[s][k]]
            0 <= k < after[s].len() && after[s][k].0 != key implies exists|j: int|
            0 <= j < table[s].len() && #[trigger] table[s][j] == after[s][k] by {
            assert(table[s][k] == after[s][k]);
        }
        lemma_other_keys(table, after, key, other);
    }
    assert(table_map(after).dom() =~= table_map(table).insert(key, value).dom());
    assert(table_map(after) =~= table_map(table).insert(key, value));
}

/// A key leaves its bucket: the last entry of the bucket takes its place.
pub proof fn lemma_take_out<V>(table: Seq<Bucket<V>>, key: Seq<char>, at: int)
    requires
        table_ok(table),
        0 <= at < table[slot_of(key, table.len())].len(),
        table[slot_of(key, table.len())][at].0 == key,
    ensures
        table_ok(
            table.update(
                slot_of(key, table.len()),
                table[slot_of(key, table.len())].update(
                    at,
                    table[slot_of(key, table.len())].last(),
                ).drop_last(),
            ),
        ),
        table_map(
            table.update(
                slot_of(key, table.len()),
                table[slot_of(key, table.len())].update(
                    at,
                    table[slot_of(key, table.len())].last(),
                ).drop_last(),
            ),
        ) == table_map(table).remove(key),
        table_map(table).contains_key(key),
        table_map(table)[key] == table[slot_of(key, table.len())][at].1,
        total(
            table.update(
                slot_of(key, table.len()),
                table[slot_of(key, table.len())].update(
                    at,
                    table[slot_of(key, table.len())].last(),
                ).drop_last(),
            ),
        ) + 1 == total(table),
{
    let s = slot_of(key, table.len());
    lemma_lookup(table, key);
    let n = table[s].len() as int;
    let bucket = table[s].update(at, table[s].last()).drop_last();
    let after = table.update(s, bucket);
    lemma_total_update(table, s, bucket);
    assert(placed(table[s], s, table.len()) && distinct_keys(table[s])) by {
        reveal(table_ok);
    }
    assert forall|k: int| 0 <= k < bucket.len() implies (#[trigger] bucket[k]) == (if k == at {
        table[s][n - 1]
    } else {
        table[s][k]
    }) by {}
    assert(table_ok(after)) by {
        reveal(table_ok);
        assert forall|i: int| 0 <= i < after.len() implies placed(
            #[trigger] after[i],
            i,
            after.len(),
        ) && distinct_keys(after[i]) by {
            if i == s {
                assert forall|j: int, k: int|
                    #![trigger bucket[j], bucket[k]]
                    0 <= j < k < bucket.len() implies bucket[j].0 != bucket[k].0 by {
                    let pj = if j == at {
                        n - 1
                    } else {
                        j
                    };
                    let pk = if k == at {
                        n - 1
                    } else {
                        k
                    };
                    assert(bucket[j] == table[s][pj] && bucket[k] == table[s][pk]);
                    if pj < pk {
                        assert(table[s][pj].0 != table[s][pk].0);
                    } else {
                        assert(table[s][pk].0 != table[s][pj].0);
                    }
                }
                assert forall|j: int| 0 <= j < bucket.len() implies slot_of(
                    (#[trigger] bucket[j]).0,
                    after.len(),
                ) == s by {
                    let pj = if j == at {
                        n - 1
                    } else {
                        j
                    };
                    assert(bucket[j] == table[s][pj]);
                }
            } else {
                assert(after[i] == table[i]);
                assert(placed(table[i], i, table.len()) && distinct_keys(table[i]));
            }
        }
    }
    lemma_lookup(after, key);
    assert(holds(table[s], key));
    assert(after[s] == bucket);
    assert(!holds(bucket, key)) by {
        if holds(bucket, key) {
            let k = place_of(bucket, key);
            let pk = if k == at {
                n - 1
            } else {
                k
            };
            assert(bucket[k] == table[s][pk]);
            if pk < at {
                assert(table[s][pk].0 != table[s][at].0);
            } else if at < pk {
                assert(table[s][at].0 != table[s][pk].0);
            }
        }
    }
    assert forall|other: Seq<char>| other != key implies (#[trigger] table_map(after).contains_key(
        other,
    ) <==> table_map(table).contains_key(other)) && (table_map(table).contains_key(other)
        ==> table_map(after)[other] == table_map(table)[other]) by {
        assert forall|j: int|
            #![trigger table[s][j]]
            0 <= j < table[s].len() && table[s][j].0 != key implies exists|k: int|
            0 <= k < after[s].len() && #[trigger] after[s][k] == table[s][j] by {
            if j == n - 1 {
                assert(after[s][at] == table[s][j]);
            } else {
                assert(after[s][j] == table[s][j]);
            }
        }
        assert forall|k: int|
            #![trigger after[s][k]]
            0 <= k < after[s].len() && after[s][k].0 != key implies exists|j: int|
            0 <= j < table[s].len() && #[trigger] table[s][j] == after[s][k] by {
            if k == at {
                assert(table[s][n - 1] == after[s][k]);
            } else {
                assert(table[s][k] == after[s][k]);
            }
        }
        lemma_other_keys(table, after, key, other);
    }
    assert(!table_map(after).contains_key(key));
    assert(table_map(after).dom() =~= table_map(table).remove(key).dom());
    assert(table_map(after) =~= table_map(table).remove(key));
}

/// While the entries of a table move to another, bucket by bucket and entry
/// by entry: `key` stands before entry `b` of bucket `a`, and has moved.
pub open spec fn moved<V>(from: Seq<Bucket<V>>, a: int, b: int, key: Seq<char>) -> bool {
    &&& table_map(from).contains_key(key)
    &&& slot_of(key, from.len()) < a || (slot_of(key, from.len()) == a && place_of(from[a], key)
        < b)
}

/// The part of the map of `from` that has moved.
pub open spec fn moved_map<V>(from: Seq<Bucket<V>>, a: int, b: int) -> Map<Seq<char>, V> {
    table_map(from).restrict(Set::new(|key: Seq<char>| moved(from, a, b, key)))
}

/// The first buckets of a table hold no more entries than the table.
pub proof fn lemma_total_take<E>(table: Seq<Seq<E>>, a: int)
    requires
        0 <= a <= table.len(),
    ensures
        total(table.take(a)) <= total(table),
        a < table.len() ==> total(table.take(a + 1)) == total(table.take(a)) + table[a].len(),
        a == table.len() ==> table.take(a) == table,
    decreases table.len() - a,
{
    if a < table.len() {
        assert(table.take(a + 1).drop_last() =~= table.take(a));
        lemma_total_take(table, a + 1);
    } else {
        assert(table.take(a) =~= table);
    }
}

/// Before the first entry moves, nothing has moved.
pub proof fn lemma_move_start<V>(from: Seq<Bucket<V>>)
    requires
        table_ok(from),
    ensures
        moved_map(from, 0, 0) == Map::<Seq<char>, V>::empty(),
        total(from.take(0)) == 0,
{
    assert forall|key: Seq<char>| !moved(from, 0, 0, key) by {
        lemma_lookup(from, key);
    }
    assert(moved_map(from, 0, 0) =~= Map::<Seq<char>, V>::empty());
}

/// Entry `b` of bucket `a` moves to the end of its bucket in `to`.
pub proof fn lemma_move_one<V>(from: Seq<Bucket<V>>, to: Seq<Bucket<V>>, a: int, b: int)
    requires
        table_ok(from),
        table_ok(to),
        0 <= a < from.len(),
        0 <= b < from[a].len(),
        table_map(to) == moved_map(from, a, b),
        total(to) == total(from.take(a)) + b,
    ensures
        0 <= slot_of(from[a][b].0, to.len()) < to.len(),
        table_ok(
            to.update(
                slot_of(from[a][b].0, to.len()),
                to[slot_of(from[a][b].0, to.len())].push(from[a][b]),
            ),
        ),
        table_map(
            to.update(
                slot_of(from[a][b].0, to.len()),
                to[slot_of(from[a][b].0, to.len())].push(from[a][b]),
            ),
        ) == moved_map(from, a, b + 1),
        total(
            to.update(
                slot_of(from[a][b].0, to.len()),
                to[slot_of(from[a][b].0, to.len())].push(from[a][b]),
            ),
        ) == total(from.take(a)) + b + 1,
        total(from.take(a)) + b + 1 <= total(from),
{
    let key = from[a][b].0;
    let value = from[a][b].1;
    lemma_lookup(from, key);
    lemma_lookup(to, key);
    lemma_total_take(from, a);
    lemma_total_take(from, a + 1);
    assert(placed(from[a], a, from.len()) && distinct_keys(from[a])) by {
        reveal(table_ok);
    }
    assert(slot_of(key, from.len()) == a);
    assert(holds(from[a], key));
    let p = place_of(from[a], key);
    assert(p == b) by {
        if p < b {
            assert(from[a][p].0 != from[a][b].0);
        } else if b < p {
            assert(from[a][b].0 != from[a][p].0);
        }
    }
    assert(!moved(from, a, b, key));
    assert(!table_map(to).contains_key(key));
    lemma_put_new(to, key, value);
    let after = to.update(slot_of(key, to.len()), to[slot_of(key, to.len())].push((key, value)));
    assert forall|other: Seq<char>| moved(from, a, b + 1, other) <==> (other == key || moved(
        from,
        a,
        b,
        other,
    )) by {
        lemma_lookup(from, other);
        if table_map(from).contains_key(other) && slot_of(other, from.len()) == a {
            let q = place_of(from[a], other);
            if q == b {
                assert(from[a][q].0 == other);
            }
            if other == key {
                assert(q == b);
            }
        }
    }
    assert(table_map(after) =~= moved_map(from, a, b + 1));
}

/// After the last entry of bucket `a`, the entries before bucket `a + 1`
/// have moved.
pub proof fn lemma_move_bucket_done<V>(from: Seq<Bucket<V>>, a: int)
    requires
        table_ok(from),
        0 <= a < from.len(),
    ensures
        moved_map(from, a, from[a].len() as int) == moved_map(from, a + 1, 0),
        total(from.take(a)) + from[a].len() == total(from.take(a + 1)),
{
    lemma_total_take(from, a);
    assert forall|key: Seq<char>| moved(from, a, from[a].len() as int, key) <==> moved(
        from,
        a + 1,
        0,
        key,
    ) by {
        lemma_lookup(from, key);
    }
    assert(moved_map(from, a, from[a].len() as int) =~= moved_map(from, a + 1, 0));
}

/// After the last bucket, everything has moved.
pub proof fn lemma_move_done<V>(from: Seq<Bucket<V>>)
    requires
        table_ok(from),
    ensures
        moved_map(from, from.len() as int, 0) == table_map(from),
        total(from.take(from.len() as int)) == total(from),
{
    lemma_total_take(from, from.len() as int);
    assert forall|key: Seq<char>| table_map(from).contains_key(key) implies moved(
        from,
        from.len() as int,
        0,
        key,
    ) by {
        lemma_lookup(from, key);
    }
    assert(moved_map(from, from.len() as int, 0) =~= table_map(from));
}

/// The keys of the entries of a bucket.
pub open spec fn keys_of<V>(bucket: Bucket<V>) -> Seq<Seq<char>> {
    bucket.map_values(|entry: (Seq<char>, V)| entry.0)
}

/// The keys of the map that belong into one of the first `a` buckets.
pub open spec fn keys_before<V>(table: Seq<Bucket<V>>, a: int) -> Set<Seq<char>> {
    Set::new(|key: Seq<char>| table_map(table).contains_key(key) && slot_of(key, table.len()) < a)
}

/// The first `a` buckets hold one entry for each key of the map that
/// belongs into one of them.
pub proof fn lemma_keys_before<V>(table: Seq<Bucket<V>>, a: int)
    requires
        table_ok(table),
        0 <= a <= table.len(),
    ensures
        keys_before(table, a).finite(),
        keys_before(table, a).len() == total(table.take(a)),
    decreases a,
{
    if a == 0 {
        assert forall|key: Seq<char>| !keys_before(table, 0).contains(key) by {
            lemma_lookup(table, key);
        }
        assert(keys_before(table, 0) =~= Set::<Seq<char>>::empty());
    } else {
        lemma_keys_before(table, a - 1);
        lemma_total_take(table, a - 1);
        let bucket = table[a - 1];
        let keys = keys_of(bucket);
        assert(placed(bucket, a - 1, table.len()) && distinct_keys(bucket)) by {
            reveal(table_ok);
        }
        assert forall|i: int, j: int| 0 <= i < keys.len() && 0 <= j < keys.len() && i != j implies keys[i]
            != keys[j] by {
            if i < j {
                assert(bucket[i].0 != bucket[j].0);
            } else {
                assert(bucket[j].0 != bucket[i].0);
            }
        }
        keys.unique_seq_to_set();
        vstd::seq_lib::seq_to_set_is_finite(keys);
        assert forall|key: Seq<char>| keys_before(table, a).contains(key) <==> keys_before(
            table,
            a - 1,
        ).contains(key) || keys.to_set().contains(key) by {
            lemma_lookup(table, key);
            if keys.contains(key) {
                let j = choose|j: int| 0 <= j < keys.len() && keys[j] == key;
                assert(bucket[j].0 == key);
                assert(slot_of(key, table.len()) == a - 1);
                assert(holds(table[slot_of(key, table.len())], key));
            }
            if table_map(table).contains_key(key) && slot_of(key, table.len()) == a - 1 {
                let j = place_of(bucket, key);
                assert(keys[j] == key);
            }
        }
        assert(keys_before(table, a) =~= keys_before(table, a - 1).union(keys.to_set()));
        assert(keys_before(table, a - 1).disjoint(keys.to_set())) by {
            assert forall|key: Seq<char>|
                !(keys_before(table, a - 1).contains(key) && keys.to_set().contains(key)) by {
                if keys.contains(key) {
                    let j = choose|j: int| 0 <= j < keys.len() && keys[j] == key;
                    assert(bucket[j].0 == key);
                }
            }
        }
        vstd::set_lib::lemma_set_disjoint_lens(keys_before(table, a - 1), keys.to_set());
    }
}

/// A table holds one entry for each key of its map.
pub proof fn lemma_one_entry_each<V>(table: Seq<Bucket<V>>)
    requires
        table_ok(table),
    ensures
        table_map(table).dom().finite(),
        table_map(table).dom().len() == total(table),
{
    lemma_lookup(table, Seq::<char>::empty());
    lemma_keys_before(table, table.len() as int);
    lemma_total_take(table, table.len() as int);
    assert forall|key: Seq<char>| table_map(table).contains_key(key) implies keys_before(
        table,
        table.len() as int,
    ).contains(key) by {
        lemma_lookup(table, key);
    }
    assert(keys_before(table, table.len() as int) =~= table_map(table).dom());
}

} // verus!
