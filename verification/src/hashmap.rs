//! A separate-chaining hash table that implements the map capability.
//!
//! The table is an array of chains. A pair lives in the chain whose index is
//! the key's digest modulo the number of chains. Inserting never overwrites:
//! pairs with the same key queue up in their chain and `get`, `set` and
//! `remove` act on the oldest of them. When three quarters of the chains are
//! occupied the table doubles and every pair moves to its new chain.

use vstd::prelude::*;
use vstd::std_specs::cmp::PartialEqSpec;
use vstd::std_specs::cmp::PartialEqSpecImpl;

use crate::chain::{
    lemma_all_empty, lemma_first_match, lemma_first_of, lemma_none_occupied,
    lemma_occupied_bounds, lemma_occupied_update, lemma_total_covers, lemma_total_update,
    lemma_value_index, lemma_value_source, lemma_values_absent, lemma_values_concat,
    lemma_values_push, lemma_values_remove, lemma_values_replace, lemma_values_single,
    lemma_used_count, lemma_values_all, lemma_values_len, moved, occupied_in, placed, total_len,
    used_in, values_under, Bucket, HashMapEntry,
};
use crate::error::EnceladusError;
use crate::map::{Key, MapAdt};

verus! {

/// The number of chains of a new table.
pub const INIT_NUM_BUCKETS: usize = 64;

/// The factor by which the number of chains grows.
pub const GROWTH_FACTOR: usize = 2;

/// The load threshold is `LOAD_THRESHOLD_NUMER / LOAD_THRESHOLD_DENOM`.
pub const LOAD_THRESHOLD_NUMER: usize = 3;

/// The load threshold is `LOAD_THRESHOLD_NUMER / LOAD_THRESHOLD_DENOM`.
pub const LOAD_THRESHOLD_DENOM: usize = 4;

/// A hash table from keys of type `K` to values of type `V`.
#[derive(Clone, Debug)]
pub struct HashMap<K, V> {
    buckets: Vec<Bucket<K, V>>,
    num_keys: usize,
    occupied: usize,
}

/// The index of the chain that a key with this digest belongs to, in a table
/// of `count` chains.
pub open spec fn slot_of(digest: u64, count: nat) -> int {
    ((digest as usize) as int) % (count as int)
}

/// Computes the index of the chain for a digest in a table of `count` chains.
fn slot_in(digest: u64, count: usize) -> (index: usize)
    requires
        count > 0,
    ensures
        index == slot_of(digest, count as nat),
        index < count,
{
    #[verifier::truncate]
    (digest as usize) % count
}

/// Whether a table with `occupied` of its `count` chains occupied has reached
/// the load threshold.
pub open spec fn load_reached(occupied: nat, count: nat) -> bool {
    LOAD_THRESHOLD_DENOM * occupied >= LOAD_THRESHOLD_NUMER * count
}

/// Whether a table with `occupied` of its `count` chains occupied grows: the
/// load threshold is reached and the larger table's length fits in `usize`.
pub open spec fn grows(occupied: nat, count: nat) -> bool {
    load_reached(occupied, count) && count * GROWTH_FACTOR <= usize::MAX
}

/// The number of chains after an insertion or a removal that leaves
/// `occupied` of `count` chains occupied.
pub open spec fn grown_count(occupied: nat, count: nat) -> nat {
    if grows(occupied, count) {
        count * (GROWTH_FACTOR as nat)
    } else {
        count
    }
}

/// For every value of `part` there is a value of `whole` that equals it in
/// the sense of `V`'s `==`.
pub open spec fn covers<V: PartialEq>(whole: Set<V>, part: Set<V>) -> bool {
    forall|value: V| #[trigger]
        part.contains(value) ==> exists|stored: V| #[trigger]
            whole.contains(stored) && stored.eq_spec(&value)
}

impl<K: Key, V: Eq + Clone> HashMap<K, V> {
    /// The invariant but for the count of occupied chains, which `update`
    /// restores.
    spec fn settled(&self) -> bool {
        &&& self.buckets@.len() > 0
        &&& placed(self.buckets@)
        &&& self.num_keys == total_len(self.buckets@)
    }

    /// The keys of the pairs in the table.
    pub closed spec fn key_set(&self) -> Set<K::V> {
        Set::new(
            |key: K::V|
                exists|i: int, j: int|
                    0 <= i < self.buckets@.len() && 0 <= j < self.buckets@[i]@.len() && (
                    #[trigger] self.buckets@[i]@[j]).0@ == key,
        )
    }

    /// The values of the pairs in the table.
    pub closed spec fn value_set(&self) -> Set<V> {
        Set::new(
            |value: V|
                exists|i: int, j: int|
                    0 <= i < self.buckets@.len() && 0 <= j < self.buckets@[i]@.len() && (
                    #[trigger] self.buckets@[i]@[j]).1 == value,
        )
    }

    /// Whether a stored value equals `value` in the sense of `V`'s `==`.
    pub open spec fn stores(&self, value: V) -> bool {
        exists|stored: V| #[trigger] self.value_set().contains(stored) && stored.eq_spec(&value)
    }

    /// The number of chains of the table.
    pub closed spec fn spec_bucket_count(&self) -> nat {
        self.buckets@.len()
    }

    /// The number of chains that hold at least one pair.
    pub closed spec fn spec_occupied(&self) -> nat {
        self.occupied as nat
    }

    /// The index of the chain that `key` belongs to.
    pub open spec fn slot_for(&self, key: K::V) -> int {
        slot_of(K::digest(key), self.spec_bucket_count())
    }

    /// The number of pairs in the chain that `key` belongs to, whatever
    /// their keys.
    pub closed spec fn slot_len(&self, key: K::V) -> nat {
        self.buckets@[slot_of(K::digest(key), self.buckets@.len())]@.len()
    }

    /// The indices of the chains that hold at least one pair.
    pub closed spec fn used_slots(&self) -> Set<int> {
        used_in(self.buckets@)
    }

    /// The number of occupied chains once a pair with the key `key` has been
    /// added.
    pub open spec fn load_after_insert(&self, key: K::V) -> nat {
        if self.slot_len(key) == 0 {
            self.spec_occupied() + 1
        } else {
            self.spec_occupied()
        }
    }

    /// The number of occupied chains once a pair with the key `key` has been
    /// taken out.
    pub open spec fn load_after_remove(&self, key: K::V) -> nat {
        if self.slot_len(key) == 1 {
            (self.spec_occupied() - 1) as nat
        } else {
            self.spec_occupied()
        }
    }
}

impl<K: Key, V: Eq + Clone> MapAdt<K, V> for HashMap<K, V> {
    /// The invariant of the table: it has at least one chain, every pair lies
    /// in the chain that its key's digest selects, and the two counters agree
    /// with the chains.
    closed spec fn wf(&self) -> bool {
        &&& self.settled()
        &&& self.occupied == occupied_in(self.buckets@)
    }

    closed spec fn chain(&self, key: K::V) -> Seq<V> {
        values_under(self.buckets@[slot_of(K::digest(key), self.buckets@.len())]@, key)
    }

    closed spec fn spec_size(&self) -> nat {
        self.num_keys as nat
    }

    proof fn lemma_size_fits(&self) {
    }

    /// Creates an empty table of `INIT_NUM_BUCKETS` chains.
    fn new() -> (map: Self)
        ensures
            map.spec_bucket_count() == INIT_NUM_BUCKETS,
            map.spec_occupied() == 0,
    {
        let buckets = Self::empty_buckets(INIT_NUM_BUCKETS);
        proof {
            lemma_all_empty(buckets@);
        }
        HashMap { buckets, num_keys: 0, occupied: 0 }
    }

    /// Looks `key` up and returns the oldest value stored under it, or `None`
    /// when the key is not stored.
    fn get(&self, key: K) -> (found: Result<Option<&V>, EnceladusError>) {
        let index = self.slot(&key);
        match self.position(index, &key) {
            Some(at) => {
                proof {
                    lemma_first_match(self.buckets@[index as int]@, at as int, key@);
                }
                Ok(Some(&self.buckets[index][at].1))
            },
            None => {
                proof {
                    lemma_values_absent(self.buckets@[index as int]@, key@);
                }
                Ok(None)
            },
        }
    }

    /// Looks `key` up and returns exclusive access to the oldest value stored
    /// under it, or `None` when the key is not stored. What the caller
    /// writes through the reference becomes the stored value.
    fn get_mut(&mut self, key: K) -> (found: Result<Option<&mut V>, EnceladusError>)
        ensures
            final(self).spec_bucket_count() == old(self).spec_bucket_count(),
            final(self).spec_occupied() == old(self).spec_occupied(),
    {
        let index = self.slot(&key);
        match self.position(index, &key) {
            Some(at) => {
                proof {
                    let before = *self;
                    assert forall|after: Self| #[trigger]
                        before.rewritten(after, index as int, at as int) implies after.wf()
                        && after.num_keys == before.num_keys && after.occupied == before.occupied
                        && after.buckets@.len() == before.buckets@.len() && forall|other: K::V|
                        #[trigger] after.chain(other) == (if other == key@ {
                            before.chain(other).update(
                                0,
                                after.buckets@[index as int]@[at as int].1,
                            )
                        } else {
                            before.chain(other)
                        }) by {
                        before.lemma_rewritten(after, index as int, at as int, key@);
                    }
                    lemma_first_match(self.buckets@[index as int]@, at as int, key@);
                }
                Ok(Some(self.value_mut(index, at)))
            },
            None => {
                proof {
                    lemma_values_absent(self.buckets@[index as int]@, key@);
                }
                Ok(None)
            },
        }
    }

    /// Overwrites the oldest value stored under `key`. Fails with
    /// `KeyNotFound`, and changes nothing, when the key is not stored.
    fn set(&mut self, key: K, value: V) -> (done: Result<(), EnceladusError>)
        ensures
            final(self).spec_bucket_count() == old(self).spec_bucket_count(),
            final(self).spec_occupied() == old(self).spec_occupied(),
    {
        let index = self.slot(&key);
        match self.position(index, &key) {
            Some(at) => {
                let ghost table = self.buckets@;
                let ghost chain = self.buckets@[index as int]@;
                self.buckets[index][at].1 = value;
                proof {
                    let entry = self.buckets@[index as int]@[at as int];
                    assert(self.buckets@[index as int]@ =~= chain.update(at as int, entry));
                    assert(self.buckets@ =~= table.update(index as int, self.buckets@[index as int]));
                    lemma_total_update(table, index as int, self.buckets@[index as int]);
                    lemma_occupied_update(table, index as int, self.buckets@[index as int]);
                    assert forall|other: K::V| true implies (if other == key@ {
                        #[trigger] self.chain(other) == old(self).chain(other).update(0, value)
                            && old(self).chain(other).len() > 0
                    } else {
                        self.chain(other) == old(self).chain(other)
                    }) by {
                        lemma_values_replace(chain, at as int, entry, key@, other);
                    }
                    assert(self.chain(key@) == old(self).chain(key@).update(0, value));
                }
                Ok(())
            },
            None => {
                proof {
                    lemma_values_absent(self.buckets@[index as int]@, key@);
                }
                Err(EnceladusError::KeyNotFound)
            },
        }
    }

    /// Stores the pair `(key, value)` behind the pairs already stored under
    /// `key`, then recomputes the load and grows the table when the load has
    /// reached the threshold.
    fn insert(&mut self, key: K, value: V) -> (done: Result<(), EnceladusError>)
        ensures
            final(self).spec_bucket_count() == grown_count(
                old(self).load_after_insert(key@),
                old(self).spec_bucket_count(),
            ),
            !grows(old(self).load_after_insert(key@), old(self).spec_bucket_count())
                ==> final(self).spec_occupied() == old(self).load_after_insert(key@),
    {
        let index = self.slot(&key);
        let ghost table = self.buckets@;
        let ghost chain = self.buckets@[index as int]@;
        let ghost entry = HashMapEntry(key, value);
        self.buckets[index].push(HashMapEntry(key, value));
        self.num_keys += 1;
        let ghost mid = *self;
        proof {
            assert(self.buckets@ =~= table.update(index as int, self.buckets@[index as int]));
            assert(self.buckets@[index as int]@ =~= chain.push(entry));
            lemma_total_update(table, index as int, self.buckets@[index as int]);
            lemma_occupied_update(table, index as int, self.buckets@[index as int]);
            assert forall|other: K::V| true implies (if other == key@ {
                #[trigger] mid.chain(other) == old(self).chain(other).push(value)
            } else {
                mid.chain(other) == old(self).chain(other)
            }) by {
                lemma_values_push(chain, entry, other);
            }
        }
        self.update();
        proof {
            assert(self.chain(key@) == mid.chain(key@));
            assert forall|other: K::V| other != key@ implies #[trigger] self.chain(other)
                == old(self).chain(other) by {
                assert(self.chain(other) == mid.chain(other));
            }
        }
        Ok(())
    }

    /// Takes out the oldest pair stored under `key`, then recomputes the load
    /// and grows the table when the load has reached the threshold. Fails
    /// with `KeyNotFound`, and changes nothing, when the key is not stored.
    fn remove(&mut self, key: K) -> (done: Result<(), EnceladusError>)
        ensures
            done is Ok ==> final(self).spec_bucket_count() == grown_count(
                old(self).load_after_remove(key@),
                old(self).spec_bucket_count(),
            ),
            done is Ok && !grows(old(self).load_after_remove(key@), old(self).spec_bucket_count())
                ==> final(self).spec_occupied() == old(self).load_after_remove(key@),
    {
        match self.take(key) {
            Ok(_) => Ok(()),
            Err(e) => Err(e),
        }
    }

    /// Returns the number of pairs in the table.
    fn size(&self) -> (count: Result<usize, EnceladusError>) {
        Ok(self.num_keys)
    }

    /// Tells whether a pair is stored under `key`.
    fn contains_key(&self, key: K) -> (found: Result<bool, EnceladusError>) {
        let index = self.slot(&key);
        let at = self.position(index, &key);
        proof {
            lemma_values_absent(self.buckets@[index as int]@, key@);
        }
        Ok(at.is_some())
    }

    /// Tells whether a stored value equals `value`.
    fn contains_value(&self, value: V) -> (found: Result<bool, EnceladusError>)
        ensures
            V::obeys_eq_spec() ==> found == Ok::<bool, EnceladusError>(self.stores(value)),
    {
        proof {
            self.lemma_sets();
            if V::obeys_eq_spec() {
                if self.stores(value) {
                    let stored = choose|stored: V| #[trigger]
                        self.value_set().contains(stored) && stored.eq_spec(&value);
                    let (key, n) = choose|key: K::V, n: int|
                        0 <= n < self.chain(key).len() && #[trigger] self.chain(key)[n] == stored;
                    assert(self.chain(key)[n].eq_spec(&value));
                }
                if exists|key: K::V, n: int|
                    0 <= n < self.chain(key).len() && (#[trigger] self.chain(key)[n]).eq_spec(
                        &value,
                    ) {
                    let (key, n) = choose|key: K::V, n: int|
                        0 <= n < self.chain(key).len() && (#[trigger] self.chain(key)[n]).eq_spec(
                            &value,
                        );
                    assert(self.value_set().contains(self.chain(key)[n]));
                }
            }
        }
        Ok(self.holds_value(&value))
    }

    /// Takes out every pair and returns the table to `INIT_NUM_BUCKETS`
    /// empty chains, the state of a new table.
    fn clear(&mut self) -> (done: Result<(), EnceladusError>)
        ensures
            final(self).spec_bucket_count() == INIT_NUM_BUCKETS,
            final(self).spec_occupied() == 0,
    {
        *self = Self::new();
        Ok(())
    }
}

impl<K: Key, V: Eq + Clone> HashMap<K, V> {
    /// Takes out the oldest pair stored under `key` and hands its value over,
    /// then recomputes the load and grows the table when the load has reached
    /// the threshold. Fails with `KeyNotFound`, and changes nothing, when the
    /// key is not stored.
    pub(crate) fn take(&mut self, key: K) -> (taken: Result<V, EnceladusError>)
        requires
            old(self).wf(),
        ensures
            final(self).wf(),
            forall|other: K::V|
                other != key@ ==> #[trigger] final(self).chain(other) == old(self).chain(other),
            match taken {
                Ok(value) => {
                    &&& old(self).chain(key@).len() > 0
                    &&& value == old(self).chain(key@)[0]
                    &&& final(self).chain(key@) == old(self).chain(key@).drop_first()
                    &&& final(self).spec_size() == old(self).spec_size() - 1
                    &&& final(self).spec_bucket_count() == grown_count(
                        old(self).load_after_remove(key@),
                        old(self).spec_bucket_count(),
                    )
                    &&& !grows(old(self).load_after_remove(key@), old(self).spec_bucket_count())
                        ==> final(self).spec_occupied() == old(self).load_after_remove(key@)
                },
                Err(e) => {
                    &&& e == EnceladusError::KeyNotFound
                    &&& old(self).chain(key@).len() == 0
                    &&& *final(self) == *old(self)
                },
            },
    {
        let index = self.slot(&key);
        match self.position(index, &key) {
            Some(at) => {
                let ghost table = self.buckets@;
                let ghost chain = self.buckets@[index as int]@;
                proof {
                    lemma_total_covers(table, index as int);
                    lemma_first_match(chain, at as int, key@);
                }
                let entry = self.buckets[index].remove(at);
                self.num_keys -= 1;
                let ghost mid = *self;
                proof {
                    assert(self.buckets@ =~= table.update(
                        index as int,
                        self.buckets@[index as int],
                    ));
                    assert(self.buckets@[index as int]@ =~= chain.remove(at as int));
                    lemma_total_update(table, index as int, self.buckets@[index as int]);
                    lemma_occupied_update(table, index as int, self.buckets@[index as int]);
                    assert forall|i: int, j: int|
                        0 <= i < self.buckets@.len() && 0 <= j < self.buckets@[i]@.len()
                        implies slot_of(
                        K::digest(#[trigger] self.buckets@[i]@[j].0@),
                        self.buckets@.len(),
                    ) == i by {
                        if i == index {
                            if j < at {
                                assert(self.buckets@[i]@[j] == table[i]@[j]);
                            } else {
                                assert(self.buckets@[i]@[j] == table[i]@[j + 1]);
                            }
                        } else {
                            assert(self.buckets@[i]@[j] == table[i]@[j]);
                        }
                    }
                    assert forall|other: K::V| true implies (if other == key@ {
                        #[trigger] mid.chain(other) == old(self).chain(other).drop_first()
                            && old(self).chain(other).len() > 0
                    } else {
                        mid.chain(other) == old(self).chain(other)
                    }) by {
                        lemma_values_remove(chain, at as int, key@, other);
                    }
                }
                self.update();
                proof {
                    assert(self.chain(key@) == mid.chain(key@));
                    assert forall|other: K::V| other != key@ implies #[trigger] self.chain(other)
                        == old(self).chain(other) by {
                        assert(self.chain(other) == mid.chain(other));
                    }
                }
                Ok(entry.1)
            },
            None => {
                proof {
                    lemma_values_absent(self.buckets@[index as int]@, key@);
                }
                Err(EnceladusError::KeyNotFound)
            },
        }
    }

    /// Returns one pair for each stored key: a handle on the key and a copy
    /// of the oldest value under it, in the order in which the chains hold
    /// them.
    pub fn items(&self) -> (pairs: Vec<(K, V)>)
        requires
            self.wf(),
        ensures
            forall|n: int|
                0 <= n < pairs@.len() ==> self.chain((#[trigger] pairs@[n]).0@).len() > 0
                    && cloned::<V>(self.chain(pairs@[n].0@)[0], pairs@[n].1),
            forall|key: K::V|
                self.chain(key).len() > 0 ==> exists|n: int|
                    0 <= n < pairs@.len() && (#[trigger] pairs@[n]).0@ == key,
            forall|m: int, n: int|
                0 <= m < n < pairs@.len() ==> (#[trigger] pairs@[m]).0@ != (#[trigger] pairs@[n]).0@,
    {
        let mut pairs: Vec<(K, V)> = Vec::new();
        let ghost mut sources: Seq<(int, int)> = Seq::empty();
        let mut i: usize = 0;
        while i < self.buckets.len()
            invariant
                self.wf(),
                i <= self.buckets@.len(),
                sources.len() == pairs@.len(),
                forall|n: int| 0 <= n < sources.len() ==> (#[trigger] sources[n]).0 < i,
                forall|n: int|
                    0 <= n < sources.len() ==> self.sourced(pairs@[n], #[trigger] sources[n]),
                forall|m: int, n: int|
                    0 <= m < n < sources.len() ==> (#[trigger] sources[m]) != (#[trigger] sources[n]),
                forall|a: int, b: int|
                    0 <= a < i && 0 <= b < self.buckets@[a]@.len() && #[trigger] self.leads(a, b)
                        ==> sources.contains((a, b)),
            decreases self.buckets@.len() - i,
        {
            let bucket = &self.buckets[i];
            let mut j: usize = 0;
            while j < bucket.len()
                invariant
                    self.wf(),
                    i < self.buckets@.len(),
                    bucket@ == self.buckets@[i as int]@,
                    j <= bucket@.len(),
                    sources.len() == pairs@.len(),
                    forall|n: int|
                        0 <= n < sources.len() ==> (#[trigger] sources[n]).0 < i || (sources[n].0
                            == i && sources[n].1 < j),
                    forall|n: int|
                        0 <= n < sources.len() ==> self.sourced(pairs@[n], #[trigger] sources[n]),
                    forall|m: int, n: int|
                        0 <= m < n < sources.len() ==> (#[trigger] sources[m]) != (
                        #[trigger] sources[n]),
                    forall|a: int, b: int|
                        (0 <= a < i && 0 <= b < self.buckets@[a]@.len() || a == i && 0 <= b < j)
                            && #[trigger] self.leads(a, b) ==> sources.contains((a, b)),
                decreases bucket@.len() - j,
            {
                let first = self.position(i, &bucket[j].0);
                let ghost shown = sources;
                match first {
                    Some(at) => {
                        if at == j {
                            let key = bucket[j].0.duplicate();
                            let value = bucket[j].1.clone();
                            pairs.push((key, value));
                            proof {
                                sources = sources.push((i as int, j as int));
                                assert(cloned::<V>(bucket@[j as int].1, value));
                                assert(self.sourced(pairs@[pairs@.len() - 1], (i as int, j as int)));
                                assert forall|a: int, b: int|
                                    (0 <= a < i && 0 <= b < self.buckets@[a]@.len() || a == i && 0
                                        <= b < j + 1) && #[trigger] self.leads(
                                        a,
                                        b,
                                    ) implies sources.contains((a, b)) by {
                                    if a == i && b == j {
                                        assert(sources[sources.len() - 1] == (a, b));
                                    } else {
                                        assert(shown.contains((a, b)));
                                        let n = choose|n: int|
                                            0 <= n < shown.len() && shown[n] == (a, b);
                                        assert(sources[n] == (a, b));
                                    }
                                }
                            }
                        }
                    },
                    None => {},
                }
                j += 1;
            }
            i += 1;
        }
        proof {
            let table = self.buckets@;
            assert forall|n: int| 0 <= n < pairs@.len() implies self.chain(
                (#[trigger] pairs@[n]).0@,
            ).len() > 0 && cloned::<V>(self.chain(pairs@[n].0@)[0], pairs@[n].1) by {
                let (a, b) = sources[n];
                assert(self.sourced(pairs@[n], sources[n]));
                lemma_first_match(table[a]@, b, pairs@[n].0@);
            }
            assert forall|key: K::V| self.chain(key).len() > 0 implies exists|n: int|
                0 <= n < pairs@.len() && (#[trigger] pairs@[n]).0@ == key by {
                let slot = slot_of(K::digest(key), table.len());
                lemma_values_absent(table[slot]@, key);
                let some = choose|b: int|
                    0 <= b < table[slot]@.len() && (#[trigger] table[slot]@[b]).0@ == key;
                let b = lemma_first_of(table[slot]@, key, some);
                assert(self.leads(slot, b));
                let n = choose|n: int| 0 <= n < sources.len() && sources[n] == (slot, b);
                assert(self.sourced(pairs@[n], sources[n]));
            }
            assert forall|m: int, n: int| 0 <= m < n < pairs@.len() implies (#[trigger] pairs@[m]).0@
                != (#[trigger] pairs@[n]).0@ by {
                assert(self.sourced(pairs@[m], sources[m]));
                assert(self.sourced(pairs@[n], sources[n]));
                assert(sources[m] != sources[n]);
            }
        }
        pairs
    }

    /// Returns the number of chains of the table.
    pub fn bucket_count(&self) -> (count: usize)
        ensures
            count == self.spec_bucket_count(),
    {
        self.buckets.len()
    }

    /// Returns the number of chains that held a pair when the load was last
    /// recomputed. The load factor of the table is this number divided by
    /// the number of chains.
    pub fn occupied_buckets(&self) -> (count: usize)
        ensures
            count == self.spec_occupied(),
    {
        self.occupied
    }
}

impl<K: Key, V: Eq + Clone> HashMap<K, V> {
    /// The stored keys are those with a value under them, and the stored
    /// values are those that stand under some key.
    pub proof fn lemma_sets(&self)
        requires
            self.wf(),
        ensures
            forall|key: K::V| #[trigger] self.key_set().contains(key) <==> self.chain(key).len() > 0,
            forall|value: V| #[trigger]
                self.value_set().contains(value) <==> exists|key: K::V, n: int|
                    0 <= n < self.chain(key).len() && #[trigger] self.chain(key)[n] == value,
    {
        let table = self.buckets@;
        assert forall|key: K::V| #[trigger]
            self.key_set().contains(key) <==> self.chain(key).len() > 0 by {
            let slot = slot_of(K::digest(key), table.len());
            lemma_values_absent(table[slot]@, key);
            if self.key_set().contains(key) {
                let (i, j) = choose|i: int, j: int|
                    0 <= i < table.len() && 0 <= j < table[i]@.len() && (#[trigger] table[i]@[j]).0@
                        == key;
                assert(i == slot);
            }
            if self.chain(key).len() > 0 {
                let j = choose|j: int|
                    0 <= j < table[slot]@.len() && (#[trigger] table[slot]@[j]).0@ == key;
                assert(table[slot]@[j].0@ == key);
            }
        }
        assert forall|value: V| #[trigger]
            self.value_set().contains(value) <==> exists|key: K::V, n: int|
                0 <= n < self.chain(key).len() && #[trigger] self.chain(key)[n] == value by {
            if self.value_set().contains(value) {
                let (i, j) = choose|i: int, j: int|
                    0 <= i < table.len() && 0 <= j < table[i]@.len() && (#[trigger] table[i]@[j]).1
                        == value;
                let key = table[i]@[j].0@;
                assert(slot_of(K::digest(key), table.len()) == i);
                let n = lemma_value_index(table[i]@, j);
                assert(0 <= n < self.chain(key).len() && self.chain(key)[n] == value);
            }
            if exists|key: K::V, n: int|
                0 <= n < self.chain(key).len() && #[trigger] self.chain(key)[n] == value {
                let (key, n) = choose|key: K::V, n: int|
                    0 <= n < self.chain(key).len() && #[trigger] self.chain(key)[n] == value;
                let slot = slot_of(K::digest(key), table.len());
                let j = lemma_value_source(table[slot]@, key, n);
                assert(table[slot]@[j].1 == value);
            }
        }
    }

    /// A table has at least one chain. No more chains are occupied than
    /// there are chains, or pairs, and none is occupied exactly when the
    /// table holds no pair.
    pub proof fn lemma_load(&self)
        requires
            self.wf(),
        ensures
            self.spec_bucket_count() > 0,
            self.spec_occupied() <= self.spec_bucket_count(),
            self.spec_occupied() <= self.spec_size(),
            self.spec_size() == 0 <==> self.spec_occupied() == 0,
            self.spec_size() == 0 <==> forall|key: K::V| #[trigger] self.chain(key).len() == 0,
    {
        let table = self.buckets@;
        lemma_occupied_bounds(table);
        if self.occupied == 0 {
            lemma_none_occupied(table);
        }
        if self.num_keys == 0 {
            assert forall|key: K::V| #[trigger] self.chain(key).len() == 0 by {
                let slot = slot_of(K::digest(key), table.len());
                assert(table[slot]@ =~= Seq::empty());
            }
        }
        if forall|key: K::V| #[trigger] self.chain(key).len() == 0 {
            assert forall|i: int| 0 <= i < table.len() implies (#[trigger] table[i])@.len()
                == 0 by {
                if table[i]@.len() > 0 {
                    let key = table[i]@[0].0@;
                    assert(slot_of(K::digest(key), table.len()) == i);
                    lemma_values_absent(table[i]@, key);
                    assert(self.chain(key).len() == 0);
                }
            }
            lemma_all_empty(table);
        }
    }

    /// What the load of the table is in terms of its pairs. A chain is
    /// occupied exactly when a stored key belongs to it, and the number of
    /// occupied chains is the number of such chains. The chain of a key is
    /// empty when no key of the chain is stored, and it holds one pair when
    /// one key of the chain is stored, with one value.
    pub proof fn lemma_slots(&self)
        requires
            self.wf(),
        ensures
            self.used_slots().finite(),
            self.spec_occupied() == self.used_slots().len(),
            forall|i: int| #[trigger]
                self.used_slots().contains(i) <==> exists|key: K::V|
                    self.slot_for(key) == i && #[trigger] self.chain(key).len() > 0,
            forall|key: K::V| #[trigger]
                self.slot_len(key) == 0 <==> !self.used_slots().contains(self.slot_for(key)),
            forall|key: K::V|
                self.chain(key).len() > 0 ==> (#[trigger] self.slot_len(key) == 1 <==> self.chain(
                    key,
                ).len() == 1 && forall|other: K::V|
                    other != key && self.slot_for(other) == self.slot_for(key)
                        ==> #[trigger] self.chain(other).len() == 0),
    {
        let table = self.buckets@;
        lemma_used_count(table);
        assert forall|i: int| #[trigger]
            self.used_slots().contains(i) <==> exists|key: K::V|
                self.slot_for(key) == i && #[trigger] self.chain(key).len() > 0 by {
            if self.used_slots().contains(i) {
                let key = table[i]@[0].0@;
                assert(self.slot_for(key) == i);
                lemma_values_absent(table[i]@, key);
                assert(self.chain(key).len() > 0);
            }
            if exists|key: K::V| self.slot_for(key) == i && #[trigger] self.chain(key).len() > 0 {
                let key = choose|key: K::V|
                    self.slot_for(key) == i && #[trigger] self.chain(key).len() > 0;
                lemma_values_len(table[i]@, key);
            }
        }
        assert forall|key: K::V| self.chain(key).len() > 0 implies (#[trigger] self.slot_len(key)
            == 1 <==> self.chain(key).len() == 1 && forall|other: K::V|
            other != key && self.slot_for(other) == self.slot_for(key) ==> #[trigger] self.chain(
                other,
            ).len() == 0) by {
            let slot = self.slot_for(key);
            let bucket = table[slot]@;
            lemma_values_len(bucket, key);
            lemma_values_absent(bucket, key);
            if bucket.len() == 1 {
                assert(bucket[0].0@ == key);
                assert forall|other: K::V|
                    other != key && self.slot_for(other) == slot implies #[trigger] self.chain(
                    other,
                ).len() == 0 by {
                    lemma_values_absent(bucket, other);
                }
            }
            if self.chain(key).len() == 1 && forall|other: K::V|
                other != key && self.slot_for(other) == slot ==> #[trigger] self.chain(other).len()
                    == 0 {
                assert forall|j: int| 0 <= j < bucket.len() implies (#[trigger] bucket[j]).0@
                    == key by {
                    let other = bucket[j].0@;
                    if other != key {
                        assert(self.slot_for(other) == slot);
                        lemma_values_absent(bucket, other);
                        assert(self.chain(other).len() == 0);
                    }
                }
                lemma_values_all(bucket, key);
            }
        }
    }

    /// What `get` finds under a key after a pair was stored under it: the
    /// value of the pair where the key had none before, and else the oldest
    /// value that the key had.
    pub proof fn lemma_insert_then_get(before: &Self, after: &Self, key: K::V, value: V)
        requires
            after.chain(key) == before.chain(key).push(value),
        ensures
            after.chain(key).len() > 0,
            before.chain(key).len() == 0 ==> after.chain(key)[0] == value,
            before.chain(key).len() > 0 ==> after.chain(key)[0] == before.chain(key)[0],
    {
    }
}

impl<K: Key, V: Eq + Clone> HashMap<K, V> {
    /// The index of the chain that `key` belongs to.
    fn slot(&self, key: &K) -> (index: usize)
        requires
            self.buckets@.len() > 0,
        ensures
            index == slot_of(K::digest(key@), self.buckets@.len()),
            index < self.buckets@.len(),
    {
        slot_in(key.hash_code(), self.buckets.len())
    }

    /// The position in chain `index` of the first pair with the key `key`.
    fn position(&self, index: usize, key: &K) -> (at: Option<usize>)
        requires
            index < self.buckets@.len(),
        ensures
            match at {
                Some(i) => {
                    &&& i < self.buckets@[index as int]@.len()
                    &&& self.buckets@[index as int]@[i as int].0@ == key@
                    &&& forall|j: int|
                        0 <= j < i ==> (#[trigger] self.buckets@[index as int]@[j]).0@ != key@
                },
                None => forall|j: int|
                    0 <= j < self.buckets@[index as int]@.len() ==> (
                    #[trigger] self.buckets@[index as int]@[j]).0@ != key@,
            },
    {
        let bucket = &self.buckets[index];
        let mut i: usize = 0;
        while i < bucket.len()
            invariant
                i <= bucket@.len(),
                bucket@ == self.buckets@[index as int]@,
                forall|j: int| 0 <= j < i ==> (#[trigger] bucket@[j]).0@ != key@,
            decreases bucket@.len() - i,
        {
            if bucket[i].0.same(key) {
                return Some(i);
            }
            i += 1;
        }
        None
    }

    /// Builds `count` empty chains.
    fn empty_buckets(count: usize) -> (buckets: Vec<Bucket<K, V>>)
        ensures
            buckets@.len() == count,
            forall|b: int| 0 <= b < buckets@.len() ==> (#[trigger] buckets@[b])@.len() == 0,
    {
        let mut buckets: Vec<Bucket<K, V>> = Vec::new();
        let mut i: usize = 0;
        while i < count
            invariant
                i <= count,
                buckets@.len() == i,
                forall|b: int| 0 <= b < buckets@.len() ==> (#[trigger] buckets@[b])@.len() == 0,
            decreases count - i,
        {
            buckets.push(Vec::new());
            i += 1;
        }
        buckets
    }

    /// Counts the occupied chains.
    fn count_occupied(&self) -> (occupied: usize)
        ensures
            occupied == occupied_in(self.buckets@),
    {
        let mut occupied: usize = 0;
        let mut i: usize = 0;
        while i < self.buckets.len()
            invariant
                i <= self.buckets@.len(),
                occupied <= i,
                occupied == occupied_in(self.buckets@.take(i as int)),
            decreases self.buckets@.len() - i,
        {
            proof {
                assert(self.buckets@.take(i + 1).drop_last() =~= self.buckets@.take(i as int));
            }
            if self.buckets[i].len() > 0 {
                occupied += 1;
            }
            i += 1;
        }
        proof {
            assert(self.buckets@.take(i as int) =~= self.buckets@);
        }
        occupied
    }

    /// Recomputes the load of the table and grows the table when the load has
    /// reached the threshold.
    fn update(&mut self)
        requires
            old(self).settled(),
        ensures
            final(self).wf(),
            final(self).num_keys == old(self).num_keys,
            forall|key: K::V| #[trigger] final(self).chain(key) == old(self).chain(key),
            final(self).buckets@.len() == if grows(
                occupied_in(old(self).buckets@),
                old(self).buckets@.len(),
            ) {
                old(self).buckets@.len() * GROWTH_FACTOR
            } else {
                old(self).buckets@.len() as int
            },
            !grows(occupied_in(old(self).buckets@), old(self).buckets@.len())
                ==> final(self).buckets@ == old(self).buckets@,
    {
        let occupied = self.count_occupied();
        self.occupied = occupied;
        let count = self.buckets.len();
        if (occupied as u128) * (LOAD_THRESHOLD_DENOM as u128) >= (count as u128) * (
        LOAD_THRESHOLD_NUMER as u128) && count <= usize::MAX / GROWTH_FACTOR {
            self.rehash();
        }
    }

    /// Multiplies the number of chains by `GROWTH_FACTOR` and moves every
    /// pair to the chain that it belongs to in the larger table. Pairs with
    /// the same key keep their order.
    fn rehash(&mut self)
        requires
            old(self).settled(),
            old(self).buckets@.len() * GROWTH_FACTOR <= usize::MAX,
        ensures
            final(self).wf(),
            final(self).num_keys == old(self).num_keys,
            final(self).buckets@.len() == old(self).buckets@.len() * GROWTH_FACTOR,
            forall|key: K::V| #[trigger] final(self).chain(key) == old(self).chain(key),
    {
        let ghost orig = self.buckets@;
        let new_count: usize = self.buckets.len() * GROWTH_FACTOR;
        let mut fresh: Vec<Bucket<K, V>> = Self::empty_buckets(new_count);
        let mut rest: Vec<Bucket<K, V>> = Vec::new();
        std::mem::swap(&mut rest, &mut self.buckets);
        proof {
            lemma_all_empty(fresh@);
            assert(rest@.take(rest@.len() as int) =~= rest@);
            assert forall|key: K::V| #[trigger]
                moved(orig, fresh@, rest@.len() - 1, Seq::empty(), key) by {
                let to = slot_of(K::digest(key), fresh@.len());
                assert(fresh@[to]@ =~= Seq::empty());
            }
        }
        while rest.len() > 0
            invariant
                orig.len() > 0,
                placed(orig),
                rest@ == orig.take(rest@.len() as int),
                rest@.len() <= orig.len(),
                fresh@.len() == new_count,
                new_count > 0,
                placed(fresh@),
                total_len(fresh@) + total_len(rest@) == total_len(orig),
                forall|key: K::V| #[trigger]
                    moved(orig, fresh@, rest@.len() - 1, Seq::empty(), key),
            decreases rest@.len(),
        {
            let ghost before = rest@;
            let bucket = rest.pop().unwrap();
            let ghost at = rest@.len() as int;
            let ghost whole = bucket@;
            proof {
                assert(bucket == orig[at]);
                assert(rest@ =~= orig.take(at));
                assert(before.drop_last() =~= rest@);
                assert(whole.take(0) =~= Seq::empty());
            }
            for entry in iter: bucket
                invariant
                    iter.seq() == whole,
                    whole == orig[at]@,
                    0 <= at < orig.len(),
                    placed(orig),
                    fresh@.len() == new_count,
                    new_count > 0,
                    placed(fresh@),
                    total_len(fresh@) + total_len(rest@) + whole.len() == total_len(orig)
                        + iter.index(),
                    forall|key: K::V| #[trigger]
                        moved(orig, fresh@, at, whole.take(iter.index()), key),
            {
                let ghost shown = fresh@;
                let ghost done = iter.index();
                let ghost part = whole.take(done);
                let ghost next = whole.take(done + 1);
                let index = slot_in(entry.0.hash_code(), fresh.len());
                proof {
                    assert(entry == whole[done]);
                    assert(next =~= part + seq![entry]);
                }
                fresh[index].push(entry);
                proof {
                    lemma_total_update(shown, index as int, fresh@[index as int]);
                    assert(fresh@ =~= shown.update(index as int, fresh@[index as int]));
                    assert(fresh@[index as int]@ =~= shown[index as int]@ + seq![entry]);
                    assert forall|key: K::V| #[trigger] moved(orig, fresh@, at, next, key) by {
                        assert(moved(orig, shown, at, part, key));
                        lemma_values_concat(part, seq![entry], key);
                        lemma_values_single(entry, key);
                        let to = slot_of(K::digest(key), fresh@.len());
                        if to == index {
                            lemma_values_concat(shown[index as int]@, seq![entry], key);
                        }
                        if entry.0@ == key {
                            assert(slot_of(K::digest(key), orig.len()) == at);
                        } else {
                            assert(values_under(part, key) + Seq::<V>::empty() =~= values_under(
                                part,
                                key,
                            ));
                            assert(values_under(shown[index as int]@, key) + Seq::<V>::empty()
                                =~= values_under(shown[index as int]@, key));
                        }
                    }
                }
            }
            proof {
                assert(whole.take(whole.len() as int) =~= whole);
                assert forall|key: K::V| #[trigger]
                    moved(orig, fresh@, rest@.len() - 1, Seq::empty(), key) by {
                    assert(moved(orig, fresh@, at, whole, key));
                }
            }
        }
        self.buckets = fresh;
        self.occupied = self.count_occupied();
        proof {
            assert(rest@ =~= Seq::empty());
            assert forall|key: K::V| #[trigger] self.chain(key) == old(self).chain(key) by {
                assert(moved(orig, self.buckets@, -1, Seq::empty(), key));
            }
        }
    }

    /// `after` is `self` with another value in the pair at position `at` of
    /// chain `index`.
    spec fn rewritten(self, after: Self, index: int, at: int) -> bool {
        &&& after.num_keys == self.num_keys
        &&& after.occupied == self.occupied
        &&& after.buckets@ == self.buckets@.update(index, after.buckets@[index])
        &&& after.buckets@[index]@ == self.buckets@[index]@.update(at, after.buckets@[index]@[at])
        &&& after.buckets@[index]@[at].0 == self.buckets@[index]@[at].0
    }

    proof fn lemma_rewritten(self, after: Self, index: int, at: int, key: K::V)
        requires
            self.wf(),
            self.rewritten(after, index, at),
            index == slot_of(K::digest(key), self.buckets@.len()),
            0 <= at < self.buckets@[index]@.len(),
            self.buckets@[index]@[at].0@ == key,
            forall|j: int| 0 <= j < at ==> (#[trigger] self.buckets@[index]@[j]).0@ != key,
        ensures
            after.wf(),
            after.buckets@.len() == self.buckets@.len(),
            forall|other: K::V| #[trigger]
                after.chain(other) == (if other == key {
                    self.chain(other).update(0, after.buckets@[index]@[at].1)
                } else {
                    self.chain(other)
                }),
    {
        let table = self.buckets@;
        let chain = table[index]@;
        let entry = after.buckets@[index]@[at];
        lemma_total_update(table, index, after.buckets@[index]);
        lemma_occupied_update(table, index, after.buckets@[index]);
        assert forall|other: K::V| #[trigger]
            after.chain(other) == (if other == key {
                self.chain(other).update(0, entry.1)
            } else {
                self.chain(other)
            }) by {
            lemma_values_replace(chain, at, entry, key, other);
        }
    }

    /// Exclusive access to the value of the pair at position `at` of chain
    /// `index`.
    fn value_mut(&mut self, index: usize, at: usize) -> (value: &mut V)
        requires
            index < old(self).buckets@.len(),
            at < old(self).buckets@[index as int]@.len(),
        ensures
            *value == old(self).buckets@[index as int]@[at as int].1,
            *final(value) == final(self).buckets@[index as int]@[at as int].1,
            old(self).rewritten(*final(self), index as int, at as int),
    {
        &mut self.buckets[index][at].1
    }

    /// The pair at position `b` of chain `a` is the first of its chain with
    /// its key.
    spec fn leads(&self, a: int, b: int) -> bool {
        forall|j: int| 0 <= j < b ==> (#[trigger] self.buckets@[a]@[j]).0@ != self.buckets@[a]@[b].0@
    }

    /// `pair` was copied from the pair at `source`, which is the first of its
    /// chain with its key.
    spec fn sourced(&self, pair: (K, V), source: (int, int)) -> bool {
        &&& 0 <= source.0 < self.buckets@.len()
        &&& 0 <= source.1 < self.buckets@[source.0]@.len()
        &&& self.leads(source.0, source.1)
        &&& self.buckets@[source.0]@[source.1].0@ == pair.0@
        &&& slot_of(K::digest(pair.0@), self.buckets@.len()) == source.0
        &&& cloned::<V>(self.buckets@[source.0]@[source.1].1, pair.1)
    }

    /// Scans every chain for a value that equals `value`.
    fn holds_value(&self, value: &V) -> (found: bool)
        ensures
            V::obeys_eq_spec() ==> found == self.stores(*value),
    {
        let mut i: usize = 0;
        while i < self.buckets.len()
            invariant
                i <= self.buckets@.len(),
                V::obeys_eq_spec() ==> forall|a: int, b: int|
                    0 <= a < i && 0 <= b < self.buckets@[a]@.len() ==> !(
                    #[trigger] self.buckets@[a]@[b]).1.eq_spec(value),
            decreases self.buckets@.len() - i,
        {
            let bucket = &self.buckets[i];
            let mut j: usize = 0;
            while j < bucket.len()
                invariant
                    i < self.buckets@.len(),
                    bucket@ == self.buckets@[i as int]@,
                    j <= bucket@.len(),
                    V::obeys_eq_spec() ==> forall|b: int|
                        0 <= b < j ==> !(#[trigger] bucket@[b]).1.eq_spec(value),
                decreases bucket@.len() - j,
            {
                if bucket[j].1 == *value {
                    proof {
                        if V::obeys_eq_spec() {
                            let stored = self.buckets@[i as int]@[j as int].1;
                            assert(self.value_set().contains(stored));
                            assert(stored.eq_spec(value));
                        }
                    }
                    return true;
                }
                j += 1;
            }
            i += 1;
        }
        proof {
            if V::obeys_eq_spec() && self.stores(*value) {
                let stored = choose|stored: V| #[trigger]
                    self.value_set().contains(stored) && stored.eq_spec(value);
                let (a, b) = choose|a: int, b: int|
                    0 <= a < self.buckets@.len() && 0 <= b < self.buckets@[a]@.len() && (
                    #[trigger] self.buckets@[a]@[b]).1 == stored;
                assert(!self.buckets@[a]@[b].1.eq_spec(value));
            }
        }
        false
    }

    /// Scans every chain for a pair with the key `key`.
    fn holds_key(&self, key: &K) -> (found: bool)
        ensures
            found == self.key_set().contains(key@),
    {
        let mut i: usize = 0;
        while i < self.buckets.len()
            invariant
                i <= self.buckets@.len(),
                forall|a: int, b: int|
                    0 <= a < i && 0 <= b < self.buckets@[a]@.len() ==> (
                    #[trigger] self.buckets@[a]@[b]).0@ != key@,
            decreases self.buckets@.len() - i,
        {
            match self.position(i, key) {
                Some(at) => {
                    proof {
                        assert(self.buckets@[i as int]@[at as int].0@ == key@);
                    }
                    return true;
                },
                None => {},
            }
            i += 1;
        }
        false
    }

    /// Whether every key of `self` is a key of `other`.
    fn keys_within(&self, other: &Self) -> (within: bool)
        ensures
            within == self.key_set().subset_of(other.key_set()),
    {
        let mut i: usize = 0;
        while i < self.buckets.len()
            invariant
                i <= self.buckets@.len(),
                forall|a: int, b: int|
                    0 <= a < i && 0 <= b < self.buckets@[a]@.len() ==> other.key_set().contains(
                        (#[trigger] self.buckets@[a]@[b]).0@,
                    ),
            decreases self.buckets@.len() - i,
        {
            let bucket = &self.buckets[i];
            let mut j: usize = 0;
            while j < bucket.len()
                invariant
                    i < self.buckets@.len(),
                    bucket@ == self.buckets@[i as int]@,
                    j <= bucket@.len(),
                    forall|b: int|
                        0 <= b < j ==> other.key_set().contains((#[trigger] bucket@[b]).0@),
                decreases bucket@.len() - j,
            {
                if !other.holds_key(&bucket[j].0) {
                    proof {
                        assert(self.key_set().contains(self.buckets@[i as int]@[j as int].0@));
                    }
                    return false;
                }
                j += 1;
            }
            i += 1;
        }
        true
    }

    /// Whether every value of `self` equals a value of `other`.
    fn values_within(&self, other: &Self) -> (within: bool)
        ensures
            V::obeys_eq_spec() ==> within == covers(other.value_set(), self.value_set()),
    {
        let mut i: usize = 0;
        while i < self.buckets.len()
            invariant
                i <= self.buckets@.len(),
                V::obeys_eq_spec() ==> forall|a: int, b: int|
                    0 <= a < i && 0 <= b < self.buckets@[a]@.len() ==> other.stores(
                        (#[trigger] self.buckets@[a]@[b]).1,
                    ),
            decreases self.buckets@.len() - i,
        {
            let bucket = &self.buckets[i];
            let mut j: usize = 0;
            while j < bucket.len()
                invariant
                    i < self.buckets@.len(),
                    bucket@ == self.buckets@[i as int]@,
                    j <= bucket@.len(),
                    V::obeys_eq_spec() ==> forall|b: int|
                        0 <= b < j ==> other.stores((#[trigger] bucket@[b]).1),
                decreases bucket@.len() - j,
            {
                if !other.holds_value(&bucket[j].1) {
                    proof {
                        assert(self.value_set().contains(self.buckets@[i as int]@[j as int].1));
                    }
                    return false;
                }
                j += 1;
            }
            i += 1;
        }
        proof {
            if V::obeys_eq_spec() {
                assert forall|value: V| #[trigger] self.value_set().contains(value) implies exists|
                    stored: V,
                | #[trigger] other.value_set().contains(stored) && stored.eq_spec(&value) by {
                    let (a, b) = choose|a: int, b: int|
                        0 <= a < self.buckets@.len() && 0 <= b < self.buckets@[a]@.len() && (
                        #[trigger] self.buckets@[a]@[b]).1 == value;
                    assert(other.stores(self.buckets@[a]@[b].1));
                }
            }
        }
        true
    }
}

impl<K: Key, V: Eq + Clone> PartialEq for HashMap<K, V> {
    /// Two tables are equal when they hold the same keys and the same
    /// values, whatever value stands under which key and however many times
    /// a key or a value occurs.
    fn eq(&self, other: &Self) -> (equal: bool) {
        let same_keys = self.keys_within(other) && other.keys_within(self);
        proof {
            assert(same_keys == (self.key_set() =~= other.key_set()));
        }
        same_keys && self.values_within(other) && other.values_within(self)
    }
}

impl<K: Key, V: Eq + Clone> PartialEqSpecImpl for HashMap<K, V> {
    open spec fn obeys_eq_spec() -> bool {
        V::obeys_eq_spec()
    }

    open spec fn eq_spec(&self, other: &Self) -> bool {
        &&& self.key_set() =~= other.key_set()
        &&& covers(other.value_set(), self.value_set())
        &&& covers(self.value_set(), other.value_set())
    }
}

impl<K: Key, V: Eq + Clone> Eq for HashMap<K, V> {

}

} // verus!
