//! The chains of the hash table: what a chain holds under a key, and how
//! that changes when pairs enter, leave or move.

use vstd::prelude::*;

use crate::hashmap::slot_of;
use crate::map::Key;

verus! {

/// A pair of the table: a key and the value stored under it.
#[derive(Clone, Debug)]
pub(crate) struct HashMapEntry<K, V>(pub(crate) K, pub(crate) V);

/// A chain: the pairs whose keys select the same index, oldest first.
pub(crate) type Bucket<K, V> = Vec<HashMapEntry<K, V>>;

/// The values that `chain` holds under `key`, oldest first.
pub(crate) open spec fn values_under<K: Key, V>(chain: Seq<HashMapEntry<K, V>>, key: K::V) -> Seq<V>
    decreases chain.len(),
{
    if chain.len() == 0 {
        Seq::empty()
    } else {
        let earlier = values_under(chain.drop_last(), key);
        if chain.last().0@ == key {
            earlier.push(chain.last().1)
        } else {
            earlier
        }
    }
}

/// The number of pairs in all chains of `table`.
pub(crate) open spec fn total_len<K, V>(table: Seq<Bucket<K, V>>) -> nat
    decreases table.len(),
{
    if table.len() == 0 {
        0
    } else {
        total_len(table.drop_last()) + table.last()@.len()
    }
}

/// The number of chains of `table` that hold at least one pair.
pub(crate) open spec fn occupied_in<K, V>(table: Seq<Bucket<K, V>>) -> nat
    decreases table.len(),
{
    if table.len() == 0 {
        0
    } else {
        occupied_in(table.drop_last()) + if table.last()@.len() > 0 {
            1nat
        } else {
            0nat
        }
    }
}

/// Every pair of `table` lies in the chain that its key's digest selects.
pub(crate) open spec fn placed<K: Key, V>(table: Seq<Bucket<K, V>>) -> bool {
    forall|i: int, j: int|
        0 <= i < table.len() && 0 <= j < table[i]@.len() ==> slot_of(
            K::digest(#[trigger] table[i]@[j].0@),
            table.len(),
        ) == i
}

pub(crate) proof fn lemma_values_concat<K: Key, V>(
    a: Seq<HashMapEntry<K, V>>,
    b: Seq<HashMapEntry<K, V>>,
    key: K::V,
)
    ensures
        values_under(a + b, key) == values_under(a, key) + values_under(b, key),
    decreases b.len(),
{
    if b.len() == 0 {
        assert(a + b =~= a);
        assert(values_under(a, key) + values_under(b, key) =~= values_under(a, key));
    } else {
        lemma_values_concat(a, b.drop_last(), key);
        assert((a + b).drop_last() =~= a + b.drop_last());
        assert((a + b).last() == b.last());
        let earlier = values_under(a, key) + values_under(b.drop_last(), key);
        if b.last().0@ == key {
            assert(earlier.push(b.last().1) =~= values_under(a, key) + values_under(
                b.drop_last(),
                key,
            ).push(b.last().1));
        }
    }
}

pub(crate) proof fn lemma_values_single<K: Key, V>(entry: HashMapEntry<K, V>, key: K::V)
    ensures
        values_under(seq![entry], key) == if entry.0@ == key {
            seq![entry.1]
        } else {
            Seq::<V>::empty()
        },
{
    let one = seq![entry];
    assert(one.drop_last() =~= Seq::<HashMapEntry<K, V>>::empty());
    assert(values_under(one.drop_last(), key) =~= Seq::<V>::empty());
    assert(Seq::<V>::empty().push(entry.1) =~= seq![entry.1]);
}

/// A chain holds a value under `key` exactly when one of its pairs has that
/// key.
pub(crate) proof fn lemma_values_absent<K: Key, V>(chain: Seq<HashMapEntry<K, V>>, key: K::V)
    ensures
        (forall|j: int| 0 <= j < chain.len() ==> (#[trigger] chain[j]).0@ != key) <==> values_under(
            chain,
            key,
        ).len() == 0,
    decreases chain.len(),
{
    if chain.len() > 0 {
        lemma_values_absent(chain.drop_last(), key);
        if forall|j: int| 0 <= j < chain.len() ==> (#[trigger] chain[j]).0@ != key {
            assert forall|j: int| 0 <= j < chain.drop_last().len() implies (
            #[trigger] chain.drop_last()[j]).0@ != key by {
                assert(chain.drop_last()[j] == chain[j]);
            }
        }
        if values_under(chain, key).len() == 0 {
            assert(chain.last().0@ != key);
            assert forall|j: int| 0 <= j < chain.len() implies (#[trigger] chain[j]).0@ != key by {
                if j < chain.len() - 1 {
                    assert(chain.drop_last()[j] == chain[j]);
                }
            }
        }
    }
}

/// The oldest value under a key is that of the first pair with the key.
pub(crate) proof fn lemma_first_match<K: Key, V>(chain: Seq<HashMapEntry<K, V>>, at: int, key: K::V)
    requires
        0 <= at < chain.len(),
        chain[at].0@ == key,
        forall|j: int| 0 <= j < at ==> (#[trigger] chain[j]).0@ != key,
    ensures
        values_under(chain.take(at), key) == Seq::<V>::empty(),
        values_under(chain, key) == seq![chain[at].1] + values_under(chain.skip(at + 1), key),
        values_under(chain, key).len() > 0,
        values_under(chain, key)[0] == chain[at].1,
{
    lemma_values_split(chain, at, key);
    lemma_values_single(chain[at], key);
    lemma_values_absent(chain.take(at), key);
    assert(values_under(chain.take(at), key) =~= Seq::<V>::empty());
    assert(Seq::<V>::empty() + seq![chain[at].1] =~= seq![chain[at].1]);
}

/// Splits the values under every key around the pair at `at`.
pub(crate) proof fn lemma_values_split<K: Key, V>(chain: Seq<HashMapEntry<K, V>>, at: int, key: K::V)
    requires
        0 <= at < chain.len(),
    ensures
        values_under(chain, key) == values_under(chain.take(at), key) + values_under(
            seq![chain[at]],
            key,
        ) + values_under(chain.skip(at + 1), key),
        values_under(chain.remove(at), key) == values_under(chain.take(at), key) + values_under(
            chain.skip(at + 1),
            key,
        ),
{
    let head = chain.take(at);
    let tail = chain.skip(at + 1);
    assert(chain =~= head + seq![chain[at]] + tail);
    assert(chain.remove(at) =~= head + tail);
    lemma_values_concat(head, seq![chain[at]], key);
    lemma_values_concat(head + seq![chain[at]], tail, key);
    lemma_values_concat(head, tail, key);
}

pub(crate) proof fn lemma_total_update<K, V>(table: Seq<Bucket<K, V>>, at: int, bucket: Bucket<K, V>)
    requires
        0 <= at < table.len(),
    ensures
        total_len(table.update(at, bucket)) + table[at]@.len() == total_len(table)
            + bucket@.len(),
    decreases table.len(),
{
    let changed = table.update(at, bucket);
    if at == table.len() - 1 {
        assert(changed.drop_last() =~= table.drop_last());
    } else {
        lemma_total_update(table.drop_last(), at, bucket);
        assert(changed.drop_last() =~= table.drop_last().update(at, bucket));
    }
}

pub(crate) proof fn lemma_occupied_update<K, V>(table: Seq<Bucket<K, V>>, at: int, bucket: Bucket<K, V>)
    requires
        0 <= at < table.len(),
    ensures
        occupied_in(table.update(at, bucket)) + (if table[at]@.len() > 0 {
            1nat
        } else {
            0nat
        }) == occupied_in(table) + (if bucket@.len() > 0 {
            1nat
        } else {
            0nat
        }),
    decreases table.len(),
{
    let changed = table.update(at, bucket);
    if at == table.len() - 1 {
        assert(changed.drop_last() =~= table.drop_last());
    } else {
        lemma_occupied_update(table.drop_last(), at, bucket);
        assert(changed.drop_last() =~= table.drop_last().update(at, bucket));
    }
}

/// What the chains of `fresh` hold under `key` while the pairs of `orig` move
/// over, chain by chain from the last one down: the chains above `at` have
/// moved, of chain `at` the pairs in `part` have moved, and the chains below
/// have not.
pub(crate) open spec fn moved<K: Key, V>(
    orig: Seq<Bucket<K, V>>,
    fresh: Seq<Bucket<K, V>>,
    at: int,
    part: Seq<HashMapEntry<K, V>>,
    key: K::V,
) -> bool {
    let from = slot_of(K::digest(key), orig.len());
    let to = slot_of(K::digest(key), fresh.len());
    values_under(fresh[to]@, key) == if from > at {
        values_under(orig[from]@, key)
    } else if from == at {
        values_under(part, key)
    } else {
        Seq::<V>::empty()
    }
}

pub(crate) proof fn lemma_total_covers<K, V>(table: Seq<Bucket<K, V>>, at: int)
    requires
        0 <= at < table.len(),
    ensures
        table[at]@.len() <= total_len(table),
    decreases table.len(),
{
    if at < table.len() - 1 {
        lemma_total_covers(table.drop_last(), at);
    }
}

/// Putting a pair at the end of a chain appends its value to the values
/// under its key and leaves those under the other keys.
pub(crate) proof fn lemma_values_push<K: Key, V>(
    chain: Seq<HashMapEntry<K, V>>,
    entry: HashMapEntry<K, V>,
    key: K::V,
)
    ensures
        values_under(chain.push(entry), key) == if entry.0@ == key {
            values_under(chain, key).push(entry.1)
        } else {
            values_under(chain, key)
        },
{
    assert(chain.push(entry).drop_last() =~= chain);
}

/// Taking out the first pair with the key `key` drops the oldest value under
/// that key and leaves the values under the other keys.
pub(crate) proof fn lemma_values_remove<K: Key, V>(
    chain: Seq<HashMapEntry<K, V>>,
    at: int,
    key: K::V,
    other: K::V,
)
    requires
        0 <= at < chain.len(),
        chain[at].0@ == key,
        forall|j: int| 0 <= j < at ==> (#[trigger] chain[j]).0@ != key,
    ensures
        values_under(chain, key).len() > 0,
        values_under(chain.remove(at), key) == values_under(chain, key).drop_first(),
        other != key ==> values_under(chain.remove(at), other) == values_under(chain, other),
{
    lemma_first_match(chain, at, key);
    lemma_values_split(chain, at, key);
    assert(Seq::<V>::empty() + values_under(chain.skip(at + 1), key) =~= values_under(
        chain.skip(at + 1),
        key,
    ));
    assert((seq![chain[at].1] + values_under(chain.skip(at + 1), key)).drop_first()
        =~= values_under(chain.skip(at + 1), key));
    if other != key {
        lemma_values_split(chain, at, other);
        lemma_values_single(chain[at], other);
        assert(values_under(chain.take(at), other) + Seq::<V>::empty() =~= values_under(
            chain.take(at),
            other,
        ));
    }
}

/// Replacing the value of the first pair with the key `key` replaces the
/// oldest value under that key and leaves the values under the other keys.
pub(crate) proof fn lemma_values_replace<K: Key, V>(
    chain: Seq<HashMapEntry<K, V>>,
    at: int,
    entry: HashMapEntry<K, V>,
    key: K::V,
    other: K::V,
)
    requires
        0 <= at < chain.len(),
        chain[at].0@ == key,
        entry.0@ == key,
        forall|j: int| 0 <= j < at ==> (#[trigger] chain[j]).0@ != key,
    ensures
        values_under(chain, key).len() > 0,
        values_under(chain.update(at, entry), key) == values_under(chain, key).update(0, entry.1),
        other != key ==> values_under(chain.update(at, entry), other) == values_under(
            chain,
            other,
        ),
{
    let changed = chain.update(at, entry);
    assert(changed.take(at) =~= chain.take(at));
    assert(changed.skip(at + 1) =~= chain.skip(at + 1));
    lemma_first_match(chain, at, key);
    lemma_first_match(changed, at, key);
    assert((seq![chain[at].1] + values_under(chain.skip(at + 1), key)).update(0, entry.1)
        =~= seq![entry.1] + values_under(chain.skip(at + 1), key));
    if other != key {
        lemma_values_split(chain, at, other);
        lemma_values_split(changed, at, other);
        lemma_values_single(chain[at], other);
        lemma_values_single(entry, other);
    }
}

/// The position of the first pair with the key `key` in a chain that has a
/// pair with it at `some`.
pub(crate) proof fn lemma_first_of<K: Key, V>(chain: Seq<HashMapEntry<K, V>>, key: K::V, some: int) -> (at:
    int)
    requires
        0 <= some < chain.len(),
        chain[some].0@ == key,
    ensures
        0 <= at <= some,
        chain[at].0@ == key,
        forall|j: int| 0 <= j < at ==> (#[trigger] chain[j]).0@ != key,
    decreases some,
{
    if exists|j: int| 0 <= j < some && (#[trigger] chain[j]).0@ == key {
        let j = choose|j: int| 0 <= j < some && (#[trigger] chain[j]).0@ == key;
        lemma_first_of(chain, key, j)
    } else {
        some
    }
}

/// The value of every pair of a chain is among the values under its key.
pub(crate) proof fn lemma_value_index<K: Key, V>(chain: Seq<HashMapEntry<K, V>>, at: int) -> (i: int)
    requires
        0 <= at < chain.len(),
    ensures
        0 <= i < values_under(chain, chain[at].0@).len(),
        values_under(chain, chain[at].0@)[i] == chain[at].1,
    decreases chain.len(),
{
    let key = chain[at].0@;
    if at == chain.len() - 1 {
        values_under(chain.drop_last(), key).len() as int
    } else {
        assert(chain.drop_last()[at] == chain[at]);
        lemma_value_index(chain.drop_last(), at)
    }
}

/// Every value under a key is the value of a pair with that key.
pub(crate) proof fn lemma_value_source<K: Key, V>(chain: Seq<HashMapEntry<K, V>>, key: K::V, i: int) -> (at:
    int)
    requires
        0 <= i < values_under(chain, key).len(),
    ensures
        0 <= at < chain.len(),
        chain[at].0@ == key,
        chain[at].1 == values_under(chain, key)[i],
    decreases chain.len(),
{
    if chain.last().0@ == key && i == values_under(chain.drop_last(), key).len() {
        chain.len() - 1
    } else {
        let at = lemma_value_source(chain.drop_last(), key, i);
        assert(chain.drop_last()[at] == chain[at]);
        at
    }
}

pub(crate) proof fn lemma_all_empty<K, V>(table: Seq<Bucket<K, V>>)
    requires
        forall|i: int| 0 <= i < table.len() ==> (#[trigger] table[i])@.len() == 0,
    ensures
        total_len(table) == 0,
        occupied_in(table) == 0,
    decreases table.len(),
{
    if table.len() > 0 {
        assert forall|i: int| 0 <= i < table.drop_last().len() implies (
        #[trigger] table.drop_last()[i])@.len() == 0 by {
            assert(table.drop_last()[i] == table[i]);
        }
        lemma_all_empty(table.drop_last());
    }
}

/// Where no chain is occupied, every chain is empty.
pub(crate) proof fn lemma_none_occupied<K, V>(table: Seq<Bucket<K, V>>)
    requires
        occupied_in(table) == 0,
    ensures
        total_len(table) == 0,
    decreases table.len(),
{
    if table.len() > 0 {
        lemma_none_occupied(table.drop_last());
    }
}

/// No more chains are occupied than there are chains, or pairs.
pub(crate) proof fn lemma_occupied_bounds<K, V>(table: Seq<Bucket<K, V>>)
    ensures
        occupied_in(table) <= table.len(),
        occupied_in(table) <= total_len(table),
        total_len(table) == 0 ==> forall|i: int|
            0 <= i < table.len() ==> (#[trigger] table[i])@.len() == 0,
    decreases table.len(),
{
    if table.len() > 0 {
        lemma_occupied_bounds(table.drop_last());
        if total_len(table) == 0 {
            assert forall|i: int| 0 <= i < table.len() implies (#[trigger] table[i])@.len()
                == 0 by {
                if i < table.len() - 1 {
                    assert(table.drop_last()[i] == table[i]);
                }
            }
        }
    }
}

/// The indices of the chains of `table` that hold at least one pair.
pub(crate) open spec fn used_in<K, V>(table: Seq<Bucket<K, V>>) -> Set<int> {
    Set::new(|i: int| 0 <= i < table.len() && table[i]@.len() > 0)
}

/// There are as many occupied chains as indices of occupied chains.
pub(crate) proof fn lemma_used_count<K, V>(table: Seq<Bucket<K, V>>)
    ensures
        used_in(table).finite(),
        used_in(table).len() == occupied_in(table),
    decreases table.len(),
{
    if table.len() == 0 {
        assert(used_in(table) =~= Set::<int>::empty());
    } else {
        let rest = table.drop_last();
        let last = table.len() - 1;
        lemma_used_count(rest);
        if table.last()@.len() > 0 {
            assert(used_in(table) =~= used_in(rest).insert(last));
        } else {
            assert(used_in(table) =~= used_in(rest));
        }
    }
}

/// A chain whose pairs all have the key `key` holds as many values under
/// the key as it has pairs.
pub(crate) proof fn lemma_values_all<K: Key, V>(chain: Seq<HashMapEntry<K, V>>, key: K::V)
    requires
        forall|j: int| 0 <= j < chain.len() ==> (#[trigger] chain[j]).0@ == key,
    ensures
        values_under(chain, key).len() == chain.len(),
    decreases chain.len(),
{
    if chain.len() > 0 {
        assert forall|j: int| 0 <= j < chain.drop_last().len() implies (
        #[trigger] chain.drop_last()[j]).0@ == key by {
            assert(chain.drop_last()[j] == chain[j]);
        }
        lemma_values_all(chain.drop_last(), key);
        assert(chain[chain.len() - 1].0@ == key);
    }
}

/// A chain holds no more values under a key than it has pairs.
pub(crate) proof fn lemma_values_len<K: Key, V>(chain: Seq<HashMapEntry<K, V>>, key: K::V)
    ensures
        values_under(chain, key).len() <= chain.len(),
    decreases chain.len(),
{
    if chain.len() > 0 {
        lemma_values_len(chain.drop_last(), key);
    }
}

} // verus!
