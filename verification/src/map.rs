//! The map capability: a store of key-value pairs, and the keys it accepts.

use std::collections::hash_map::DefaultHasher;
use std::hash::{Hash, Hasher};
use vstd::prelude::*;
use vstd::std_specs::cmp::PartialEqSpec;
use vstd::std_specs::hash::DefaultHasherAdditionalSpecFns;

use crate::error::EnceladusError;

verus! {

/// What hashing a `usize` writes into a hasher: the sequence of byte strings
/// handed to the hasher's `write`.
pub uninterp spec fn usize_hash_input(key: usize) -> Seq<Seq<u8>>;

/// What hashing a string writes into a hasher: the sequence of byte strings
/// handed to the hasher's `write`.
pub uninterp spec fn string_hash_input(key: Seq<char>) -> Seq<Seq<u8>>;

/// Feeds `key` to `state` through `<usize as Hash>::hash`.
///
/// Trusted: the writes that the call appends to the hasher's state depend on
/// the value of `key` alone.
#[verifier::external_body]
fn feed_usize(key: usize, state: &mut DefaultHasher)
    ensures
        final(state)@ == old(state)@ + usize_hash_input(key),
{
    key.hash(state)
}

/// Feeds `key` to `state` through `<String as Hash>::hash`.
///
/// Trusted: the writes that the call appends to the hasher's state depend on
/// the characters of `key` alone.
#[verifier::external_body]
fn feed_string(key: &String, state: &mut DefaultHasher)
    ensures
        final(state)@ == old(state)@ + string_hash_input(key@),
{
    key.hash(state)
}

/// A type whose values can serve as keys of a [`MapAdt`].
///
/// Two keys are the same key exactly when their views are equal; the digest,
/// the comparison and the copy all go by the view.
pub trait Key: View + Sized + Clone + Eq + Hash {
    /// The 64-bit digest of the key with view `key`.
    spec fn digest(key: Self::V) -> u64;

    /// Computes the digest of the key with the standard library's default
    /// hasher.
    fn hash_code(&self) -> (h: u64)
        ensures
            h == Self::digest(self@),
    ;

    /// Tells whether `self` and `other` are the same key.
    fn same(&self, other: &Self) -> (r: bool)
        ensures
            r == (self@ == other@),
    ;

    /// Makes another handle on the same key.
    fn duplicate(&self) -> (copy: Self)
        ensures
            copy@ == self@,
    ;
}

impl Key for usize {
    open spec fn digest(key: usize) -> u64 {
        DefaultHasher::spec_finish(usize_hash_input(key))
    }

    fn hash_code(&self) -> (h: u64) {
        let mut hasher = DefaultHasher::new();
        feed_usize(*self, &mut hasher);
        assert(hasher@ =~= usize_hash_input(*self));
        hasher.finish()
    }

    fn same(&self, other: &Self) -> (r: bool) {
        *self == *other
    }

    fn duplicate(&self) -> (copy: Self) {
        *self
    }
}

impl Key for String {
    open spec fn digest(key: Seq<char>) -> u64 {
        DefaultHasher::spec_finish(string_hash_input(key))
    }

    fn hash_code(&self) -> (h: u64) {
        let mut hasher = DefaultHasher::new();
        feed_string(self, &mut hasher);
        assert(hasher@ =~= string_hash_input(self@));
        hasher.finish()
    }

    fn same(&self, other: &Self) -> (r: bool) {
        *self == *other
    }

    fn duplicate(&self) -> (copy: Self) {
        self.clone()
    }
}

/// For every element of `part` there is an element of `whole` that equals it
/// in the sense of `T`'s `==`.
pub open spec fn covers_all<T: PartialEq>(whole: Seq<T>, part: Seq<T>) -> bool {
    forall|i: int| 0 <= i < part.len() ==> holds_equal(whole, #[trigger] part[i])
}

/// An element of `whole` equals `value` in the sense of `T`'s `==`.
pub open spec fn holds_equal<T: PartialEq>(whole: Seq<T>, value: T) -> bool {
    exists|j: int| 0 <= j < whole.len() && #[trigger] whole[j].eq_spec(&value)
}

/// A store of key-value pairs.
///
/// A map may hold several pairs with the same key. They queue up under the
/// key in the order of their insertion: `get`, `get_mut`, `set` and `remove`
/// act on the oldest of them.
pub trait MapAdt<K: Key, V: Eq + Clone>: Sized + Eq + Clone {
    /// The invariant that every operation needs and keeps.
    spec fn wf(&self) -> bool;

    /// The values stored under `key`, oldest first. It is empty when the key
    /// is not stored.
    spec fn chain(&self, key: K::V) -> Seq<V>;

    /// The number of pairs in the map.
    spec fn spec_size(&self) -> nat;

    /// The number of pairs of a map fits in `usize`.
    proof fn lemma_size_fits(&self)
        requires
            self.wf(),
        ensures
            self.spec_size() <= usize::MAX,
    ;

    /// Creates an empty map.
    fn new() -> (map: Self)
        ensures
            map.wf(),
            map.spec_size() == 0,
            forall|key: K::V| #[trigger] map.chain(key) == Seq::<V>::empty(),
    ;

    /// Looks `key` up and returns the oldest value stored under it, or `None`
    /// when the key is not stored.
    fn get(&self, key: K) -> (found: Result<Option<&V>, EnceladusError>)
        requires
            self.wf(),
        ensures
            found == Ok::<Option<&V>, EnceladusError>(
                if self.chain(key@).len() > 0 {
                    Some(&self.chain(key@)[0])
                } else {
                    None
                },
            ),
    ;

    /// Looks `key` up and returns exclusive access to the oldest value stored
    /// under it, or `None` when the key is not stored. What the caller
    /// writes through the reference becomes the stored value.
    fn get_mut(&mut self, key: K) -> (found: Result<Option<&mut V>, EnceladusError>)
        requires
            old(self).wf(),
        ensures
            final(self).wf(),
            final(self).spec_size() == old(self).spec_size(),
            forall|other: K::V|
                other != key@ ==> #[trigger] final(self).chain(other) == old(self).chain(other),
            match found {
                Ok(Some(value)) => {
                    &&& old(self).chain(key@).len() > 0
                    &&& *value == old(self).chain(key@)[0]
                    &&& final(self).chain(key@) == old(self).chain(key@).update(0, *final(value))
                },
                Ok(None) => {
                    &&& old(self).chain(key@).len() == 0
                    &&& *final(self) == *old(self)
                },
                Err(_) => false,
            },
    ;

    /// Overwrites the oldest value stored under `key`. Fails with
    /// `KeyNotFound`, and changes nothing, when the key is not stored.
    fn set(&mut self, key: K, value: V) -> (done: Result<(), EnceladusError>)
        requires
            old(self).wf(),
        ensures
            final(self).wf(),
            final(self).spec_size() == old(self).spec_size(),
            forall|other: K::V|
                other != key@ ==> #[trigger] final(self).chain(other) == old(self).chain(other),
            match done {
                Ok(()) => {
                    &&& old(self).chain(key@).len() > 0
                    &&& final(self).chain(key@) == old(self).chain(key@).update(0, value)
                },
                Err(e) => {
                    &&& e == EnceladusError::KeyNotFound
                    &&& old(self).chain(key@).len() == 0
                    &&& *final(self) == *old(self)
                },
            },
    ;

    /// Stores the pair `(key, value)` behind the pairs already stored under
    /// `key`. The number of pairs has to stay within `usize`.
    fn insert(&mut self, key: K, value: V) -> (done: Result<(), EnceladusError>)
        requires
            old(self).wf(),
            old(self).spec_size() < usize::MAX,
        ensures
            done == Ok::<(), EnceladusError>(()),
            final(self).wf(),
            final(self).spec_size() == old(self).spec_size() + 1,
            final(self).chain(key@) == old(self).chain(key@).push(value),
            forall|other: K::V|
                other != key@ ==> #[trigger] final(self).chain(other) == old(self).chain(other),
    ;

    /// Takes out the oldest pair stored under `key`. Fails with
    /// `KeyNotFound`, and changes nothing, when the key is not stored.
    fn remove(&mut self, key: K) -> (done: Result<(), EnceladusError>)
        requires
            old(self).wf(),
        ensures
            final(self).wf(),
            forall|other: K::V|
                other != key@ ==> #[trigger] final(self).chain(other) == old(self).chain(other),
            match done {
                Ok(()) => {
                    &&& old(self).chain(key@).len() > 0
                    &&& final(self).chain(key@) == old(self).chain(key@).drop_first()
                    &&& final(self).spec_size() == old(self).spec_size() - 1
                },
                Err(e) => {
                    &&& e == EnceladusError::KeyNotFound
                    &&& old(self).chain(key@).len() == 0
                    &&& *final(self) == *old(self)
                },
            },
    ;

    /// Returns the number of pairs in the map.
    fn size(&self) -> (count: Result<usize, EnceladusError>)
        requires
            self.wf(),
        ensures
            count matches Ok(n) && n == self.spec_size(),
    ;

    /// Tells whether a pair is stored under `key`.
    fn contains_key(&self, key: K) -> (found: Result<bool, EnceladusError>)
        requires
            self.wf(),
        ensures
            found == Ok::<bool, EnceladusError>(self.chain(key@).len() > 0),
    ;

    /// Tells whether a stored value equals `value` in the sense of `V`'s
    /// `==`.
    fn contains_value(&self, value: V) -> (found: Result<bool, EnceladusError>)
        requires
            self.wf(),
        ensures
            found is Ok,
            V::obeys_eq_spec() ==> found == Ok::<bool, EnceladusError>(
                exists|key: K::V, n: int|
                    0 <= n < self.chain(key).len() && (#[trigger] self.chain(key)[n]).eq_spec(
                        &value,
                    ),
            ),
    ;

    /// Takes out every pair.
    fn clear(&mut self) -> (done: Result<(), EnceladusError>)
        ensures
            done == Ok::<(), EnceladusError>(()),
            final(self).wf(),
            final(self).spec_size() == 0,
            forall|key: K::V| #[trigger] final(self).chain(key) == Seq::<V>::empty(),
    ;
}

/// One step in the life of a map, with keys given by their views.
pub enum Step<K, V> {
    /// A pair is stored.
    Insert(K, V),
    /// The oldest pair under a key is taken out, if there is one.
    Remove(K),
    /// The oldest value under a key is overwritten, if there is one.
    Overwrite(K, V),
}

/// The values under `key` after the steps `steps` on an empty map, oldest
/// first.
pub open spec fn held<K, V>(steps: Seq<Step<K, V>>, key: K) -> Seq<V>
    decreases steps.len(),
{
    if steps.len() == 0 {
        Seq::empty()
    } else {
        let before = held(steps.drop_last(), key);
        match steps.last() {
            Step::Insert(k, v) => if k == key {
                before.push(v)
            } else {
                before
            },
            Step::Remove(k) => if k == key && before.len() > 0 {
                before.drop_first()
            } else {
                before
            },
            Step::Overwrite(k, v) => if k == key && before.len() > 0 {
                before.update(0, v)
            } else {
                before
            },
        }
    }
}

/// The number of pairs after the steps `steps` on an empty map: the number of
/// inserts less the number of removes that found their key.
pub open spec fn net_count<K, V>(steps: Seq<Step<K, V>>) -> int
    decreases steps.len(),
{
    if steps.len() == 0 {
        0
    } else {
        let before = net_count(steps.drop_last());
        match steps.last() {
            Step::Insert(_, _) => before + 1,
            Step::Remove(k) => if held(steps.drop_last(), k).len() > 0 {
                before - 1
            } else {
                before
            },
            Step::Overwrite(_, _) => before,
        }
    }
}

/// `after` is what `insert`, `remove` or `set` makes of `before`, as the step
/// says and as the operation promises.
pub open spec fn follows<K: Key, V: Eq + Clone, M: MapAdt<K, V>>(
    before: M,
    step: Step<K::V, V>,
    after: M,
) -> bool {
    match step {
        Step::Insert(key, value) => {
            &&& after.spec_size() == before.spec_size() + 1
            &&& after.chain(key) == before.chain(key).push(value)
            &&& forall|other: K::V|
                other != key ==> #[trigger] after.chain(other) == before.chain(other)
        },
        Step::Remove(key) => {
            &&& forall|other: K::V|
                other != key ==> #[trigger] after.chain(other) == before.chain(other)
            &&& if before.chain(key).len() > 0 {
                &&& after.spec_size() == before.spec_size() - 1
                &&& after.chain(key) == before.chain(key).drop_first()
            } else {
                &&& after.spec_size() == before.spec_size()
                &&& after.chain(key) == before.chain(key)
            }
        },
        Step::Overwrite(key, value) => {
            &&& after.spec_size() == before.spec_size()
            &&& forall|other: K::V|
                other != key ==> #[trigger] after.chain(other) == before.chain(other)
            &&& if before.chain(key).len() > 0 {
                after.chain(key) == before.chain(key).update(0, value)
            } else {
                after.chain(key) == before.chain(key)
            }
        },
    }
}

/// Whatever inserts, removes and sets a map goes through from its creation,
/// its size is the number of inserts less the number of removes that found
/// their key, and under every key it holds what the steps left there. So a
/// value that was stored is found again until it is removed or overwritten,
/// however the table has grown in between.
pub proof fn lemma_run<K: Key, V: Eq + Clone, M: MapAdt<K, V>>(
    states: Seq<M>,
    steps: Seq<Step<K::V, V>>,
)
    requires
        states.len() == steps.len() + 1,
        states[0].spec_size() == 0,
        forall|key: K::V| #[trigger] states[0].chain(key) == Seq::<V>::empty(),
        forall|i: int|
            0 <= i < steps.len() ==> follows::<K, V, M>(states[i], #[trigger] steps[i], states[i + 1]),
    ensures
        states.last().spec_size() == net_count(steps),
        forall|key: K::V| #[trigger] states.last().chain(key) == held(steps, key),
    decreases steps.len(),
{
    if steps.len() > 0 {
        let last = steps.len() - 1;
        assert forall|i: int| 0 <= i < steps.drop_last().len() implies follows::<K, V, M>(
            states.drop_last()[i],
            #[trigger] steps.drop_last()[i],
            states.drop_last()[i + 1],
        ) by {
            assert(follows::<K, V, M>(states[i], steps[i], states[i + 1]));
        }
        lemma_run::<K, V, M>(states.drop_last(), steps.drop_last());
        assert(states.drop_last().last() == states[last]);
        assert(follows::<K, V, M>(states[last], steps[last], states[last + 1]));
        assert forall|key: K::V| #[trigger] states.last().chain(key) == held(steps, key) by {
            assert(states[last].chain(key) == held(steps.drop_last(), key));
        }
    }
}

} // verus!
