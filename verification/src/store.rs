//! A store of values numbered from zero without gaps, kept in a hash table.
//!
//! The graph keeps its vertex labels, edge labels and endpoint pairs in such
//! stores: the number of a vertex or an edge is its key in the table. Taking
//! a value out moves the values behind it one number down, so the numbers
//! stay dense.

use vstd::prelude::*;
use vstd::std_specs::cmp::PartialEqSpec;

use crate::error::EnceladusError;
use crate::hashmap::{covers, HashMap};
use crate::map::{covers_all, holds_equal, MapAdt};

verus! {

/// The values numbered `0`, `1`, ... of a kind, each under its number as key.
#[derive(Clone, Debug)]
pub(crate) struct DenseStore<T> {
    map: HashMap<usize, T>,
}

impl<T: Eq + Clone> View for DenseStore<T> {
    type V = Seq<T>;

    /// The values by number.
    closed spec fn view(&self) -> Seq<T> {
        Seq::new(self.map.spec_size(), |number: int| self.map.chain(number as usize)[0])
    }
}

impl<T: Eq + Clone> DenseStore<T> {
    /// The invariant of the store: the keys of its table are the numbers
    /// below the table's size, each with one value.
    pub(crate) closed spec fn wf(&self) -> bool {
        &&& self.map.wf()
        &&& forall|number: usize| #[trigger]
            self.map.chain(number).len() == if number < self.map.spec_size() {
                1nat
            } else {
                0nat
            }
    }

    /// Creates an empty store.
    pub(crate) fn new() -> (store: Self)
        ensures
            store.wf(),
            store@ == Seq::<T>::empty(),
    {
        DenseStore { map: HashMap::new() }
    }

    /// Returns the number of values.
    pub(crate) fn len(&self) -> (count: usize)
        requires
            self.wf(),
        ensures
            count == self@.len(),
    {
        match self.map.size() {
            Ok(count) => count,
            Err(_) => vstd::pervasive::unreached(),
        }
    }

    /// Tells whether `number` is the number of a value.
    pub(crate) fn contains(&self, number: usize) -> (found: bool)
        requires
            self.wf(),
        ensures
            found == (number < self@.len()),
    {
        match self.map.contains_key(number) {
            Ok(found) => found,
            Err(_) => vstd::pervasive::unreached(),
        }
    }

    /// Looks the value with the number `number` up.
    pub(crate) fn get(&self, number: usize) -> (found: Result<Option<&T>, EnceladusError>)
        requires
            self.wf(),
        ensures
            found == Ok::<Option<&T>, EnceladusError>(
                if number < self@.len() {
                    Some(&self@[number as int])
                } else {
                    None
                },
            ),
    {
        self.map.get(number)
    }

    /// Returns the value with the number `number`, which has to be there.
    pub(crate) fn at(&self, number: usize) -> (value: &T)
        requires
            self.wf(),
            number < self@.len(),
        ensures
            *value == self@[number as int],
    {
        match self.map.get(number) {
            Ok(Some(value)) => value,
            _ => vstd::pervasive::unreached(),
        }
    }

    /// Gives exclusive access to the value with the number `number`. What the
    /// caller writes through the reference becomes the stored value.
    pub(crate) fn get_mut(&mut self, number: usize) -> (found: Result<Option<&mut T>, EnceladusError>)
        requires
            old(self).wf(),
        ensures
            final(self).wf(),
            match found {
                Ok(Some(value)) => {
                    &&& number < old(self)@.len()
                    &&& *value == old(self)@[number as int]
                    &&& final(self)@ == old(self)@.update(number as int, *final(value))
                },
                Ok(None) => number >= old(self)@.len() && *final(self) == *old(self),
                Err(_) => false,
            },
    {
        proof {
            self.map.lemma_size_fits();
        }
        self.map.get_mut(number)
    }

    /// Replaces the value with the number `number`. Fails with
    /// `KeyNotFound`, and changes nothing, when there is no such value.
    pub(crate) fn set(&mut self, number: usize, value: T) -> (done: Result<(), EnceladusError>)
        requires
            old(self).wf(),
        ensures
            final(self).wf(),
            match done {
                Ok(()) => number < old(self)@.len() && final(self)@ == old(self)@.update(
                    number as int,
                    value,
                ),
                Err(e) => e == EnceladusError::KeyNotFound && number >= old(self)@.len()
                    && *final(self) == *old(self),
            },
    {
        let done = self.map.set(number, value);
        proof {
            self.map.lemma_size_fits();
            if done is Ok {
                assert forall|other: usize| #[trigger]
                    self.map.chain(other).len() == if other < self.map.spec_size() {
                        1nat
                    } else {
                        0nat
                    } by {
                    assert(old(self).map.chain(other).len() == if other < old(self).map.spec_size() {
                        1nat
                    } else {
                        0nat
                    });
                }
                assert(self.map.chain(number) == old(self).map.chain(number).update(0, value));
                assert forall|k: int| 0 <= k < self@.len() implies self@[k] == old(self)@.update(
                    number as int,
                    value,
                )[k] by {
                    if k != number {
                        assert(self.map.chain(k as usize) == old(self).map.chain(k as usize));
                    }
                }
                assert(self@ =~= old(self)@.update(number as int, value));
            }
        }
        done
    }

    /// Appends `value` under the next free number.
    pub(crate) fn push(&mut self, value: T)
        requires
            old(self).wf(),
            old(self)@.len() < usize::MAX,
        ensures
            final(self).wf(),
            final(self)@ == old(self)@.push(value),
    {
        let number = self.len();
        let _ = self.map.insert(number, value);
        proof {
            self.map.lemma_size_fits();
            assert forall|other: usize| #[trigger]
                self.map.chain(other).len() == if other < self.map.spec_size() {
                    1nat
                } else {
                    0nat
                } by {
                assert(old(self).map.chain(other).len() == if other < old(self).map.spec_size() {
                    1nat
                } else {
                    0nat
                });
            }
            assert(self@ =~= old(self)@.push(value));
        }
    }

    /// Takes the value with the number `number` out and moves the values
    /// behind it one number down.
    pub(crate) fn remove_at(&mut self, number: usize) -> (taken: Result<T, EnceladusError>)
        requires
            old(self).wf(),
        ensures
            final(self).wf(),
            match taken {
                Ok(value) => {
                    &&& number < old(self)@.len()
                    &&& value == old(self)@[number as int]
                    &&& final(self)@ == old(self)@.remove(number as int)
                },
                Err(e) => e == EnceladusError::KeyNotFound && number >= old(self)@.len()
                    && *final(self) == *old(self),
            },
    {
        let count = self.len();
        if number >= count {
            return Err(EnceladusError::KeyNotFound);
        }
        proof {
            self.map.lemma_size_fits();
        }
        let ghost before = self@;
        let mut carry = match self.map.take(count - 1) {
            Ok(value) => value,
            Err(_) => vstd::pervasive::unreached(),
        };
        let mut at: usize = count - 1;
        while at > number
            invariant
                number <= at < count,
                count == before.len(),
                self.map.wf(),
                self.map.spec_size() == count - 1,
                forall|k: usize| #[trigger]
                    self.map.chain(k).len() == if k < count - 1 {
                        1nat
                    } else {
                        0nat
                    },
                forall|k: usize| k < at ==> (#[trigger] self.map.chain(k))[0] == before[k as int],
                forall|k: usize|
                    at <= k < count - 1 ==> (#[trigger] self.map.chain(k))[0] == before[k + 1],
                carry == before[at as int],
            decreases at,
        {
            at -= 1;
            let ghost shown = self.map;
            match self.map.get_mut(at) {
                Ok(Some(slot)) => {
                    std::mem::swap(slot, &mut carry);
                },
                _ => vstd::pervasive::unreached(),
            }
            proof {
                assert(shown.chain(at).len() == 1);
                assert forall|k: usize| #[trigger]
                    self.map.chain(k).len() == if k < count - 1 {
                        1nat
                    } else {
                        0nat
                    } by {
                    assert(shown.chain(k).len() == if k < count - 1 {
                        1nat
                    } else {
                        0nat
                    });
                }
                assert forall|k: usize| k < at implies (#[trigger] self.map.chain(k))[0]
                    == before[k as int] by {
                    assert(shown.chain(k)[0] == before[k as int]);
                }
                assert forall|k: usize| at <= k < count - 1 implies (#[trigger] self.map.chain(
                    k,
                ))[0] == before[k + 1] by {
                    if k != at {
                        assert(shown.chain(k)[0] == before[k + 1]);
                    }
                }
            }
        }
        proof {
            assert(self@ =~= before.remove(number as int));
        }
        Ok(carry)
    }

    /// Takes every value out.
    pub(crate) fn clear(&mut self)
        ensures
            final(self).wf(),
            final(self)@ == Seq::<T>::empty(),
    {
        let _ = self.map.clear();
    }
}

impl<T: Eq + Clone> DenseStore<T> {
    /// Whether the tables of the two stores are equal: they hold the same
    /// keys, and each value of one equals a value of the other.
    pub(crate) closed spec fn same_as(&self, other: &Self) -> bool {
        self.map.eq_spec(&other.map)
    }
}

impl<T: Eq + Clone> PartialEq for DenseStore<T> {
    fn eq(&self, other: &Self) -> (equal: bool) {
        let equal = self.map == other.map;
        proof {
            assert(HashMap::<usize, T>::obeys_eq_spec() == T::obeys_eq_spec());
        }
        equal
    }
}

impl<T: Eq + Clone> vstd::std_specs::cmp::PartialEqSpecImpl for DenseStore<T> {
    open spec fn obeys_eq_spec() -> bool {
        T::obeys_eq_spec()
    }

    closed spec fn eq_spec(&self, other: &Self) -> bool {
        self.same_as(other)
    }
}

impl<T: Eq + Clone> Eq for DenseStore<T> {

}

impl<T: Eq + Clone> DenseStore<T> {
    /// The values of the store's table are the values of the store, and its
    /// keys are the numbers of the values.
    proof fn lemma_values(&self)
        requires
            self.wf(),
        ensures
            forall|value: T| self.map.value_set().contains(value) <==> self@.contains(value),
            forall|number: usize| self.map.key_set().contains(number) <==> number < self@.len(),
    {
        self.map.lemma_sets();
        self.map.lemma_size_fits();
        assert forall|value: T| self.map.value_set().contains(value) <==> self@.contains(
            value,
        ) by {
            if self.map.value_set().contains(value) {
                let (key, n) = choose|key: usize, n: int|
                    0 <= n < self.map.chain(key).len() && #[trigger] self.map.chain(key)[n]
                        == value;
                assert(self.map.chain(key).len() == 1);
                assert(self@[key as int] == value);
            }
            if self@.contains(value) {
                let i = choose|i: int| 0 <= i < self@.len() && self@[i] == value;
                assert(self.map.chain(i as usize).len() == 1);
                assert(self.map.chain(i as usize)[0] == value);
            }
        }
        assert forall|number: usize|
            self.map.key_set().contains(number) <==> number < self@.len() by {
            assert(self.map.chain(number).len() == if number < self.map.spec_size() {
                1nat
            } else {
                0nat
            });
        }
    }

    /// Two stores are equal exactly when they hold as many values and each
    /// value of one equals a value of the other.
    pub(crate) proof fn lemma_equality(&self, other: &Self)
        requires
            self.wf(),
            other.wf(),
        ensures
            self.eq_spec(other) <==> self@.len() == other@.len() && covers_all(other@, self@)
                && covers_all(self@, other@),
    {
        self.lemma_values();
        other.lemma_values();
        self.map.lemma_size_fits();
        other.map.lemma_size_fits();
        let here = self.map.value_set();
        let there = other.map.value_set();
        if self.map.key_set() =~= other.map.key_set() {
            if self@.len() < other@.len() {
                assert(other.map.key_set().contains(self@.len() as usize));
            }
            if other@.len() < self@.len() {
                assert(self.map.key_set().contains(other@.len() as usize));
            }
        }
        if self@.len() == other@.len() {
            assert(self.map.key_set() =~= other.map.key_set());
        }
        Self::lemma_covers(there, here, other@, self@);
        Self::lemma_covers(here, there, self@, other@);
    }

    /// Covering between sets of values is covering between the sequences
    /// that hold them.
    proof fn lemma_covers(whole_set: Set<T>, part_set: Set<T>, whole: Seq<T>, part: Seq<T>)
        requires
            forall|value: T| whole_set.contains(value) <==> whole.contains(value),
            forall|value: T| part_set.contains(value) <==> part.contains(value),
        ensures
            covers(whole_set, part_set) <==> covers_all(whole, part),
    {
        if covers(whole_set, part_set) {
            assert forall|i: int| 0 <= i < part.len() implies holds_equal(
                whole,
                #[trigger] part[i],
            ) by {
                assert(part.contains(part[i]));
                let stored = choose|stored: T| #[trigger]
                    whole_set.contains(stored) && stored.eq_spec(&part[i]);
                let j = choose|j: int| 0 <= j < whole.len() && whole[j] == stored;
                assert(whole[j].eq_spec(&part[i]));
            }
        }
        if covers_all(whole, part) {
            assert forall|value: T| #[trigger] part_set.contains(value) implies exists|stored: T|
             #[trigger]
                whole_set.contains(stored) && stored.eq_spec(&value) by {
                let i = choose|i: int| 0 <= i < part.len() && part[i] == value;
                assert(holds_equal(whole, part[i]));
                let j = choose|j: int|
                    0 <= j < whole.len() && #[trigger] whole[j].eq_spec(&part[i]);
                assert(whole.contains(whole[j]));
            }
        }
    }
}

} // verus!
