//! The list capability: a sequence of elements addressed by position.

use std::fmt::Debug;
use vstd::prelude::*;
use vstd::std_specs::cmp::PartialEqSpec;

use crate::error::EnceladusError;

verus! {

/// The positions at which `elems` holds an element that equals `elem` in the
/// sense of `T`'s `==`, ascending.
pub open spec fn positions_of<T: PartialEq>(elems: Seq<T>, elem: T) -> Seq<usize>
    decreases elems.len(),
{
    if elems.len() == 0 {
        Seq::empty()
    } else {
        let earlier = positions_of(elems.drop_last(), elem);
        if elems.last().eq_spec(&elem) {
            earlier.push((elems.len() - 1) as usize)
        } else {
            earlier
        }
    }
}

/// The first of the positions of `elem` is the position of the first element
/// that equals it.
pub proof fn lemma_first_position<T: PartialEq>(elems: Seq<T>, elem: T, at: int)
    requires
        0 <= at < elems.len() <= usize::MAX,
        elems[at].eq_spec(&elem),
        forall|i: int| 0 <= i < at ==> !(#[trigger] elems[i]).eq_spec(&elem),
    ensures
        positions_of(elems, elem).len() > 0,
        positions_of(elems, elem)[0] == at,
    decreases elems.len(),
{
    if at < elems.len() - 1 {
        assert(elems.drop_last()[at] == elems[at]);
        assert forall|i: int| 0 <= i < at implies !(#[trigger] elems.drop_last()[i]).eq_spec(
            &elem,
        ) by {
            assert(elems.drop_last()[i] == elems[i]);
        }
        lemma_first_position(elems.drop_last(), elem, at);
    } else {
        assert forall|i: int| 0 <= i < elems.drop_last().len() implies !(
        #[trigger] elems.drop_last()[i]).eq_spec(&elem) by {
            assert(elems.drop_last()[i] == elems[i]);
        }
        lemma_no_position(elems.drop_last(), elem);
    }
}

/// There is no position of `elem` where no element equals it.
pub proof fn lemma_no_position<T: PartialEq>(elems: Seq<T>, elem: T)
    requires
        forall|i: int| 0 <= i < elems.len() ==> !(#[trigger] elems[i]).eq_spec(&elem),
    ensures
        positions_of(elems, elem).len() == 0,
    decreases elems.len(),
{
    if elems.len() > 0 {
        assert forall|i: int| 0 <= i < elems.drop_last().len() implies !(
        #[trigger] elems.drop_last()[i]).eq_spec(&elem) by {
            assert(elems.drop_last()[i] == elems[i]);
        }
        lemma_no_position(elems.drop_last(), elem);
        assert(!elems[elems.len() - 1].eq_spec(&elem));
    }
}

/// A sequence of elements addressed by position. The view of a list is the
/// sequence of its elements.
pub trait List<T: Clone + Eq + Debug>: Sized + Clone + Eq + Debug + View<V = Seq<T>> {
    /// Creates an empty list.
    fn new() -> (list: Self)
        ensures
            list@ == Seq::<T>::empty(),
    ;

    /// Returns the element at `pos`. Fails with `OutOfBounds` when `pos` is
    /// not a position of the list.
    fn get(&self, pos: usize) -> (found: Result<&T, EnceladusError>)
        ensures
            found == if pos < self@.len() {
                Ok::<&T, EnceladusError>(&self@[pos as int])
            } else {
                Err::<&T, EnceladusError>(EnceladusError::OutOfBounds)
            },
    ;

    /// Gives exclusive access to the element at `pos`. Fails with
    /// `OutOfBounds`, and changes nothing, when `pos` is not a position of
    /// the list.
    fn get_mut(&mut self, pos: usize) -> (found: Result<&mut T, EnceladusError>)
        ensures
            match found {
                Ok(elem) => {
                    &&& pos < old(self)@.len()
                    &&& *elem == old(self)@[pos as int]
                    &&& final(self)@ == old(self)@.update(pos as int, *final(elem))
                },
                Err(e) => {
                    &&& e == EnceladusError::OutOfBounds
                    &&& pos >= old(self)@.len()
                    &&& final(self)@ == old(self)@
                },
            },
    ;

    /// Replaces the element at `pos`. Fails with `OutOfBounds`, and changes
    /// nothing, when `pos` is not a position of the list.
    fn set(&mut self, pos: usize, elem: T) -> (done: Result<(), EnceladusError>)
        ensures
            match done {
                Ok(()) => pos < old(self)@.len() && final(self)@ == old(self)@.update(
                    pos as int,
                    elem,
                ),
                Err(e) => {
                    &&& e == EnceladusError::OutOfBounds
                    &&& pos >= old(self)@.len()
                    &&& final(self)@ == old(self)@
                },
            },
    ;

    /// Puts `elem` at `pos` and moves the elements from there on one position
    /// up. Fails with `OutOfBounds`, and changes nothing, when `pos` lies
    /// behind the end of the list.
    fn insert(&mut self, pos: usize, elem: T) -> (done: Result<(), EnceladusError>)
        ensures
            match done {
                Ok(()) => pos <= old(self)@.len() && final(self)@ == old(self)@.insert(
                    pos as int,
                    elem,
                ),
                Err(e) => {
                    &&& e == EnceladusError::OutOfBounds
                    &&& pos > old(self)@.len()
                    &&& final(self)@ == old(self)@
                },
            },
    ;

    /// Takes the element at `pos` out and moves the elements behind it one
    /// position down. Fails with `OutOfBounds`, and changes nothing, when
    /// `pos` is not a position of the list.
    fn remove(&mut self, pos: usize) -> (taken: Result<T, EnceladusError>)
        ensures
            match taken {
                Ok(elem) => {
                    &&& pos < old(self)@.len()
                    &&& elem == old(self)@[pos as int]
                    &&& final(self)@ == old(self)@.remove(pos as int)
                },
                Err(e) => {
                    &&& e == EnceladusError::OutOfBounds
                    &&& pos >= old(self)@.len()
                    &&& final(self)@ == old(self)@
                },
            },
    ;

    /// Returns the number of elements.
    fn length(&self) -> (count: Result<usize, EnceladusError>)
        ensures
            count matches Ok(n) && n == self@.len(),
    ;

    /// Puts `elem` behind the last element.
    fn append(&mut self, elem: T) -> (done: Result<(), EnceladusError>)
        ensures
            done == Ok::<(), EnceladusError>(()),
            final(self)@ == old(self)@.push(elem),
    ;

    /// Exchanges the elements at `a` and `b`. Fails with `OutOfBounds`, and
    /// changes nothing, when `a` or `b` is not a position of the list.
    fn swap(&mut self, a: usize, b: usize) -> (done: Result<(), EnceladusError>)
        ensures
            match done {
                Ok(()) => {
                    &&& a < old(self)@.len()
                    &&& b < old(self)@.len()
                    &&& final(self)@ == old(self)@.update(a as int, old(self)@[b as int]).update(
                        b as int,
                        old(self)@[a as int],
                    )
                },
                Err(e) => {
                    &&& e == EnceladusError::OutOfBounds
                    &&& !(a < old(self)@.len() && b < old(self)@.len())
                    &&& final(self)@ == old(self)@
                },
            },
    ;

    /// Tells whether an element of the list equals `elem`.
    fn contains(&self, elem: T) -> (found: Result<bool, EnceladusError>)
        ensures
            found is Ok,
            T::obeys_eq_spec() ==> found == Ok::<bool, EnceladusError>(
                positions_of(self@, elem).len() > 0,
            ),
    ;

    /// Returns the positions of the elements that equal `elem`, ascending, or
    /// `None` when there is none.
    fn find_all(&self, elem: T) -> (found: Result<Option<Vec<usize>>, EnceladusError>)
        ensures
            found is Ok,
            T::obeys_eq_spec() ==> match found {
                Ok(Some(positions)) => positions@.len() > 0 && positions@ == positions_of(
                    self@,
                    elem,
                ),
                Ok(None) => positions_of(self@, elem).len() == 0,
                Err(_) => false,
            },
    ;

    /// Returns the position of the first element that equals `elem`, or
    /// `None` when there is none.
    fn find(&self, elem: T) -> (found: Result<Option<usize>, EnceladusError>)
        ensures
            found is Ok,
            T::obeys_eq_spec() ==> found == Ok::<Option<usize>, EnceladusError>(
                if positions_of(self@, elem).len() > 0 {
                    Some(positions_of(self@, elem)[0])
                } else {
                    None
                },
            ),
    ;

    /// Returns the number of elements that equal `elem`.
    fn count(&self, elem: T) -> (count: Result<usize, EnceladusError>)
        ensures
            count is Ok,
            T::obeys_eq_spec() ==> (count matches Ok(n) && n == positions_of(self@, elem).len()),
    ;

    /// Takes every element out.
    fn clear(&mut self) -> (done: Result<(), EnceladusError>)
        ensures
            done == Ok::<(), EnceladusError>(()),
            final(self)@ == Seq::<T>::empty(),
    ;
}

} // verus!
