//! The priority-queue capability: a store that hands out its greatest
//! element first.

use std::cmp::Ordering;
use std::fmt::Debug;
use vstd::prelude::*;
use vstd::std_specs::cmp::PartialEqSpec;
use vstd::std_specs::cmp::PartialOrdSpec;

use crate::error::EnceladusError;
use crate::list::positions_of;

verus! {

/// `a` is less than or equal to `b` in the order of `T`.
pub open spec fn at_most<T: PartialOrd>(a: T, b: T) -> bool {
    a.partial_cmp_spec(&b) == Some(Ordering::Less) || a.partial_cmp_spec(&b) == Some(
        Ordering::Equal,
    )
}

/// The comparison operators of `T` go by its order, and the order is total
/// and transitive.
pub open spec fn ordered<T: PartialOrd>() -> bool {
    &&& T::obeys_partial_cmp_spec()
    &&& forall|a: T, b: T| #[trigger] at_most(a, b) || at_most(b, a)
    &&& forall|a: T, b: T, c: T| #[trigger] at_most(a, b) && #[trigger] at_most(b, c) ==> at_most(a, c)
}

/// Every element of `elems` is less than or equal to `top`.
pub open spec fn greatest_of<T: PartialOrd>(elems: Seq<T>, top: T) -> bool {
    forall|i: int| 0 <= i < elems.len() ==> at_most(#[trigger] elems[i], top)
}

/// A store that hands out its greatest element first. The view of a queue is
/// the sequence of its elements in the order in which `find` counts them.
pub trait PriorityQueue<T: Eq + Clone + PartialOrd + Debug>: Sized + Eq + Clone + View<V = Seq<T>> {
    /// The invariant that every operation needs and keeps.
    spec fn wf(&self) -> bool;

    /// Creates an empty queue.
    fn new() -> (queue: Self)
        ensures
            queue.wf(),
            queue@ == Seq::<T>::empty(),
    ;

    /// Adds `elem` to the queue.
    fn push(&mut self, elem: T) -> (done: Result<(), EnceladusError>)
        requires
            old(self).wf(),
        ensures
            done == Ok::<(), EnceladusError>(()),
            final(self).wf(),
            final(self)@.to_multiset() == old(self)@.to_multiset().insert(elem),
    ;

    /// Takes the greatest element out of the queue. Fails with `OutOfBounds`,
    /// and changes nothing, when the queue is empty.
    fn pop(&mut self) -> (taken: Result<T, EnceladusError>)
        requires
            old(self).wf(),
        ensures
            final(self).wf(),
            match taken {
                Ok(top) => {
                    &&& old(self)@.len() > 0
                    &&& old(self)@.contains(top)
                    &&& final(self)@.to_multiset() == old(self)@.to_multiset().remove(top)
                    &&& ordered::<T>() ==> greatest_of(old(self)@, top)
                },
                Err(e) => {
                    &&& e == EnceladusError::OutOfBounds
                    &&& old(self)@.len() == 0
                    &&& final(self)@ == old(self)@
                },
            },
    ;

    /// Returns the greatest element. Fails with `OutOfBounds` when the queue
    /// is empty.
    fn peek(&self) -> (found: Result<&T, EnceladusError>)
        requires
            self.wf(),
        ensures
            match found {
                Ok(top) => {
                    &&& self@.len() > 0
                    &&& self@.contains(*top)
                    &&& ordered::<T>() ==> greatest_of(self@, *top)
                },
                Err(e) => e == EnceladusError::OutOfBounds && self@.len() == 0,
            },
    ;

    /// Returns the position of the first element that equals `elem`, or
    /// `None` when there is none.
    fn find(&self, elem: T) -> (found: Result<Option<usize>, EnceladusError>)
        ensures
            found is Ok,
            T::obeys_eq_spec() ==> found == Ok::<Option<usize>, EnceladusError>(
                if positions_of(self@, elem).len() > 0 {
                    Some(positions_of(self@, elem)[0])
                } else {
                    None
                },
            ),
    ;

    /// Returns the number of elements.
    fn length(&self) -> (count: Result<usize, EnceladusError>)
        ensures
            count matches Ok(n) && n == self@.len(),
    ;
}

} // verus!
