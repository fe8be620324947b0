//! The queue capability.

use vstd::prelude::*;

use crate::error::EnceladusError;

verus! {

/// A first-in, first-out store of elements.
pub trait Queue<T: Eq + Clone>: Sized + Eq + Clone {
    /// Creates an empty queue.
    fn new() -> Self;

    /// Puts `elem` at the back of the queue.
    fn push(&mut self, elem: T) -> Result<(), EnceladusError>;

    /// Takes the element at the front out of the queue.
    fn pop(&mut self) -> Result<T, EnceladusError>;

    /// Returns the element at the front.
    fn peek(&self) -> Result<&T, EnceladusError>;

    /// Returns the number of elements.
    fn length(&self) -> Result<usize, EnceladusError>;
}

} // verus!
