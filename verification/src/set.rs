//! The set capability.

use std::fmt::Debug;
use vstd::prelude::*;

use crate::error::EnceladusError;

verus! {

/// A store of elements without repetition.
pub trait SetAdt<T: Clone + Eq + Debug>: Sized + Clone + Eq + Debug {
    /// Creates an empty set.
    fn new() -> Self;

    /// Puts `elem` into the set.
    fn add(&mut self, elem: T) -> Result<(), EnceladusError>;

    /// Takes `elem` out of the set.
    fn remove(&mut self, elem: T) -> Result<(), EnceladusError>;

    /// Tells whether `elem` is in the set.
    fn contains(&self, elem: T) -> Result<bool, EnceladusError>;

    /// Returns the number of elements.
    fn size(&self) -> Result<usize, EnceladusError>;

    /// Takes every element out.
    fn clear(&mut self) -> Result<(), EnceladusError>;
}

} // verus!
