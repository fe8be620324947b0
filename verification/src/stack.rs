//! The stack capability and its error.

use std::fmt::Debug;
use vstd::prelude::*;

verus! {

/// Why an operation on a stack could not be carried out.
#[derive(Copy, Clone, PartialEq, Eq, Structural, Hash, Debug)]
pub enum StackError {
    /// The stack holds fewer elements than the operation needs.
    OutOfBounds,
}

impl StackError {
    /// The sentence that describes each error.
    pub open spec fn spec_message(self) -> Seq<char> {
        match self {
            StackError::OutOfBounds => "Insufficient elements"@,
        }
    }

    /// Returns the human-readable description of the error.
    pub fn message(&self) -> (text: &'static str)
        ensures
            text@ == self.spec_message(),
    {
        match self {
            StackError::OutOfBounds => "Insufficient elements",
        }
    }
}

/// A last-in, first-out store of elements.
pub trait Stack<T: Clone + Eq + Debug>: Sized + Clone + Eq + Debug {
    /// Creates an empty stack.
    fn new() -> Self;

    /// Puts `elem` on top of the stack.
    fn push(&mut self, elem: T) -> Result<(), StackError>;

    /// Takes the top element off the stack.
    fn pop(&mut self) -> Result<T, StackError>;

    /// Returns the top element.
    fn peek(&self) -> Result<&T, StackError>;

    /// Returns the number of elements.
    fn depth(&self) -> Result<usize, StackError>;

    /// Takes every element off the stack.
    fn clear(&mut self) -> Result<(), StackError>;
}

} // verus!
