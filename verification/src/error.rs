//! The error vocabulary shared by every container of the library.

use vstd::prelude::*;

verus! {

/// Why an operation on a container could not be carried out.
#[derive(Copy, Clone, PartialEq, Eq, Structural, Hash, Debug)]
pub enum EnceladusError {
    /// An index or position lies outside the valid range.
    OutOfBounds,
    /// A map operation named a key that is not stored.
    KeyNotFound,
    /// A graph operation named a vertex that does not exist.
    VertexNotFound,
    /// A graph operation named an edge that does not exist.
    EdgeNotFound,
}

impl EnceladusError {
    /// The sentence that describes each error.
    pub open spec fn spec_message(self) -> Seq<char> {
        match self {
            EnceladusError::OutOfBounds => "Requested index is out of bounds"@,
            EnceladusError::KeyNotFound => "Requested key does not exist"@,
            EnceladusError::VertexNotFound => "Requested vertex does not exist"@,
            EnceladusError::EdgeNotFound => "Requested edge does not exist"@,
        }
    }

    /// Returns the human-readable description of the error.
    pub fn message(&self) -> (text: &'static str)
        ensures
            text@ == self.spec_message(),
    {
        match self {
            EnceladusError::OutOfBounds => "Requested index is out of bounds",
            EnceladusError::KeyNotFound => "Requested key does not exist",
            EnceladusError::VertexNotFound => "Requested vertex does not exist",
            EnceladusError::EdgeNotFound => "Requested edge does not exist",
        }
    }
}

} // verus!
