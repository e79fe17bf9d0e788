use vstd::prelude::*;

verus! {

/// The ways a dictionary or solver call can be rejected. Absence of
/// continuations for a prefix is a normal return value, never an error.
#[derive(Clone, Copy, Debug, PartialEq, Eq, Structural)]
pub enum WordSquareError {
    /// An empty word was handed to `PrefixDictionary::insert`.
    InvalidWord,
    /// `solve` was called with a grid size of zero.
    InvalidGridSize,
}

} // verus!
