//! Errors of the library.
use vstd::prelude::*;

verus! {

/// A byte sequence that should hold a block record does not.
#[derive(Debug, PartialEq, Eq, Structural, Clone, Copy)]
pub enum BlockError {
    /// The bytes are the record of no block.
    Malformed,
}

} // verus!
