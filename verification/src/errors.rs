//! The error kinds that the card store reports to its callers.

use vstd::prelude::*;

verus! {

/// Why a store operation was refused.
#[derive(Clone, Copy, PartialEq, Eq, Structural, Debug)]
pub enum StoreError {
    /// A referenced card or edge does not exist.
    NotFound,
    /// Inserting the candidate edge would close a directed cycle.
    CycleViolation,
    /// An edge with the same ordered `(parent, child)` pair already exists.
    DuplicateEdge,
    /// A rectangle encoding is malformed, or a rectangle is not representable.
    InvalidGeometry,
    /// The backing store itself failed; here: the card id space is exhausted.
    StorageFailure,
}

} // verus!
