//! The error outcomes of construction and of indexed access.

use vstd::prelude::*;

verus! {

/// Everything that can go wrong around a perfect-hash table.
///
/// Construction reports `DuplicateKey` or `ConstructionFailed`; a built table
/// never fails except for `InvalidKey` on indexed-subscript access.
#[derive(Clone, Copy, Debug, PartialEq, Eq, Structural)]
pub enum PhfError {
    /// Two construction entries compare equal as keys; construction aborts
    /// before any hashing.
    DuplicateKey,
    /// Seed retries were exhausted without a valid global slot assignment.
    ConstructionFailed,
    /// Indexed-subscript access was made with a key the table does not hold.
    InvalidKey,
}

} // verus!
