//! What can go wrong.

use crate::tree::TreeId;
use vstd::prelude::*;

verus! {

/// The errors that a caller sees.
#[derive(Debug)]
pub enum Error {
    /// A tree could not be had.
    Io { id: TreeId },
    /// Bytes that are not a tree.
    Serialize,
    /// Ids that were to be deleted and were not found.
    RemoveIdsMissing { ids: Vec<u64> },
    /// Something that the engine relies on does not hold.
    InvariantViolation { detail: Violation },
    /// The work was given up by the caller.
    Cancelled,
}

/// What was found not to hold.
#[derive(Clone, Copy, Debug, PartialEq, Eq, Structural)]
pub enum Violation {
    /// The points are not all of one arity between 2 and 8, an interval is
    /// out of order, or a reference is not given at its bounds.
    MalformedInput,
    /// There are more rows than there are ids left for their trees.
    OutOfIds,
}

} // verus!
