//! The options of a build.

use vstd::prelude::*;

verus! {

/// The options of a build.
#[derive(Clone, Copy, Debug)]
pub struct SetupFields {
    /// A branch has one pivot fewer than this.
    pub branch_factor: usize,
    /// A range of fewer records than this becomes a leaf.
    pub inline: usize,
    /// A leaf of this many bytes or more is cut into trees of their own.
    pub inline_max_bytes: usize,
    /// The size that a tree should not exceed.
    pub max_tree_bytes: usize,
    /// A range of at most this many records is moved out as one tree.
    pub ext_records: usize,
    /// At this depth a branch is moved out into a tree of its own.
    pub max_depth: usize,
    /// With this many records beside it a branch is moved out too.
    pub max_records: usize,
    /// How many levels of referenced trees a merge folds back in.
    pub rebuild_depth: usize,
}

/// The options under which a build is defined: between 1 and 32 pivots to a
/// branch, and caps on depth and records that a fresh tree does not meet.
pub open spec fn fields_ok(f: SetupFields) -> bool {
    &&& 2 <= f.branch_factor <= 33
    &&& f.max_depth >= 1
    &&& f.max_records >= 1
}

/// Whether a build is defined under the options.
pub fn check_fields(f: &SetupFields) -> (r: bool)
    ensures
        r == fields_ok(*f),
{
    2 <= f.branch_factor && f.branch_factor <= 33 && f.max_depth >= 1 && f.max_records >= 1
}

impl Default for SetupFields {
    /// Six children to a branch, leaves under 500 records, and a merge that
    /// folds back two levels.
    fn default() -> (f: Self)
        ensures
            f.branch_factor == 6,
            f.inline == 500,
            f.inline_max_bytes == 20_000,
            f.max_tree_bytes == 1_000_000,
            f.ext_records == 500,
            f.max_depth == 8,
            f.max_records == 20_000,
            f.rebuild_depth == 2,
            fields_ok(f),
    {
        SetupFields {
            branch_factor: 6,
            inline: 500,
            inline_max_bytes: 20_000,
            max_tree_bytes: 1_000_000,
            ext_records: 500,
            max_depth: 8,
            max_records: 20_000,
            rebuild_depth: 2,
        }
    }
}

} // verus!
