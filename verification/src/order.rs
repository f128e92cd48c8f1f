//! Sorting a range of the builder's order by one axis.

use crate::coord::{coord_cmp, lo_order};
use crate::range::{range_by_axis, range_ready, same_order, spot, spot_coord, Insert};
use std::cmp::Ordering;
use vstd::prelude::*;

verus! {

/// How the inserts `a` and `b` are ordered on an axis: by the lower endpoints
/// of their coordinates there.
pub fn order_at(inserts: &[Insert], a: usize, b: usize, axis: usize) -> (r: Ordering)
    requires
        a < inserts@.len(),
        b < inserts@.len(),
        axis < spot(inserts@, a)@.len(),
        axis < spot(inserts@, b)@.len(),
    ensures
        r == lo_order(spot_coord(inserts@, a, axis), spot_coord(inserts@, b, axis)),
{
    match coord_cmp(&inserts[a].0[axis], &inserts[b].0[axis]) {
        Some(c) => c,
        None => Ordering::Equal,
    }
}

/// `<[usize]>::sort_unstable_by` on the range `[lo, hi)` of the order, with
/// `order_at` on the given axis as the comparison: afterwards the range holds
/// what it held before, in ascending order of the lower endpoints, and the
/// rest of the order is untouched.
#[verifier::external_body]
pub(crate) fn sort_by_axis(sorted: &mut Vec<usize>, inserts: &[Insert], lo: usize, hi: usize, axis: usize)
    requires
        range_ready(inserts@, old(sorted)@, lo, hi, axis),
    ensures
        same_order(old(sorted)@, final(sorted)@, lo, hi),
        range_by_axis(inserts@, final(sorted)@, lo, hi, axis),
{
    sorted[lo..hi].sort_unstable_by(|a, b| order_at(inserts, *a, *b, axis));
}

} // verus!
