//! Where a branch keeps what: the placement that the builder establishes and
//! that the pruning of a query relies on.

use crate::coord::Coord;
use crate::query::has_bit;
use crate::tree::{items_wf, node_items, ref_items, row_items, Item, Node};
use vstd::prelude::*;

verus! {

/// The pivots ascend.
pub open spec fn ascending(pivots: Seq<i64>) -> bool {
    forall|i: int, j: int| 0 <= i <= j < pivots.len() ==> pivots[i] <= pivots[j]
}

/// The coordinate touches exactly the pivots whose bits are set in `m`.
pub open spec fn touches_exactly(c: Coord, pivots: Seq<i64>, m: u32) -> bool {
    forall|i: u32|
        i < pivots.len() && i < 32 ==> (c.contains(pivots[i as int] as int) <==> #[trigger] has_bit(m, i))
}

/// The mask names at least one of the pivots.
pub open spec fn mask_used(pivots: Seq<i64>, m: u32) -> bool {
    exists|i: u32| i < pivots.len() && i < 32 && #[trigger] has_bit(m, i)
}

/// The coordinate lies strictly inside gap `k`: below the first pivot,
/// between pivots `k - 1` and `k`, or above the last.
pub open spec fn in_gap(c: Coord, pivots: Seq<i64>, k: int) -> bool {
    let n = pivots.len() as int;
    &&& k == 0 ==> c.hi() < pivots[0]
    &&& 0 < k < n ==> pivots[k - 1] < c.lo() && c.hi() < pivots[k]
    &&& k == n ==> c.lo() > pivots[n - 1]
}

/// On axis `a`, every item touches exactly the pivots of the mask `m`.
pub open spec fn items_touch(s: Seq<Item>, a: int, pivots: Seq<i64>, m: u32) -> bool {
    forall|j: int|
        0 <= j < s.len() ==> a < (#[trigger] s[j]).point().len() && touches_exactly(
            s[j].point()[a],
            pivots,
            m,
        )
}

/// On axis `a`, every item lies strictly inside gap `k`.
pub open spec fn items_in_gap(s: Seq<Item>, a: int, pivots: Seq<i64>, k: int) -> bool {
    forall|j: int|
        0 <= j < s.len() ==> a < (#[trigger] s[j]).point().len() && in_gap(s[j].point()[a], pivots, k)
}

/// The invariants of a tree of arity `dim` under a node at depth `level`:
/// every point is well formed; a branch has ascending pivots, between 1 and
/// 32 of them, and one gap child more; whatever lies under an intersection
/// child touches, on the branch's axis, exactly the pivots of its mask, which
/// names at least one; whatever lies under gap child `k` lies strictly
/// inside gap `k`.
#[verifier::opaque]
pub open spec fn node_placed(node: Node, level: nat, dim: nat) -> bool
    decreases node,
{
    match node {
        Node::Data(rows, rs) => items_wf(row_items(rows@), dim) && items_wf(ref_items(rs@), dim),
        Node::Branch(b) => {
            let a = (level % dim) as int;
            &&& 1 <= b.pivots@.len() <= 32
            &&& b.nodes@.len() == b.pivots@.len() + 1
            &&& ascending(b.pivots@)
            &&& forall|i: int|
                0 <= i < b.intersections@.len() ==> {
                    let c = (#[trigger] b.intersections@[i]).1;
                    let m = b.intersections@[i].0;
                    &&& node_placed(c, level + 1, dim)
                    &&& mask_used(b.pivots@, m)
                    &&& items_touch(node_items(c, false), a, b.pivots@, m)
                    &&& items_touch(node_items(c, true), a, b.pivots@, m)
                }
            &&& forall|k: int|
                0 <= k < b.nodes@.len() ==> {
                    let c = #[trigger] b.nodes@[k];
                    &&& node_placed(c, level + 1, dim)
                    &&& items_in_gap(node_items(c, false), a, b.pivots@, k)
                    &&& items_in_gap(node_items(c, true), a, b.pivots@, k)
                }
        },
    }
}

} // verus!
