//! Whether a tree has the structure that a traversal relies on, decided by
//! walking it once.

use crate::tree::{node_shape, Node, Tree};
use vstd::prelude::*;

verus! {

/// Whether the node has the structure of a tree of arity `dim`.
fn shape_of(node: &Node, dim: usize) -> (r: bool)
    ensures
        r == node_shape(*node, dim as nat),
    decreases node,
{
    match node {
        Node::Data(rows, rs) => {
            let mut i: usize = 0;
            while i < rows.len()
                invariant
                    i <= rows@.len(),
                    *node matches Node::Data(x, y) && x == *rows && y == *rs,
                    forall|j: int| 0 <= j < i ==> (#[trigger] rows@[j]).0@.len() == dim,
                decreases rows@.len() - i,
            {
                if rows[i].0.len() != dim {
                    assert(rows@[i as int].0@.len() != dim);
                    return false;
                }
                i += 1;
            }
            let mut k: usize = 0;
            while k < rs.len()
                invariant
                    k <= rs@.len(),
                    *node matches Node::Data(x, y) && x == *rows && y == *rs,
                    forall|j: int| 0 <= j < rows@.len() ==> (#[trigger] rows@[j]).0@.len() == dim,
                    forall|j: int| 0 <= j < k ==> (#[trigger] rs@[j]).bounds@.len() == dim,
                decreases rs@.len() - k,
            {
                if rs[k].bounds.len() != dim {
                    assert(rs@[k as int].bounds@.len() != dim);
                    return false;
                }
                k += 1;
            }
            true
        },
        Node::Branch(b) => {
            let n = b.pivots.len();
            if n < 1 || n > 32 || b.nodes.len() != n + 1 {
                return false;
            }
            let mut i: usize = 0;
            while i < b.intersections.len()
                invariant
                    i <= b.intersections@.len(),
                    *node matches Node::Branch(x) && x == *b,
                    forall|j: int| 0 <= j < i ==> node_shape((#[trigger] b.intersections@[j]).1, dim as nat),
                decreases b.intersections@.len() - i,
            {
                let child: &Node = &b.intersections[i].1;
                if !shape_of(child, dim) {
                    return false;
                }
                i += 1;
            }
            let mut k: usize = 0;
            while k < b.nodes.len()
                invariant
                    k <= b.nodes@.len(),
                    *node matches Node::Branch(x) && x == *b,
                    forall|j: int|
                        0 <= j < b.intersections@.len() ==> node_shape(
                            (#[trigger] b.intersections@[j]).1,
                            dim as nat,
                        ),
                    forall|j: int| 0 <= j < k ==> node_shape(#[trigger] b.nodes@[j], dim as nat),
                decreases b.nodes@.len() - k,
            {
                let child: &Node = &b.nodes[k];
                if !shape_of(child, dim) {
                    return false;
                }
                k += 1;
            }
            true
        },
    }
}

impl Tree {
    /// Whether the tree has the structure of a tree of arity `dim`: every
    /// point and every bounds of that arity, and every branch with between
    /// 1 and 32 pivots and one gap child more than pivots. A local query
    /// asks this of its tree.
    pub fn has_shape(&self, dim: usize) -> (r: bool)
        ensures
            r == node_shape(self.root, dim as nat),
    {
        shape_of(&self.root, dim)
    }
}

} // verus!
