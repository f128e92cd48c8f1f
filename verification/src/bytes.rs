//! The byte layout of a tree and the sizes that the builder budgets with.
//!
//! A tree is its root block followed by the blocks of the children, in
//! depth-first order. A block begins with its own length as a `u32` and the
//! number of pivots as a varint: none for a leaf. A leaf goes on with its
//! records and references, each list behind its count. A branch goes on with
//! its pivots, the number of intersection children, one bit for each child
//! (set for a leaf), for each intersection child its mask and offset, and
//! for each gap child its offset. An offset is counted from the start of the
//! tree and stored plus one; zero stands for an empty leaf, which has no
//! block.

use crate::coord::Coord;
use crate::tree::{Node, Point, Row, TreeRef, Value};
use vstd::prelude::*;

verus! {

/// The number of bytes of `v` as a varint: one for each seven bits.
pub open spec fn varint_len(v: int) -> nat
    decreases v,
{
    if v < 128 {
        1
    } else {
        1 + varint_len(v / 128)
    }
}

/// `desert::varint::length`: the number of bytes that the varint encoding of
/// `value` takes, one for each group of seven bits up to the highest set bit
/// and one for zero.
#[verifier::external_body]
pub(crate) fn varint_length(value: u64) -> (r: usize)
    ensures
        r == varint_len(value as int),
{
    desert::varint::length(value)
}

/// `desert::CountBytes::count_bytes` of an `i64`: always eight.
#[verifier::external_body]
pub(crate) fn scalar_bytes(x: &i64) -> (r: usize)
    ensures
        r == 8,
{
    desert::CountBytes::count_bytes(x)
}

/// What `desert` counts for a byte vector: its length and the varint of it.
pub open spec fn payload_len(data: Seq<u8>) -> nat {
    data.len() + varint_len(data.len() as int)
}

/// `desert::CountBytes::count_bytes` of a `Vec<u8>`: the number of bytes,
/// and the length of that number as a varint before them.
#[verifier::external_body]
pub(crate) fn payload_bytes(data: &Vec<u8>) -> (r: usize)
    ensures
        r == payload_len(data@),
{
    desert::CountBytes::count_bytes(data)
}

/// A sum that stops at the largest `usize`.
pub open spec fn sat(x: int) -> int {
    if x > usize::MAX {
        usize::MAX as int
    } else {
        x
    }
}

/// Adds two sizes, stopping at the largest `usize`.
pub fn sat_add(a: usize, b: usize) -> (r: usize)
    ensures
        r == sat(a + b),
{
    match a.checked_add(b) {
        Some(r) => r,
        None => usize::MAX,
    }
}

/// The size of one coordinate: one scalar or two.
pub open spec fn coord_len(c: Coord) -> nat {
    match c {
        Coord::Scalar(_) => 8,
        Coord::Interval(_, _) => 16,
    }
}

/// The size of the first `n` coordinates of a point.
pub open spec fn coords_len(p: Seq<Coord>, n: nat) -> nat
    decreases n,
{
    if n == 0 || n > p.len() {
        0
    } else {
        coords_len(p, (n - 1) as nat) + coord_len(p[n - 1])
    }
}

/// The size of a point: one byte that tells scalars from intervals, then the
/// coordinates.
pub open spec fn point_len(p: Seq<Coord>) -> nat {
    1 + coords_len(p, p.len())
}

/// The size of a payload: its id as a varint, then its bytes behind their
/// count.
pub open spec fn value_len(v: Value) -> nat {
    varint_len(v.id as int) + payload_len(v.data@)
}

/// The size of a record.
pub open spec fn row_len(r: Row) -> nat {
    point_len(r.0@) + value_len(r.1)
}

/// The size of a reference: its id as a varint, then its bounds.
pub open spec fn ref_len(r: TreeRef) -> nat {
    varint_len(r.id as int) + point_len(r.bounds@)
}

/// The size of the first `n` records.
pub open spec fn rows_len(rows: Seq<Row>, n: nat) -> nat
    decreases n,
{
    if n == 0 || n > rows.len() {
        0
    } else {
        rows_len(rows, (n - 1) as nat) + row_len(rows[n - 1])
    }
}

/// The size of the first `n` references.
pub open spec fn refs_len(refs: Seq<TreeRef>, n: nat) -> nat
    decreases n,
{
    if n == 0 || n > refs.len() {
        0
    } else {
        refs_len(refs, (n - 1) as nat) + ref_len(refs[n - 1])
    }
}

/// The size of a leaf's block.
pub open spec fn leaf_len(rows: Seq<Row>, refs: Seq<TreeRef>) -> nat {
    4 + 1 + varint_len(rows.len() as int) + rows_len(rows, rows.len()) + varint_len(refs.len() as int)
        + refs_len(refs, refs.len())
}

/// The size of the block of a branch with `n` pivots and `b` intersection
/// children.
pub open spec fn branch_len(n: nat, b: nat) -> nat {
    4 + varint_len(n as int) + 8 * n + varint_len(b as int) + (b + n + 1 + 7) / 8 + 12 * b + 8 * (n + 1)
}

/// A leaf with nothing in it.
pub open spec fn is_empty_leaf(node: Node) -> bool {
    node matches Node::Data(rows, refs) && rows@.len() == 0 && refs@.len() == 0
}

/// The size of a node as a child: nothing for an empty leaf.
pub open spec fn child_len(node: Node) -> nat
    decreases node, 1nat,
{
    if is_empty_leaf(node) {
        0
    } else {
        node_len(node)
    }
}

/// The size of a node with everything under it.
pub open spec fn node_len(node: Node) -> nat
    decreases node, 0nat,
{
    match node {
        Node::Data(rows, refs) => leaf_len(rows@, refs@),
        Node::Branch(b) => branch_len(b.pivots@.len(), b.intersections@.len()) + buckets_len(
            b.intersections@,
            b.intersections@.len(),
        ) + gaps_len(b.nodes@, b.nodes@.len()),
    }
}

/// The size of the first `n` intersection children.
pub open spec fn buckets_len(v: Seq<(u32, Node)>, n: nat) -> nat
    decreases v, n,
{
    if n == 0 || n > v.len() {
        0
    } else {
        buckets_len(v, (n - 1) as nat) + child_len(v[n - 1].1)
    }
}

/// The size of the first `n` gap children.
pub open spec fn gaps_len(v: Seq<Node>, n: nat) -> nat
    decreases v, n,
{
    if n == 0 || n > v.len() {
        0
    } else {
        gaps_len(v, (n - 1) as nat) + child_len(v[n - 1])
    }
}

/// The size of a point.
pub fn count_point_bytes(p: &Point) -> (r: usize)
    ensures
        r == sat(point_len(p@) as int),
{
    let mut r: usize = 1;
    let mut i: usize = 0;
    while i < p.len()
        invariant
            i <= p@.len(),
            r == sat(1 + coords_len(p@, i as nat) as int),
        decreases p@.len() - i,
    {
        let n: usize = match &p[i] {
            Coord::Scalar(x) => scalar_bytes(x),
            Coord::Interval(x, y) => scalar_bytes(x) + scalar_bytes(y),
        };
        r = sat_add(r, n);
        i += 1;
    }
    r
}

/// The size of a payload.
pub fn count_value_bytes(v: &Value) -> (r: usize)
    ensures
        r == sat(value_len(*v) as int),
{
    sat_add(varint_length(v.id), payload_bytes(&v.data))
}

/// The size of a reference.
pub fn count_ref_bytes(r: &TreeRef) -> (n: usize)
    ensures
        n == sat(ref_len(*r) as int),
{
    sat_add(varint_length(r.id), count_point_bytes(&r.bounds))
}

/// The size of a leaf's block.
pub fn count_leaf_bytes(rows: &Vec<Row>, refs: &Vec<TreeRef>) -> (n: usize)
    ensures
        n == sat(leaf_len(rows@, refs@) as int),
{
    let mut n: usize = sat_add(5, varint_length(rows.len() as u64));
    n = sat_add(n, varint_length(refs.len() as u64));
    let mut i: usize = 0;
    while i < rows.len()
        invariant
            i <= rows@.len(),
            n == sat(
                (5 + varint_len(rows@.len() as int) + varint_len(refs@.len() as int) + rows_len(
                    rows@,
                    i as nat,
                )) as int,
            ),
        decreases rows@.len() - i,
    {
        n = sat_add(n, sat_add(count_point_bytes(&rows[i].0), count_value_bytes(&rows[i].1)));
        i += 1;
    }
    let mut k: usize = 0;
    while k < refs.len()
        invariant
            k <= refs@.len(),
            n == sat(
                (5 + varint_len(rows@.len() as int) + varint_len(refs@.len() as int) + rows_len(
                    rows@,
                    rows@.len(),
                ) + refs_len(refs@, k as nat)) as int,
            ),
        decreases refs@.len() - k,
    {
        n = sat_add(n, count_ref_bytes(&refs[k]));
        k += 1;
    }
    n
}

/// Whether the node is a leaf with nothing in it.
pub fn empty_leaf(node: &Node) -> (r: bool)
    ensures
        r == is_empty_leaf(*node),
{
    match node {
        Node::Data(rows, refs) => rows.len() == 0 && refs.len() == 0,
        Node::Branch(_) => false,
    }
}

/// The size of a branch's block.
pub fn count_branch_bytes(n: usize, b: usize) -> (r: usize)
    ensures
        r == sat(branch_len(n as nat, b as nat) as int),
{
    // 4 + varint(n) + 8n + varint(b) + ceil((b + n + 1) / 8) + 12b + 8(n + 1)
    let n8: u128 = n as u128;
    let b8: u128 = b as u128;
    let total: u128 = 4 + (varint_length(n as u64) as u128) + 8 * n8 + (varint_length(b as u64) as u128) + (b8
        + n8 + 1 + 7) / 8 + 12 * b8 + 8 * (n8 + 1);
    if total > usize::MAX as u128 {
        usize::MAX
    } else {
        total as usize
    }
}

/// The size of a node with everything under it, as far as a `usize` counts.
pub fn count_node_bytes(node: &Node) -> (r: usize)
    ensures
        r == sat(node_len(*node) as int),
    decreases node,
{
    match node {
        Node::Data(rows, refs) => count_leaf_bytes(rows, refs),
        Node::Branch(b) => {
            let mut r: usize = count_branch_bytes(b.pivots.len(), b.intersections.len());
            let mut i: usize = 0;
            while i < b.intersections.len()
                invariant
                    i <= b.intersections@.len(),
                    *node matches Node::Branch(x) && x == *b,
                    r == sat(
                        (branch_len(b.pivots@.len(), b.intersections@.len()) + buckets_len(
                            b.intersections@,
                            i as nat,
                        )) as int,
                    ),
                decreases b.intersections@.len() - i,
            {
                let child: &Node = &b.intersections[i].1;
                assert(buckets_len(b.intersections@, (i + 1) as nat) == buckets_len(b.intersections@, i as nat)
                    + child_len(*child));
                assert(child_len(*child) == if is_empty_leaf(*child) {
                    0
                } else {
                    node_len(*child)
                });
                if !empty_leaf(child) {
                    r = sat_add(r, count_node_bytes(child));
                }
                i += 1;
            }
            let mut k: usize = 0;
            while k < b.nodes.len()
                invariant
                    k <= b.nodes@.len(),
                    *node matches Node::Branch(x) && x == *b,
                    r == sat(
                        (branch_len(b.pivots@.len(), b.intersections@.len()) + buckets_len(
                            b.intersections@,
                            b.intersections@.len(),
                        ) + gaps_len(b.nodes@, k as nat)) as int,
                    ),
                decreases b.nodes@.len() - k,
            {
                let child: &Node = &b.nodes[k];
                assert(gaps_len(b.nodes@, (k + 1) as nat) == gaps_len(b.nodes@, k as nat) + child_len(*child));
                assert(child_len(*child) == if is_empty_leaf(*child) {
                    0
                } else {
                    node_len(*child)
                });
                if !empty_leaf(child) {
                    r = sat_add(r, count_node_bytes(child));
                }
                k += 1;
            }
            r
        },
    }
}

} // verus!
