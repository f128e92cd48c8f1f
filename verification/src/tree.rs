//! The node model of a tree and the mathematical view of what a tree holds.

use crate::coord::Coord;
use vstd::prelude::*;

verus! {

/// Identifier of a stored tree.
pub type TreeId = u64;

/// A point: one coordinate per axis.
pub type Point = Vec<Coord>;

/// A record: a point and the payload stored at it.
pub type Row = (Point, Value);

/// An opaque payload with the identifier by which it is deleted.
#[derive(Debug)]
pub struct Value {
    pub id: u64,
    pub data: Vec<u8>,
}

/// A weak reference to a stored tree: its id and the box around everything
/// that the tree lists.
#[derive(Debug)]
pub struct TreeRef {
    pub id: TreeId,
    pub bounds: Point,
}

/// What a builder is given at a point: a payload to store or a reference to
/// an existing tree.
#[derive(Debug)]
pub enum InsertValue<'a> {
    Value(&'a Value),
    Ref(TreeRef),
}

/// A node is a branch along one axis or a leaf of records and references.
#[derive(Debug)]
pub enum Node {
    Branch(Branch),
    Data(Vec<Row>, Vec<TreeRef>),
}

/// A branch along the axis `level mod D`: ascending pivots, the children that
/// hold what touches a set of pivots (keyed by the bitmask of that set), and
/// one child for each gap between and around the pivots.
#[derive(Debug)]
pub struct Branch {
    pub pivots: Vec<i64>,
    pub intersections: Vec<(u32, Node)>,
    pub nodes: Vec<Node>,
}

/// An immutable tree.
#[derive(Debug)]
pub struct Tree {
    pub root: Node,
}

/// The state of one recursion of the builder: the depth, the half-open range
/// of the sort order that it owns, and the running counts of its tree.
pub struct Build {
    pub level: usize,
    pub range: (usize, usize),
    pub count: usize,
    pub bytes: usize,
}

impl Build {
    /// The same range at the root of a fresh tree.
    pub fn ext(&self) -> (r: Self)
        ensures
            r.range == self.range,
            r.level == 0,
            r.count == 0,
            r.bytes == 0,
    {
        Self { range: self.range, level: 0, count: 0, bytes: 0 }
    }
}

/// What a leaf holds, as a plain value: a record or a reference.
#[allow(inconsistent_fields)]
pub enum Item {
    Row { point: Seq<Coord>, id: u64, data: Seq<u8> },
    Ref { id: TreeId, bounds: Seq<Coord> },
}

impl Item {
    /// Where the item sits in space.
    pub open spec fn point(self) -> Seq<Coord> {
        match self {
            Item::Row { point, .. } => point,
            Item::Ref { bounds, .. } => bounds,
        }
    }
}

/// A record, as an item.
pub open spec fn row_item(r: Row) -> Item {
    Item::Row { point: r.0@, id: r.1.id, data: r.1.data@ }
}

/// A reference, as an item.
pub open spec fn ref_item(r: TreeRef) -> Item {
    Item::Ref { id: r.id, bounds: r.bounds@ }
}

/// The records of a sequence of rows, as items.
pub open spec fn row_items(rows: Seq<Row>) -> Seq<Item> {
    rows.map_values(|r: Row| row_item(r))
}

/// The references of a sequence, as items.
pub open spec fn ref_items(refs: Seq<TreeRef>) -> Seq<Item> {
    refs.map_values(|r: TreeRef| ref_item(r))
}

/// The item that an insert stands for.
pub open spec fn insert_item(p: Point, v: InsertValue) -> Item {
    match v {
        InsertValue::Value(x) => Item::Row { point: p@, id: x.id, data: x.data@ },
        InsertValue::Ref(r) => ref_item(r),
    }
}

/// What the leaves under a node hold, in depth-first order: the records, or
/// with `refs` the references.
pub open spec fn node_items(node: Node, refs: bool) -> Seq<Item>
    decreases node, 0nat,
{
    match node {
        Node::Data(rows, rs) => if refs {
            ref_items(rs@)
        } else {
            row_items(rows@)
        },
        Node::Branch(b) => bucket_items(b.intersections@, b.intersections@.len(), refs)
            + gap_items(b.nodes@, b.nodes@.len(), refs),
    }
}

/// What the first `n` intersection children hold.
pub open spec fn bucket_items(v: Seq<(u32, Node)>, n: nat, refs: bool) -> Seq<Item>
    decreases v, n,
{
    if n == 0 || n > v.len() {
        Seq::empty()
    } else {
        bucket_items(v, (n - 1) as nat, refs) + node_items(v[n - 1].1, refs)
    }
}

/// What the first `n` gap children hold.
pub open spec fn gap_items(v: Seq<Node>, n: nat, refs: bool) -> Seq<Item>
    decreases v, n,
{
    if n == 0 || n > v.len() {
        Seq::empty()
    } else {
        gap_items(v, (n - 1) as nat, refs) + node_items(v[n - 1], refs)
    }
}

/// The arities that a tree may have.
pub open spec fn valid_dim(dim: nat) -> bool {
    2 <= dim <= 8
}

/// A point of arity `dim` whose intervals are in order.
pub open spec fn point_wf(p: Seq<Coord>, dim: nat) -> bool {
    &&& p.len() == dim
    &&& forall|a: int| 0 <= a < dim ==> (#[trigger] p[a]).wf()
}

/// Every item of the sequence is a well-formed point of arity `dim`.
pub open spec fn items_wf(s: Seq<Item>, dim: nat) -> bool {
    forall|i: int| 0 <= i < s.len() ==> point_wf((#[trigger] s[i]).point(), dim)
}

/// The structure that every traversal relies on: points of one arity, and
/// branches with between 1 and 32 pivots and one gap child more than pivots.
pub open spec fn node_shape(node: Node, dim: nat) -> bool
    decreases node,
{
    match node {
        Node::Data(rows, rs) => {
            &&& forall|i: int| 0 <= i < rows@.len() ==> (#[trigger] rows@[i]).0@.len() == dim
            &&& forall|i: int| 0 <= i < rs@.len() ==> (#[trigger] rs@[i]).bounds@.len() == dim
        },
        Node::Branch(b) => {
            &&& 1 <= b.pivots@.len() <= 32
            &&& b.nodes@.len() == b.pivots@.len() + 1
            &&& forall|i: int|
                0 <= i < b.intersections@.len() ==> node_shape(
                    (#[trigger] b.intersections@[i]).1,
                    dim,
                )
            &&& forall|i: int| 0 <= i < b.nodes@.len() ==> node_shape(#[trigger] b.nodes@[i], dim)
        },
    }
}

impl Clone for Value {
    fn clone(&self) -> (r: Self)
        ensures
            r.id == self.id,
            r.data@ == self.data@,
    {
        Value { id: self.id, data: self.data.clone() }
    }
}

/// A copy of a point.
pub fn clone_point(p: &Point) -> (r: Point)
    ensures
        r@ == p@,
{
    let mut r: Point = Vec::new();
    let mut i: usize = 0;
    while i < p.len()
        invariant
            i <= p.len(),
            r@ == p@.subrange(0, i as int),
        decreases p.len() - i,
    {
        r.push(p[i]);
        i += 1;
        assert(r@ =~= p@.subrange(0, i as int));
    }
    assert(p@.subrange(0, p@.len() as int) =~= p@);
    r
}

impl Clone for TreeRef {
    fn clone(&self) -> (r: Self)
        ensures
            r.id == self.id,
            r.bounds@ == self.bounds@,
    {
        TreeRef { id: self.id, bounds: clone_point(&self.bounds) }
    }
}

/// A copy of a record.
pub fn clone_row(r: &Row) -> (c: Row)
    ensures
        row_item(c) == row_item(*r),
{
    (clone_point(&r.0), r.1.clone())
}

impl Branch {
    /// The branch with these pivots, intersection children and gap children.
    pub fn new(pivots: Vec<i64>, intersections: Vec<(u32, Node)>, nodes: Vec<Node>) -> (r: Self)
        ensures
            r.pivots == pivots,
            r.intersections == intersections,
            r.nodes == nodes,
    {
        Self { pivots, intersections, nodes }
    }
}

impl Tree {
    /// The tree with this root.
    pub fn new(root: Node) -> (r: Self)
        ensures
            r.root == root,
    {
        Self { root }
    }

    /// The tree with nothing in it: one empty leaf.
    pub fn empty() -> (r: Self)
        ensures
            r.root matches Node::Data(rows, refs) && rows@.len() == 0 && refs@.len() == 0,
    {
        Self { root: Node::Data(Vec::new(), Vec::new()) }
    }
}

} // verus!
