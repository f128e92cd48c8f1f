//! The bytes of a tree: each node a block, the blocks of the children
//! behind the block of the parent.

use crate::bytes::{
    branch_len, buckets_len, child_len, coords_len, count_branch_bytes, count_leaf_bytes, gaps_len,
    is_empty_leaf, leaf_len, node_len, point_len, refs_len, rows_len,
};
use crate::codec::{enc_coords, enc_items, enc_list, enc_point, lemma_varint_bytes_len, varint_max};
use crate::coord::Coord;
use crate::tree::{ref_item, ref_items, row_item, row_items, Branch, Item, Node, Row, TreeRef};
use crate::wire::{be32, be64, lemma_be64, scalar_be, varint_bytes};
use vstd::prelude::*;

verus! {

/// A node as a plain value.
pub enum NodeM {
    Branch { pivots: Seq<i64>, buckets: Seq<(u32, NodeM)>, gaps: Seq<NodeM> },
    Data { rows: Seq<Item>, refs: Seq<Item> },
}

/// The node as a plain value.
pub open spec fn model(node: Node) -> NodeM
    decreases node, 0nat,
{
    match node {
        Node::Data(rows, refs) => NodeM::Data { rows: row_items(rows@), refs: ref_items(refs@) },
        Node::Branch(b) => NodeM::Branch {
            pivots: b.pivots@,
            buckets: models_b(b.intersections@, b.intersections@.len()),
            gaps: models_g(b.nodes@, b.nodes@.len()),
        },
    }
}

/// The first `n` intersection children as plain values.
pub open spec fn models_b(v: Seq<(u32, Node)>, n: nat) -> Seq<(u32, NodeM)>
    decreases v, n,
{
    if n == 0 || n > v.len() {
        Seq::empty()
    } else {
        models_b(v, (n - 1) as nat).push((v[n - 1].0, model(v[n - 1].1)))
    }
}

/// The first `n` gap children as plain values.
pub open spec fn models_g(v: Seq<Node>, n: nat) -> Seq<NodeM>
    decreases v, n,
{
    if n == 0 || n > v.len() {
        Seq::empty()
    } else {
        models_g(v, (n - 1) as nat).push(model(v[n - 1]))
    }
}

/// A leaf with nothing in it.
pub open spec fn is_empty_m(m: NodeM) -> bool {
    m matches NodeM::Data { rows, refs } && rows.len() == 0 && refs.len() == 0
}

/// The length of the block of a node.
pub open spec fn block_len(m: NodeM) -> nat {
    match m {
        NodeM::Data { rows, refs } => 5 + enc_list(rows).len() + enc_list(refs).len(),
        NodeM::Branch { pivots, buckets, gaps } => branch_len(pivots.len(), buckets.len()),
    }
}

/// The length of the bytes of a node with everything under it.
pub open spec fn msize(m: NodeM) -> nat
    decreases m, 0nat,
{
    match m {
        NodeM::Data { .. } => block_len(m),
        NodeM::Branch { pivots, buckets, gaps } => block_len(m) + sizes_b(buckets, buckets.len()) + sizes_g(
            gaps,
            gaps.len(),
        ),
    }
}

/// The length of the bytes of a child: nothing for an empty leaf.
pub open spec fn child_size(m: NodeM) -> nat
    decreases m, 1nat,
{
    if is_empty_m(m) {
        0
    } else {
        msize(m)
    }
}

/// The length of the bytes of the first `n` intersection children.
pub open spec fn sizes_b(v: Seq<(u32, NodeM)>, n: nat) -> nat
    decreases v, n,
{
    if n == 0 || n > v.len() {
        0
    } else {
        sizes_b(v, (n - 1) as nat) + child_size(v[n - 1].1)
    }
}

/// The length of the bytes of the first `n` gap children.
pub open spec fn sizes_g(v: Seq<NodeM>, n: nat) -> nat
    decreases v, n,
{
    if n == 0 || n > v.len() {
        0
    } else {
        sizes_g(v, (n - 1) as nat) + child_size(v[n - 1])
    }
}

/// The bytes of the first `n` pivots.
pub open spec fn enc_pivots(p: Seq<i64>, n: nat) -> Seq<u8>
    decreases n,
{
    if n == 0 || n > p.len() {
        Seq::empty()
    } else {
        enc_pivots(p, (n - 1) as nat) + scalar_be(p[n - 1])
    }
}

/// Whether child `j` of a branch is a leaf: the intersection children come
/// first.
pub open spec fn kind_at(buckets: Seq<(u32, NodeM)>, gaps: Seq<NodeM>, j: int) -> bool {
    if j < buckets.len() {
        buckets[j].1 is Data
    } else if j < buckets.len() + gaps.len() {
        gaps[j - buckets.len()] is Data
    } else {
        false
    }
}

/// Byte `i` of the bits that tell the leaves among the children, with the
/// first `k` of its bits filled in: bit `k` of byte `i` is for child
/// `8 i + k`.
pub open spec fn kind_byte(buckets: Seq<(u32, NodeM)>, gaps: Seq<NodeM>, i: nat, k: nat) -> u8
    decreases k,
{
    if k == 0 {
        0
    } else {
        let t = kind_byte(buckets, gaps, i, (k - 1) as nat);
        if kind_at(buckets, gaps, 8 * i + k - 1) {
            t | (1u8 << ((k - 1) as u8))
        } else {
            t
        }
    }
}

/// The first `n` bytes of the bits that tell the leaves among the children.
pub open spec fn enc_kinds(buckets: Seq<(u32, NodeM)>, gaps: Seq<NodeM>, n: nat) -> Seq<u8>
    decreases n,
{
    if n == 0 {
        Seq::empty()
    } else {
        enc_kinds(buckets, gaps, (n - 1) as nat).push(kind_byte(buckets, gaps, (n - 1) as nat, 8))
    }
}

/// What stands for a child in the block of its parent: zero for an empty
/// leaf, else one more than the place of the child's block.
pub open spec fn slot_of(child: NodeM, at: nat) -> u64 {
    if is_empty_m(child) {
        0
    } else {
        (at + 1) as u64
    }
}

/// The masks and places of the first `n` intersection children, the first
/// of which would stand at `base`.
pub open spec fn enc_bslots(v: Seq<(u32, NodeM)>, base: nat, n: nat) -> Seq<u8>
    decreases n,
{
    if n == 0 || n > v.len() {
        Seq::empty()
    } else {
        enc_bslots(v, base, (n - 1) as nat) + (be32(v[n - 1].0) + be64(
            slot_of(v[n - 1].1, base + sizes_b(v, (n - 1) as nat)),
        ))
    }
}

/// The places of the first `n` gap children, the first of which would stand
/// at `base`.
pub open spec fn enc_gslots(v: Seq<NodeM>, base: nat, n: nat) -> Seq<u8>
    decreases n,
{
    if n == 0 || n > v.len() {
        Seq::empty()
    } else {
        enc_gslots(v, base, (n - 1) as nat) + be64(slot_of(v[n - 1], base + sizes_g(v, (n - 1) as nat)))
    }
}

/// The block of a node that stands at `off`.
pub open spec fn enc_block(m: NodeM, off: nat) -> Seq<u8> {
    match m {
        NodeM::Data { rows, refs } => be32(block_len(m) as u32) + varint_bytes(0) + enc_list(rows) + enc_list(
            refs,
        ),
        NodeM::Branch { pivots, buckets, gaps } => {
            let n = pivots.len();
            let b = buckets.len();
            let base = off + block_len(m);
            be32(block_len(m) as u32) + varint_bytes(n as int) + enc_pivots(pivots, n) + varint_bytes(b as int)
                + enc_kinds(buckets, gaps, ((b + n + 1 + 7) / 8) as nat) + enc_bslots(buckets, base, b)
                + enc_gslots(gaps, base + sizes_b(buckets, b), gaps.len())
        },
    }
}

/// The bytes of a node that stands at `off`, with everything under it.
pub open spec fn enc(m: NodeM, off: nat) -> Seq<u8>
    decreases m, 0nat,
{
    match m {
        NodeM::Data { .. } => enc_block(m, off),
        NodeM::Branch { pivots, buckets, gaps } => {
            let base = off + block_len(m);
            enc_block(m, off) + enc_bkids(buckets, base, buckets.len()) + enc_gkids(
                gaps,
                base + sizes_b(buckets, buckets.len()),
                gaps.len(),
            )
        },
    }
}

/// The bytes of the first `n` intersection children, the first of which
/// stands at `base`.
pub open spec fn enc_bkids(v: Seq<(u32, NodeM)>, base: nat, n: nat) -> Seq<u8>
    decreases v, n,
{
    if n == 0 || n > v.len() {
        Seq::empty()
    } else {
        enc_bkids(v, base, (n - 1) as nat) + (if is_empty_m(v[n - 1].1) {
            Seq::empty()
        } else {
            enc(v[n - 1].1, base + sizes_b(v, (n - 1) as nat))
        })
    }
}

/// The bytes of the first `n` gap children, the first of which stands at
/// `base`.
pub open spec fn enc_gkids(v: Seq<NodeM>, base: nat, n: nat) -> Seq<u8>
    decreases v, n,
{
    if n == 0 || n > v.len() {
        Seq::empty()
    } else {
        enc_gkids(v, base, (n - 1) as nat) + (if is_empty_m(v[n - 1]) {
            Seq::empty()
        } else {
            enc(v[n - 1], base + sizes_g(v, (n - 1) as nat))
        })
    }
}

/// The bytes of a point are as many as its size says.
pub proof fn lemma_point_len(p: Seq<Coord>, n: nat)
    requires
        n <= p.len(),
    ensures
        enc_coords(p, n).len() == coords_len(p, n),
        n == p.len() ==> enc_point(p).len() == point_len(p),
    decreases n,
{
    if n > 0 {
        lemma_point_len(p, (n - 1) as nat);
        match p[n - 1] {
            Coord::Scalar(x) => {
                lemma_be64(crate::wire::bits(x));
            },
            Coord::Interval(a, b) => {
                lemma_be64(crate::wire::bits(a));
                lemma_be64(crate::wire::bits(b));
            },
        }
    }
}

/// The bytes of the first `n` records are as many as their sizes say.
pub proof fn lemma_rows_len(rows: Seq<Row>, n: nat)
    requires
        n <= rows.len(),
    ensures
        enc_items(row_items(rows), n).len() == rows_len(rows, n),
    decreases n,
{
    if n > 0 {
        lemma_rows_len(rows, (n - 1) as nat);
        let r = rows[n - 1];
        lemma_point_len(r.0@, r.0@.len());
        lemma_varint_bytes_len(r.1.id as int);
        lemma_varint_bytes_len(r.1.data@.len() as int);
        assert(row_items(rows)[n - 1] == row_item(r));
    }
}

/// The bytes of the first `n` references are as many as their sizes say.
pub proof fn lemma_refs_len(refs: Seq<TreeRef>, n: nat)
    requires
        n <= refs.len(),
    ensures
        enc_items(ref_items(refs), n).len() == refs_len(refs, n),
    decreases n,
{
    if n > 0 {
        lemma_refs_len(refs, (n - 1) as nat);
        let r = refs[n - 1];
        lemma_point_len(r.bounds@, r.bounds@.len());
        lemma_varint_bytes_len(r.id as int);
        assert(ref_items(refs)[n - 1] == ref_item(r));
    }
}

/// The block of a leaf is as long as the size of the leaf says.
pub proof fn lemma_leaf_len(rows: Seq<Row>, refs: Seq<TreeRef>)
    ensures
        block_len(NodeM::Data { rows: row_items(rows), refs: ref_items(refs) }) == leaf_len(rows, refs),
{
    lemma_rows_len(rows, rows.len());
    lemma_refs_len(refs, refs.len());
    lemma_varint_bytes_len(rows.len() as int);
    lemma_varint_bytes_len(refs.len() as int);
}

/// The bytes of a node with everything under it are as many as its size
/// says.
pub proof fn lemma_node_len(node: Node)
    ensures
        msize(model(node)) == node_len(node),
        is_empty_m(model(node)) == is_empty_leaf(node),
        child_size(model(node)) == child_len(node),
    decreases node, 0nat,
{
    match node {
        Node::Data(rows, refs) => {
            lemma_leaf_len(rows@, refs@);
            assert(model(node) == NodeM::Data { rows: row_items(rows@), refs: ref_items(refs@) });
            assert(msize(model(node)) == block_len(model(node)));
        },
        Node::Branch(b) => {
            lemma_models_b(b.intersections@, b.intersections@.len());
            lemma_models_g(b.nodes@, b.nodes@.len());
            let bs = models_b(b.intersections@, b.intersections@.len());
            let gs = models_g(b.nodes@, b.nodes@.len());
            assert(model(node) == NodeM::Branch { pivots: b.pivots@, buckets: bs, gaps: gs });
            assert(sizes_b(bs, bs.len()) == buckets_len(b.intersections@, b.intersections@.len()));
            assert(sizes_g(gs, gs.len()) == gaps_len(b.nodes@, b.nodes@.len()));
            assert(!is_empty_m(model(node)));
        },
    }
}

/// The first `n` intersection children as plain values: as many, each the
/// child as a plain value, and of the same sizes.
pub proof fn lemma_models_b(v: Seq<(u32, Node)>, n: nat)
    requires
        n <= v.len(),
    ensures
        models_b(v, n).len() == n,
        forall|i: int| 0 <= i < n ==> (#[trigger] models_b(v, n)[i]) == (v[i].0, model(v[i].1)),
        forall|k: nat| k <= n ==> #[trigger] sizes_b(models_b(v, n), k) == buckets_len(v, k),
    decreases v, n,
{
    if n > 0 {
        lemma_models_b(v, (n - 1) as nat);
        lemma_node_len(v[n - 1].1);
        let a = models_b(v, (n - 1) as nat);
        let b = models_b(v, n);
        assert forall|k: nat| k <= n implies #[trigger] sizes_b(b, k) == buckets_len(v, k) by {
            lemma_sizes_b_prefix(a, b, if k < n {
                k
            } else {
                (n - 1) as nat
            });
        }
    }
}

/// The sizes of the first children do not change when a child is added.
pub proof fn lemma_sizes_b_prefix(a: Seq<(u32, NodeM)>, b: Seq<(u32, NodeM)>, k: nat)
    requires
        k <= a.len() <= b.len(),
        forall|i: int| 0 <= i < a.len() ==> a[i] == b[i],
    ensures
        sizes_b(b, k) == sizes_b(a, k),
    decreases k,
{
    if k > 0 {
        lemma_sizes_b_prefix(a, b, (k - 1) as nat);
    }
}

/// The first `n` gap children as plain values: as many, each the child as a
/// plain value, and of the same sizes.
pub proof fn lemma_models_g(v: Seq<Node>, n: nat)
    requires
        n <= v.len(),
    ensures
        models_g(v, n).len() == n,
        forall|i: int| 0 <= i < n ==> (#[trigger] models_g(v, n)[i]) == model(v[i]),
        forall|k: nat| k <= n ==> #[trigger] sizes_g(models_g(v, n), k) == gaps_len(v, k),
    decreases v, n,
{
    if n > 0 {
        lemma_models_g(v, (n - 1) as nat);
        lemma_node_len(v[n - 1]);
        let a = models_g(v, (n - 1) as nat);
        let b = models_g(v, n);
        assert forall|k: nat| k <= n implies #[trigger] sizes_g(b, k) == gaps_len(v, k) by {
            lemma_sizes_g_prefix(a, b, if k < n {
                k
            } else {
                (n - 1) as nat
            });
        }
    }
}

/// The sizes of the first children do not change when a child is added.
pub proof fn lemma_sizes_g_prefix(a: Seq<NodeM>, b: Seq<NodeM>, k: nat)
    requires
        k <= a.len() <= b.len(),
        forall|i: int| 0 <= i < a.len() ==> a[i] == b[i],
    ensures
        sizes_g(b, k) == sizes_g(a, k),
    decreases k,
{
    if k > 0 {
        lemma_sizes_g_prefix(a, b, (k - 1) as nat);
    }
}

/// An item that can be written and read back: a point of at most eight
/// coordinates, and an id and a number of bytes that a varint is read back
/// as.
pub open spec fn item_ok(it: Item) -> bool {
    match it {
        Item::Row { point, id, data } => point.len() <= 8 && id <= varint_max() && data.len() <= varint_max(),
        Item::Ref { id, bounds } => bounds.len() <= 8 && id <= varint_max(),
    }
}

/// A list of items that can be written and read back.
pub open spec fn list_ok(s: Seq<Item>) -> bool {
    &&& s.len() <= varint_max()
    &&& forall|i: int| 0 <= i < s.len() ==> item_ok(#[trigger] s[i])
}

/// A node that can be written and read back, with everything under it: its
/// lists can, a branch has pivots and one gap child more than pivots, the
/// counts are such as a varint is read back as, and the length of each block
/// is below the largest number of four bytes.
#[verifier::opaque]
pub open spec fn node_ok(m: NodeM) -> bool
    decreases m,
{
    match m {
        NodeM::Data { rows, refs } => list_ok(rows) && list_ok(refs) && block_len(m) < u32::MAX,
        NodeM::Branch { pivots, buckets, gaps } => {
            &&& 1 <= pivots.len() <= varint_max()
            &&& buckets.len() <= varint_max()
            &&& gaps.len() == pivots.len() + 1
            &&& block_len(m) < u32::MAX
            &&& forall|i: int| 0 <= i < buckets.len() ==> node_ok((#[trigger] buckets[i]).1)
            &&& forall|i: int| 0 <= i < gaps.len() ==> node_ok(#[trigger] gaps[i])
        },
    }
}

/// What it is for a node to be such as can be written and read back.
pub proof fn lemma_node_ok(m: NodeM)
    ensures
        node_ok(m) <==> match m {
            NodeM::Data { rows, refs } => list_ok(rows) && list_ok(refs) && block_len(m) < u32::MAX,
            NodeM::Branch { pivots, buckets, gaps } => {
                &&& 1 <= pivots.len() <= varint_max()
                &&& buckets.len() <= varint_max()
                &&& gaps.len() == pivots.len() + 1
                &&& block_len(m) < u32::MAX
                &&& forall|i: int| 0 <= i < buckets.len() ==> node_ok((#[trigger] buckets[i]).1)
                &&& forall|i: int| 0 <= i < gaps.len() ==> node_ok(#[trigger] gaps[i])
            },
        },
{
    reveal(node_ok);
}

/// The largest number that a varint is read back as.
pub fn max_varint() -> (r: u64)
    ensures
        r == varint_max(),
{
    0xff_ffff_ffff_ffff
}

/// Whether the records can be written and read back.
pub fn check_rows(rows: &Vec<Row>) -> (r: bool)
    ensures
        r == list_ok(row_items(rows@)),
{
    if rows.len() as u64 > max_varint() {
        return false;
    }
    let mut i: usize = 0;
    while i < rows.len()
        invariant
            i <= rows@.len(),
            forall|j: int| 0 <= j < i ==> item_ok(#[trigger] row_items(rows@)[j]),
        decreases rows@.len() - i,
    {
        let r = &rows[i];
        assert(row_items(rows@)[i as int] == row_item(*r));
        if r.0.len() > 8 || r.1.id > max_varint() || r.1.data.len() as u64 > max_varint() {
            return false;
        }
        i += 1;
    }
    true
}

/// Whether the references can be written and read back.
pub fn check_refs(refs: &Vec<TreeRef>) -> (r: bool)
    ensures
        r == list_ok(ref_items(refs@)),
{
    if refs.len() as u64 > max_varint() {
        return false;
    }
    let mut i: usize = 0;
    while i < refs.len()
        invariant
            i <= refs@.len(),
            forall|j: int| 0 <= j < i ==> item_ok(#[trigger] ref_items(refs@)[j]),
        decreases refs@.len() - i,
    {
        let r = &refs[i];
        assert(ref_items(refs@)[i as int] == ref_item(*r));
        if r.bounds.len() > 8 || r.id > max_varint() {
            return false;
        }
        i += 1;
    }
    true
}

/// Whether each of the intersection children can be written and read back.
fn check_buckets(v: &Vec<(u32, Node)>) -> (r: bool)
    ensures
        r == forall|j: int| 0 <= j < v@.len() ==> node_ok(model((#[trigger] v@[j]).1)),
    decreases v, 0nat,
{
    let mut i: usize = 0;
    while i < v.len()
        invariant
            i <= v@.len(),
            forall|j: int| 0 <= j < i ==> node_ok(model((#[trigger] v@[j]).1)),
        decreases v@.len() - i,
    {
        let child: &Node = &v[i].1;
        if !check_node(child) {
            return false;
        }
        i += 1;
    }
    true
}

/// Whether each of the gap children can be written and read back.
fn check_gaps(v: &Vec<Node>) -> (r: bool)
    ensures
        r == forall|j: int| 0 <= j < v@.len() ==> node_ok(model(#[trigger] v@[j])),
    decreases v, 0nat,
{
    let mut i: usize = 0;
    while i < v.len()
        invariant
            i <= v@.len(),
            forall|j: int| 0 <= j < i ==> node_ok(model(#[trigger] v@[j])),
        decreases v@.len() - i,
    {
        let child: &Node = &v[i];
        if !check_node(child) {
            return false;
        }
        i += 1;
    }
    true
}

/// What it is for a branch to be such as can be written and read back.
proof fn lemma_branch_ok(node: Node)
    requires
        node is Branch,
    ensures
        node matches Node::Branch(b) && (node_ok(model(node)) <==> {
            &&& 1 <= b.pivots@.len() <= varint_max()
            &&& b.intersections@.len() <= varint_max()
            &&& b.nodes@.len() == b.pivots@.len() + 1
            &&& branch_len(b.pivots@.len(), b.intersections@.len()) < u32::MAX
            &&& forall|j: int| 0 <= j < b.intersections@.len() ==> node_ok(model((#[trigger] b.intersections@[j]).1))
            &&& forall|j: int| 0 <= j < b.nodes@.len() ==> node_ok(model(#[trigger] b.nodes@[j]))
        }),
{
    lemma_node_ok(model(node));
    match node {
        Node::Branch(b) => {
            lemma_models_b(b.intersections@, b.intersections@.len());
            lemma_models_g(b.nodes@, b.nodes@.len());
            let bs = models_b(b.intersections@, b.intersections@.len());
            let gs = models_g(b.nodes@, b.nodes@.len());
            if node_ok(model(node)) {
                assert forall|j: int| 0 <= j < b.intersections@.len() implies node_ok(
                    model((#[trigger] b.intersections@[j]).1),
                ) by {
                    assert(node_ok(bs[j].1));
                }
                assert forall|j: int| 0 <= j < b.nodes@.len() implies node_ok(model(#[trigger] b.nodes@[j])) by {
                    assert(node_ok(gs[j]));
                }
            }
            if (forall|j: int| 0 <= j < b.intersections@.len() ==> node_ok(model((#[trigger] b.intersections@[j]).1)))
                && (forall|j: int| 0 <= j < b.nodes@.len() ==> node_ok(model(#[trigger] b.nodes@[j]))) {
                assert forall|j: int| 0 <= j < bs.len() implies node_ok((#[trigger] bs[j]).1) by {
                    assert(node_ok(model(b.intersections@[j].1)));
                }
                assert forall|j: int| 0 <= j < gs.len() implies node_ok(#[trigger] gs[j]) by {
                    assert(node_ok(model(b.nodes@[j])));
                }
            }
        },
        Node::Data(..) => {},
    }
}

/// Whether the node can be written and read back, with everything under it.
pub fn check_node(node: &Node) -> (r: bool)
    ensures
        r == node_ok(model(*node)),
    decreases node, 1nat,
{
    match node {
        Node::Data(rows, refs) => check_leaf(rows, refs),
        Node::Branch(b) => {
            proof {
                lemma_branch_ok(*node);
            }
            if !check_head(b.pivots.len(), b.intersections.len(), b.nodes.len()) {
                return false;
            }
            check_buckets(&b.intersections) && check_gaps(&b.nodes)
        },
    }
}

/// Whether a leaf can be written and read back.
fn check_leaf(rows: &Vec<Row>, refs: &Vec<TreeRef>) -> (r: bool)
    ensures
        r == node_ok(NodeM::Data { rows: row_items(rows@), refs: ref_items(refs@) }),
{
    proof {
        lemma_leaf_len(rows@, refs@);
        lemma_node_ok(NodeM::Data { rows: row_items(rows@), refs: ref_items(refs@) });
    }
    if !check_rows(rows) {
        return false;
    }
    if !check_refs(refs) {
        return false;
    }
    let n = count_leaf_bytes(rows, refs);
    (n as u64) < 0xffff_ffff
}

/// Whether the block of a branch with `n` pivots, `nb` intersection
/// children and `ng` gap children can be written and read back.
fn check_head(n: usize, nb: usize, ng: usize) -> (r: bool)
    ensures
        r == (1 <= n <= varint_max() && nb <= varint_max() && ng == n + 1 && branch_len(n as nat, nb as nat)
            < u32::MAX),
{
    if n < 1 || n as u64 > max_varint() {
        return false;
    }
    if nb as u64 > max_varint() {
        return false;
    }
    if ng == 0 || ng - 1 != n {
        return false;
    }
    let c = count_branch_bytes(n, nb);
    (c as u64) < 0xffff_ffff
}

} // verus!
