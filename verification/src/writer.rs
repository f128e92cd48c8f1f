//! Writing a tree as bytes.

use crate::bytes::{
    branch_len, buckets_len, child_len, count_branch_bytes, count_leaf_bytes, count_node_bytes,
    empty_leaf, gaps_len, node_len,
};
use crate::codec::{append, put_refs, put_rows, put_varint};
use crate::error::Error;
use crate::layout::{
    block_len, check_node, enc, enc_bkids, enc_block, enc_bslots, enc_gkids, enc_gslots, enc_kinds,
    enc_pivots, is_empty_m, kind_at, kind_byte, lemma_leaf_len, lemma_models_b, lemma_models_g,
    child_size, lemma_node_len, model, models_b, models_g, msize, node_ok, sizes_b, sizes_g,
    slot_of, NodeM,
};
use crate::tree::{ref_items, row_items, Branch, Node, Row, Tree, TreeRef};
use crate::wire::{put_u32, put_u64, scalar_to_bytes};
use vstd::prelude::*;

verus! {

/// The intersection children of a branch as plain values.
pub open spec fn bs_of(b: Branch) -> Seq<(u32, NodeM)> {
    models_b(b.intersections@, b.intersections@.len())
}

/// The gap children of a branch as plain values.
pub open spec fn gs_of(b: Branch) -> Seq<NodeM> {
    models_g(b.nodes@, b.nodes@.len())
}

/// A branch whose block can be written: few enough children that the block
/// is short, and children whose bytes stand within reach of a `usize`.
pub open spec fn branch_fits(b: Branch, off: nat) -> bool {
    &&& branch_len(b.pivots@.len(), b.intersections@.len()) < u32::MAX
    &&& b.nodes@.len() == b.pivots@.len() + 1
    &&& off + node_len(Node::Branch(b)) < usize::MAX
}

/// Appends the pivots.
fn write_pivots(out: &mut Vec<u8>, pivots: &Vec<i64>)
    ensures
        final(out)@ == old(out)@ + enc_pivots(pivots@, pivots@.len()),
{
    let ghost o = out@;
    let mut i: usize = 0;
    assert(o + enc_pivots(pivots@, 0) =~= o);
    while i < pivots.len()
        invariant
            i <= pivots@.len(),
            out@ == o + enc_pivots(pivots@, i as nat),
        decreases pivots@.len() - i,
    {
        let b = scalar_to_bytes(&pivots[i]);
        append(out, &b);
        i += 1;
        assert(out@ =~= o + enc_pivots(pivots@, i as nat));
    }
}

/// Whether child `j` of the branch is a leaf.
fn child_kind(b: &Branch, j: usize) -> (r: bool)
    ensures
        r == kind_at(bs_of(*b), gs_of(*b), j as int),
{
    proof {
        lemma_models_b(b.intersections@, b.intersections@.len());
        lemma_models_g(b.nodes@, b.nodes@.len());
    }
    let nb = b.intersections.len();
    if j < nb {
        match &b.intersections[j].1 {
            Node::Data(..) => true,
            Node::Branch(_) => false,
        }
    } else if j - nb < b.nodes.len() {
        match &b.nodes[j - nb] {
            Node::Data(..) => true,
            Node::Branch(_) => false,
        }
    } else {
        false
    }
}

/// Appends the bits that tell the leaves among the children.
fn write_kinds(out: &mut Vec<u8>, b: &Branch, nbytes: usize)
    requires
        nbytes <= 0x1000_0000,
    ensures
        final(out)@ == old(out)@ + enc_kinds(bs_of(*b), gs_of(*b), nbytes as nat),
{
    let ghost o = out@;
    let mut i: usize = 0;
    assert(o + enc_kinds(bs_of(*b), gs_of(*b), 0) =~= o);
    while i < nbytes
        invariant
            i <= nbytes,
            nbytes <= 0x1000_0000,
            out@ == o + enc_kinds(bs_of(*b), gs_of(*b), i as nat),
        decreases nbytes - i,
    {
        let mut t: u8 = 0;
        let mut k: usize = 0;
        while k < 8
            invariant
                k <= 8,
                i < nbytes,
                nbytes <= 0x1000_0000,
                t == kind_byte(bs_of(*b), gs_of(*b), i as nat, k as nat),
            decreases 8 - k,
        {
            if child_kind(b, 8 * i + k) {
                t = t | (1u8 << (k as u8));
            }
            k += 1;
        }
        out.push(t);
        i += 1;
        assert(out@ =~= o + enc_kinds(bs_of(*b), gs_of(*b), i as nat));
    }
}

/// The size of a child: nothing for an empty leaf.
fn child_bytes(child: &Node) -> (r: usize)
    ensures
        r == crate::bytes::sat(child_len(*child) as int),
{
    if empty_leaf(child) {
        0
    } else {
        count_node_bytes(child)
    }
}

/// Appends the masks and places of the intersection children, the first of
/// which will stand at `base`.
fn write_bslots(out: &mut Vec<u8>, v: &Vec<(u32, Node)>, base: usize)
    requires
        base + buckets_len(v@, v@.len()) < usize::MAX,
    ensures
        final(out)@ == old(out)@ + enc_bslots(models_b(v@, v@.len()), base as nat, v@.len()),
{
    let ghost o = out@;
    let ghost bs = models_b(v@, v@.len());
    proof {
        lemma_models_b(v@, v@.len());
    }
    let mut at: usize = base;
    let mut j: usize = 0;
    assert(o + enc_bslots(bs, base as nat, 0) =~= o);
    while j < v.len()
        invariant
            j <= v@.len(),
            bs == models_b(v@, v@.len()),
            bs.len() == v@.len(),
            base + buckets_len(v@, v@.len()) < usize::MAX,
            at == base + buckets_len(v@, j as nat),
            forall|k: nat| k <= v@.len() ==> #[trigger] sizes_b(bs, k) == buckets_len(v@, k),
            forall|i: int| 0 <= i < v@.len() ==> (#[trigger] bs[i]) == (v@[i].0, model(v@[i].1)),
            out@ == o + enc_bslots(bs, base as nat, j as nat),
        decreases v@.len() - j,
    {
        let child: &Node = &v[j].1;
        proof {
            lemma_node_len(*child);
            lemma_buckets_mono(v@, (j + 1) as nat, v@.len());
            assert(sizes_b(bs, j as nat) == buckets_len(v@, j as nat));
        }
        let slot: u64 = if empty_leaf(child) {
            0
        } else {
            (at + 1) as u64
        };
        assert(slot == slot_of(bs[j as int].1, (base + sizes_b(bs, j as nat)) as nat));
        put_u32(out, v[j].0);
        put_u64(out, slot);
        at = at + child_bytes(child);
        j += 1;
        assert(out@ =~= o + enc_bslots(bs, base as nat, j as nat));
    }
}

/// The sizes of the first children are at most the sizes of more of them.
pub proof fn lemma_buckets_mono(v: Seq<(u32, Node)>, k: nat, n: nat)
    requires
        k <= n <= v.len(),
    ensures
        buckets_len(v, k) <= buckets_len(v, n),
    decreases n - k,
{
    if k < n {
        lemma_buckets_mono(v, k, (n - 1) as nat);
    }
}

/// The sizes of the first children are at most the sizes of more of them.
pub proof fn lemma_gaps_mono(v: Seq<Node>, k: nat, n: nat)
    requires
        k <= n <= v.len(),
    ensures
        gaps_len(v, k) <= gaps_len(v, n),
    decreases n - k,
{
    if k < n {
        lemma_gaps_mono(v, k, (n - 1) as nat);
    }
}

/// Appends the places of the gap children, the first of which will stand at
/// `base`.
fn write_gslots(out: &mut Vec<u8>, v: &Vec<Node>, base: usize)
    requires
        base + gaps_len(v@, v@.len()) < usize::MAX,
    ensures
        final(out)@ == old(out)@ + enc_gslots(models_g(v@, v@.len()), base as nat, v@.len()),
{
    let ghost o = out@;
    let ghost gs = models_g(v@, v@.len());
    proof {
        lemma_models_g(v@, v@.len());
    }
    let mut at: usize = base;
    let mut j: usize = 0;
    assert(o + enc_gslots(gs, base as nat, 0) =~= o);
    while j < v.len()
        invariant
            j <= v@.len(),
            gs == models_g(v@, v@.len()),
            gs.len() == v@.len(),
            base + gaps_len(v@, v@.len()) < usize::MAX,
            at == base + gaps_len(v@, j as nat),
            forall|k: nat| k <= v@.len() ==> #[trigger] sizes_g(gs, k) == gaps_len(v@, k),
            forall|i: int| 0 <= i < v@.len() ==> (#[trigger] gs[i]) == model(v@[i]),
            out@ == o + enc_gslots(gs, base as nat, j as nat),
        decreases v@.len() - j,
    {
        let child: &Node = &v[j];
        proof {
            lemma_node_len(*child);
            lemma_gaps_mono(v@, (j + 1) as nat, v@.len());
            assert(sizes_g(gs, j as nat) == gaps_len(v@, j as nat));
        }
        let slot: u64 = if empty_leaf(child) {
            0
        } else {
            (at + 1) as u64
        };
        assert(slot == slot_of(gs[j as int], (base + sizes_g(gs, j as nat)) as nat));
        put_u64(out, slot);
        at = at + child_bytes(child);
        j += 1;
        assert(out@ =~= o + enc_gslots(gs, base as nat, j as nat));
    }
}

/// Appends the block of a leaf.
fn write_leaf(out: &mut Vec<u8>, rows: &Vec<Row>, refs: &Vec<TreeRef>)
    requires
        node_ok(NodeM::Data { rows: row_items(rows@), refs: ref_items(refs@) }),
    ensures
        final(out)@ == old(out)@ + enc_block(
            NodeM::Data { rows: row_items(rows@), refs: ref_items(refs@) },
            old(out)@.len(),
        ),
{
    let ghost o = out@;
    let ghost m = NodeM::Data { rows: row_items(rows@), refs: ref_items(refs@) };
    proof {
        crate::layout::lemma_node_ok(m);
        lemma_leaf_len(rows@, refs@);
        assert forall|i: int| 0 <= i < rows@.len() implies (#[trigger] rows@[i]).0@.len() <= 8 by {
            assert(crate::layout::item_ok(row_items(rows@)[i]));
        }
        assert forall|i: int| 0 <= i < refs@.len() implies (#[trigger] refs@[i]).bounds@.len() <= 8 by {
            assert(crate::layout::item_ok(ref_items(refs@)[i]));
        }
    }
    let len = count_leaf_bytes(rows, refs);
    put_u32(out, len as u32);
    put_varint(out, 0);
    put_rows(out, rows);
    put_refs(out, refs);
    assert(out@ =~= o + enc_block(m, o.len()));
}

/// Appends the block of a branch.
#[verifier::rlimit(40)]
fn write_head(out: &mut Vec<u8>, b: &Branch)
    requires
        branch_fits(*b, old(out)@.len()),
    ensures
        final(out)@ == old(out)@ + enc_block(model(Node::Branch(*b)), old(out)@.len()),
{
    let ghost o = out@;
    let ghost m = model(Node::Branch(*b));
    let n = b.pivots.len();
    let nb = b.intersections.len();
    proof {
        lemma_models_b(b.intersections@, b.intersections@.len());
        lemma_models_g(b.nodes@, b.nodes@.len());
        lemma_node_len(Node::Branch(*b));
    }
    let len = b.bytes();
    let base = out.len() + len;
    put_u32(out, len as u32);
    put_varint(out, n as u64);
    write_pivots(out, &b.pivots);
    put_varint(out, nb as u64);
    write_kinds(out, b, (nb + n + 1 + 7) / 8);
    write_bslots(out, &b.intersections, base);
    proof {
        assert(sizes_b(bs_of(*b), nb as nat) == buckets_len(b.intersections@, nb as nat));
    }
    let mid = base + buckets_bytes(&b.intersections, Ghost(base as nat));
    write_gslots(out, &b.nodes, mid);
    assert(m == NodeM::Branch { pivots: b.pivots@, buckets: bs_of(*b), gaps: gs_of(*b) });
    assert(block_len(m) == len);
    assert(out@ =~= o + enc_block(m, o.len()));
}

/// The size of the intersection children together.
fn buckets_bytes(v: &Vec<(u32, Node)>, Ghost(base): Ghost<nat>) -> (r: usize)
    requires
        base + buckets_len(v@, v@.len()) < usize::MAX,
    ensures
        r == buckets_len(v@, v@.len()),
{
    let mut r: usize = 0;
    let mut j: usize = 0;
    while j < v.len()
        invariant
            j <= v@.len(),
            base + buckets_len(v@, v@.len()) < usize::MAX,
            r == buckets_len(v@, j as nat),
        decreases v@.len() - j,
    {
        proof {
            lemma_buckets_mono(v@, (j + 1) as nat, v@.len());
        }
        r = r + child_bytes(&v[j].1);
        j += 1;
    }
    r
}

/// Appends the bytes of the intersection children.
fn write_bkids(out: &mut Vec<u8>, v: &Vec<(u32, Node)>, Ghost(base): Ghost<nat>)
    requires
        base == old(out)@.len(),
        base + buckets_len(v@, v@.len()) < usize::MAX,
        forall|i: int| 0 <= i < v@.len() ==> node_ok(model((#[trigger] v@[i]).1)),
    ensures
        final(out)@ == old(out)@ + enc_bkids(models_b(v@, v@.len()), base, v@.len()),
    decreases v, 0nat,
{
    let ghost o = out@;
    let ghost bs = models_b(v@, v@.len());
    proof {
        lemma_models_b(v@, v@.len());
    }
    let mut j: usize = 0;
    assert(o + enc_bkids(bs, base, 0) =~= o);
    while j < v.len()
        invariant
            j <= v@.len(),
            bs == models_b(v@, v@.len()),
            bs.len() == v@.len(),
            base == o.len(),
            base + buckets_len(v@, v@.len()) < usize::MAX,
            forall|i: int| 0 <= i < v@.len() ==> node_ok(model((#[trigger] v@[i]).1)),
            forall|k: nat| k <= v@.len() ==> #[trigger] sizes_b(bs, k) == buckets_len(v@, k),
            forall|i: int| 0 <= i < v@.len() ==> (#[trigger] bs[i]) == (v@[i].0, model(v@[i].1)),
            out@ == o + enc_bkids(bs, base, j as nat),
            out@.len() == base + buckets_len(v@, j as nat),
        decreases v@.len() - j,
    {
        let child: &Node = &v[j].1;
        proof {
            lemma_node_len(*child);
            lemma_buckets_mono(v@, (j + 1) as nat, v@.len());
            assert(sizes_b(bs, j as nat) == buckets_len(v@, j as nat));
            assert(bs[j as int].1 == model(*child));
        }
        if !empty_leaf(child) {
            write_node(out, child);
        }
        j += 1;
        assert(out@ =~= o + enc_bkids(bs, base, j as nat));
    }
}

/// Appends the bytes of the gap children.
fn write_gkids(out: &mut Vec<u8>, v: &Vec<Node>, Ghost(base): Ghost<nat>)
    requires
        base == old(out)@.len(),
        base + gaps_len(v@, v@.len()) < usize::MAX,
        forall|i: int| 0 <= i < v@.len() ==> node_ok(model(#[trigger] v@[i])),
    ensures
        final(out)@ == old(out)@ + enc_gkids(models_g(v@, v@.len()), base, v@.len()),
    decreases v, 0nat,
{
    let ghost o = out@;
    let ghost gs = models_g(v@, v@.len());
    proof {
        lemma_models_g(v@, v@.len());
    }
    let mut j: usize = 0;
    assert(o + enc_gkids(gs, base, 0) =~= o);
    while j < v.len()
        invariant
            j <= v@.len(),
            gs == models_g(v@, v@.len()),
            gs.len() == v@.len(),
            base == o.len(),
            base + gaps_len(v@, v@.len()) < usize::MAX,
            forall|i: int| 0 <= i < v@.len() ==> node_ok(model(#[trigger] v@[i])),
            forall|k: nat| k <= v@.len() ==> #[trigger] sizes_g(gs, k) == gaps_len(v@, k),
            forall|i: int| 0 <= i < v@.len() ==> (#[trigger] gs[i]) == model(v@[i]),
            out@ == o + enc_gkids(gs, base, j as nat),
            out@.len() == base + gaps_len(v@, j as nat),
        decreases v@.len() - j,
    {
        let child: &Node = &v[j];
        proof {
            lemma_node_len(*child);
            lemma_gaps_mono(v@, (j + 1) as nat, v@.len());
            assert(sizes_g(gs, j as nat) == gaps_len(v@, j as nat));
            assert(gs[j as int] == model(*child));
        }
        if !empty_leaf(child) {
            write_node(out, child);
        }
        j += 1;
        assert(out@ =~= o + enc_gkids(gs, base, j as nat));
    }
}

/// Appends the bytes of a node with everything under it: the node will
/// stand where the output ends.
pub fn write_node(out: &mut Vec<u8>, node: &Node)
    requires
        node_ok(model(*node)),
        old(out)@.len() + node_len(*node) < usize::MAX,
    ensures
        final(out)@ == old(out)@ + enc(model(*node), old(out)@.len()),
        final(out)@.len() == old(out)@.len() + node_len(*node),
    decreases node, 1nat,
{
    let ghost o = out@;
    proof {
        lemma_node_len(*node);
        lemma_enc_len(model(*node), o.len());
    }
    match node {
        Node::Data(rows, refs) => {
            write_leaf(out, rows, refs);
        },
        Node::Branch(b) => {
            proof {
                crate::layout::lemma_node_ok(model(*node));
                lemma_models_b(b.intersections@, b.intersections@.len());
                lemma_models_g(b.nodes@, b.nodes@.len());
                let bs = bs_of(*b);
                let gs = gs_of(*b);
                assert forall|i: int| 0 <= i < b.intersections@.len() implies node_ok(
                    model((#[trigger] b.intersections@[i]).1),
                ) by {
                    assert(node_ok(bs[i].1));
                }
                assert forall|i: int| 0 <= i < b.nodes@.len() implies node_ok(model(#[trigger] b.nodes@[i])) by {
                    assert(node_ok(gs[i]));
                }
                lemma_block_len(model(*node), o.len());
            }
            write_head(out, b);
            let ghost base = out@.len();
            write_bkids(out, &b.intersections, Ghost(base));
            proof {
                lemma_bkids_len(bs_of(*b), base, b.intersections@.len());
            }
            let ghost base2 = out@.len();
            write_gkids(out, &b.nodes, Ghost(base2));
            assert(out@ =~= o + enc(model(*node), o.len()));
        },
    }
}

/// The block of a node is as long as its length says.
pub proof fn lemma_block_len(m: NodeM, off: nat)
    requires
        m matches NodeM::Branch { pivots, buckets, gaps } ==> gaps.len() == pivots.len() + 1,
    ensures
        enc_block(m, off).len() == block_len(m),
{
    match m {
        NodeM::Data { rows, refs } => {
            crate::wire::lemma_be32(block_len(m) as u32);
        },
        NodeM::Branch { pivots, buckets, gaps } => {
            let n = pivots.len();
            let b = buckets.len();
            let base = off + block_len(m);
            crate::wire::lemma_be32(block_len(m) as u32);
            crate::codec::lemma_varint_bytes_len(n as int);
            crate::codec::lemma_varint_bytes_len(b as int);
            lemma_pivots_len(pivots, n);
            lemma_kinds_len(buckets, gaps, ((b + n + 1 + 7) / 8) as nat);
            lemma_bslots_len(buckets, base, b);
            lemma_gslots_len(gaps, base + sizes_b(buckets, b), gaps.len());
        },
    }
}

proof fn lemma_pivots_len(p: Seq<i64>, n: nat)
    requires
        n <= p.len(),
    ensures
        enc_pivots(p, n).len() == 8 * n,
    decreases n,
{
    if n > 0 {
        lemma_pivots_len(p, (n - 1) as nat);
        crate::wire::lemma_be64(crate::wire::bits(p[n - 1]));
    }
}

/// The lengths of the parts of the block of a branch.
pub proof fn lemma_parts_len(pivots: Seq<i64>, buckets: Seq<(u32, NodeM)>, gaps: Seq<NodeM>, base: nat)
    ensures
        enc_pivots(pivots, pivots.len()).len() == 8 * pivots.len(),
        enc_kinds(buckets, gaps, ((buckets.len() + pivots.len() + 1 + 7) / 8) as nat).len() == (buckets.len()
            + pivots.len() + 1 + 7) / 8,
        enc_bslots(buckets, base, buckets.len()).len() == 12 * buckets.len(),
        enc_gslots(gaps, base + sizes_b(buckets, buckets.len()), gaps.len()).len() == 8 * gaps.len(),
{
    lemma_pivots_len(pivots, pivots.len());
    lemma_kinds_len(buckets, gaps, ((buckets.len() + pivots.len() + 1 + 7) / 8) as nat);
    lemma_bslots_len(buckets, base, buckets.len());
    lemma_gslots_len(gaps, base + sizes_b(buckets, buckets.len()), gaps.len());
}

proof fn lemma_kinds_len(buckets: Seq<(u32, NodeM)>, gaps: Seq<NodeM>, n: nat)
    ensures
        enc_kinds(buckets, gaps, n).len() == n,
    decreases n,
{
    if n > 0 {
        lemma_kinds_len(buckets, gaps, (n - 1) as nat);
    }
}

proof fn lemma_bslots_len(v: Seq<(u32, NodeM)>, base: nat, n: nat)
    requires
        n <= v.len(),
    ensures
        enc_bslots(v, base, n).len() == 12 * n,
    decreases n,
{
    if n > 0 {
        lemma_bslots_len(v, base, (n - 1) as nat);
        crate::wire::lemma_be32(v[n - 1].0);
        crate::wire::lemma_be64(slot_of(v[n - 1].1, base + sizes_b(v, (n - 1) as nat)));
    }
}

proof fn lemma_gslots_len(v: Seq<NodeM>, base: nat, n: nat)
    requires
        n <= v.len(),
    ensures
        enc_gslots(v, base, n).len() == 8 * n,
    decreases n,
{
    if n > 0 {
        lemma_gslots_len(v, base, (n - 1) as nat);
        crate::wire::lemma_be64(slot_of(v[n - 1], base + sizes_g(v, (n - 1) as nat)));
    }
}

/// A branch with one gap child more than pivots, and so all the way down.
pub open spec fn gaps_fit(m: NodeM) -> bool
    decreases m,
{
    match m {
        NodeM::Data { .. } => true,
        NodeM::Branch { pivots, buckets, gaps } => {
            &&& gaps.len() == pivots.len() + 1
            &&& forall|i: int| 0 <= i < buckets.len() ==> gaps_fit((#[trigger] buckets[i]).1)
            &&& forall|i: int| 0 <= i < gaps.len() ==> gaps_fit(#[trigger] gaps[i])
        },
    }
}

/// A node that can be written has its gap children as they should be.
pub proof fn lemma_ok_fit(m: NodeM)
    requires
        node_ok(m),
    ensures
        gaps_fit(m),
    decreases m,
{
    crate::layout::lemma_node_ok(m);
    match m {
        NodeM::Data { .. } => {},
        NodeM::Branch { pivots, buckets, gaps } => {
            assert forall|i: int| 0 <= i < buckets.len() implies gaps_fit((#[trigger] buckets[i]).1) by {
                lemma_ok_fit(buckets[i].1);
            }
            assert forall|i: int| 0 <= i < gaps.len() implies gaps_fit(#[trigger] gaps[i]) by {
                lemma_ok_fit(gaps[i]);
            }
        },
    }
}

/// The bytes of a node with everything under it are as many as its size
/// says.
pub proof fn lemma_enc_len(m: NodeM, off: nat)
    requires
        node_ok(m),
    ensures
        enc(m, off).len() == msize(m),
    decreases m, 0nat,
{
    lemma_ok_fit(m);
    lemma_block_len(m, off);
    crate::layout::lemma_node_ok(m);
    match m {
        NodeM::Data { .. } => {},
        NodeM::Branch { pivots, buckets, gaps } => {
            let base = off + block_len(m);
            lemma_bkids_len(buckets, base, buckets.len());
            lemma_gkids_len(gaps, base + sizes_b(buckets, buckets.len()), gaps.len());
        },
    }
}

/// The bytes of the first `n` intersection children are as many as their
/// sizes say.
pub proof fn lemma_bkids_len(v: Seq<(u32, NodeM)>, base: nat, n: nat)
    requires
        n <= v.len(),
        forall|i: int| 0 <= i < v.len() ==> node_ok((#[trigger] v[i]).1),
    ensures
        enc_bkids(v, base, n).len() == sizes_b(v, n),
    decreases v, n,
{
    if n > 0 {
        lemma_bkids_len(v, base, (n - 1) as nat);
        let c = v[n - 1].1;
        let at = base + sizes_b(v, (n - 1) as nat);
        assert(node_ok(c));
        if !is_empty_m(c) {
            lemma_enc_len(c, at);
            assert(enc_bkids(v, base, n) == enc_bkids(v, base, (n - 1) as nat) + enc(c, at));
            assert(child_size(c) == msize(c));
        } else {
            assert(enc_bkids(v, base, n) == enc_bkids(v, base, (n - 1) as nat) + Seq::<u8>::empty());
            assert(child_size(c) == 0);
        }
        assert(sizes_b(v, n) == sizes_b(v, (n - 1) as nat) + child_size(c));
    }
}

/// The bytes of the first `n` gap children are as many as their sizes say.
pub proof fn lemma_gkids_len(v: Seq<NodeM>, base: nat, n: nat)
    requires
        n <= v.len(),
        forall|i: int| 0 <= i < v.len() ==> node_ok(#[trigger] v[i]),
    ensures
        enc_gkids(v, base, n).len() == sizes_g(v, n),
    decreases v, n,
{
    if n > 0 {
        lemma_gkids_len(v, base, (n - 1) as nat);
        let c = v[n - 1];
        let at = base + sizes_g(v, (n - 1) as nat);
        assert(node_ok(c));
        if !is_empty_m(c) {
            lemma_enc_len(c, at);
            assert(enc_gkids(v, base, n) == enc_gkids(v, base, (n - 1) as nat) + enc(c, at));
            assert(child_size(c) == msize(c));
        } else {
            assert(enc_gkids(v, base, n) == enc_gkids(v, base, (n - 1) as nat) + Seq::<u8>::empty());
            assert(child_size(c) == 0);
        }
        assert(sizes_g(v, n) == sizes_g(v, (n - 1) as nat) + child_size(c));
    }
}

/// What can be written of a tree: everything in it can be written and read
/// back, and its bytes are fewer than the largest `usize`.
pub open spec fn writable(node: Node) -> bool {
    node_ok(model(node)) && node_len(node) < usize::MAX
}

impl Branch {
    /// The size of the block of the branch, as far as a `usize` counts.
    pub fn bytes(&self) -> (r: usize)
        ensures
            r == crate::bytes::sat(branch_len(self.pivots@.len(), self.intersections@.len()) as int),
    {
        count_branch_bytes(self.pivots.len(), self.intersections.len())
    }
}

impl Tree {
    /// The size of the tree as bytes, as far as a `usize` counts.
    pub fn count_bytes(&self) -> (r: usize)
        ensures
            r == crate::bytes::sat(node_len(self.root) as int),
            writable(self.root) ==> r == enc(model(self.root), 0).len(),
    {
        proof {
            lemma_node_len(self.root);
            if writable(self.root) {
                lemma_enc_len(model(self.root), 0);
            }
        }
        count_node_bytes(&self.root)
    }

    /// The tree as bytes: the block of the root, then the blocks under it.
    /// A tree that holds what could not be read back is the error.
    pub fn to_bytes(&self) -> (r: Result<Vec<u8>, Error>)
        ensures
            match r {
                Ok(b) => writable(self.root) && b@ == enc(model(self.root), 0),
                Err(e) => e is Serialize && !writable(self.root),
            },
    {
        if !check_node(&self.root) {
            return Err(Error::Serialize);
        }
        if count_node_bytes(&self.root) == usize::MAX {
            return Err(Error::Serialize);
        }
        let mut out: Vec<u8> = Vec::new();
        write_node(&mut out, &self.root);
        assert(Seq::<u8>::empty() + enc(model(self.root), 0) =~= enc(model(self.root), 0));
        Ok(out)
    }
}

} // verus!
