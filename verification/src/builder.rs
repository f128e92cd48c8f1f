//! The builder: from a flat list of inserts to a tree and the trees that it
//! moves out of it.

use crate::bytes::{
    buckets_len, child_len, count_branch_bytes, count_node_bytes, gaps_len, node_len, refs_len, rows_len, sat,
    sat_add,
};
use crate::content::{
    buckets_full, content_eq, forest_full, full_ms, gaps_full, inserts_ms, lemma_branch_full,
    lemma_bucket_items_prefix, lemma_buckets_full_push, lemma_contains_add, lemma_content_join,
    lemma_content_leaf, lemma_content_none, lemma_content_out, lemma_content_perm,
    lemma_content_root, lemma_gap_items_prefix, lemma_gaps_full_push, lemma_range_full_base,
    lemma_range_full_perm, lemma_range_full_split, news, range_full,
};
use crate::coord::Coord;
use crate::cover::{
    among, lemma_box_reaches, lemma_covered_by_one, lemma_covered_join, lemma_covered_none,
    lemma_covered_part, lemma_covered_perm, lemma_node_box, lemma_tight_transfer, node_box,
    node_covers, range_covered, reaches,
};
use crate::forest::{
    ids_below, leaf_fits, lemma_fit_front, lemma_fit_grow, lemma_fit_insert, lemma_fit_refl, lemma_trees_grow_below,
    lemma_trees_grow_front, lemma_trees_grow_insert, trees_fit,
    lemma_trees_grow_refl, lemma_trees_grow_trans, lemma_trees_placed_grow, lemma_trees_same,
    lemma_trees_same_insert, tree_boxes, trees_grow, trees_placed, CreateTrees,
};
use crate::links::{
    all_linked, lemma_linked_direct, lemma_linked_grow, lemma_linked_move, lemma_linked_none, lemma_linked_under,
};
use crate::order::sort_by_axis;
use crate::remove::item_id;
use crate::pivots::{pivot_count, samples, select_pivots};
use crate::place::{ascending, items_in_gap, items_touch, mask_used, node_placed};
use crate::query::lemma_next_axis;
use crate::range::{
    coord_at, ins_item, inserts_wf, lemma_order_wf_perm, lemma_range_all_perm, lemma_range_member,
    lemma_same_range_outside, lemma_same_range_refl, lemma_same_range_sym, lemma_same_range_trans,
    lemma_same_range_widen, order_wf, same_range, Insert,
};
use crate::segment::{
    cut_of, cut_segments, items_len, leaf_reckoned, lemma_leaf_reckoned, lemma_refs_len_push, lemma_rows_len_push,
    lemma_light_range, lemma_tiled_down, lemma_tiled_up, light, payloads, range_len, records_len, tiled,
};
use crate::setup::{fields_ok, SetupFields};
use crate::span::{
    axis_spanned, gap_fn, get_bounds, items_spanned, lemma_items_in_gap, lemma_items_spanned_add,
    lemma_items_spanned_empty, lemma_items_spanned_move, lemma_items_spanned_push,
    lemma_items_spanned_wf, lemma_items_touch, lemma_spanned_move, range_in_gap, range_touch, spanned, tight_box,
    touch_fn,
};
use crate::split::{
    group_fact, groups_placed, groups_wf, gsize, lemma_groups_frame, split, Groups,
};
use crate::tree::{
    bucket_items, clone_point, gap_items, items_wf, node_items, ref_item, ref_items, row_items,
    valid_dim, Branch, Build, InsertValue, Item, Node, Row, Tree, TreeId, TreeRef, Value,
};
use std::collections::HashMap;
use vstd::multiset::Multiset;
use vstd::prelude::*;

verus! {

/// The state of a build: the options, the inserts, the next free id, the
/// trees moved out so far, and the order that the recursions share.
pub struct MState<'a> {
    pub fields: SetupFields,
    pub inserts: &'a [Insert<'a>],
    pub next_tree: TreeId,
    pub ext_trees: CreateTrees,
    pub sorted: Vec<usize>,
}

impl<'a> MState<'a> {
    /// The state of a build of arity `dim`: valid options and inserts, an
    /// order over all inserts, and no tree yet at or above the next free id.
    pub open spec fn wf(&self, dim: nat) -> bool {
        &&& valid_dim(dim)
        &&& fields_ok(self.fields)
        &&& inserts_wf(self.inserts@, dim)
        &&& order_wf(self.sorted@, self.inserts@.len() as nat)
        &&& ids_below(self.ext_trees@, self.next_tree as int)
    }
}

/// A build that starts a tree: at the root, with nothing beside it.
pub open spec fn fresh(b: Build) -> bool {
    b.level == 0 && b.count == 0
}

/// How many ids a build over `rlen` records may take at most.
pub open spec fn alloc_bound(rlen: int, fresh: bool) -> int {
    if rlen <= 0 {
        0
    } else if fresh && rlen >= 3 {
        2 * rlen - 2
    } else {
        2 * rlen - 1
    }
}

/// What a recursion of the builder needs: a well-formed state, a range
/// inside the order, and room for its counts and ids.
pub open spec fn ready(pre: MState, b: Build, dim: nat) -> bool {
    &&& pre.wf(dim)
    &&& b.range.0 <= b.range.1 <= pre.sorted@.len()
    &&& b.count + (b.range.1 - b.range.0) <= usize::MAX
    &&& pre.next_tree + alloc_bound(b.range.1 - b.range.0, fresh(b)) <= u64::MAX
}

/// No option moves anything out of a tree: no cap on depth or records,
/// and no size at which a leaf is cut.
pub open spec fn calm(f: SetupFields) -> bool {
    &&& f.max_depth == usize::MAX
    &&& f.max_records == usize::MAX
    &&& f.inline_max_bytes == usize::MAX
    &&& f.max_tree_bytes == usize::MAX
}

/// A build that moves nothing out: it is for a deletion, under options that
/// move nothing out, of light inserts, at a level that its range can be
/// built under.
pub open spec fn quiet(f: SetupFields, is_rm: bool, inserts: Seq<Insert>, b: Build) -> bool {
    is_rm && calm(f) && light(inserts) && b.level + (b.range.1 - b.range.0) < usize::MAX
}

/// The ways in which the builder treats a range.
pub enum Rule {
    /// Nothing: the empty leaf.
    Empty,
    /// A leaf that stays in the tree.
    Keep,
    /// A leaf that is cut into trees of their own.
    Cut,
    /// A range that is moved out whole, as one leaf tree.
    Whole,
    /// A range that is built as a tree of its own.
    Sub,
    /// A branch.
    Branch,
}

/// The way in which the builder treats the range of `b`, whose leaf would
/// count `leaf` bytes. Nothing is an empty leaf. Fewer inserts than
/// `inline`, or at most two, are a leaf: cut if it counts `inline_max_bytes`
/// or more, or would take the tree over `max_tree_bytes`, and else kept. At
/// most `ext_records` inserts are moved out whole, unless the build is for
/// a deletion. At `max_depth`, or with `max_records` beside it, the range
/// is built as a tree of its own. Anything else is a branch.
pub open spec fn rule_of(f: SetupFields, b: Build, is_rm: bool, leaf: nat) -> Rule {
    let rlen = b.range.1 - b.range.0;
    if rlen <= 0 {
        Rule::Empty
    } else if rlen < f.inline || rlen <= 2 {
        if crate::bytes::sat(leaf as int) >= f.inline_max_bytes || crate::bytes::sat(
            b.bytes + crate::bytes::sat(leaf as int),
        ) > f.max_tree_bytes {
            Rule::Cut
        } else {
            Rule::Keep
        }
    } else if !is_rm && rlen <= f.ext_records {
        Rule::Whole
    } else if b.level >= f.max_depth || b.count >= f.max_records {
        Rule::Sub
    } else {
        Rule::Branch
    }
}

/// What the node and the new trees are under each rule. The empty leaf and
/// the leaf that is kept come with no new tree. A leaf that is cut leaves
/// the references to the leaf trees of its cut at `max_tree_bytes`, which
/// take the next ids in turn. A range moved out whole leaves the reference
/// to its leaf tree, and a range built as a tree of its own the reference
/// to that tree, under the next id. A branch is a branch with the pivots
/// picked for the range, or only where those pivots do not divide the
/// range, the leaf of the range.
pub open spec fn shaped(
    rule: Rule,
    f: SetupFields,
    inserts: Seq<Insert>,
    sorted: Seq<usize>,
    n0: int,
    n1: int,
    trees: Map<TreeId, Tree>,
    b: Build,
    dim: nat,
    node: Node,
) -> bool {
    let range = b.range;
    let lo = range.0 as int;
    let hi = range.1 as int;
    match rule {
        Rule::Empty => node matches Node::Data(rows, refs) && rows@.len() == 0 && refs@.len() == 0 && n1 == n0,
        Rule::Keep => node matches Node::Data(rows, refs) && rows@.len() + refs@.len() == hi - lo && n1 == n0
            && node_len(node) == range_len(inserts, sorted, lo, hi),
        Rule::Cut => node matches Node::Data(rows, refs) && rows@.len() == 0 && exists|segs: Seq<(usize, usize)>|
            #![trigger cut_of(inserts, sorted, lo, hi, f.max_tree_bytes, segs)]
            {
                &&& cut_of(inserts, sorted, lo, hi, f.max_tree_bytes, segs)
                &&& leaves_of(trees, refs@, n0, inserts, sorted, segs)
                &&& n1 == n0 + segs.len()
            },
        Rule::Whole => node matches Node::Data(rows, refs) && rows@.len() == 0 && leaves_of(
            trees,
            refs@,
            n0,
            inserts,
            sorted,
            seq![range],
        ) && n1 == n0 + 1,
        Rule::Sub => node matches Node::Data(rows, refs) && rows@.len() == 0 && refs@.len() == 1 && refs@[0].id == n0
            && n1 > n0,
        Rule::Branch => branch_shaped(f, inserts, sorted, n0, n1, b, dim, node),
    }
}

/// The pivots of a branch over the positions `[lo, hi)` on an axis: as many
/// as the branch factor and the range allow, the separations of evenly
/// spaced pairs of neighbours, in ascending order.
pub open spec fn picked(
    pv: Seq<i64>,
    inserts: Seq<Insert>,
    sorted: Seq<usize>,
    lo: int,
    hi: int,
    a: int,
    is_min: bool,
    branch_factor: usize,
) -> bool {
    &&& pv.len() == pivot_count(hi - lo, branch_factor as int)
    &&& ascending(pv)
    &&& pv.to_multiset() == samples(inserts, sorted, lo, hi, a, is_min, pv.len() as int).to_multiset()
}

/// The pivots do not divide the range: on the axis, every insert of the
/// positions `[lo, hi)` touches exactly the same pivots, or all of them lie
/// in one gap.
pub open spec fn undivided(
    inserts: Seq<Insert>,
    sorted: Seq<usize>,
    lo: int,
    hi: int,
    a: int,
    pivots: Seq<i64>,
) -> bool {
    ||| exists|m: u32| #[trigger] mask_used(pivots, m) && range_touch(inserts, sorted, lo, hi, a, pivots, m)
    ||| exists|k: int| 0 <= k <= pivots.len() && #[trigger] range_in_gap(inserts, sorted, lo, hi, a, pivots, k)
}

/// What the rule for a branch leaves: a branch with the pivots picked for
/// the range on the axis of its level; or, only where those pivots do not
/// divide the range, the leaf of the range, with no new tree.
pub open spec fn branch_shaped(
    f: SetupFields,
    inserts: Seq<Insert>,
    sorted: Seq<usize>,
    n0: int,
    n1: int,
    b: Build,
    dim: nat,
    node: Node,
) -> bool {
    let lo = b.range.0 as int;
    let hi = b.range.1 as int;
    let a = (b.level as nat % dim) as int;
    let is_min = (b.level as nat / dim) % 2 != 0;
    exists|pv: Seq<i64>|
        #![trigger ascending(pv)]
        {
            &&& picked(pv, inserts, sorted, lo, hi, a, is_min, f.branch_factor)
            &&& {
                ||| (node matches Node::Branch(br) && br.pivots@ == pv)
                ||| (node matches Node::Data(rows, refs) && rows@.len() + refs@.len() == hi - lo && n1 == n0
                    && undivided(inserts, sorted, lo, hi, a, pv))
            }
        }
}

/// The references name, one for each range, the trees from `n0` on, and
/// the tree of each is the leaf of its range.
pub open spec fn leaves_of(
    m: Map<TreeId, Tree>,
    refs: Seq<TreeRef>,
    n0: int,
    inserts: Seq<Insert>,
    sorted: Seq<usize>,
    segs: Seq<(usize, usize)>,
) -> bool {
    &&& refs.len() == segs.len()
    &&& forall|k: int| 0 <= k < refs.len() ==> (#[trigger] refs[k]).id == n0 + k
    &&& forall|k: int|
        0 <= k < segs.len() ==> leaf_reckoned(
            m[(n0 + k) as u64],
            inserts,
            sorted,
            (#[trigger] segs[k]).0 as int,
            segs[k].1 as int,
        )
}

/// A range of two inserts, or of fewer inserts than `inline` but more than
/// one, is reckoned at no more than `max` bytes.
pub open spec fn seg_bound(inserts: Seq<Insert>, sorted: Seq<usize>, lo: int, hi: int, inline: usize, max: usize) -> bool {
    hi - lo >= 2 && (hi - lo < inline || hi - lo == 2) ==> crate::bytes::sat(
        records_len(inserts, sorted, lo, hi) as int,
    ) <= max
}

/// What a recursion of the builder leaves: the state still well formed, the
/// order permuted within the range only, the ids taken in turn and within
/// the bound, each new tree as it should be, and a node for the level that
/// is placed, holds only what the range spans, covers the range, and holds
/// with the new trees what the range stands for and one reference to each
/// new tree. A leaf that was kept or cut for its size, as the node or as
/// the root of a new tree, counts no more than a tree should, and every new
/// tree is reached from the node by references to new trees.
pub open spec fn built(pre: MState, post: MState, b: Build, node: Node, dim: nat) -> bool {
    &&& post.wf(dim)
    &&& post.inserts == pre.inserts
    &&& post.fields == pre.fields
    &&& same_range(pre.sorted@, post.sorted@, b.range.0 as int, b.range.1 as int)
    &&& pre.next_tree <= post.next_tree <= pre.next_tree + alloc_bound(b.range.1 - b.range.0, fresh(b))
    &&& trees_grow(pre.ext_trees@, post.ext_trees@, pre.next_tree as int, post.next_tree as int)
    &&& trees_placed(post.ext_trees@, pre.next_tree as int, post.next_tree as int, dim)
    &&& trees_fit(
        post.ext_trees@,
        pre.next_tree as int,
        post.next_tree as int,
        pre.fields.inline,
        pre.fields.max_tree_bytes,
    )
    &&& leaf_fits(node, pre.fields.inline, pre.fields.max_tree_bytes)
    &&& all_linked(
        post.ext_trees@,
        node_items(node, false),
        node_items(node, true),
        pre.next_tree as int,
        post.next_tree as int,
    )
    &&& node_placed(node, b.level as nat, dim)
    &&& items_spanned(
        node_items(node, false),
        pre.inserts@,
        pre.sorted@,
        b.range.0 as int,
        b.range.1 as int,
        dim,
    )
    &&& items_spanned(
        node_items(node, true),
        pre.inserts@,
        pre.sorted@,
        b.range.0 as int,
        b.range.1 as int,
        dim,
    )
    &&& node_covers(node, pre.inserts@, pre.sorted@, b.range.0 as int, b.range.1 as int, dim)
    &&& content_eq(
        full_ms(node),
        post.ext_trees@,
        tree_boxes(post.ext_trees@, dim),
        pre.next_tree as int,
        post.next_tree as int,
        pre.inserts@,
        pre.sorted@,
        b.range.0 as int,
        b.range.1 as int,
    )
}

/// An insert's own point is spanned by any range that holds the insert.
proof fn lemma_self_spanned(inserts: Seq<Insert>, sorted: Seq<usize>, lo: int, hi: int, i: int, dim: nat)
    requires
        lo <= i < hi <= sorted.len(),
        0 <= lo,
        order_wf(sorted, inserts.len() as nat),
        inserts_wf(inserts, dim),
    ensures
        spanned(ins_item(inserts, sorted[i] as int).point(), inserts, sorted, lo, hi, dim),
{
    reveal(axis_spanned);
    let p = ins_item(inserts, sorted[i] as int).point();
    assert(p == inserts[sorted[i] as int].0@);
    assert forall|a: int| 0 <= a < dim implies #[trigger] axis_spanned(p[a], inserts, sorted, lo, hi, a) by {
        assert(coord_at(inserts, sorted, i, a) == p[a]);
    }
}

/// A leaf is placed at any depth when its points are well formed.
proof fn lemma_leaf_placed(node: Node, dim: nat)
    requires
        node matches Node::Data(rows, refs) && items_wf(row_items(rows@), dim) && items_wf(
            ref_items(refs@),
            dim,
        ),
    ensures
        forall|level: nat| node_placed(node, level, dim),
{
    reveal(node_placed);
}

/// Nothing holds nothing.
proof fn lemma_empty_full()
    ensures
        Seq::<Item>::empty().to_multiset().add(Seq::<Item>::empty().to_multiset()) == Multiset::<Item>::empty(),
        Seq::<Item>::empty().to_multiset() == Multiset::<Item>::empty(),
{
    broadcast use vstd::multiset::group_multiset_axioms;

    let e = Seq::<Item>::empty();
    e.to_multiset_ensures();
    assert(e.to_multiset() =~= Multiset::empty());
    assert(e.to_multiset().add(e.to_multiset()) =~= Multiset::empty());
}

/// One item holds itself.
proof fn lemma_one_full(it: Item)
    ensures
        Seq::<Item>::empty().to_multiset().add(seq![it].to_multiset()) == Multiset::singleton(it),
{
    broadcast use vstd::multiset::group_multiset_axioms;

    lemma_empty_full();
    let e = Seq::<Item>::empty();
    assert(seq![it] =~= e.push(it));
    e.to_multiset_ensures();
    assert(e.push(it).to_multiset() =~= Multiset::singleton(it));
    assert(e.to_multiset().add(Multiset::singleton(it)) =~= Multiset::singleton(it));
}

/// A leaf with the item of the next insert added covers one insert more and
/// holds what one insert more stands for.
proof fn lemma_leaf_step(
    s0: Seq<Item>,
    s1: Seq<Item>,
    it: Item,
    refs: bool,
    inserts: Seq<Insert>,
    sorted: Seq<usize>,
    lo: int,
    i: int,
    dim: nat,
)
    requires
        0 <= lo <= i < sorted.len(),
        order_wf(sorted, inserts.len() as nat),
        inserts_wf(inserts, dim),
        it == ins_item(inserts, sorted[i] as int),
        range_covered(s0, s1, inserts, sorted, lo, i, dim),
        s0.to_multiset().add(s1.to_multiset()) == range_full(inserts, sorted, lo, i),
    ensures
        !refs ==> range_covered(s0.push(it), s1, inserts, sorted, lo, i + 1, dim) && s0.push(
            it,
        ).to_multiset().add(s1.to_multiset()) == range_full(inserts, sorted, lo, i + 1),
        refs ==> range_covered(s0, s1.push(it), inserts, sorted, lo, i + 1, dim) && s0.to_multiset().add(
            s1.push(it).to_multiset(),
        ) == range_full(inserts, sorted, lo, i + 1),
{
    broadcast use vstd::multiset::group_multiset_axioms;

    let t0 = if refs {
        s0
    } else {
        s0.push(it)
    };
    let t1 = if refs {
        s1.push(it)
    } else {
        s1
    };
    assert forall|x: Item| #[trigger] among(s0, s1, x) implies among(t0, t1, x) by {
        if s0.contains(x) {
            let k = choose|k: int| 0 <= k < s0.len() && s0[k] == x;
            assert(t0[k] == x);
        } else {
            let k = choose|k: int| 0 <= k < s1.len() && s1[k] == x;
            assert(t1[k] == x);
        }
    }
    if refs {
        assert(t1[s1.len() as int] == it);
    } else {
        assert(t0[s0.len() as int] == it);
    }
    assert(among(t0, t1, it));
    lemma_covered_part(s0, s1, t0, t1, inserts, sorted, sorted, lo, i, lo, i, dim);
    assert(it.point() == inserts[sorted[i] as int].0@);
    assert forall|k: int, a: int| i <= k < i + 1 && 0 <= a < dim implies reaches(
        it,
        #[trigger] coord_at(inserts, sorted, k, a),
        a,
    ) by {}
    lemma_covered_by_one(t0, t1, it, inserts, sorted, i, i + 1, dim);
    lemma_covered_join(t0, t1, inserts, sorted, lo, i, i + 1, dim);
    lemma_range_full_split(inserts, sorted, lo, i, i + 1);
    lemma_range_full_base(inserts, sorted, i);
    s0.to_multiset_ensures();
    s1.to_multiset_ensures();
    let m = s0.to_multiset().add(s1.to_multiset());
    assert(t0.to_multiset().add(t1.to_multiset()) =~= m.add(Multiset::singleton(it)));
}

/// The leaf that holds the inserts of the positions `[lo, hi)`: the payloads
/// as records and the references, each in the order of the range.
pub fn build_data(sorted: &Vec<usize>, inserts: &[Insert], lo: usize, hi: usize, Ghost(dim): Ghost<nat>) -> (node:
    Node)
    requires
        lo <= hi <= sorted@.len(),
        order_wf(sorted@, inserts@.len() as nat),
        inserts_wf(inserts@, dim),
    ensures
        node is Data,
        forall|level: nat| node_placed(node, level, dim),
        items_spanned(node_items(node, false), inserts@, sorted@, lo as int, hi as int, dim),
        items_spanned(node_items(node, true), inserts@, sorted@, lo as int, hi as int, dim),
        node_items(node, false).len() + node_items(node, true).len() == hi - lo,
        node_covers(node, inserts@, sorted@, lo as int, hi as int, dim),
        full_ms(node) == range_full(inserts@, sorted@, lo as int, hi as int),
        hi - lo >= 1 ==> node_len(node) <= records_len(inserts@, sorted@, lo as int, hi as int) + 3,
        hi - lo >= 2 ==> node_len(node) < records_len(inserts@, sorted@, lo as int, hi as int),
        node matches Node::Data(rows, refs) && rows@.len() + refs@.len() == hi - lo,
        node_len(node) == range_len(inserts@, sorted@, lo as int, hi as int),
{
    let mut rows: Vec<Row> = Vec::new();
    let mut refs: Vec<TreeRef> = Vec::new();
    let mut i: usize = lo;
    proof {
        lemma_items_spanned_empty(inserts@, sorted@, lo as int, hi as int, dim);
        assert(row_items(rows@) =~= Seq::<Item>::empty());
        assert(ref_items(refs@) =~= Seq::<Item>::empty());
        lemma_covered_none(row_items(rows@), ref_items(refs@), inserts@, sorted@, lo as int, dim);
        lemma_range_full_base(inserts@, sorted@, lo as int);
        lemma_empty_full();
    }
    while i < hi
        invariant
            lo <= i <= hi <= sorted@.len(),
            order_wf(sorted@, inserts@.len() as nat),
            inserts_wf(inserts@, dim),
            rows@.len() + refs@.len() == i - lo,
            items_spanned(row_items(rows@), inserts@, sorted@, lo as int, hi as int, dim),
            items_spanned(ref_items(refs@), inserts@, sorted@, lo as int, hi as int, dim),
            range_covered(row_items(rows@), ref_items(refs@), inserts@, sorted@, lo as int, i as int, dim),
            row_items(rows@).to_multiset().add(ref_items(refs@).to_multiset()) == range_full(
                inserts@,
                sorted@,
                lo as int,
                i as int,
            ),
            rows_len(rows@, rows@.len() as nat) + refs_len(refs@, refs@.len() as nat) + 4 * (i - lo) <= records_len(
                inserts@,
                sorted@,
                lo as int,
                i as int,
            ),
            rows@.len() == payloads(inserts@, sorted@, lo as int, i as int),
            rows_len(rows@, rows@.len() as nat) + refs_len(refs@, refs@.len() as nat) == items_len(
                inserts@,
                sorted@,
                lo as int,
                i as int,
            ),
        decreases hi - i,
    {
        let j = sorted[i];
        let ghost r0 = row_items(rows@);
        let ghost f0 = ref_items(refs@);
        proof {
            lemma_self_spanned(inserts@, sorted@, lo as int, hi as int, i as int, dim);
        }
        match &inserts[j].1 {
            InsertValue::Value(v) => {
                let ghost before = rows@;
                let p = clone_point(&inserts[j].0);
                let c: Value = (*v).clone();
                rows.push((p, c));
                proof {
                    lemma_rows_len_push(before, (p, c));
                    let it = ins_item(inserts@, j as int);
                    assert(row_items(rows@) =~= row_items(before).push(it));
                    lemma_items_spanned_push(row_items(before), it, inserts@, sorted@, lo as int, hi as int, dim);
                    lemma_leaf_step(r0, f0, it, false, inserts@, sorted@, lo as int, i as int, dim);
                }
            },
            InsertValue::Ref(r) => {
                let ghost before = refs@;
                refs.push(r.clone());
                proof {
                    lemma_refs_len_push(before, refs@[before.len() as int]);
                    let it = ins_item(inserts@, j as int);
                    assert(ref_items(refs@) =~= ref_items(before).push(it));
                    lemma_items_spanned_push(ref_items(before), it, inserts@, sorted@, lo as int, hi as int, dim);
                    lemma_leaf_step(r0, f0, it, true, inserts@, sorted@, lo as int, i as int, dim);
                }
            },
        }
        i += 1;
    }
    let node = Node::Data(rows, refs);
    proof {
        lemma_leaf_reckoned(rows@, refs@, records_len(inserts@, sorted@, lo as int, hi as int) as int);
        lemma_items_spanned_wf(row_items(rows@), inserts@, sorted@, lo as int, hi as int, dim);
        lemma_items_spanned_wf(ref_items(refs@), inserts@, sorted@, lo as int, hi as int, dim);
        lemma_leaf_placed(node, dim);
    }
    node
}

/// The leaf that holds the given references and nothing else.
pub fn refs_leaf(refs: Vec<TreeRef>, Ghost(dim): Ghost<nat>) -> (node: Node)
    requires
        items_wf(ref_items(refs@), dim),
    ensures
        forall|level: nat| node_placed(node, level, dim),
        node_items(node, false) == Seq::<Item>::empty(),
        node_items(node, true) == ref_items(refs@),
        node matches Node::Data(rows, rs) && rows@.len() == 0 && rs@ == refs@,
{
    let rows: Vec<Row> = Vec::new();
    assert(row_items(rows@) =~= Seq::<Item>::empty());
    let node = Node::Data(rows, refs);
    proof {
        lemma_leaf_placed(node, dim);
    }
    node
}

/// What the intersection children hold is spanned when what each holds is.
proof fn lemma_bucket_items_spanned(
    v: Seq<(u32, Node)>,
    n: nat,
    refs: bool,
    inserts: Seq<Insert>,
    s: Seq<usize>,
    lo: int,
    hi: int,
    dim: nat,
)
    requires
        n <= v.len(),
        forall|i: int|
            0 <= i < v.len() ==> items_spanned(node_items((#[trigger] v[i]).1, refs), inserts, s, lo, hi, dim),
    ensures
        items_spanned(bucket_items(v, n, refs), inserts, s, lo, hi, dim),
    decreases n,
{
    if n > 0 {
        lemma_bucket_items_spanned(v, (n - 1) as nat, refs, inserts, s, lo, hi, dim);
        let x = bucket_items(v, (n - 1) as nat, refs);
        let y = node_items(v[n - 1].1, refs);
        lemma_items_spanned_add(x, y, inserts, s, lo, hi, dim);
    } else {
        lemma_items_spanned_empty(inserts, s, lo, hi, dim);
    }
}

/// What the gap children hold is spanned when what each holds is.
proof fn lemma_gap_items_spanned(
    v: Seq<Node>,
    n: nat,
    refs: bool,
    inserts: Seq<Insert>,
    s: Seq<usize>,
    lo: int,
    hi: int,
    dim: nat,
)
    requires
        n <= v.len(),
        forall|i: int| 0 <= i < v.len() ==> items_spanned(node_items(#[trigger] v[i], refs), inserts, s, lo, hi, dim),
    ensures
        items_spanned(gap_items(v, n, refs), inserts, s, lo, hi, dim),
    decreases n,
{
    if n > 0 {
        lemma_gap_items_spanned(v, (n - 1) as nat, refs, inserts, s, lo, hi, dim);
        let x = gap_items(v, (n - 1) as nat, refs);
        let y = node_items(v[n - 1], refs);
        lemma_items_spanned_add(x, y, inserts, s, lo, hi, dim);
    } else {
        lemma_items_spanned_empty(inserts, s, lo, hi, dim);
    }
}

/// What the builder has shown of an intersection child.
pub open spec fn bucket_ok(
    c: Node,
    m: u32,
    a: int,
    pivots: Seq<i64>,
    level: nat,
    dim: nat,
    inserts: Seq<Insert>,
    s: Seq<usize>,
    lo: int,
    hi: int,
) -> bool {
    &&& node_placed(c, level, dim)
    &&& mask_used(pivots, m)
    &&& items_touch(node_items(c, false), a, pivots, m)
    &&& items_touch(node_items(c, true), a, pivots, m)
    &&& items_spanned(node_items(c, false), inserts, s, lo, hi, dim)
    &&& items_spanned(node_items(c, true), inserts, s, lo, hi, dim)
}

/// What the builder has shown of a gap child.
pub open spec fn gap_ok(
    c: Node,
    k: int,
    a: int,
    pivots: Seq<i64>,
    level: nat,
    dim: nat,
    inserts: Seq<Insert>,
    s: Seq<usize>,
    lo: int,
    hi: int,
) -> bool {
    &&& node_placed(c, level, dim)
    &&& items_in_gap(node_items(c, false), a, pivots, k)
    &&& items_in_gap(node_items(c, true), a, pivots, k)
    &&& items_spanned(node_items(c, false), inserts, s, lo, hi, dim)
    &&& items_spanned(node_items(c, true), inserts, s, lo, hi, dim)
}

/// A branch is placed when its pivots ascend and each child is placed and
/// holds what belongs under it; what it holds is spanned when what each
/// child holds is.
proof fn lemma_branch_placed(
    node: Node,
    level: nat,
    dim: nat,
    inserts: Seq<Insert>,
    s: Seq<usize>,
    lo: int,
    hi: int,
)
    requires
        dim > 0,
        node matches Node::Branch(b) && {
            &&& 1 <= b.pivots@.len() <= 32
            &&& b.nodes@.len() == b.pivots@.len() + 1
            &&& ascending(b.pivots@)
            &&& forall|i: int|
                0 <= i < b.intersections@.len() ==> bucket_ok(
                    (#[trigger] b.intersections@[i]).1,
                    b.intersections@[i].0,
                    (level % dim) as int,
                    b.pivots@,
                    level + 1,
                    dim,
                    inserts,
                    s,
                    lo,
                    hi,
                )
            &&& forall|k: int|
                0 <= k < b.nodes@.len() ==> gap_ok(
                    #[trigger] b.nodes@[k],
                    k,
                    (level % dim) as int,
                    b.pivots@,
                    level + 1,
                    dim,
                    inserts,
                    s,
                    lo,
                    hi,
                )
        },
    ensures
        node_placed(node, level, dim),
        items_spanned(node_items(node, false), inserts, s, lo, hi, dim),
        items_spanned(node_items(node, true), inserts, s, lo, hi, dim),
{
    reveal(node_placed);
    match node {
        Node::Branch(b) => {
            lemma_bucket_items_spanned(b.intersections@, b.intersections@.len(), false, inserts, s, lo, hi, dim);
            lemma_bucket_items_spanned(b.intersections@, b.intersections@.len(), true, inserts, s, lo, hi, dim);
            lemma_gap_items_spanned(b.nodes@, b.nodes@.len(), false, inserts, s, lo, hi, dim);
            lemma_gap_items_spanned(b.nodes@, b.nodes@.len(), true, inserts, s, lo, hi, dim);
            lemma_items_spanned_add(
                bucket_items(b.intersections@, b.intersections@.len(), false),
                gap_items(b.nodes@, b.nodes@.len(), false),
                inserts,
                s,
                lo,
                hi,
                dim,
            );
            lemma_items_spanned_add(
                bucket_items(b.intersections@, b.intersections@.len(), true),
                gap_items(b.nodes@, b.nodes@.len(), true),
                inserts,
                s,
                lo,
                hi,
                dim,
            );
        },
        Node::Data(..) => {},
    }
}

impl<'a> MState<'a> {
    /// Moves the inserts of the positions `[lo, hi)` out into a tree of their
    /// own, a single leaf, under the next free id, and returns the reference
    /// to it with the tight box around them.
    pub fn ext_leaf(&mut self, lo: usize, hi: usize, Ghost(dim): Ghost<nat>) -> (tr: TreeRef)
        requires
            old(self).wf(dim),
            lo < hi <= old(self).sorted@.len(),
            old(self).next_tree < u64::MAX,
            seg_bound(
                old(self).inserts@,
                old(self).sorted@,
                lo as int,
                hi as int,
                old(self).fields.inline,
                old(self).fields.max_tree_bytes,
            ),
        ensures
            final(self).wf(dim),
            final(self).sorted == old(self).sorted,
            final(self).inserts == old(self).inserts,
            final(self).fields == old(self).fields,
            final(self).next_tree == old(self).next_tree + 1,
            tr.id == old(self).next_tree,
            tight_box(tr.bounds@, old(self).inserts@, old(self).sorted@, lo as int, hi as int, dim),
            spanned(tr.bounds@, old(self).inserts@, old(self).sorted@, lo as int, hi as int, dim),
            trees_grow(
                old(self).ext_trees@,
                final(self).ext_trees@,
                old(self).next_tree as int,
                old(self).next_tree + 1,
            ),
            trees_placed(final(self).ext_trees@, old(self).next_tree as int, old(self).next_tree + 1, dim),
            trees_fit(
                final(self).ext_trees@,
                old(self).next_tree as int,
                old(self).next_tree + 1,
                old(self).fields.inline,
                old(self).fields.max_tree_bytes,
            ),
            leaf_reckoned(final(self).ext_trees@[tr.id], old(self).inserts@, old(self).sorted@, lo as int, hi as int),
            content_eq(
                Multiset::singleton(ref_item(tr)),
                final(self).ext_trees@,
                tree_boxes(final(self).ext_trees@, dim),
                old(self).next_tree as int,
                old(self).next_tree + 1,
                old(self).inserts@,
                old(self).sorted@,
                lo as int,
                hi as int,
            ),
    {
        broadcast use vstd::std_specs::hash::group_hash_axioms;

        let r = self.next_tree;
        let first = self.sorted[lo];
        let d = self.inserts[first].0.len();
        let bounds = get_bounds(&self.sorted, self.inserts, lo, hi, d);
        let tr = TreeRef { id: r, bounds };
        self.next_tree = r + 1;
        let root = build_data(&self.sorted, self.inserts, lo, hi, Ghost(dim));
        let t = Tree::new(root);
        let ghost e0 = self.ext_trees@;
        proof {
            let l = lo as int;
            let h = hi as int;
            let e1 = e0.insert(r, t);
            lemma_tight_transfer(
                tr.bounds@,
                node_items(root, false),
                node_items(root, true),
                self.inserts@,
                self.sorted@,
                l,
                h,
                dim,
            );
            lemma_node_box(tr.bounds@, root, dim);
            lemma_trees_grow_insert(e0, r, t, dim);
            lemma_fit_insert(e0, r, t, self.fields.inline, self.fields.max_tree_bytes);
            lemma_content_leaf(
                full_ms(root),
                e0,
                tree_boxes(e0, dim),
                r + 1,
                self.inserts@,
                self.sorted@,
                l,
                h,
            );
            lemma_trees_same_insert(e0, r, t, r + 1, r + 1, dim);
            lemma_content_out(
                root,
                e0,
                e1,
                tree_boxes(e0, dim),
                tree_boxes(e1, dim),
                r as int,
                r + 1,
                self.inserts@,
                self.sorted@,
                l,
                h,
            );
        }
        self.ext_trees.insert(r, t);
        tr
    }

    /// Moves each of the ranges out into a leaf tree of its own and returns
    /// the leaf that holds the references to them.
    pub fn ext_segments(
        &mut self,
        segs: &Vec<(usize, usize)>,
        Ghost(lo): Ghost<int>,
        Ghost(hi): Ghost<int>,
        Ghost(dim): Ghost<nat>,
    ) -> (node: Node)
        requires
            old(self).wf(dim),
            tiled(segs@, lo, hi),
            0 <= lo,
            hi <= old(self).sorted@.len(),
            old(self).next_tree + segs@.len() <= u64::MAX,
            forall|k: int|
                0 <= k < segs@.len() ==> seg_bound(
                    old(self).inserts@,
                    old(self).sorted@,
                    (#[trigger] segs@[k]).0 as int,
                    segs@[k].1 as int,
                    old(self).fields.inline,
                    old(self).fields.max_tree_bytes,
                ),
        ensures
            final(self).wf(dim),
            final(self).sorted == old(self).sorted,
            final(self).inserts == old(self).inserts,
            final(self).fields == old(self).fields,
            final(self).next_tree == old(self).next_tree + segs@.len(),
            segs@.len() <= hi - lo,
            trees_grow(
                old(self).ext_trees@,
                final(self).ext_trees@,
                old(self).next_tree as int,
                final(self).next_tree as int,
            ),
            trees_placed(final(self).ext_trees@, old(self).next_tree as int, final(self).next_tree as int, dim),
            trees_fit(
                final(self).ext_trees@,
                old(self).next_tree as int,
                final(self).next_tree as int,
                old(self).fields.inline,
                old(self).fields.max_tree_bytes,
            ),
            leaf_fits(node, old(self).fields.inline, old(self).fields.max_tree_bytes),
            all_linked(
                final(self).ext_trees@,
                node_items(node, false),
                node_items(node, true),
                old(self).next_tree as int,
                final(self).next_tree as int,
            ),
            node matches Node::Data(rows, rs) && rows@.len() == 0 && leaves_of(
                final(self).ext_trees@,
                rs@,
                old(self).next_tree as int,
                old(self).inserts@,
                old(self).sorted@,
                segs@,
            ),
            forall|k: int|
                0 <= k < segs@.len() ==> leaf_reckoned(
                    final(self).ext_trees@[(old(self).next_tree + k) as u64],
                    old(self).inserts@,
                    old(self).sorted@,
                    (#[trigger] segs@[k]).0 as int,
                    segs@[k].1 as int,
                ),
            forall|level: nat| node_placed(node, level, dim),
            node_items(node, false) == Seq::<Item>::empty(),
            items_spanned(node_items(node, true), old(self).inserts@, old(self).sorted@, lo, hi, dim),
            node_covers(node, old(self).inserts@, old(self).sorted@, lo, hi, dim),
            content_eq(
                full_ms(node),
                final(self).ext_trees@,
                tree_boxes(final(self).ext_trees@, dim),
                old(self).next_tree as int,
                final(self).next_tree as int,
                old(self).inserts@,
                old(self).sorted@,
                lo,
                hi,
            ),
    {
        let ghost e0 = self.ext_trees@;
        let ghost n0 = self.next_tree as int;
        let ghost s = self.sorted@;
        let ghost ins = self.inserts@;
        let ghost none = Seq::<Item>::empty();
        let mut refs: Vec<TreeRef> = Vec::new();
        let mut i: usize = 0;
        let ghost mut pos: int = lo;
        proof {
            lemma_tiled_up(segs@, lo, hi, segs@.len() - 1);
            lemma_trees_grow_refl(e0, n0);
            lemma_fit_refl(e0, n0, self.fields.inline, self.fields.max_tree_bytes);
            lemma_items_spanned_empty(self.inserts@, s, lo, hi, dim);
            assert(ref_items(refs@) =~= Seq::<Item>::empty());
            lemma_same_range_refl(s, lo, hi);
            lemma_covered_none(none, ref_items(refs@), ins, s, lo, dim);
            lemma_empty_full();
            lemma_content_none(e0, tree_boxes(e0, dim), n0, ins, s, lo);
        }
        while i < segs.len()
            invariant
                i <= segs@.len(),
                self.wf(dim),
                self.sorted@ == s,
                self.sorted == old(self).sorted,
                self.inserts == old(self).inserts,
                self.fields == old(self).fields,
                tiled(segs@, lo, hi),
                0 <= lo,
                hi <= s.len(),
                same_range(s, s, lo, hi),
                n0 + segs@.len() <= u64::MAX,
                self.next_tree == n0 + i,
                refs@.len() == i,
                trees_grow(e0, self.ext_trees@, n0, n0 + i),
                trees_placed(self.ext_trees@, n0, n0 + i, dim),
                trees_fit(self.ext_trees@, n0, n0 + i, self.fields.inline, self.fields.max_tree_bytes),
                forall|k: int| 0 <= k < i ==> (#[trigger] refs@[k]).id == n0 + k,
                forall|k: int|
                    0 <= k < segs@.len() ==> seg_bound(
                        ins,
                        s,
                        (#[trigger] segs@[k]).0 as int,
                        segs@[k].1 as int,
                        self.fields.inline,
                        self.fields.max_tree_bytes,
                    ),
                forall|k: int|
                    0 <= k < i ==> leaf_reckoned(
                        self.ext_trees@[(n0 + k) as u64],
                        ins,
                        s,
                        (#[trigger] segs@[k]).0 as int,
                        segs@[k].1 as int,
                    ),
                items_spanned(ref_items(refs@), self.inserts@, s, lo, hi, dim),
                ins == self.inserts@,
                none == Seq::<Item>::empty(),
                0 <= n0,
                lo <= pos <= hi,
                i < segs@.len() ==> pos == segs@[i as int].0,
                i == segs@.len() ==> pos == hi,
                range_covered(none, ref_items(refs@), ins, s, lo, pos, dim),
                content_eq(
                    ref_items(refs@).to_multiset(),
                    self.ext_trees@,
                    tree_boxes(self.ext_trees@, dim),
                    n0,
                    n0 + i,
                    ins,
                    s,
                    lo,
                    pos,
                ),
            decreases segs@.len() - i,
        {
            let (a, b) = segs[i];
            proof {
                lemma_tiled_up(segs@, lo, hi, i as int);
                lemma_tiled_down(segs@, lo, hi, i as int);
            }
            let ghost e1 = self.ext_trees@;
            let ghost f0 = ref_items(refs@);
            let tr = self.ext_leaf(a, b, Ghost(dim));
            proof {
                broadcast use vstd::multiset::group_multiset_axioms;

                let e2 = self.ext_trees@;
                let it = ref_item(tr);
                let f1 = f0.push(it);
                lemma_trees_same(e1, e2, n0, n0 + i, n0 + i + 1, dim);
                assert forall|k: int| 0 <= k < i + 1 implies leaf_reckoned(
                    e2[(n0 + k) as u64],
                    ins,
                    s,
                    (#[trigger] segs@[k]).0 as int,
                    segs@[k].1 as int,
                ) by {
                    if k < i {
                        assert(e1[(n0 + k) as u64] == e2[(n0 + k) as u64]);
                    }
                }
                lemma_trees_grow_trans(e0, e1, e2, n0, n0 + i, n0 + i + 1);
                lemma_trees_placed_grow(e1, e2, n0, n0 + i, n0 + i + 1, dim);
                lemma_fit_grow(e1, e2, n0, n0 + i, n0 + i + 1, self.fields.inline, self.fields.max_tree_bytes);
                lemma_spanned_move(tr.bounds@, ins, s, s, a as int, b as int, lo, hi, dim);
                lemma_items_spanned_push(f0, it, ins, s, lo, hi, dim);
                assert(ref_items(refs@.push(tr)) =~= f1);
                // the new reference covers its range
                assert forall|x: Item| #[trigger] among(none, f0, x) implies among(none, f1, x) by {
                    if f0.contains(x) {
                        let k = choose|k: int| 0 <= k < f0.len() && f0[k] == x;
                        assert(f1[k] == x);
                    }
                }
                assert(f1[f0.len() as int] == it);
                assert(among(none, f1, it));
                lemma_covered_part(none, f0, none, f1, ins, s, s, lo, pos, lo, pos, dim);
                lemma_box_reaches(it, ins, s, a as int, b as int, a as int, b as int, dim);
                lemma_covered_by_one(none, f1, it, ins, s, a as int, b as int, dim);
                lemma_covered_join(none, f1, ins, s, lo, a as int, b as int, dim);
                // and it joins what is held
                lemma_content_join(
                    f0.to_multiset(),
                    Multiset::singleton(it),
                    e1,
                    e2,
                    tree_boxes(e1, dim),
                    tree_boxes(e2, dim),
                    n0,
                    n0 + i,
                    n0 + i + 1,
                    ins,
                    s,
                    s,
                    lo,
                    a as int,
                    b as int,
                );
                f0.to_multiset_ensures();
                assert(f1.to_multiset() =~= f0.to_multiset().add(Multiset::singleton(it)));
                pos = b as int;
                if i + 1 < segs@.len() {
                    assert(segs@[i as int].1 == segs@[i + 1].0);
                }
            }
            refs.push(tr);
            i += 1;
        }
        proof {
            lemma_items_spanned_wf(ref_items(refs@), self.inserts@, s, lo, hi, dim);
            lemma_empty_full();
            broadcast use vstd::multiset::group_multiset_axioms;
            assert(none.to_multiset().add(ref_items(refs@).to_multiset()) =~= ref_items(refs@).to_multiset());
            assert forall|k: int| 0 <= k < ref_items(refs@).len() implies (#[trigger] ref_items(refs@)[k]) is Ref
                && item_id(ref_items(refs@)[k]) == n0 + k by {
                assert(ref_items(refs@)[k] == ref_item(refs@[k]));
            }
            lemma_linked_direct(self.ext_trees@, none, ref_items(refs@), n0, n0 + i);
        }
        refs_leaf(refs, Ghost(dim))
    }
}

/// The size of the first `n` intersection children depends on those
/// children alone.
proof fn lemma_buckets_len_same(v: Seq<(u32, Node)>, w: Seq<(u32, Node)>, n: nat)
    requires
        n <= v.len(),
        n <= w.len(),
        forall|i: int| 0 <= i < n ==> v[i] == w[i],
    ensures
        buckets_len(v, n) == buckets_len(w, n),
    decreases n,
{
    if n > 0 {
        lemma_buckets_len_same(v, w, (n - 1) as nat);
    }
}

/// The size of the first `n` gap children depends on those children alone.
proof fn lemma_gaps_len_same(v: Seq<Node>, w: Seq<Node>, n: nat)
    requires
        n <= v.len(),
        n <= w.len(),
        forall|i: int| 0 <= i < n ==> v[i] == w[i],
    ensures
        gaps_len(v, n) == gaps_len(w, n),
    decreases n,
{
    if n > 0 {
        lemma_gaps_len_same(v, w, (n - 1) as nat);
    }
}

/// The size of the children built so far.
pub open spec fn held_len(v: Seq<(u32, Node)>, w: Seq<Node>) -> nat {
    buckets_len(v, v.len()) + gaps_len(w, w.len())
}

/// One child more takes its size more.
proof fn lemma_held_len_grow(v: Seq<(u32, Node)>, w: Seq<Node>, m: u32, c: Node, bucket: bool)
    ensures
        bucket ==> held_len(v.push((m, c)), w) == held_len(v, w) + child_len(c),
        !bucket ==> held_len(v, w.push(c)) == held_len(v, w) + child_len(c),
{
    if bucket {
        lemma_buckets_len_same(v, v.push((m, c)), v.len());
    } else {
        lemma_gaps_len_same(w, w.push(c), w.len());
    }
}

/// What the children built so far hold: the records, or with `refs` the
/// references.
pub open spec fn held_items(v: Seq<(u32, Node)>, w: Seq<Node>, refs: bool) -> Seq<Item> {
    bucket_items(v, v.len(), refs) + gap_items(w, w.len(), refs)
}

/// Everything that the children built so far hold.
pub open spec fn held_ms(v: Seq<(u32, Node)>, w: Seq<Node>) -> Multiset<Item> {
    buckets_full(v, v.len()).add(gaps_full(w, w.len()))
}

/// With one more child, the children hold what they held and what the new
/// child holds.
proof fn lemma_held_grow(v: Seq<(u32, Node)>, w: Seq<Node>, m: u32, c: Node, bucket: bool)
    ensures
        ({
            let v2 = if bucket {
                v.push((m, c))
            } else {
                v
            };
            let w2 = if bucket {
                w
            } else {
                w.push(c)
            };
            &&& forall|x: Item| #[trigger]
                among(held_items(v, w, false), held_items(v, w, true), x) ==> among(
                    held_items(v2, w2, false),
                    held_items(v2, w2, true),
                    x,
                )
            &&& forall|x: Item| #[trigger]
                among(node_items(c, false), node_items(c, true), x) ==> among(
                    held_items(v2, w2, false),
                    held_items(v2, w2, true),
                    x,
                )
            &&& held_ms(v2, w2) == held_ms(v, w).add(full_ms(c))
        }),
{
    broadcast use vstd::multiset::group_multiset_axioms;

    let v2 = if bucket {
        v.push((m, c))
    } else {
        v
    };
    let w2 = if bucket {
        w
    } else {
        w.push(c)
    };
    if bucket {
        lemma_bucket_items_prefix(v, v2, v.len(), false);
        lemma_bucket_items_prefix(v, v2, v.len(), true);
        lemma_buckets_full_push(v, (m, c));
    } else {
        lemma_gap_items_prefix(w, w2, w.len(), false);
        lemma_gap_items_prefix(w, w2, w.len(), true);
        lemma_gaps_full_push(w, c);
    }
    assert(held_ms(v2, w2) =~= held_ms(v, w).add(full_ms(c)));
    assert forall|x: Item| #[trigger]
        among(held_items(v, w, false), held_items(v, w, true), x) implies among(
        held_items(v2, w2, false),
        held_items(v2, w2, true),
        x,
    ) by {
        lemma_held_among(v, w, m, c, bucket, false, x);
        lemma_held_among(v, w, m, c, bucket, true, x);
    }
    assert forall|x: Item| #[trigger]
        among(node_items(c, false), node_items(c, true), x) implies among(
        held_items(v2, w2, false),
        held_items(v2, w2, true),
        x,
    ) by {
        lemma_held_among(v, w, m, c, bucket, false, x);
        lemma_held_among(v, w, m, c, bucket, true, x);
    }
}

/// With one more child, an item is held if it was held or the child holds it.
proof fn lemma_held_among(v: Seq<(u32, Node)>, w: Seq<Node>, m: u32, c: Node, bucket: bool, refs: bool, x: Item)
    ensures
        ({
            let v2 = if bucket {
                v.push((m, c))
            } else {
                v
            };
            let w2 = if bucket {
                w
            } else {
                w.push(c)
            };
            held_items(v2, w2, refs).contains(x) <==> held_items(v, w, refs).contains(x) || node_items(
                c,
                refs,
            ).contains(x)
        }),
{
    let b0 = bucket_items(v, v.len(), refs);
    let g0 = gap_items(w, w.len(), refs);
    let n = node_items(c, refs);
    lemma_contains_add(b0, g0, x);
    if bucket {
        let v2 = v.push((m, c));
        lemma_bucket_items_prefix(v, v2, v.len(), refs);
        assert(bucket_items(v2, v2.len(), refs) == b0 + n);
        lemma_contains_add(b0, n, x);
        lemma_contains_add(b0 + n, g0, x);
    } else {
        let w2 = w.push(c);
        lemma_gap_items_prefix(w, w2, w.len(), refs);
        assert(gap_items(w2, w2.len(), refs) == g0 + n);
        lemma_contains_add(g0, n, x);
        lemma_contains_add(b0, g0 + n, x);
    }
}

/// What the builder has shown of the children once `g` groups are built.
pub open spec fn children_ok(
    intersections: Seq<(u32, Node)>,
    nodes: Seq<Node>,
    masks: Seq<u32>,
    g: int,
    a: int,
    pivots: Seq<i64>,
    level: nat,
    dim: nat,
    inserts: Seq<Insert>,
    s: Seq<usize>,
    lo: int,
    hi: int,
) -> bool {
    &&& intersections.len() == if g < masks.len() {
        g
    } else {
        masks.len() as int
    }
    &&& nodes.len() == if g < masks.len() {
        0
    } else {
        g - masks.len()
    }
    &&& forall|i: int|
        0 <= i < intersections.len() ==> (#[trigger] intersections[i]).0 == masks[i] && bucket_ok(
            intersections[i].1,
            masks[i],
            a,
            pivots,
            level,
            dim,
            inserts,
            s,
            lo,
            hi,
        )
    &&& forall|k: int|
        0 <= k < nodes.len() ==> gap_ok(#[trigger] nodes[k], k, a, pivots, level, dim, inserts, s, lo, hi)
}

/// The children with one more built.
proof fn lemma_children_push(
    intersections: Seq<(u32, Node)>,
    nodes: Seq<Node>,
    masks: Seq<u32>,
    g: int,
    a: int,
    pivots: Seq<i64>,
    level: nat,
    dim: nat,
    inserts: Seq<Insert>,
    s: Seq<usize>,
    lo: int,
    hi: int,
    c: Node,
)
    requires
        0 <= g,
        children_ok(intersections, nodes, masks, g, a, pivots, level, dim, inserts, s, lo, hi),
        g < masks.len() ==> bucket_ok(c, masks[g], a, pivots, level, dim, inserts, s, lo, hi),
        g >= masks.len() ==> gap_ok(c, g - masks.len(), a, pivots, level, dim, inserts, s, lo, hi),
    ensures
        g < masks.len() ==> children_ok(
            intersections.push((masks[g], c)),
            nodes,
            masks,
            g + 1,
            a,
            pivots,
            level,
            dim,
            inserts,
            s,
            lo,
            hi,
        ),
        g >= masks.len() ==> children_ok(
            intersections,
            nodes.push(c),
            masks,
            g + 1,
            a,
            pivots,
            level,
            dim,
            inserts,
            s,
            lo,
            hi,
        ),
{
    if g < masks.len() {
        let v = intersections.push((masks[g], c));
        assert forall|i: int| 0 <= i < v.len() implies (#[trigger] v[i]).0 == masks[i] && bucket_ok(
            v[i].1,
            masks[i],
            a,
            pivots,
            level,
            dim,
            inserts,
            s,
            lo,
            hi,
        ) by {
            if i < intersections.len() {
                assert(v[i] == intersections[i]);
            }
        }
    } else {
        let v = nodes.push(c);
        assert forall|k: int| 0 <= k < v.len() implies gap_ok(
            #[trigger] v[k],
            k,
            a,
            pivots,
            level,
            dim,
            inserts,
            s,
            lo,
            hi,
        ) by {
            if k < nodes.len() {
                assert(v[k] == nodes[k]);
            }
        }
    }
}

impl<'a> MState<'a> {
    /// Builds the children of a branch over the range of `build`, one for
    /// each group, each from its own part of the range sorted by the next
    /// axis. `bytes` is the running count of the tree: each child begins
    /// with what the children before it left.
    pub fn build_children(
        &mut self,
        build: &Build,
        groups: &Groups,
        pivots: &Vec<i64>,
        is_rm: bool,
        axis: usize,
        next_axis: usize,
        bytes: &mut usize,
        Ghost(dim): Ghost<nat>,
    ) -> (r: (Vec<(u32, Node)>, Vec<Node>))
        requires
            old(self).wf(dim),
            build.range.0 < build.range.1 <= old(self).sorted@.len(),
            build.level < usize::MAX,
            axis < dim,
            next_axis < dim,
            build.count + (build.range.1 - build.range.0) <= usize::MAX,
            1 <= pivots@.len() <= 32,
            groups_wf(
                groups.masks@,
                groups.cuts@,
                build.range.0 as int,
                build.range.1 as int,
                pivots@.len() as int,
            ),
            groups_placed(
                old(self).inserts@,
                old(self).sorted@,
                groups.masks@,
                groups.cuts@,
                axis as int,
                pivots@,
                0,
                groups.cuts@.len() - 1,
            ),
            forall|g: int|
                0 <= g < groups.cuts@.len() - 1 ==> #[trigger] gsize(groups.cuts@, g) < build.range.1
                    - build.range.0,
            old(self).next_tree + 2 * (build.range.1 - build.range.0) - 2 <= u64::MAX,
        ensures
            final(self).wf(dim),
            final(self).inserts == old(self).inserts,
            final(self).fields == old(self).fields,
            same_range(old(self).sorted@, final(self).sorted@, build.range.0 as int, build.range.1 as int),
            old(self).next_tree <= final(self).next_tree <= old(self).next_tree + 2 * (build.range.1
                - build.range.0) - 2,
            trees_grow(
                old(self).ext_trees@,
                final(self).ext_trees@,
                old(self).next_tree as int,
                final(self).next_tree as int,
            ),
            trees_placed(final(self).ext_trees@, old(self).next_tree as int, final(self).next_tree as int, dim),
            trees_fit(
                final(self).ext_trees@,
                old(self).next_tree as int,
                final(self).next_tree as int,
                old(self).fields.inline,
                old(self).fields.max_tree_bytes,
            ),
            all_linked(
                final(self).ext_trees@,
                held_items(r.0@, r.1@, false),
                held_items(r.0@, r.1@, true),
                old(self).next_tree as int,
                final(self).next_tree as int,
            ),
            *final(bytes) == sat(*old(bytes) + held_len(r.0@, r.1@)),
            quiet(old(self).fields, is_rm, old(self).inserts@, *build) ==> final(self).next_tree == old(
                self,
            ).next_tree,
            r.1@.len() == pivots@.len() + 1,
            children_ok(
                r.0@,
                r.1@,
                groups.masks@,
                groups.cuts@.len() - 1,
                axis as int,
                pivots@,
                (build.level + 1) as nat,
                dim,
                old(self).inserts@,
                old(self).sorted@,
                build.range.0 as int,
                build.range.1 as int,
            ),
            range_covered(
                held_items(r.0@, r.1@, false),
                held_items(r.0@, r.1@, true),
                old(self).inserts@,
                final(self).sorted@,
                build.range.0 as int,
                build.range.1 as int,
                dim,
            ),
            content_eq(
                held_ms(r.0@, r.1@),
                final(self).ext_trees@,
                tree_boxes(final(self).ext_trees@, dim),
                old(self).next_tree as int,
                final(self).next_tree as int,
                old(self).inserts@,
                final(self).sorted@,
                build.range.0 as int,
                build.range.1 as int,
            ),
        decreases build.range.1 - build.range.0, 0int, 0int,
    {
        let lo = build.range.0;
        let hi = build.range.1;
        let rlen = hi - lo;
        let ghost s0 = self.sorted@;
        let ghost e0 = self.ext_trees@;
        let ghost n0 = self.next_tree as int;
        let ghost ins = self.inserts@;
        let ghost a = axis as int;
        let ghost masks = groups.masks@;
        let ghost cuts = groups.cuts@;
        let ghost lv = (build.level + 1) as nat;
        let b = groups.masks.len();
        let total = groups.cuts.len() - 1;
        let mut intersections: Vec<(u32, Node)> = Vec::new();
        let mut nodes: Vec<Node> = Vec::new();
        let mut g: usize = 0;
        let ghost mut ne: int = 0;
        proof {
            lemma_same_range_refl(s0, lo as int, hi as int);
            lemma_trees_grow_refl(e0, n0);
            lemma_fit_refl(e0, n0, self.fields.inline, self.fields.max_tree_bytes);
            lemma_linked_none(
                e0,
                held_items(intersections@, nodes@, false),
                held_items(intersections@, nodes@, true),
                n0,
            );
            lemma_empty_full();
            assert(held_items(intersections@, nodes@, false) =~= Seq::<Item>::empty());
            assert(held_items(intersections@, nodes@, true) =~= Seq::<Item>::empty());
            lemma_covered_none(
                held_items(intersections@, nodes@, false),
                held_items(intersections@, nodes@, true),
                ins,
                s0,
                lo as int,
                dim,
            );
            lemma_content_none(e0, tree_boxes(e0, dim), n0, ins, s0, lo as int);
            assert(held_ms(intersections@, nodes@) =~= Multiset::<Item>::empty()) by {
                broadcast use vstd::multiset::group_multiset_axioms;

            }
        }
        while g < total
            invariant
                g <= total,
                total == cuts.len() - 1,
                b == masks.len(),
                masks == groups.masks@,
                cuts == groups.cuts@,
                lo == build.range.0,
                hi == build.range.1,
                rlen == hi - lo,
                lo < hi <= s0.len(),
                s0.len() == ins.len(),
                a == axis as int,
                axis < dim,
                next_axis < dim,
                lv == build.level + 1,
                build.level < usize::MAX,
                build.count + rlen <= usize::MAX,
                1 <= pivots@.len() <= 32,
                self.wf(dim),
                self.inserts == old(self).inserts,
                self.fields == old(self).fields,
                ins == self.inserts@,
                groups_wf(masks, cuts, lo as int, hi as int, pivots@.len() as int),
                forall|x: int| 0 <= x < cuts.len() - 1 ==> #[trigger] gsize(cuts, x) < rlen,
                same_range(s0, self.sorted@, lo as int, hi as int),
                groups_placed(ins, self.sorted@, masks, cuts, a, pivots@, g as int, total as int),
                children_ok(
                    intersections@,
                    nodes@,
                    masks,
                    g as int,
                    a,
                    pivots@,
                    lv,
                    dim,
                    ins,
                    s0,
                    lo as int,
                    hi as int,
                ),
                n0 + 2 * rlen - 2 <= u64::MAX,
                0 <= ne,
                n0 <= self.next_tree <= n0 + 2 * (cuts[g as int] - lo) - ne,
                ne == 0 ==> cuts[g as int] == lo,
                ne == 1 ==> cuts[g as int] - lo < rlen,
                trees_grow(e0, self.ext_trees@, n0, self.next_tree as int),
                trees_placed(self.ext_trees@, n0, self.next_tree as int, dim),
                trees_fit(self.ext_trees@, n0, self.next_tree as int, self.fields.inline, self.fields.max_tree_bytes),
                all_linked(
                    self.ext_trees@,
                    held_items(intersections@, nodes@, false),
                    held_items(intersections@, nodes@, true),
                    n0,
                    self.next_tree as int,
                ),
                *bytes == sat(*old(bytes) + held_len(intersections@, nodes@)),
                quiet(self.fields, is_rm, ins, *build) ==> self.next_tree == n0,
                0 <= n0,
                range_covered(
                    held_items(intersections@, nodes@, false),
                    held_items(intersections@, nodes@, true),
                    ins,
                    self.sorted@,
                    lo as int,
                    cuts[g as int] as int,
                    dim,
                ),
                content_eq(
                    held_ms(intersections@, nodes@),
                    self.ext_trees@,
                    tree_boxes(self.ext_trees@, dim),
                    n0,
                    self.next_tree as int,
                    ins,
                    self.sorted@,
                    lo as int,
                    cuts[g as int] as int,
                ),
            decreases total - g,
        {
            let cs = groups.cuts[g];
            let ce = groups.cuts[g + 1];
            assert(cuts[0] <= cuts[g as int] <= cuts[g + 1] <= cuts[cuts.len() - 1]);
            assert(gsize(cuts, g as int) < rlen);
            let ghost s1 = self.sorted@;
            let ghost e1 = self.ext_trees@;
            let ghost n1 = self.next_tree as int;
            let mut child = Build {
                level: build.level + 1,
                range: (cs, ce),
                count: build.count + (rlen - (ce - cs)),
                bytes: *bytes,
            };
            sort_by_axis(&mut self.sorted, self.inserts, cs, ce, next_axis);
            let ghost s2 = self.sorted@;
            proof {
                lemma_order_wf_perm(s1, s2, cs as int, ce as int, ins.len() as nat);
                assert(group_fact(ins, s1, masks, cuts, g as int, a, pivots@));
                if g < b {
                    lemma_range_all_perm(ins, s1, s2, cs as int, ce as int, a, touch_fn(pivots@, masks[g as int]));
                } else {
                    lemma_range_all_perm(ins, s1, s2, cs as int, ce as int, a, gap_fn(pivots@, g - b));
                }
                lemma_same_range_widen(s1, s2, cs as int, ce as int, lo as int, hi as int);
                lemma_same_range_trans(s0, s1, s2, lo as int, hi as int);
            }
            let c = self.build(&mut child, is_rm, Ghost(dim));
            *bytes = child.bytes;
            let ghost s3 = self.sorted@;
            proof {
                lemma_same_range_trans(s1, s2, s3, cs as int, ce as int);
                lemma_same_range_widen(s2, s3, cs as int, ce as int, lo as int, hi as int);
                lemma_same_range_trans(s0, s2, s3, lo as int, hi as int);
                lemma_trees_grow_trans(e0, e1, self.ext_trees@, n0, n1, self.next_tree as int);
                lemma_trees_placed_grow(e1, self.ext_trees@, n0, n1, self.next_tree as int, dim);
                lemma_fit_grow(
                    e1,
                    self.ext_trees@,
                    n0,
                    n1,
                    self.next_tree as int,
                    self.fields.inline,
                    self.fields.max_tree_bytes,
                );
                let it0 = node_items(c, false);
                let it1 = node_items(c, true);
                if g < b {
                    let m = masks[g as int];
                    lemma_items_touch(it0, ins, s2, cs as int, ce as int, dim, a, pivots@, m);
                    lemma_items_touch(it1, ins, s2, cs as int, ce as int, dim, a, pivots@, m);
                } else {
                    lemma_items_in_gap(it0, ins, s2, cs as int, ce as int, dim, a, pivots@, g - b);
                    lemma_items_in_gap(it1, ins, s2, cs as int, ce as int, dim, a, pivots@, g - b);
                }
                lemma_items_spanned_move(it0, ins, s0, s2, cs as int, ce as int, lo as int, hi as int, dim);
                lemma_items_spanned_move(it1, ins, s0, s2, cs as int, ce as int, lo as int, hi as int, dim);
                lemma_groups_frame(ins, s1, s3, masks, cuts, a, pivots@, g + 1, total as int, cs as int, ce as int);
                // what is held covers one group more and holds it
                let v = intersections@;
                let w = nodes@;
                let mk = if g < b {
                    masks[g as int]
                } else {
                    0u32
                };
                let v2 = if g < b {
                    v.push((mk, c))
                } else {
                    v
                };
                let w2 = if g < b {
                    w
                } else {
                    w.push(c)
                };
                let e2 = self.ext_trees@;
                lemma_held_grow(v, w, mk, c, g < b);
                lemma_held_len_grow(v, w, mk, c, g < b);
                lemma_same_range_outside(s1, s3, cs as int, ce as int);
                lemma_covered_part(
                    held_items(v, w, false),
                    held_items(v, w, true),
                    held_items(v2, w2, false),
                    held_items(v2, w2, true),
                    ins,
                    s1,
                    s3,
                    lo as int,
                    cs as int,
                    lo as int,
                    cs as int,
                    dim,
                );
                lemma_covered_perm(it0, it1, ins, s2, s3, cs as int, ce as int, dim);
                lemma_covered_part(
                    it0,
                    it1,
                    held_items(v2, w2, false),
                    held_items(v2, w2, true),
                    ins,
                    s3,
                    s3,
                    cs as int,
                    ce as int,
                    cs as int,
                    ce as int,
                    dim,
                );
                lemma_covered_join(
                    held_items(v2, w2, false),
                    held_items(v2, w2, true),
                    ins,
                    s3,
                    lo as int,
                    cs as int,
                    ce as int,
                    dim,
                );
                lemma_same_range_sym(s2, s3, cs as int, ce as int);
                lemma_content_perm(
                    full_ms(c),
                    e2,
                    tree_boxes(e2, dim),
                    n1,
                    self.next_tree as int,
                    ins,
                    s3,
                    s2,
                    cs as int,
                    ce as int,
                );
                lemma_trees_same(e1, e2, n0, n1, self.next_tree as int, dim);
                lemma_linked_grow(
                    e1,
                    e2,
                    held_items(v, w, false),
                    held_items(v, w, true),
                    it0,
                    it1,
                    held_items(v2, w2, false),
                    held_items(v2, w2, true),
                    n0,
                    n1,
                    self.next_tree as int,
                );
                lemma_content_join(
                    held_ms(v, w),
                    full_ms(c),
                    e1,
                    e2,
                    tree_boxes(e1, dim),
                    tree_boxes(e2, dim),
                    n0,
                    n1,
                    self.next_tree as int,
                    ins,
                    s1,
                    s3,
                    lo as int,
                    cs as int,
                    ce as int,
                );
                lemma_children_push(
                    intersections@,
                    nodes@,
                    masks,
                    g as int,
                    a,
                    pivots@,
                    lv,
                    dim,
                    ins,
                    s0,
                    lo as int,
                    hi as int,
                    c,
                );
                if ce > cs {
                    ne = ne + 1;
                }
            }
            if g < b {
                let m = groups.masks[g];
                intersections.push((m, c));
            } else {
                nodes.push(c);
            }
            g += 1;
        }
        (intersections, nodes)
    }

    /// Moves the range of `build` out into a tree of its own that is built
    /// from its root, and returns the leaf that holds the reference to it.
    pub fn build_sub(&mut self, build: &Build, is_rm: bool, Ghost(dim): Ghost<nat>) -> (node: Node)
        requires
            ready(*old(self), *build, dim),
            build.range.1 - build.range.0 >= 3,
            build.range.1 - build.range.0 >= old(self).fields.inline,
            !fresh(*build),
        ensures
            built(*old(self), *final(self), *build, node, dim),
            node matches Node::Data(rows, rs) && rows@.len() == 0 && rs@.len() == 1 && rs@[0].id == old(
                self,
            ).next_tree,
            final(self).next_tree > old(self).next_tree,
        decreases build.range.1 - build.range.0, 1int, 2int,
    {
        broadcast use vstd::std_specs::hash::group_hash_axioms;

        let lo = build.range.0;
        let hi = build.range.1;
        let ghost s0 = self.sorted@;
        let ghost e0 = self.ext_trees@;
        let r = self.next_tree;
        let first = self.sorted[lo];
        let d = self.inserts[first].0.len();
        let bounds = get_bounds(&self.sorted, self.inserts, lo, hi, d);
        let tr = TreeRef { id: r, bounds };
        self.next_tree = r + 1;
        let mut sub = build.ext();
        proof {
            assert(ids_below(self.ext_trees@, r + 1));
        }
        let root = self.build(&mut sub, is_rm, Ghost(dim));
        let ghost e1 = self.ext_trees@;
        let t = Tree::new(root);
        let ghost it = ref_item(tr);
        let ghost none = Seq::<Item>::empty();
        proof {
            let l = lo as int;
            let h = hi as int;
            let e2 = e1.insert(r, t);
            let ins = self.inserts@;
            lemma_tight_transfer(tr.bounds@, node_items(root, false), node_items(root, true), ins, s0, l, h, dim);
            lemma_node_box(tr.bounds@, root, dim);
            lemma_trees_grow_front(e0, e1, r, self.next_tree as int, t, dim);
            lemma_fit_front(e1, r, self.next_tree as int, t, self.fields.inline, self.fields.max_tree_bytes);
            lemma_linked_under(e1, r, t, it, self.next_tree as int);
            lemma_trees_grow_below(e0, e2, r as int, self.next_tree as int);
            lemma_trees_same_insert(e1, r, t, r + 1, self.next_tree as int, dim);
            lemma_content_out(
                root,
                e1,
                e2,
                tree_boxes(e1, dim),
                tree_boxes(e2, dim),
                r as int,
                self.next_tree as int,
                ins,
                s0,
                l,
                h,
            );
            lemma_one_full(it);
            assert(seq![it][0] == it);
            assert(among(none, seq![it], it));
            lemma_box_reaches(it, ins, s0, l, h, l, h, dim);
            lemma_covered_by_one(none, seq![it], it, ins, s0, l, h, dim);
        }
        self.ext_trees.insert(r, t);
        let mut refs: Vec<TreeRef> = Vec::new();
        proof {
            assert(ref_items(refs@) =~= Seq::<Item>::empty());
            lemma_items_spanned_empty(self.inserts@, s0, lo as int, hi as int, dim);
            lemma_items_spanned_push(ref_items(refs@), ref_item(tr), self.inserts@, s0, lo as int, hi as int, dim);
            assert(ref_items(refs@.push(tr)) =~= ref_items(refs@).push(ref_item(tr)));
            assert(ref_items(refs@.push(tr)) =~= seq![it]);
        }
        refs.push(tr);
        proof {
            lemma_items_spanned_wf(ref_items(refs@), self.inserts@, s0, lo as int, hi as int, dim);
        }
        refs_leaf(refs, Ghost(dim))
    }

    /// Builds a branch over the range of `build`: picks the pivots, deals the
    /// range out to the children and builds them; where one child would hold
    /// the whole range, the range becomes a leaf instead.
    pub fn build_branch(&mut self, build: &Build, is_rm: bool, bytes: &mut usize, Ghost(dim): Ghost<nat>) -> (node:
        Node)
        requires
            ready(*old(self), *build, dim),
            build.range.1 - build.range.0 >= 3,
            build.range.1 - build.range.0 >= old(self).fields.inline,
            build.level < usize::MAX,
        ensures
            built(*old(self), *final(self), *build, node, dim),
            branch_shaped(
                old(self).fields,
                old(self).inserts@,
                old(self).sorted@,
                old(self).next_tree as int,
                final(self).next_tree as int,
                *build,
                dim,
                node,
            ),
            *final(bytes) == sat(*old(bytes) + child_len(node)),
            quiet(old(self).fields, is_rm, old(self).inserts@, *build) ==> final(self).next_tree == old(
                self,
            ).next_tree,
        decreases
                build.range.1 - build.range.0,
                if fresh(*build) {
                    0int
                } else {
                    1int
                },
                2int,
    {
        let lo = build.range.0;
        let hi = build.range.1;
        let rlen = hi - lo;
        let ghost s0 = self.sorted@;
        let ghost e0 = self.ext_trees@;
        let ghost n0 = self.next_tree as int;
        let ghost ins = self.inserts@;
        let first = self.sorted[lo];
        let d = self.inserts[first].0.len();
        assert(d == dim);
        let axis = build.level % d;
        let is_min = (build.level / d) % 2 != 0;
        proof {
            lemma_next_axis(build.level as nat, dim);
        }
        let pivots = select_pivots(
            &self.sorted,
            self.inserts,
            lo,
            hi,
            axis,
            is_min,
            self.fields.branch_factor,
            Ghost(dim),
        );
        let groups = split(&mut self.sorted, self.inserts, lo, hi, axis, &pivots, Ghost(dim));
        let ghost s1 = self.sorted@;
        // a group that holds the whole range would not divide it
        let mut full: bool = false;
        let mut g: usize = 0;
        let total = groups.cuts.len() - 1;
        while g < total
            invariant
                g <= total,
                total + 1 == groups.cuts@.len(),
                rlen == hi - lo,
                groups_wf(groups.masks@, groups.cuts@, lo as int, hi as int, pivots@.len() as int),
                !full ==> forall|x: int| 0 <= x < g ==> #[trigger] gsize(groups.cuts@, x) < rlen,
                full ==> exists|x: int| 0 <= x < g && #[trigger] gsize(groups.cuts@, x) == rlen,
            decreases total - g,
        {
            assert(groups.cuts@[0] <= groups.cuts@[g as int] <= groups.cuts@[g + 1] <= groups.cuts@[groups.cuts@.len()
                - 1]);
            if groups.cuts[g + 1] - groups.cuts[g] == rlen {
                full = true;
                assert(gsize(groups.cuts@, g as int) == rlen);
            }
            g += 1;
        }
        if full {
            let data = build_data(&self.sorted, self.inserts, lo, hi, Ghost(dim));
            proof {
                let l = lo as int;
                let h = hi as int;
                lemma_items_spanned_move(node_items(data, false), ins, s0, s1, l, h, l, h, dim);
                lemma_items_spanned_move(node_items(data, true), ins, s0, s1, l, h, l, h, dim);
                lemma_trees_grow_refl(e0, self.next_tree as int);
                lemma_fit_refl(e0, self.next_tree as int, self.fields.inline, self.fields.max_tree_bytes);
                // the group that holds the whole range shows that the pivots do not divide it
                let cuts = groups.cuts@;
                let masks = groups.masks@;
                let a = axis as int;
                let x = choose|x: int| 0 <= x < total && #[trigger] gsize(cuts, x) == rlen;
                assert(cuts[0] <= cuts[x] <= cuts[x + 1] <= cuts[cuts.len() - 1]);
                assert(cuts[x] == lo && cuts[x + 1] == hi);
                assert(group_fact(ins, s1, masks, cuts, x, a, pivots@));
                lemma_same_range_sym(s0, s1, l, h);
                if x < masks.len() {
                    lemma_range_all_perm(ins, s1, s0, l, h, a, touch_fn(pivots@, masks[x]));
                    assert(mask_used(pivots@, masks[x]) && range_touch(ins, s0, l, h, a, pivots@, masks[x]));
                } else {
                    lemma_range_all_perm(ins, s1, s0, l, h, a, gap_fn(pivots@, x - masks.len()));
                    assert(range_in_gap(ins, s0, l, h, a, pivots@, x - masks.len()));
                }
                assert(undivided(ins, s0, l, h, a, pivots@));
                assert(ascending(pivots@));
                lemma_linked_none(e0, node_items(data, false), node_items(data, true), self.next_tree as int);
                lemma_same_range_sym(s0, s1, l, h);
                lemma_covered_perm(node_items(data, false), node_items(data, true), ins, s1, s0, l, h, dim);
                lemma_range_full_perm(ins, s0, s1, l, h);
                lemma_content_leaf(full_ms(data), e0, tree_boxes(e0, dim), self.next_tree as int, ins, s0, l, h);
            }
            *bytes = sat_add(*bytes, count_node_bytes(&data));
            return data;
        }
        let next_axis = if axis + 1 == d {
            0
        } else {
            axis + 1
        };
        let (intersections, nodes) = self.build_children(
            build,
            &groups,
            &pivots,
            is_rm,
            axis,
            next_axis,
            bytes,
            Ghost(dim),
        );
        let ghost s2 = self.sorted@;
        *bytes = sat_add(*bytes, count_branch_bytes(pivots.len(), intersections.len()));
        let node = Node::Branch(Branch::new(pivots, intersections, nodes));
        proof {
            let l = lo as int;
            let h = hi as int;
            lemma_same_range_trans(s0, s1, s2, l, h);
            let lv = (build.level + 1) as nat;
            let a = (build.level as nat % dim) as int;
            assert forall|i: int| 0 <= i < intersections@.len() implies bucket_ok(
                (#[trigger] intersections@[i]).1,
                intersections@[i].0,
                a,
                pivots@,
                lv,
                dim,
                ins,
                s0,
                l,
                h,
            ) by {
                let c = intersections@[i].1;
                assert(bucket_ok(c, groups.masks@[i], a, pivots@, lv, dim, ins, s1, l, h));
                lemma_items_spanned_move(node_items(c, false), ins, s0, s1, l, h, l, h, dim);
                lemma_items_spanned_move(node_items(c, true), ins, s0, s1, l, h, l, h, dim);
            }
            assert forall|k: int| 0 <= k < nodes@.len() implies gap_ok(
                #[trigger] nodes@[k],
                k,
                a,
                pivots@,
                lv,
                dim,
                ins,
                s0,
                l,
                h,
            ) by {
                let c = nodes@[k];
                assert(gap_ok(c, k, a, pivots@, lv, dim, ins, s1, l, h));
                lemma_items_spanned_move(node_items(c, false), ins, s0, s1, l, h, l, h, dim);
                lemma_items_spanned_move(node_items(c, true), ins, s0, s1, l, h, l, h, dim);
            }
            lemma_branch_placed(node, build.level as nat, dim, ins, s0, l, h);
            lemma_branch_full(node);
            assert(node_items(node, false) == held_items(intersections@, nodes@, false));
            assert(node_items(node, true) == held_items(intersections@, nodes@, true));
            lemma_same_range_sym(s0, s2, l, h);
            lemma_covered_perm(node_items(node, false), node_items(node, true), ins, s2, s0, l, h, dim);
            lemma_content_perm(
                full_ms(node),
                self.ext_trees@,
                tree_boxes(self.ext_trees@, dim),
                n0,
                self.next_tree as int,
                ins,
                s0,
                s2,
                l,
                h,
            );
        }
        node
    }

    /// Builds the node for the range of `build` at its level, by the rule
    /// for the range: the empty leaf; a leaf, kept in the tree or cut into
    /// trees of its own; a tree of its own for a small range, or for a
    /// branch that is too deep or has too much beside it; or a branch, which
    /// becomes a leaf where its children would not divide the range. The
    /// bytes of `build` are the running count of the tree: what the node
    /// takes in the tree, with everything under it, is added to them.
    pub fn build(&mut self, build: &mut Build, is_rm: bool, Ghost(dim): Ghost<nat>) -> (node: Node)
        requires
            ready(*old(self), *old(build), dim),
        ensures
            built(*old(self), *final(self), *old(build), node, dim),
            shaped(
                rule_of(
                    old(self).fields,
                    *old(build),
                    is_rm,
                    range_len(
                        old(self).inserts@,
                        old(self).sorted@,
                        old(build).range.0 as int,
                        old(build).range.1 as int,
                    ),
                ),
                old(self).fields,
                old(self).inserts@,
                old(self).sorted@,
                old(self).next_tree as int,
                final(self).next_tree as int,
                final(self).ext_trees@,
                *old(build),
                dim,
                node,
            ),
            final(build).level == old(build).level,
            final(build).range == old(build).range,
            final(build).count == old(build).count,
            final(build).bytes == sat(old(build).bytes + child_len(node)),
            quiet(old(self).fields, is_rm, old(self).inserts@, *old(build)) ==> final(self).next_tree == old(
                self,
            ).next_tree,
        decreases
                old(build).range.1 - old(build).range.0,
                if fresh(*old(build)) {
                    0int
                } else {
                    1int
                },
                3int,
    {
        let lo = build.range.0;
        let hi = build.range.1;
        let rlen = hi - lo;
        let ghost s0 = self.sorted@;
        let ghost e0 = self.ext_trees@;
        proof {
            lemma_same_range_refl(s0, lo as int, hi as int);
            lemma_trees_grow_refl(e0, self.next_tree as int);
            lemma_fit_refl(e0, self.next_tree as int, self.fields.inline, self.fields.max_tree_bytes);
        }
        if rlen == 0 {
            let refs: Vec<TreeRef> = Vec::new();
            proof {
                assert(ref_items(refs@) =~= Seq::<Item>::empty());
                lemma_items_spanned_empty(self.inserts@, s0, lo as int, hi as int, dim);
                lemma_empty_full();
                lemma_covered_none(
                    Seq::<Item>::empty(),
                    Seq::<Item>::empty(),
                    self.inserts@,
                    s0,
                    lo as int,
                    dim,
                );
                lemma_content_none(e0, tree_boxes(e0, dim), self.next_tree as int, self.inserts@, s0, lo as int);
                lemma_linked_none(e0, Seq::<Item>::empty(), Seq::<Item>::empty(), self.next_tree as int);
            }
            // an empty leaf takes no bytes in the tree
            return refs_leaf(refs, Ghost(dim));
        }
        let mut segs: Vec<(usize, usize)> = Vec::new();
        if rlen < self.fields.inline || rlen <= 2 {
            let data = build_data(&self.sorted, self.inserts, lo, hi, Ghost(dim));
            let data_bytes = count_node_bytes(&data);
            proof {
                if light(self.inserts@) {
                    lemma_light_range(self.inserts@, s0, lo as int, hi as int);
                }
            }
            if data_bytes >= self.fields.inline_max_bytes || sat_add(build.bytes, data_bytes)
                > self.fields.max_tree_bytes {
                segs = cut_segments(&self.sorted, self.inserts, lo, hi, self.fields.max_tree_bytes);
            } else {
                proof {
                    lemma_content_leaf(
                        full_ms(data),
                        e0,
                        tree_boxes(e0, dim),
                        self.next_tree as int,
                        self.inserts@,
                        s0,
                        lo as int,
                        hi as int,
                    );
                    lemma_linked_none(e0, node_items(data, false), node_items(data, true), self.next_tree as int);
                }
                build.bytes = sat_add(build.bytes, data_bytes);
                return data;
            }
        } else if !is_rm && rlen <= self.fields.ext_records {
            segs.push((lo, hi));
        }
        if segs.len() > 0 {
            proof {
                lemma_tiled_up(segs@, lo as int, hi as int, segs@.len() - 1);
                assert forall|k: int| 0 <= k < segs@.len() implies seg_bound(
                    self.inserts@,
                    s0,
                    (#[trigger] segs@[k]).0 as int,
                    segs@[k].1 as int,
                    self.fields.inline,
                    self.fields.max_tree_bytes,
                ) by {}
            }
            let node = self.ext_segments(&segs, Ghost(lo as int), Ghost(hi as int), Ghost(dim));
            proof {
                lemma_items_spanned_empty(self.inserts@, s0, lo as int, hi as int, dim);
            }
            build.bytes = sat_add(build.bytes, count_node_bytes(&node));
            return node;
        }
        if build.level >= self.fields.max_depth || build.count >= self.fields.max_records {
            let node = self.build_sub(build, is_rm, Ghost(dim));
            build.bytes = sat_add(build.bytes, count_node_bytes(&node));
            node
        } else {
            let mut running = build.bytes;
            let node = self.build_branch(build, is_rm, &mut running, Ghost(dim));
            build.bytes = running;
            node
        }
    }
}

/// The order in which the inserts are given: `0, 1, 2, ..`.
pub open spec fn first_order(n: nat) -> Seq<usize> {
    Seq::new(n, |k: int| k as usize)
}

/// The box is the tight one around all the inserts: an interval on every
/// axis, from the least lower endpoint to the greatest upper endpoint.
pub open spec fn tight_around(b: Seq<Coord>, inserts: Seq<Insert>, dim: nat) -> bool {
    &&& b.len() == dim
    &&& forall|a: int|
        0 <= a < dim ==> {
            &&& #[trigger] b[a] is Interval
            &&& forall|j: int|
                0 <= j < inserts.len() ==> b[a].lo() <= (#[trigger] inserts[j]).0@[a].lo() && inserts[j].0@[a].hi()
                    <= b[a].hi()
            &&& exists|j: int| 0 <= j < inserts.len() && (#[trigger] inserts[j]).0@[a].lo() == b[a].lo()
            &&& exists|j: int| 0 <= j < inserts.len() && (#[trigger] inserts[j]).0@[a].hi() == b[a].hi()
        }
}

/// The tight box around an order that holds every insert is the tight box
/// around the inserts.
proof fn lemma_tight_around(b: Seq<Coord>, inserts: Seq<Insert>, ident: Seq<usize>, sorted: Seq<usize>, dim: nat)
    requires
        tight_box(b, inserts, sorted, 0, inserts.len() as int, dim),
        same_range(ident, sorted, 0, inserts.len() as int),
        ident.len() == inserts.len(),
        forall|i: int| 0 <= i < ident.len() ==> ident[i] == i,
    ensures
        tight_around(b, inserts, dim),
{
    let n = inserts.len() as int;
    lemma_same_range_sym(ident, sorted, 0, n);
    assert forall|a: int| 0 <= a < dim implies {
        &&& #[trigger] b[a] is Interval
        &&& forall|j: int|
            0 <= j < inserts.len() ==> b[a].lo() <= (#[trigger] inserts[j]).0@[a].lo() && inserts[j].0@[a].hi()
                <= b[a].hi()
        &&& exists|j: int| 0 <= j < inserts.len() && (#[trigger] inserts[j]).0@[a].lo() == b[a].lo()
        &&& exists|j: int| 0 <= j < inserts.len() && (#[trigger] inserts[j]).0@[a].hi() == b[a].hi()
    } by {
        assert forall|j: int| 0 <= j < inserts.len() implies b[a].lo() <= (#[trigger] inserts[j]).0@[a].lo()
            && inserts[j].0@[a].hi() <= b[a].hi() by {
            let k = lemma_range_member(sorted, ident, 0, n, j);
            assert(coord_at(inserts, sorted, k, a) == inserts[j].0@[a]);
        }
        let i1 = choose|i: int| 0 <= i < n && #[trigger] coord_at(inserts, sorted, i, a).lo() == b[a].lo();
        let k1 = lemma_range_member(ident, sorted, 0, n, i1);
        assert(inserts[sorted[i1] as int].0@[a].lo() == b[a].lo());
        let i2 = choose|i: int| 0 <= i < n && #[trigger] coord_at(inserts, sorted, i, a).hi() == b[a].hi();
        let k2 = lemma_range_member(ident, sorted, 0, n, i2);
        assert(inserts[sorted[i2] as int].0@[a].hi() == b[a].hi());
    }
}

impl Branch {
    /// Builds a tree from the inserts. Without inserts there is no tree.
    /// Otherwise the root tree and every tree moved out of it get the ids
    /// from `next_tree` on, the root the last of them; each of them keeps
    /// the placement invariants; the reference to the root carries the
    /// tight box around all the inserts, which is the tight box around what
    /// the root tree lists; and the trees hold, once each, what the inserts
    /// stand for and one reference to each tree but the root's, with the
    /// tight box around what that tree lists. A tree that is a leaf kept or
    /// cut for its size, with a record and more than one item, counts at
    /// most `max_tree_bytes`. Every tree but the root's is reached from the
    /// root tree by references to trees of the build. The root of the root
    /// tree is what the rule for all the inserts, in an order of them, at
    /// the root of a fresh tree makes it. A build for a deletion, of light inserts
    /// under options that move nothing out, makes one tree.
    pub fn build(fields: &SetupFields, inserts: &[Insert], next_tree: &mut TreeId, is_rm: bool) -> (r: (
        Option<TreeRef>,
        CreateTrees,
    ))
        requires
            fields_ok(*fields),
            inserts@.len() > 0 ==> valid_dim(inserts@[0].0@.len()) && inserts_wf(
                inserts@,
                inserts@[0].0@.len(),
            ),
            *old(next_tree) + 2 * inserts@.len() <= u64::MAX,
        ensures
            inserts@.len() == 0 ==> r.0 is None && r.1@ == Map::<TreeId, Tree>::empty() && *final(next_tree)
                == *old(next_tree),
            inserts@.len() > 0 ==> (r.0 matches Some(tr) && {
                let dim = inserts@[0].0@.len();
                &&& tr.id + 1 == *final(next_tree)
                &&& *old(next_tree) <= tr.id < *old(next_tree) + 2 * inserts@.len()
                &&& trees_grow(Map::<TreeId, Tree>::empty(), r.1@, *old(next_tree) as int, *final(next_tree) as int)
                &&& trees_placed(r.1@, *old(next_tree) as int, *final(next_tree) as int, dim)
                &&& trees_fit(
                    r.1@,
                    *old(next_tree) as int,
                    *final(next_tree) as int,
                    fields.inline,
                    fields.max_tree_bytes,
                )
                &&& all_linked(
                    r.1@,
                    node_items(r.1@[tr.id].root, false),
                    node_items(r.1@[tr.id].root, true),
                    *old(next_tree) as int,
                    tr.id as int,
                )
                &&& exists|s: Seq<usize>|
                    #![trigger order_wf(s, inserts@.len() as nat)]
                    order_wf(s, inserts@.len() as nat) && same_range(
                        first_order(inserts@.len()),
                        s,
                        0,
                        inserts@.len() as int,
                    ) && shaped(
                        rule_of(
                            *fields,
                            (Build { range: (0, inserts@.len() as usize), level: 0, count: 0, bytes: 0 }),
                            is_rm,
                            range_len(inserts@, s, 0, inserts@.len() as int),
                        ),
                        *fields,
                        inserts@,
                        s,
                        *old(next_tree) as int,
                        tr.id as int,
                        r.1@,
                        (Build { range: (0, inserts@.len() as usize), level: 0, count: 0, bytes: 0 }),
                        dim,
                        r.1@[tr.id].root,
                    )
                &&& is_rm && calm(*fields) && light(inserts@) ==> tr.id == *old(next_tree)
                &&& tight_around(tr.bounds@, inserts@, dim)
                &&& tr.bounds@ == node_box(r.1@[tr.id].root, dim)
                &&& forest_full(r.1@, *old(next_tree) as int, *final(next_tree) as int) == inserts_ms(
                    inserts@,
                ).add(news(tree_boxes(r.1@, dim), *old(next_tree) as int, tr.id as int))
            }),
    {
        broadcast use vstd::std_specs::hash::group_hash_axioms;

        let n = inserts.len();
        if n == 0 {
            return (None, HashMap::new());
        }
        let ghost dim = inserts@[0].0@.len();
        let mut sorted: Vec<usize> = Vec::new();
        let mut i: usize = 0;
        while i < n
            invariant
                i <= n,
                n == inserts@.len(),
                sorted@.len() == i,
                forall|k: int| 0 <= k < i ==> sorted@[k] == k,
            decreases n - i,
        {
            sorted.push(i);
            i += 1;
        }
        let ghost ident = sorted@;
        assert(ident =~= first_order(n as nat));
        sort_by_axis(&mut sorted, inserts, 0, n, 0);
        proof {
            lemma_order_wf_perm(ident, sorted@, 0, n as int, n as nat);
        }
        let d = inserts[0].0.len();
        let bounds = get_bounds(&sorted, inserts, 0, n, d);
        proof {
            lemma_tight_around(bounds@, inserts@, ident, sorted@, dim);
        }
        let ghost n0 = *next_tree;
        let ghost sorted0 = sorted@;
        let mut mstate = MState { fields: *fields, inserts, next_tree: *next_tree, ext_trees: HashMap::new(), sorted };
        let mut b = Build { range: (0, n), level: 0, count: 0, bytes: 0 };
        proof {
            if light(inserts@) {
                let m = usize::MAX - 39;
                assert(crate::segment::item_len(inserts@[0]) <= crate::segment::light_cap(n as nat));
                assert(m / (n as int) >= 2);
                assert(n < usize::MAX) by (nonlinear_arith)
                    requires
                        m / (n as int) >= 2,
                        n > 0,
                        m > 0,
                        m < usize::MAX,
                ;
            }
        }
        let ghost e0 = mstate.ext_trees@;
        let root = mstate.build(&mut b, is_rm, Ghost(dim));
        let id = mstate.next_tree;
        let tr = TreeRef { id, bounds };
        *next_tree = id + 1;
        let t = Tree { root };
        let mut trees = mstate.ext_trees;
        proof {
            let e1 = trees@;
            let e2 = e1.insert(id, t);
            let s1 = mstate.sorted@;
            let ins = inserts@;
            lemma_tight_transfer(
                bounds@,
                node_items(root, false),
                node_items(root, true),
                ins,
                sorted0,
                0,
                n as int,
                dim,
            );
            lemma_node_box(bounds@, root, dim);
            lemma_trees_grow_insert(e1, id, t, dim);
            lemma_trees_grow_trans(e0, e1, e2, n0 as int, id as int, id + 1);
            lemma_trees_placed_grow(e1, e2, n0 as int, id as int, id + 1, dim);
            lemma_fit_insert(e1, id, t, fields.inline, fields.max_tree_bytes);
            lemma_fit_grow(e1, e2, n0 as int, id as int, id + 1, fields.inline, fields.max_tree_bytes);
            lemma_trees_same_insert(e1, id, t, n0 as int, id as int, dim);
            lemma_linked_move(e1, e2, node_items(root, false), node_items(root, true), n0 as int, id as int);
            lemma_content_root(
                root,
                e1,
                e2,
                tree_boxes(e1, dim),
                tree_boxes(e2, dim),
                n0 as int,
                id as int,
                ins,
                ident,
                sorted0,
            );
        }
        trees.insert(id, t);
        (Some(tr), trees)
    }
}

} // verus!
