//! What holds of every tree that a build leaves: it has the structure that
//! the traversals rely on, it answers a query exactly, and its bytes read
//! back as the tree. And what holds of a leaf cut for its size, and of the
//! records and the references that a merge leaves.

use crate::bytes::{node_len, sat};
use crate::content::{forest_full, news};
use crate::coord::Coord;
use crate::delete::{lemma_items_kind, of_kind};
use crate::forest::{tree_sound, trees_placed};
use crate::layout::{enc, model};
use crate::forest::{leaf_fits, trees_fit};
use crate::links::{all_linked, linked};
use crate::merge::{folded_rows, frontier, given_items, level_next, level_rows, merge_rows, merged};
use crate::place::node_placed;
use crate::query::{box_pred, law_query_exact, query_items};
use crate::range::Insert;
use crate::remove::item_id;
use crate::reader::dec;
use crate::roundtrip::law_round_trip;
use crate::segment::{leaf_reckoned, records_len};
use crate::setup::SetupFields;
use crate::tree::{
    node_items, node_shape, point_wf, ref_item, ref_items, row_item, row_items, Item, Node, Point, Tree, TreeId,
    TreeRef, Value,
};
use crate::writer::writable;
use vstd::prelude::*;

verus! {

/// A node that keeps the placement invariants has the structure that the
/// traversals rely on.
pub proof fn law_placed_shape(node: Node, level: nat, dim: nat)
    requires
        node_placed(node, level, dim),
    ensures
        node_shape(node, dim),
    decreases node,
{
    reveal(node_placed);
    match node {
        Node::Data(rows, rs) => {
            assert forall|i: int| 0 <= i < rows@.len() implies (#[trigger] rows@[i]).0@.len() == dim by {
                assert(row_items(rows@)[i] == row_item(rows@[i]));
                assert(point_wf(row_items(rows@)[i].point(), dim));
            }
            assert forall|i: int| 0 <= i < rs@.len() implies (#[trigger] rs@[i]).bounds@.len() == dim by {
                assert(ref_items(rs@)[i] == ref_item(rs@[i]));
                assert(point_wf(ref_items(rs@)[i].point(), dim));
            }
        },
        Node::Branch(b) => {
            assert forall|i: int| 0 <= i < b.intersections@.len() implies node_shape(
                (#[trigger] b.intersections@[i]).1,
                dim,
            ) by {
                law_placed_shape(b.intersections@[i].1, level + 1, dim);
            }
            assert forall|i: int| 0 <= i < b.nodes@.len() implies node_shape(#[trigger] b.nodes@[i], dim) by {
                law_placed_shape(b.nodes@[i], level + 1, dim);
            }
        },
    }
}

/// A tree that a build leaves answers a query for a box with exactly what
/// it holds that meets the box on every axis, in the order in which it
/// lists it: every record that meets the box is found, and nothing else.
pub proof fn law_built_query(
    trees: Map<TreeId, Tree>,
    a: int,
    b: int,
    id: TreeId,
    lo: Seq<i64>,
    hi: Seq<i64>,
    refs: bool,
)
    requires
        trees_placed(trees, a, b, lo.len()),
        a <= id < b,
        lo.len() > 0,
        lo.len() == hi.len(),
        forall|x: int| 0 <= x < lo.len() ==> lo[x] <= hi[x],
    ensures
        trees.dom().contains(id),
        node_shape(trees[id].root, lo.len()),
        query_items(trees[id].root, 0, lo, hi, refs) == node_items(trees[id].root, refs).filter(box_pred(lo, hi)),
{
    reveal(trees_placed);
    assert(trees.dom().contains(id) && tree_sound(trees[id], lo.len()));
    law_placed_shape(trees[id].root, 0, lo.len());
    law_query_exact(trees[id].root, 0, lo, hi, refs);
}

/// The bytes of a tree that a build leaves, where the tree can be written,
/// read back as the tree.
pub proof fn law_built_round_trip(trees: Map<TreeId, Tree>, a: int, b: int, dim: nat, id: TreeId)
    requires
        trees_placed(trees, a, b, dim),
        a <= id < b,
        dim <= 8,
        writable(trees[id].root),
    ensures
        dec(enc(model(trees[id].root), 0), 0, dim) == Some(
            (model(trees[id].root), enc(model(trees[id].root), 0).len()),
        ),
{
    reveal(trees_placed);
    assert(trees.dom().contains(id) && tree_sound(trees[id], dim));
    law_placed_shape(trees[id].root, 0, dim);
    law_round_trip(trees[id].root, dim);
}

/// A leaf that is cut for its size stays within the size: the tree made of
/// a range of two or more inserts, for which the builder reckons at most
/// `max` bytes, counts at most `max` bytes.
pub proof fn law_cut_leaf_fits(t: Tree, inserts: Seq<Insert>, sorted: Seq<usize>, lo: int, hi: int, max: usize)
    requires
        leaf_reckoned(t, inserts, sorted, lo, hi),
        hi - lo >= 2,
        sat(records_len(inserts, sorted, lo, hi) as int) <= max,
    ensures
        sat(node_len(t.root) as int) <= max,
{
}

/// The references of the trees of the first `n` references are references.
proof fn lemma_level_next_kind(trees: Map<TreeId, Tree>, refs: Seq<Item>, n: nat)
    ensures
        of_kind(level_next(trees, refs, n), true),
    decreases n,
{
    if n == 0 || n > refs.len() {
    } else {
        lemma_level_next_kind(trees, refs, (n - 1) as nat);
        let a = level_next(trees, refs, (n - 1) as nat);
        let root = trees[item_id(refs[n - 1])].root;
        let b = node_items(root, true);
        assert forall|j: int| 0 <= j < (a + b).len() implies (#[trigger] (a + b)[j]) is Ref by {
            if j >= a.len() {
                lemma_items_kind(root, true, j - a.len());
            }
        }
    }
}

/// The references that a merge leaves standing are references.
proof fn lemma_frontier_kind(trees: Map<TreeId, Tree>, refs: Seq<Item>, depth: nat)
    requires
        of_kind(refs, true),
    ensures
        of_kind(frontier(trees, refs, depth), true),
    decreases depth,
{
    if depth == 0 || refs.len() == 0 {
    } else {
        lemma_level_next_kind(trees, refs, refs.len());
        lemma_frontier_kind(trees, level_next(trees, refs, refs.len()), (depth - 1) as nat);
    }
}

/// No record is among references.
proof fn lemma_no_record(s: Seq<Item>, x: Item)
    requires
        of_kind(s, true),
        x is Row,
    ensures
        s.to_multiset().count(x) == 0,
{
    s.to_multiset_ensures();
    if s.to_multiset().count(x) > 0 {
        assert(s.contains(x));
        let j = choose|j: int| 0 <= j < s.len() && s[j] == x;
        assert(s[j] is Ref);
    }
}

/// No record is among the references to new trees.
proof fn lemma_news_no_record(boxes: Map<TreeId, Seq<Coord>>, a: int, b: int, x: Item)
    requires
        x is Row,
    ensures
        news(boxes, a, b).count(x) == 0,
    decreases b - a,
{
    broadcast use vstd::multiset::group_multiset_axioms;

    if b > a {
        lemma_news_no_record(boxes, a, b - 1, x);
    }
}

/// What a merge leaves of the records: each record is in the new trees as
/// often as it is among the records handed in and the records of the trees
/// folded back together. Nothing is lost and nothing is made up.
pub proof fn law_merge_records(
    fields: SetupFields,
    trees: Map<TreeId, Tree>,
    inputs: Seq<TreeRef>,
    inserts: Seq<(&Point, &Value)>,
    depth: nat,
    next0: TreeId,
    next1: TreeId,
    tr: Option<TreeRef>,
    rm: Seq<TreeId>,
    created: Map<TreeId, Tree>,
    x: Item,
)
    requires
        merged(fields, trees, inputs, inserts, depth, next0, next1, tr, rm, created),
        x is Row,
    ensures
        forest_full(created, next0 as int, next1 as int).count(x) == given_items(inserts).to_multiset().count(x)
            + folded_rows(trees, ref_items(inputs), depth).to_multiset().count(x),
{
    broadcast use vstd::multiset::group_multiset_axioms;

    let front = frontier(trees, ref_items(inputs), depth);
    let given = given_items(inserts);
    let folded = folded_rows(trees, ref_items(inputs), depth);
    let rows = merge_rows(trees, inputs, inserts, depth);
    assert(of_kind(ref_items(inputs), true));
    lemma_frontier_kind(trees, ref_items(inputs), depth);
    lemma_no_record(front, x);
    vstd::seq_lib::lemma_multiset_commutative(front + given, folded);
    vstd::seq_lib::lemma_multiset_commutative(front, given);
    assert(rows.to_multiset().count(x) == given.to_multiset().count(x) + folded.to_multiset().count(x));
    if rows.len() > 0 {
        let dim = rows[0].point().len();
        lemma_news_no_record(crate::forest::tree_boxes(created, dim), next0 as int, tr->0.id as int, x);
    }
}

/// The records of the trees of the first `n` references are records.
proof fn lemma_level_rows_kind(trees: Map<TreeId, Tree>, refs: Seq<Item>, n: nat)
    ensures
        of_kind(level_rows(trees, refs, n), false),
    decreases n,
{
    if n == 0 || n > refs.len() {
    } else {
        lemma_level_rows_kind(trees, refs, (n - 1) as nat);
        let a = level_rows(trees, refs, (n - 1) as nat);
        let root = trees[item_id(refs[n - 1])].root;
        let b = node_items(root, false);
        assert forall|j: int| 0 <= j < (a + b).len() implies !((#[trigger] (a + b)[j]) is Ref) by {
            if j >= a.len() {
                lemma_items_kind(root, false, j - a.len());
            }
        }
    }
}

/// The records folded back are records.
proof fn lemma_folded_kind(trees: Map<TreeId, Tree>, refs: Seq<Item>, depth: nat)
    ensures
        of_kind(folded_rows(trees, refs, depth), false),
    decreases depth,
{
    if depth == 0 || refs.len() == 0 {
    } else {
        lemma_level_rows_kind(trees, refs, refs.len());
        lemma_folded_kind(trees, level_next(trees, refs, refs.len()), (depth - 1) as nat);
    }
}

/// No reference is among records.
proof fn lemma_no_ref(s: Seq<Item>, x: Item)
    requires
        of_kind(s, false),
        x is Ref,
    ensures
        s.to_multiset().count(x) == 0,
{
    s.to_multiset_ensures();
    if s.to_multiset().count(x) > 0 {
        assert(s.contains(x));
        let j = choose|j: int| 0 <= j < s.len() && s[j] == x;
        assert(!(s[j] is Ref));
    }
}

/// What a merge leaves of the references: each reference is in the new
/// trees as often as it is among the references left standing under the
/// inputs and the references to the new trees but the root's together. So
/// every reference in a new tree names a new tree or a tree that an input
/// led to and that was not folded back.
pub proof fn law_merge_refs(
    fields: SetupFields,
    trees: Map<TreeId, Tree>,
    inputs: Seq<TreeRef>,
    inserts: Seq<(&Point, &Value)>,
    depth: nat,
    next0: TreeId,
    next1: TreeId,
    tr: Option<TreeRef>,
    rm: Seq<TreeId>,
    created: Map<TreeId, Tree>,
    x: Item,
)
    requires
        merged(fields, trees, inputs, inserts, depth, next0, next1, tr, rm, created),
        x is Ref,
    ensures
        forest_full(created, next0 as int, next1 as int).count(x) == frontier(
            trees,
            ref_items(inputs),
            depth,
        ).to_multiset().count(x) + (if tr is Some {
            news(
                crate::forest::tree_boxes(created, merge_rows(trees, inputs, inserts, depth)[0].point().len()),
                next0 as int,
                tr->0.id as int,
            ).count(x)
        } else {
            0
        }),
{
    broadcast use vstd::multiset::group_multiset_axioms;

    let front = frontier(trees, ref_items(inputs), depth);
    let given = given_items(inserts);
    let folded = folded_rows(trees, ref_items(inputs), depth);
    let rows = merge_rows(trees, inputs, inserts, depth);
    assert(of_kind(given, false));
    lemma_folded_kind(trees, ref_items(inputs), depth);
    lemma_no_ref(given, x);
    lemma_no_ref(folded, x);
    vstd::seq_lib::lemma_multiset_commutative(front + given, folded);
    vstd::seq_lib::lemma_multiset_commutative(front, given);
    assert(rows.to_multiset().count(x) == front.to_multiset().count(x));
}

/// A new tree that is a leaf kept or cut for its size counts at most what
/// a tree should.
pub proof fn law_built_fits(trees: Map<TreeId, Tree>, a: int, b: int, inline: usize, max: usize, id: TreeId)
    requires
        trees_fit(trees, a, b, inline, max),
        a <= id < b,
    ensures
        trees.dom().contains(id),
        leaf_fits(trees[id].root, inline, max),
{
    reveal(trees_fit);
}

/// A new tree below the root's is reached from the root tree.
pub proof fn law_built_linked(trees: Map<TreeId, Tree>, root: TreeId, a: int, id: TreeId)
    requires
        all_linked(trees, node_items(trees[root].root, false), node_items(trees[root].root, true), a, root as int),
        a <= id < root,
    ensures
        linked(trees, node_items(trees[root].root, false), node_items(trees[root].root, true), a, root as int, id),
{
    reveal(all_linked);
}

/// The coordinates of a point take at most sixteen bytes each.
proof fn lemma_coords_len(p: Seq<Coord>, n: nat)
    ensures
        crate::bytes::coords_len(p, n) <= 16 * n,
    decreases n,
{
    if n == 0 || n > p.len() {
    } else {
        lemma_coords_len(p, (n - 1) as nat);
    }
}

/// A number that a `u64` holds has a varint of at most ten bytes.
proof fn lemma_varint_ten(v: u64)
    ensures
        crate::bytes::varint_len(v as int) <= 10,
{
    crate::codec::lemma_pow128_8();
    assert(crate::wire::pow128(9) == 128 * crate::wire::pow128(8));
    assert(crate::wire::pow128(10) == 128 * crate::wire::pow128(9));
    crate::codec::lemma_varint_len_bound(v as int, 10);
}

/// The first `n` references of arity `dim` take at most eleven bytes and
/// sixteen for each axis each.
proof fn lemma_refs_len_bound(refs: Seq<TreeRef>, n: nat, dim: nat)
    requires
        n <= refs.len(),
        forall|i: int| 0 <= i < refs.len() ==> (#[trigger] refs[i]).bounds@.len() == dim,
    ensures
        crate::bytes::refs_len(refs, n) <= n * (11 + 16 * dim),
    decreases n,
{
    let c = (11 + 16 * dim) as int;
    if n > 0 {
        lemma_refs_len_bound(refs, (n - 1) as nat, dim);
        let r = refs[n - 1];
        lemma_varint_ten(r.id);
        lemma_coords_len(r.bounds@, r.bounds@.len());
        assert(crate::bytes::ref_len(r) <= c);
        assert(n * c == (n - 1) * c + c) by (nonlinear_arith);
    } else {
        assert(n * c == 0) by (nonlinear_arith)
            requires
                n == 0,
        ;
    }
}

/// A leaf that holds references alone, of arity `dim`, counts at most
/// seven bytes, and twelve and sixteen for each axis for each reference.
/// So the leaf that a cut leaves in its tree is small where the cut is into
/// few trees.
pub proof fn law_refs_leaf_len(node: Node, dim: nat)
    requires
        node matches Node::Data(rows, refs) && rows@.len() == 0 && (forall|i: int|
            0 <= i < refs@.len() ==> (#[trigger] refs@[i]).bounds@.len() == dim),
    ensures
        node_len(node) <= 7 + node_items(node, true).len() * (12 + 16 * dim),
{
    match node {
        Node::Data(rows, refs) => {
            let k = refs@.len();
            lemma_refs_len_bound(refs@, k, dim);
            crate::segment::lemma_count_len(k as int);
            assert(node_items(node, true).len() == k);
            assert(k * (12 + 16 * dim) == k * (11 + 16 * dim) + k) by (nonlinear_arith);
        },
        Node::Branch(_) => {},
    }
}

/// What a tree of `[a, b)` holds is among what the trees of `[a, b)` hold.
proof fn lemma_forest_member(m: Map<TreeId, Tree>, a: int, b: int, t: TreeId, x: Item)
    requires
        a <= t < b,
    ensures
        crate::content::full_ms(m[t].root).count(x) <= forest_full(m, a, b).count(x),
    decreases b - a,
{
    broadcast use vstd::multiset::group_multiset_axioms;

    if t < b - 1 {
        lemma_forest_member(m, a, b - 1, t, x);
    } else {
        assert(m[(b - 1) as u64] == m[t]);
    }
}

/// A reference to a new tree names an id of the new trees.
proof fn lemma_news_member(boxes: Map<TreeId, Seq<Coord>>, a: int, b: int, x: Item)
    requires
        news(boxes, a, b).count(x) > 0,
        0 <= a,
        b <= u64::MAX + 1,
    ensures
        a <= item_id(x) < b,
    decreases b - a,
{
    broadcast use vstd::multiset::group_multiset_axioms;

    if b > a {
        let y = Item::Ref { id: (b - 1) as u64, bounds: boxes[(b - 1) as u64] };
        if x != y {
            lemma_news_member(boxes, a, b - 1, x);
        }
    }
}

/// No reference in a new tree dangles, where the references left standing
/// do not: if every reference left standing under the inputs names a tree
/// of the registry that is not folded back, every reference in a new tree
/// names a new tree or such a tree.
pub proof fn law_no_dangling(
    fields: SetupFields,
    trees: Map<TreeId, Tree>,
    inputs: Seq<TreeRef>,
    inserts: Seq<(&Point, &Value)>,
    depth: nat,
    next0: TreeId,
    next1: TreeId,
    tr: Option<TreeRef>,
    rm: Seq<TreeId>,
    created: Map<TreeId, Tree>,
    t: TreeId,
    x: Item,
)
    requires
        merged(fields, trees, inputs, inserts, depth, next0, next1, tr, rm, created),
        forall|j: int|
            0 <= j < frontier(trees, ref_items(inputs), depth).len() ==> trees.dom().contains(
                item_id(#[trigger] frontier(trees, ref_items(inputs), depth)[j]),
            ) && !rm.contains(item_id(frontier(trees, ref_items(inputs), depth)[j])),
        created.dom().contains(t),
        x is Ref,
        node_items(created[t].root, true).contains(x),
    ensures
        created.dom().contains(item_id(x)) || (trees.dom().contains(item_id(x)) && !rm.contains(item_id(x))),
{
    broadcast use vstd::multiset::group_multiset_axioms;

    let rows = merge_rows(trees, inputs, inserts, depth);
    let front = frontier(trees, ref_items(inputs), depth);
    if rows.len() == 0 {
        assert(!created.dom().contains(t));
    } else {
        let root = tr->0.id;
        crate::forest::lemma_trees_grow_dom(Map::<TreeId, Tree>::empty(), created, next0 as int, next1 as int);
        assert(next0 <= t < next1);
        lemma_forest_member(created, next0 as int, next1 as int, t, x);
        let refs = node_items(created[t].root, true);
        refs.to_multiset_ensures();
        assert(refs.to_multiset().count(x) > 0);
        law_merge_refs(fields, trees, inputs, inserts, depth, next0, next1, tr, rm, created, x);
        front.to_multiset_ensures();
        if front.to_multiset().count(x) > 0 {
            assert(front.contains(x));
            let j = choose|j: int| 0 <= j < front.len() && front[j] == x;
            assert(trees.dom().contains(item_id(front[j])));
        } else {
            let boxes = crate::forest::tree_boxes(created, rows[0].point().len());
            lemma_news_member(boxes, next0 as int, root as int, x);
            assert(created.dom().contains(item_id(x)));
        }
    }
}

} // verus!
