//! The trees that a build makes, by id.

use crate::content::{same_boxes, same_trees};
use crate::coord::Coord;
use crate::cover::{node_box, tight_node};
use crate::place::node_placed;
use crate::bytes::{node_len, sat};
use crate::tree::{Node, Tree, TreeId};
use std::collections::HashMap;
use vstd::prelude::*;

verus! {

/// The trees made along a build, by id.
pub type CreateTrees = HashMap<TreeId, Tree>;

/// `m2` is `m1` with exactly the ids of `[a, b)` added.
#[verifier::opaque]
pub open spec fn trees_grow(m1: Map<TreeId, Tree>, m2: Map<TreeId, Tree>, a: int, b: int) -> bool {
    &&& a <= b
    &&& forall|id: TreeId| #[trigger] m2.dom().contains(id) <==> (m1.dom().contains(id) || a <= id < b)
    &&& forall|id: TreeId| #[trigger] m1.dom().contains(id) ==> m2[id] == m1[id]
}

/// A tree as the builder leaves it: it keeps the placement invariants from
/// its root, and it lists something, so that it has a tight box.
pub open spec fn tree_sound(t: Tree, dim: nat) -> bool {
    &&& node_placed(t.root, 0, dim)
    &&& tight_node(node_box(t.root, dim), t.root, dim)
}

/// Every id of `[a, b)` has a tree as the builder leaves it.
#[verifier::opaque]
pub open spec fn trees_placed(m: Map<TreeId, Tree>, a: int, b: int, dim: nat) -> bool {
    forall|id: TreeId|
        #![trigger m.dom().contains(id)]
        #![trigger m[id]]
        a <= id < b ==> m.dom().contains(id) && tree_sound(m[id], dim)
}

/// A leaf that holds a record, and two items or fewer items than `inline`
/// but more than one, counts at most `max` bytes: such a leaf was kept or
/// cut for its size.
pub open spec fn leaf_fits(node: Node, inline: usize, max: usize) -> bool {
    node matches Node::Data(rows, refs) ==> (rows@.len() >= 1 && rows@.len() + refs@.len() >= 2 && (rows@.len()
        + refs@.len() < inline || rows@.len() + refs@.len() == 2) ==> sat(node_len(node) as int) <= max)
}

/// Every id of `[a, b)` has a tree whose root, where it is a leaf kept or
/// cut for its size, counts at most `max` bytes.
#[verifier::opaque]
pub open spec fn trees_fit(m: Map<TreeId, Tree>, a: int, b: int, inline: usize, max: usize) -> bool {
    forall|id: TreeId|
        #![trigger m.dom().contains(id)]
        #![trigger m[id]]
        a <= id < b ==> m.dom().contains(id) && leaf_fits(m[id].root, inline, max)
}

/// No trees fit.
pub proof fn lemma_fit_refl(m: Map<TreeId, Tree>, a: int, inline: usize, max: usize)
    ensures
        trees_fit(m, a, a, inline, max),
{
    reveal(trees_fit);
}

/// One tree that fits, put under an id.
pub proof fn lemma_fit_insert(m: Map<TreeId, Tree>, id: TreeId, t: Tree, inline: usize, max: usize)
    requires
        leaf_fits(t.root, inline, max),
    ensures
        trees_fit(m.insert(id, t), id as int, id + 1, inline, max),
{
    reveal(trees_fit);
}

/// Trees that fit stay so while the trees grow.
pub proof fn lemma_fit_grow(
    m1: Map<TreeId, Tree>,
    m2: Map<TreeId, Tree>,
    a: int,
    b: int,
    c: int,
    inline: usize,
    max: usize,
)
    requires
        trees_fit(m1, a, b, inline, max),
        trees_grow(m1, m2, b, c),
        trees_fit(m2, b, c, inline, max),
    ensures
        trees_fit(m2, a, c, inline, max),
{
    reveal(trees_grow);
    reveal(trees_fit);
    assert forall|id: TreeId|
        #![trigger m2.dom().contains(id)]
        #![trigger m2[id]]
        a <= id < c implies m2.dom().contains(id) && leaf_fits(m2[id].root, inline, max) by {
        if id < b {
            assert(m1.dom().contains(id) && leaf_fits(m1[id].root, inline, max));
            assert(m2[id] == m1[id]);
        }
    }
}

/// A tree that fits, put under the id just below trees that fit.
pub proof fn lemma_fit_front(m2: Map<TreeId, Tree>, a: TreeId, b: int, t: Tree, inline: usize, max: usize)
    requires
        trees_fit(m2, a + 1, b, inline, max),
        leaf_fits(t.root, inline, max),
    ensures
        trees_fit(m2.insert(a, t), a as int, b, inline, max),
{
    reveal(trees_fit);
    let m3 = m2.insert(a, t);
    assert forall|id: TreeId|
        #![trigger m3.dom().contains(id)]
        #![trigger m3[id]]
        a <= id < b implies m3.dom().contains(id) && leaf_fits(m3[id].root, inline, max) by {
        if id != a {
            assert(m2.dom().contains(id) && leaf_fits(m2[id].root, inline, max));
        }
    }
}

/// For each id, the tight box around what its tree lists.
pub open spec fn tree_boxes(m: Map<TreeId, Tree>, dim: nat) -> Map<TreeId, Seq<Coord>> {
    Map::total(|id: TreeId| node_box(m[id].root, dim))
}

/// Every id of the map is below `next`.
pub open spec fn ids_below(m: Map<TreeId, Tree>, next: int) -> bool {
    forall|id: TreeId| #[trigger] m.dom().contains(id) ==> id < next
}

/// Nothing added is growth.
pub proof fn lemma_trees_grow_refl(m: Map<TreeId, Tree>, a: int)
    ensures
        trees_grow(m, m, a, a),
        forall|dim: nat| trees_placed(m, a, a, dim),
{
    reveal(trees_grow);
    reveal(trees_placed);
}

/// One tree put under a free id is growth by that id.
pub proof fn lemma_trees_grow_insert(m: Map<TreeId, Tree>, id: TreeId, t: Tree, dim: nat)
    requires
        ids_below(m, id as int),
    ensures
        trees_grow(m, m.insert(id, t), id as int, id + 1),
        ids_below(m.insert(id, t), id + 1),
        tree_sound(t, dim) ==> trees_placed(m.insert(id, t), id as int, id + 1, dim),
{
    reveal(trees_grow);
    reveal(trees_placed);
}

/// The growth of the trees composes.
pub proof fn lemma_trees_grow_trans(
    m1: Map<TreeId, Tree>,
    m2: Map<TreeId, Tree>,
    m3: Map<TreeId, Tree>,
    a: int,
    b: int,
    c: int,
)
    requires
        trees_grow(m1, m2, a, b),
        trees_grow(m2, m3, b, c),
    ensures
        trees_grow(m1, m3, a, c),
{
    reveal(trees_grow);
    assert forall|id: TreeId| #[trigger] m3.dom().contains(id) <==> (m1.dom().contains(id) || a <= id < c) by {
        assert(m2.dom().contains(id) <==> (m1.dom().contains(id) || a <= id < b));
    }
    assert forall|id: TreeId| #[trigger] m1.dom().contains(id) implies m3[id] == m1[id] by {
        assert(m2.dom().contains(id));
    }
}

/// Trees that were placed stay placed while the trees grow.
pub proof fn lemma_trees_placed_grow(
    m1: Map<TreeId, Tree>,
    m2: Map<TreeId, Tree>,
    a: int,
    b: int,
    c: int,
    dim: nat,
)
    requires
        trees_placed(m1, a, b, dim),
        trees_grow(m1, m2, b, c),
        trees_placed(m2, b, c, dim),
    ensures
        trees_placed(m2, a, c, dim),
{
    reveal(trees_grow);
    reveal(trees_placed);
    assert forall|id: TreeId|
        #![trigger m2.dom().contains(id)]
        #![trigger m2[id]]
        a <= id < c implies m2.dom().contains(id) && tree_sound(m2[id], dim) by {
        if id < b {
            assert(tree_sound(m1[id], dim));
            assert(m1.dom().contains(id));
            assert(m2[id] == m1[id]);
        }
    }
}

/// A tree put under the id just below a growth extends the growth downward.
pub proof fn lemma_trees_grow_front(
    m1: Map<TreeId, Tree>,
    m2: Map<TreeId, Tree>,
    a: TreeId,
    b: int,
    t: Tree,
    dim: nat,
)
    requires
        ids_below(m1, a as int),
        trees_grow(m1, m2, a + 1, b),
        trees_placed(m2, a + 1, b, dim),
        tree_sound(t, dim),
    ensures
        trees_grow(m1, m2.insert(a, t), a as int, b),
        trees_placed(m2.insert(a, t), a as int, b, dim),
{
    reveal(trees_grow);
    reveal(trees_placed);
    let m3 = m2.insert(a, t);
    assert forall|id: TreeId|
        #![trigger m3.dom().contains(id)]
        #![trigger m3[id]]
        a <= id < b implies m3.dom().contains(id) && tree_sound(m3[id], dim) by {
        if id != a {
            assert(tree_sound(m2[id], dim));
            assert(m2.dom().contains(id));
        }
    }
}

/// Growth keeps the ids below the next free one.
pub proof fn lemma_trees_grow_below(m1: Map<TreeId, Tree>, m2: Map<TreeId, Tree>, a: int, b: int)
    requires
        ids_below(m1, a),
        trees_grow(m1, m2, a, b),
    ensures
        ids_below(m2, b),
{
    reveal(trees_grow);
}

/// What growth means: the ids of `[a, b)` are there, and no others are new.
pub proof fn lemma_trees_grow_dom(m1: Map<TreeId, Tree>, m2: Map<TreeId, Tree>, a: int, b: int)
    requires
        trees_grow(m1, m2, a, b),
    ensures
        a <= b,
        forall|id: TreeId| #[trigger] m2.dom().contains(id) <==> (m1.dom().contains(id) || a <= id < b),
        forall|id: TreeId| #[trigger] m1.dom().contains(id) ==> m2[id] == m1[id],
{
    reveal(trees_grow);
}

/// Trees that are there stay as they are while the trees grow.
pub proof fn lemma_trees_same(m1: Map<TreeId, Tree>, m2: Map<TreeId, Tree>, a: int, b: int, c: int, dim: nat)
    requires
        trees_placed(m1, a, b, dim),
        trees_grow(m1, m2, b, c),
    ensures
        same_trees(m1, m2, a, b),
        same_boxes(tree_boxes(m1, dim), tree_boxes(m2, dim), a, b),
{
    reveal(trees_grow);
    reveal(trees_placed);
    assert forall|id: TreeId| a <= id < b implies #[trigger] m1[id] == m2[id] by {
        assert(tree_sound(m1[id], dim));
        assert(m1.dom().contains(id));
    }
    assert forall|id: TreeId| a <= id < b implies (#[trigger] tree_boxes(m1, dim)[id]) == tree_boxes(
        m2,
        dim,
    )[id] by {
        assert(m1[id] == m2[id]);
    }
}

/// A tree put among the trees leaves the others as they are.
pub proof fn lemma_trees_same_insert(m: Map<TreeId, Tree>, id: TreeId, t: Tree, a: int, b: int, dim: nat)
    requires
        !(a <= id < b),
    ensures
        same_trees(m, m.insert(id, t), a, b),
        same_boxes(tree_boxes(m, dim), tree_boxes(m.insert(id, t), dim), a, b),
{
    let m2 = m.insert(id, t);
    assert forall|x: TreeId| a <= x < b implies (#[trigger] tree_boxes(m, dim)[x]) == tree_boxes(m2, dim)[x] by {
        assert(m[x] == m2[x]);
    }
}

} // verus!
