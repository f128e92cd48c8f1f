//! How the trees that a build makes hang together: each is reached from
//! the node that the build leaves, by references to trees of the build.

use crate::content::same_trees;
use crate::cover::among;
use crate::remove::item_id;
use crate::tree::{node_items, Item, Tree, TreeId};
use vstd::prelude::*;

verus! {

/// The set holds every id of `[a, b)` that a reference among the items
/// names, and with a tree of `[a, b)` every id of `[a, b)` that a reference
/// of the tree names.
pub open spec fn links_closed(
    m: Map<TreeId, Tree>,
    s0: Seq<Item>,
    s1: Seq<Item>,
    a: int,
    b: int,
    s: Set<TreeId>,
) -> bool {
    &&& forall|x: Item| #[trigger] among(s0, s1, x) && x is Ref && a <= item_id(x) < b ==> s.contains(item_id(x))
    &&& forall|t: TreeId, x: Item|
        #![trigger s.contains(t), among(node_items(m[t].root, false), node_items(m[t].root, true), x)]
        s.contains(t) && a <= t < b && among(node_items(m[t].root, false), node_items(m[t].root, true), x) && x is Ref
            && a <= item_id(x) < b ==> s.contains(item_id(x))
}

/// The tree with the id is reached from the items by references to trees
/// of `[a, b)`: a reference among the items names it, or a reference of a
/// tree that is reached so. These are the ids that every set holds that
/// holds what the references name.
pub open spec fn linked(m: Map<TreeId, Tree>, s0: Seq<Item>, s1: Seq<Item>, a: int, b: int, t: TreeId) -> bool {
    forall|s: Set<TreeId>| #[trigger] links_closed(m, s0, s1, a, b, s) ==> s.contains(t)
}

/// Every tree of `[a, b)` is reached from the items.
#[verifier::opaque]
pub open spec fn all_linked(m: Map<TreeId, Tree>, s0: Seq<Item>, s1: Seq<Item>, a: int, b: int) -> bool {
    forall|t: TreeId| a <= t < b ==> #[trigger] linked(m, s0, s1, a, b, t)
}

/// Where there are no trees, all are reached.
pub proof fn lemma_linked_none(m: Map<TreeId, Tree>, s0: Seq<Item>, s1: Seq<Item>, a: int)
    ensures
        all_linked(m, s0, s1, a, a),
{
    reveal(all_linked);
}

/// Trees that the references name one by one are reached.
pub proof fn lemma_linked_direct(m: Map<TreeId, Tree>, s0: Seq<Item>, s1: Seq<Item>, a: int, b: int)
    requires
        s1.len() == b - a,
        forall|i: int| 0 <= i < s1.len() ==> (#[trigger] s1[i]) is Ref && item_id(s1[i]) == a + i,
    ensures
        all_linked(m, s0, s1, a, b),
{
    reveal(all_linked);
    assert forall|t: TreeId| a <= t < b implies #[trigger] linked(m, s0, s1, a, b, t) by {
        let x = s1[t - a];
        assert(s1.contains(x));
        assert forall|s: Set<TreeId>| #[trigger] links_closed(m, s0, s1, a, b, s) implies s.contains(t) by {
            assert(among(s0, s1, x));
        }
    }
}

/// Trees that are reached from some items are reached from more items,
/// among more trees.
proof fn lemma_linked_part(
    m1: Map<TreeId, Tree>,
    m2: Map<TreeId, Tree>,
    s0: Seq<Item>,
    s1: Seq<Item>,
    t0: Seq<Item>,
    t1: Seq<Item>,
    a1: int,
    b1: int,
    a: int,
    b: int,
    t: TreeId,
)
    requires
        linked(m1, s0, s1, a1, b1, t),
        a <= a1 <= b1 <= b,
        same_trees(m1, m2, a1, b1),
        forall|x: Item| #[trigger] among(s0, s1, x) ==> among(t0, t1, x),
    ensures
        linked(m2, t0, t1, a, b, t),
{
    assert forall|s: Set<TreeId>| #[trigger] links_closed(m2, t0, t1, a, b, s) implies s.contains(t) by {
        assert forall|x: Item| #[trigger] among(s0, s1, x) && x is Ref && a1 <= item_id(x) < b1 implies s.contains(
            item_id(x),
        ) by {
            assert(among(t0, t1, x));
        }
        assert forall|u: TreeId, x: Item|
            #![trigger s.contains(u), among(node_items(m1[u].root, false), node_items(m1[u].root, true), x)]
            s.contains(u) && a1 <= u < b1 && among(node_items(m1[u].root, false), node_items(m1[u].root, true), x)
                && x is Ref && a1 <= item_id(x) < b1 implies s.contains(item_id(x)) by {
            assert(m1[u] == m2[u]);
            assert(among(node_items(m2[u].root, false), node_items(m2[u].root, true), x));
        }
        assert(links_closed(m1, s0, s1, a1, b1, s));
    }
}

/// The trees reached from what was held and the trees reached from one
/// more child are reached from what is held with the child.
pub proof fn lemma_linked_grow(
    m1: Map<TreeId, Tree>,
    m2: Map<TreeId, Tree>,
    s0: Seq<Item>,
    s1: Seq<Item>,
    c0: Seq<Item>,
    c1: Seq<Item>,
    t0: Seq<Item>,
    t1: Seq<Item>,
    a: int,
    mid: int,
    b: int,
)
    requires
        a <= mid <= b,
        all_linked(m1, s0, s1, a, mid),
        all_linked(m2, c0, c1, mid, b),
        same_trees(m1, m2, a, mid),
        forall|x: Item| #[trigger] among(s0, s1, x) ==> among(t0, t1, x),
        forall|x: Item| #[trigger] among(c0, c1, x) ==> among(t0, t1, x),
    ensures
        all_linked(m2, t0, t1, a, b),
{
    reveal(all_linked);
    assert forall|t: TreeId| a <= t < b implies #[trigger] linked(m2, t0, t1, a, b, t) by {
        if t < mid {
            lemma_linked_part(m1, m2, s0, s1, t0, t1, a, mid, a, b, t);
        } else {
            lemma_linked_part(m2, m2, c0, c1, t0, t1, mid, b, a, b, t);
        }
    }
}

/// Trees stay reached among trees that agree with them.
pub proof fn lemma_linked_move(
    m1: Map<TreeId, Tree>,
    m2: Map<TreeId, Tree>,
    s0: Seq<Item>,
    s1: Seq<Item>,
    a: int,
    b: int,
)
    requires
        all_linked(m1, s0, s1, a, b),
        same_trees(m1, m2, a, b),
    ensures
        all_linked(m2, s0, s1, a, b),
{
    reveal(all_linked);
    assert forall|t: TreeId| a <= t < b implies #[trigger] linked(m2, s0, s1, a, b, t) by {
        lemma_linked_part(m1, m2, s0, s1, s0, s1, a, b, a, b, t);
    }
}

/// The trees reached from the root of a tree are reached, with the tree,
/// from a reference to the tree.
pub proof fn lemma_linked_under(m1: Map<TreeId, Tree>, r: TreeId, t: Tree, it: Item, b: int)
    requires
        r < b,
        all_linked(m1, node_items(t.root, false), node_items(t.root, true), r + 1, b),
        it is Ref,
        item_id(it) == r,
    ensures
        all_linked(m1.insert(r, t), Seq::empty(), seq![it], r as int, b),
{
    reveal(all_linked);
    let m2 = m1.insert(r, t);
    let e = Seq::<Item>::empty();
    let one = seq![it];
    let r0 = node_items(t.root, false);
    let r1 = node_items(t.root, true);
    assert(one[0] == it);
    assert(among(e, one, it));
    assert forall|u: TreeId| r <= u < b implies #[trigger] linked(m2, e, one, r as int, b, u) by {
        assert forall|s: Set<TreeId>| #[trigger] links_closed(m2, e, one, r as int, b, s) implies s.contains(u) by {
            assert(s.contains(r));
            if u != r {
                assert forall|x: Item| #[trigger] among(r0, r1, x) && x is Ref && r + 1 <= item_id(x) < b implies s.contains(
                    item_id(x),
                ) by {
                    assert(among(node_items(m2[r].root, false), node_items(m2[r].root, true), x));
                }
                assert forall|w: TreeId, x: Item|
                    #![trigger s.contains(w), among(node_items(m1[w].root, false), node_items(m1[w].root, true), x)]
                    s.contains(w) && r + 1 <= w < b && among(
                        node_items(m1[w].root, false),
                        node_items(m1[w].root, true),
                        x,
                    ) && x is Ref && r + 1 <= item_id(x) < b implies s.contains(item_id(x)) by {
                    assert(m2[w] == m1[w]);
                    assert(among(node_items(m2[w].root, false), node_items(m2[w].root, true), x));
                }
                assert(links_closed(m1, r0, r1, r + 1, b, s));
                assert(linked(m1, r0, r1, r + 1, b, u));
            }
        }
    }
}

} // verus!
