//! What a deletion pass reaches and what it leaves: the trees under the
//! roots that it comes to by following the references whose bounds meet
//! the point of a deletion, without the records that were to be deleted.

use crate::coord::Coord;
use crate::delete::lemma_sweep_count;
use crate::place::node_placed;
use crate::remove::{follow_ids, follow_pred, found_ids, has_id, item_id, meets_any, no_id, sweep_rows};
use crate::tree::{node_items, Item, Node, Tree, TreeId, TreeRef};
use vstd::prelude::*;

verus! {

/// The first `n` roots are among the trees.
pub open spec fn roots_seen(roots: Seq<Option<TreeRef>>, seen: Set<TreeId>, n: int) -> bool {
    forall|i: int| 0 <= i < n && i < roots.len() ==> ((#[trigger] roots[i]) matches Some(r) ==> seen.contains(r.id))
}

/// Every tree that the tree refers to with bounds that meet the point of a
/// deletion is among those seen or those still to be seen.
pub open spec fn followed(t: Tree, seen: Set<TreeId>, stack: Seq<TreeId>, p: Seq<(u64, Seq<Coord>)>) -> bool {
    forall|j: int|
        0 <= j < node_items(t.root, true).len() && meets_any((#[trigger] node_items(t.root, true)[j]).point(), p)
            ==> seen.contains(item_id(node_items(t.root, true)[j])) || stack.contains(
            item_id(node_items(t.root, true)[j]),
        )
}

/// The set holds the roots, and with a tree of the registry every tree that
/// it refers to with bounds that meet the point of a deletion.
pub open spec fn closed_under(
    trees: Map<TreeId, Tree>,
    roots: Seq<Option<TreeRef>>,
    p: Seq<(u64, Seq<Coord>)>,
    s: Set<TreeId>,
) -> bool {
    &&& roots_seen(roots, s, roots.len() as int)
    &&& forall|t: TreeId|
        #[trigger] s.contains(t) && trees.dom().contains(t) ==> followed(trees[t], s, Seq::empty(), p)
}

/// The deletion pass reaches the id: it is a root, or a tree of the
/// registry that the pass reaches refers to it with bounds that meet the
/// point of a deletion. These are the ids that every set holds that holds
/// the roots and what is referred to so.
pub open spec fn in_reach(
    trees: Map<TreeId, Tree>,
    roots: Seq<Option<TreeRef>>,
    p: Seq<(u64, Seq<Coord>)>,
    t: TreeId,
) -> bool {
    forall|s: Set<TreeId>| #[trigger] closed_under(trees, roots, p, s) ==> s.contains(t)
}

/// A tree after the deletions: it holds the records that it held but those
/// whose ids were to be deleted, and the references that it held; it is
/// the tree that it was if it held no record to be deleted; and if it lost
/// a record, it is the empty leaf where nothing is left, and else a tree
/// that keeps the placement invariants.
pub open spec fn swept(t0: Tree, t1: Tree, p: Seq<(u64, Seq<Coord>)>) -> bool {
    &&& node_items(t1.root, false).to_multiset() == sweep_rows(node_items(t0.root, false), p).to_multiset()
    &&& node_items(t1.root, true).to_multiset() == node_items(t0.root, true).to_multiset()
    &&& sweep_rows(node_items(t0.root, false), p).len() == node_items(t0.root, false).len() ==> t1 == t0
    &&& sweep_rows(node_items(t0.root, false), p).len() != node_items(t0.root, false).len() && sweep_rows(
        node_items(t0.root, false),
        p,
    ).len() == 0 && node_items(t0.root, true).len() == 0 ==> (t1.root matches Node::Data(a, b) && a@.len() == 0
        && b@.len() == 0)
    &&& sweep_rows(node_items(t0.root, false), p).len() != node_items(t0.root, false).len() && rest_of(t0, p).len()
        > 0 ==> node_placed(t1.root, 0, rest_of(t0, p)[0].point().len())
}

/// What is left of a tree after the deletions: the records that stay and
/// the references.
pub open spec fn rest_of(t: Tree, p: Seq<(u64, Seq<Coord>)>) -> Seq<Item> {
    sweep_rows(node_items(t.root, false), p) + node_items(t.root, true)
}

/// Every tree that the pass reaches is in the registry, where there is a
/// deletion to make.
pub open spec fn all_there(trees: Map<TreeId, Tree>, roots: Seq<Option<TreeRef>>, p: Seq<(u64, Seq<Coord>)>) -> bool {
    p.len() > 0 ==> forall|t: TreeId| in_reach(trees, roots, p, t) ==> #[trigger] trees.dom().contains(t)
}

/// What a deletion pass leaves of the registry: every tree that it reaches
/// is swept, and every other tree is the tree that it was.
pub open spec fn passed(
    t0: Map<TreeId, Tree>,
    t1: Map<TreeId, Tree>,
    roots: Seq<Option<TreeRef>>,
    p: Seq<(u64, Seq<Coord>)>,
) -> bool {
    &&& t1.dom() == t0.dom()
    &&& forall|t: TreeId|
        #[trigger] t0.dom().contains(t) ==> (if in_reach(t0, roots, p, t) {
            swept(t0[t], t1[t], p)
        } else {
            t1[t] == t0[t]
        })
}

/// The id is to be deleted, and no tree that the pass reaches holds a
/// record with it.
pub open spec fn missing(
    trees: Map<TreeId, Tree>,
    roots: Seq<Option<TreeRef>>,
    p: Seq<(u64, Seq<Coord>)>,
    x: u64,
) -> bool {
    &&& has_id(p, x)
    &&& forall|t: TreeId|
        #![trigger trees[t]]
        in_reach(trees, roots, p, t) && trees.dom().contains(t) ==> no_id(node_items(trees[t].root, false), x)
}

/// A tree keeps what it holds when nothing is to be deleted from it.
pub proof fn lemma_swept_same(t: Tree, p: Seq<(u64, Seq<Coord>)>)
    requires
        sweep_rows(node_items(t.root, false), p).len() == node_items(t.root, false).len(),
    ensures
        swept(t, t, p),
{
    lemma_sweep_count(node_items(t.root, false), p, arbitrary());
}

/// With no deletion nothing leaves.
pub proof fn lemma_sweep_nothing(rows: Seq<Item>)
    ensures
        sweep_rows(rows, Seq::empty()) == rows,
    decreases rows.len(),
{
    let p = Seq::<(u64, Seq<Coord>)>::empty();
    if rows.len() == 0 {
        assert(sweep_rows(rows, p) =~= rows);
    } else {
        lemma_sweep_nothing(rows.skip(1));
        assert(!has_id(p, item_id(rows[0])));
        assert(seq![rows[0]] + rows.skip(1) =~= rows);
    }
}

/// A root is reached.
pub proof fn lemma_root_reached(
    trees: Map<TreeId, Tree>,
    roots: Seq<Option<TreeRef>>,
    p: Seq<(u64, Seq<Coord>)>,
    i: int,
)
    requires
        0 <= i < roots.len(),
        roots[i] is Some,
    ensures
        in_reach(trees, roots, p, roots[i]->0.id),
{
}

/// The references that are followed are those whose bounds meet the point
/// of a deletion.
pub proof fn lemma_follow(refs: Seq<Item>, p: Seq<(u64, Seq<Coord>)>)
    ensures
        forall|j: int|
            0 <= j < refs.len() && meets_any((#[trigger] refs[j]).point(), p) ==> follow_ids(refs, p).contains(
                item_id(refs[j]),
            ),
        forall|e: TreeId|
            #[trigger] follow_ids(refs, p).contains(e) ==> exists|j: int|
                0 <= j < refs.len() && meets_any((#[trigger] refs[j]).point(), p) && item_id(refs[j]) == e,
{
    let pred = follow_pred(p);
    let f = refs.filter(pred);
    let ids = follow_ids(refs, p);
    assert forall|j: int| 0 <= j < refs.len() && meets_any((#[trigger] refs[j]).point(), p) implies ids.contains(
        item_id(refs[j]),
    ) by {
        assert(pred(refs[j]));
        refs.lemma_filter_contains(pred, j);
        let i = choose|i: int| 0 <= i < f.len() && f[i] == refs[j];
        assert(ids[i] == item_id(refs[j]));
    }
    assert forall|e: TreeId| #[trigger] ids.contains(e) implies exists|j: int|
        0 <= j < refs.len() && meets_any((#[trigger] refs[j]).point(), p) && item_id(refs[j]) == e by {
        let i = choose|i: int| 0 <= i < ids.len() && ids[i] == e;
        assert(ids[i] == item_id(f[i]));
        refs.lemma_filter_pred(pred, i);
        assert(f.contains(f[i]));
        refs.lemma_filter_contains_rev(pred, f[i]);
        let j = choose|j: int| 0 <= j < refs.len() && refs[j] == f[i];
        assert(pred(refs[j]));
    }
}

/// What holds while a deletion pass is under way, of the trees as they
/// were and as they are, the trees seen, those still to be seen and the ids
/// found: what is seen or to be seen is reached; from a tree seen every
/// reference whose bounds meet the point of a deletion is seen or to be
/// seen; a tree seen is swept; and the ids found are those to be deleted
/// that a tree seen held.
#[verifier::opaque]
pub open spec fn pass_inv(
    t0: Map<TreeId, Tree>,
    t1: Map<TreeId, Tree>,
    roots: Seq<Option<TreeRef>>,
    p: Seq<(u64, Seq<Coord>)>,
    seen: Set<TreeId>,
    stack: Seq<TreeId>,
    found: Set<u64>,
) -> bool {
    &&& forall|e: TreeId| #[trigger] seen.contains(e) ==> in_reach(t0, roots, p, e)
    &&& forall|e: TreeId| #[trigger] stack.contains(e) ==> in_reach(t0, roots, p, e)
    &&& forall|t: TreeId|
        #[trigger] seen.contains(t) ==> t0.dom().contains(t) && followed(t0[t], seen, stack, p) && swept(
            t0[t],
            t1[t],
            p,
        )
    &&& forall|x: u64|
        #[trigger] found.contains(x) <==> has_id(p, x) && exists|t: TreeId|
            seen.contains(t) && !no_id(node_items((#[trigger] t0[t]).root, false), x)
}

/// A pass begins with nothing seen and nothing found.
pub proof fn lemma_pass_start(t0: Map<TreeId, Tree>, roots: Seq<Option<TreeRef>>, p: Seq<(u64, Seq<Coord>)>)
    ensures
        pass_inv(t0, t0, roots, p, Set::empty(), Seq::empty(), Set::empty()),
{
    reveal(pass_inv);
}

/// What is seen is reached, and so is what is still to be seen.
pub proof fn lemma_pass_reached(
    t0: Map<TreeId, Tree>,
    t1: Map<TreeId, Tree>,
    roots: Seq<Option<TreeRef>>,
    p: Seq<(u64, Seq<Coord>)>,
    seen: Set<TreeId>,
    stack: Seq<TreeId>,
    found: Set<u64>,
)
    requires
        pass_inv(t0, t1, roots, p, seen, stack, found),
    ensures
        forall|e: TreeId| #[trigger] seen.contains(e) ==> in_reach(t0, roots, p, e),
        forall|e: TreeId| #[trigger] stack.contains(e) ==> in_reach(t0, roots, p, e),
{
    reveal(pass_inv);
}

/// The trees still to be seen may change: by trees that are reached, and
/// without forgetting one that was not seen.
pub proof fn lemma_pass_stack(
    t0: Map<TreeId, Tree>,
    t1: Map<TreeId, Tree>,
    roots: Seq<Option<TreeRef>>,
    p: Seq<(u64, Seq<Coord>)>,
    seen: Set<TreeId>,
    stack: Seq<TreeId>,
    stack2: Seq<TreeId>,
    found: Set<u64>,
)
    requires
        pass_inv(t0, t1, roots, p, seen, stack, found),
        forall|e: TreeId| #[trigger] stack.contains(e) ==> seen.contains(e) || stack2.contains(e),
        forall|e: TreeId| #[trigger] stack2.contains(e) ==> in_reach(t0, roots, p, e),
    ensures
        pass_inv(t0, t1, roots, p, seen, stack2, found),
{
    reveal(pass_inv);
    assert forall|t: TreeId| #[trigger] seen.contains(t) implies followed(t0[t], seen, stack2, p) by {
        assert(followed(t0[t], seen, stack, p));
    }
}

/// A tree is seen: it is swept, the ids that it held are found, and the
/// references whose bounds meet the point of a deletion are put with the
/// trees still to be seen.
pub proof fn lemma_pass_visit(
    t0: Map<TreeId, Tree>,
    t1: Map<TreeId, Tree>,
    t2: Map<TreeId, Tree>,
    roots: Seq<Option<TreeRef>>,
    p: Seq<(u64, Seq<Coord>)>,
    seen: Set<TreeId>,
    stack: Seq<TreeId>,
    stack2: Seq<TreeId>,
    found: Set<u64>,
    found2: Set<u64>,
    id: TreeId,
)
    requires
        pass_inv(t0, t1, roots, p, seen, stack, found),
        t0.dom().contains(id),
        !seen.contains(id),
        stack.contains(id),
        forall|e: TreeId| #[trigger] stack.contains(e) ==> e == id || seen.contains(e) || stack2.contains(e),
        forall|e: TreeId|
            #[trigger] stack2.contains(e) ==> stack.contains(e) || follow_ids(
                node_items(t0[id].root, true),
                p,
            ).contains(e),
        forall|e: TreeId|
            #[trigger] follow_ids(node_items(t0[id].root, true), p).contains(e) ==> stack2.contains(e),
        found2 == found.union(found_ids(node_items(t0[id].root, false), p)),
        forall|w: TreeId| w != id ==> #[trigger] t2[w] == t1[w],
        swept(t0[id], t2[id], p),
    ensures
        pass_inv(t0, t2, roots, p, seen.insert(id), stack2, found2),
{
    reveal(pass_inv);
    let refs = node_items(t0[id].root, true);
    let rows = node_items(t0[id].root, false);
    let seen2 = seen.insert(id);
    lemma_follow(refs, p);
    assert forall|e: TreeId| #[trigger] stack2.contains(e) implies in_reach(t0, roots, p, e) by {
        if !stack.contains(e) {
            let j = choose|j: int|
                0 <= j < refs.len() && meets_any((#[trigger] refs[j]).point(), p) && item_id(refs[j]) == e;
            assert forall|s: Set<TreeId>| #[trigger] closed_under(t0, roots, p, s) implies s.contains(e) by {
                assert(s.contains(id));
                assert(followed(t0[id], s, Seq::empty(), p));
                assert(s.contains(item_id(refs[j])) || Seq::<TreeId>::empty().contains(item_id(refs[j])));
            }
        }
    }
    assert forall|t: TreeId| #[trigger] seen2.contains(t) implies t0.dom().contains(t) && followed(
        t0[t],
        seen2,
        stack2,
        p,
    ) && swept(t0[t], t2[t], p) by {
        if t != id {
            assert(seen.contains(t));
            assert(followed(t0[t], seen, stack, p));
            assert(t2[t] == t1[t]);
        }
    }
    assert forall|x: u64| #[trigger] found2.contains(x) <==> has_id(p, x) && exists|t: TreeId|
        seen2.contains(t) && !no_id(node_items((#[trigger] t0[t]).root, false), x) by {
        if found.contains(x) {
            let t = choose|t: TreeId| seen.contains(t) && !no_id(node_items((#[trigger] t0[t]).root, false), x);
            assert(seen2.contains(t));
        }
        if has_id(p, x) && !no_id(rows, x) {
            assert(seen2.contains(id) && !no_id(node_items(t0[id].root, false), x));
        }
        if has_id(p, x) && exists|t: TreeId|
            seen2.contains(t) && !no_id(node_items((#[trigger] t0[t]).root, false), x) {
            let t = choose|t: TreeId| seen2.contains(t) && !no_id(node_items((#[trigger] t0[t]).root, false), x);
            if t != id {
                assert(seen.contains(t));
            }
        }
    }
}

/// When no tree is still to be seen, the trees seen are those of the
/// registry that the pass reaches, each of them swept, and the ids that
/// are to be deleted and were not found are missing.
pub proof fn lemma_pass_end(
    t0: Map<TreeId, Tree>,
    t1: Map<TreeId, Tree>,
    roots: Seq<Option<TreeRef>>,
    p: Seq<(u64, Seq<Coord>)>,
    seen: Set<TreeId>,
    found: Set<u64>,
)
    requires
        pass_inv(t0, t1, roots, p, seen, Seq::empty(), found),
        roots_seen(roots, seen, roots.len() as int),
        t1.dom() == t0.dom(),
        forall|t: TreeId| t0.dom().contains(t) && !seen.contains(t) ==> t1[t] == #[trigger] t0[t],
    ensures
        forall|t: TreeId| in_reach(t0, roots, p, t) <==> #[trigger] seen.contains(t),
        forall|t: TreeId| in_reach(t0, roots, p, t) ==> #[trigger] t0.dom().contains(t),
        passed(t0, t1, roots, p),
        forall|x: u64| #[trigger] missing(t0, roots, p, x) <==> has_id(p, x) && !found.contains(x),
{
    reveal(pass_inv);
    assert(closed_under(t0, roots, p, seen)) by {
        assert forall|t: TreeId| #[trigger] seen.contains(t) && t0.dom().contains(t) implies followed(
            t0[t],
            seen,
            Seq::empty(),
            p,
        ) by {}
    }
    assert forall|t: TreeId| in_reach(t0, roots, p, t) implies #[trigger] seen.contains(t) by {}
    assert forall|x: u64| #[trigger] missing(t0, roots, p, x) <==> has_id(p, x) && !found.contains(x) by {
        if has_id(p, x) && found.contains(x) {
            let t = choose|t: TreeId| seen.contains(t) && !no_id(node_items((#[trigger] t0[t]).root, false), x);
            assert(in_reach(t0, roots, p, t) && t0.dom().contains(t));
            assert(!missing(t0, roots, p, x));
        }
        if has_id(p, x) && !found.contains(x) {
            assert forall|t: TreeId|
                #![trigger t0[t]]
                in_reach(t0, roots, p, t) && t0.dom().contains(t) implies no_id(node_items(t0[t].root, false), x) by {
                assert(seen.contains(t));
            }
        }
    }
}

} // verus!
