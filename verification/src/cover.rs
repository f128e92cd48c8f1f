//! The box of a tree: every insert of a node's range is covered by something
//! under the node, so the tight box around the range is the tight box around
//! what the node lists.

use crate::coord::Coord;
use crate::range::{coord_at, lemma_range_all_perm, range_all, same_range, Insert};
use crate::span::{axis_spanned, items_spanned, spanned, tight_box};
use crate::tree::{node_items, Item, Node};
use vstd::prelude::*;

verus! {

/// The coordinate `outer` reaches from at or below the lower endpoint of
/// `inner` to at or above its upper endpoint.
pub open spec fn around(outer: Coord, inner: Coord) -> bool {
    outer.lo() <= inner.lo() && inner.hi() <= outer.hi()
}

/// On axis `a` the item reaches around the coordinate.
pub open spec fn reaches(it: Item, c: Coord, a: int) -> bool {
    0 <= a < it.point().len() && around(it.point()[a], c)
}

/// The item is among the records `s0` or the references `s1`.
pub open spec fn among(s0: Seq<Item>, s1: Seq<Item>, it: Item) -> bool {
    s0.contains(it) || s1.contains(it)
}

/// The test of being covered on axis `a` by one of the items.
pub open spec fn cover_fn(s0: Seq<Item>, s1: Seq<Item>, a: int) -> spec_fn(Coord) -> bool {
    |c: Coord| exists|it: Item| #[trigger] among(s0, s1, it) && reaches(it, c, a)
}

/// On every axis, every insert of the positions `[lo, hi)` is covered by one
/// of the items.
#[verifier::opaque]
pub open spec fn range_covered(
    s0: Seq<Item>,
    s1: Seq<Item>,
    inserts: Seq<Insert>,
    sorted: Seq<usize>,
    lo: int,
    hi: int,
    dim: nat,
) -> bool {
    forall|a: int| 0 <= a < dim ==> #[trigger] range_all(inserts, sorted, lo, hi, a, cover_fn(s0, s1, a))
}

/// On every axis, every insert of the positions `[lo, hi)` is covered by
/// something under the node.
pub open spec fn node_covers(
    node: Node,
    inserts: Seq<Insert>,
    sorted: Seq<usize>,
    lo: int,
    hi: int,
    dim: nat,
) -> bool {
    range_covered(node_items(node, false), node_items(node, true), inserts, sorted, lo, hi, dim)
}

/// The empty range is covered.
pub proof fn lemma_covered_none(
    s0: Seq<Item>,
    s1: Seq<Item>,
    inserts: Seq<Insert>,
    sorted: Seq<usize>,
    lo: int,
    dim: nat,
)
    ensures
        range_covered(s0, s1, inserts, sorted, lo, lo, dim),
{
    reveal(range_covered);
}

/// Coverage survives a permutation of the range.
pub proof fn lemma_covered_perm(
    s0: Seq<Item>,
    s1: Seq<Item>,
    inserts: Seq<Insert>,
    o1: Seq<usize>,
    o2: Seq<usize>,
    lo: int,
    hi: int,
    dim: nat,
)
    requires
        range_covered(s0, s1, inserts, o1, lo, hi, dim),
        same_range(o1, o2, lo, hi),
    ensures
        range_covered(s0, s1, inserts, o2, lo, hi, dim),
{
    reveal(range_covered);
    assert forall|a: int| 0 <= a < dim implies #[trigger] range_all(
        inserts,
        o2,
        lo,
        hi,
        a,
        cover_fn(s0, s1, a),
    ) by {
        lemma_range_all_perm(inserts, o1, o2, lo, hi, a, cover_fn(s0, s1, a));
    }
}

/// Coverage of a range is coverage of any part of it, by any more items, in
/// any order that agrees on the part.
pub proof fn lemma_covered_part(
    s0: Seq<Item>,
    s1: Seq<Item>,
    t0: Seq<Item>,
    t1: Seq<Item>,
    inserts: Seq<Insert>,
    o1: Seq<usize>,
    o2: Seq<usize>,
    lo: int,
    hi: int,
    plo: int,
    phi: int,
    dim: nat,
)
    requires
        range_covered(s0, s1, inserts, o1, lo, hi, dim),
        lo <= plo <= phi <= hi,
        forall|i: int| plo <= i < phi ==> o1[i] == o2[i],
        forall|it: Item| #[trigger] among(s0, s1, it) ==> among(t0, t1, it),
    ensures
        range_covered(t0, t1, inserts, o2, plo, phi, dim),
{
    reveal(range_covered);
    assert forall|a: int| 0 <= a < dim implies #[trigger] range_all(
        inserts,
        o2,
        plo,
        phi,
        a,
        cover_fn(t0, t1, a),
    ) by {
        assert(range_all(inserts, o1, lo, hi, a, cover_fn(s0, s1, a)));
        assert forall|i: int| plo <= i < phi implies cover_fn(t0, t1, a)(
            #[trigger] coord_at(inserts, o2, i, a),
        ) by {
            let c = coord_at(inserts, o1, i, a);
            assert(c == coord_at(inserts, o2, i, a));
            assert(cover_fn(s0, s1, a)(c));
            let it = choose|it: Item| #[trigger] among(s0, s1, it) && reaches(it, c, a);
            assert(among(t0, t1, it) && reaches(it, c, a));
        }
    }
}

/// Two adjoining ranges that are covered make one that is.
pub proof fn lemma_covered_join(
    s0: Seq<Item>,
    s1: Seq<Item>,
    inserts: Seq<Insert>,
    sorted: Seq<usize>,
    lo: int,
    mid: int,
    hi: int,
    dim: nat,
)
    requires
        range_covered(s0, s1, inserts, sorted, lo, mid, dim),
        range_covered(s0, s1, inserts, sorted, mid, hi, dim),
    ensures
        range_covered(s0, s1, inserts, sorted, lo, hi, dim),
{
    reveal(range_covered);
    assert forall|a: int| 0 <= a < dim implies #[trigger] range_all(
        inserts,
        sorted,
        lo,
        hi,
        a,
        cover_fn(s0, s1, a),
    ) by {
        assert(range_all(inserts, sorted, lo, mid, a, cover_fn(s0, s1, a)));
        assert(range_all(inserts, sorted, mid, hi, a, cover_fn(s0, s1, a)));
    }
}

/// An item that reaches around every insert of a range covers the range.
pub proof fn lemma_covered_by_one(
    s0: Seq<Item>,
    s1: Seq<Item>,
    it: Item,
    inserts: Seq<Insert>,
    sorted: Seq<usize>,
    lo: int,
    hi: int,
    dim: nat,
)
    requires
        among(s0, s1, it),
        forall|i: int, a: int| lo <= i < hi && 0 <= a < dim ==> reaches(it, #[trigger] coord_at(inserts, sorted, i, a), a),
    ensures
        range_covered(s0, s1, inserts, sorted, lo, hi, dim),
{
    reveal(range_covered);
    assert forall|a: int| 0 <= a < dim implies #[trigger] range_all(
        inserts,
        sorted,
        lo,
        hi,
        a,
        cover_fn(s0, s1, a),
    ) by {
        assert forall|i: int| lo <= i < hi implies cover_fn(s0, s1, a)(
            #[trigger] coord_at(inserts, sorted, i, a),
        ) by {
            assert(among(s0, s1, it) && reaches(it, coord_at(inserts, sorted, i, a), a));
        }
    }
}

/// The tight box around a range reaches around every insert of any part.
pub proof fn lemma_box_reaches(
    it: Item,
    inserts: Seq<Insert>,
    sorted: Seq<usize>,
    lo: int,
    hi: int,
    wlo: int,
    whi: int,
    dim: nat,
)
    requires
        tight_box(it.point(), inserts, sorted, wlo, whi, dim),
        wlo <= lo <= hi <= whi,
    ensures
        forall|i: int, a: int| lo <= i < hi && 0 <= a < dim ==> reaches(it, #[trigger] coord_at(inserts, sorted, i, a), a),
{
    assert forall|i: int, a: int| lo <= i < hi && 0 <= a < dim implies reaches(
        it,
        #[trigger] coord_at(inserts, sorted, i, a),
        a,
    ) by {
        assert(it.point()[a] is Interval);
    }
}

/// On axis `a` the coordinate is the interval from the least lower endpoint
/// to the greatest upper endpoint of the items.
#[verifier::opaque]
pub open spec fn axis_tight(c: Coord, s0: Seq<Item>, s1: Seq<Item>, a: int) -> bool {
    &&& c is Interval
    &&& forall|it: Item| #[trigger] among(s0, s1, it) ==> a < it.point().len() && around(c, it.point()[a])
    &&& exists|it: Item| #[trigger] among(s0, s1, it) && it.point()[a].lo() == c.lo()
    &&& exists|it: Item| #[trigger] among(s0, s1, it) && it.point()[a].hi() == c.hi()
}

/// The box is the tight one around the items.
pub open spec fn tight_items(b: Seq<Coord>, s0: Seq<Item>, s1: Seq<Item>, dim: nat) -> bool {
    &&& b.len() == dim
    &&& forall|a: int| 0 <= a < dim ==> #[trigger] axis_tight(b[a], s0, s1, a)
}

/// The box is the tight one around everything that the node lists: its
/// records and its references.
pub open spec fn tight_node(b: Seq<Coord>, node: Node, dim: nat) -> bool {
    tight_items(b, node_items(node, false), node_items(node, true), dim)
}

/// There is one tight box at most.
pub proof fn lemma_tight_unique(b1: Seq<Coord>, b2: Seq<Coord>, s0: Seq<Item>, s1: Seq<Item>, dim: nat)
    requires
        tight_items(b1, s0, s1, dim),
        tight_items(b2, s0, s1, dim),
    ensures
        b1 == b2,
{
    reveal(axis_tight);
    assert forall|a: int| 0 <= a < dim implies b1[a] == b2[a] by {
        assert(axis_tight(b1[a], s0, s1, a));
        assert(axis_tight(b2[a], s0, s1, a));
        let x1 = choose|it: Item| #[trigger] among(s0, s1, it) && it.point()[a].lo() == b1[a].lo();
        let x2 = choose|it: Item| #[trigger] among(s0, s1, it) && it.point()[a].lo() == b2[a].lo();
        let y1 = choose|it: Item| #[trigger] among(s0, s1, it) && it.point()[a].hi() == b1[a].hi();
        let y2 = choose|it: Item| #[trigger] among(s0, s1, it) && it.point()[a].hi() == b2[a].hi();
        assert(b1[a].lo() == b2[a].lo());
        assert(b1[a].hi() == b2[a].hi());
    }
    assert(b1 =~= b2);
}

/// The tight box around what a node lists.
pub closed spec fn node_box(node: Node, dim: nat) -> Seq<Coord> {
    choose|b: Seq<Coord>| tight_node(b, node, dim)
}

/// A tight box around what a node lists is the box of the node.
pub proof fn lemma_node_box(b: Seq<Coord>, node: Node, dim: nat)
    requires
        tight_node(b, node, dim),
    ensures
        node_box(node, dim) == b,
        tight_node(node_box(node, dim), node, dim),
{
    lemma_tight_unique(b, node_box(node, dim), node_items(node, false), node_items(node, true), dim);
}

/// The tight box around a range is the tight box around items that the
/// range spans and that cover the range.
pub proof fn lemma_tight_transfer(
    b: Seq<Coord>,
    s0: Seq<Item>,
    s1: Seq<Item>,
    inserts: Seq<Insert>,
    sorted: Seq<usize>,
    lo: int,
    hi: int,
    dim: nat,
)
    requires
        lo < hi,
        tight_box(b, inserts, sorted, lo, hi, dim),
        items_spanned(s0, inserts, sorted, lo, hi, dim),
        items_spanned(s1, inserts, sorted, lo, hi, dim),
        range_covered(s0, s1, inserts, sorted, lo, hi, dim),
    ensures
        tight_items(b, s0, s1, dim),
{
    reveal(axis_tight);
    reveal(items_spanned);
    reveal(axis_spanned);
    reveal(range_covered);
    assert forall|a: int| 0 <= a < dim implies #[trigger] axis_tight(b[a], s0, s1, a) by {
        let c = b[a];
        assert(c is Interval);
        assert(range_all(inserts, sorted, lo, hi, a, cover_fn(s0, s1, a)));
        assert forall|it: Item| #[trigger] among(s0, s1, it) implies a < it.point().len() && around(
            c,
            it.point()[a],
        ) by {
            let p = it.point();
            if s0.contains(it) {
                let j = choose|j: int| 0 <= j < s0.len() && s0[j] == it;
                assert(spanned(s0[j].point(), inserts, sorted, lo, hi, dim));
            } else {
                let j = choose|j: int| 0 <= j < s1.len() && s1[j] == it;
                assert(spanned(s1[j].point(), inserts, sorted, lo, hi, dim));
            }
            assert(axis_spanned(p[a], inserts, sorted, lo, hi, a));
            let i1 = choose|i: int| lo <= i < hi && #[trigger] coord_at(inserts, sorted, i, a).lo() == p[a].lo();
            let i2 = choose|i: int| lo <= i < hi && #[trigger] coord_at(inserts, sorted, i, a).hi() == p[a].hi();
        }
        let i1 = choose|i: int| lo <= i < hi && #[trigger] coord_at(inserts, sorted, i, a).lo() == c.lo();
        let c1 = coord_at(inserts, sorted, i1, a);
        assert(cover_fn(s0, s1, a)(c1));
        let x1 = choose|it: Item| #[trigger] among(s0, s1, it) && reaches(it, c1, a);
        assert(around(c, x1.point()[a]));
        assert(among(s0, s1, x1) && x1.point()[a].lo() == c.lo());
        let i2 = choose|i: int| lo <= i < hi && #[trigger] coord_at(inserts, sorted, i, a).hi() == c.hi();
        let c2 = coord_at(inserts, sorted, i2, a);
        assert(cover_fn(s0, s1, a)(c2));
        let x2 = choose|it: Item| #[trigger] among(s0, s1, it) && reaches(it, c2, a);
        assert(around(c, x2.point()[a]));
        assert(among(s0, s1, x2) && x2.point()[a].hi() == c.hi());
    }
}

} // verus!
