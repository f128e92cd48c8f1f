//! How what a node holds relates to the inserts it was built from: every
//! point under a node is spanned by the points of the node's range, and the
//! bounds of a reference are the tight box around them.

use crate::coord::{coord_max, coord_min, Coord};
use crate::place::{in_gap, items_in_gap, items_touch, mask_used, touches_exactly};
use crate::query::has_bit;
use crate::range::{
    coord_at, inserts_wf, lemma_range_member, order_wf, range_all, same_range, Insert,
};
use crate::tree::{point_wf, Item, Point};
use vstd::prelude::*;

verus! {

/// On axis `a` the coordinate begins where one insert of the positions
/// `[lo, hi)` begins and ends where one of them ends.
#[verifier::opaque]
pub open spec fn axis_spanned(
    c: Coord,
    inserts: Seq<Insert>,
    sorted: Seq<usize>,
    lo: int,
    hi: int,
    a: int,
) -> bool {
    &&& exists|i: int| lo <= i < hi && #[trigger] coord_at(inserts, sorted, i, a).lo() == c.lo()
    &&& exists|i: int| lo <= i < hi && #[trigger] coord_at(inserts, sorted, i, a).hi() == c.hi()
}

/// The point is well formed and spanned on every axis by the inserts of the
/// positions `[lo, hi)`.
pub open spec fn spanned(
    p: Seq<Coord>,
    inserts: Seq<Insert>,
    sorted: Seq<usize>,
    lo: int,
    hi: int,
    dim: nat,
) -> bool {
    &&& point_wf(p, dim)
    &&& forall|a: int| 0 <= a < dim ==> #[trigger] axis_spanned(p[a], inserts, sorted, lo, hi, a)
}

/// Every item is spanned by the positions `[lo, hi)`.
#[verifier::opaque]
pub open spec fn items_spanned(
    s: Seq<Item>,
    inserts: Seq<Insert>,
    sorted: Seq<usize>,
    lo: int,
    hi: int,
    dim: nat,
) -> bool {
    forall|j: int| 0 <= j < s.len() ==> spanned((#[trigger] s[j]).point(), inserts, sorted, lo, hi, dim)
}

/// The box is the tight one around the inserts of the positions `[lo, hi)`:
/// an interval on every axis, from the least lower endpoint to the greatest
/// upper endpoint.
pub open spec fn tight_box(
    b: Seq<Coord>,
    inserts: Seq<Insert>,
    sorted: Seq<usize>,
    lo: int,
    hi: int,
    dim: nat,
) -> bool {
    &&& b.len() == dim
    &&& forall|a: int|
        0 <= a < dim ==> {
            &&& #[trigger] b[a] is Interval
            &&& forall|i: int|
                lo <= i < hi ==> b[a].lo() <= (#[trigger] coord_at(inserts, sorted, i, a)).lo() && coord_at(
                    inserts,
                    sorted,
                    i,
                    a,
                ).hi() <= b[a].hi()
            &&& exists|i: int| lo <= i < hi && #[trigger] coord_at(inserts, sorted, i, a).lo() == b[a].lo()
            &&& exists|i: int| lo <= i < hi && #[trigger] coord_at(inserts, sorted, i, a).hi() == b[a].hi()
        }
}

/// Spanning survives a permutation of the range and a widening of it.
pub proof fn lemma_spanned_move(
    p: Seq<Coord>,
    inserts: Seq<Insert>,
    s1: Seq<usize>,
    s2: Seq<usize>,
    lo: int,
    hi: int,
    wlo: int,
    whi: int,
    dim: nat,
)
    requires
        spanned(p, inserts, s2, lo, hi, dim),
        same_range(s1, s2, wlo, whi),
        wlo <= lo <= hi <= whi,
    ensures
        spanned(p, inserts, s1, wlo, whi, dim),
{
    reveal(axis_spanned);
    assert forall|a: int| 0 <= a < dim implies #[trigger] axis_spanned(p[a], inserts, s1, wlo, whi, a) by {
        assert(axis_spanned(p[a], inserts, s2, lo, hi, a));
        let i = choose|i: int| lo <= i < hi && #[trigger] coord_at(inserts, s2, i, a).lo() == p[a].lo();
        let k = lemma_range_member(s1, s2, wlo, whi, i);
        assert(coord_at(inserts, s1, k, a).lo() == p[a].lo());
        let i2 = choose|i: int| lo <= i < hi && #[trigger] coord_at(inserts, s2, i, a).hi() == p[a].hi();
        let k2 = lemma_range_member(s1, s2, wlo, whi, i2);
        assert(coord_at(inserts, s1, k2, a).hi() == p[a].hi());
    }
}

/// Nothing is spanned trivially.
pub proof fn lemma_items_spanned_empty(inserts: Seq<Insert>, sorted: Seq<usize>, lo: int, hi: int, dim: nat)
    ensures
        items_spanned(Seq::<Item>::empty(), inserts, sorted, lo, hi, dim),
{
    reveal(items_spanned);
}

/// Items are spanned when each of them is.
pub proof fn lemma_items_spanned_push(
    s: Seq<Item>,
    it: Item,
    inserts: Seq<Insert>,
    sorted: Seq<usize>,
    lo: int,
    hi: int,
    dim: nat,
)
    requires
        items_spanned(s, inserts, sorted, lo, hi, dim),
        spanned(it.point(), inserts, sorted, lo, hi, dim),
    ensures
        items_spanned(s.push(it), inserts, sorted, lo, hi, dim),
{
    reveal(items_spanned);
}

/// Two sequences of spanned items make one.
pub proof fn lemma_items_spanned_add(
    x: Seq<Item>,
    y: Seq<Item>,
    inserts: Seq<Insert>,
    sorted: Seq<usize>,
    lo: int,
    hi: int,
    dim: nat,
)
    requires
        items_spanned(x, inserts, sorted, lo, hi, dim),
        items_spanned(y, inserts, sorted, lo, hi, dim),
    ensures
        items_spanned(x + y, inserts, sorted, lo, hi, dim),
{
    reveal(items_spanned);
    assert forall|j: int| 0 <= j < (x + y).len() implies spanned(
        (#[trigger] (x + y)[j]).point(),
        inserts,
        sorted,
        lo,
        hi,
        dim,
    ) by {
        if j < x.len() {
            assert((x + y)[j] == x[j]);
        } else {
            assert((x + y)[j] == y[j - x.len()]);
        }
    }
}

/// Spanned items are well-formed points.
pub proof fn lemma_items_spanned_wf(
    s: Seq<Item>,
    inserts: Seq<Insert>,
    sorted: Seq<usize>,
    lo: int,
    hi: int,
    dim: nat,
)
    requires
        items_spanned(s, inserts, sorted, lo, hi, dim),
    ensures
        crate::tree::items_wf(s, dim),
{
    reveal(items_spanned);
}

/// Spanning of items survives a permutation of the range and a widening.
pub proof fn lemma_items_spanned_move(
    s: Seq<Item>,
    inserts: Seq<Insert>,
    s1: Seq<usize>,
    s2: Seq<usize>,
    lo: int,
    hi: int,
    wlo: int,
    whi: int,
    dim: nat,
)
    requires
        items_spanned(s, inserts, s2, lo, hi, dim),
        same_range(s1, s2, wlo, whi),
        wlo <= lo <= hi <= whi,
    ensures
        items_spanned(s, inserts, s1, wlo, whi, dim),
{
    reveal(items_spanned);
    assert forall|j: int| 0 <= j < s.len() implies spanned(
        (#[trigger] s[j]).point(),
        inserts,
        s1,
        wlo,
        whi,
        dim,
    ) by {
        lemma_spanned_move(s[j].point(), inserts, s1, s2, lo, hi, wlo, whi, dim);
    }
}

/// On axis `a`, every insert of the positions `[lo, hi)` touches exactly the
/// pivots of the mask.
pub open spec fn range_touch(
    inserts: Seq<Insert>,
    sorted: Seq<usize>,
    lo: int,
    hi: int,
    a: int,
    pivots: Seq<i64>,
    m: u32,
) -> bool {
    range_all(inserts, sorted, lo, hi, a, touch_fn(pivots, m))
}

/// The test of touching exactly the pivots of a mask.
pub open spec fn touch_fn(pivots: Seq<i64>, m: u32) -> spec_fn(Coord) -> bool {
    |c: Coord| touches_exactly(c, pivots, m)
}

/// The test of lying strictly inside gap `k`.
pub open spec fn gap_fn(pivots: Seq<i64>, k: int) -> spec_fn(Coord) -> bool {
    |c: Coord| in_gap(c, pivots, k)
}

/// On axis `a`, every insert of the positions `[lo, hi)` lies strictly inside
/// gap `k`.
pub open spec fn range_in_gap(
    inserts: Seq<Insert>,
    sorted: Seq<usize>,
    lo: int,
    hi: int,
    a: int,
    pivots: Seq<i64>,
    k: int,
) -> bool {
    range_all(inserts, sorted, lo, hi, a, gap_fn(pivots, k))
}

/// What is spanned by coordinates that touch exactly the pivots of a mask
/// touches exactly those too.
pub proof fn lemma_span_touch(c: Coord, c1: Coord, c2: Coord, pivots: Seq<i64>, m: u32)
    requires
        touches_exactly(c1, pivots, m),
        touches_exactly(c2, pivots, m),
        mask_used(pivots, m),
        c.lo() == c1.lo(),
        c.hi() == c2.hi(),
    ensures
        touches_exactly(c, pivots, m),
{
    let q = choose|i: u32| i < pivots.len() && i < 32 && #[trigger] has_bit(m, i);
    assert(c1.contains(pivots[q as int] as int));
    assert(c2.contains(pivots[q as int] as int));
    assert forall|i: u32| i < pivots.len() && i < 32 implies (c.contains(pivots[i as int] as int)
        <==> #[trigger] has_bit(m, i)) by {
        if has_bit(m, i) {
            assert(c1.contains(pivots[i as int] as int));
            assert(c2.contains(pivots[i as int] as int));
        } else {
            assert(!c1.contains(pivots[i as int] as int));
            assert(!c2.contains(pivots[i as int] as int));
        }
    }
}

/// Items spanned by a range that touches exactly the pivots of a mask touch
/// exactly those.
pub proof fn lemma_items_touch(
    s: Seq<Item>,
    inserts: Seq<Insert>,
    sorted: Seq<usize>,
    lo: int,
    hi: int,
    dim: nat,
    a: int,
    pivots: Seq<i64>,
    m: u32,
)
    requires
        0 <= a < dim,
        items_spanned(s, inserts, sorted, lo, hi, dim),
        range_touch(inserts, sorted, lo, hi, a, pivots, m),
        mask_used(pivots, m),
    ensures
        items_touch(s, a, pivots, m),
{
    reveal(items_spanned);
    reveal(axis_spanned);
    assert forall|j: int| 0 <= j < s.len() implies a < (#[trigger] s[j]).point().len() && touches_exactly(
        s[j].point()[a],
        pivots,
        m,
    ) by {
        let p = s[j].point();
        assert(spanned(p, inserts, sorted, lo, hi, dim));
        assert(axis_spanned(p[a], inserts, sorted, lo, hi, a));
        let i1 = choose|i: int| lo <= i < hi && #[trigger] coord_at(inserts, sorted, i, a).lo() == p[a].lo();
        let i2 = choose|i: int| lo <= i < hi && #[trigger] coord_at(inserts, sorted, i, a).hi() == p[a].hi();
        lemma_span_touch(
            p[a],
            coord_at(inserts, sorted, i1, a),
            coord_at(inserts, sorted, i2, a),
            pivots,
            m,
        );
    }
}

/// Items spanned by a range that lies strictly inside a gap lie inside it.
pub proof fn lemma_items_in_gap(
    s: Seq<Item>,
    inserts: Seq<Insert>,
    sorted: Seq<usize>,
    lo: int,
    hi: int,
    dim: nat,
    a: int,
    pivots: Seq<i64>,
    k: int,
)
    requires
        0 <= a < dim,
        items_spanned(s, inserts, sorted, lo, hi, dim),
        range_in_gap(inserts, sorted, lo, hi, a, pivots, k),
    ensures
        items_in_gap(s, a, pivots, k),
{
    reveal(items_spanned);
    reveal(axis_spanned);
    assert forall|j: int| 0 <= j < s.len() implies a < (#[trigger] s[j]).point().len() && in_gap(
        s[j].point()[a],
        pivots,
        k,
    ) by {
        let p = s[j].point();
        assert(spanned(p, inserts, sorted, lo, hi, dim));
        assert(axis_spanned(p[a], inserts, sorted, lo, hi, a));
        let i1 = choose|i: int| lo <= i < hi && #[trigger] coord_at(inserts, sorted, i, a).lo() == p[a].lo();
        let i2 = choose|i: int| lo <= i < hi && #[trigger] coord_at(inserts, sorted, i, a).hi() == p[a].hi();
        assert(in_gap(coord_at(inserts, sorted, i1, a), pivots, k));
        assert(in_gap(coord_at(inserts, sorted, i2, a), pivots, k));
    }
}

/// The tight box around the inserts of the positions `[lo, hi)`.
pub fn get_bounds(sorted: &Vec<usize>, inserts: &[Insert], lo: usize, hi: usize, dim: usize) -> (b: Point)
    requires
        lo < hi <= sorted@.len(),
        order_wf(sorted@, inserts@.len() as nat),
        inserts_wf(inserts@, dim as nat),
    ensures
        tight_box(b@, inserts@, sorted@, lo as int, hi as int, dim as nat),
        spanned(b@, inserts@, sorted@, lo as int, hi as int, dim as nat),
{
    let mut b: Point = Vec::new();
    let mut a: usize = 0;
    while a < dim
        invariant
            a <= dim,
            lo < hi <= sorted@.len(),
            order_wf(sorted@, inserts@.len() as nat),
            inserts_wf(inserts@, dim as nat),
            b@.len() == a,
            forall|x: int|
                0 <= x < a ==> {
                    &&& #[trigger] b@[x] is Interval
                    &&& b@[x].wf()
                    &&& forall|i: int|
                        lo <= i < hi ==> b@[x].lo() <= (#[trigger] coord_at(inserts@, sorted@, i, x)).lo()
                            && coord_at(inserts@, sorted@, i, x).hi() <= b@[x].hi()
                    &&& exists|i: int|
                        lo <= i < hi && #[trigger] coord_at(inserts@, sorted@, i, x).lo() == b@[x].lo()
                    &&& exists|i: int|
                        lo <= i < hi && #[trigger] coord_at(inserts@, sorted@, i, x).hi() == b@[x].hi()
                },
        decreases dim - a,
    {
        let first = sorted[lo];
        let c0 = inserts[first].0[a];
        assert(c0 == coord_at(inserts@, sorted@, lo as int, a as int));
        assert(c0.wf());
        let mut min: i64 = match c0 {
            Coord::Scalar(x) => x,
            Coord::Interval(x, _) => x,
        };
        let mut max: i64 = match c0 {
            Coord::Scalar(x) => x,
            Coord::Interval(_, x) => x,
        };
        let mut i: usize = lo + 1;
        while i < hi
            invariant
                lo < i <= hi <= sorted@.len(),
                a < dim,
                order_wf(sorted@, inserts@.len() as nat),
                inserts_wf(inserts@, dim as nat),
                min <= max,
                forall|k: int|
                    lo <= k < i ==> min <= (#[trigger] coord_at(inserts@, sorted@, k, a as int)).lo()
                        && coord_at(inserts@, sorted@, k, a as int).hi() <= max,
                exists|k: int| lo <= k < i && #[trigger] coord_at(inserts@, sorted@, k, a as int).lo() == min,
                exists|k: int| lo <= k < i && #[trigger] coord_at(inserts@, sorted@, k, a as int).hi() == max,
            decreases hi - i,
        {
            let j = sorted[i];
            let c = &inserts[j].0[a];
            assert(*c == coord_at(inserts@, sorted@, i as int, a as int));
            assert(c.wf());
            min = coord_min(c, &min);
            max = coord_max(c, &max);
            i += 1;
        }
        let ghost before = b@;
        b.push(Coord::Interval(min, max));
        assert(forall|x: int| 0 <= x < a ==> b@[x] == before[x]);
        a += 1;
    }
    assert forall|x: int| 0 <= x < dim implies (#[trigger] b@[x]).wf() by {}
    reveal(axis_spanned);
    assert forall|x: int| 0 <= x < dim implies #[trigger] axis_spanned(
        b@[x],
        inserts@,
        sorted@,
        lo as int,
        hi as int,
        x,
    ) by {}
    b
}

} // verus!
