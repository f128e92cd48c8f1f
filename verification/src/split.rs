//! How a branch deals its range out to its children: first one group for
//! each set of pivots that some record touches, then one group for each gap.

use crate::coord::Coord;
use crate::place::{mask_used, touches_exactly};
use crate::query::{has_bit, lemma_bit_zero, some_bit};
use crate::range::{
    coord_at, inserts_wf, lemma_mask_bits, lemma_order_wf_perm, lemma_range_all_frame,
    lemma_range_all_perm, lemma_range_member, lemma_same_range_sym, lemma_same_range_trans,
    lemma_same_range_widen, mask_of, mask_spec, order_wf, partition, pick_holds, range_all,
    same_range, Insert, Pick,
};
use crate::span::{gap_fn, range_in_gap, range_touch, touch_fn};
use vstd::prelude::*;

verus! {

/// The groups of a branch: group `g` is the positions from `cuts[g]` up to
/// `cuts[g + 1]`. The first groups, one for each mask, go to the
/// intersection children; the others, one for each gap, to the gap children.
pub struct Groups {
    pub masks: Vec<u32>,
    pub cuts: Vec<usize>,
}

/// How many positions group `g` holds.
pub open spec fn gsize(cuts: Seq<usize>, g: int) -> int {
    cuts[g + 1] - cuts[g]
}

/// The cuts run from `lo` to `hi` without going back, with one group for
/// each mask, none of them empty, and one for each of the `n + 1` gaps.
pub open spec fn groups_wf(masks: Seq<u32>, cuts: Seq<usize>, lo: int, hi: int, n: int) -> bool {
    &&& cuts.len() == masks.len() + n + 2
    &&& cuts[0] == lo
    &&& cuts[cuts.len() - 1] == hi
    &&& forall|x: int, y: int| 0 <= x <= y < cuts.len() ==> cuts[x] <= cuts[y]
    &&& forall|g: int| 0 <= g < masks.len() ==> #[trigger] gsize(cuts, g) > 0
}

/// What holds of group `g` on the axis of the branch: under a mask, every
/// insert touches exactly the pivots of the mask, which names one at least;
/// under a gap, every insert lies strictly inside it.
pub open spec fn group_fact(
    inserts: Seq<Insert>,
    sorted: Seq<usize>,
    masks: Seq<u32>,
    cuts: Seq<usize>,
    g: int,
    a: int,
    pivots: Seq<i64>,
) -> bool {
    if g < masks.len() {
        &&& mask_used(pivots, masks[g])
        &&& range_touch(inserts, sorted, cuts[g] as int, cuts[g + 1] as int, a, pivots, masks[g])
    } else {
        range_in_gap(inserts, sorted, cuts[g] as int, cuts[g + 1] as int, a, pivots, g - masks.len())
    }
}

/// `group_fact` of every group from `from` on, up to `upto`.
pub open spec fn groups_placed(
    inserts: Seq<Insert>,
    sorted: Seq<usize>,
    masks: Seq<u32>,
    cuts: Seq<usize>,
    a: int,
    pivots: Seq<i64>,
    from: int,
    upto: int,
) -> bool {
    forall|g: int| from <= g < upto ==> #[trigger] group_fact(inserts, sorted, masks, cuts, g, a, pivots)
}

/// The test of being in order and touching none of the pivots.
pub open spec fn free_fn(pivots: Seq<i64>) -> spec_fn(Coord) -> bool {
    |c: Coord| c.wf() && forall|t: int| 0 <= t < pivots.len() ==> !c.contains(#[trigger] pivots[t] as int)
}

/// The test of beginning above `p`.
pub open spec fn above_fn(p: i64) -> spec_fn(Coord) -> bool {
    |c: Coord| c.lo() > p
}

/// The test of having mask zero.
pub open spec fn zero_fn(pivots: Seq<i64>) -> spec_fn(Coord) -> bool {
    |c: Coord| mask_spec(c, pivots) == 0
}

/// A coordinate picked by a mask touches exactly the pivots of the mask.
proof fn lemma_mask_touch(c: Coord, pivots: Seq<i64>)
    requires
        pivots.len() <= 32,
    ensures
        touches_exactly(c, pivots, mask_spec(c, pivots)),
        mask_spec(c, pivots) != 0 ==> mask_used(pivots, mask_spec(c, pivots)),
        mask_spec(c, pivots) == 0 ==> forall|t: int|
            0 <= t < pivots.len() ==> !c.contains(#[trigger] pivots[t] as int),
{
    let m = mask_spec(c, pivots);
    lemma_mask_bits(c, pivots, pivots.len());
    if m != 0 {
        let i = some_bit(m);
        assert(has_bit(m, i) && i < pivots.len());
    }
    if m == 0 {
        assert forall|t: int| 0 <= t < pivots.len() implies !c.contains(#[trigger] pivots[t] as int) by {
            let tu = t as u32;
            lemma_bit_zero(tu);
            assert(!has_bit(m, tu));
        }
    }
}

/// Facts about groups hold while their positions are untouched.
pub proof fn lemma_groups_frame(
    inserts: Seq<Insert>,
    s1: Seq<usize>,
    s2: Seq<usize>,
    masks: Seq<u32>,
    cuts: Seq<usize>,
    a: int,
    pivots: Seq<i64>,
    from: int,
    upto: int,
    lo: int,
    hi: int,
)
    requires
        groups_placed(inserts, s1, masks, cuts, a, pivots, from, upto),
        0 <= from,
        upto <= cuts.len() - 1,
        forall|x: int, y: int| 0 <= x <= y < cuts.len() ==> cuts[x] <= cuts[y],
        same_range(s1, s2, lo, hi),
        from < upto ==> (hi <= cuts[from] || cuts[upto] <= lo),
        0 <= cuts[0],
        cuts[cuts.len() - 1] <= s1.len(),
    ensures
        groups_placed(inserts, s2, masks, cuts, a, pivots, from, upto),
{
    crate::range::lemma_same_range_outside(s1, s2, lo, hi);
    assert forall|g: int| from <= g < upto implies #[trigger] group_fact(
        inserts,
        s2,
        masks,
        cuts,
        g,
        a,
        pivots,
    ) by {
        assert(group_fact(inserts, s1, masks, cuts, g, a, pivots));
        let glo = cuts[g] as int;
        let ghi = cuts[g + 1] as int;
        assert(cuts[from] <= cuts[g] && cuts[g + 1] <= cuts[upto]);
        assert(cuts[0] <= cuts[g] && cuts[g + 1] <= cuts[cuts.len() - 1]);
        assert forall|i: int| glo <= i < ghi implies s1[i] == s2[i] by {}
        if g < masks.len() {
            lemma_range_all_frame(inserts, s1, s2, glo, ghi, a, touch_fn(pivots, masks[g]));
        } else {
            lemma_range_all_frame(inserts, s1, s2, glo, ghi, a, gap_fn(pivots, g - masks.len()));
        }
    }
}

/// Deals the positions `[lo, hi)` out into the groups of a branch with the
/// given pivots on the given axis, permuting the range in place.
pub fn split(
    sorted: &mut Vec<usize>,
    inserts: &[Insert],
    lo: usize,
    hi: usize,
    axis: usize,
    pivots: &Vec<i64>,
    Ghost(dim): Ghost<nat>,
) -> (g: Groups)
    requires
        lo <= hi <= old(sorted)@.len(),
        order_wf(old(sorted)@, inserts@.len() as nat),
        inserts_wf(inserts@, dim),
        axis < dim,
        1 <= pivots@.len() <= 32,
    ensures
        order_wf(final(sorted)@, inserts@.len() as nat),
        same_range(old(sorted)@, final(sorted)@, lo as int, hi as int),
        groups_wf(g.masks@, g.cuts@, lo as int, hi as int, pivots@.len() as int),
        groups_placed(
            inserts@,
            final(sorted)@,
            g.masks@,
            g.cuts@,
            axis as int,
            pivots@,
            0,
            g.cuts@.len() - 1,
        ),
{
    let ghost s0 = sorted@;
    let ghost a = axis as int;
    let n = pivots.len();
    let mut masks: Vec<u32> = Vec::new();
    let mut cuts: Vec<usize> = Vec::new();
    cuts.push(lo);
    let mut idx: usize = lo;
    let mut done: bool = false;
    proof {
        crate::range::lemma_same_range_refl(s0, lo as int, hi as int);
    }
    while !done
        invariant
            lo <= idx <= hi <= sorted@.len(),
            n == pivots@.len(),
            1 <= n <= 32,
            a == axis as int,
            axis < dim,
            inserts_wf(inserts@, dim),
            order_wf(sorted@, inserts@.len() as nat),
            same_range(s0, sorted@, lo as int, hi as int),
            cuts@.len() == masks@.len() + 1,
            cuts@[0] == lo,
            cuts@[cuts@.len() - 1] == idx,
            forall|x: int, y: int| 0 <= x <= y < cuts@.len() ==> cuts@[x] <= cuts@[y],
            forall|g: int| 0 <= g < masks@.len() ==> #[trigger] gsize(cuts@, g) > 0,
            groups_placed(inserts@, sorted@, masks@, cuts@, a, pivots@, 0, masks@.len() as int),
            done ==> range_all(inserts@, sorted@, idx as int, hi as int, a, zero_fn(pivots@)),
        decreases hi - idx, if done { 0int } else { 1int },
    {
        let mut j: usize = idx;
        while j < hi && mask_of(&inserts[sorted[j]].0[axis], pivots) == 0
            invariant
                idx <= j <= hi <= sorted@.len(),
                n == pivots@.len(),
                n <= 32,
                a == axis as int,
                axis < dim,
                inserts_wf(inserts@, dim),
                order_wf(sorted@, inserts@.len() as nat),
                range_all(inserts@, sorted@, idx as int, j as int, a, zero_fn(pivots@)),
            decreases hi - j,
        {
            j += 1;
        }
        if j >= hi {
            done = true;
        } else {
            let m = mask_of(&inserts[sorted[j]].0[axis], pivots);
            let ghost cj = coord_at(inserts@, sorted@, j as int, a);
            let ghost before = sorted@;
            let pick = Pick::Mask(m);
            let cnt = partition(sorted, inserts, idx, hi, &pick, axis, pivots);
            proof {
                lemma_order_wf_perm(before, sorted@, idx as int, hi as int, inserts@.len() as nat);
                lemma_same_range_widen(before, sorted@, idx as int, hi as int, lo as int, hi as int);
                lemma_same_range_trans(s0, before, sorted@, lo as int, hi as int);
                // the insert that gave the mask is among those picked
                lemma_same_range_sym(before, sorted@, idx as int, hi as int);
                let k = lemma_range_member(sorted@, before, idx as int, hi as int, j as int);
                assert(coord_at(inserts@, sorted@, k, a) == cj);
                assert(pick_holds(pick, cj, pivots@));
                assert(k < idx + cnt);
                lemma_mask_touch(cj, pivots@);
                // the earlier groups are where they were
                lemma_groups_frame(
                    inserts@,
                    before,
                    sorted@,
                    masks@,
                    cuts@,
                    a,
                    pivots@,
                    0,
                    masks@.len() as int,
                    idx as int,
                    hi as int,
                );
                assert forall|i: int| idx <= i < idx + cnt implies touch_fn(pivots@, m)(
                    #[trigger] coord_at(inserts@, sorted@, i, a),
                ) by {
                    let c = coord_at(inserts@, sorted@, i, a);
                    assert(pick_holds(pick, c, pivots@));
                    lemma_mask_touch(c, pivots@);
                }
            }
            let ghost masks0 = masks@;
            let ghost cuts0 = cuts@;
            masks.push(m);
            cuts.push(idx + cnt);
            proof {
                let b = masks0.len() as int;
                assert forall|g: int| 0 <= g < masks@.len() implies #[trigger] gsize(cuts@, g) > 0 by {
                    if g < b {
                        assert(gsize(cuts0, g) > 0);
                        assert(cuts@[g] == cuts0[g] && cuts@[g + 1] == cuts0[g + 1]);
                    }
                }
                assert forall|g: int| 0 <= g < masks@.len() implies #[trigger] group_fact(
                    inserts@,
                    sorted@,
                    masks@,
                    cuts@,
                    g,
                    a,
                    pivots@,
                ) by {
                    if g < b {
                        assert(group_fact(inserts@, sorted@, masks0, cuts0, g, a, pivots@));
                        assert(masks@[g] == masks0[g]);
                        assert(cuts@[g] == cuts0[g] && cuts@[g + 1] == cuts0[g + 1]);
                    }
                }
            }
            idx = idx + cnt;
        }
    }
    let ghost b = masks@.len() as int;
    // what is left touches no pivot
    proof {
        assert forall|i: int| idx <= i < hi implies free_fn(pivots@)(
            #[trigger] coord_at(inserts@, sorted@, i, a),
        ) by {
            let c = coord_at(inserts@, sorted@, i, a);
            assert(zero_fn(pivots@)(c));
            lemma_mask_touch(c, pivots@);
            assert(c == inserts@[sorted@[i] as int].0@[a]);
        }
    }
    let mut k: usize = 0;
    while k < n
        invariant
            lo <= idx <= hi <= sorted@.len(),
            n == pivots@.len(),
            1 <= n <= 32,
            k <= n,
            a == axis as int,
            axis < dim,
            b == masks@.len(),
            inserts_wf(inserts@, dim),
            order_wf(sorted@, inserts@.len() as nat),
            same_range(s0, sorted@, lo as int, hi as int),
            cuts@.len() == b + 1 + k,
            cuts@[0] == lo,
            cuts@[cuts@.len() - 1] == idx,
            forall|x: int, y: int| 0 <= x <= y < cuts@.len() ==> cuts@[x] <= cuts@[y],
            forall|g: int| 0 <= g < masks@.len() ==> #[trigger] gsize(cuts@, g) > 0,
            groups_placed(inserts@, sorted@, masks@, cuts@, a, pivots@, 0, b + k),
            range_all(inserts@, sorted@, idx as int, hi as int, a, free_fn(pivots@)),
            k >= 1 ==> range_all(inserts@, sorted@, idx as int, hi as int, a, above_fn(pivots@[k - 1])),
        decreases n - k,
    {
        let pick = if k == 0 {
            Pick::Below(pivots[0])
        } else {
            Pick::Between(pivots[k - 1], pivots[k])
        };
        let ghost before = sorted@;
        let cnt = partition(sorted, inserts, idx, hi, &pick, axis, pivots);
        proof {
            lemma_order_wf_perm(before, sorted@, idx as int, hi as int, inserts@.len() as nat);
            lemma_same_range_widen(before, sorted@, idx as int, hi as int, lo as int, hi as int);
            lemma_same_range_trans(s0, before, sorted@, lo as int, hi as int);
            lemma_groups_frame(
                inserts@,
                before,
                sorted@,
                masks@,
                cuts@,
                a,
                pivots@,
                0,
                b + k,
                idx as int,
                hi as int,
            );
            lemma_range_all_perm(inserts@, before, sorted@, idx as int, hi as int, a, free_fn(pivots@));
            if k >= 1 {
                lemma_range_all_perm(
                    inserts@,
                    before,
                    sorted@,
                    idx as int,
                    hi as int,
                    a,
                    above_fn(pivots@[k - 1]),
                );
            }
            assert forall|i: int| idx <= i < idx + cnt implies gap_fn(pivots@, k as int)(
                #[trigger] coord_at(inserts@, sorted@, i, a),
            ) by {
                let c = coord_at(inserts@, sorted@, i, a);
                assert(pick_holds(pick, c, pivots@));
                assert(free_fn(pivots@)(c));
                if k >= 1 {
                    assert(above_fn(pivots@[k - 1])(c));
                    assert(!c.contains(pivots@[k as int] as int));
                }
            }
            assert forall|i: int| idx + cnt <= i < hi implies above_fn(pivots@[k as int])(
                #[trigger] coord_at(inserts@, sorted@, i, a),
            ) by {
                let c = coord_at(inserts@, sorted@, i, a);
                assert(!pick_holds(pick, c, pivots@));
                assert(free_fn(pivots@)(c));
                assert(!c.contains(pivots@[k as int] as int));
                if k >= 1 {
                    assert(above_fn(pivots@[k - 1])(c));
                } else {
                    assert(!c.contains(pivots@[0] as int));
                }
            }
        }
        let ghost cuts0 = cuts@;
        cuts.push(idx + cnt);
        proof {
            assert forall|g: int| 0 <= g < masks@.len() implies #[trigger] gsize(cuts@, g) > 0 by {
                assert(gsize(cuts0, g) > 0);
                assert(cuts@[g] == cuts0[g] && cuts@[g + 1] == cuts0[g + 1]);
            }
            assert forall|g: int| 0 <= g < b + k + 1 implies #[trigger] group_fact(
                inserts@,
                sorted@,
                masks@,
                cuts@,
                g,
                a,
                pivots@,
            ) by {
                if g < b + k {
                    assert(group_fact(inserts@, sorted@, masks@, cuts0, g, a, pivots@));
                    assert(cuts@[g] == cuts0[g] && cuts@[g + 1] == cuts0[g + 1]);
                }
            }
        }
        idx = idx + cnt;
        k += 1;
    }
    let ghost cuts0 = cuts@;
    cuts.push(hi);
    proof {
        assert forall|g: int| 0 <= g < masks@.len() implies #[trigger] gsize(cuts@, g) > 0 by {
            assert(gsize(cuts0, g) > 0);
            assert(cuts@[g] == cuts0[g] && cuts@[g + 1] == cuts0[g + 1]);
        }
        assert forall|i: int| idx <= i < hi implies gap_fn(pivots@, n as int)(
            #[trigger] coord_at(inserts@, sorted@, i, a),
        ) by {
            let c = coord_at(inserts@, sorted@, i, a);
            assert(above_fn(pivots@[n - 1])(c));
        }
        assert forall|g: int| 0 <= g < b + n + 1 implies #[trigger] group_fact(
            inserts@,
            sorted@,
            masks@,
            cuts@,
            g,
            a,
            pivots@,
        ) by {
            if g < b + n {
                assert(group_fact(inserts@, sorted@, masks@, cuts0, g, a, pivots@));
                assert(cuts@[g] == cuts0[g] && cuts@[g + 1] == cuts0[g + 1]);
            }
        }
    }
    Groups { masks, cuts }
}

} // verus!
