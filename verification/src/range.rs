//! The builder's sort order: a vector of indexes into the inserts, of which
//! each recursion owns a half-open range that it permutes in place.

use crate::coord::{intersect_coord, intersect_pivot, Coord};
use crate::query::{has_bit, lemma_bit_or, lemma_bit_zero};
use crate::tree::{insert_item, point_wf, InsertValue, Item, Point};
use vstd::prelude::*;
use vstd::seq_lib::{lemma_multiset_commutative, to_multiset_update};

verus! {

/// What the builder is given: a point and what to keep there.
pub type Insert<'a> = (Point, InsertValue<'a>);

/// The item that insert `j` stands for.
pub open spec fn ins_item(inserts: Seq<Insert>, j: int) -> Item {
    insert_item(inserts[j].0, inserts[j].1)
}

/// The coordinate on axis `a` of the insert at position `i` of the order.
pub open spec fn coord_at(inserts: Seq<Insert>, sorted: Seq<usize>, i: int, a: int) -> Coord {
    inserts[sorted[i] as int].0@[a]
}

/// The inserts are points of arity `dim` with intervals in order, and a
/// reference is inserted at its bounds.
pub open spec fn inserts_wf(inserts: Seq<Insert>, dim: nat) -> bool {
    forall|j: int|
        0 <= j < inserts.len() ==> {
            &&& point_wf((#[trigger] inserts[j]).0@, dim)
            &&& (inserts[j].1 matches InsertValue::Ref(r) ==> r.bounds@ == inserts[j].0@)
        }
}

/// The order holds one index into the inserts for each of them.
pub open spec fn order_wf(sorted: Seq<usize>, n: nat) -> bool {
    &&& sorted.len() == n
    &&& forall|i: int| 0 <= i < sorted.len() ==> #[trigger] sorted[i] < n
}

/// `s2` is `s1` with the range `[lo, hi)` permuted and the rest untouched.
#[verifier::opaque]
pub open spec fn same_range(s1: Seq<usize>, s2: Seq<usize>, lo: int, hi: int) -> bool {
    &&& s1.len() == s2.len()
    &&& 0 <= lo <= hi <= s1.len()
    &&& forall|i: int| 0 <= i < s1.len() && !(lo <= i < hi) ==> #[trigger] s1[i] == s2[i]
    &&& s1.subrange(lo, hi).to_multiset() == s2.subrange(lo, hi).to_multiset()
}

/// Exchanging two entries of a range permutes it.
pub proof fn lemma_swap_range(s: Seq<usize>, lo: int, hi: int, i: int, j: int)
    requires
        0 <= lo <= i < hi <= s.len(),
        lo <= j < hi,
    ensures
        same_range(s, s.update(i, s[j]).update(j, s[i]), lo, hi),
{
    reveal(same_range);
    let t = s.update(i, s[j]).update(j, s[i]);
    let a = s.subrange(lo, hi);
    let b = a.update(i - lo, s[j]);
    let c = b.update(j - lo, s[i]);
    assert(t.subrange(lo, hi) =~= c);
    broadcast use vstd::multiset::group_multiset_axioms;

    to_multiset_update(a, i - lo, s[j]);
    to_multiset_update(b, j - lo, s[i]);
    a.to_multiset_ensures();
    assert(a[i - lo] == s[i] && a[j - lo] == s[j]);
    assert(a.contains(s[i]) && a.contains(s[j]));
    if i == j {
        assert(c =~= a);
    } else {
        assert(b[j - lo] == s[j]);
        assert(c.to_multiset() =~= a.to_multiset());
    }
}

/// A permutation of a part of a range permutes the range.
pub proof fn lemma_same_range_widen(s1: Seq<usize>, s2: Seq<usize>, lo: int, hi: int, wlo: int, whi: int)
    requires
        same_range(s1, s2, lo, hi),
        0 <= wlo <= lo,
        hi <= whi <= s1.len(),
    ensures
        same_range(s1, s2, wlo, whi),
{
    reveal(same_range);
    let a1 = s1.subrange(wlo, lo);
    let b1 = s1.subrange(lo, hi);
    let c1 = s1.subrange(hi, whi);
    let a2 = s2.subrange(wlo, lo);
    let b2 = s2.subrange(lo, hi);
    let c2 = s2.subrange(hi, whi);
    assert(a1 =~= a2);
    assert(c1 =~= c2);
    assert(s1.subrange(wlo, whi) =~= (a1 + b1) + c1);
    assert(s2.subrange(wlo, whi) =~= (a2 + b2) + c2);
    lemma_multiset_commutative(a1, b1);
    lemma_multiset_commutative(a1 + b1, c1);
    lemma_multiset_commutative(a2, b2);
    lemma_multiset_commutative(a2 + b2, c2);
}

/// Permutations of one range compose.
pub proof fn lemma_same_range_trans(s1: Seq<usize>, s2: Seq<usize>, s3: Seq<usize>, lo: int, hi: int)
    requires
        same_range(s1, s2, lo, hi),
        same_range(s2, s3, lo, hi),
    ensures
        same_range(s1, s3, lo, hi),
{
    reveal(same_range);
}

/// An order is a permutation of itself.
pub proof fn lemma_same_range_refl(s: Seq<usize>, lo: int, hi: int)
    requires
        0 <= lo <= hi <= s.len(),
    ensures
        same_range(s, s, lo, hi),
{
    reveal(same_range);
}

/// A permutation of a range leaves the rest where it was.
pub proof fn lemma_same_range_outside(s1: Seq<usize>, s2: Seq<usize>, lo: int, hi: int)
    requires
        same_range(s1, s2, lo, hi),
    ensures
        s1.len() == s2.len(),
        0 <= lo <= hi <= s1.len(),
        forall|i: int| 0 <= i < s1.len() && !(lo <= i < hi) ==> #[trigger] s1[i] == s2[i],
{
    reveal(same_range);
}

/// Every entry of a permuted range was in the range before.
pub proof fn lemma_range_member(s1: Seq<usize>, s2: Seq<usize>, lo: int, hi: int, i: int) -> (k: int)
    requires
        same_range(s1, s2, lo, hi),
        lo <= i < hi,
    ensures
        lo <= k < hi,
        s1[k] == s2[i],
{
    reveal(same_range);
    let a = s1.subrange(lo, hi);
    let b = s2.subrange(lo, hi);
    a.to_multiset_ensures();
    b.to_multiset_ensures();
    assert(b[i - lo] == s2[i]);
    assert(b.contains(s2[i]));
    assert(b.to_multiset().count(s2[i]) > 0);
    assert(a.to_multiset().count(s2[i]) > 0);
    assert(a.contains(s2[i]));
    let x = choose|x: int| 0 <= x < a.len() && a[x] == s2[i];
    x + lo
}

/// The mask of the first `n` pivots that the coordinate touches.
pub open spec fn mask_upto(c: Coord, pivots: Seq<i64>, n: nat) -> u32
    decreases n,
{
    if n == 0 {
        0
    } else {
        let m = mask_upto(c, pivots, (n - 1) as nat);
        if c.contains(pivots[n - 1] as int) {
            m | (1u32 << ((n - 1) as u32))
        } else {
            m
        }
    }
}

/// The mask of the pivots that the coordinate touches.
pub open spec fn mask_spec(c: Coord, pivots: Seq<i64>) -> u32 {
    mask_upto(c, pivots, pivots.len())
}

/// Bit `i` of the mask is set exactly when the coordinate touches pivot `i`.
pub proof fn lemma_mask_bits(c: Coord, pivots: Seq<i64>, n: nat)
    requires
        n <= pivots.len(),
        n <= 32,
    ensures
        forall|i: u32|
            i < 32 ==> (#[trigger] has_bit(mask_upto(c, pivots, n), i) <==> i < n && c.contains(
                pivots[i as int] as int,
            )),
    decreases n,
{
    if n == 0 {
        assert forall|i: u32| i < 32 implies !#[trigger] has_bit(0u32, i) by {
            lemma_bit_zero(i);
        }
    } else {
        lemma_mask_bits(c, pivots, (n - 1) as nat);
        let m = mask_upto(c, pivots, (n - 1) as nat);
        assert forall|i: u32| i < 32 implies (#[trigger] has_bit(mask_upto(c, pivots, n), i) <==> i < n
            && c.contains(pivots[i as int] as int)) by {
            lemma_bit_or(m, (n - 1) as u32, i);
        }
    }
}

/// The mask of the pivots that the coordinate touches.
pub fn mask_of(c: &Coord, pivots: &Vec<i64>) -> (m: u32)
    requires
        pivots@.len() <= 32,
    ensures
        m == mask_spec(*c, pivots@),
{
    let mut m: u32 = 0;
    let mut i: usize = 0;
    while i < pivots.len()
        invariant
            i <= pivots@.len(),
            pivots@.len() <= 32,
            m == mask_upto(*c, pivots@, i as nat),
        decreases pivots@.len() - i,
    {
        if intersect_pivot(c, &pivots[i]) {
            m = m | (1u32 << (i as u32));
        }
        i += 1;
    }
    m
}

/// The tests by which a branch hands its records to its children.
pub enum Pick {
    /// Touches exactly the pivots of this mask.
    Mask(u32),
    /// Ends below this pivot.
    Below(i64),
    /// Meets the closed range between these two pivots.
    Between(i64, i64),
    /// Begins above this pivot.
    Above(i64),
}

/// Whether the coordinate passes the test.
pub open spec fn pick_holds(pick: Pick, c: Coord, pivots: Seq<i64>) -> bool {
    match pick {
        Pick::Mask(m) => mask_spec(c, pivots) == m,
        Pick::Below(p) => c.hi() < p,
        Pick::Between(p, q) => c.meets(p as int, q as int),
        Pick::Above(p) => c.lo() > p,
    }
}

/// Whether the coordinate passes the test.
pub fn picks(pick: &Pick, c: &Coord, pivots: &Vec<i64>) -> (r: bool)
    requires
        pivots@.len() <= 32,
    ensures
        r == pick_holds(*pick, *c, pivots@),
{
    match pick {
        Pick::Mask(m) => mask_of(c, pivots) == *m,
        Pick::Below(p) => match c {
            Coord::Scalar(x) => *x < *p,
            Coord::Interval(_, x) => *x < *p,
        },
        Pick::Between(p, q) => intersect_coord(c, p, q),
        Pick::Above(p) => match c {
            Coord::Scalar(x) => *x > *p,
            Coord::Interval(x, _) => *x > *p,
        },
    }
}

/// The positions `[lo, hi)` of the order name inserts that have axis `a`.
pub open spec fn range_valid(inserts: Seq<Insert>, sorted: Seq<usize>, lo: int, hi: int, a: int) -> bool {
    &&& 0 <= lo <= hi <= sorted.len()
    &&& 0 <= a
    &&& forall|i: int|
        lo <= i < hi ==> (#[trigger] sorted[i]) < inserts.len() && a < inserts[sorted[i] as int].0@.len()
}

/// Every insert in the positions `[lo, hi)` passes the test on axis `a`.
pub open spec fn range_picked(
    inserts: Seq<Insert>,
    sorted: Seq<usize>,
    lo: int,
    hi: int,
    a: int,
    pick: Pick,
    pivots: Seq<i64>,
) -> bool {
    forall|i: int| lo <= i < hi ==> pick_holds(pick, #[trigger] coord_at(inserts, sorted, i, a), pivots)
}

/// No insert in the positions `[lo, hi)` passes the test on axis `a`.
pub open spec fn range_unpicked(
    inserts: Seq<Insert>,
    sorted: Seq<usize>,
    lo: int,
    hi: int,
    a: int,
    pick: Pick,
    pivots: Seq<i64>,
) -> bool {
    forall|i: int| lo <= i < hi ==> !pick_holds(pick, #[trigger] coord_at(inserts, sorted, i, a), pivots)
}

/// Moves the inserts of `[start, end)` that pass the test to the front of the
/// range and returns how many there are.
pub fn partition(
    sorted: &mut Vec<usize>,
    inserts: &[Insert],
    start: usize,
    end: usize,
    pick: &Pick,
    axis: usize,
    pivots: &Vec<i64>,
) -> (cnt: usize)
    requires
        range_valid(inserts@, old(sorted)@, start as int, end as int, axis as int),
        pivots@.len() <= 32,
    ensures
        same_range(old(sorted)@, final(sorted)@, start as int, end as int),
        cnt <= end - start,
        range_picked(inserts@, final(sorted)@, start as int, start + cnt, axis as int, *pick, pivots@),
        range_unpicked(inserts@, final(sorted)@, start + cnt, end as int, axis as int, *pick, pivots@),
{
    let mut i: usize = start;
    let mut j: usize = start;
    let ghost s0 = sorted@;
    proof {
        lemma_same_range_refl(s0, start as int, end as int);
    }
    while i < end
        invariant
            start <= j <= i <= end,
            pivots@.len() <= 32,
            range_valid(inserts@, sorted@, start as int, end as int, axis as int),
            same_range(s0, sorted@, start as int, end as int),
            range_picked(inserts@, sorted@, start as int, j as int, axis as int, *pick, pivots@),
            range_unpicked(inserts@, sorted@, j as int, i as int, axis as int, *pick, pivots@),
        decreases end - i,
    {
        let x = sorted[i];
        assert(coord_at(inserts@, sorted@, i as int, axis as int) == inserts@[x as int].0@[axis as int]);
        if picks(pick, &inserts[x].0[axis], pivots) {
            let y = sorted[j];
            let ghost before = sorted@;
            sorted.set(i, y);
            sorted.set(j, x);
            proof {
                lemma_swap_range(before, start as int, end as int, i as int, j as int);
                assert(sorted@ =~= before.update(i as int, before[j as int]).update(j as int, before[i as int]));
                lemma_same_range_trans(s0, before, sorted@, start as int, end as int);
                assert forall|k: int| start <= k < end implies (#[trigger] sorted@[k]) < inserts@.len() && axis
                    < inserts@[sorted@[k] as int].0@.len() by {
                    if k == i {
                        assert(sorted@[k] == before[j as int]);
                    } else if k == j {
                        assert(sorted@[k] == before[i as int]);
                    } else {
                        assert(sorted@[k] == before[k]);
                    }
                }
                assert forall|k: int| start <= k < j + 1 implies pick_holds(
                    *pick,
                    #[trigger] coord_at(inserts@, sorted@, k, axis as int),
                    pivots@,
                ) by {
                    if k < j {
                        assert(coord_at(inserts@, sorted@, k, axis as int) == coord_at(
                            inserts@,
                            before,
                            k,
                            axis as int,
                        ));
                    }
                }
                assert forall|k: int| j + 1 <= k < i + 1 implies !pick_holds(
                    *pick,
                    #[trigger] coord_at(inserts@, sorted@, k, axis as int),
                    pivots@,
                ) by {
                    if k < i {
                        assert(coord_at(inserts@, sorted@, k, axis as int) == coord_at(
                            inserts@,
                            before,
                            k,
                            axis as int,
                        ));
                    } else {
                        assert(coord_at(inserts@, sorted@, k, axis as int) == coord_at(
                            inserts@,
                            before,
                            j as int,
                            axis as int,
                        ));
                    }
                }
            }
            j += 1;
        }
        i += 1;
    }
    j - start
}

/// On axis `a`, the coordinate of every insert in the positions `[lo, hi)`
/// satisfies `f`.
pub open spec fn range_all(
    inserts: Seq<Insert>,
    sorted: Seq<usize>,
    lo: int,
    hi: int,
    a: int,
    f: spec_fn(Coord) -> bool,
) -> bool {
    forall|i: int| lo <= i < hi ==> f(#[trigger] coord_at(inserts, sorted, i, a))
}

/// What holds of every insert of a range holds after the range is permuted.
pub proof fn lemma_range_all_perm(
    inserts: Seq<Insert>,
    s1: Seq<usize>,
    s2: Seq<usize>,
    lo: int,
    hi: int,
    a: int,
    f: spec_fn(Coord) -> bool,
)
    requires
        range_all(inserts, s1, lo, hi, a, f),
        same_range(s1, s2, lo, hi),
    ensures
        range_all(inserts, s2, lo, hi, a, f),
{
    assert forall|i: int| lo <= i < hi implies f(#[trigger] coord_at(inserts, s2, i, a)) by {
        let k = lemma_range_member(s1, s2, lo, hi, i);
        assert(coord_at(inserts, s2, i, a) == coord_at(inserts, s1, k, a));
    }
}

/// What holds of every insert of a range holds while the range is untouched.
pub proof fn lemma_range_all_frame(
    inserts: Seq<Insert>,
    s1: Seq<usize>,
    s2: Seq<usize>,
    lo: int,
    hi: int,
    a: int,
    f: spec_fn(Coord) -> bool,
)
    requires
        range_all(inserts, s1, lo, hi, a, f),
        forall|i: int| lo <= i < hi ==> s1[i] == s2[i],
    ensures
        range_all(inserts, s2, lo, hi, a, f),
{
    assert forall|i: int| lo <= i < hi implies f(#[trigger] coord_at(inserts, s2, i, a)) by {
        assert(coord_at(inserts, s2, i, a) == coord_at(inserts, s1, i, a));
    }
}

/// A permutation read backwards.
pub proof fn lemma_same_range_sym(s1: Seq<usize>, s2: Seq<usize>, lo: int, hi: int)
    requires
        same_range(s1, s2, lo, hi),
    ensures
        same_range(s2, s1, lo, hi),
{
    reveal(same_range);
}

/// A permuted order still indexes the inserts.
pub proof fn lemma_order_wf_perm(s1: Seq<usize>, s2: Seq<usize>, lo: int, hi: int, n: nat)
    requires
        order_wf(s1, n),
        same_range(s1, s2, lo, hi),
    ensures
        order_wf(s2, n),
{
    lemma_same_range_outside(s1, s2, lo, hi);
    assert forall|i: int| 0 <= i < s2.len() implies #[trigger] s2[i] < n by {
        if lo <= i < hi {
            let k = lemma_range_member(s1, s2, lo, hi, i);
            assert(s1[k] < n);
        } else {
            assert(s1[i] == s2[i]);
        }
    }
}

/// The point of insert `j`.
pub open spec fn spot(inserts: Seq<Insert>, j: usize) -> Point {
    inserts[j as int].0
}

/// The coordinate of insert `j` on axis `a`.
pub open spec fn spot_coord(inserts: Seq<Insert>, j: usize, a: usize) -> Coord {
    inserts[j as int].0@[a as int]
}

/// `range_valid` for machine integers.
pub open spec fn range_ready(inserts: Seq<Insert>, sorted: Seq<usize>, lo: usize, hi: usize, a: usize) -> bool {
    range_valid(inserts, sorted, lo as int, hi as int, a as int)
}

/// `same_range` for machine integers.
pub open spec fn same_order(s1: Seq<usize>, s2: Seq<usize>, lo: usize, hi: usize) -> bool {
    same_range(s1, s2, lo as int, hi as int)
}

/// The positions `[lo, hi)` of the order ascend by lower endpoint on axis `a`.
pub open spec fn range_by_axis(inserts: Seq<Insert>, sorted: Seq<usize>, lo: usize, hi: usize, a: usize) -> bool {
    forall|i: int, j: int|
        lo <= i <= j < hi ==> coord_at(inserts, sorted, i, a as int).lo() <= coord_at(
            inserts,
            sorted,
            j,
            a as int,
        ).lo()
}

} // verus!
