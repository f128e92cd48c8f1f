//! The pivots of a branch: sampled between neighbours of the sorted range
//! and put in ascending order.

use crate::coord::{find_separation, Coord};
use crate::place::ascending;
use crate::range::{coord_at, inserts_wf, order_wf, Insert};
use vstd::prelude::*;

verus! {

/// Exchanging two entries keeps what a sequence holds.
proof fn lemma_swap_pivots(s: Seq<i64>, i: int, j: int)
    requires
        0 <= i < s.len(),
        0 <= j < s.len(),
    ensures
        s.update(i, s[j]).update(j, s[i]).to_multiset() == s.to_multiset(),
{
    broadcast use vstd::multiset::group_multiset_axioms;

    let b = s.update(i, s[j]);
    let c = b.update(j, s[i]);
    vstd::seq_lib::to_multiset_update(s, i, s[j]);
    vstd::seq_lib::to_multiset_update(b, j, s[i]);
    s.to_multiset_ensures();
    assert(s.contains(s[i]) && s.contains(s[j]));
    if i == j {
        assert(c =~= s);
    } else {
        assert(b[j] == s[j]);
        assert(c.to_multiset() =~= s.to_multiset());
    }
}

/// Puts the pivots in ascending order.
pub fn sort_pivots(ps: &mut Vec<i64>)
    ensures
        ascending(final(ps)@),
        final(ps)@.to_multiset() == old(ps)@.to_multiset(),
        final(ps)@.len() == old(ps)@.len(),
{
    let n = ps.len();
    let ghost s0 = ps@;
    let mut i: usize = 1;
    while i < n
        invariant
            n == ps@.len(),
            n == s0.len(),
            1 <= i,
            ps@.to_multiset() == s0.to_multiset(),
            forall|x: int, y: int| 0 <= x <= y < i && y < n ==> ps@[x] <= ps@[y],
        decreases n - i,
    {
        let mut j: usize = i;
        while j > 0 && ps[j - 1] > ps[j]
            invariant
                n == ps@.len(),
                j <= i < n,
                ps@.to_multiset() == s0.to_multiset(),
                forall|x: int, y: int| 0 <= x <= y <= i && x != j && y != j ==> ps@[x] <= ps@[y],
                forall|y: int| j < y <= i ==> ps@[j as int] <= ps@[y],
            decreases j,
        {
            let a = ps[j - 1];
            let b = ps[j];
            let ghost before = ps@;
            ps.set(j - 1, b);
            ps.set(j, a);
            proof {
                lemma_swap_pivots(before, j - 1, j as int);
                assert(ps@ =~= before.update(j - 1, before[j as int]).update(j as int, before[j - 1]));
            }
            j -= 1;
        }
        i += 1;
    }
}

/// How many pivots a branch over `rlen` records takes at a branch factor.
pub open spec fn pivot_count(rlen: int, branch_factor: int) -> int {
    if rlen <= 2 {
        1
    } else if branch_factor - 1 < rlen - 1 {
        branch_factor - 1
    } else {
        rlen - 1
    }
}

/// The place in a range of `rlen` records of the pair that pivot `k` of `n`
/// is put between: evenly spaced.
pub open spec fn sample_at(rlen: int, n: int, k: int) -> int {
    if rlen <= 2 {
        0
    } else {
        k * rlen / (n + 1)
    }
}

/// Pivot `k` of `n` before they are put in order: the separation of the pair
/// of neighbours at its place in the range.
pub open spec fn sample(
    inserts: Seq<Insert>,
    sorted: Seq<usize>,
    lo: int,
    hi: int,
    a: int,
    is_min: bool,
    n: int,
    k: int,
) -> i64 {
    let m = sample_at(hi - lo, n, k);
    let x = coord_at(inserts, sorted, lo + m, a);
    let y = coord_at(inserts, sorted, if hi - lo == 1 {
        lo + m
    } else {
        lo + m + 1
    }, a);
    crate::coord::separation(x.lo(), x.hi(), y.lo(), y.hi(), is_min) as i64
}

/// The pivots of a range before they are put in order.
pub open spec fn samples(
    inserts: Seq<Insert>,
    sorted: Seq<usize>,
    lo: int,
    hi: int,
    a: int,
    is_min: bool,
    n: int,
) -> Seq<i64> {
    Seq::new(n as nat, |k: int| sample(inserts, sorted, lo, hi, a, is_min, n, k))
}

proof fn lemma_sample_at(rlen: int, n: int, k: int)
    by (nonlinear_arith)
    requires
        3 <= rlen,
        1 <= n <= rlen - 1,
        0 <= k < n,
    ensures
        0 <= k * rlen / (n + 1) <= rlen - 2,
        0 <= k * rlen,
        k * rlen <= 32 * rlen || n > 32,
{
    assert(k * rlen <= (n - 1) * rlen);
    assert((n - 1) * rlen < (rlen - 1) * (n + 1));
    assert(k * rlen < (rlen - 1) * (n + 1));
}

/// The two endpoints of a coordinate.
fn ends(c: &Coord) -> (r: (i64, i64))
    ensures
        r.0 == c.lo(),
        r.1 == c.hi(),
{
    match c {
        Coord::Scalar(x) => (*x, *x),
        Coord::Interval(min, max) => (*min, *max),
    }
}

/// The pivots of a branch over the positions `[lo, hi)` on an axis: one
/// between the two records of a pair, at both ends of a single record, and
/// otherwise between evenly spaced pairs of neighbours, in ascending order.
pub fn select_pivots(
    sorted: &Vec<usize>,
    inserts: &[Insert],
    lo: usize,
    hi: usize,
    axis: usize,
    is_min: bool,
    branch_factor: usize,
    Ghost(dim): Ghost<nat>,
) -> (ps: Vec<i64>)
    requires
        lo < hi <= sorted@.len(),
        order_wf(sorted@, inserts@.len() as nat),
        inserts_wf(inserts@, dim),
        axis < dim,
        2 <= branch_factor <= 33,
    ensures
        ps@.len() == pivot_count(hi - lo, branch_factor as int),
        1 <= ps@.len() <= 32,
        ascending(ps@),
        ps@.to_multiset() == samples(
            inserts@,
            sorted@,
            lo as int,
            hi as int,
            axis as int,
            is_min,
            ps@.len() as int,
        ).to_multiset(),
{
    let rlen = hi - lo;
    let n: usize = if rlen <= 2 {
        1
    } else if branch_factor - 1 < rlen - 1 {
        branch_factor - 1
    } else {
        rlen - 1
    };
    let ghost want = samples(inserts@, sorted@, lo as int, hi as int, axis as int, is_min, n as int);
    let mut ps: Vec<i64> = Vec::new();
    let mut k: usize = 0;
    while k < n
        invariant
            k <= n,
            1 <= n <= 32,
            rlen == hi - lo,
            n == pivot_count(rlen as int, branch_factor as int),
            lo < hi <= sorted@.len(),
            order_wf(sorted@, inserts@.len() as nat),
            inserts_wf(inserts@, dim),
            axis < dim,
            want == samples(inserts@, sorted@, lo as int, hi as int, axis as int, is_min, n as int),
            ps@ == want.subrange(0, k as int),
        decreases n - k,
    {
        let m: usize = if rlen <= 2 {
            0
        } else {
            proof {
                lemma_sample_at(rlen as int, n as int, k as int);
            }
            (((k as u128) * (rlen as u128)) / ((n + 1) as u128)) as usize
        };
        assert(m == sample_at(rlen as int, n as int, k as int));
        let step: usize = if rlen == 1 {
            0
        } else {
            1
        };
        let ja = sorted[lo + m];
        let jb = sorted[lo + m + step];
        let ca = &inserts[ja].0[axis];
        let cb = &inserts[jb].0[axis];
        assert(*ca == coord_at(inserts@, sorted@, lo + m, axis as int));
        assert(*cb == coord_at(inserts@, sorted@, lo + m + step, axis as int));
        let a = ends(ca);
        let b = ends(cb);
        let p = find_separation(&a.0, &a.1, &b.0, &b.1, is_min);
        assert(p == want[k as int]);
        ps.push(p);
        k += 1;
        assert(ps@ =~= want.subrange(0, k as int));
    }
    assert(want.subrange(0, n as int) =~= want);
    sort_pivots(&mut ps);
    ps
}

} // verus!
