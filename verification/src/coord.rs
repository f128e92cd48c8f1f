//! Coordinates and the comparison and intersection primitives on them.
//!
//! A coordinate is a scalar or a closed interval on one axis. Scalars are
//! signed 64-bit integers, so every comparison is total.

use std::cmp::Ordering;
use vstd::prelude::*;

verus! {

/// One axis of a point: a single scalar or the closed interval `[min, max]`.
#[derive(Clone, Copy, Debug, PartialEq, Eq, Structural)]
pub enum Coord {
    Scalar(i64),
    Interval(i64, i64),
}

impl Coord {
    /// Lower endpoint.
    pub open spec fn lo(self) -> int {
        match self {
            Coord::Scalar(x) => x as int,
            Coord::Interval(a, _) => a as int,
        }
    }

    /// Upper endpoint.
    pub open spec fn hi(self) -> int {
        match self {
            Coord::Scalar(x) => x as int,
            Coord::Interval(_, b) => b as int,
        }
    }

    /// An interval is well formed when its endpoints are in order.
    pub open spec fn wf(self) -> bool {
        self.lo() <= self.hi()
    }

    /// The coordinate contains the scalar `p`.
    pub open spec fn contains(self, p: int) -> bool {
        self.lo() <= p <= self.hi()
    }

    /// The coordinate meets the closed range `[low, high]`.
    pub open spec fn meets(self, low: int, high: int) -> bool {
        self.hi() >= low && self.lo() <= high
    }
}

/// Half of `x`, rounded toward zero.
pub open spec fn half(x: int) -> int {
    if x >= 0 {
        x / 2
    } else {
        -((-x) / 2)
    }
}

/// The two closed ranges `[a0, a1]` and `[b0, b1]` meet.
pub open spec fn iv_meets(a0: int, a1: int, b0: int, b1: int) -> bool {
    a1 >= b0 && a0 <= b1
}

/// Where a pivot goes between the ranges `[amin, amax]` and `[bmin, bmax]`.
pub open spec fn separation(amin: int, amax: int, bmin: int, bmax: int, is_min: bool) -> int {
    if iv_meets(amin, amax, bmin, bmax) {
        if is_min {
            half(amin) + half(bmin)
        } else {
            half(amax) + half(bmax)
        }
    } else {
        half(amax) + half(bmin)
    }
}

fn halve(x: i64) -> (r: i64)
    ensures
        r == half(x as int),
        -0x4000_0000_0000_0000 <= r <= 0x3fff_ffff_ffff_ffff,
{
    x / 2
}

/// A separator between two ranges: the midpoint of the lower endpoints when
/// the ranges overlap and `is_min` holds, of the upper endpoints when they
/// overlap and it does not, and of `amax` and `bmin` when they are apart.
pub fn find_separation(amin: &i64, amax: &i64, bmin: &i64, bmax: &i64, is_min: bool) -> (r: i64)
    ensures
        r == separation(*amin as int, *amax as int, *bmin as int, *bmax as int, is_min),
{
    if is_min && intersect_iv(amin, amax, bmin, bmax) {
        halve(*amin) + halve(*bmin)
    } else if !is_min && intersect_iv(amin, amax, bmin, bmax) {
        halve(*amax) + halve(*bmax)
    } else {
        halve(*amax) + halve(*bmin)
    }
}

/// Whether `[a0, a1]` and `[b0, b1]` have a point in common.
pub fn intersect_iv(a0: &i64, a1: &i64, b0: &i64, b1: &i64) -> (r: bool)
    ensures
        r == iv_meets(*a0 as int, *a1 as int, *b0 as int, *b1 as int),
{
    *a1 >= *b0 && *a0 <= *b1
}

/// Whether the coordinate touches the pivot `p`.
pub fn intersect_pivot(c: &Coord, p: &i64) -> (r: bool)
    ensures
        r == c.contains(*p as int),
{
    match c {
        Coord::Scalar(x) => *x == *p,
        Coord::Interval(min, max) => *min <= *p && *p <= *max,
    }
}

/// What it means for two coordinates on one axis to meet.
pub open spec fn coords_meet(a: Coord, b: Coord) -> bool {
    match (a, b) {
        (Coord::Scalar(x), Coord::Scalar(y)) => x == y,
        (Coord::Scalar(x), Coord::Interval(y0, y1)) => y0 <= x && x <= y1,
        (Coord::Interval(x0, x1), Coord::Scalar(y)) => x0 <= y && y <= x1,
        (Coord::Interval(x0, x1), Coord::Interval(y0, y1)) => iv_meets(
            x0 as int,
            x1 as int,
            y0 as int,
            y1 as int,
        ),
    }
}

/// Whether two coordinates on one axis have a point in common.
pub fn intersect_coord_coord(a: &Coord, b: &Coord) -> (r: bool)
    ensures
        r == coords_meet(*a, *b),
{
    match (a, b) {
        (Coord::Scalar(x), Coord::Scalar(y)) => *x == *y,
        (Coord::Scalar(x), Coord::Interval(y0, y1)) => *y0 <= *x && *x <= *y1,
        (Coord::Interval(x0, x1), Coord::Scalar(y)) => *x0 <= *y && *y <= *x1,
        (Coord::Interval(x0, x1), Coord::Interval(y0, y1)) => intersect_iv(x0, x1, y0, y1),
    }
}

/// Whether the coordinate meets the closed range `[low, high]`.
pub fn intersect_coord(c: &Coord, low: &i64, high: &i64) -> (r: bool)
    ensures
        r == match *c {
            Coord::Scalar(x) => *low <= x && x <= *high,
            Coord::Interval(x, y) => iv_meets(x as int, y as int, *low as int, *high as int),
        },
        r == c.meets(*low as int, *high as int),
{
    match c {
        Coord::Scalar(x) => *low <= *x && *x <= *high,
        Coord::Interval(x, y) => intersect_iv(x, y, low, high),
    }
}

/// The smaller of two scalars; the second when they are equal.
pub fn cmp_min(a: &i64, b: &i64) -> (r: i64)
    ensures
        r == if *a < *b { *a } else { *b },
{
    if *a < *b {
        *a
    } else {
        *b
    }
}

/// The larger of two scalars; the second when they are equal.
pub fn cmp_max(a: &i64, b: &i64) -> (r: i64)
    ensures
        r == if *a > *b { *a } else { *b },
{
    if *a > *b {
        *a
    } else {
        *b
    }
}

/// The smaller of the coordinate's lower endpoint and `r`.
pub open spec fn tighten_min(x: Coord, r: i64) -> int {
    if x.lo() < r {
        x.lo()
    } else {
        r as int
    }
}

/// The larger of the coordinate's upper endpoint and `r`.
pub open spec fn tighten_max(x: Coord, r: i64) -> int {
    if x.hi() > r {
        x.hi()
    } else {
        r as int
    }
}

/// Tightens a running minimum `r` toward the coordinate's lower endpoint.
pub fn coord_min(x: &Coord, r: &i64) -> (m: i64)
    ensures
        m == tighten_min(*x, *r),
{
    match x {
        Coord::Scalar(a) => cmp_min(a, r),
        Coord::Interval(a, _) => cmp_min(a, r),
    }
}

/// Tightens a running maximum `r` toward the coordinate's upper endpoint.
pub fn coord_max(x: &Coord, r: &i64) -> (m: i64)
    ensures
        m == tighten_max(*x, *r),
{
    match x {
        Coord::Scalar(a) => cmp_max(a, r),
        Coord::Interval(_, a) => cmp_max(a, r),
    }
}

/// How two coordinates are ordered for sorting: by lower endpoint.
pub open spec fn lo_order(x: Coord, y: Coord) -> Ordering {
    if x.lo() < y.lo() {
        Ordering::Less
    } else if x.lo() == y.lo() {
        Ordering::Equal
    } else {
        Ordering::Greater
    }
}

/// Orders two coordinates by their lower endpoints. Integer scalars are
/// always comparable, so the result is never `None`.
pub fn coord_cmp(x: &Coord, y: &Coord) -> (r: Option<Ordering>)
    ensures
        r == Some(lo_order(*x, *y)),
{
    let a: i64 = match x {
        Coord::Scalar(a) => *a,
        Coord::Interval(a, _) => *a,
    };
    let b: i64 = match y {
        Coord::Scalar(b) => *b,
        Coord::Interval(b, _) => *b,
    };
    if a < b {
        Some(Ordering::Less)
    } else if a == b {
        Some(Ordering::Equal)
    } else {
        Some(Ordering::Greater)
    }
}

} // verus!
