//! Traversals of one tree: listing, and the range query with its pruning.

use crate::coord::{intersect_coord, intersect_iv, iv_meets, Coord};
use crate::tree::{
    bucket_items, clone_row, gap_items, node_items, node_shape, ref_item, ref_items, row_item,
    row_items, Item, Node, Point, Row, Tree, TreeRef,
};
use crate::place::{ascending, in_gap, items_in_gap, items_touch, mask_used, node_placed, touches_exactly};
use vstd::prelude::*;

verus! {

/// A query box: the lower corner and the upper corner.
pub type Bounds = (Vec<i64>, Vec<i64>);

/// Bit `i` of the mask `m`.
pub open spec fn has_bit(m: u32, i: u32) -> bool {
    m & (1u32 << i) != 0
}

/// No bit of the empty mask is set.
pub proof fn lemma_bit_zero(i: u32)
    by (bit_vector)
    requires
        i < 32,
    ensures
        !has_bit(0, i),
{
}

/// Setting bit `j` sets that bit and no other.
pub proof fn lemma_bit_or(m: u32, j: u32, i: u32)
    by (bit_vector)
    requires
        i < 32,
        j < 32,
    ensures
        has_bit(m | (1u32 << j), i) == (has_bit(m, i) || i == j),
{
}

/// The bits of two masks taken together are those set in both, and a mask
/// with a bit set is not empty.
pub proof fn lemma_bit_and(a: u32, b: u32, i: u32)
    by (bit_vector)
    requires
        i < 32,
    ensures
        has_bit(a & b, i) == (has_bit(a, i) && has_bit(b, i)),
        has_bit(a, i) ==> a != 0,
{
}

proof fn lemma_low_bit(x: u32)
    by (bit_vector)
    requires
        x != 0,
        x & 1 == 0,
    ensures
        x >> 1 != 0,
        x >> 1 < x,
{
}

proof fn lemma_shift_bit(x: u32, i: u32)
    by (bit_vector)
    requires
        i < 31,
    ensures
        has_bit(x >> 1, i) == has_bit(x, (i + 1) as u32),
        has_bit(x, 0) == (x & 1 != 0),
        !has_bit(x >> 1, 31),
{
}

/// A bit that is set in a mask that is not zero.
pub proof fn some_bit(x: u32) -> (i: u32)
    requires
        x != 0,
    ensures
        i < 32,
        has_bit(x, i),
    decreases x,
{
    lemma_shift_bit(x, 0);
    if x & 1 != 0 {
        0
    } else {
        lemma_low_bit(x);
        let j = some_bit(x >> 1);
        if j < 31 {
            lemma_shift_bit(x, j);
        } else {
            lemma_shift_bit(x, 0);
        }
        (j + 1) as u32
    }
}

/// The point meets the box on every axis.
pub open spec fn point_in_box(p: Seq<Coord>, lo: Seq<i64>, hi: Seq<i64>) -> bool {
    forall|a: int| 0 <= a < p.len() ==> (#[trigger] p[a]).meets(lo[a] as int, hi[a] as int)
}

/// The items that a query for the box `[lo, hi]` keeps.
pub open spec fn box_pred(lo: Seq<i64>, hi: Seq<i64>) -> spec_fn(Item) -> bool {
    |it: Item| point_in_box(it.point(), lo, hi)
}

/// Whether a query for `[lo, hi]` on the branch's axis regards pivot `i` as
/// reached: the box starts at or below the first pivot, ends at or above the
/// last, or meets the range between pivot `i` and a neighbour.
pub open spec fn pivot_matches(pivots: Seq<i64>, lo: int, hi: int, i: int) -> bool {
    let n = pivots.len() as int;
    ||| i == 0 && lo <= pivots[0]
    ||| 0 <= i < n - 1 && iv_meets(pivots[i] as int, pivots[i + 1] as int, lo, hi)
    ||| 1 <= i < n && iv_meets(pivots[i - 1] as int, pivots[i] as int, lo, hi)
    ||| i == n - 1 && hi >= pivots[n - 1]
}

/// Whether a query descends into the intersection child with mask `m`.
pub open spec fn bucket_hit(m: u32, pivots: Seq<i64>, lo: int, hi: int) -> bool {
    exists|i: u32| i < pivots.len() && i < 32 && #[trigger] has_bit(m, i) && pivot_matches(pivots, lo, hi, i as int)
}

/// Whether a query descends into gap child `k`.
pub open spec fn gap_hit(pivots: Seq<i64>, k: int, lo: int, hi: int) -> bool {
    let n = pivots.len() as int;
    if k == 0 {
        lo <= pivots[0]
    } else if k < n {
        iv_meets(pivots[k - 1] as int, pivots[k] as int, lo, hi)
    } else {
        hi >= pivots[n - 1]
    }
}

/// What a query for the box `[lo, hi]` yields from a node at depth `level`,
/// in depth-first order: the records, or with `refs` the references.
pub open spec fn query_items(node: Node, level: nat, lo: Seq<i64>, hi: Seq<i64>, refs: bool) -> Seq<Item>
    decreases node, 0nat,
{
    match node {
        Node::Data(..) => node_items(node, refs).filter(box_pred(lo, hi)),
        Node::Branch(b) => {
            let a = (level % lo.len()) as int;
            bucket_query(b.intersections@, b.intersections@.len(), b.pivots@, level + 1, lo, hi, a, refs)
                + gap_query(b.nodes@, b.nodes@.len(), b.pivots@, level + 1, lo, hi, a, refs)
        },
    }
}

/// What the query yields from the first `n` intersection children.
pub open spec fn bucket_query(
    v: Seq<(u32, Node)>,
    n: nat,
    pivots: Seq<i64>,
    level: nat,
    lo: Seq<i64>,
    hi: Seq<i64>,
    a: int,
    refs: bool,
) -> Seq<Item>
    decreases v, n,
{
    if n == 0 || n > v.len() {
        Seq::empty()
    } else {
        bucket_query(v, (n - 1) as nat, pivots, level, lo, hi, a, refs) + (if bucket_hit(
            v[n - 1].0,
            pivots,
            lo[a] as int,
            hi[a] as int,
        ) {
            query_items(v[n - 1].1, level, lo, hi, refs)
        } else {
            Seq::empty()
        })
    }
}

/// What the query yields from the first `n` gap children.
pub open spec fn gap_query(
    v: Seq<Node>,
    n: nat,
    pivots: Seq<i64>,
    level: nat,
    lo: Seq<i64>,
    hi: Seq<i64>,
    a: int,
    refs: bool,
) -> Seq<Item>
    decreases v, n,
{
    if n == 0 || n > v.len() {
        Seq::empty()
    } else {
        gap_query(v, (n - 1) as nat, pivots, level, lo, hi, a, refs) + (if gap_hit(
            pivots,
            n - 1,
            lo[a] as int,
            hi[a] as int,
        ) {
            query_items(v[n - 1], level, lo, hi, refs)
        } else {
            Seq::empty()
        })
    }
}

/// Whether a point meets the box on every axis.
pub fn point_meets(p: &Point, bbox: &Bounds) -> (r: bool)
    requires
        p@.len() == bbox.0@.len(),
        p@.len() == bbox.1@.len(),
    ensures
        r == point_in_box(p@, bbox.0@, bbox.1@),
{
    let mut a: usize = 0;
    while a < p.len()
        invariant
            a <= p@.len(),
            p@.len() == bbox.0@.len(),
            p@.len() == bbox.1@.len(),
            forall|b: int| 0 <= b < a ==> (#[trigger] p@[b]).meets(bbox.0@[b] as int, bbox.1@[b] as int),
        decreases p@.len() - a,
    {
        if !intersect_coord(&p[a], &bbox.0[a], &bbox.1[a]) {
            return false;
        }
        a += 1;
    }
    true
}

/// The mask of the pivots that a query for `[lo, hi]` on the branch's axis
/// regards as reached.
pub fn matching_mask(pivots: &Vec<i64>, lo: &i64, hi: &i64) -> (r: u32)
    requires
        1 <= pivots@.len() <= 32,
    ensures
        forall|i: u32|
            i < 32 ==> (#[trigger] has_bit(r, i) <==> i < pivots@.len() && pivot_matches(
                pivots@,
                *lo as int,
                *hi as int,
                i as int,
            )),
{
    let n = pivots.len();
    let mut matching: u32 = 0;
    proof {
        assert forall|i: u32| i < 32 implies !#[trigger] has_bit(0u32, i) by {
            lemma_bit_zero(i);
        }
    }
    if *lo <= pivots[0] {
        let ghost before = matching;
        matching = matching | (1u32 << 0u32);
        proof {
            assert forall|i: u32| i < 32 implies (#[trigger] has_bit(matching, i) <==> i == 0) by {
                lemma_bit_or(before, 0, i);
            }
        }
    }
    let mut k: usize = 0;
    while k + 1 < n
        invariant
            n == pivots@.len(),
            1 <= n <= 32,
            k + 1 <= n,
            forall|i: u32|
                i < 32 ==> (#[trigger] has_bit(matching, i) <==> i < n && {
                    ||| i == 0 && *lo <= pivots@[0]
                    ||| i < k && iv_meets(pivots@[i as int] as int, pivots@[i + 1] as int, *lo as int, *hi as int)
                    ||| 1 <= i <= k && iv_meets(pivots@[i - 1] as int, pivots@[i as int] as int, *lo as int, *hi as int)
                }),
        decreases n - k,
    {
        if intersect_iv(&pivots[k], &pivots[k + 1], lo, hi) {
            let ghost before = matching;
            let mid = matching | (1u32 << (k as u32));
            matching = mid | (1u32 << ((k + 1) as u32));
            proof {
                assert forall|i: u32| i < 32 implies (#[trigger] has_bit(matching, i) <==> (has_bit(before, i)
                    || i == k || i == k + 1)) by {
                    lemma_bit_or(before, k as u32, i);
                    lemma_bit_or(mid, (k + 1) as u32, i);
                }
            }
        }
        k += 1;
    }
    if *hi >= pivots[n - 1] {
        let ghost before = matching;
        matching = matching | (1u32 << ((n - 1) as u32));
        proof {
            assert forall|i: u32| i < 32 implies (#[trigger] has_bit(matching, i) <==> (has_bit(before, i)
                || i == n - 1)) by {
                lemma_bit_or(before, (n - 1) as u32, i);
            }
        }
    }
    matching
}

/// The axis one level down.
pub proof fn lemma_next_axis(level: nat, dim: nat)
    requires
        dim > 0,
    ensures
        (level + 1) % dim == if level % dim + 1 == dim {
            0
        } else {
            level % dim + 1
        },
        level % dim < dim,
{
    vstd::arithmetic::div_mod::lemma_fundamental_div_mod(level as int, dim as int);
    vstd::arithmetic::div_mod::lemma_mod_bound(level as int, dim as int);
    let q = (level as int) / (dim as int);
    let r = (level as int) % (dim as int);
    if r + 1 == dim {
        assert((level + 1) == (q + 1) * (dim as int) + 0) by (nonlinear_arith)
            requires
                level == (dim as int) * q + r,
                r + 1 == dim,
        ;
        vstd::arithmetic::div_mod::lemma_fundamental_div_mod_converse(level as int + 1, dim as int, q + 1, 0);
    } else {
        assert((level + 1) == q * (dim as int) + (r + 1)) by (nonlinear_arith)
            requires
                level == (dim as int) * q + r,
        ;
        vstd::arithmetic::div_mod::lemma_fundamental_div_mod_converse(level as int + 1, dim as int, q, r + 1);
    }
}

/// A descent is decided by the masks exactly as by their bits.
proof fn lemma_bucket_hit(matching: u32, m: u32, pivots: Seq<i64>, lo: int, hi: int)
    requires
        1 <= pivots.len() <= 32,
        forall|i: u32|
            i < 32 ==> (#[trigger] has_bit(matching, i) <==> i < pivots.len() && pivot_matches(
                pivots,
                lo,
                hi,
                i as int,
            )),
    ensures
        (matching & m != 0) == bucket_hit(m, pivots, lo, hi),
{
    if matching & m != 0 {
        let i = some_bit(matching & m);
        lemma_bit_and(matching, m, i);
        assert(has_bit(m, i) && i < pivots.len() && pivot_matches(pivots, lo, hi, i as int));
    }
    if bucket_hit(m, pivots, lo, hi) {
        let i = choose|i: u32|
            i < pivots.len() && i < 32 && #[trigger] has_bit(m, i) && pivot_matches(pivots, lo, hi, i as int);
        assert(has_bit(matching, i));
        lemma_bit_and(matching, m, i);
        lemma_bit_and(matching & m, m, i);
    }
}

/// Appends to `rows` and `refs` what the query yields from `node`.
fn query_node(
    node: &Node,
    axis: usize,
    bbox: &Bounds,
    rows: &mut Vec<Row>,
    refs: &mut Vec<TreeRef>,
    Ghost(level): Ghost<nat>,
)
    requires
        bbox.0@.len() > 0,
        bbox.0@.len() == bbox.1@.len(),
        node_shape(*node, bbox.0@.len()),
        axis == level % bbox.0@.len(),
    ensures
        row_items(final(rows)@) == row_items(old(rows)@) + query_items(
            *node,
            level,
            bbox.0@,
            bbox.1@,
            false,
        ),
        ref_items(final(refs)@) == ref_items(old(refs)@) + query_items(
            *node,
            level,
            bbox.0@,
            bbox.1@,
            true,
        ),
    decreases node,
{
    let ghost rows0 = row_items(rows@);
    let ghost refs0 = ref_items(refs@);
    let ghost lo = bbox.0@;
    let ghost hi = bbox.1@;
    let ghost pred = box_pred(lo, hi);
    match node {
        Node::Data(data, rs) => {
            let mut i: usize = 0;
            assert(row_items(data@).subrange(0, 0) =~= Seq::empty());
            assert(rows0 + Seq::<Item>::empty().filter(pred) =~= rows0);
            while i < data.len()
                invariant
                    i <= data@.len(),
                    lo == bbox.0@,
                    hi == bbox.1@,
                    lo.len() == hi.len(),
                    pred == box_pred(lo, hi),
                    forall|j: int| 0 <= j < data@.len() ==> (#[trigger] data@[j]).0@.len() == lo.len(),
                    row_items(rows@) == rows0 + row_items(data@).subrange(0, i as int).filter(pred),
                decreases data@.len() - i,
            {
                let ghost part = row_items(data@).subrange(0, i as int);
                let ghost it = row_item(data@[i as int]);
                assert(row_items(data@).subrange(0, i + 1) =~= part.push(it));
                proof {
                    part.lemma_filter_push(it, pred);
                }
                if point_meets(&data[i].0, bbox) {
                    let ghost before = rows@;
                    let c = clone_row(&data[i]);
                    rows.push(c);
                    assert(row_items(rows@) =~= row_items(before).push(it));
                    assert(row_items(rows@) =~= rows0 + part.push(it).filter(pred));
                }
                i += 1;
            }
            assert(row_items(data@).subrange(0, data@.len() as int) =~= row_items(data@));
            let mut k: usize = 0;
            assert(ref_items(rs@).subrange(0, 0) =~= Seq::empty());
            assert(refs0 + Seq::<Item>::empty().filter(pred) =~= refs0);
            while k < rs.len()
                invariant
                    k <= rs@.len(),
                    lo == bbox.0@,
                    hi == bbox.1@,
                    lo.len() == hi.len(),
                    pred == box_pred(lo, hi),
                    forall|j: int| 0 <= j < rs@.len() ==> (#[trigger] rs@[j]).bounds@.len() == lo.len(),
                    ref_items(refs@) == refs0 + ref_items(rs@).subrange(0, k as int).filter(pred),
                decreases rs@.len() - k,
            {
                let ghost part = ref_items(rs@).subrange(0, k as int);
                let ghost it = ref_item(rs@[k as int]);
                assert(ref_items(rs@).subrange(0, k + 1) =~= part.push(it));
                proof {
                    part.lemma_filter_push(it, pred);
                }
                if point_meets(&rs[k].bounds, bbox) {
                    let ghost before = refs@;
                    let c = rs[k].clone();
                    refs.push(c);
                    assert(ref_items(refs@) =~= ref_items(before).push(it));
                    assert(ref_items(refs@) =~= refs0 + part.push(it).filter(pred));
                }
                k += 1;
            }
            assert(ref_items(rs@).subrange(0, rs@.len() as int) =~= ref_items(rs@));
        },
        Node::Branch(b) => {
            let dim = bbox.0.len();
            proof {
                lemma_next_axis(level, dim as nat);
            }
            let next: usize = if axis + 1 == dim {
                0
            } else {
                axis + 1
            };
            let blo = &bbox.0[axis];
            let bhi = &bbox.1[axis];
            let n = b.pivots.len();
            let matching = matching_mask(&b.pivots, blo, bhi);
            let mut i: usize = 0;
            assert(rows0 + Seq::<Item>::empty() =~= rows0);
            assert(refs0 + Seq::<Item>::empty() =~= refs0);
            while i < b.intersections.len()
                invariant
                    i <= b.intersections@.len(),
                    lo == bbox.0@,
                    hi == bbox.1@,
                    lo.len() == hi.len(),
                    lo.len() > 0,
                    axis < lo.len(),
                    next == (level + 1) % lo.len(),
                    *node == Node::Branch(*b),
                    node_shape(*node, lo.len()),
                    forall|j: u32|
                        j < 32 ==> (#[trigger] has_bit(matching, j) <==> j < b.pivots@.len() && pivot_matches(
                            b.pivots@,
                            lo[axis as int] as int,
                            hi[axis as int] as int,
                            j as int,
                        )),
                    row_items(rows@) == rows0 + bucket_query(
                        b.intersections@,
                        i as nat,
                        b.pivots@,
                        level + 1,
                        lo,
                        hi,
                        axis as int,
                        false,
                    ),
                    ref_items(refs@) == refs0 + bucket_query(
                        b.intersections@,
                        i as nat,
                        b.pivots@,
                        level + 1,
                        lo,
                        hi,
                        axis as int,
                        true,
                    ),
                decreases b.intersections@.len() - i,
            {
                let m: u32 = b.intersections[i].0;
                proof {
                    lemma_bucket_hit(matching, m, b.pivots@, lo[axis as int] as int, hi[axis as int] as int);
                }
                let ghost r1 = row_items(rows@);
                let ghost f1 = ref_items(refs@);
                if (matching & m) > 0 {
                    query_node(&b.intersections[i].1, next, bbox, rows, refs, Ghost(level + 1));
                }
                i += 1;
                assert(row_items(rows@) =~= rows0 + bucket_query(
                    b.intersections@,
                    i as nat,
                    b.pivots@,
                    level + 1,
                    lo,
                    hi,
                    axis as int,
                    false,
                ));
                assert(ref_items(refs@) =~= refs0 + bucket_query(
                    b.intersections@,
                    i as nat,
                    b.pivots@,
                    level + 1,
                    lo,
                    hi,
                    axis as int,
                    true,
                ));
            }
            let ghost rows1 = row_items(rows@);
            let ghost refs1 = ref_items(refs@);
            let mut k: usize = 0;
            assert(rows1 + Seq::<Item>::empty() =~= rows1);
            assert(refs1 + Seq::<Item>::empty() =~= refs1);
            while k < b.nodes.len()
                invariant
                    k <= b.nodes@.len(),
                    n == b.pivots@.len(),
                    lo == bbox.0@,
                    hi == bbox.1@,
                    lo.len() == hi.len(),
                    lo.len() > 0,
                    axis < lo.len(),
                    next == (level + 1) % lo.len(),
                    *node == Node::Branch(*b),
                    node_shape(*node, lo.len()),
                    *blo == lo[axis as int],
                    *bhi == hi[axis as int],
                    row_items(rows@) == rows1 + gap_query(
                        b.nodes@,
                        k as nat,
                        b.pivots@,
                        level + 1,
                        lo,
                        hi,
                        axis as int,
                        false,
                    ),
                    ref_items(refs@) == refs1 + gap_query(
                        b.nodes@,
                        k as nat,
                        b.pivots@,
                        level + 1,
                        lo,
                        hi,
                        axis as int,
                        true,
                    ),
                decreases b.nodes@.len() - k,
            {
                let hit = if k == 0 {
                    *blo <= b.pivots[0]
                } else if k < n {
                    intersect_iv(&b.pivots[k - 1], &b.pivots[k], blo, bhi)
                } else {
                    *bhi >= b.pivots[n - 1]
                };
                if hit {
                    query_node(&b.nodes[k], next, bbox, rows, refs, Ghost(level + 1));
                }
                k += 1;
                assert(row_items(rows@) =~= rows1 + gap_query(
                    b.nodes@,
                    k as nat,
                    b.pivots@,
                    level + 1,
                    lo,
                    hi,
                    axis as int,
                    false,
                ));
                assert(ref_items(refs@) =~= refs1 + gap_query(
                    b.nodes@,
                    k as nat,
                    b.pivots@,
                    level + 1,
                    lo,
                    hi,
                    axis as int,
                    true,
                ));
            }
            assert(row_items(rows@) =~= rows0 + query_items(*node, level, lo, hi, false));
            assert(ref_items(refs@) =~= refs0 + query_items(*node, level, lo, hi, true));
        },
    }
}

/// Appends to `rows` and `refs` everything that the leaves under `node` hold.
fn list_node(node: &Node, rows: &mut Vec<Row>, refs: &mut Vec<TreeRef>)
    ensures
        row_items(final(rows)@) == row_items(old(rows)@) + node_items(*node, false),
        ref_items(final(refs)@) == ref_items(old(refs)@) + node_items(*node, true),
    decreases node,
{
    let ghost rows0 = row_items(rows@);
    let ghost refs0 = ref_items(refs@);
    match node {
        Node::Data(data, rs) => {
            let mut i: usize = 0;
            assert(rows0 + row_items(data@).subrange(0, 0) =~= rows0);
            while i < data.len()
                invariant
                    i <= data@.len(),
                    row_items(rows@) == rows0 + row_items(data@).subrange(0, i as int),
                decreases data@.len() - i,
            {
                let ghost before = rows@;
                let c = clone_row(&data[i]);
                rows.push(c);
                assert(row_items(rows@) =~= row_items(before).push(row_item(data@[i as int])));
                i += 1;
                assert(row_items(rows@) =~= rows0 + row_items(data@).subrange(0, i as int));
            }
            assert(row_items(data@).subrange(0, data@.len() as int) =~= row_items(data@));
            let mut k: usize = 0;
            assert(refs0 + ref_items(rs@).subrange(0, 0) =~= refs0);
            while k < rs.len()
                invariant
                    k <= rs@.len(),
                    ref_items(refs@) == refs0 + ref_items(rs@).subrange(0, k as int),
                decreases rs@.len() - k,
            {
                let ghost before = refs@;
                let c = rs[k].clone();
                refs.push(c);
                assert(ref_items(refs@) =~= ref_items(before).push(ref_item(rs@[k as int])));
                k += 1;
                assert(ref_items(refs@) =~= refs0 + ref_items(rs@).subrange(0, k as int));
            }
            assert(ref_items(rs@).subrange(0, rs@.len() as int) =~= ref_items(rs@));
        },
        Node::Branch(b) => {
            let mut i: usize = 0;
            assert(rows0 + Seq::<Item>::empty() =~= rows0);
            assert(refs0 + Seq::<Item>::empty() =~= refs0);
            while i < b.intersections.len()
                invariant
                    i <= b.intersections@.len(),
                    *node matches Node::Branch(x) && x == *b,
                    row_items(rows@) == rows0 + bucket_items(b.intersections@, i as nat, false),
                    ref_items(refs@) == refs0 + bucket_items(b.intersections@, i as nat, true),
                decreases b.intersections@.len() - i,
            {
                let child: &Node = &b.intersections[i].1;
                list_node(child, rows, refs);
                i += 1;
                assert(row_items(rows@) =~= rows0 + bucket_items(b.intersections@, i as nat, false));
                assert(ref_items(refs@) =~= refs0 + bucket_items(b.intersections@, i as nat, true));
            }
            let ghost rows1 = row_items(rows@);
            let ghost refs1 = ref_items(refs@);
            let mut k: usize = 0;
            assert(rows1 + Seq::<Item>::empty() =~= rows1);
            assert(refs1 + Seq::<Item>::empty() =~= refs1);
            while k < b.nodes.len()
                invariant
                    k <= b.nodes@.len(),
                    *node matches Node::Branch(x) && x == *b,
                    row_items(rows@) == rows1 + gap_items(b.nodes@, k as nat, false),
                    ref_items(refs@) == refs1 + gap_items(b.nodes@, k as nat, true),
                decreases b.nodes@.len() - k,
            {
                let child: &Node = &b.nodes[k];
                list_node(child, rows, refs);
                k += 1;
                assert(row_items(rows@) =~= rows1 + gap_items(b.nodes@, k as nat, false));
                assert(ref_items(refs@) =~= refs1 + gap_items(b.nodes@, k as nat, true));
            }
            assert(row_items(rows@) =~= rows0 + node_items(*node, false));
            assert(ref_items(refs@) =~= refs0 + node_items(*node, true));
        },
    }
}

impl Tree {
    /// Everything the tree holds: its records and its references, each in
    /// depth-first order.
    pub fn list(&self) -> (r: (Vec<Row>, Vec<TreeRef>))
        ensures
            row_items(r.0@) == node_items(self.root, false),
            ref_items(r.1@) == node_items(self.root, true),
    {
        let mut rows: Vec<Row> = Vec::new();
        let mut refs: Vec<TreeRef> = Vec::new();
        list_node(&self.root, &mut rows, &mut refs);
        assert(Seq::<Item>::empty() + node_items(self.root, false) =~= node_items(self.root, false));
        assert(Seq::<Item>::empty() + node_items(self.root, true) =~= node_items(self.root, true));
        assert(row_items(Seq::<Row>::empty()) =~= Seq::<Item>::empty());
        assert(ref_items(Seq::<TreeRef>::empty()) =~= Seq::<Item>::empty());
        (rows, refs)
    }

    /// The references that the tree holds, in depth-first order.
    pub fn list_refs(&self) -> (r: Vec<TreeRef>)
        ensures
            ref_items(r@) == node_items(self.root, true),
    {
        let (_, refs) = self.list();
        refs
    }

    /// The records and references of this tree that meet the box on every
    /// axis, found by descending only where the pivots allow a match.
    pub fn query_local(&self, bbox: &Bounds) -> (r: (Vec<Row>, Vec<TreeRef>))
        requires
            bbox.0@.len() > 0,
            bbox.0@.len() == bbox.1@.len(),
            node_shape(self.root, bbox.0@.len()),
        ensures
            row_items(r.0@) == query_items(self.root, 0, bbox.0@, bbox.1@, false),
            ref_items(r.1@) == query_items(self.root, 0, bbox.0@, bbox.1@, true),
    {
        let mut rows: Vec<Row> = Vec::new();
        let mut refs: Vec<TreeRef> = Vec::new();
        assert(0nat % bbox.0@.len() == 0) by (nonlinear_arith)
            requires
                bbox.0@.len() > 0,
        ;
        query_node(&self.root, 0, bbox, &mut rows, &mut refs, Ghost(0));
        assert(row_items(Seq::<Row>::empty()) =~= Seq::<Item>::empty());
        assert(ref_items(Seq::<TreeRef>::empty()) =~= Seq::<Item>::empty());
        assert(Seq::<Item>::empty() + query_items(self.root, 0, bbox.0@, bbox.1@, false) =~= query_items(
            self.root,
            0,
            bbox.0@,
            bbox.1@,
            false,
        ));
        assert(Seq::<Item>::empty() + query_items(self.root, 0, bbox.0@, bbox.1@, true) =~= query_items(
            self.root,
            0,
            bbox.0@,
            bbox.1@,
            true,
        ));
        (rows, refs)
    }
}

/// A filter that nothing passes keeps nothing.
proof fn lemma_filter_none(s: Seq<Item>, pred: spec_fn(Item) -> bool)
    requires
        forall|j: int| 0 <= j < s.len() ==> !pred(#[trigger] s[j]),
    ensures
        s.filter(pred) == Seq::<Item>::empty(),
{
    assert(s.all(|x: Item| !pred(x)));
    s.lemma_all_neg_filter_empty(pred);
    assert(s.filter(pred) =~= Seq::<Item>::empty());
}

/// From a touched pivot above the box, a touched pivot at or below it that
/// the query regards as reached.
proof fn lemma_reach_down(c: Coord, pivots: Seq<i64>, lo: int, hi: int, i: int) -> (j: int)
    requires
        ascending(pivots),
        0 <= i < pivots.len(),
        c.contains(pivots[i] as int),
        pivots[i] > hi,
        c.lo() <= hi,
        lo <= hi,
    ensures
        0 <= j <= i,
        c.contains(pivots[j] as int),
        pivot_matches(pivots, lo, hi, j),
    decreases i,
{
    if i == 0 {
        0
    } else if pivots[i - 1] <= hi {
        i
    } else {
        lemma_reach_down(c, pivots, lo, hi, i - 1)
    }
}

/// From a touched pivot below the box, a touched pivot at or above it that
/// the query regards as reached.
proof fn lemma_reach_up(c: Coord, pivots: Seq<i64>, lo: int, hi: int, i: int) -> (j: int)
    requires
        ascending(pivots),
        0 <= i < pivots.len(),
        c.contains(pivots[i] as int),
        pivots[i] < lo,
        c.hi() >= lo,
        lo <= hi,
    ensures
        i <= j < pivots.len(),
        c.contains(pivots[j] as int),
        pivot_matches(pivots, lo, hi, j),
    decreases pivots.len() - i,
{
    if i == pivots.len() - 1 {
        i
    } else if pivots[i + 1] >= lo {
        i
    } else {
        lemma_reach_up(c, pivots, lo, hi, i + 1)
    }
}

/// A query descends into an intersection child whenever something under it
/// can meet the box on the branch's axis.
pub proof fn lemma_touch_hit(c: Coord, pivots: Seq<i64>, m: u32, lo: int, hi: int)
    requires
        ascending(pivots),
        1 <= pivots.len() <= 32,
        touches_exactly(c, pivots, m),
        mask_used(pivots, m),
        c.meets(lo, hi),
        lo <= hi,
    ensures
        bucket_hit(m, pivots, lo, hi),
{
    let i0 = choose|i: u32| i < pivots.len() && i < 32 && #[trigger] has_bit(m, i);
    assert(c.contains(pivots[i0 as int] as int));
    let p = pivots[i0 as int];
    let j: int = if p > hi {
        lemma_reach_down(c, pivots, lo, hi, i0 as int)
    } else if p < lo {
        lemma_reach_up(c, pivots, lo, hi, i0 as int)
    } else {
        i0 as int
    };
    assert(pivot_matches(pivots, lo, hi, j));
    let ju = j as u32;
    assert(has_bit(m, ju));
}

/// On a tree that keeps the placement invariants, a query for a box yields
/// exactly what the tree holds that meets the box on every axis, in the order
/// in which the tree lists it: nothing that meets the box is pruned away and
/// nothing else is emitted.
pub proof fn law_query_exact(node: Node, level: nat, lo: Seq<i64>, hi: Seq<i64>, refs: bool)
    requires
        lo.len() > 0,
        lo.len() == hi.len(),
        forall|a: int| 0 <= a < lo.len() ==> lo[a] <= hi[a],
        node_placed(node, level, lo.len()),
    ensures
        query_items(node, level, lo, hi, refs) == node_items(node, refs).filter(box_pred(lo, hi)),
    decreases node, 0nat,
{
    reveal(node_placed);
    match node {
        Node::Data(..) => {},
        Node::Branch(b) => {
            lemma_next_axis(level, lo.len());
            let a = (level % lo.len()) as int;
            lemma_buckets_exact(b.intersections@, b.intersections@.len(), b.pivots@, level + 1, lo, hi, a, refs);
            lemma_gaps_exact(b.nodes@, b.nodes@.len(), b.pivots@, level + 1, lo, hi, a, refs);
            Seq::filter_distributes_over_add(
                bucket_items(b.intersections@, b.intersections@.len(), refs),
                gap_items(b.nodes@, b.nodes@.len(), refs),
                box_pred(lo, hi),
            );
        },
    }
}

proof fn lemma_buckets_exact(
    v: Seq<(u32, Node)>,
    n: nat,
    pivots: Seq<i64>,
    level: nat,
    lo: Seq<i64>,
    hi: Seq<i64>,
    a: int,
    refs: bool,
)
    requires
        n <= v.len(),
        lo.len() > 0,
        lo.len() == hi.len(),
        0 <= a < lo.len(),
        forall|x: int| 0 <= x < lo.len() ==> lo[x] <= hi[x],
        1 <= pivots.len() <= 32,
        ascending(pivots),
        forall|i: int|
            0 <= i < v.len() ==> {
                let c = (#[trigger] v[i]).1;
                &&& node_placed(c, level, lo.len())
                &&& mask_used(pivots, v[i].0)
                &&& items_touch(node_items(c, false), a, pivots, v[i].0)
                &&& items_touch(node_items(c, true), a, pivots, v[i].0)
            },
    ensures
        bucket_query(v, n, pivots, level, lo, hi, a, refs) == bucket_items(v, n, refs).filter(
            box_pred(lo, hi),
        ),
    decreases v, n,
{
    let pred = box_pred(lo, hi);
    if n == 0 {
        assert(Seq::<Item>::empty().filter(pred) =~= Seq::<Item>::empty());
    } else {
        lemma_buckets_exact(v, (n - 1) as nat, pivots, level, lo, hi, a, refs);
        let child = v[n - 1].1;
        let m = v[n - 1].0;
        let s = node_items(child, refs);
        Seq::filter_distributes_over_add(bucket_items(v, (n - 1) as nat, refs), s, pred);
        if bucket_hit(m, pivots, lo[a] as int, hi[a] as int) {
            law_query_exact(child, level, lo, hi, refs);
        } else {
            assert(items_touch(s, a, pivots, m));
            assert forall|j: int| 0 <= j < s.len() implies !pred(#[trigger] s[j]) by {
                let c = s[j].point()[a];
                if c.meets(lo[a] as int, hi[a] as int) {
                    lemma_touch_hit(c, pivots, m, lo[a] as int, hi[a] as int);
                }
            }
            lemma_filter_none(s, pred);
        }
    }
}

proof fn lemma_gaps_exact(
    v: Seq<Node>,
    n: nat,
    pivots: Seq<i64>,
    level: nat,
    lo: Seq<i64>,
    hi: Seq<i64>,
    a: int,
    refs: bool,
)
    requires
        n <= v.len(),
        lo.len() > 0,
        lo.len() == hi.len(),
        0 <= a < lo.len(),
        forall|x: int| 0 <= x < lo.len() ==> lo[x] <= hi[x],
        1 <= pivots.len() <= 32,
        v.len() == pivots.len() + 1,
        forall|k: int|
            0 <= k < v.len() ==> {
                let c = #[trigger] v[k];
                &&& node_placed(c, level, lo.len())
                &&& items_in_gap(node_items(c, false), a, pivots, k)
                &&& items_in_gap(node_items(c, true), a, pivots, k)
            },
    ensures
        gap_query(v, n, pivots, level, lo, hi, a, refs) == gap_items(v, n, refs).filter(box_pred(lo, hi)),
    decreases v, n,
{
    let pred = box_pred(lo, hi);
    if n == 0 {
        assert(Seq::<Item>::empty().filter(pred) =~= Seq::<Item>::empty());
    } else {
        lemma_gaps_exact(v, (n - 1) as nat, pivots, level, lo, hi, a, refs);
        let child = v[n - 1];
        let s = node_items(child, refs);
        Seq::filter_distributes_over_add(gap_items(v, (n - 1) as nat, refs), s, pred);
        if gap_hit(pivots, n - 1, lo[a] as int, hi[a] as int) {
            law_query_exact(child, level, lo, hi, refs);
        } else {
            assert(items_in_gap(s, a, pivots, n - 1));
            assert forall|j: int| 0 <= j < s.len() implies !pred(#[trigger] s[j]) by {
                let c = s[j].point()[a];
                assert(in_gap(c, pivots, n - 1));
                assert(!c.meets(lo[a] as int, hi[a] as int));
            }
            lemma_filter_none(s, pred);
        }
    }
}

/// Whatever a query emits meets the box on every axis, on any tree.
pub proof fn law_query_sound(node: Node, level: nat, lo: Seq<i64>, hi: Seq<i64>, refs: bool, j: int)
    requires
        0 <= j < query_items(node, level, lo, hi, refs).len(),
    ensures
        point_in_box(query_items(node, level, lo, hi, refs)[j].point(), lo, hi),
    decreases node, 0nat,
{
    match node {
        Node::Data(..) => {
            node_items(node, refs).lemma_filter_pred(box_pred(lo, hi), j);
        },
        Node::Branch(b) => {
            let a = (level % lo.len()) as int;
            let x = bucket_query(b.intersections@, b.intersections@.len(), b.pivots@, level + 1, lo, hi, a, refs);
            if j < x.len() {
                lemma_buckets_sound(b.intersections@, b.intersections@.len(), b.pivots@, level + 1, lo, hi, a, refs, j);
            } else {
                lemma_gaps_sound(b.nodes@, b.nodes@.len(), b.pivots@, level + 1, lo, hi, a, refs, j - x.len());
            }
        },
    }
}

proof fn lemma_buckets_sound(
    v: Seq<(u32, Node)>,
    n: nat,
    pivots: Seq<i64>,
    level: nat,
    lo: Seq<i64>,
    hi: Seq<i64>,
    a: int,
    refs: bool,
    j: int,
)
    requires
        0 <= j < bucket_query(v, n, pivots, level, lo, hi, a, refs).len(),
    ensures
        point_in_box(bucket_query(v, n, pivots, level, lo, hi, a, refs)[j].point(), lo, hi),
    decreases v, n,
{
    if n == 0 || n > v.len() {
    } else {
        let x = bucket_query(v, (n - 1) as nat, pivots, level, lo, hi, a, refs);
        if j < x.len() {
            lemma_buckets_sound(v, (n - 1) as nat, pivots, level, lo, hi, a, refs, j);
        } else {
            law_query_sound(v[n - 1].1, level, lo, hi, refs, j - x.len());
        }
    }
}

proof fn lemma_gaps_sound(
    v: Seq<Node>,
    n: nat,
    pivots: Seq<i64>,
    level: nat,
    lo: Seq<i64>,
    hi: Seq<i64>,
    a: int,
    refs: bool,
    j: int,
)
    requires
        0 <= j < gap_query(v, n, pivots, level, lo, hi, a, refs).len(),
    ensures
        point_in_box(gap_query(v, n, pivots, level, lo, hi, a, refs)[j].point(), lo, hi),
    decreases v, n,
{
    if n == 0 || n > v.len() {
    } else {
        let x = gap_query(v, (n - 1) as nat, pivots, level, lo, hi, a, refs);
        if j < x.len() {
            lemma_gaps_sound(v, (n - 1) as nat, pivots, level, lo, hi, a, refs, j);
        } else {
            law_query_sound(v[n - 1], level, lo, hi, refs, j - x.len());
        }
    }
}

} // verus!
