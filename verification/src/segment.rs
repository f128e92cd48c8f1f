//! Cutting a leaf that is too large into ranges that each become a tree.

use crate::bytes::{
    count_point_bytes, count_value_bytes, leaf_len, node_len, ref_len, refs_len, row_len, rows_len, sat_add,
    scalar_bytes, varint_len, varint_length,
};
use crate::coord::Coord;
use crate::range::{order_wf, Insert};
use crate::tree::{InsertValue, Item, Node, Row, Tree, TreeRef};
use vstd::prelude::*;

verus! {

/// What the builder reckons for one insert when it cuts a leaf into trees:
/// the point, four bytes, and the payload, or for a reference its id and
/// the endpoints of the intervals of its bounds.
pub open spec fn record_len(ins: Insert) -> nat {
    crate::bytes::point_len(ins.0@) + 4 + match ins.1 {
        InsertValue::Value(v) => crate::bytes::value_len(*v),
        InsertValue::Ref(r) => crate::bytes::varint_len(r.id as int) + ivs_len(r.bounds@, r.bounds@.len()),
    }
}

/// The size of the intervals among the first `n` coordinates.
pub open spec fn ivs_len(p: Seq<Coord>, n: nat) -> nat
    decreases n,
{
    if n == 0 || n > p.len() {
        0
    } else {
        ivs_len(p, (n - 1) as nat) + match p[n - 1] {
            Coord::Interval(_, _) => 16nat,
            Coord::Scalar(_) => 0nat,
        }
    }
}

/// What the builder reckons for one insert when it cuts a leaf into trees.
pub fn record_bytes(ins: &Insert) -> (r: usize)
    ensures
        r == crate::bytes::sat(record_len(*ins) as int),
{
    let base = sat_add(count_point_bytes(&ins.0), 4);
    match &ins.1 {
        InsertValue::Value(v) => sat_add(base, count_value_bytes(v)),
        InsertValue::Ref(r) => {
            let mut n: usize = varint_length(r.id);
            let mut i: usize = 0;
            while i < r.bounds.len()
                invariant
                    i <= r.bounds@.len(),
                    n == crate::bytes::sat(
                        (crate::bytes::varint_len(r.id as int) + ivs_len(r.bounds@, i as nat)) as int,
                    ),
                decreases r.bounds@.len() - i,
            {
                let add: usize = match &r.bounds[i] {
                    Coord::Interval(x, y) => scalar_bytes(x) + scalar_bytes(y),
                    Coord::Scalar(_) => 0,
                };
                n = sat_add(n, add);
                i += 1;
            }
            sat_add(base, n)
        },
    }
}

/// The ranges tile `[lo, hi)`: each is not empty, the first begins at `lo`,
/// each begins where the one before ends, and the last ends at `hi`.
pub open spec fn tiled(segs: Seq<(usize, usize)>, lo: int, hi: int) -> bool {
    &&& segs.len() >= 1
    &&& segs[0].0 == lo
    &&& segs[segs.len() - 1].1 == hi
    &&& forall|i: int| 0 <= i < segs.len() ==> (#[trigger] segs[i]).0 < segs[i].1
    &&& forall|i: int| 0 <= i < segs.len() - 1 ==> (#[trigger] segs[i]).1 == segs[i + 1].0
}

/// What the builder reckons for the inserts of the positions `[lo, hi)`.
pub open spec fn records_len(inserts: Seq<Insert>, sorted: Seq<usize>, lo: int, hi: int) -> nat
    decreases hi - lo,
{
    if hi <= lo {
        0
    } else {
        records_len(inserts, sorted, lo, hi - 1) + record_len(inserts[sorted[hi - 1] as int])
    }
}

/// What an insert takes in a leaf: a record its point and payload, a
/// reference its id and bounds.
pub open spec fn item_len(ins: Insert) -> nat {
    match ins.1 {
        InsertValue::Value(v) => crate::bytes::point_len(ins.0@) + crate::bytes::value_len(*v),
        InsertValue::Ref(r) => ref_len(r),
    }
}

/// How many of the inserts of the positions `[lo, hi)` are payloads.
pub open spec fn payloads(inserts: Seq<Insert>, sorted: Seq<usize>, lo: int, hi: int) -> nat
    decreases hi - lo,
{
    if hi <= lo {
        0
    } else {
        payloads(inserts, sorted, lo, hi - 1) + (if inserts[sorted[hi - 1] as int].1 is Value {
            1nat
        } else {
            0nat
        })
    }
}

/// What the inserts of the positions `[lo, hi)` take in a leaf.
pub open spec fn items_len(inserts: Seq<Insert>, sorted: Seq<usize>, lo: int, hi: int) -> nat
    decreases hi - lo,
{
    if hi <= lo {
        0
    } else {
        items_len(inserts, sorted, lo, hi - 1) + item_len(inserts[sorted[hi - 1] as int])
    }
}

/// The size of the leaf that holds the inserts of the positions `[lo, hi)`.
pub open spec fn range_len(inserts: Seq<Insert>, sorted: Seq<usize>, lo: int, hi: int) -> nat {
    let n = payloads(inserts, sorted, lo, hi);
    (5 + varint_len(n as int) + items_len(inserts, sorted, lo, hi) + varint_len(
        if hi - lo >= n {
            hi - lo - n
        } else {
            0
        },
    )) as nat
}

/// What an item takes in a leaf.
pub open spec fn item_size(it: Item) -> nat {
    match it {
        Item::Row { point, id, data } => crate::bytes::point_len(point) + varint_len(id as int)
            + crate::bytes::payload_len(data),
        Item::Ref { id, bounds } => varint_len(id as int) + crate::bytes::point_len(bounds),
    }
}

/// The most that each of `n` items may take for all of them to fit in one
/// leaf with its counts.
pub open spec fn light_cap(n: nat) -> int {
    if n == 0 {
        0
    } else {
        (usize::MAX - 39) / (n as int) - 2
    }
}

/// The items are light: each takes so little that a leaf of all of them
/// counts less than the largest `usize`.
pub open spec fn light_items(items: Seq<Item>) -> bool {
    forall|j: int| 0 <= j < items.len() ==> item_size(#[trigger] items[j]) <= light_cap(items.len())
}

/// The inserts are light: what they stand for is.
pub open spec fn light(inserts: Seq<Insert>) -> bool {
    forall|j: int|
        0 <= j < inserts.len() ==> item_len(#[trigger] inserts[j]) <= light_cap(inserts.len())
}

/// At most all the inserts of a range are payloads.
proof fn lemma_payloads(inserts: Seq<Insert>, sorted: Seq<usize>, lo: int, hi: int)
    requires
        lo <= hi,
    ensures
        payloads(inserts, sorted, lo, hi) <= hi - lo,
    decreases hi - lo,
{
    if hi > lo {
        lemma_payloads(inserts, sorted, lo, hi - 1);
    }
}

/// What light inserts of a range take, with two bytes to spare for each.
proof fn lemma_light_items(inserts: Seq<Insert>, sorted: Seq<usize>, lo: int, hi: int)
    requires
        light(inserts),
        order_wf(sorted, inserts.len()),
        0 <= lo <= hi <= sorted.len(),
    ensures
        items_len(inserts, sorted, lo, hi) + 2 * (hi - lo) <= (hi - lo) * (light_cap(inserts.len()) + 2),
    decreases hi - lo,
{
    let c = light_cap(inserts.len()) + 2;
    if hi > lo {
        lemma_light_items(inserts, sorted, lo, hi - 1);
        let t = item_len(inserts[sorted[hi - 1] as int]);
        assert(t + 2 <= c);
        assert((hi - lo) * c == (hi - 1 - lo) * c + c) by (nonlinear_arith);
    } else {
        assert((hi - lo) * c == 0) by (nonlinear_arith)
            requires
                hi - lo == 0,
        ;
    }
}

/// A leaf of a range of light inserts counts less than the largest `usize`.
pub proof fn lemma_light_range(inserts: Seq<Insert>, sorted: Seq<usize>, lo: int, hi: int)
    requires
        light(inserts),
        order_wf(sorted, inserts.len()),
        0 <= lo <= hi <= sorted.len(),
    ensures
        range_len(inserts, sorted, lo, hi) < usize::MAX,
{
    let n = inserts.len() as int;
    let k = hi - lo;
    let c = light_cap(inserts.len()) + 2;
    lemma_light_items(inserts, sorted, lo, hi);
    lemma_payloads(inserts, sorted, lo, hi);
    let p = payloads(inserts, sorted, lo, hi) as int;
    lemma_count_len(p);
    lemma_count_len(k - p);
    if k > 0 {
        let m = usize::MAX - 39;
        assert(c == m / n);
        assert(n * (m / n) <= m) by (nonlinear_arith)
            requires
                n > 0,
                m >= 0,
        ;
        assert(c >= 2) by {
            let t = item_len(inserts[sorted[lo] as int]);
            assert(t + 2 <= c);
        }
        assert(k * c <= n * c) by (nonlinear_arith)
            requires
                0 <= k <= n,
                c >= 0,
        ;
    } else {
        assert(k * c == 0) by (nonlinear_arith)
            requires
                k == 0,
        ;
    }
}

/// What an insert takes in a leaf is what the item that it stands for
/// takes.
pub proof fn lemma_light(inserts: Seq<Insert>)
    ensures
        light(inserts) == light_items(Seq::new(inserts.len(), |j: int| crate::range::ins_item(inserts, j))),
{
    let items = Seq::new(inserts.len(), |j: int| crate::range::ins_item(inserts, j));
    assert forall|j: int| 0 <= j < inserts.len() implies item_len(#[trigger] inserts[j]) == item_size(items[j]) by {}
    if light(inserts) {
        assert forall|j: int| 0 <= j < items.len() implies item_size(#[trigger] items[j]) <= light_cap(items.len()) by {
            assert(item_len(inserts[j]) == item_size(items[j]));
        }
    }
    if light_items(items) {
        assert forall|j: int| 0 <= j < inserts.len() implies item_len(#[trigger] inserts[j]) <= light_cap(
            inserts.len(),
        ) by {
            assert(item_len(inserts[j]) == item_size(items[j]));
        }
    }
}

/// The size of the first `n` records depends on those records alone.
proof fn lemma_rows_len_same(a: Seq<Row>, b: Seq<Row>, n: nat)
    requires
        n <= a.len(),
        n <= b.len(),
        forall|i: int| 0 <= i < n ==> a[i] == b[i],
    ensures
        rows_len(a, n) == rows_len(b, n),
    decreases n,
{
    if n > 0 {
        lemma_rows_len_same(a, b, (n - 1) as nat);
    }
}

/// The size of the first `n` references depends on those references alone.
proof fn lemma_refs_len_same(a: Seq<TreeRef>, b: Seq<TreeRef>, n: nat)
    requires
        n <= a.len(),
        n <= b.len(),
        forall|i: int| 0 <= i < n ==> a[i] == b[i],
    ensures
        refs_len(a, n) == refs_len(b, n),
    decreases n,
{
    if n > 0 {
        lemma_refs_len_same(a, b, (n - 1) as nat);
    }
}

/// One record more takes its size more.
pub proof fn lemma_rows_len_push(rows: Seq<Row>, x: Row)
    ensures
        rows_len(rows.push(x), rows.len() + 1) == rows_len(rows, rows.len()) + row_len(x),
{
    lemma_rows_len_same(rows, rows.push(x), rows.len());
}

/// One reference more takes its size more.
pub proof fn lemma_refs_len_push(refs: Seq<TreeRef>, x: TreeRef)
    ensures
        refs_len(refs.push(x), refs.len() + 1) == refs_len(refs, refs.len()) + ref_len(x),
{
    lemma_refs_len_same(refs, refs.push(x), refs.len());
}

/// A count takes one byte as a varint, and one more for at most every 128
/// that it counts.
pub proof fn lemma_count_len(v: int)
    requires
        v >= 0,
    ensures
        varint_len(v) <= 1 + v / 128,
    decreases v,
{
    if v >= 128 {
        lemma_count_len(v / 128);
    }
}

/// The builder reckons four bytes for each insert beside what the insert
/// takes in a leaf. So a leaf of one insert takes at most three bytes more
/// than is reckoned for it, and a leaf of more inserts takes less than is
/// reckoned for them.
pub proof fn lemma_leaf_reckoned(rows: Seq<Row>, refs: Seq<TreeRef>, reckoned: int)
    requires
        rows_len(rows, rows.len()) + refs_len(refs, refs.len()) + 4 * (rows.len() + refs.len()) <= reckoned,
    ensures
        rows.len() + refs.len() >= 1 ==> leaf_len(rows, refs) <= reckoned + 3,
        rows.len() + refs.len() >= 2 ==> leaf_len(rows, refs) < reckoned,
{
    lemma_count_len(rows.len() as int);
    lemma_count_len(refs.len() as int);
}

/// The tree is a leaf of as many items as the positions `[lo, hi)` hold
/// inserts, of the size of the leaf of that range. It takes at most three
/// bytes more than the builder reckons for the inserts, and fewer bytes
/// than it reckons where they are two or more.
pub open spec fn leaf_reckoned(t: Tree, inserts: Seq<Insert>, sorted: Seq<usize>, lo: int, hi: int) -> bool {
    &&& t.root matches Node::Data(rows, refs) && rows@.len() + refs@.len() == hi - lo
    &&& node_len(t.root) == range_len(inserts, sorted, lo, hi)
    &&& node_len(t.root) <= records_len(inserts, sorted, lo, hi) + 3
    &&& hi - lo >= 2 ==> node_len(t.root) < records_len(inserts, sorted, lo, hi)
}

/// The ranges are the cut of the positions `[lo, hi)` at `max` bytes: they
/// tile the positions; a range is reckoned at more than `max` only where a
/// single insert is; and each range but the last would be reckoned at more
/// than `max` with the insert that follows it.
pub open spec fn cut_of(
    inserts: Seq<Insert>,
    sorted: Seq<usize>,
    lo: int,
    hi: int,
    max: usize,
    segs: Seq<(usize, usize)>,
) -> bool {
    &&& tiled(segs, lo, hi)
    &&& forall|i: int|
        0 <= i < segs.len() ==> {
            ||| (#[trigger] segs[i]).1 == segs[i].0 + 1
            ||| crate::bytes::sat(records_len(inserts, sorted, segs[i].0 as int, segs[i].1 as int) as int) <= max
        }
    &&& forall|i: int|
        0 <= i < segs.len() - 1 ==> crate::bytes::sat(
            records_len(inserts, sorted, (#[trigger] segs[i]).0 as int, segs[i].1 + 1) as int,
        ) > max
}

/// Cuts the positions `[lo, hi)` from left to right into ranges, each closed
/// just before the insert with which it would exceed `max` bytes: a range
/// is reckoned at more than `max` only where a single insert is, and each
/// range but the last would be reckoned at more than `max` with the insert
/// that follows it.
pub fn cut_segments(sorted: &Vec<usize>, inserts: &[Insert], lo: usize, hi: usize, max: usize) -> (segs: Vec<
    (usize, usize),
>)
    requires
        lo < hi <= sorted@.len(),
        order_wf(sorted@, inserts@.len() as nat),
    ensures
        cut_of(inserts@, sorted@, lo as int, hi as int, max, segs@),
        tiled(segs@, lo as int, hi as int),
        forall|i: int|
            0 <= i < segs@.len() ==> {
                ||| (#[trigger] segs@[i]).1 == segs@[i].0 + 1
                ||| crate::bytes::sat(records_len(inserts@, sorted@, segs@[i].0 as int, segs@[i].1 as int) as int)
                    <= max
            },
        forall|i: int|
            0 <= i < segs@.len() - 1 ==> crate::bytes::sat(
                records_len(inserts@, sorted@, (#[trigger] segs@[i]).0 as int, segs@[i].1 + 1) as int,
            ) > max,
{
    let mut segs: Vec<(usize, usize)> = Vec::new();
    let mut running: usize = 0;
    let mut start: usize = lo;
    let mut i: usize = lo;
    while i < hi
        invariant
            lo <= start <= i <= hi <= sorted@.len(),
            lo < hi,
            order_wf(sorted@, inserts@.len() as nat),
            start < i || i == lo,
            running == crate::bytes::sat(records_len(inserts@, sorted@, start as int, i as int) as int),
            i > start + 1 ==> running <= max,
            segs@.len() == 0 ==> start == lo,
            segs@.len() > 0 ==> segs@[0].0 == lo && segs@[segs@.len() - 1].1 == start,
            forall|k: int| 0 <= k < segs@.len() ==> (#[trigger] segs@[k]).0 < segs@[k].1,
            forall|k: int| 0 <= k < segs@.len() - 1 ==> (#[trigger] segs@[k]).1 == segs@[k + 1].0,
            forall|k: int|
                0 <= k < segs@.len() ==> {
                    ||| (#[trigger] segs@[k]).1 == segs@[k].0 + 1
                    ||| crate::bytes::sat(
                        records_len(inserts@, sorted@, segs@[k].0 as int, segs@[k].1 as int) as int,
                    ) <= max
                },
            forall|k: int|
                0 <= k < segs@.len() ==> crate::bytes::sat(
                    records_len(inserts@, sorted@, (#[trigger] segs@[k]).0 as int, segs@[k].1 + 1) as int,
                ) > max,
        decreases hi - i,
    {
        let bytes = record_bytes(&inserts[sorted[i]]);
        assert(records_len(inserts@, sorted@, start as int, i + 1) == records_len(
            inserts@,
            sorted@,
            start as int,
            i as int,
        ) + record_len(inserts@[sorted@[i as int] as int]));
        if start < i && sat_add(running, bytes) > max {
            let ghost before = segs@;
            segs.push((start, i));
            assert(forall|k: int| 0 <= k < before.len() ==> segs@[k] == before[k]);
            start = i;
            running = 0;
            assert(records_len(inserts@, sorted@, i as int, i as int) == 0);
            assert(records_len(inserts@, sorted@, i as int, i + 1) == record_len(
                inserts@[sorted@[i as int] as int],
            ));
        }
        running = sat_add(running, bytes);
        i += 1;
    }
    let ghost before = segs@;
    segs.push((start, hi));
    assert(forall|k: int| 0 <= k < before.len() ==> segs@[k] == before[k]);
    segs
}

/// In a tiling, range `i` begins at least `i` past `lo`.
pub proof fn lemma_tiled_up(segs: Seq<(usize, usize)>, lo: int, hi: int, i: int)
    requires
        tiled(segs, lo, hi),
        0 <= i < segs.len(),
    ensures
        lo + i <= segs[i].0,
    decreases i,
{
    if i > 0 {
        lemma_tiled_up(segs, lo, hi, i - 1);
        assert(segs[i - 1].1 == segs[i].0);
    }
}

/// In a tiling, range `i` ends at least as far before `hi` as ranges follow.
pub proof fn lemma_tiled_down(segs: Seq<(usize, usize)>, lo: int, hi: int, i: int)
    requires
        tiled(segs, lo, hi),
        0 <= i < segs.len(),
    ensures
        segs[i].1 + (segs.len() - 1 - i) <= hi,
    decreases segs.len() - i,
{
    if i < segs.len() - 1 {
        lemma_tiled_down(segs, lo, hi, i + 1);
        assert(segs[i].1 == segs[i + 1].0);
    }
}

} // verus!
