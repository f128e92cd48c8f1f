//! A tree that is written is read back as it was.

use crate::bytes::varint_len;
use crate::codec::{
    dec_coords, dec_item, dec_items, dec_list, dec_point, dec_scalar, dec_value, dec_varint, enc_coord,
    enc_coords, enc_item, enc_items, enc_list, enc_point, enc_value, has_bit8, lemma_tag_bits,
    lemma_varint_bytes_len, lemma_varint_round, tag_upto, varint_max,
};
use crate::coord::Coord;
use crate::layout::{
    block_len, child_size, enc, enc_bkids, enc_block, enc_bslots, enc_gkids, enc_gslots, enc_kinds,
    enc_pivots, is_empty_m, item_ok, lemma_models_b, lemma_models_g, lemma_node_ok, list_ok, model,
    models_b, models_g, msize, node_ok, sizes_b, sizes_g, slot_of, NodeM,
};
use crate::reader::{
    dec, dec_bkids, dec_bslots, dec_gkids, dec_gslots, dec_head, dec_kid, dec_pivots, Head,
};
use crate::tree::{node_shape, ref_items, row_items, Item, Node};
use crate::wire::{
    be32, be64, bits, lemma_be32, lemma_be64, lemma_bits, scalar_be, un32, varint_bytes,
};
use crate::writer::{lemma_bkids_len, lemma_block_len, lemma_enc_len, lemma_gkids_len, writable};
use vstd::prelude::*;

verus! {

/// The bytes `x` stand in `b` at `pos`.
pub open spec fn at(b: Seq<u8>, pos: nat, x: Seq<u8>) -> bool {
    pos + x.len() <= b.len() && b.subrange(pos as int, (pos + x.len()) as int) == x
}

/// Where two runs of bytes stand one behind the other, each stands.
pub proof fn lemma_at_split(b: Seq<u8>, pos: nat, x: Seq<u8>, y: Seq<u8>)
    requires
        at(b, pos, x + y),
    ensures
        at(b, pos, x),
        at(b, pos + x.len(), y),
{
    let w = b.subrange(pos as int, (pos + (x + y).len()) as int);
    assert(b.subrange(pos as int, (pos + x.len()) as int) =~= w.subrange(0, x.len() as int));
    assert(w.subrange(0, x.len() as int) =~= x);
    assert(b.subrange((pos + x.len()) as int, (pos + x.len() + y.len()) as int) =~= w.subrange(
        x.len() as int,
        (x.len() + y.len()) as int,
    ));
    assert(w.subrange(x.len() as int, (x.len() + y.len()) as int) =~= y);
}

/// A varint that stands at `pos` is read there.
pub proof fn lemma_varint_at(b: Seq<u8>, pos: nat, v: int)
    requires
        0 <= v <= varint_max(),
        at(b, pos, varint_bytes(v)),
    ensures
        dec_varint(b, pos) == Some((v as nat, pos + varint_len(v))),
        varint_bytes(v).len() == varint_len(v),
{
    lemma_varint_bytes_len(v);
    let sub = b.subrange(pos as int, b.len() as int);
    assert(sub.subrange(0, varint_len(v) as int) =~= b.subrange(pos as int, (pos + varint_len(v)) as int));
    lemma_varint_round(sub, v);
}

/// A scalar that stands at `pos` is read there.
pub proof fn lemma_scalar_at(b: Seq<u8>, pos: nat, x: i64)
    requires
        at(b, pos, scalar_be(x)),
    ensures
        dec_scalar(b, pos) == Some((x, pos + 8)),
        scalar_be(x).len() == 8,
{
    lemma_be64(bits(x));
    lemma_bits(x);
}

/// Each coordinate of a point that stands at `pos` stands behind those
/// before it.
proof fn lemma_coord_at(b: Seq<u8>, pos: nat, p: Seq<Coord>, n: nat, k: nat)
    requires
        k < n <= p.len(),
        at(b, pos, enc_coords(p, n)),
    ensures
        at(b, pos + enc_coords(p, k).len(), enc_coord(p[k as int])),
        enc_coords(p, k).len() + enc_coord(p[k as int]).len() == enc_coords(p, k + 1).len(),
        enc_coords(p, k + 1).len() <= enc_coords(p, n).len(),
    decreases n,
{
    lemma_at_split(b, pos, enc_coords(p, (n - 1) as nat), enc_coord(p[n - 1]));
    if k < n - 1 {
        lemma_coord_at(b, pos, p, (n - 1) as nat, k);
    }
}

/// The coordinates from axis `k` on are read back.
proof fn lemma_coords_round(b: Seq<u8>, pos: nat, p: Seq<Coord>, k: nat)
    requires
        k <= p.len() <= 8,
        at(b, pos, enc_coords(p, p.len())),
    ensures
        dec_coords(b, pos + enc_coords(p, k).len(), tag_upto(p, p.len()), k, p.len()) == Some(
            (p.subrange(k as int, p.len() as int), pos + enc_coords(p, p.len()).len()),
        ),
    decreases p.len() - k,
{
    let dim = p.len();
    let t = tag_upto(p, dim);
    if k >= dim {
        assert(p.subrange(k as int, dim as int) =~= Seq::<Coord>::empty());
    } else {
        lemma_tag_bits(p, dim);
        lemma_coord_at(b, pos, p, dim, k);
        lemma_coords_round(b, pos, p, k + 1);
        let q = pos + enc_coords(p, k).len();
        let ku = k as u8;
        assert(has_bit8(t, ku) == (p[k as int] is Interval));
        match p[k as int] {
            Coord::Scalar(x) => {
                lemma_scalar_at(b, q, x);
                assert(seq![Coord::Scalar(x)] + p.subrange(k as int + 1, dim as int) =~= p.subrange(
                    k as int,
                    dim as int,
                ));
            },
            Coord::Interval(x, y) => {
                lemma_at_split(b, q, scalar_be(x), scalar_be(y));
                lemma_scalar_at(b, q, x);
                lemma_scalar_at(b, q + 8, y);
                assert(seq![Coord::Interval(x, y)] + p.subrange(k as int + 1, dim as int) =~= p.subrange(
                    k as int,
                    dim as int,
                ));
            },
        }
    }
}

/// A point that stands at `pos` is read there.
pub proof fn lemma_point_at(b: Seq<u8>, pos: nat, p: Seq<Coord>)
    requires
        p.len() <= 8,
        at(b, pos, enc_point(p)),
    ensures
        dec_point(b, pos, p.len()) == Some((p, pos + enc_point(p).len())),
{
    lemma_at_split(b, pos, seq![tag_upto(p, p.len())], enc_coords(p, p.len()));
    lemma_coords_round(b, pos + 1, p, 0);
    assert(b[pos as int] == b.subrange(pos as int, pos as int + 1)[0]);
    assert(p.subrange(0, p.len() as int) =~= p);
}

/// A payload that stands at `pos` is read there.
pub proof fn lemma_value_at(b: Seq<u8>, pos: nat, id: u64, data: Seq<u8>)
    requires
        id <= varint_max(),
        data.len() <= varint_max(),
        at(b, pos, enc_value(id, data)),
    ensures
        dec_value(b, pos) == Some(((id, data), pos + enc_value(id, data).len())),
{
    let a = varint_bytes(id as int);
    let c = varint_bytes(data.len() as int);
    lemma_at_split(b, pos, a, c + data);
    lemma_varint_at(b, pos, id as int);
    lemma_at_split(b, pos + a.len(), c, data);
    lemma_varint_at(b, pos + a.len(), data.len() as int);
}

/// An item that stands at `pos` is read there.
pub proof fn lemma_item_at(b: Seq<u8>, pos: nat, it: Item, dim: nat)
    requires
        item_ok(it),
        it.point().len() == dim,
        at(b, pos, enc_item(it)),
    ensures
        dec_item(b, pos, dim, it is Ref) == Some((it, pos + enc_item(it).len())),
{
    match it {
        Item::Row { point, id, data } => {
            lemma_at_split(b, pos, enc_point(point), enc_value(id, data));
            lemma_point_at(b, pos, point);
            lemma_value_at(b, pos + enc_point(point).len(), id, data);
        },
        Item::Ref { id, bounds } => {
            lemma_at_split(b, pos, varint_bytes(id as int), enc_point(bounds));
            lemma_varint_at(b, pos, id as int);
            lemma_point_at(b, pos + varint_bytes(id as int).len(), bounds);
        },
    }
}

/// All the items are records, or with `refs` all are references, and all
/// have points of arity `dim`.
pub open spec fn items_like(s: Seq<Item>, dim: nat, refs: bool) -> bool {
    forall|i: int| 0 <= i < s.len() ==> (#[trigger] s[i]) is Ref == refs && s[i].point().len() == dim
}

/// Each item of a list that stands at `pos` stands behind those before it.
proof fn lemma_items_at(b: Seq<u8>, pos: nat, s: Seq<Item>, n: nat, k: nat)
    requires
        k < n <= s.len(),
        at(b, pos, enc_items(s, n)),
    ensures
        at(b, pos + enc_items(s, k).len(), enc_item(s[k as int])),
        enc_items(s, k).len() + enc_item(s[k as int]).len() == enc_items(s, k + 1).len(),
    decreases n,
{
    lemma_at_split(b, pos, enc_items(s, (n - 1) as nat), enc_item(s[n - 1]));
    if k < n - 1 {
        lemma_items_at(b, pos, s, (n - 1) as nat, k);
    }
}

/// The items from the `k`-th on are read back.
proof fn lemma_items_round(b: Seq<u8>, pos: nat, s: Seq<Item>, k: nat, dim: nat, refs: bool)
    requires
        k <= s.len(),
        list_ok(s),
        items_like(s, dim, refs),
        at(b, pos, enc_items(s, s.len())),
    ensures
        dec_items(b, pos + enc_items(s, k).len(), dim, refs, (s.len() - k) as nat) == Some(
            (s.subrange(k as int, s.len() as int), pos + enc_items(s, s.len()).len()),
        ),
    decreases s.len() - k,
{
    if k >= s.len() {
        assert(s.subrange(k as int, s.len() as int) =~= Seq::<Item>::empty());
    } else {
        lemma_items_at(b, pos, s, s.len(), k);
        lemma_items_round(b, pos, s, k + 1, dim, refs);
        let it = s[k as int];
        lemma_item_at(b, pos + enc_items(s, k).len(), it, dim);
        assert(seq![it] + s.subrange(k as int + 1, s.len() as int) =~= s.subrange(k as int, s.len() as int));
    }
}

/// A list that stands at `pos` is read there.
pub proof fn lemma_list_at(b: Seq<u8>, pos: nat, s: Seq<Item>, dim: nat, refs: bool)
    requires
        list_ok(s),
        items_like(s, dim, refs),
        at(b, pos, enc_list(s)),
    ensures
        dec_list(b, pos, dim, refs) == Some((s, pos + enc_list(s).len())),
{
    lemma_at_split(b, pos, varint_bytes(s.len() as int), enc_items(s, s.len()));
    lemma_varint_at(b, pos, s.len() as int);
    lemma_items_round(b, pos + varint_bytes(s.len() as int).len(), s, 0, dim, refs);
    assert(s.subrange(0, s.len() as int) =~= s);
}

/// Each pivot of a block that stands at `pos` stands behind those before.
proof fn lemma_pivots_at(b: Seq<u8>, pos: nat, p: Seq<i64>, n: nat, k: nat)
    requires
        k < n <= p.len(),
        at(b, pos, enc_pivots(p, n)),
    ensures
        at(b, pos + 8 * k, scalar_be(p[k as int])),
        enc_pivots(p, n).len() == 8 * n,
    decreases n,
{
    lemma_be64(bits(p[n - 1]));
    lemma_at_split(b, pos, enc_pivots(p, (n - 1) as nat), scalar_be(p[n - 1]));
    if n - 1 > 0 {
        if k < n - 1 {
            lemma_pivots_at(b, pos, p, (n - 1) as nat, k);
        } else {
            lemma_pivots_at(b, pos, p, (n - 1) as nat, 0);
        }
    }
}

/// The pivots from the `k`-th on are read back.
proof fn lemma_pivots_round(b: Seq<u8>, pos: nat, p: Seq<i64>, k: nat)
    requires
        k <= p.len(),
        at(b, pos, enc_pivots(p, p.len())),
    ensures
        dec_pivots(b, pos + 8 * k, (p.len() - k) as nat) == Some(
            (p.subrange(k as int, p.len() as int), pos + 8 * p.len()),
        ),
    decreases p.len() - k,
{
    if k >= p.len() {
        assert(p.subrange(k as int, p.len() as int) =~= Seq::<i64>::empty());
    } else {
        lemma_pivots_at(b, pos, p, p.len(), k);
        lemma_pivots_round(b, pos, p, k + 1);
        lemma_scalar_at(b, pos + 8 * k, p[k as int]);
        assert(seq![p[k as int]] + p.subrange(k as int + 1, p.len() as int) =~= p.subrange(k as int, p.len() as int));
    }
}

/// What the block of a branch says of its intersection children.
pub open spec fn bslots_of(v: Seq<(u32, NodeM)>, base: nat) -> Seq<(u32, u64)> {
    Seq::new(v.len(), |j: int| (v[j].0, slot_of(v[j].1, base + sizes_b(v, j as nat))))
}

/// What the block of a branch says of its gap children.
pub open spec fn gslots_of(v: Seq<NodeM>, base: nat) -> Seq<u64> {
    Seq::new(v.len(), |j: int| slot_of(v[j], base + sizes_g(v, j as nat)))
}

/// Each entry for an intersection child stands behind those before it.
proof fn lemma_bslots_at(b: Seq<u8>, pos: nat, v: Seq<(u32, NodeM)>, base: nat, n: nat, k: nat)
    requires
        k < n <= v.len(),
        at(b, pos, enc_bslots(v, base, n)),
    ensures
        at(b, pos + 12 * k, be32(v[k as int].0) + be64(slot_of(v[k as int].1, base + sizes_b(v, k)))),
        enc_bslots(v, base, n).len() == 12 * n,
    decreases n,
{
    let last = be32(v[n - 1].0) + be64(slot_of(v[n - 1].1, base + sizes_b(v, (n - 1) as nat)));
    lemma_be32(v[n - 1].0);
    lemma_be64(slot_of(v[n - 1].1, base + sizes_b(v, (n - 1) as nat)));
    lemma_at_split(b, pos, enc_bslots(v, base, (n - 1) as nat), last);
    if n - 1 > 0 {
        if k < n - 1 {
            lemma_bslots_at(b, pos, v, base, (n - 1) as nat, k);
        } else {
            lemma_bslots_at(b, pos, v, base, (n - 1) as nat, 0);
        }
    }
}

/// The entries for the intersection children from the `k`-th on are read
/// back.
proof fn lemma_bslots_round(b: Seq<u8>, pos: nat, v: Seq<(u32, NodeM)>, base: nat, k: nat)
    requires
        k <= v.len(),
        at(b, pos, enc_bslots(v, base, v.len())),
    ensures
        dec_bslots(b, pos + 12 * k, (v.len() - k) as nat) == Some(
            (bslots_of(v, base).subrange(k as int, v.len() as int), pos + 12 * v.len()),
        ),
    decreases v.len() - k,
{
    let all = bslots_of(v, base);
    if k >= v.len() {
        assert(all.subrange(k as int, v.len() as int) =~= Seq::<(u32, u64)>::empty());
    } else {
        lemma_bslots_at(b, pos, v, base, v.len(), k);
        lemma_bslots_round(b, pos, v, base, k + 1);
        let q = pos + 12 * k;
        let mask = v[k as int].0;
        let slot = slot_of(v[k as int].1, base + sizes_b(v, k));
        lemma_at_split(b, q, be32(mask), be64(slot));
        lemma_be32(mask);
        lemma_be64(slot);
        assert(b.subrange(q as int, q as int + 4) == be32(mask));
        assert(b.subrange(q as int + 4, q as int + 12) == be64(slot));
        assert(seq![(mask, slot)] + all.subrange(k as int + 1, v.len() as int) =~= all.subrange(
            k as int,
            v.len() as int,
        ));
    }
}

/// Each entry for a gap child stands behind those before it.
proof fn lemma_gslots_at(b: Seq<u8>, pos: nat, v: Seq<NodeM>, base: nat, n: nat, k: nat)
    requires
        k < n <= v.len(),
        at(b, pos, enc_gslots(v, base, n)),
    ensures
        at(b, pos + 8 * k, be64(slot_of(v[k as int], base + sizes_g(v, k)))),
        enc_gslots(v, base, n).len() == 8 * n,
    decreases n,
{
    lemma_be64(slot_of(v[n - 1], base + sizes_g(v, (n - 1) as nat)));
    lemma_at_split(
        b,
        pos,
        enc_gslots(v, base, (n - 1) as nat),
        be64(slot_of(v[n - 1], base + sizes_g(v, (n - 1) as nat))),
    );
    if n - 1 > 0 {
        if k < n - 1 {
            lemma_gslots_at(b, pos, v, base, (n - 1) as nat, k);
        } else {
            lemma_gslots_at(b, pos, v, base, (n - 1) as nat, 0);
        }
    }
}

/// The entries for the gap children from the `k`-th on are read back.
proof fn lemma_gslots_round(b: Seq<u8>, pos: nat, v: Seq<NodeM>, base: nat, k: nat)
    requires
        k <= v.len(),
        at(b, pos, enc_gslots(v, base, v.len())),
    ensures
        dec_gslots(b, pos + 8 * k, (v.len() - k) as nat) == Some(
            (gslots_of(v, base).subrange(k as int, v.len() as int), pos + 8 * v.len()),
        ),
    decreases v.len() - k,
{
    let all = gslots_of(v, base);
    if k >= v.len() {
        assert(all.subrange(k as int, v.len() as int) =~= Seq::<u64>::empty());
    } else {
        lemma_gslots_at(b, pos, v, base, v.len(), k);
        lemma_gslots_round(b, pos, v, base, k + 1);
        let q = pos + 8 * k;
        let slot = slot_of(v[k as int], base + sizes_g(v, k));
        lemma_be64(slot);
        assert(b.subrange(q as int, q as int + 8) == be64(slot));
        assert(seq![slot] + all.subrange(k as int + 1, v.len() as int) =~= all.subrange(k as int, v.len() as int));
    }
}

/// A node as it must be for its bytes to be read back at arity `dim`: every
/// point has that arity, the records are records and the references
/// references, and a branch has at most 32 pivots.
pub open spec fn shaped(m: NodeM, dim: nat) -> bool
    decreases m,
{
    match m {
        NodeM::Data { rows, refs } => items_like(rows, dim, false) && items_like(refs, dim, true),
        NodeM::Branch { pivots, buckets, gaps } => {
            &&& pivots.len() <= 32
            &&& forall|i: int| 0 <= i < buckets.len() ==> shaped((#[trigger] buckets[i]).1, dim)
            &&& forall|i: int| 0 <= i < gaps.len() ==> shaped(#[trigger] gaps[i], dim)
        },
    }
}

/// Where the parts of the block of a branch stand.
pub struct Parts {
    pub p1: nat,
    pub p2: nat,
    pub p3: nat,
    pub p4: nat,
    pub p5: nat,
}

/// Where the parts of the block of a branch at `pos` stand: the pivots, the
/// number of intersection children, the bits that tell the leaves, the
/// entries for the intersection children, and the entries for the gap
/// children.
pub open spec fn parts_of(m: NodeM, pos: nat) -> Parts {
    match m {
        NodeM::Branch { pivots, buckets, gaps } => {
            let p1 = pos + 4 + varint_len(pivots.len() as int);
            let p2 = p1 + 8 * pivots.len();
            let p3 = p2 + varint_len(buckets.len() as int);
            let p4 = p3 + (buckets.len() + pivots.len() + 1 + 7) / 8;
            let p5 = p4 + 12 * buckets.len();
            Parts { p1, p2, p3, p4, p5 }
        },
        NodeM::Data { .. } => Parts { p1: 0, p2: 0, p3: 0, p4: 0, p5: 0 },
    }
}

/// The parts of the block of a branch that stands at `pos` stand one behind
/// the other.
proof fn lemma_head_parts(b: Seq<u8>, pos: nat, m: NodeM)
    requires
        node_ok(m),
        m is Branch,
        at(b, pos, enc_block(m, pos)),
    ensures
        m matches NodeM::Branch { pivots, buckets, gaps } && {
            let base = pos + block_len(m);
            let q = parts_of(m, pos);
            &&& at(b, pos, be32(block_len(m) as u32))
            &&& at(b, pos + 4, varint_bytes(pivots.len() as int))
            &&& at(b, q.p1, enc_pivots(pivots, pivots.len()))
            &&& at(b, q.p2, varint_bytes(buckets.len() as int))
            &&& at(b, q.p4, enc_bslots(buckets, base, buckets.len()))
            &&& at(b, q.p5, enc_gslots(gaps, base + sizes_b(buckets, buckets.len()), gaps.len()))
            &&& q.p5 + 8 * gaps.len() == base
            &&& base <= b.len()
            &&& gaps.len() == pivots.len() + 1
        },
{
    lemma_node_ok(m);
    lemma_block_len(m, pos);
    match m {
        NodeM::Branch { pivots, buckets, gaps } => {
            let n = pivots.len();
            let nb = buckets.len();
            let base = pos + block_len(m);
            let a0 = be32(block_len(m) as u32);
            let a1 = varint_bytes(n as int);
            let a2 = enc_pivots(pivots, n);
            let a3 = varint_bytes(nb as int);
            let a4 = enc_kinds(buckets, gaps, ((nb + n + 1 + 7) / 8) as nat);
            let a5 = enc_bslots(buckets, base, nb);
            let a6 = enc_gslots(gaps, base + sizes_b(buckets, nb), gaps.len());
            lemma_be32(block_len(m) as u32);
            lemma_varint_bytes_len(n as int);
            lemma_varint_bytes_len(nb as int);
            crate::writer::lemma_parts_len(pivots, buckets, gaps, base);
            let x1 = a0 + a1;
            let x2 = x1 + a2;
            let x3 = x2 + a3;
            let x4 = x3 + a4;
            let x5 = x4 + a5;
            assert(enc_block(m, pos) == x5 + a6);
            lemma_at_split(b, pos, x5, a6);
            lemma_at_split(b, pos, x4, a5);
            lemma_at_split(b, pos, x3, a4);
            lemma_at_split(b, pos, x2, a3);
            lemma_at_split(b, pos, x1, a2);
            lemma_at_split(b, pos, a0, a1);
        },
        NodeM::Data { .. } => {},
    }
}

/// The block of a branch that stands at `pos` is read there.
proof fn lemma_head_round(b: Seq<u8>, pos: nat, m: NodeM)
    requires
        node_ok(m),
        m is Branch,
        at(b, pos, enc_block(m, pos)),
    ensures
        m matches NodeM::Branch { pivots, buckets, gaps } && {
            let base = pos + block_len(m);
            &&& un32(b.subrange(pos as int, pos as int + 4)) == block_len(m)
            &&& dec_varint(b, pos + 4) == Some((pivots.len(), pos + 4 + varint_len(pivots.len() as int)))
            &&& dec_head(b, pos + 4 + varint_len(pivots.len() as int), pivots.len()) == Some(
                Head {
                    pivots,
                    bslots: bslots_of(buckets, base),
                    gslots: gslots_of(gaps, base + sizes_b(buckets, buckets.len())),
                    end: base,
                },
            )
            &&& base <= b.len()
        },
{
    lemma_node_ok(m);
    lemma_head_parts(b, pos, m);
    match m {
        NodeM::Branch { pivots, buckets, gaps } => {
            let n = pivots.len();
            let nb = buckets.len();
            let base = pos + block_len(m);
            let q = parts_of(m, pos);
            lemma_be32(block_len(m) as u32);
            lemma_varint_at(b, pos + 4, n as int);
            lemma_pivots_round(b, q.p1, pivots, 0);
            assert(pivots.subrange(0, n as int) =~= pivots);
            lemma_varint_at(b, q.p2, nb as int);
            lemma_bslots_round(b, q.p4, buckets, base, 0);
            assert(bslots_of(buckets, base).subrange(0, nb as int) =~= bslots_of(buckets, base));
            lemma_gslots_round(b, q.p5, gaps, base + sizes_b(buckets, nb), 0);
            let gs = gslots_of(gaps, base + sizes_b(buckets, nb));
            assert(gs.subrange(0, gaps.len() as int) =~= gs);
        },
        NodeM::Data { .. } => {},
    }
}

/// A leaf that stands at `pos` is read there.
proof fn lemma_leaf_round(b: Seq<u8>, pos: nat, m: NodeM, dim: nat)
    requires
        node_ok(m),
        shaped(m, dim),
        m is Data,
        at(b, pos, enc(m, pos)),
    ensures
        dec(b, pos, dim) == Some((m, pos + msize(m))),
{
    lemma_node_ok(m);
    lemma_block_len(m, pos);
    match m {
        NodeM::Data { rows, refs } => {
            let a0 = be32(block_len(m) as u32);
            let a1 = varint_bytes(0);
            let a2 = enc_list(rows);
            let a3 = enc_list(refs);
            assert(enc(m, pos) == a0 + a1 + a2 + a3);
            lemma_at_split(b, pos, a0 + a1 + a2, a3);
            lemma_at_split(b, pos, a0 + a1, a2);
            lemma_at_split(b, pos, a0, a1);
            lemma_be32(block_len(m) as u32);
            lemma_varint_at(b, pos + 4, 0);
            lemma_list_at(b, pos + 5, rows, dim, false);
            lemma_list_at(b, pos + 5 + a2.len(), refs, dim, true);
        },
        NodeM::Branch { .. } => {},
    }
}

/// Each intersection child stands behind those before it.
proof fn lemma_bkid_at(b: Seq<u8>, base: nat, v: Seq<(u32, NodeM)>, n: nat, k: nat)
    requires
        k < n <= v.len(),
        forall|i: int| 0 <= i < v.len() ==> node_ok((#[trigger] v[i]).1),
        at(b, base, enc_bkids(v, base, n)),
    ensures
        !is_empty_m(v[k as int].1) ==> at(b, base + sizes_b(v, k), enc(v[k as int].1, base + sizes_b(v, k))),
        base + sizes_b(v, n) <= b.len(),
        sizes_b(v, k) + child_size(v[k as int].1) <= sizes_b(v, n),
    decreases n,
{
    lemma_bkids_len(v, base, n);
    lemma_bkids_len(v, base, (n - 1) as nat);
    let last = if is_empty_m(v[n - 1].1) {
        Seq::<u8>::empty()
    } else {
        enc(v[n - 1].1, base + sizes_b(v, (n - 1) as nat))
    };
    lemma_at_split(b, base, enc_bkids(v, base, (n - 1) as nat), last);
    if k < n - 1 {
        lemma_bkid_at(b, base, v, (n - 1) as nat, k);
    }
}

/// Each gap child stands behind those before it.
proof fn lemma_gkid_at(b: Seq<u8>, base: nat, v: Seq<NodeM>, n: nat, k: nat)
    requires
        k < n <= v.len(),
        forall|i: int| 0 <= i < v.len() ==> node_ok(#[trigger] v[i]),
        at(b, base, enc_gkids(v, base, n)),
    ensures
        !is_empty_m(v[k as int]) ==> at(b, base + sizes_g(v, k), enc(v[k as int], base + sizes_g(v, k))),
        base + sizes_g(v, n) <= b.len(),
        sizes_g(v, k) + child_size(v[k as int]) <= sizes_g(v, n),
    decreases n,
{
    lemma_gkids_len(v, base, n);
    lemma_gkids_len(v, base, (n - 1) as nat);
    let last = if is_empty_m(v[n - 1]) {
        Seq::<u8>::empty()
    } else {
        enc(v[n - 1], base + sizes_g(v, (n - 1) as nat))
    };
    lemma_at_split(b, base, enc_gkids(v, base, (n - 1) as nat), last);
    if k < n - 1 {
        lemma_gkid_at(b, base, v, (n - 1) as nat, k);
    }
}

/// A child that stands where the block of its parent says is read there.
proof fn lemma_kid_round(b: Seq<u8>, cur: nat, c: NodeM, dim: nat)
    requires
        node_ok(c),
        shaped(c, dim),
        dim <= 8,
        cur + child_size(c) < u64::MAX,
        !is_empty_m(c) ==> at(b, cur, enc(c, cur)),
    ensures
        dec_kid(b, cur, dim, slot_of(c, cur)) == Some((c, cur + child_size(c))),
    decreases c, 1nat,
{
    if is_empty_m(c) {
        match c {
            NodeM::Data { rows, refs } => {
                assert(rows =~= Seq::<Item>::empty());
                assert(refs =~= Seq::<Item>::empty());
            },
            NodeM::Branch { .. } => {},
        }
    } else {
        lemma_enc_len(c, cur);
        lemma_block_len_pos(c);
        lemma_round(b, cur, c, dim);
    }
}

/// A block has at least five bytes.
proof fn lemma_block_len_pos(m: NodeM)
    ensures
        msize(m) >= 5,
{
    match m {
        NodeM::Data { .. } => {},
        NodeM::Branch { pivots, buckets, gaps } => {
            assert(crate::bytes::branch_len(pivots.len(), buckets.len()) >= 5);
        },
    }
}

/// The intersection children from the `k`-th on are read back.
proof fn lemma_bkids_round(b: Seq<u8>, base: nat, v: Seq<(u32, NodeM)>, k: nat, dim: nat)
    requires
        k <= v.len(),
        dim <= 8,
        forall|i: int| 0 <= i < v.len() ==> node_ok((#[trigger] v[i]).1) && shaped(v[i].1, dim),
        at(b, base, enc_bkids(v, base, v.len())),
        base + sizes_b(v, v.len()) < u64::MAX,
    ensures
        dec_bkids(b, base + sizes_b(v, k), dim, bslots_of(v, base), k) == Some(
            (v.subrange(k as int, v.len() as int), base + sizes_b(v, v.len())),
        ),
    decreases v, v.len() - k,
{
    if k >= v.len() {
        assert(v.subrange(k as int, v.len() as int) =~= Seq::<(u32, NodeM)>::empty());
    } else {
        lemma_bkid_at(b, base, v, v.len(), k);
        let c = v[k as int].1;
        let cur = base + sizes_b(v, k);
        assert(node_ok(c) && shaped(c, dim));
        lemma_kid_round(b, cur, c, dim);
        lemma_bkids_round(b, base, v, k + 1, dim);
        assert(bslots_of(v, base)[k as int] == (v[k as int].0, slot_of(c, cur)));
        assert(sizes_b(v, k + 1) == sizes_b(v, k) + child_size(c));
        assert(seq![(v[k as int].0, c)] + v.subrange(k as int + 1, v.len() as int) =~= v.subrange(
            k as int,
            v.len() as int,
        ));
    }
}

/// The gap children from the `k`-th on are read back.
proof fn lemma_gkids_round(b: Seq<u8>, base: nat, v: Seq<NodeM>, k: nat, dim: nat)
    requires
        k <= v.len(),
        dim <= 8,
        forall|i: int| 0 <= i < v.len() ==> node_ok(#[trigger] v[i]) && shaped(v[i], dim),
        at(b, base, enc_gkids(v, base, v.len())),
        base + sizes_g(v, v.len()) < u64::MAX,
    ensures
        dec_gkids(b, base + sizes_g(v, k), dim, gslots_of(v, base), k) == Some(
            (v.subrange(k as int, v.len() as int), base + sizes_g(v, v.len())),
        ),
    decreases v, v.len() - k,
{
    if k >= v.len() {
        assert(v.subrange(k as int, v.len() as int) =~= Seq::<NodeM>::empty());
    } else {
        lemma_gkid_at(b, base, v, v.len(), k);
        let c = v[k as int];
        let cur = base + sizes_g(v, k);
        assert(node_ok(c) && shaped(c, dim));
        lemma_kid_round(b, cur, c, dim);
        lemma_gkids_round(b, base, v, k + 1, dim);
        assert(gslots_of(v, base)[k as int] == slot_of(c, cur));
        assert(sizes_g(v, k + 1) == sizes_g(v, k) + child_size(c));
        assert(seq![c] + v.subrange(k as int + 1, v.len() as int) =~= v.subrange(k as int, v.len() as int));
    }
}

/// A node that stands at `pos`, with everything under it, is read there.
#[verifier::rlimit(40)]
pub proof fn lemma_round(b: Seq<u8>, pos: nat, m: NodeM, dim: nat)
    requires
        node_ok(m),
        shaped(m, dim),
        dim <= 8,
        pos + msize(m) < u64::MAX,
        at(b, pos, enc(m, pos)),
    ensures
        dec(b, pos, dim) == Some((m, pos + msize(m))),
    decreases m, 0nat,
{
    lemma_node_ok(m);
    lemma_enc_len(m, pos);
    match m {
        NodeM::Data { .. } => {
            lemma_leaf_round(b, pos, m, dim);
        },
        NodeM::Branch { pivots, buckets, gaps } => {
            assert(shaped(m, dim));
            assert forall|i: int| 0 <= i < buckets.len() implies node_ok((#[trigger] buckets[i]).1) && shaped(
                buckets[i].1,
                dim,
            ) by {}
            assert forall|i: int| 0 <= i < gaps.len() implies node_ok(#[trigger] gaps[i]) && shaped(gaps[i], dim) by {}
            let base = pos + block_len(m);
            let kb = enc_bkids(buckets, base, buckets.len());
            let base2 = base + sizes_b(buckets, buckets.len());
            let kg = enc_gkids(gaps, base2, gaps.len());
            lemma_block_len(m, pos);
            lemma_bkids_len(buckets, base, buckets.len());
            lemma_gkids_len(gaps, base2, gaps.len());
            assert(enc(m, pos) == enc_block(m, pos) + kb + kg);
            lemma_at_split(b, pos, enc_block(m, pos) + kb, kg);
            lemma_at_split(b, pos, enc_block(m, pos), kb);
            lemma_head_round(b, pos, m);
            lemma_bkids_round(b, base, buckets, 0, dim);
            lemma_gkids_round(b, base2, gaps, 0, dim);
            assert(buckets.subrange(0, buckets.len() as int) =~= buckets);
            assert(gaps.subrange(0, gaps.len() as int) =~= gaps);
            assert(crate::bytes::branch_len(pivots.len(), buckets.len()) >= 5);
            lemma_dec_branch(
                b,
                pos,
                dim,
                m,
                Head {
                    pivots,
                    bslots: bslots_of(buckets, base),
                    gslots: gslots_of(gaps, base2),
                    end: base,
                },
                base2,
                base2 + sizes_g(gaps, gaps.len()),
            );
        },
    }
}

/// What reading a branch comes to, given what reading its parts comes to.
proof fn lemma_dec_branch(b: Seq<u8>, pos: nat, dim: nat, m: NodeM, h: Head, p7: nat, p8: nat)
    requires
        m matches NodeM::Branch { pivots, buckets, gaps } && {
            &&& 1 <= pivots.len() <= 32
            &&& pos + 4 <= b.len()
            &&& un32(b.subrange(pos as int, pos as int + 4)) == h.end - pos
            &&& dec_varint(b, pos + 4) == Some((pivots.len(), pos + 4 + varint_len(pivots.len() as int)))
            &&& dec_head(b, pos + 4 + varint_len(pivots.len() as int), pivots.len()) == Some(h)
            &&& h.pivots == pivots
            &&& pos < h.end <= b.len()
            &&& dec_bkids(b, h.end, dim, h.bslots, 0) == Some((buckets, p7))
            &&& pos < p7 <= b.len()
            &&& dec_gkids(b, p7, dim, h.gslots, 0) == Some((gaps, p8))
        },
    ensures
        dec(b, pos, dim) == Some((m, p8)),
{
}

/// The shape of a node is the shape of the node as a plain value.
pub proof fn lemma_shaped(node: Node, dim: nat)
    requires
        node_shape(node, dim),
    ensures
        shaped(model(node), dim),
    decreases node,
{
    match node {
        Node::Data(rows, refs) => {
            assert forall|i: int| 0 <= i < row_items(rows@).len() implies (#[trigger] row_items(rows@)[i]) is Ref
                == false && row_items(rows@)[i].point().len() == dim by {
                assert(rows@[i].0@.len() == dim);
            }
            assert forall|i: int| 0 <= i < ref_items(refs@).len() implies (#[trigger] ref_items(refs@)[i]) is Ref
                == true && ref_items(refs@)[i].point().len() == dim by {
                assert(refs@[i].bounds@.len() == dim);
            }
        },
        Node::Branch(b) => {
            lemma_models_b(b.intersections@, b.intersections@.len());
            lemma_models_g(b.nodes@, b.nodes@.len());
            let bs = models_b(b.intersections@, b.intersections@.len());
            let gs = models_g(b.nodes@, b.nodes@.len());
            assert forall|i: int| 0 <= i < bs.len() implies shaped((#[trigger] bs[i]).1, dim) by {
                assert(node_shape(b.intersections@[i].1, dim));
                lemma_shaped(b.intersections@[i].1, dim);
            }
            assert forall|i: int| 0 <= i < gs.len() implies shaped(#[trigger] gs[i], dim) by {
                assert(node_shape(b.nodes@[i], dim));
                lemma_shaped(b.nodes@[i], dim);
            }
        },
    }
}

/// Writing and reading back: the bytes of a tree of arity `dim` that can be
/// written read back, at that arity, as the tree that was written.
pub proof fn law_round_trip(node: Node, dim: nat)
    requires
        writable(node),
        node_shape(node, dim),
        dim <= 8,
    ensures
        dec(enc(model(node), 0), 0, dim) == Some((model(node), enc(model(node), 0).len())),
{
    let m = model(node);
    let b = enc(m, 0);
    crate::layout::lemma_node_len(node);
    lemma_enc_len(m, 0);
    lemma_shaped(node, dim);
    assert(b.subrange(0, b.len() as int) =~= b);
    lemma_round(b, 0, m, dim);
}

} // verus!
