//! The bytes of points, payloads, records and references, and what reading
//! them back yields.

use crate::bytes::varint_len;
use crate::coord::Coord;
use crate::tree::{Item, Point, Row, TreeRef, Value};
use crate::wire::{
    payload_from_bytes, payload_to_bytes, pow128, scalar_be, scalar_from_bytes, scalar_to_bytes,
    un64, unbits, varint_bytes, varint_decode, varint_encode, varint_read, varint_stop,
    varint_value,
};
use vstd::prelude::*;

verus! {

/// The largest number that a varint is read back as: below 128 to the power
/// of eight.
pub open spec fn varint_max() -> int {
    0xff_ffff_ffff_ffff
}

/// A varint has as many bytes as its length says.
pub proof fn lemma_varint_bytes_len(v: int)
    requires
        0 <= v,
    ensures
        varint_bytes(v).len() == varint_len(v),
    decreases v,
{
    if v >= 128 {
        lemma_varint_bytes_len(v / 128);
    }
}

/// A number below 128 to the power of `n` has a varint of at most `n` bytes.
pub proof fn lemma_varint_len_bound(v: int, n: nat)
    requires
        0 <= v < pow128(n),
        n >= 1,
    ensures
        varint_len(v) <= n,
    decreases n,
{
    if v >= 128 {
        assert(pow128(n) == 128 * pow128((n - 1) as nat));
        if n == 1 {
            assert(pow128(0) == 1);
        } else {
            lemma_varint_len_bound(v / 128, (n - 1) as nat);
        }
    }
}

/// 128 to the power of eight.
pub proof fn lemma_pow128_8()
    ensures
        pow128(8) == 0x100_0000_0000_0000,
{
    reveal_with_fuel(pow128, 10);
}

/// Reading the bytes of a varint that stand at place `k`.
proof fn lemma_varint_at(b: Seq<u8>, k: nat, v: int)
    requires
        0 <= v,
        k + varint_len(v) <= 8,
        k + varint_len(v) <= b.len(),
        b.subrange(k as int, (k + varint_len(v)) as int) == varint_bytes(v),
    ensures
        varint_stop(b, k) == Some(k + varint_len(v)),
        varint_value(b, k + varint_len(v)) == varint_value(b, k) + v * pow128(k),
    decreases v,
{
    let vb = varint_bytes(v);
    lemma_varint_bytes_len(v);
    assert(b[k as int] == vb[0]);
    if v < 128 {
        assert(varint_value(b, k + 1) == varint_value(b, k) + (b[k as int] as nat % 128) * pow128(k));
    } else {
        lemma_varint_bytes_len(v / 128);
        let n = varint_len(v / 128);
        assert(b.subrange(k as int + 1, k as int + 1 + n as int) =~= vb.subrange(1, vb.len() as int));
        assert(vb.subrange(1, vb.len() as int) =~= varint_bytes(v / 128));
        lemma_varint_at(b, k + 1, v / 128);
        assert(varint_value(b, k + 1) == varint_value(b, k) + (b[k as int] as nat % 128) * pow128(k));
        assert(b[k as int] == (v % 128 + 128) as u8);
        assert((b[k as int] as nat) % 128 == v % 128);
        assert(pow128(k + 1) == 128 * pow128(k));
        assert((v % 128) * pow128(k) + (v / 128) * (128 * pow128(k)) == v * pow128(k)) by (nonlinear_arith)
            requires
                0 <= v,
        ;
    }
}

/// A number that a varint is read back as, written and read back.
pub proof fn lemma_varint_round(b: Seq<u8>, v: int)
    requires
        0 <= v <= varint_max(),
        varint_len(v) <= b.len(),
        b.subrange(0, varint_len(v) as int) == varint_bytes(v),
    ensures
        varint_len(v) <= 8,
        varint_read(b) == Some((varint_len(v), v as nat)),
{
    lemma_pow128_8();
    lemma_varint_len_bound(v, 8);
    lemma_varint_at(b, 0, v);
    assert(pow128(0) == 1);
}

/// What is read at `pos`: the value of the varint there and where it ends.
pub open spec fn dec_varint(b: Seq<u8>, pos: nat) -> Option<(nat, nat)> {
    if pos > b.len() {
        None
    } else {
        match varint_read(b.subrange(pos as int, b.len() as int)) {
            Some((n, v)) => Some((v, pos + n)),
            None => None,
        }
    }
}

/// Bit `k` of a byte.
pub open spec fn has_bit8(t: u8, k: u8) -> bool {
    t & (1u8 << k) != 0
}

/// No bit of zero is set.
pub proof fn lemma_bit8_zero(k: u8)
    by (bit_vector)
    requires
        k < 8,
    ensures
        !has_bit8(0, k),
{
}

/// Setting bit `j` sets that bit and no other.
pub proof fn lemma_bit8_or(t: u8, j: u8, k: u8)
    by (bit_vector)
    requires
        j < 8,
        k < 8,
    ensures
        has_bit8(t | (1u8 << j), k) == (has_bit8(t, k) || j == k),
{
}

/// Reads the varint at `pos`.
pub fn read_varint(src: &[u8], pos: usize) -> (r: Option<(u64, usize)>)
    ensures
        match r {
            Some((v, end)) => dec_varint(src@, pos as nat) == Some((v as nat, end as nat)) && pos < end
                <= src@.len() && end <= pos + 8,
            None => dec_varint(src@, pos as nat) is None,
        },
{
    if pos > src.len() {
        return None;
    }
    let rest = vstd::slice::slice_subrange(src, pos, src.len());
    match varint_decode(rest) {
        Some((n, v)) => {
            proof {
                lemma_stop_bounds(rest@, 0);
            }
            Some((v, pos + n))
        },
        None => None,
    }
}

/// Where a varint ends: behind at least one byte and at most eight, within
/// the bytes.
pub proof fn lemma_stop_bounds(b: Seq<u8>, k: nat)
    requires
        k <= 8,
        k <= b.len(),
    ensures
        varint_stop(b, k) matches Some(n) ==> k <= n <= 8 && n <= b.len() && (k < 8 ==> k < n),
    decreases 8 - k,
{
    if k < 8 && k < b.len() && b[k as int] >= 128 {
        lemma_stop_bounds(b, k + 1);
    }
}

/// Appends the varint of `v`.
pub fn put_varint(out: &mut Vec<u8>, v: u64)
    ensures
        final(out)@ == old(out)@ + varint_bytes(v as int),
{
    let b = varint_encode(v);
    append(out, &b);
}

/// Appends bytes.
pub fn append(out: &mut Vec<u8>, b: &Vec<u8>)
    ensures
        final(out)@ == old(out)@ + b@,
{
    let ghost o = out@;
    let mut i: usize = 0;
    assert(o + b@.subrange(0, 0) =~= o);
    while i < b.len()
        invariant
            i <= b@.len(),
            out@ == o + b@.subrange(0, i as int),
        decreases b@.len() - i,
    {
        out.push(b[i]);
        i += 1;
        assert(out@ =~= o + b@.subrange(0, i as int));
    }
    assert(b@.subrange(0, b@.len() as int) =~= b@);
}

/// The byte that tells the intervals among the first `n` coordinates: bit
/// `a` is set where coordinate `a` is an interval.
pub open spec fn tag_upto(p: Seq<Coord>, n: nat) -> u8
    decreases n,
{
    if n == 0 {
        0
    } else {
        let t = tag_upto(p, (n - 1) as nat);
        if p[n - 1] is Interval {
            t | (1u8 << ((n - 1) as u8))
        } else {
            t
        }
    }
}

/// Bit `a` of the tag is set exactly where coordinate `a` is an interval.
pub proof fn lemma_tag_bits(p: Seq<Coord>, n: nat)
    requires
        n <= p.len(),
        n <= 8,
    ensures
        forall|k: u8| k < 8 ==> (#[trigger] has_bit8(tag_upto(p, n), k) <==> k < n && p[k as int] is Interval),
    decreases n,
{
    if n == 0 {
        assert forall|k: u8| k < 8 implies !#[trigger] has_bit8(0u8, k) by {
            lemma_bit8_zero(k);
        }
    } else {
        lemma_tag_bits(p, (n - 1) as nat);
        let t = tag_upto(p, (n - 1) as nat);
        assert forall|k: u8| k < 8 implies (#[trigger] has_bit8(tag_upto(p, n), k) <==> k < n && p[k as int] is Interval) by {
            lemma_bit8_or(t, (n - 1) as u8, k);
        }
    }
}

/// The bytes of a coordinate: one scalar or two.
pub open spec fn enc_coord(c: Coord) -> Seq<u8> {
    match c {
        Coord::Scalar(x) => scalar_be(x),
        Coord::Interval(a, b) => scalar_be(a) + scalar_be(b),
    }
}

/// The bytes of the first `n` coordinates.
pub open spec fn enc_coords(p: Seq<Coord>, n: nat) -> Seq<u8>
    decreases n,
{
    if n == 0 || n > p.len() {
        Seq::empty()
    } else {
        enc_coords(p, (n - 1) as nat) + enc_coord(p[n - 1])
    }
}

/// The bytes of a point: the byte that tells the intervals, then the
/// coordinates.
pub open spec fn enc_point(p: Seq<Coord>) -> Seq<u8> {
    seq![tag_upto(p, p.len())] + enc_coords(p, p.len())
}

/// The scalar at `pos`.
pub open spec fn dec_scalar(b: Seq<u8>, pos: nat) -> Option<(i64, nat)> {
    if pos + 8 <= b.len() {
        Some((unbits(un64(b.subrange(pos as int, pos as int + 8))), pos + 8))
    } else {
        None
    }
}

/// The coordinates from axis `a` on, read at `pos` under the tag `t`.
pub open spec fn dec_coords(b: Seq<u8>, pos: nat, t: u8, a: nat, dim: nat) -> Option<(Seq<Coord>, nat)>
    decreases dim - a,
{
    if a >= dim {
        Some((Seq::empty(), pos))
    } else if a >= 8 {
        None
    } else {
        match dec_scalar(b, pos) {
            None => None,
            Some((x, p1)) => if has_bit8(t, a as u8) {
                match dec_scalar(b, p1) {
                    None => None,
                    Some((y, p2)) => match dec_coords(b, p2, t, a + 1, dim) {
                        None => None,
                        Some((rest, end)) => Some((seq![Coord::Interval(x, y)] + rest, end)),
                    },
                }
            } else {
                match dec_coords(b, p1, t, a + 1, dim) {
                    None => None,
                    Some((rest, end)) => Some((seq![Coord::Scalar(x)] + rest, end)),
                }
            },
        }
    }
}

/// The point of arity `dim` read at `pos`.
pub open spec fn dec_point(b: Seq<u8>, pos: nat, dim: nat) -> Option<(Seq<Coord>, nat)> {
    if pos >= b.len() {
        None
    } else {
        dec_coords(b, pos + 1, b[pos as int], 0, dim)
    }
}

/// Reads the scalar at `pos`.
pub fn read_scalar(src: &[u8], pos: usize) -> (r: Option<(i64, usize)>)
    ensures
        match r {
            Some((x, end)) => dec_scalar(src@, pos as nat) == Some((x, end as nat)) && end == pos + 8 && end
                <= src@.len(),
            None => dec_scalar(src@, pos as nat) is None,
        },
{
    if src.len() < 8 || pos > src.len() - 8 {
        return None;
    }
    let part = vstd::slice::slice_subrange(src, pos, pos + 8);
    match scalar_from_bytes(part) {
        Some(x) => {
            assert(part@.subrange(0, 8) =~= src@.subrange(pos as int, pos + 8));
            Some((x, pos + 8))
        },
        None => None,
    }
}

/// Appends the bytes of a point of at most eight coordinates.
pub fn put_point(out: &mut Vec<u8>, p: &Point)
    requires
        p@.len() <= 8,
    ensures
        final(out)@ == old(out)@ + enc_point(p@),
{
    let ghost o = out@;
    let mut t: u8 = 0;
    let mut a: usize = 0;
    while a < p.len()
        invariant
            a <= p@.len(),
            p@.len() <= 8,
            t == tag_upto(p@, a as nat),
        decreases p@.len() - a,
    {
        match &p[a] {
            Coord::Interval(_, _) => {
                t = t | (1u8 << (a as u8));
            },
            Coord::Scalar(_) => {},
        }
        a += 1;
    }
    out.push(t);
    let ghost o1 = out@;
    let mut a: usize = 0;
    assert(o1 + enc_coords(p@, 0) =~= o1);
    while a < p.len()
        invariant
            a <= p@.len(),
            out@ == o1 + enc_coords(p@, a as nat),
        decreases p@.len() - a,
    {
        let ghost before = out@;
        match &p[a] {
            Coord::Scalar(x) => {
                let b = scalar_to_bytes(x);
                append(out, &b);
            },
            Coord::Interval(x, y) => {
                let b = scalar_to_bytes(x);
                append(out, &b);
                let c = scalar_to_bytes(y);
                append(out, &c);
            },
        }
        a += 1;
        assert(out@ =~= o1 + enc_coords(p@, a as nat));
    }
    assert(out@ =~= o + enc_point(p@));
}

/// Reads the point of arity `dim` at `pos`.
pub fn read_point(src: &[u8], pos: usize, dim: usize) -> (r: Option<(Point, usize)>)
    ensures
        match r {
            Some((p, end)) => dec_point(src@, pos as nat, dim as nat) == Some((p@, end as nat)) && pos < end
                <= src@.len() && p@.len() == dim,
            None => dec_point(src@, pos as nat, dim as nat) is None,
        },
{
    if pos >= src.len() {
        return None;
    }
    let t = src[pos];
    let mut p: Point = Vec::new();
    let mut at: usize = pos + 1;
    let mut a: usize = 0;
    let ghost whole = dec_coords(src@, (pos + 1) as nat, t, 0, dim as nat);
    while a < dim
        invariant
            a <= dim,
            pos < at <= src@.len(),
            t == src@[pos as int],
            p@.len() == a,
            whole == dec_coords(src@, (pos + 1) as nat, t, 0, dim as nat),
            match dec_coords(src@, at as nat, t, a as nat, dim as nat) {
                Some((rest, end)) => whole == Some((p@ + rest, end)),
                None => whole is None,
            },
        decreases dim - a,
    {
        if a >= 8 {
            return None;
        }
        let (x, p1) = match read_scalar(src, at) {
            None => {
                return None;
            },
            Some(v) => v,
        };
        let ghost p0 = p@;
        if t & (1u8 << (a as u8)) != 0 {
            let (y, p2) = match read_scalar(src, p1) {
                None => {
                    return None;
                },
                Some(v) => v,
            };
            p.push(Coord::Interval(x, y));
            at = p2;
            proof {
                match dec_coords(src@, p2 as nat, t, (a + 1) as nat, dim as nat) {
                    Some((rest, end)) => {
                        assert(p0 + (seq![Coord::Interval(x, y)] + rest) =~= p@ + rest);
                    },
                    None => {},
                }
            }
        } else {
            p.push(Coord::Scalar(x));
            at = p1;
            proof {
                match dec_coords(src@, p1 as nat, t, (a + 1) as nat, dim as nat) {
                    Some((rest, end)) => {
                        assert(p0 + (seq![Coord::Scalar(x)] + rest) =~= p@ + rest);
                    },
                    None => {},
                }
            }
        }
        a += 1;
    }
    assert(p@ + Seq::<Coord>::empty() =~= p@);
    Some((p, at))
}

/// The bytes of a payload: its id as a varint, then its bytes behind
/// their count.
pub open spec fn enc_value(id: u64, data: Seq<u8>) -> Seq<u8> {
    varint_bytes(id as int) + (varint_bytes(data.len() as int) + data)
}

/// The bytes of an item: of a record its point and its payload, of a
/// reference its id as a varint and its bounds.
pub open spec fn enc_item(it: Item) -> Seq<u8> {
    match it {
        Item::Row { point, id, data } => enc_point(point) + enc_value(id, data),
        Item::Ref { id, bounds } => varint_bytes(id as int) + enc_point(bounds),
    }
}

/// The bytes of the first `n` items.
pub open spec fn enc_items(s: Seq<Item>, n: nat) -> Seq<u8>
    decreases n,
{
    if n == 0 || n > s.len() {
        Seq::empty()
    } else {
        enc_items(s, (n - 1) as nat) + enc_item(s[n - 1])
    }
}

/// The bytes of a list of items: their number as a varint, then the items.
pub open spec fn enc_list(s: Seq<Item>) -> Seq<u8> {
    varint_bytes(s.len() as int) + enc_items(s, s.len())
}

/// The payload read at `pos`: its id and its bytes.
pub open spec fn dec_value(b: Seq<u8>, pos: nat) -> Option<((u64, Seq<u8>), nat)> {
    match dec_varint(b, pos) {
        None => None,
        Some((id, p1)) => match dec_varint(b, p1) {
            None => None,
            Some((len, p2)) => if p2 + len <= b.len() {
                Some(((id as u64, b.subrange(p2 as int, (p2 + len) as int)), p2 + len))
            } else {
                None
            },
        },
    }
}

/// The item read at `pos`: a record, or with `refs` a reference.
pub open spec fn dec_item(b: Seq<u8>, pos: nat, dim: nat, refs: bool) -> Option<(Item, nat)> {
    if refs {
        match dec_varint(b, pos) {
            None => None,
            Some((id, p1)) => match dec_point(b, p1, dim) {
                None => None,
                Some((bounds, end)) => Some((Item::Ref { id: id as u64, bounds }, end)),
            },
        }
    } else {
        match dec_point(b, pos, dim) {
            None => None,
            Some((point, p1)) => match dec_value(b, p1) {
                None => None,
                Some(((id, data), end)) => Some((Item::Row { point, id, data }, end)),
            },
        }
    }
}

/// The `n` items read from `pos` on.
pub open spec fn dec_items(b: Seq<u8>, pos: nat, dim: nat, refs: bool, n: nat) -> Option<(Seq<Item>, nat)>
    decreases n,
{
    if n == 0 {
        Some((Seq::empty(), pos))
    } else {
        match dec_item(b, pos, dim, refs) {
            None => None,
            Some((it, p1)) => match dec_items(b, p1, dim, refs, (n - 1) as nat) {
                None => None,
                Some((rest, end)) => Some((seq![it] + rest, end)),
            },
        }
    }
}

/// The list of items read at `pos`: the count, then as many items.
pub open spec fn dec_list(b: Seq<u8>, pos: nat, dim: nat, refs: bool) -> Option<(Seq<Item>, nat)> {
    match dec_varint(b, pos) {
        None => None,
        Some((n, p1)) => dec_items(b, p1, dim, refs, n),
    }
}

/// Appends the bytes of a payload.
pub fn put_value(out: &mut Vec<u8>, v: &Value)
    ensures
        final(out)@ == old(out)@ + enc_value(v.id, v.data@),
{
    let ghost o = out@;
    put_varint(out, v.id);
    let b = payload_to_bytes(&v.data);
    append(out, &b);
    assert(out@ =~= o + enc_value(v.id, v.data@));
}

/// Reads the payload at `pos`.
pub fn read_value(src: &[u8], pos: usize) -> (r: Option<(Value, usize)>)
    ensures
        match r {
            Some((v, end)) => dec_value(src@, pos as nat) == Some(((v.id, v.data@), end as nat)) && pos < end
                <= src@.len(),
            None => dec_value(src@, pos as nat) is None,
        },
{
    let (id, p1) = match read_varint(src, pos) {
        None => {
            return None;
        },
        Some(x) => x,
    };
    let (len, p2) = match read_varint(src, p1) {
        None => {
            return None;
        },
        Some(x) => x,
    };
    if len > (src.len() - p2) as u64 {
        return None;
    }
    let rest = vstd::slice::slice_subrange(src, p1, src.len());
    let (used, data) = match payload_from_bytes(rest) {
        None => {
            return None;
        },
        Some(x) => x,
    };
    assert(data@ =~= src@.subrange(p2 as int, p2 + len));
    Some((Value { id, data }, p1 + used))
}

/// Appends the bytes of a record.
pub fn put_row(out: &mut Vec<u8>, r: &Row)
    requires
        r.0@.len() <= 8,
    ensures
        final(out)@ == old(out)@ + enc_item(crate::tree::row_item(*r)),
{
    let ghost o = out@;
    put_point(out, &r.0);
    put_value(out, &r.1);
    assert(out@ =~= o + enc_item(crate::tree::row_item(*r)));
}

/// Appends the bytes of a reference.
pub fn put_ref(out: &mut Vec<u8>, r: &TreeRef)
    requires
        r.bounds@.len() <= 8,
    ensures
        final(out)@ == old(out)@ + enc_item(crate::tree::ref_item(*r)),
{
    let ghost o = out@;
    put_varint(out, r.id);
    put_point(out, &r.bounds);
    assert(out@ =~= o + enc_item(crate::tree::ref_item(*r)));
}

/// Reads the record at `pos`.
pub fn read_row(src: &[u8], pos: usize, dim: usize) -> (r: Option<(Row, usize)>)
    ensures
        match r {
            Some((row, end)) => dec_item(src@, pos as nat, dim as nat, false) == Some(
                (crate::tree::row_item(row), end as nat),
            ) && pos < end <= src@.len() && row.0@.len() == dim,
            None => dec_item(src@, pos as nat, dim as nat, false) is None,
        },
{
    let (p, p1) = match read_point(src, pos, dim) {
        None => {
            return None;
        },
        Some(x) => x,
    };
    let (v, end) = match read_value(src, p1) {
        None => {
            return None;
        },
        Some(x) => x,
    };
    Some(((p, v), end))
}

/// Reads the reference at `pos`.
pub fn read_ref(src: &[u8], pos: usize, dim: usize) -> (r: Option<(TreeRef, usize)>)
    ensures
        match r {
            Some((tr, end)) => dec_item(src@, pos as nat, dim as nat, true) == Some(
                (crate::tree::ref_item(tr), end as nat),
            ) && pos < end <= src@.len() && tr.bounds@.len() == dim,
            None => dec_item(src@, pos as nat, dim as nat, true) is None,
        },
{
    let (id, p1) = match read_varint(src, pos) {
        None => {
            return None;
        },
        Some(x) => x,
    };
    let (bounds, end) = match read_point(src, p1, dim) {
        None => {
            return None;
        },
        Some(x) => x,
    };
    Some((TreeRef { id, bounds }, end))
}

/// Reads the list of records at `pos`.
pub fn read_rows(src: &[u8], pos: usize, dim: usize) -> (r: Option<(Vec<Row>, usize)>)
    ensures
        match r {
            Some((rows, end)) => dec_list(src@, pos as nat, dim as nat, false) == Some(
                (crate::tree::row_items(rows@), end as nat),
            ) && pos < end <= src@.len() && forall|i: int|
                0 <= i < rows@.len() ==> (#[trigger] rows@[i]).0@.len() == dim,
            None => dec_list(src@, pos as nat, dim as nat, false) is None,
        },
{
    let (n, p1) = match read_varint(src, pos) {
        None => {
            return None;
        },
        Some(x) => x,
    };
    let mut rows: Vec<Row> = Vec::new();
    let mut at: usize = p1;
    let mut k: u64 = 0;
    let ghost whole = dec_items(src@, p1 as nat, dim as nat, false, n as nat);
    assert(crate::tree::row_items(rows@) =~= Seq::<Item>::empty());
    while k < n
        invariant
            k <= n,
            pos < at <= src@.len(),
            dec_varint(src@, pos as nat) == Some((n as nat, p1 as nat)),
            whole == dec_items(src@, p1 as nat, dim as nat, false, n as nat),
            forall|i: int| 0 <= i < rows@.len() ==> (#[trigger] rows@[i]).0@.len() == dim,
            match dec_items(src@, at as nat, dim as nat, false, (n - k) as nat) {
                Some((rest, end)) => whole == Some((crate::tree::row_items(rows@) + rest, end)),
                None => whole is None,
            },
        decreases n - k,
    {
        let (row, p2) = match read_row(src, at, dim) {
            None => {
                return None;
            },
            Some(x) => x,
        };
        let ghost r0 = crate::tree::row_items(rows@);
        let ghost it = crate::tree::row_item(row);
        rows.push(row);
        proof {
            assert(crate::tree::row_items(rows@) =~= r0.push(it));
            match dec_items(src@, p2 as nat, dim as nat, false, (n - k - 1) as nat) {
                Some((rest, end)) => {
                    assert(r0 + (seq![it] + rest) =~= r0.push(it) + rest);
                },
                None => {},
            }
        }
        at = p2;
        k += 1;
    }
    assert(crate::tree::row_items(rows@) + Seq::<Item>::empty() =~= crate::tree::row_items(rows@));
    Some((rows, at))
}

/// Reads the list of references at `pos`.
pub fn read_refs(src: &[u8], pos: usize, dim: usize) -> (r: Option<(Vec<TreeRef>, usize)>)
    ensures
        match r {
            Some((refs, end)) => dec_list(src@, pos as nat, dim as nat, true) == Some(
                (crate::tree::ref_items(refs@), end as nat),
            ) && pos < end <= src@.len() && forall|i: int|
                0 <= i < refs@.len() ==> (#[trigger] refs@[i]).bounds@.len() == dim,
            None => dec_list(src@, pos as nat, dim as nat, true) is None,
        },
{
    let (n, p1) = match read_varint(src, pos) {
        None => {
            return None;
        },
        Some(x) => x,
    };
    let mut refs: Vec<TreeRef> = Vec::new();
    let mut at: usize = p1;
    let mut k: u64 = 0;
    let ghost whole = dec_items(src@, p1 as nat, dim as nat, true, n as nat);
    assert(crate::tree::ref_items(refs@) =~= Seq::<Item>::empty());
    while k < n
        invariant
            k <= n,
            pos < at <= src@.len(),
            dec_varint(src@, pos as nat) == Some((n as nat, p1 as nat)),
            whole == dec_items(src@, p1 as nat, dim as nat, true, n as nat),
            forall|i: int| 0 <= i < refs@.len() ==> (#[trigger] refs@[i]).bounds@.len() == dim,
            match dec_items(src@, at as nat, dim as nat, true, (n - k) as nat) {
                Some((rest, end)) => whole == Some((crate::tree::ref_items(refs@) + rest, end)),
                None => whole is None,
            },
        decreases n - k,
    {
        let (tr, p2) = match read_ref(src, at, dim) {
            None => {
                return None;
            },
            Some(x) => x,
        };
        let ghost r0 = crate::tree::ref_items(refs@);
        let ghost it = crate::tree::ref_item(tr);
        refs.push(tr);
        proof {
            assert(crate::tree::ref_items(refs@) =~= r0.push(it));
            match dec_items(src@, p2 as nat, dim as nat, true, (n - k - 1) as nat) {
                Some((rest, end)) => {
                    assert(r0 + (seq![it] + rest) =~= r0.push(it) + rest);
                },
                None => {},
            }
        }
        at = p2;
        k += 1;
    }
    assert(crate::tree::ref_items(refs@) + Seq::<Item>::empty() =~= crate::tree::ref_items(refs@));
    Some((refs, at))
}

/// Appends the bytes of the list of records.
pub fn put_rows(out: &mut Vec<u8>, rows: &Vec<Row>)
    requires
        forall|i: int| 0 <= i < rows@.len() ==> (#[trigger] rows@[i]).0@.len() <= 8,
    ensures
        final(out)@ == old(out)@ + enc_list(crate::tree::row_items(rows@)),
{
    let ghost o = out@;
    let ghost items = crate::tree::row_items(rows@);
    put_varint(out, rows.len() as u64);
    let ghost o1 = out@;
    let mut i: usize = 0;
    assert(o1 + enc_items(items, 0) =~= o1);
    while i < rows.len()
        invariant
            i <= rows@.len(),
            items == crate::tree::row_items(rows@),
            forall|j: int| 0 <= j < rows@.len() ==> (#[trigger] rows@[j]).0@.len() <= 8,
            out@ == o1 + enc_items(items, i as nat),
        decreases rows@.len() - i,
    {
        put_row(out, &rows[i]);
        i += 1;
        assert(out@ =~= o1 + enc_items(items, i as nat));
    }
    assert(out@ =~= o + enc_list(items));
}

/// Appends the bytes of the list of references.
pub fn put_refs(out: &mut Vec<u8>, refs: &Vec<TreeRef>)
    requires
        forall|i: int| 0 <= i < refs@.len() ==> (#[trigger] refs@[i]).bounds@.len() <= 8,
    ensures
        final(out)@ == old(out)@ + enc_list(crate::tree::ref_items(refs@)),
{
    let ghost o = out@;
    let ghost items = crate::tree::ref_items(refs@);
    put_varint(out, refs.len() as u64);
    let ghost o1 = out@;
    let mut i: usize = 0;
    assert(o1 + enc_items(items, 0) =~= o1);
    while i < refs.len()
        invariant
            i <= refs@.len(),
            items == crate::tree::ref_items(refs@),
            forall|j: int| 0 <= j < refs@.len() ==> (#[trigger] refs@[j]).bounds@.len() <= 8,
            out@ == o1 + enc_items(items, i as nat),
        decreases refs@.len() - i,
    {
        put_ref(out, &refs[i]);
        i += 1;
        assert(out@ =~= o1 + enc_items(items, i as nat));
    }
    assert(out@ =~= o + enc_list(items));
}

} // verus!
