//! The bytes of the numbers in a tree's layout: fixed-width big-endian
//! integers and varints.

use vstd::prelude::*;

verus! {

/// The four bytes of a `u32`, the most significant first.
pub open spec fn be32(x: u32) -> Seq<u8> {
    seq![
        (x / 0x100_0000) as u8,
        ((x / 0x1_0000) % 0x100) as u8,
        ((x / 0x100) % 0x100) as u8,
        (x % 0x100) as u8,
    ]
}

/// The number that four bytes stand for, the most significant first.
pub open spec fn un32(b: Seq<u8>) -> u32 {
    (b[0] as int * 0x100_0000 + b[1] as int * 0x1_0000 + b[2] as int * 0x100 + b[3] as int) as u32
}

/// The eight bytes of a `u64`, the most significant first.
pub open spec fn be64(x: u64) -> Seq<u8> {
    be32((x / 0x1_0000_0000) as u32) + be32((x % 0x1_0000_0000) as u32)
}

/// The number that eight bytes stand for, the most significant first.
pub open spec fn un64(b: Seq<u8>) -> u64 {
    (un32(b.subrange(0, 4)) as int * 0x1_0000_0000 + un32(b.subrange(4, 8)) as int) as u64
}

/// The `u64` with the bits of an `i64`.
pub open spec fn bits(x: i64) -> u64 {
    if x >= 0 {
        x as u64
    } else {
        (x + 0x1_0000_0000_0000_0000) as u64
    }
}

/// The `i64` with the bits of a `u64`.
pub open spec fn unbits(u: u64) -> i64 {
    if u < 0x8000_0000_0000_0000 {
        u as i64
    } else {
        (u - 0x1_0000_0000_0000_0000) as i64
    }
}

/// The eight bytes of a scalar: those of its bits, the most significant
/// first.
pub open spec fn scalar_be(x: i64) -> Seq<u8> {
    be64(bits(x))
}

/// Four bytes and back.
pub proof fn lemma_be32(x: u32)
    ensures
        be32(x).len() == 4,
        un32(be32(x)) == x,
{
}

/// Eight bytes and back.
pub proof fn lemma_be64(x: u64)
    ensures
        be64(x).len() == 8,
        un64(be64(x)) == x,
{
    let hi = (x / 0x1_0000_0000) as u32;
    let lo = (x % 0x1_0000_0000) as u32;
    lemma_be32(hi);
    lemma_be32(lo);
    assert(be64(x).subrange(0, 4) =~= be32(hi));
    assert(be64(x).subrange(4, 8) =~= be32(lo));
}

/// The bits of a scalar and back.
pub proof fn lemma_bits(x: i64)
    ensures
        unbits(bits(x)) == x,
{
}

/// The bytes of a `u32`, the most significant first.
pub fn put_u32(out: &mut Vec<u8>, x: u32)
    ensures
        final(out)@ == old(out)@ + be32(x),
{
    let ghost o = out@;
    out.push((x / 0x100_0000) as u8);
    out.push(((x / 0x1_0000) % 0x100) as u8);
    out.push(((x / 0x100) % 0x100) as u8);
    out.push((x % 0x100) as u8);
    assert(out@ =~= o + be32(x));
}

/// The bytes of a `u64`, the most significant first.
pub fn put_u64(out: &mut Vec<u8>, x: u64)
    ensures
        final(out)@ == old(out)@ + be64(x),
{
    let ghost o = out@;
    put_u32(out, (x / 0x1_0000_0000) as u32);
    put_u32(out, (x % 0x1_0000_0000) as u32);
    assert(out@ =~= o + be64(x));
}

/// The `u32` that stands at `pos`, if four bytes are there.
pub fn get_u32(src: &[u8], pos: usize) -> (r: Option<u32>)
    ensures
        match r {
            Some(x) => pos + 4 <= src@.len() && x == un32(src@.subrange(pos as int, pos + 4)),
            None => pos + 4 > src@.len(),
        },
{
    if src.len() < 4 || pos > src.len() - 4 {
        return None;
    }
    let b0 = src[pos] as u32;
    let b1 = src[pos + 1] as u32;
    let b2 = src[pos + 2] as u32;
    let b3 = src[pos + 3] as u32;
    let ghost b = src@.subrange(pos as int, pos + 4);
    assert(b[0] == src@[pos as int] && b[1] == src@[pos + 1] && b[2] == src@[pos + 2] && b[3] == src@[pos + 3]);
    Some(b0 * 0x100_0000 + b1 * 0x1_0000 + b2 * 0x100 + b3)
}

/// The `u64` that stands at `pos`, if eight bytes are there.
pub fn get_u64(src: &[u8], pos: usize) -> (r: Option<u64>)
    ensures
        match r {
            Some(x) => pos + 8 <= src@.len() && x == un64(src@.subrange(pos as int, pos + 8)),
            None => pos + 8 > src@.len(),
        },
{
    if src.len() < 8 || pos > src.len() - 8 {
        return None;
    }
    let hi = match get_u32(src, pos) {
        Some(x) => x,
        None => {
            return None;
        },
    };
    let lo = match get_u32(src, pos + 4) {
        Some(x) => x,
        None => {
            return None;
        },
    };
    let ghost b = src@.subrange(pos as int, pos + 8);
    assert(b.subrange(0, 4) =~= src@.subrange(pos as int, pos + 4));
    assert(b.subrange(4, 8) =~= src@.subrange(pos + 4, pos + 8));
    Some((hi as u64) * 0x1_0000_0000 + (lo as u64))
}

/// The bytes of a varint: seven bits to a byte, the least significant
/// first, each byte but the last with its highest bit set.
pub open spec fn varint_bytes(v: int) -> Seq<u8>
    decreases v,
{
    if v < 128 {
        seq![v as u8]
    } else {
        seq![(v % 128 + 128) as u8] + varint_bytes(v / 128)
    }
}

/// Where the varint at the front of the bytes ends: behind the first byte
/// without the highest bit, or behind the eighth byte; nowhere if the bytes
/// end before.
pub open spec fn varint_stop(b: Seq<u8>, k: nat) -> Option<nat>
    decreases 8 - k,
{
    if k >= 8 {
        Some(8)
    } else if k >= b.len() {
        None
    } else if b[k as int] < 128 {
        Some(k + 1)
    } else {
        varint_stop(b, k + 1)
    }
}

/// 128 to the power of `k`.
pub open spec fn pow128(k: nat) -> nat
    decreases k,
{
    if k == 0 {
        1
    } else {
        128 * pow128((k - 1) as nat)
    }
}

/// What the first `n` bytes of a varint stand for.
pub open spec fn varint_value(b: Seq<u8>, n: nat) -> nat
    decreases n,
{
    if n == 0 {
        0
    } else {
        varint_value(b, (n - 1) as nat) + (b[n - 1] as nat % 128) * pow128((n - 1) as nat)
    }
}

/// What the decoder makes of the bytes: the length of the varint at the
/// front and its value, if the bytes hold one.
pub open spec fn varint_read(b: Seq<u8>) -> Option<(nat, nat)> {
    match varint_stop(b, 0) {
        Some(n) => Some((n, varint_value(b, n))),
        None => None,
    }
}

/// `desert::varint::encode` into a buffer of the length that
/// `desert::varint::length` gives: the bytes of the varint, which that
/// length always suffices for.
#[verifier::external_body]
pub(crate) fn varint_encode(value: u64) -> (r: Vec<u8>)
    ensures
        r@ == varint_bytes(value as int),
{
    let mut buf = vec![0u8; desert::varint::length(value)];
    let _ = desert::varint::encode(value, &mut buf);
    buf
}

/// `desert::varint::decode`: reads at most eight bytes, up to the first
/// without the highest bit, and sums their lower seven bits by place; fails
/// if the bytes end before.
#[verifier::external_body]
pub(crate) fn varint_decode(src: &[u8]) -> (r: Option<(usize, u64)>)
    ensures
        match r {
            Some((n, v)) => varint_read(src@) == Some((n as nat, v as nat)),
            None => varint_read(src@) is None,
        },
{
    match desert::varint::decode(src) {
        Ok(x) => Some(x),
        Err(_) => None,
    }
}

/// `desert::ToBytes::to_bytes` of an `i64`: its eight bytes, the most
/// significant first; it does not fail.
#[verifier::external_body]
pub(crate) fn scalar_to_bytes(x: &i64) -> (r: Vec<u8>)
    ensures
        r@ == scalar_be(*x),
{
    match desert::ToBytes::to_bytes(x) {
        Ok(b) => b,
        Err(_) => Vec::new(),
    }
}

/// `desert::FromBytes::from_bytes` for an `i64`: the scalar whose bytes are
/// the first eight, the most significant first; fails on fewer than eight.
#[verifier::external_body]
pub(crate) fn scalar_from_bytes(src: &[u8]) -> (r: Option<i64>)
    ensures
        match r {
            Some(x) => src@.len() >= 8 && x == unbits(un64(src@.subrange(0, 8))),
            None => src@.len() < 8,
        },
{
    match <i64 as desert::FromBytes>::from_bytes(src) {
        Ok((_, x)) => Some(x),
        Err(_) => None,
    }
}

/// Where the bytes behind a count end: behind the varint of the count and
/// as many bytes as it says.
pub open spec fn payload_end(b: Seq<u8>) -> nat {
    match varint_read(b) {
        Some((n, v)) => n + v,
        None => 0,
    }
}

/// The bytes behind a count.
pub open spec fn payload_data(b: Seq<u8>) -> Seq<u8> {
    match varint_read(b) {
        Some((n, v)) => b.subrange(n as int, (n + v) as int),
        None => Seq::empty(),
    }
}

/// `desert::ToBytes::to_bytes` of a `Vec<u8>`: the number of bytes as a
/// varint, then the bytes; it does not fail.
#[verifier::external_body]
pub(crate) fn payload_to_bytes(data: &Vec<u8>) -> (r: Vec<u8>)
    ensures
        r@ == varint_bytes(data@.len() as int) + data@,
{
    match desert::ToBytes::to_bytes(data) {
        Ok(b) => b,
        Err(_) => Vec::new(),
    }
}

/// `desert::FromBytes::from_bytes` for a `Vec<u8>`, on bytes that begin
/// with the varint of a count and hold that many bytes behind it: those
/// bytes, and how many bytes were read.
#[verifier::external_body]
pub(crate) fn payload_from_bytes(src: &[u8]) -> (r: Option<(usize, Vec<u8>)>)
    requires
        varint_read(src@) is Some,
        payload_end(src@) <= src@.len(),
    ensures
        match r {
            Some(x) => x.0 == payload_end(src@) && x.1@ == payload_data(src@),
            None => false,
        },
{
    match <Vec<u8> as desert::FromBytes>::from_bytes(src) {
        Ok(x) => Some(x),
        Err(_) => None,
    }
}

} // verus!
