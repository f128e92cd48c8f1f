//! Sizes that do not depend on the order of a range: what the builder
//! reckons for the inserts of a range, and the size of their leaf.

use crate::range::{same_range, Insert};
use crate::segment::{item_len, items_len, payloads, range_len, record_len, records_len};
use vstd::prelude::*;

verus! {

/// The sum of `g` over the entries of a sequence.
pub open spec fn sum_nat(s: Seq<usize>, g: spec_fn(usize) -> nat) -> nat
    decreases s.len(),
{
    if s.len() == 0 {
        0
    } else {
        sum_nat(s.drop_last(), g) + g(s.last())
    }
}

/// The sum over a concatenation is the sum of the sums.
proof fn lemma_sum_add(a: Seq<usize>, b: Seq<usize>, g: spec_fn(usize) -> nat)
    ensures
        sum_nat(a + b, g) == sum_nat(a, g) + sum_nat(b, g),
    decreases b.len(),
{
    if b.len() == 0 {
        assert(a + b =~= a);
    } else {
        lemma_sum_add(a, b.drop_last(), g);
        assert((a + b).drop_last() =~= a + b.drop_last());
        assert((a + b).last() == b.last());
    }
}

/// The sum with one entry taken out and added back.
proof fn lemma_sum_remove(t: Seq<usize>, k: int, g: spec_fn(usize) -> nat)
    requires
        0 <= k < t.len(),
    ensures
        sum_nat(t, g) == sum_nat(t.remove(k), g) + g(t[k]),
{
    let a = t.subrange(0, k);
    let x = t.subrange(k, k + 1);
    let b = t.subrange(k + 1, t.len() as int);
    assert(t =~= (a + x) + b);
    assert(t.remove(k) =~= a + b);
    lemma_sum_add(a + x, b, g);
    lemma_sum_add(a, x, g);
    lemma_sum_add(a, b, g);
    assert(x.drop_last() =~= Seq::<usize>::empty());
    assert(x.last() == t[k]);
    assert(sum_nat(x.drop_last(), g) == 0);
    assert(sum_nat(x, g) == g(t[k]));
}

/// The sum does not depend on the order of the entries.
proof fn lemma_sum_perm(s: Seq<usize>, t: Seq<usize>, g: spec_fn(usize) -> nat)
    requires
        s.to_multiset() == t.to_multiset(),
    ensures
        sum_nat(s, g) == sum_nat(t, g),
    decreases s.len(),
{
    broadcast use vstd::multiset::group_multiset_axioms;

    s.to_multiset_ensures();
    t.to_multiset_ensures();
    if s.len() == 0 {
        assert(t.len() == 0);
    } else {
        let x = s.last();
        assert(s.contains(x));
        assert(s.to_multiset().count(x) > 0);
        assert(t.to_multiset().count(x) > 0);
        assert(t.contains(x));
        let k = choose|k: int| 0 <= k < t.len() && t[k] == x;
        let s1 = s.drop_last();
        let t1 = t.remove(k);
        assert(s1 =~= s.remove(s.len() - 1));
        vstd::seq_lib::to_multiset_remove(s, s.len() - 1);
        vstd::seq_lib::to_multiset_remove(t, k);
        lemma_sum_perm(s1, t1, g);
        lemma_sum_remove(t, k, g);
    }
}

/// What an insert takes in a leaf, by its place among the inserts.
pub open spec fn len_at(inserts: Seq<Insert>) -> spec_fn(usize) -> nat {
    |j: usize| item_len(inserts[j as int])
}

/// What the builder reckons for an insert, by its place among the inserts.
pub open spec fn reckoned_at(inserts: Seq<Insert>) -> spec_fn(usize) -> nat {
    |j: usize| record_len(inserts[j as int])
}

/// One for a payload and nothing for a reference, by the place of the
/// insert.
pub open spec fn payload_at(inserts: Seq<Insert>) -> spec_fn(usize) -> nat {
    |j: usize|
        if inserts[j as int].1 is Value {
            1nat
        } else {
            0nat
        }
}

/// The sizes of a range are sums over its positions.
proof fn lemma_range_sums(inserts: Seq<Insert>, sorted: Seq<usize>, lo: int, hi: int)
    requires
        0 <= lo <= hi <= sorted.len(),
    ensures
        items_len(inserts, sorted, lo, hi) == sum_nat(sorted.subrange(lo, hi), len_at(inserts)),
        records_len(inserts, sorted, lo, hi) == sum_nat(sorted.subrange(lo, hi), reckoned_at(inserts)),
        payloads(inserts, sorted, lo, hi) == sum_nat(sorted.subrange(lo, hi), payload_at(inserts)),
    decreases hi - lo,
{
    if hi > lo {
        lemma_range_sums(inserts, sorted, lo, hi - 1);
        let r = sorted.subrange(lo, hi);
        assert(r.drop_last() =~= sorted.subrange(lo, hi - 1));
        assert(r.last() == sorted[hi - 1]);
    } else {
        assert(sorted.subrange(lo, hi).len() == 0);
    }
}

/// What the builder reckons for a range, and the size of the leaf of the
/// range, do not depend on the order of the range.
pub proof fn law_sizes_perm(inserts: Seq<Insert>, s1: Seq<usize>, s2: Seq<usize>, lo: int, hi: int)
    requires
        same_range(s1, s2, lo, hi),
    ensures
        records_len(inserts, s1, lo, hi) == records_len(inserts, s2, lo, hi),
        range_len(inserts, s1, lo, hi) == range_len(inserts, s2, lo, hi),
{
    reveal(same_range);
    lemma_range_sums(inserts, s1, lo, hi);
    lemma_range_sums(inserts, s2, lo, hi);
    lemma_sum_perm(s1.subrange(lo, hi), s2.subrange(lo, hi), len_at(inserts));
    lemma_sum_perm(s1.subrange(lo, hi), s2.subrange(lo, hi), reckoned_at(inserts));
    lemma_sum_perm(s1.subrange(lo, hi), s2.subrange(lo, hi), payload_at(inserts));
}

} // verus!
