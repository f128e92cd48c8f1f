//! What a build keeps: everything that the inserts of a range stand for is
//! held, once each, by the node built from the range or by the trees moved
//! out of it, and beside them there is exactly one reference to each of those
//! trees, with the tight box around what the tree lists.

use crate::coord::Coord;
use crate::range::{ins_item, same_range, Insert};
use crate::tree::{bucket_items, gap_items, node_items, Item, Node, Tree, TreeId};
use vstd::multiset::Multiset;
use vstd::prelude::*;
use vstd::seq_lib::lemma_multiset_commutative;

verus! {

/// The sum of `g` over the entries of a sequence.
pub open spec fn sum_ms(s: Seq<usize>, g: spec_fn(usize) -> Multiset<Item>) -> Multiset<Item>
    decreases s.len(),
{
    if s.len() == 0 {
        Multiset::empty()
    } else {
        sum_ms(s.drop_last(), g).add(g(s.last()))
    }
}

/// The sum over a concatenation is the sum of the sums.
pub proof fn lemma_sum_add(a: Seq<usize>, b: Seq<usize>, g: spec_fn(usize) -> Multiset<Item>)
    ensures
        sum_ms(a + b, g) == sum_ms(a, g).add(sum_ms(b, g)),
    decreases b.len(),
{
    broadcast use vstd::multiset::group_multiset_axioms;

    if b.len() == 0 {
        assert(a + b =~= a);
        assert(sum_ms(a, g).add(Multiset::empty()) =~= sum_ms(a, g));
    } else {
        lemma_sum_add(a, b.drop_last(), g);
        assert((a + b).drop_last() =~= a + b.drop_last());
        assert((a + b).last() == b.last());
        assert(sum_ms(a, g).add(sum_ms(b.drop_last(), g)).add(g(b.last())) =~= sum_ms(a, g).add(
            sum_ms(b.drop_last(), g).add(g(b.last())),
        ));
    }
}

/// The sum with one entry taken out and added back.
pub proof fn lemma_sum_remove(t: Seq<usize>, k: int, g: spec_fn(usize) -> Multiset<Item>)
    requires
        0 <= k < t.len(),
    ensures
        sum_ms(t, g) == sum_ms(t.remove(k), g).add(g(t[k])),
{
    broadcast use vstd::multiset::group_multiset_axioms;

    let a = t.subrange(0, k);
    let x = t.subrange(k, k + 1);
    let b = t.subrange(k + 1, t.len() as int);
    assert(t =~= (a + x) + b);
    assert(t.remove(k) =~= a + b);
    lemma_sum_add(a + x, b, g);
    lemma_sum_add(a, x, g);
    lemma_sum_add(a, b, g);
    assert(x.drop_last() =~= Seq::<usize>::empty());
    assert(x.last() == t[k]);
    assert(sum_ms(x.drop_last(), g) =~= Multiset::empty());
    assert(sum_ms(x, g) =~= g(t[k]));
    assert(sum_ms(a, g).add(g(t[k])).add(sum_ms(b, g)) =~= sum_ms(a, g).add(sum_ms(b, g)).add(g(t[k])));
}

/// The sum does not depend on the order of the entries.
pub proof fn lemma_sum_perm(s: Seq<usize>, t: Seq<usize>, g: spec_fn(usize) -> Multiset<Item>)
    requires
        s.to_multiset() == t.to_multiset(),
    ensures
        sum_ms(s, g) == sum_ms(t, g),
    decreases s.len(),
{
    broadcast use vstd::multiset::group_multiset_axioms;

    s.to_multiset_ensures();
    t.to_multiset_ensures();
    if s.len() == 0 {
        assert(t.len() == 0);
    } else {
        let x = s.last();
        assert(s.contains(x));
        assert(s.to_multiset().count(x) > 0);
        assert(t.to_multiset().count(x) > 0);
        assert(t.contains(x));
        let k = choose|k: int| 0 <= k < t.len() && t[k] == x;
        let s1 = s.drop_last();
        let t1 = t.remove(k);
        assert(s1 =~= s.remove(s.len() - 1));
        vstd::seq_lib::to_multiset_remove(s, s.len() - 1);
        vstd::seq_lib::to_multiset_remove(t, k);
        lemma_sum_perm(s1, t1, g);
        lemma_sum_remove(t, k, g);
    }
}

/// What one insert stands for, as a multiset.
pub open spec fn item_at(inserts: Seq<Insert>) -> spec_fn(usize) -> Multiset<Item> {
    |j: usize| Multiset::singleton(ins_item(inserts, j as int))
}

/// What the inserts of the positions `[lo, hi)` stand for.
#[verifier::opaque]
pub open spec fn range_full(inserts: Seq<Insert>, sorted: Seq<usize>, lo: int, hi: int) -> Multiset<Item> {
    sum_ms(sorted.subrange(lo, hi), item_at(inserts))
}

/// What a range stands for does not depend on its order.
pub proof fn lemma_range_full_perm(inserts: Seq<Insert>, s1: Seq<usize>, s2: Seq<usize>, lo: int, hi: int)
    requires
        same_range(s1, s2, lo, hi),
    ensures
        range_full(inserts, s1, lo, hi) == range_full(inserts, s2, lo, hi),
{
    reveal(range_full);
    reveal(same_range);
    lemma_sum_perm(s1.subrange(lo, hi), s2.subrange(lo, hi), item_at(inserts));
}

/// What a range stands for is the same while the range is untouched.
pub proof fn lemma_range_full_frame(inserts: Seq<Insert>, s1: Seq<usize>, s2: Seq<usize>, lo: int, hi: int)
    requires
        0 <= lo <= hi <= s1.len(),
        s1.len() == s2.len(),
        forall|i: int| lo <= i < hi ==> s1[i] == s2[i],
    ensures
        range_full(inserts, s1, lo, hi) == range_full(inserts, s2, lo, hi),
{
    reveal(range_full);
    assert(s1.subrange(lo, hi) =~= s2.subrange(lo, hi));
}

/// A range cut in two.
pub proof fn lemma_range_full_split(inserts: Seq<Insert>, s: Seq<usize>, lo: int, mid: int, hi: int)
    requires
        0 <= lo <= mid <= hi <= s.len(),
    ensures
        range_full(inserts, s, lo, hi) == range_full(inserts, s, lo, mid).add(range_full(inserts, s, mid, hi)),
{
    reveal(range_full);
    assert(s.subrange(lo, hi) =~= s.subrange(lo, mid) + s.subrange(mid, hi));
    lemma_sum_add(s.subrange(lo, mid), s.subrange(mid, hi), item_at(inserts));
}

/// The empty range, and a range of one.
pub proof fn lemma_range_full_base(inserts: Seq<Insert>, s: Seq<usize>, lo: int)
    requires
        0 <= lo <= s.len(),
    ensures
        range_full(inserts, s, lo, lo) == Multiset::<Item>::empty(),
        lo < s.len() ==> range_full(inserts, s, lo, lo + 1) == Multiset::singleton(
            ins_item(inserts, s[lo] as int),
        ),
{
    broadcast use vstd::multiset::group_multiset_axioms;

    reveal(range_full);
    assert(s.subrange(lo, lo) =~= Seq::<usize>::empty());
    if lo < s.len() {
        let x = s.subrange(lo, lo + 1);
        assert(x.drop_last() =~= Seq::<usize>::empty());
        assert(sum_ms(x.drop_last(), item_at(inserts)) =~= Multiset::empty());
        assert(x.last() == s[lo]);
        assert(sum_ms(x, item_at(inserts)) =~= Multiset::singleton(ins_item(inserts, s[lo] as int)));
    }
}

/// Everything under a node: its records and its references together.
pub open spec fn full_ms(node: Node) -> Multiset<Item> {
    node_items(node, false).to_multiset().add(node_items(node, true).to_multiset())
}

/// Everything in the trees with the ids of `[a, b)`.
pub open spec fn forest_full(m: Map<TreeId, Tree>, a: int, b: int) -> Multiset<Item>
    decreases b - a,
{
    if b <= a {
        Multiset::empty()
    } else {
        forest_full(m, a, b - 1).add(full_ms(m[(b - 1) as u64].root))
    }
}

/// The trees agree on the ids of `[a, b)`.
pub open spec fn same_trees(m1: Map<TreeId, Tree>, m2: Map<TreeId, Tree>, a: int, b: int) -> bool {
    forall|id: TreeId| a <= id < b ==> #[trigger] m1[id] == m2[id]
}

/// What trees hold depends on those trees alone.
pub proof fn lemma_forest_frame(m1: Map<TreeId, Tree>, m2: Map<TreeId, Tree>, a: int, b: int)
    requires
        0 <= a,
        b <= u64::MAX + 1,
        same_trees(m1, m2, a, b),
    ensures
        forest_full(m1, a, b) == forest_full(m2, a, b),
    decreases b - a,
{
    if b > a {
        lemma_forest_frame(m1, m2, a, b - 1);
        assert(m1[(b - 1) as u64] == m2[(b - 1) as u64]);
    }
}

/// The trees of two adjoining ranges of ids.
pub proof fn lemma_forest_split(m: Map<TreeId, Tree>, a: int, mid: int, b: int)
    requires
        a <= mid <= b,
    ensures
        forest_full(m, a, b) == forest_full(m, a, mid).add(forest_full(m, mid, b)),
    decreases b - mid,
{
    broadcast use vstd::multiset::group_multiset_axioms;

    if b == mid {
        assert(forest_full(m, a, mid).add(Multiset::empty()) =~= forest_full(m, a, mid));
    } else {
        lemma_forest_split(m, a, mid, b - 1);
        let x = full_ms(m[(b - 1) as u64].root);
        assert(forest_full(m, a, mid).add(forest_full(m, mid, b - 1)).add(x) =~= forest_full(m, a, mid).add(
            forest_full(m, mid, b - 1).add(x),
        ));
    }
}

/// One reference for each id of `[a, b)`, with the bounds that `boxes` gives.
pub open spec fn news(boxes: Map<TreeId, Seq<Coord>>, a: int, b: int) -> Multiset<Item>
    decreases b - a,
{
    if b <= a {
        Multiset::empty()
    } else {
        news(boxes, a, b - 1).insert(Item::Ref { id: (b - 1) as u64, bounds: boxes[(b - 1) as u64] })
    }
}

/// The boxes agree on the ids of `[a, b)`.
pub open spec fn same_boxes(m1: Map<TreeId, Seq<Coord>>, m2: Map<TreeId, Seq<Coord>>, a: int, b: int) -> bool {
    forall|id: TreeId| a <= id < b ==> #[trigger] m1[id] == m2[id]
}

/// The references depend on the boxes of their ids alone.
pub proof fn lemma_news_frame(m1: Map<TreeId, Seq<Coord>>, m2: Map<TreeId, Seq<Coord>>, a: int, b: int)
    requires
        0 <= a,
        b <= u64::MAX + 1,
        same_boxes(m1, m2, a, b),
    ensures
        news(m1, a, b) == news(m2, a, b),
    decreases b - a,
{
    if b > a {
        lemma_news_frame(m1, m2, a, b - 1);
        assert(m1[(b - 1) as u64] == m2[(b - 1) as u64]);
    }
}

/// The references of two adjoining ranges of ids.
pub proof fn lemma_news_split(m: Map<TreeId, Seq<Coord>>, a: int, mid: int, b: int)
    requires
        a <= mid <= b,
    ensures
        news(m, a, b) == news(m, a, mid).add(news(m, mid, b)),
    decreases b - mid,
{
    broadcast use vstd::multiset::group_multiset_axioms;

    if b == mid {
        assert(news(m, a, mid).add(Multiset::empty()) =~= news(m, a, mid));
    } else {
        lemma_news_split(m, a, mid, b - 1);
        let x = Item::Ref { id: (b - 1) as u64, bounds: m[(b - 1) as u64] };
        assert(news(m, a, mid).add(news(m, mid, b - 1)).insert(x) =~= news(m, a, mid).add(
            news(m, mid, b - 1).insert(x),
        ));
    }
}

/// The content equation of a build: what is held, by `held` in the tree
/// under construction and by the trees of `[a, b)`, is what the range stands
/// for and one reference to each of those trees.
#[verifier::opaque]
pub open spec fn content_eq(
    held: Multiset<Item>,
    trees: Map<TreeId, Tree>,
    boxes: Map<TreeId, Seq<Coord>>,
    a: int,
    b: int,
    inserts: Seq<Insert>,
    sorted: Seq<usize>,
    lo: int,
    hi: int,
) -> bool {
    held.add(forest_full(trees, a, b)) == range_full(inserts, sorted, lo, hi).add(news(boxes, a, b))
}

/// Nothing built from nothing.
pub proof fn lemma_content_none(
    trees: Map<TreeId, Tree>,
    boxes: Map<TreeId, Seq<Coord>>,
    a: int,
    inserts: Seq<Insert>,
    sorted: Seq<usize>,
    lo: int,
)
    requires
        0 <= lo <= sorted.len(),
    ensures
        content_eq(Multiset::empty(), trees, boxes, a, a, inserts, sorted, lo, lo),
{
    reveal(content_eq);
    lemma_range_full_base(inserts, sorted, lo);
}

/// A leaf that holds what the range stands for.
pub proof fn lemma_content_leaf(
    held: Multiset<Item>,
    trees: Map<TreeId, Tree>,
    boxes: Map<TreeId, Seq<Coord>>,
    a: int,
    inserts: Seq<Insert>,
    sorted: Seq<usize>,
    lo: int,
    hi: int,
)
    requires
        held == range_full(inserts, sorted, lo, hi),
    ensures
        content_eq(held, trees, boxes, a, a, inserts, sorted, lo, hi),
{
    broadcast use vstd::multiset::group_multiset_axioms;

    reveal(content_eq);
    assert(held.add(Multiset::empty()) =~= held.add(Multiset::empty()));
}

/// The equation survives a permutation of the range.
pub proof fn lemma_content_perm(
    held: Multiset<Item>,
    trees: Map<TreeId, Tree>,
    boxes: Map<TreeId, Seq<Coord>>,
    a: int,
    b: int,
    inserts: Seq<Insert>,
    s1: Seq<usize>,
    s2: Seq<usize>,
    lo: int,
    hi: int,
)
    requires
        content_eq(held, trees, boxes, a, b, inserts, s2, lo, hi),
        same_range(s1, s2, lo, hi),
    ensures
        content_eq(held, trees, boxes, a, b, inserts, s1, lo, hi),
{
    reveal(content_eq);
    lemma_range_full_perm(inserts, s1, s2, lo, hi);
}

/// Two builds side by side: of adjoining ranges, with adjoining ids.
pub proof fn lemma_content_join(
    held1: Multiset<Item>,
    held2: Multiset<Item>,
    trees1: Map<TreeId, Tree>,
    trees2: Map<TreeId, Tree>,
    boxes1: Map<TreeId, Seq<Coord>>,
    boxes2: Map<TreeId, Seq<Coord>>,
    a: int,
    b: int,
    c: int,
    inserts: Seq<Insert>,
    s1: Seq<usize>,
    s2: Seq<usize>,
    lo: int,
    mid: int,
    hi: int,
)
    requires
        0 <= a <= b <= c <= u64::MAX + 1,
        0 <= lo <= mid <= hi <= s1.len(),
        s1.len() == s2.len(),
        content_eq(held1, trees1, boxes1, a, b, inserts, s1, lo, mid),
        content_eq(held2, trees2, boxes2, b, c, inserts, s2, mid, hi),
        same_trees(trees1, trees2, a, b),
        same_boxes(boxes1, boxes2, a, b),
        forall|i: int| lo <= i < mid ==> s1[i] == s2[i],
    ensures
        content_eq(held1.add(held2), trees2, boxes2, a, c, inserts, s2, lo, hi),
{
    broadcast use vstd::multiset::group_multiset_axioms;

    reveal(content_eq);
    lemma_forest_frame(trees1, trees2, a, b);
    lemma_news_frame(boxes1, boxes2, a, b);
    lemma_forest_split(trees2, a, b, c);
    lemma_news_split(boxes2, a, b, c);
    lemma_range_full_frame(inserts, s1, s2, lo, mid);
    lemma_range_full_split(inserts, s2, lo, mid, hi);
    let f1 = forest_full(trees2, a, b);
    let f2 = forest_full(trees2, b, c);
    let r1 = range_full(inserts, s2, lo, mid);
    let r2 = range_full(inserts, s2, mid, hi);
    let n1 = news(boxes2, a, b);
    let n2 = news(boxes2, b, c);
    assert(held1.add(f1) == r1.add(n1));
    assert(held2.add(f2) == r2.add(n2));
    assert(held1.add(held2).add(f1.add(f2)) =~= held1.add(f1).add(held2.add(f2)));
    assert(r1.add(r2).add(n1.add(n2)) =~= r1.add(n1).add(r2.add(n2)));
}

/// A build moved out whole: the node built becomes the root of a tree with
/// the id just below the ids it took, and what is held in its place is the
/// one reference to that tree.
pub proof fn lemma_content_out(
    root: Node,
    trees1: Map<TreeId, Tree>,
    trees2: Map<TreeId, Tree>,
    boxes1: Map<TreeId, Seq<Coord>>,
    boxes2: Map<TreeId, Seq<Coord>>,
    a: int,
    b: int,
    inserts: Seq<Insert>,
    sorted: Seq<usize>,
    lo: int,
    hi: int,
)
    requires
        0 <= a < b <= u64::MAX + 1,
        content_eq(full_ms(root), trees1, boxes1, a + 1, b, inserts, sorted, lo, hi),
        same_trees(trees1, trees2, a + 1, b),
        same_boxes(boxes1, boxes2, a + 1, b),
        trees2[a as u64].root == root,
    ensures
        content_eq(
            Multiset::singleton(Item::Ref { id: a as u64, bounds: boxes2[a as u64] }),
            trees2,
            boxes2,
            a,
            b,
            inserts,
            sorted,
            lo,
            hi,
        ),
{
    broadcast use vstd::multiset::group_multiset_axioms;

    reveal(content_eq);
    lemma_forest_frame(trees1, trees2, a + 1, b);
    lemma_news_frame(boxes1, boxes2, a + 1, b);
    lemma_forest_split(trees2, a, a + 1, b);
    lemma_news_split(boxes2, a, a + 1, b);
    let it = Item::Ref { id: a as u64, bounds: boxes2[a as u64] };
    assert(forest_full(trees2, a, a) =~= Multiset::empty());
    assert(forest_full(trees2, a, a + 1) =~= full_ms(root));
    assert(news(boxes2, a, a) =~= Multiset::empty());
    assert(news(boxes2, a, a + 1) =~= Multiset::singleton(it));
    let f = forest_full(trees2, a + 1, b);
    let r = range_full(inserts, sorted, lo, hi);
    let n = news(boxes2, a + 1, b);
    assert(full_ms(root).add(f) == r.add(n));
    assert(Multiset::singleton(it).add(full_ms(root).add(f)) =~= r.add(Multiset::singleton(it).add(n)));
}

/// What the first `n` intersection children hold.
pub open spec fn buckets_full(v: Seq<(u32, Node)>, n: nat) -> Multiset<Item> {
    bucket_items(v, n, false).to_multiset().add(bucket_items(v, n, true).to_multiset())
}

/// What the first `n` gap children hold.
pub open spec fn gaps_full(v: Seq<Node>, n: nat) -> Multiset<Item> {
    gap_items(v, n, false).to_multiset().add(gap_items(v, n, true).to_multiset())
}

/// What the intersection children hold with one more.
pub proof fn lemma_buckets_full_push(v: Seq<(u32, Node)>, x: (u32, Node))
    ensures
        buckets_full(v.push(x), v.len() + 1) == buckets_full(v, v.len()).add(full_ms(x.1)),
{
    broadcast use vstd::multiset::group_multiset_axioms;

    let w = v.push(x);
    lemma_bucket_items_prefix(v, w, v.len(), false);
    lemma_bucket_items_prefix(v, w, v.len(), true);
    lemma_multiset_commutative(bucket_items(v, v.len(), false), node_items(x.1, false));
    lemma_multiset_commutative(bucket_items(v, v.len(), true), node_items(x.1, true));
    let a0 = bucket_items(v, v.len(), false).to_multiset();
    let a1 = bucket_items(v, v.len(), true).to_multiset();
    let b0 = node_items(x.1, false).to_multiset();
    let b1 = node_items(x.1, true).to_multiset();
    assert(a0.add(b0).add(a1.add(b1)) =~= a0.add(a1).add(b0.add(b1)));
}

/// What the first children hold does not change when a child is added.
pub proof fn lemma_bucket_items_prefix(v: Seq<(u32, Node)>, w: Seq<(u32, Node)>, n: nat, refs: bool)
    requires
        n <= v.len() <= w.len(),
        forall|i: int| 0 <= i < v.len() ==> v[i] == w[i],
    ensures
        bucket_items(w, n, refs) == bucket_items(v, n, refs),
    decreases n,
{
    if n > 0 {
        lemma_bucket_items_prefix(v, w, (n - 1) as nat, refs);
    }
}

/// What the first children hold does not change when a child is added.
pub proof fn lemma_gap_items_prefix(v: Seq<Node>, w: Seq<Node>, n: nat, refs: bool)
    requires
        n <= v.len() <= w.len(),
        forall|i: int| 0 <= i < v.len() ==> v[i] == w[i],
    ensures
        gap_items(w, n, refs) == gap_items(v, n, refs),
    decreases n,
{
    if n > 0 {
        lemma_gap_items_prefix(v, w, (n - 1) as nat, refs);
    }
}

/// What the gap children hold with one more.
pub proof fn lemma_gaps_full_push(v: Seq<Node>, x: Node)
    ensures
        gaps_full(v.push(x), v.len() + 1) == gaps_full(v, v.len()).add(full_ms(x)),
{
    broadcast use vstd::multiset::group_multiset_axioms;

    let w = v.push(x);
    lemma_gap_items_prefix(v, w, v.len(), false);
    lemma_gap_items_prefix(v, w, v.len(), true);
    lemma_multiset_commutative(gap_items(v, v.len(), false), node_items(x, false));
    lemma_multiset_commutative(gap_items(v, v.len(), true), node_items(x, true));
    let a0 = gap_items(v, v.len(), false).to_multiset();
    let a1 = gap_items(v, v.len(), true).to_multiset();
    let b0 = node_items(x, false).to_multiset();
    let b1 = node_items(x, true).to_multiset();
    assert(a0.add(b0).add(a1.add(b1)) =~= a0.add(a1).add(b0.add(b1)));
}

/// What a branch holds is what its children hold.
pub proof fn lemma_branch_full(node: Node)
    requires
        node is Branch,
    ensures
        node matches Node::Branch(b) && full_ms(node) == buckets_full(b.intersections@, b.intersections@.len()).add(
            gaps_full(b.nodes@, b.nodes@.len()),
        ),
{
    broadcast use vstd::multiset::group_multiset_axioms;

    match node {
        Node::Branch(b) => {
            let x0 = bucket_items(b.intersections@, b.intersections@.len(), false);
            let x1 = bucket_items(b.intersections@, b.intersections@.len(), true);
            let y0 = gap_items(b.nodes@, b.nodes@.len(), false);
            let y1 = gap_items(b.nodes@, b.nodes@.len(), true);
            lemma_multiset_commutative(x0, y0);
            lemma_multiset_commutative(x1, y1);
            assert(x0.to_multiset().add(y0.to_multiset()).add(x1.to_multiset().add(y1.to_multiset()))
                =~= x0.to_multiset().add(x1.to_multiset()).add(y0.to_multiset().add(y1.to_multiset())));
        },
        Node::Data(..) => {},
    }
}

/// What all the inserts stand for.
pub open spec fn inserts_ms(inserts: Seq<Insert>) -> Multiset<Item> {
    Seq::new(inserts.len(), |j: int| ins_item(inserts, j)).to_multiset()
}

/// What the first `k` positions of the order `0, 1, 2, ..` stand for.
proof fn lemma_range_full_ident(inserts: Seq<Insert>, ident: Seq<usize>, k: int)
    requires
        0 <= k <= ident.len(),
        ident.len() == inserts.len(),
        forall|i: int| 0 <= i < ident.len() ==> ident[i] == i,
    ensures
        range_full(inserts, ident, 0, k) == Seq::new(k as nat, |j: int| ins_item(inserts, j)).to_multiset(),
    decreases k,
{
    broadcast use vstd::multiset::group_multiset_axioms;

    lemma_range_full_base(inserts, ident, 0);
    if k == 0 {
        let e = Seq::new(0nat, |j: int| ins_item(inserts, j));
        e.to_multiset_ensures();
        assert(e.to_multiset() =~= Multiset::empty());
    } else {
        lemma_range_full_ident(inserts, ident, k - 1);
        lemma_range_full_split(inserts, ident, 0, k - 1, k);
        lemma_range_full_base(inserts, ident, k - 1);
        let a = Seq::new((k - 1) as nat, |j: int| ins_item(inserts, j));
        let b = Seq::new(k as nat, |j: int| ins_item(inserts, j));
        assert(b =~= a.push(ins_item(inserts, k - 1)));
        a.to_multiset_ensures();
        assert(b.to_multiset() =~= a.to_multiset().add(Multiset::singleton(ins_item(inserts, k - 1))));
    }
}

/// The whole build: once the tree of the root has the id behind the ids
/// that the build took, the trees hold what the inserts stand for and one
/// reference to each tree but the root's.
pub proof fn lemma_content_root(
    root: Node,
    trees1: Map<TreeId, Tree>,
    trees2: Map<TreeId, Tree>,
    boxes1: Map<TreeId, Seq<Coord>>,
    boxes2: Map<TreeId, Seq<Coord>>,
    a: int,
    b: int,
    inserts: Seq<Insert>,
    ident: Seq<usize>,
    sorted: Seq<usize>,
)
    requires
        0 <= a <= b <= u64::MAX,
        content_eq(full_ms(root), trees1, boxes1, a, b, inserts, sorted, 0, inserts.len() as int),
        same_range(ident, sorted, 0, inserts.len() as int),
        ident.len() == inserts.len(),
        forall|i: int| 0 <= i < ident.len() ==> ident[i] == i,
        same_trees(trees1, trees2, a, b),
        same_boxes(boxes1, boxes2, a, b),
        trees2[b as u64].root == root,
    ensures
        forest_full(trees2, a, b + 1) == inserts_ms(inserts).add(news(boxes2, a, b)),
{
    broadcast use vstd::multiset::group_multiset_axioms;

    reveal(content_eq);
    lemma_forest_frame(trees1, trees2, a, b);
    lemma_news_frame(boxes1, boxes2, a, b);
    lemma_range_full_perm(inserts, ident, sorted, 0, inserts.len() as int);
    lemma_range_full_ident(inserts, ident, inserts.len() as int);
    let f = forest_full(trees2, a, b);
    assert(forest_full(trees2, a, b + 1) == f.add(full_ms(root)));
    assert(full_ms(root).add(f) =~= f.add(full_ms(root)));
}

/// Whether the item is among those of a concatenation.
pub proof fn lemma_contains_add(a: Seq<Item>, b: Seq<Item>, x: Item)
    ensures
        (a + b).contains(x) <==> a.contains(x) || b.contains(x),
{
    if a.contains(x) {
        let k = choose|k: int| 0 <= k < a.len() && a[k] == x;
        assert((a + b)[k] == x);
    }
    if b.contains(x) {
        let k = choose|k: int| 0 <= k < b.len() && b[k] == x;
        assert((a + b)[a.len() + k] == x);
    }
    if (a + b).contains(x) {
        let k = choose|k: int| 0 <= k < (a + b).len() && (a + b)[k] == x;
        if k < a.len() {
            assert(a[k] == x);
        } else {
            assert(b[k - a.len()] == x);
        }
    }
}

} // verus!
