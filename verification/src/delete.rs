//! What a deletion pass changes: a tree keeps its references and loses the
//! records whose ids were asked for.

use crate::coord::Coord;
use crate::remove::{has_id, index_of, item_id, pending_view, sweep_rows, Pending};
use crate::tree::{bucket_items, clone_point, gap_items, node_items, Item, Node, Point, Tree};
use vstd::multiset::Multiset;
use vstd::prelude::*;
use vstd::seq_lib::lemma_multiset_commutative;

verus! {

/// The ids that are asked to be deleted.
pub open spec fn delete_ids(deletes: Seq<(Point, u64)>) -> Set<u64> {
    Set::new(|id: u64| exists|k: int| 0 <= k < deletes.len() && (#[trigger] deletes[k]).1 == id)
}

/// The deletions with one for the id at the point: in place of one for the
/// same id, if there is one.
pub open spec fn upsert(p: Seq<(u64, Seq<Coord>)>, id: u64, point: Seq<Coord>) -> Seq<(u64, Seq<Coord>)> {
    if has_id(p, id) {
        p.update(index_of(p, id), (id, point))
    } else {
        p.push((id, point))
    }
}

/// The deletions to be made for the first `n` that are asked for: one for
/// each id, at the point that was given last.
pub open spec fn pending_of(deletes: Seq<(Point, u64)>, n: nat) -> Seq<(u64, Seq<Coord>)>
    decreases n,
{
    if n == 0 || n > deletes.len() {
        Seq::empty()
    } else {
        upsert(pending_of(deletes, (n - 1) as nat), deletes[n - 1].1, deletes[n - 1].0@)
    }
}

/// A deletion of the id is to be made exactly when one stands in the list.
pub proof fn lemma_has_id(p: Seq<(u64, Seq<Coord>)>, id: u64)
    ensures
        has_id(p, id) <==> exists|k: int| 0 <= k < p.len() && (#[trigger] p[k]).0 == id,
        0 <= index_of(p, id) <= p.len(),
        has_id(p, id) ==> p[index_of(p, id)].0 == id,
    decreases p.len(),
{
    if p.len() > 0 {
        let q = p.skip(1);
        lemma_has_id(q, id);
        if p[0].0 != id {
            if has_id(q, id) {
                let k = choose|k: int| 0 <= k < q.len() && (#[trigger] q[k]).0 == id;
                assert(p[k + 1].0 == id);
                assert(q[index_of(q, id)] == p[index_of(q, id) + 1]);
            }
            if exists|k: int| 0 <= k < p.len() && (#[trigger] p[k]).0 == id {
                let k = choose|k: int| 0 <= k < p.len() && (#[trigger] p[k]).0 == id;
                assert(q[k - 1].0 == id);
            }
        } else {
            assert(p[0].0 == id);
        }
    }
}

/// No two deletions are of one id.
pub open spec fn unique_ids(p: Seq<(u64, Seq<Coord>)>) -> bool {
    forall|i: int, j: int| 0 <= i < j < p.len() ==> (#[trigger] p[i]).0 != (#[trigger] p[j]).0
}

/// The deletions to be made for those asked for are one for each id.
pub proof fn lemma_pending_unique(deletes: Seq<(Point, u64)>, n: nat)
    requires
        n <= deletes.len(),
    ensures
        unique_ids(pending_of(deletes, n)),
        forall|k: int| 0 <= k < n ==> has_id(pending_of(deletes, n), (#[trigger] deletes[k]).1),
    decreases n,
{
    if n > 0 {
        let p = pending_of(deletes, (n - 1) as nat);
        let d = deletes[n - 1];
        let q = upsert(p, d.1, d.0@);
        lemma_pending_unique(deletes, (n - 1) as nat);
        lemma_has_id(p, d.1);
        if has_id(p, d.1) {
            let m = index_of(p, d.1);
            assert forall|i: int, j: int| 0 <= i < j < q.len() implies (#[trigger] q[i]).0 != (#[trigger] q[j]).0 by {
                assert(q[i].0 == p[i].0);
                assert(q[j].0 == p[j].0);
            }
        } else {
            assert forall|i: int, j: int| 0 <= i < j < q.len() implies (#[trigger] q[i]).0 != (#[trigger] q[j]).0 by {
                if j < p.len() {
                    assert(q[i] == p[i]);
                    assert(q[j] == p[j]);
                } else {
                    assert(q[i] == p[i]);
                    assert(p[i].0 != d.1);
                }
            }
        }
        assert forall|k: int| 0 <= k < n implies has_id(q, (#[trigger] deletes[k]).1) by {
            let x = deletes[k].1;
            lemma_has_id(q, x);
            if k < n - 1 {
                lemma_has_id(p, x);
                let i = choose|i: int| 0 <= i < p.len() && (#[trigger] p[i]).0 == x;
                assert(q[i].0 == x);
            } else {
                if has_id(p, d.1) {
                    assert(q[index_of(p, d.1)].0 == x);
                } else {
                    assert(q[p.len() as int].0 == x);
                }
            }
        }
    }
}

/// The deletions to be made are among those asked for.
pub proof fn lemma_pending_ids(deletes: Seq<(Point, u64)>, n: nat, id: u64)
    requires
        n <= deletes.len(),
        has_id(pending_of(deletes, n), id),
    ensures
        delete_ids(deletes).contains(id),
    decreases n,
{
    if n > 0 {
        let p = pending_of(deletes, (n - 1) as nat);
        let d = deletes[n - 1];
        let q = upsert(p, d.1, d.0@);
        lemma_has_id(q, id);
        lemma_has_id(p, id);
        lemma_has_id(p, d.1);
        let k = choose|k: int| 0 <= k < q.len() && (#[trigger] q[k]).0 == id;
        if id == d.1 {
            assert(deletes[n - 1].1 == id);
        } else {
            if has_id(p, d.1) {
                assert(p[k].0 == id);
            } else {
                assert(p[k].0 == id);
            }
            lemma_pending_ids(deletes, (n - 1) as nat, id);
        }
    } else {
        lemma_has_id(pending_of(deletes, n), id);
    }
}

/// How often a record is among those that stay: not at all if its id is to
/// be deleted, and else as often as it was there. Where as many stay as
/// were there, they are the same.
pub proof fn lemma_sweep_count(rows: Seq<Item>, p: Seq<(u64, Seq<Coord>)>, x: Item)
    ensures
        sweep_rows(rows, p).to_multiset().count(x) == (if has_id(p, item_id(x)) {
            0
        } else {
            rows.to_multiset().count(x)
        }),
        sweep_rows(rows, p).len() <= rows.len(),
        sweep_rows(rows, p).len() == rows.len() ==> sweep_rows(rows, p) == rows,
    decreases rows.len(),
{
    broadcast use vstd::multiset::group_multiset_axioms;

    if rows.len() == 0 {
        assert(sweep_rows(rows, p) =~= rows);
        rows.to_multiset_ensures();
        assert(rows.to_multiset() =~= Multiset::empty());
    } else {
        let r = rows[0];
        let rest = rows.skip(1);
        assert(rows =~= seq![r] + rest);
        lemma_multiset_commutative(seq![r], rest);
        assert(seq![r].to_multiset() =~= Multiset::singleton(r)) by {
            seq![r].to_multiset_ensures();
            assert(seq![r] =~= Seq::<Item>::empty().push(r));
            Seq::<Item>::empty().to_multiset_ensures();
        }
        lemma_sweep_count(rest, p, x);
        if !has_id(p, item_id(r)) {
            lemma_multiset_commutative(seq![r], sweep_rows(rest, p));
            if sweep_rows(rows, p).len() == rows.len() {
                assert(sweep_rows(rows, p) =~= rows);
            }
        }
    }
}

/// What staying behind means for the records of a list: those that stay are
/// among those that were there, and one that is there less often has an id
/// that was to be deleted.
pub proof fn lemma_sweep(rows: Seq<Item>, p: Seq<(u64, Seq<Coord>)>)
    ensures
        sweep_rows(rows, p).to_multiset().subset_of(rows.to_multiset()),
        forall|x: Item|
            sweep_rows(rows, p).to_multiset().count(x) < rows.to_multiset().count(x) ==> has_id(p, item_id(x)),
{
    broadcast use vstd::multiset::group_multiset_axioms;

    assert forall|x: Item| sweep_rows(rows, p).to_multiset().count(x) <= rows.to_multiset().count(x) by {
        lemma_sweep_count(rows, p, x);
    }
    assert forall|x: Item|
        sweep_rows(rows, p).to_multiset().count(x) < rows.to_multiset().count(x) implies has_id(p, item_id(x)) by {
        lemma_sweep_count(rows, p, x);
    }
}

/// The records under a node are records and the references references.
pub proof fn lemma_items_kind(node: Node, refs: bool, j: int)
    requires
        0 <= j < node_items(node, refs).len(),
    ensures
        node_items(node, refs)[j] is Ref == refs,
    decreases node, 0nat,
{
    match node {
        Node::Data(..) => {},
        Node::Branch(b) => {
            let x = bucket_items(b.intersections@, b.intersections@.len(), refs);
            if j < x.len() {
                lemma_buckets_kind(b.intersections@, b.intersections@.len(), refs, j);
            } else {
                lemma_gaps_kind(b.nodes@, b.nodes@.len(), refs, j - x.len());
            }
        },
    }
}

proof fn lemma_buckets_kind(v: Seq<(u32, Node)>, n: nat, refs: bool, j: int)
    requires
        0 <= j < bucket_items(v, n, refs).len(),
    ensures
        bucket_items(v, n, refs)[j] is Ref == refs,
    decreases v, n,
{
    if n == 0 || n > v.len() {
    } else {
        let x = bucket_items(v, (n - 1) as nat, refs);
        if j < x.len() {
            lemma_buckets_kind(v, (n - 1) as nat, refs, j);
        } else {
            lemma_items_kind(v[n - 1].1, refs, j - x.len());
        }
    }
}

proof fn lemma_gaps_kind(v: Seq<Node>, n: nat, refs: bool, j: int)
    requires
        0 <= j < gap_items(v, n, refs).len(),
    ensures
        gap_items(v, n, refs)[j] is Ref == refs,
    decreases v, n,
{
    if n == 0 || n > v.len() {
    } else {
        let x = gap_items(v, (n - 1) as nat, refs);
        if j < x.len() {
            lemma_gaps_kind(v, (n - 1) as nat, refs, j);
        } else {
            lemma_items_kind(v[n - 1], refs, j - x.len());
        }
    }
}

/// All the items are records, or with `refs` all are references.
pub open spec fn of_kind(s: Seq<Item>, refs: bool) -> bool {
    forall|j: int| 0 <= j < s.len() ==> (#[trigger] s[j]) is Ref == refs
}

/// Records and references that add up to the same are the same records and
/// the same references.
pub proof fn lemma_split_kinds(a0: Seq<Item>, a1: Seq<Item>, b0: Seq<Item>, b1: Seq<Item>)
    requires
        of_kind(a0, false),
        of_kind(b0, false),
        of_kind(a1, true),
        of_kind(b1, true),
        a0.to_multiset().add(a1.to_multiset()) == b0.to_multiset().add(b1.to_multiset()),
    ensures
        a0.to_multiset() == b0.to_multiset(),
        a1.to_multiset() == b1.to_multiset(),
{
    broadcast use vstd::multiset::group_multiset_axioms;

    a0.to_multiset_ensures();
    a1.to_multiset_ensures();
    b0.to_multiset_ensures();
    b1.to_multiset_ensures();
    let l = a0.to_multiset().add(a1.to_multiset());
    let r = b0.to_multiset().add(b1.to_multiset());
    assert forall|x: Item| a0.to_multiset().count(x) == b0.to_multiset().count(x) && a1.to_multiset().count(x)
        == b1.to_multiset().count(x) by {
        assert(l.count(x) == r.count(x));
        if x is Ref {
            if a0.contains(x) {
                let k = choose|k: int| 0 <= k < a0.len() && a0[k] == x;
            }
            if b0.contains(x) {
                let k = choose|k: int| 0 <= k < b0.len() && b0[k] == x;
            }
            assert(a0.to_multiset().count(x) == 0);
            assert(b0.to_multiset().count(x) == 0);
        } else {
            if a1.contains(x) {
                let k = choose|k: int| 0 <= k < a1.len() && a1[k] == x;
            }
            if b1.contains(x) {
                let k = choose|k: int| 0 <= k < b1.len() && b1[k] == x;
            }
            assert(a1.to_multiset().count(x) == 0);
            assert(b1.to_multiset().count(x) == 0);
        }
    }
    assert(a0.to_multiset() =~= b0.to_multiset());
    assert(a1.to_multiset() =~= b1.to_multiset());
}

/// A tree after deletions: it has the references that it had, its records
/// are among those that it had, and a record that it has less often has an
/// id among `ids`.
pub open spec fn shrunk(t0: Tree, t1: Tree, ids: Set<u64>) -> bool {
    let r0 = node_items(t0.root, false).to_multiset();
    let r1 = node_items(t1.root, false).to_multiset();
    &&& node_items(t1.root, true).to_multiset() == node_items(t0.root, true).to_multiset()
    &&& r1.subset_of(r0)
    &&& forall|x: Item| r1.count(x) < r0.count(x) ==> ids.contains(item_id(x))
}

/// The deletions to be made for those asked for.
pub fn start_pending(deletes: &Vec<(Point, u64)>) -> (r: Pending)
    ensures
        pending_view(r@) == pending_of(deletes@, deletes@.len() as nat),
{
    let mut p: Pending = Vec::new();
    let mut i: usize = 0;
    assert(pending_view(p@) =~= Seq::empty());
    while i < deletes.len()
        invariant
            i <= deletes@.len(),
            pending_view(p@) == pending_of(deletes@, i as nat),
        decreases deletes@.len() - i,
    {
        let id = deletes[i].1;
        let point = clone_point(&deletes[i].0);
        let ghost before = pending_view(p@);
        match crate::remove::find_pending(&p, id) {
            Some(k) => {
                p.set(k, (id, point));
                assert(pending_view(p@) =~= before.update(k as int, (id, point@)));
            },
            None => {
                p.push((id, point));
                assert(pending_view(p@) =~= before.push((id, point@)));
            },
        }
        i += 1;
    }
    p
}

} // verus!
