//! Deleting from one tree: the records whose ids are asked for leave, and
//! the references under which more of them may be found are named.

use crate::coord::{coords_meet, intersect_coord_coord, intersect_iv, iv_meets, Coord};
use crate::tree::{
    node_items, ref_item, ref_items, row_item, row_items, Item, Point, Row, Tree, TreeId, TreeRef,
};
use std::collections::HashSet;
use vstd::prelude::*;

verus! {

/// The deletions to be made: for each, the id of the records and the point
/// at which it is looked for.
pub type Pending = Vec<(u64, Point)>;

/// The deletions to be made, as plain values.
pub open spec fn pending_view(p: Seq<(u64, Point)>) -> Seq<(u64, Seq<Coord>)> {
    p.map_values(|e: (u64, Point)| (e.0, e.1@))
}

/// The id of an item.
pub open spec fn item_id(it: Item) -> u64 {
    match it {
        Item::Row { id, .. } => id,
        Item::Ref { id, .. } => id,
    }
}

/// Where the first deletion of the id stands, or the length if there is none.
pub open spec fn index_of(p: Seq<(u64, Seq<Coord>)>, id: u64) -> int
    decreases p.len(),
{
    if p.len() == 0 {
        0
    } else if p[0].0 == id {
        0
    } else {
        1 + index_of(p.skip(1), id)
    }
}

/// Whether a deletion of the id is to be made.
pub open spec fn has_id(p: Seq<(u64, Seq<Coord>)>, id: u64) -> bool {
    index_of(p, id) < p.len()
}

/// The records that stay when the deletions are made: those whose id is
/// not to be deleted, in their order.
pub open spec fn sweep_rows(rows: Seq<Item>, p: Seq<(u64, Seq<Coord>)>) -> Seq<Item>
    decreases rows.len(),
{
    if rows.len() == 0 {
        Seq::empty()
    } else if has_id(p, item_id(rows[0])) {
        sweep_rows(rows.skip(1), p)
    } else {
        seq![rows[0]] + sweep_rows(rows.skip(1), p)
    }
}

/// None of the records has the id.
pub open spec fn no_id(rows: Seq<Item>, id: u64) -> bool {
    forall|j: int| 0 <= j < rows.len() ==> item_id(#[trigger] rows[j]) != id
}

/// The ids to be deleted that a record of the list has.
pub open spec fn found_ids(rows: Seq<Item>, p: Seq<(u64, Seq<Coord>)>) -> Set<u64> {
    Set::new(|x: u64| has_id(p, x) && !no_id(rows, x))
}

/// Two points of one arity meet on every axis.
pub open spec fn points_meet(a: Seq<Coord>, b: Seq<Coord>) -> bool {
    &&& a.len() == b.len()
    &&& forall|i: int| 0 <= i < a.len() ==> coords_meet(#[trigger] a[i], b[i])
}

/// The point meets the point of a deletion.
pub open spec fn meets_any(a: Seq<Coord>, p: Seq<(u64, Seq<Coord>)>) -> bool {
    exists|k: int| 0 <= k < p.len() && points_meet(a, (#[trigger] p[k]).1)
}

/// The test of meeting a deletion.
pub open spec fn follow_pred(p: Seq<(u64, Seq<Coord>)>) -> spec_fn(Item) -> bool {
    |it: Item| meets_any(it.point(), p)
}

/// The ids of the references under which records to be deleted may be
/// found.
pub open spec fn follow_ids(refs: Seq<Item>, p: Seq<(u64, Seq<Coord>)>) -> Seq<TreeId> {
    refs.filter(follow_pred(p)).map_values(|it: Item| item_id(it))
}

/// Where the first deletion of the id stands.
pub fn find_pending(ids: &Pending, id: u64) -> (r: Option<usize>)
    ensures
        match r {
            Some(k) => k == index_of(pending_view(ids@), id) && k < ids@.len(),
            None => !has_id(pending_view(ids@), id),
        },
{
    let ghost p = pending_view(ids@);
    let mut k: usize = 0;
    assert(p.skip(0) =~= p);
    while k < ids.len()
        invariant
            k <= ids@.len(),
            p == pending_view(ids@),
            index_of(p, id) == k + index_of(p.skip(k as int), id),
        decreases ids@.len() - k,
    {
        let ghost rest = p.skip(k as int);
        assert(rest[0] == p[k as int]);
        assert(rest.skip(1) =~= p.skip(k + 1));
        if ids[k].0 == id {
            return Some(k);
        }
        k += 1;
    }
    assert(p.skip(k as int).len() == 0);
    None
}

/// Whether two points of one arity meet on every axis.
pub fn point_meets_point(a: &Point, b: &Point) -> (r: bool)
    ensures
        r == points_meet(a@, b@),
{
    if a.len() != b.len() {
        return false;
    }
    let mut i: usize = 0;
    while i < a.len()
        invariant
            i <= a@.len(),
            a@.len() == b@.len(),
            forall|j: int| 0 <= j < i ==> coords_meet(#[trigger] a@[j], b@[j]),
        decreases a@.len() - i,
    {
        if !intersect_coord_coord(&a[i], &b[i]) {
            return false;
        }
        i += 1;
    }
    true
}

/// Two boxes of one arity overlap on every axis.
pub open spec fn boxes_meet(a: (Seq<i64>, Seq<i64>), b: (Seq<i64>, Seq<i64>)) -> bool {
    &&& a.0.len() == a.1.len()
    &&& a.0.len() == b.0.len()
    &&& a.0.len() == b.1.len()
    &&& forall|i: int|
        0 <= i < a.0.len() ==> iv_meets(#[trigger] a.0[i] as int, a.1[i] as int, b.0[i] as int, b.1[i] as int)
}

/// Whether two boxes of one arity overlap on every axis.
pub fn overlap(a: &(Vec<i64>, Vec<i64>), b: &(Vec<i64>, Vec<i64>)) -> (r: bool)
    ensures
        r == boxes_meet((a.0@, a.1@), (b.0@, b.1@)),
{
    let n = a.0.len();
    if a.1.len() != n || b.0.len() != n || b.1.len() != n {
        return false;
    }
    let mut i: usize = 0;
    while i < n
        invariant
            i <= n,
            n == a.0@.len(),
            n == a.1@.len(),
            n == b.0@.len(),
            n == b.1@.len(),
            forall|j: int|
                0 <= j < i ==> iv_meets(#[trigger] a.0@[j] as int, a.1@[j] as int, b.0@[j] as int, b.1@[j] as int),
        decreases n - i,
    {
        if !intersect_iv(&a.0[i], &a.1[i], &b.0[i], &b.1[i]) {
            return false;
        }
        i += 1;
    }
    true
}

/// Whether the point meets the point of a deletion.
pub fn meets_pending(a: &Point, ids: &Pending) -> (r: bool)
    ensures
        r == meets_any(a@, pending_view(ids@)),
{
    let ghost p = pending_view(ids@);
    let mut k: usize = 0;
    while k < ids.len()
        invariant
            k <= ids@.len(),
            p == pending_view(ids@),
            forall|j: int| 0 <= j < k ==> !points_meet(a@, (#[trigger] p[j]).1),
        decreases ids@.len() - k,
    {
        if point_meets_point(a, &ids[k].1) {
            assert(points_meet(a@, p[k as int].1));
            return true;
        }
        k += 1;
    }
    false
}

impl Tree {
    /// Makes the deletions from this tree: every record whose id is to be
    /// deleted leaves, and its id is put among those found. Returns what
    /// the tree holds afterwards, if a record left, and the ids of the
    /// references whose bounds meet the point of a deletion.
    pub fn remove(&self, ids: &Pending, found: &mut HashSet<u64>) -> (r: (
        Option<(Vec<Row>, Vec<TreeRef>)>,
        Vec<TreeId>,
    ))
        ensures
            final(found)@ == old(found)@.union(found_ids(node_items(self.root, false), pending_view(ids@))),
            r.1@ == follow_ids(node_items(self.root, true), pending_view(ids@)),
            r.0 is None <==> sweep_rows(node_items(self.root, false), pending_view(ids@)).len() == node_items(
                self.root,
                false,
            ).len(),
            r.0 matches Some((list, refs)) ==> row_items(list@) == sweep_rows(
                node_items(self.root, false),
                pending_view(ids@),
            ) && ref_items(refs@) == node_items(self.root, true),
    {
        broadcast use vstd::std_specs::hash::group_hash_axioms;

        let (list, refs) = self.list();
        let ghost rows0 = node_items(self.root, false);
        let ghost refs0 = node_items(self.root, true);
        let ghost p = pending_view(ids@);
        let ghost f0 = found@;
        let n = list.len();
        let mut kept: Vec<Row> = Vec::new();
        let mut i: usize = 0;
        assert(rows0.skip(0) =~= rows0);
        assert(row_items(kept@) =~= Seq::<Item>::empty());
        assert(Seq::<Item>::empty() + sweep_rows(rows0, p) =~= sweep_rows(rows0, p));
        assert(found@ =~= f0.union(found_ids(rows0.take(0), p)));
        let mut list = list;
        // the records are taken from the back of a reversed list, so that
        // each is moved, not copied
        let mut back: Vec<Row> = Vec::new();
        while list.len() > 0
            invariant
                row_items(list@) + row_items(back@).reverse() == rows0,
            decreases list@.len(),
        {
            let ghost l0 = list@;
            let ghost b0 = back@;
            let x = list.pop().unwrap();
            back.push(x);
            assert(row_items(list@) + row_items(back@).reverse() =~= row_items(l0) + row_items(b0).reverse()) by {
                assert(row_items(l0) =~= row_items(list@).push(row_item(x)));
                assert(row_items(back@) =~= row_items(b0).push(row_item(x)));
                assert(row_items(back@).reverse() =~= seq![row_item(x)] + row_items(b0).reverse());
            }
        }
        assert(row_items(list@) =~= Seq::<Item>::empty());
        assert(row_items(back@).reverse() =~= rows0);
        while back.len() > 0
            invariant
                i + back@.len() == n,
                n == rows0.len(),
                p == pending_view(ids@),
                row_items(back@).reverse() == rows0.skip(i as int),
                row_items(kept@) + sweep_rows(rows0.skip(i as int), p) == sweep_rows(rows0, p),
                found@ == f0.union(found_ids(rows0.take(i as int), p)),
            decreases back@.len(),
        {
            let ghost b0 = back@;
            let ghost rest = rows0.skip(i as int);
            let ghost fi = found@;
            let x = back.pop().unwrap();
            proof {
                assert(row_items(b0) =~= row_items(back@).push(row_item(x)));
                assert(row_items(b0).reverse()[0] == row_item(x));
                assert(rest[0] == row_item(x));
                assert(rest.skip(1) =~= rows0.skip(i + 1));
                assert(row_items(back@).reverse() =~= rest.skip(1));
                lemma_found_step(rows0, p, i as int);
            }
            match find_pending(ids, x.1.id) {
                Some(_) => {
                    found.insert(x.1.id);
                    assert(found@ =~= f0.union(found_ids(rows0.take(i + 1), p)));
                },
                None => {
                    let ghost k0 = row_items(kept@);
                    kept.push(x);
                    assert(row_items(kept@) =~= k0.push(row_item(x)));
                    assert(row_items(kept@) + sweep_rows(rest.skip(1), p) =~= k0 + sweep_rows(rest, p));
                    assert(found@ =~= f0.union(found_ids(rows0.take(i + 1), p)));
                },
            }
            i += 1;
        }
        assert(rows0.skip(n as int) =~= Seq::<Item>::empty());
        assert(rows0.take(n as int) =~= rows0);
        assert(row_items(kept@) + Seq::<Item>::empty() =~= row_items(kept@));
        let mut follow: Vec<TreeId> = Vec::new();
        let mut k: usize = 0;
        let ghost pred = follow_pred(p);
        assert(ref_items(refs@).subrange(0, 0) =~= Seq::<Item>::empty());
        while k < refs.len()
            invariant
                k <= refs@.len(),
                p == pending_view(ids@),
                pred == follow_pred(p),
                follow@ == follow_ids(ref_items(refs@).subrange(0, k as int), p),
            decreases refs@.len() - k,
        {
            let ghost part = ref_items(refs@).subrange(0, k as int);
            let ghost it = ref_item(refs@[k as int]);
            assert(ref_items(refs@).subrange(0, k + 1) =~= part.push(it));
            proof {
                part.lemma_filter_push(it, pred);
            }
            if meets_pending(&refs[k].bounds, ids) {
                follow.push(refs[k].id);
                assert(follow@ =~= follow_ids(part.push(it), p));
            }
            k += 1;
        }
        assert(ref_items(refs@).subrange(0, refs@.len() as int) =~= ref_items(refs@));
        if kept.len() == n {
            (None, follow)
        } else {
            (Some((kept, refs)), follow)
        }
    }
}

/// The ids found among one record more are those found before and, if it
/// is to be deleted, the id of that record.
pub proof fn lemma_found_step(rows: Seq<Item>, p: Seq<(u64, Seq<Coord>)>, i: int)
    requires
        0 <= i < rows.len(),
    ensures
        has_id(p, item_id(rows[i])) ==> found_ids(rows.take(i + 1), p) == found_ids(rows.take(i), p).insert(
            item_id(rows[i]),
        ),
        !has_id(p, item_id(rows[i])) ==> found_ids(rows.take(i + 1), p) == found_ids(rows.take(i), p),
{
    let a = rows.take(i);
    let b = rows.take(i + 1);
    let x = item_id(rows[i]);
    assert forall|y: u64| !no_id(b, y) <==> (!no_id(a, y) || y == x) by {
        if !no_id(a, y) {
            let j = choose|j: int| 0 <= j < a.len() && item_id(#[trigger] a[j]) == y;
            assert(b[j] == a[j]);
        }
        if y == x {
            assert(b[i] == rows[i]);
        }
        if !no_id(b, y) && y != x {
            let j = choose|j: int| 0 <= j < b.len() && item_id(#[trigger] b[j]) == y;
            assert(a[j] == b[j]);
        }
    }
    if has_id(p, x) {
        assert(found_ids(b, p) =~= found_ids(a, p).insert(x));
    } else {
        assert(found_ids(b, p) =~= found_ids(a, p));
    }
}

} // verus!
