//! Merging: deletions are made from the trees under the roots, then the
//! trees under the inputs are folded back, to a depth, into the rows of a
//! new tree together with the inserts.

use crate::content::{forest_full, inserts_ms, news};
use crate::coord::Coord;
use crate::cover::node_box;
use crate::delete::{
    delete_ids, lemma_items_kind, lemma_pending_ids, lemma_split_kinds, lemma_sweep, of_kind,
    pending_of, shrunk, start_pending,
};
use crate::error::{Error, Violation};
use crate::builder::{first_order, rule_of, shaped, tight_around};
use crate::range::{order_wf, same_range};
use crate::segment::{light_items, range_len};
use crate::tree::Build;
use crate::forest::{tree_boxes, trees_fit, trees_grow, trees_placed, CreateTrees};
use crate::links::all_linked;
use crate::place::node_placed;
use crate::range::{ins_item, inserts_wf, Insert};
use crate::forest::lemma_trees_grow_dom;
use crate::delete::lemma_has_id;
use crate::remove::{has_id, item_id, pending_view, sweep_rows};
use crate::search::{
    all_there, in_reach, lemma_pass_end, lemma_pass_reached, lemma_pass_stack, lemma_pass_start, lemma_pass_visit,
    lemma_root_reached, lemma_swept_same, lemma_sweep_nothing, missing, pass_inv, passed, rest_of, roots_seen, swept,
};
use std::collections::HashSet;
use crate::setup::{fields_ok, SetupFields};
use crate::tree::{
    clone_point, node_items, point_wf, ref_items, row_items, valid_dim, Branch, InsertValue, Item,
    Node, Point, Row, Tree, TreeId, TreeRef, Value,
};
use crate::tree_file::TreeFile;
use vstd::multiset::Multiset;
use vstd::prelude::*;

verus! {

/// A root of the forest: a reference to its tree, if it has one.
pub type Root = Option<TreeRef>;

/// Whether the point has the arity `dim` and its intervals are in order.
pub fn check_point(p: &Point, dim: usize) -> (r: bool)
    ensures
        r == point_wf(p@, dim as nat),
{
    if p.len() != dim {
        return false;
    }
    let mut a: usize = 0;
    while a < dim
        invariant
            a <= dim,
            p@.len() == dim,
            forall|b: int| 0 <= b < a ==> (#[trigger] p@[b]).wf(),
        decreases dim - a,
    {
        let ok = match &p[a] {
            Coord::Scalar(_) => true,
            Coord::Interval(min, max) => *min <= *max,
        };
        if !ok {
            return false;
        }
        a += 1;
    }
    true
}

/// Whether two points are the same.
pub fn same_point(p: &Point, q: &Point) -> (r: bool)
    ensures
        r == (p@ == q@),
{
    if p.len() != q.len() {
        return false;
    }
    let mut a: usize = 0;
    while a < p.len()
        invariant
            a <= p@.len(),
            p@.len() == q@.len(),
            forall|b: int| 0 <= b < a ==> p@[b] == q@[b],
        decreases p@.len() - a,
    {
        if p[a] != q[a] {
            return false;
        }
        a += 1;
    }
    assert(p@ =~= q@);
    true
}

/// What a build asks of the rows: one arity between 2 and 8, intervals in
/// order, and each reference at its bounds.
pub open spec fn rows_ok(inserts: Seq<Insert>) -> bool {
    inserts.len() > 0 ==> valid_dim(inserts[0].0@.len()) && inserts_wf(inserts, inserts[0].0@.len())
}

/// Whether the rows are fit for a build.
pub fn check_inserts(inserts: &[Insert]) -> (r: bool)
    ensures
        r == rows_ok(inserts@),
{
    if inserts.len() == 0 {
        return true;
    }
    let dim = inserts[0].0.len();
    if dim < 2 || dim > 8 {
        return false;
    }
    let mut j: usize = 0;
    while j < inserts.len()
        invariant
            j <= inserts@.len(),
            dim == inserts@[0].0@.len(),
            forall|k: int|
                0 <= k < j ==> {
                    &&& point_wf((#[trigger] inserts@[k]).0@, dim as nat)
                    &&& (inserts@[k].1 matches InsertValue::Ref(r) ==> r.bounds@ == inserts@[k].0@)
                },
        decreases inserts@.len() - j,
    {
        if !check_point(&inserts[j].0, dim) {
            return false;
        }
        let ok = match &inserts[j].1 {
            InsertValue::Value(_) => true,
            InsertValue::Ref(r) => same_point(&r.bounds, &inserts[j].0),
        };
        if !ok {
            return false;
        }
        j += 1;
    }
    true
}

/// Every reference among the rows is given at its bounds.
pub open spec fn at_bounds(rows: Seq<Insert>) -> bool {
    forall|j: int|
        0 <= j < rows.len() ==> ((#[trigger] rows[j]).1 matches InsertValue::Ref(r) ==> r.bounds@ == rows[j].0@)
}

/// What a build asks of what the rows stand for: one arity between 2 and 8
/// and intervals in order.
pub open spec fn items_fit(items: Seq<Item>) -> bool {
    items.len() > 0 ==> valid_dim(items[0].point().len()) && crate::tree::items_wf(
        items,
        items[0].point().len(),
    )
}

/// Rows whose references are at their bounds are fit for a build exactly
/// when what they stand for is.
pub proof fn lemma_rows_ok(rows: Seq<Insert>)
    requires
        at_bounds(rows),
    ensures
        rows_ok(rows) == items_fit(rows_items(rows)),
{
    let items = rows_items(rows);
    if rows.len() > 0 {
        let dim = rows[0].0@.len();
        assert(items[0].point() == rows[0].0@);
        if rows_ok(rows) {
            assert forall|i: int| 0 <= i < items.len() implies point_wf((#[trigger] items[i]).point(), dim) by {
                assert(point_wf(rows[i].0@, dim));
            }
        }
        if items_fit(items) {
            assert forall|j: int| 0 <= j < rows.len() implies {
                &&& point_wf((#[trigger] rows[j]).0@, dim)
                &&& (rows[j].1 matches InsertValue::Ref(r) ==> r.bounds@ == rows[j].0@)
            } by {
                assert(point_wf(items[j].point(), dim));
            }
        }
    }
}

/// The items that the rows stand for, in order.
pub open spec fn rows_items(rows: Seq<Insert>) -> Seq<Item> {
    Seq::new(rows.len(), |j: int| ins_item(rows, j))
}

/// The rows with one more.
proof fn lemma_rows_push(rows: Seq<Insert>, x: Insert)
    ensures
        rows_items(rows.push(x)) == rows_items(rows).push(crate::tree::insert_item(x.0, x.1)),
{
    assert(rows_items(rows.push(x)) =~= rows_items(rows).push(crate::tree::insert_item(x.0, x.1)));
}

/// Appends a row for each record of the list.
pub fn push_records<'a>(rows: &mut Vec<Insert<'a>>, list: &'a Vec<Row>)
    requires
        at_bounds(old(rows)@),
    ensures
        rows_items(final(rows)@) == rows_items(old(rows)@) + row_items(list@),
        at_bounds(final(rows)@),
{
    let ghost r0 = rows_items(rows@);
    let mut i: usize = 0;
    assert(r0 + row_items(list@).subrange(0, 0) =~= r0);
    while i < list.len()
        invariant
            i <= list@.len(),
            at_bounds(rows@),
            rows_items(rows@) == r0 + row_items(list@).subrange(0, i as int),
        decreases list@.len() - i,
    {
        let ghost before = rows@;
        let p = clone_point(&list[i].0);
        let x: Insert<'a> = (p, InsertValue::Value(&list[i].1));
        proof {
            lemma_rows_push(before, x);
            assert forall|j: int| 0 <= j < before.push(x).len() implies ((#[trigger] before.push(x)[j]).1 matches InsertValue::Ref(
                r,
            ) ==> r.bounds@ == before.push(x)[j].0@) by {
                if j < before.len() {
                    assert(before.push(x)[j] == before[j]);
                }
            }
        }
        rows.push(x);
        i += 1;
        assert(rows_items(rows@) =~= r0 + row_items(list@).subrange(0, i as int));
    }
    assert(row_items(list@).subrange(0, list@.len() as int) =~= row_items(list@));
}

/// Appends a row for each reference, at its bounds.
pub fn push_refs<'a>(rows: &mut Vec<Insert<'a>>, refs: &Vec<TreeRef>)
    requires
        at_bounds(old(rows)@),
    ensures
        rows_items(final(rows)@) == rows_items(old(rows)@) + ref_items(refs@),
        at_bounds(final(rows)@),
{
    let ghost r0 = rows_items(rows@);
    let mut i: usize = 0;
    assert(r0 + ref_items(refs@).subrange(0, 0) =~= r0);
    while i < refs.len()
        invariant
            i <= refs@.len(),
            at_bounds(rows@),
            rows_items(rows@) == r0 + ref_items(refs@).subrange(0, i as int),
        decreases refs@.len() - i,
    {
        let ghost before = rows@;
        let p = clone_point(&refs[i].bounds);
        let x: Insert<'a> = (p, InsertValue::Ref(refs[i].clone()));
        proof {
            lemma_rows_push(before, x);
            assert forall|j: int| 0 <= j < before.push(x).len() implies ((#[trigger] before.push(x)[j]).1 matches InsertValue::Ref(
                r,
            ) ==> r.bounds@ == before.push(x)[j].0@) by {
                if j < before.len() {
                    assert(before.push(x)[j] == before[j]);
                }
            }
        }
        rows.push(x);
        i += 1;
        assert(rows_items(rows@) =~= r0 + ref_items(refs@).subrange(0, i as int));
    }
    assert(ref_items(refs@).subrange(0, refs@.len() as int) =~= ref_items(refs@));
}

/// The records that a caller hands in, as items.
pub open spec fn given_items(inserts: Seq<(&Point, &Value)>) -> Seq<Item> {
    inserts.map_values(|pv: (&Point, &Value)| Item::Row { point: pv.0@, id: pv.1.id, data: pv.1.data@ })
}

/// Appends a row for each record that the caller hands in.
pub fn push_given<'a>(rows: &mut Vec<Insert<'a>>, inserts: &'a [(&'a Point, &'a Value)])
    requires
        at_bounds(old(rows)@),
    ensures
        rows_items(final(rows)@) == rows_items(old(rows)@) + given_items(inserts@),
        at_bounds(final(rows)@),
{
    let ghost r0 = rows_items(rows@);
    let mut i: usize = 0;
    assert(r0 + given_items(inserts@).subrange(0, 0) =~= r0);
    while i < inserts.len()
        invariant
            i <= inserts@.len(),
            at_bounds(rows@),
            rows_items(rows@) == r0 + given_items(inserts@).subrange(0, i as int),
        decreases inserts@.len() - i,
    {
        let ghost before = rows@;
        let p = clone_point(inserts[i].0);
        let x: Insert<'a> = (p, InsertValue::Value(inserts[i].1));
        proof {
            lemma_rows_push(before, x);
            assert forall|j: int| 0 <= j < before.push(x).len() implies ((#[trigger] before.push(x)[j]).1 matches InsertValue::Ref(
                r,
            ) ==> r.bounds@ == before.push(x)[j].0@) by {
                if j < before.len() {
                    assert(before.push(x)[j] == before[j]);
                }
            }
        }
        rows.push(x);
        i += 1;
        assert(rows_items(rows@) =~= r0 + given_items(inserts@).subrange(0, i as int));
    }
    assert(given_items(inserts@).subrange(0, inserts@.len() as int) =~= given_items(inserts@));
}

/// The trees of the first `n` references are all there.
pub open spec fn level_ok(trees: Map<TreeId, Tree>, refs: Seq<Item>, n: nat) -> bool {
    forall|k: int| 0 <= k < n && k < refs.len() ==> trees.contains_key(item_id(#[trigger] refs[k]))
}

/// The records of the trees of the first `n` references, tree after tree.
pub open spec fn level_rows(trees: Map<TreeId, Tree>, refs: Seq<Item>, n: nat) -> Seq<Item>
    decreases n,
{
    if n == 0 || n > refs.len() {
        Seq::empty()
    } else {
        level_rows(trees, refs, (n - 1) as nat) + node_items(trees[item_id(refs[n - 1])].root, false)
    }
}

/// The references of the trees of the first `n` references, tree after tree.
pub open spec fn level_next(trees: Map<TreeId, Tree>, refs: Seq<Item>, n: nat) -> Seq<Item>
    decreases n,
{
    if n == 0 || n > refs.len() {
        Seq::empty()
    } else {
        level_next(trees, refs, (n - 1) as nat) + node_items(trees[item_id(refs[n - 1])].root, true)
    }
}

/// Every tree within `depth` levels under the references is there.
pub open spec fn folds_ok(trees: Map<TreeId, Tree>, refs: Seq<Item>, depth: nat) -> bool
    decreases depth,
{
    if depth == 0 || refs.len() == 0 {
        true
    } else {
        level_ok(trees, refs, refs.len()) && folds_ok(trees, level_next(trees, refs, refs.len()), (depth - 1) as nat)
    }
}

/// The records of the trees within `depth` levels under the references,
/// level after level.
pub open spec fn folded_rows(trees: Map<TreeId, Tree>, refs: Seq<Item>, depth: nat) -> Seq<Item>
    decreases depth,
{
    if depth == 0 || refs.len() == 0 {
        Seq::empty()
    } else {
        level_rows(trees, refs, refs.len()) + folded_rows(
            trees,
            level_next(trees, refs, refs.len()),
            (depth - 1) as nat,
        )
    }
}

/// The ids of the trees within `depth` levels under the references, level
/// after level.
pub open spec fn folded_ids(trees: Map<TreeId, Tree>, refs: Seq<Item>, depth: nat) -> Seq<TreeId>
    decreases depth,
{
    if depth == 0 || refs.len() == 0 {
        Seq::empty()
    } else {
        refs.map_values(|it: Item| item_id(it)) + folded_ids(
            trees,
            level_next(trees, refs, refs.len()),
            (depth - 1) as nat,
        )
    }
}

/// The references at `depth` levels under the given ones: those that a
/// merge to that depth leaves standing.
pub open spec fn frontier(trees: Map<TreeId, Tree>, refs: Seq<Item>, depth: nat) -> Seq<Item>
    decreases depth,
{
    if depth == 0 || refs.len() == 0 {
        refs
    } else {
        frontier(trees, level_next(trees, refs, refs.len()), (depth - 1) as nat)
    }
}

/// What folding one level yields.
pub struct Level {
    pub lists: Vec<Vec<Row>>,
    pub next: Vec<TreeRef>,
}

/// The records of the lists, list after list.
pub open spec fn lists_items(lists: Seq<Vec<Row>>, n: nat) -> Seq<Item>
    decreases n,
{
    if n == 0 || n > lists.len() {
        Seq::empty()
    } else {
        lists_items(lists, (n - 1) as nat) + row_items(lists[n - 1]@)
    }
}

/// The lists with more lists behind them.
pub proof fn lemma_lists_prefix(a: Seq<Vec<Row>>, b: Seq<Vec<Row>>, n: nat)
    requires
        n <= a.len() <= b.len(),
        forall|i: int| 0 <= i < a.len() ==> a[i] == b[i],
    ensures
        lists_items(b, n) == lists_items(a, n),
    decreases n,
{
    if n > 0 {
        lemma_lists_prefix(a, b, (n - 1) as nat);
    }
}

/// Lists one level under the references: appends the records of each tree
/// to `lists`, its id to `rm`, and returns the references of the trees. A
/// tree that the registry lacks is the error.
pub fn fold_level(trees: &TreeFile, refs: &Vec<TreeRef>, lists: &mut Vec<Vec<Row>>, rm: &mut Vec<TreeId>) -> (r:
    Result<Vec<TreeRef>, Error>)
    ensures
        match r {
            Ok(next) => {
                &&& level_ok(trees@, ref_items(refs@), refs@.len() as nat)
                &&& ref_items(next@) == level_next(trees@, ref_items(refs@), refs@.len() as nat)
                &&& final(lists)@.len() >= old(lists)@.len()
                &&& forall|i: int| 0 <= i < old(lists)@.len() ==> final(lists)@[i] == old(lists)@[i]
                &&& lists_items(final(lists)@, final(lists)@.len()) == lists_items(old(lists)@, old(lists)@.len())
                    + level_rows(trees@, ref_items(refs@), refs@.len() as nat)
                &&& final(rm)@ == old(rm)@ + ref_items(refs@).map_values(|it: Item| item_id(it))
            },
            Err(e) => e matches Error::Io { id } && !level_ok(trees@, ref_items(refs@), refs@.len() as nat),
        },
{
    let ghost l0 = lists@;
    let ghost rm0 = rm@;
    let ghost rs = ref_items(refs@);
    let mut next: Vec<TreeRef> = Vec::new();
    let mut i: usize = 0;
    assert(ref_items(next@) =~= Seq::<Item>::empty());
    assert(lists_items(l0, l0.len()) + Seq::<Item>::empty() =~= lists_items(l0, l0.len()));
    assert(rm0 + rs.subrange(0, 0).map_values(|it: Item| item_id(it)) =~= rm0);
    while i < refs.len()
        invariant
            i <= refs@.len(),
            rs == ref_items(refs@),
            level_ok(trees@, rs, i as nat),
            ref_items(next@) == level_next(trees@, rs, i as nat),
            lists@.len() == l0.len() + i,
            forall|k: int| 0 <= k < l0.len() ==> lists@[k] == l0[k],
            lists_items(lists@, lists@.len()) == lists_items(l0, l0.len()) + level_rows(trees@, rs, i as nat),
            rm@ == rm0 + rs.subrange(0, i as int).map_values(|it: Item| item_id(it)),
        decreases refs@.len() - i,
    {
        let id = refs[i].id;
        assert(item_id(rs[i as int]) == id);
        match trees.get(&id) {
            None => {
                return Err(Error::Io { id });
            },
            Some(t) => {
                let (list, xrefs) = t.list();
                let ghost before = lists@;
                let ghost n0 = ref_items(next@);
                lists.push(list);
                proof {
                    lemma_lists_prefix(before, lists@, before.len());
                    assert(lists_items(lists@, lists@.len()) =~= lists_items(l0, l0.len()) + level_rows(
                        trees@,
                        rs,
                        (i + 1) as nat,
                    ));
                }
                let mut k: usize = 0;
                assert(n0 + ref_items(xrefs@).subrange(0, 0) =~= n0);
                let mut xrefs = xrefs;
                let ghost xs = ref_items(xrefs@);
                // the references are appended in their order
                while k < xrefs.len()
                    invariant
                        k <= xrefs@.len(),
                        xs == ref_items(xrefs@),
                        ref_items(next@) == n0 + xs.subrange(0, k as int),
                    decreases xrefs@.len() - k,
                {
                    let ghost nb = ref_items(next@);
                    next.push(xrefs[k].clone());
                    assert(ref_items(next@) =~= nb.push(xs[k as int]));
                    k += 1;
                    assert(ref_items(next@) =~= n0 + xs.subrange(0, k as int));
                }
                assert(xs.subrange(0, xs.len() as int) =~= xs);
                rm.push(id);
                assert(rm@ =~= rm0 + rs.subrange(0, i + 1).map_values(|it: Item| item_id(it))) by {
                    assert(rs.subrange(0, i + 1) =~= rs.subrange(0, i as int).push(rs[i as int]));
                }
            },
        }
        i += 1;
    }
    assert(rs.subrange(0, rs.len() as int) =~= rs);
    Ok(next)
}

/// Lists the trees within `depth` levels under the inputs: the records of
/// each, its id, and the references that are left standing at that depth. A
/// tree that the registry lacks is the error.
pub fn fold_inputs(trees: &TreeFile, inputs: &Vec<TreeRef>, depth: usize) -> (r: Result<
    (Vec<Vec<Row>>, Vec<TreeId>, Vec<TreeRef>),
    Error,
>)
    ensures
        match r {
            Ok((lists, rm, front)) => {
                &&& folds_ok(trees@, ref_items(inputs@), depth as nat)
                &&& lists_items(lists@, lists@.len()) == folded_rows(trees@, ref_items(inputs@), depth as nat)
                &&& rm@ == folded_ids(trees@, ref_items(inputs@), depth as nat)
                &&& ref_items(front@) == frontier(trees@, ref_items(inputs@), depth as nat)
            },
            Err(e) => e matches Error::Io { id } && !folds_ok(trees@, ref_items(inputs@), depth as nat),
        },
{
    let ghost r0 = ref_items(inputs@);
    let mut lists: Vec<Vec<Row>> = Vec::new();
    let mut rm: Vec<TreeId> = Vec::new();
    let mut cur: Vec<TreeRef> = Vec::new();
    let mut i: usize = 0;
    while i < inputs.len()
        invariant
            i <= inputs@.len(),
            ref_items(cur@) == r0.subrange(0, i as int),
            r0 == ref_items(inputs@),
        decreases inputs@.len() - i,
    {
        let ghost c0 = ref_items(cur@);
        cur.push(inputs[i].clone());
        assert(ref_items(cur@) =~= c0.push(r0[i as int]));
        i += 1;
        assert(ref_items(cur@) =~= r0.subrange(0, i as int));
    }
    assert(r0.subrange(0, r0.len() as int) =~= r0);
    let mut d: usize = 0;
    assert(Seq::<Item>::empty() + folded_rows(trees@, r0, depth as nat) =~= folded_rows(trees@, r0, depth as nat));
    assert(Seq::<TreeId>::empty() + folded_ids(trees@, r0, depth as nat) =~= folded_ids(trees@, r0, depth as nat));
    while d < depth && cur.len() > 0
        invariant
            d <= depth,
            r0 == ref_items(inputs@),
            folds_ok(trees@, ref_items(cur@), (depth - d) as nat) <==> folds_ok(trees@, r0, depth as nat),
            lists_items(lists@, lists@.len()) + folded_rows(trees@, ref_items(cur@), (depth - d) as nat)
                == folded_rows(trees@, r0, depth as nat),
            rm@ + folded_ids(trees@, ref_items(cur@), (depth - d) as nat) == folded_ids(
                trees@,
                r0,
                depth as nat,
            ),
            frontier(trees@, ref_items(cur@), (depth - d) as nat) == frontier(trees@, r0, depth as nat),
        decreases depth - d,
    {
        let ghost c = ref_items(cur@);
        let ghost l0 = lists_items(lists@, lists@.len());
        let ghost m0 = rm@;
        match fold_level(trees, &cur, &mut lists, &mut rm) {
            Err(e) => {
                assert(!folds_ok(trees@, c, (depth - d) as nat));
                return Err(e);
            },
            Ok(next) => {
                proof {
                    let rest = (depth - d - 1) as nat;
                    let nx = level_next(trees@, c, c.len());
                    assert((l0 + level_rows(trees@, c, c.len())) + folded_rows(trees@, nx, rest) =~= l0 + (
                    level_rows(trees@, c, c.len()) + folded_rows(trees@, nx, rest)));
                    assert((m0 + c.map_values(|it: Item| item_id(it))) + folded_ids(trees@, nx, rest) =~= m0 + (
                    c.map_values(|it: Item| item_id(it)) + folded_ids(trees@, nx, rest)));
                }
                cur = next;
            },
        }
        d += 1;
    }
    assert(lists_items(lists@, lists@.len()) + Seq::<Item>::empty() =~= lists_items(lists@, lists@.len()));
    assert(rm@ + Seq::<TreeId>::empty() =~= rm@);
    Ok((lists, rm, cur))
}

/// The box is the tight one around the items: an interval on every axis,
/// from the least lower endpoint to the greatest upper endpoint.
pub open spec fn tight_over(b: Seq<Coord>, items: Seq<Item>, dim: nat) -> bool {
    &&& b.len() == dim
    &&& forall|a: int|
        0 <= a < dim ==> {
            &&& #[trigger] b[a] is Interval
            &&& forall|j: int|
                0 <= j < items.len() ==> b[a].lo() <= (#[trigger] items[j]).point()[a].lo() && items[j].point()[a].hi()
                    <= b[a].hi()
            &&& exists|j: int| 0 <= j < items.len() && (#[trigger] items[j]).point()[a].lo() == b[a].lo()
            &&& exists|j: int| 0 <= j < items.len() && (#[trigger] items[j]).point()[a].hi() == b[a].hi()
        }
}

/// The tight box around rows whose references are at their bounds is the
/// tight box around what the rows stand for.
proof fn lemma_tight_over(b: Seq<Coord>, rows: Seq<Insert>, dim: nat)
    requires
        tight_around(b, rows, dim),
        at_bounds(rows),
    ensures
        tight_over(b, rows_items(rows), dim),
{
    let items = rows_items(rows);
    assert forall|j: int| 0 <= j < rows.len() implies (#[trigger] items[j]).point() == rows[j].0@ by {}
    assert forall|a: int| 0 <= a < dim implies {
        &&& #[trigger] b[a] is Interval
        &&& forall|j: int|
            0 <= j < items.len() ==> b[a].lo() <= (#[trigger] items[j]).point()[a].lo() && items[j].point()[a].hi()
                <= b[a].hi()
        &&& exists|j: int| 0 <= j < items.len() && (#[trigger] items[j]).point()[a].lo() == b[a].lo()
        &&& exists|j: int| 0 <= j < items.len() && (#[trigger] items[j]).point()[a].hi() == b[a].hi()
    } by {
        assert forall|j: int| 0 <= j < items.len() implies b[a].lo() <= (#[trigger] items[j]).point()[a].lo()
            && items[j].point()[a].hi() <= b[a].hi() by {
            assert(items[j].point() == rows[j].0@);
        }
        let j1 = choose|j: int| 0 <= j < rows.len() && (#[trigger] rows[j]).0@[a].lo() == b[a].lo();
        assert(items[j1].point() == rows[j1].0@);
        let j2 = choose|j: int| 0 <= j < rows.len() && (#[trigger] rows[j]).0@[a].hi() == b[a].hi();
        assert(items[j2].point() == rows[j2].0@);
    }
}

/// The root of the tree with the id `root` is what the rule for all the
/// rows, in an order of them, at the root of a fresh tree makes it.
pub open spec fn root_shaped(
    fields: SetupFields,
    items: Seq<Item>,
    is_rm: bool,
    next0: TreeId,
    root: TreeId,
    created: Map<TreeId, Tree>,
) -> bool {
    exists|rs: Seq<Insert>, s: Seq<usize>|
        #![trigger rows_items(rs), order_wf(s, rs.len())]
        {
            let b = Build { range: (0, rs.len() as usize), level: 0, count: 0, bytes: 0 };
            &&& rows_items(rs) == items
            &&& at_bounds(rs)
            &&& order_wf(s, rs.len())
            &&& same_range(first_order(rs.len()), s, 0, rs.len() as int)
            &&& shaped(
                rule_of(fields, b, is_rm, range_len(rs, s, 0, rs.len() as int)),
                fields,
                rs,
                s,
                next0 as int,
                root as int,
                created,
                b,
                items[0].point().len(),
                created[root].root,
            )
        }
}

/// What a merge builds from: the references left standing, the records
/// handed in, and the records of the trees folded back.
pub open spec fn merge_rows(
    trees: Map<TreeId, Tree>,
    inputs: Seq<TreeRef>,
    inserts: Seq<(&Point, &Value)>,
    depth: nat,
) -> Seq<Item> {
    frontier(trees, ref_items(inputs), depth) + given_items(inserts) + folded_rows(
        trees,
        ref_items(inputs),
        depth,
    )
}

/// What a merge owes when its trees are there and its rows are fit: the ids
/// of the trees folded back, to be dropped, and a build from the rows. With
/// no rows there is no tree. Otherwise the new trees get the ids from the
/// next free one on, the root the last; each is as the builder leaves trees;
/// the reference to the root carries the tight box around what its tree
/// lists, which is the tight box around all the rows; the new trees hold,
/// once each, the rows and one reference to each new tree but the root's;
/// every new tree but the root's is reached from the root tree by
/// references to new trees; a new tree that is a leaf kept or cut for its
/// size counts at most `max_tree_bytes`; and the root of the root tree is
/// what the rule for all the rows makes it.
pub open spec fn merged(
    fields: SetupFields,
    trees: Map<TreeId, Tree>,
    inputs: Seq<TreeRef>,
    inserts: Seq<(&Point, &Value)>,
    depth: nat,
    next0: TreeId,
    next1: TreeId,
    tr: Option<TreeRef>,
    rm: Seq<TreeId>,
    created: Map<TreeId, Tree>,
) -> bool {
    let rows = merge_rows(trees, inputs, inserts, depth);
    &&& rm == folded_ids(trees, ref_items(inputs), depth)
    &&& rows.len() == 0 ==> tr is None && created == Map::<TreeId, Tree>::empty() && next1 == next0
    &&& rows.len() > 0 ==> (tr matches Some(x) && {
        let dim = rows[0].point().len();
        &&& x.id + 1 == next1
        &&& next0 <= x.id
        &&& trees_grow(Map::<TreeId, Tree>::empty(), created, next0 as int, next1 as int)
        &&& trees_placed(created, next0 as int, next1 as int, dim)
        &&& trees_fit(created, next0 as int, next1 as int, fields.inline, fields.max_tree_bytes)
        &&& all_linked(
            created,
            node_items(created[x.id].root, false),
            node_items(created[x.id].root, true),
            next0 as int,
            x.id as int,
        )
        &&& x.bounds@ == node_box(created[x.id].root, dim)
        &&& tight_over(x.bounds@, rows, dim)
        &&& root_shaped(fields, rows, false, next0, x.id, created)
        &&& forest_full(created, next0 as int, next1 as int) == rows.to_multiset().add(
            news(tree_boxes(created, dim), next0 as int, x.id as int),
        )
    })
}

/// Why folding back and building stops: `Io` where a tree to fold back is
/// not in the registry; else `MalformedInput` where the rows are not fit
/// for a build; else `OutOfIds` where the ids do not suffice.
pub open spec fn rebuild_stops(
    trees: Map<TreeId, Tree>,
    inputs: Seq<TreeRef>,
    inserts: Seq<(&Point, &Value)>,
    depth: nat,
    next: TreeId,
    e: Error,
) -> bool {
    let rows = merge_rows(trees, inputs, inserts, depth);
    match e {
        Error::Io { id } => !folds_ok(trees, ref_items(inputs), depth),
        Error::InvariantViolation { detail } => {
            &&& folds_ok(trees, ref_items(inputs), depth)
            &&& detail == Violation::MalformedInput <==> !items_fit(rows)
            &&& detail == Violation::OutOfIds <==> items_fit(rows) && next + 2 * rows.len() > u64::MAX
        },
        _ => false,
    }
}

/// Folds the trees within `depth` levels under the inputs back into rows,
/// adds the records handed in, and builds a new tree from them.
pub fn rebuild<'a>(
    fields: &SetupFields,
    trees: &TreeFile,
    inputs: &Vec<TreeRef>,
    inserts: &'a [(&'a Point, &'a Value)],
    depth: usize,
    next_tree: &mut TreeId,
) -> (r: Result<(Option<TreeRef>, Vec<TreeId>, CreateTrees), Error>)
    requires
        fields_ok(*fields),
    ensures
        match r {
            Ok((tr, rm, created)) => {
                &&& folds_ok(trees@, ref_items(inputs@), depth as nat)
                &&& items_fit(merge_rows(trees@, inputs@, inserts@, depth as nat))
                &&& merged(
                    *fields,
                    trees@,
                    inputs@,
                    inserts@,
                    depth as nat,
                    *old(next_tree),
                    *final(next_tree),
                    tr,
                    rm@,
                    created@,
                )
            },
            Err(e) => *final(next_tree) == *old(next_tree) && rebuild_stops(
                trees@,
                inputs@,
                inserts@,
                depth as nat,
                *old(next_tree),
                e,
            ),
        },
{
    let (lists, rm, front) = match fold_inputs(trees, inputs, depth) {
        Ok(x) => x,
        Err(e) => {
            return Err(e);
        },
    };
    let mut rows: Vec<Insert> = Vec::new();
    assert(rows_items(rows@) =~= Seq::<Item>::empty());
    push_refs(&mut rows, &front);
    push_given(&mut rows, inserts);
    let ghost head = rows_items(rows@);
    assert(head =~= frontier(trees@, ref_items(inputs@), depth as nat) + given_items(inserts@));
    let mut i: usize = 0;
    assert(head + lists_items(lists@, 0) =~= head);
    while i < lists.len()
        invariant
            i <= lists@.len(),
            at_bounds(rows@),
            rows_items(rows@) == head + lists_items(lists@, i as nat),
        decreases lists@.len() - i,
    {
        let ghost r0 = rows_items(rows@);
        push_records(&mut rows, &lists[i]);
        i += 1;
        assert(rows_items(rows@) =~= head + lists_items(lists@, i as nat));
    }
    let ghost items = merge_rows(trees@, inputs@, inserts@, depth as nat);
    assert(rows_items(rows@) =~= items);
    proof {
        lemma_rows_ok(rows@);
    }
    if !check_inserts(rows.as_slice()) {
        return Err(Error::InvariantViolation { detail: Violation::MalformedInput });
    }
    let room: u128 = (*next_tree as u128) + 2 * (rows.len() as u128);
    if room > u64::MAX as u128 {
        return Err(Error::InvariantViolation { detail: Violation::OutOfIds });
    }
    let ghost n0 = *next_tree;
    let (tr, created) = Branch::build(fields, rows.as_slice(), next_tree, false);
    proof {
        if rows@.len() > 0 {
            assert(items[0].point() == rows@[0].0@);
            lemma_tight_over(tr->0.bounds@, rows@, rows@[0].0@.len());
            let n = rows@.len();
            let b = Build { range: (0, n as usize), level: 0, count: 0, bytes: 0 };
            let s = choose|s: Seq<usize>|
                #![trigger order_wf(s, n)]
                order_wf(s, n) && same_range(first_order(n), s, 0, n as int) && shaped(
                    rule_of(*fields, b, false, range_len(rows@, s, 0, n as int)),
                    *fields,
                    rows@,
                    s,
                    n0 as int,
                    tr->0.id as int,
                    created@,
                    b,
                    rows@[0].0@.len(),
                    created@[tr->0.id].root,
                );
            assert(rows_items(rows@) == items && order_wf(s, rows@.len()));
            assert(root_shaped(*fields, items, false, n0, tr->0.id, created@));
        }
        assert(inserts_ms(rows@) == items.to_multiset());
    }
    Ok((tr, rm, created))
}

/// A merge: the options, the records to insert, the deletions asked for,
/// the references to fold back, the roots to delete under, the registry of
/// trees, the next free id, the depth to fold to, and whether a deletion
/// that finds nothing is an error.
pub struct Merge<'a> {
    pub fields: SetupFields,
    pub inserts: &'a [(&'a Point, &'a Value)],
    pub deletes: Vec<(Point, u64)>,
    pub inputs: Vec<TreeRef>,
    pub roots: Vec<Root>,
    pub trees: TreeFile,
    pub next_tree: TreeId,
    pub rebuild_depth: usize,
    pub error_if_missing: bool,
}

/// What the items of a node are: records, and with `refs` references.
proof fn lemma_node_kind(node: Node, refs: bool)
    ensures
        of_kind(node_items(node, refs), refs),
{
    assert forall|j: int| 0 <= j < node_items(node, refs).len() implies (#[trigger] node_items(node, refs)[j]) is Ref
        == refs by {
        lemma_items_kind(node, refs, j);
    }
}

/// A tree of the registry that the pass reaches loses a record, and what
/// is left of it cannot be rebuilt, for the reason that `detail` names.
pub open spec fn rebuild_fails(
    t0: Map<TreeId, Tree>,
    roots: Seq<Option<TreeRef>>,
    p: Seq<(u64, Seq<Coord>)>,
    detail: Violation,
) -> bool {
    exists|t: TreeId|
        #![trigger t0[t]]
        in_reach(t0, roots, p, t) && t0.dom().contains(t) && sweep_rows(node_items(t0[t].root, false), p).len()
            != node_items(t0[t].root, false).len() && rest_fails(rest_of(t0[t], p), t, detail)
}

/// Nothing stops the deletion pass: every tree that it reaches is in the
/// registry, what is left of each can be rebuilt, and no id is missing
/// where that is an error.
pub open spec fn pass_clean(
    t0: Map<TreeId, Tree>,
    roots: Seq<Option<TreeRef>>,
    p: Seq<(u64, Seq<Coord>)>,
    error_if_missing: bool,
) -> bool {
    &&& forall|t: TreeId| in_reach(t0, roots, p, t) ==> #[trigger] t0.dom().contains(t)
    &&& forall|detail: Violation| !rebuild_fails(t0, roots, p, detail)
    &&& !(error_if_missing && exists|x: u64| missing(t0, roots, p, x))
}

/// What a deletion pass owes. It ends well when every tree that it reaches
/// is in the registry and can be rebuilt: then the registry is as the pass
/// leaves it, and the result is `Ok`, unless the merge is told that a
/// missing id is an error and an id is missing: then the ids of the error
/// are the missing ids, each once. The error `Io` names a tree that the pass reaches
/// and the registry lacks, and `InvariantViolation` the reason why what is
/// left of a tree that the pass reaches cannot be rebuilt.
pub open spec fn removed(
    t0: Map<TreeId, Tree>,
    t1: Map<TreeId, Tree>,
    roots: Seq<Option<TreeRef>>,
    p: Seq<(u64, Seq<Coord>)>,
    error_if_missing: bool,
    r: Result<(), Error>,
) -> bool {
    match r {
        Ok(()) => {
            &&& passed(t0, t1, roots, p)
            &&& all_there(t0, roots, p)
            &&& !(error_if_missing && exists|x: u64| missing(t0, roots, p, x))
        },
        Err(Error::RemoveIdsMissing { ids }) => {
            &&& passed(t0, t1, roots, p)
            &&& all_there(t0, roots, p)
            &&& error_if_missing
            &&& ids@.len() > 0
            &&& ids@.no_duplicates()
            &&& forall|x: u64| #[trigger] ids@.contains(x) <==> missing(t0, roots, p, x)
        },
        Err(Error::Io { id }) => in_reach(t0, roots, p, id) && !t0.dom().contains(id),
        Err(Error::InvariantViolation { detail }) => rebuild_fails(t0, roots, p, detail),
        Err(_) => false,
    }
}

/// Every tree is what it was, less records with the ids.
pub open spec fn all_shrunk(t0: Map<TreeId, Tree>, t1: Map<TreeId, Tree>, ids: Set<u64>) -> bool {
    &&& t1.dom() == t0.dom()
    &&& forall|id: TreeId| #[trigger] t0.dom().contains(id) ==> shrunk(t0[id], t1[id], ids)
}

/// The options of a build that moves nothing out of its tree: the options
/// without a cap on depth or records, and without a size at which a leaf
/// is cut.
pub open spec fn wide_of(f: SetupFields) -> SetupFields {
    SetupFields {
        max_depth: usize::MAX,
        max_records: usize::MAX,
        inline_max_bytes: usize::MAX,
        max_tree_bytes: usize::MAX,
        ..f
    }
}

/// The tree is what a build for a deletion leaves of the items under the
/// id, as one tree, under the options that move nothing out.
pub open spec fn rebuilt(f: SetupFields, items: Seq<Item>, id: TreeId, t: Tree) -> bool {
    root_shaped(wide_of(f), items, true, id, id, Map::<TreeId, Tree>::empty().insert(id, t))
}

/// What is left of a tree is not fit for a build, `MalformedInput`, or is
/// fit and has no room for the ids of a build, `OutOfIds`.
pub open spec fn rest_fails(items: Seq<Item>, id: TreeId, detail: Violation) -> bool {
    &&& items.len() > 0
    &&& detail == Violation::MalformedInput <==> !items_fit(items)
    &&& detail == Violation::OutOfIds <==> items_fit(items) && id + 2 * items.len() > u64::MAX
}

/// The tree that holds what is left of a tree after deletions, under the
/// same id: the empty tree if nothing is left, else the tree that a build
/// for a deletion leaves under options that move nothing out of it. Only
/// where that build moves something out all the same, which it does not
/// where the items are light, the tree is one leaf with everything that is
/// left, as it was handed in. It is one tree in every case, and one that
/// keeps the placement invariants. What is left and is not fit for a build
/// is the error `MalformedInput`; what is fit and has no room for the ids
/// of a build is `OutOfIds`.
pub fn rebuild_tree(fields: &SetupFields, id: TreeId, list: Vec<Row>, refs: Vec<TreeRef>) -> (r: Result<
    Tree,
    Error,
>)
    requires
        fields_ok(*fields),
    ensures
        match r {
            Ok(t) => {
                &&& node_items(t.root, false).to_multiset() == row_items(list@).to_multiset()
                &&& node_items(t.root, true).to_multiset() == ref_items(refs@).to_multiset()
                &&& list@.len() == 0 && refs@.len() == 0 ==> (t.root matches Node::Data(a, b) && a@.len() == 0
                    && b@.len() == 0)
                &&& !exists|detail: Violation| rest_fails(row_items(list@) + ref_items(refs@), id, detail)
                &&& list@.len() + refs@.len() > 0 ==> node_placed(
                    t.root,
                    0,
                    (row_items(list@) + ref_items(refs@))[0].point().len(),
                )
                &&& list@.len() + refs@.len() > 0 ==> {
                    ||| rebuilt(*fields, row_items(list@) + ref_items(refs@), id, t)
                    ||| !light_items(row_items(list@) + ref_items(refs@)) && t.root == Node::Data(list, refs)
                }
            },
            Err(Error::InvariantViolation { detail }) => rest_fails(row_items(list@) + ref_items(refs@), id, detail),
            Err(_) => false,
        },
{
    let ghost items = row_items(list@) + ref_items(refs@);
    match build_one(fields, id, &list, &refs) {
        Ok(Some(t)) => Ok(t),
        Ok(None) => {
            let t = Tree::new(Node::Data(list, refs));
            proof {
                reveal(node_placed);
                let dim = items[0].point().len();
                assert(!rest_fails(items, id, Violation::MalformedInput));
                assert(items_fit(items));
                assert forall|i: int| 0 <= i < row_items(list@).len() implies point_wf(
                    (#[trigger] row_items(list@)[i]).point(),
                    dim,
                ) by {
                    assert(items[i] == row_items(list@)[i]);
                }
                assert forall|i: int| 0 <= i < ref_items(refs@).len() implies point_wf(
                    (#[trigger] ref_items(refs@)[i]).point(),
                    dim,
                ) by {
                    assert(items[row_items(list@).len() + i] == ref_items(refs@)[i]);
                }
            }
            Ok(t)
        },
        Err(e) => Err(e),
    }
}

/// The tree built from what is left of a tree, if the build puts it into
/// one tree.
fn build_one(fields: &SetupFields, id: TreeId, list: &Vec<Row>, refs: &Vec<TreeRef>) -> (r: Result<
    Option<Tree>,
    Error,
>)
    requires
        fields_ok(*fields),
    ensures
        match r {
            Ok(Some(t)) => {
                &&& node_items(t.root, false).to_multiset() == row_items(list@).to_multiset()
                &&& node_items(t.root, true).to_multiset() == ref_items(refs@).to_multiset()
                &&& list@.len() == 0 && refs@.len() == 0 ==> (t.root matches Node::Data(a, b) && a@.len() == 0
                    && b@.len() == 0)
                &&& !exists|detail: Violation| rest_fails(row_items(list@) + ref_items(refs@), id, detail)
                &&& list@.len() + refs@.len() > 0 ==> node_placed(
                    t.root,
                    0,
                    (row_items(list@) + ref_items(refs@))[0].point().len(),
                )
                &&& list@.len() + refs@.len() > 0 ==> rebuilt(*fields, row_items(list@) + ref_items(refs@), id, t)
            },
            Ok(None) => list@.len() + refs@.len() > 0 && !light_items(row_items(list@) + ref_items(refs@))
                && !exists|detail: Violation| rest_fails(row_items(list@) + ref_items(refs@), id, detail),
            Err(Error::InvariantViolation { detail }) => rest_fails(row_items(list@) + ref_items(refs@), id, detail),
            Err(_) => false,
        },
{
    broadcast use vstd::std_specs::hash::group_hash_axioms;
    broadcast use vstd::multiset::group_multiset_axioms;

    let mut rows: Vec<Insert> = Vec::new();
    assert(rows_items(rows@) =~= Seq::<Item>::empty());
    push_records(&mut rows, list);
    push_refs(&mut rows, refs);
    assert(rows_items(rows@) =~= row_items(list@) + ref_items(refs@));
    if rows.len() == 0 {
        let t = Tree::empty();
        assert(row_items(list@) =~= Seq::<Item>::empty());
        assert(ref_items(refs@) =~= Seq::<Item>::empty());
        assert(node_items(t.root, false) =~= Seq::<Item>::empty());
        assert(node_items(t.root, true) =~= Seq::<Item>::empty());
        return Ok(Some(t));
    }
    proof {
        lemma_rows_ok(rows@);
    }
    if !check_inserts(rows.as_slice()) {
        return Err(Error::InvariantViolation { detail: Violation::MalformedInput });
    }
    let room: u128 = (id as u128) + 2 * (rows.len() as u128);
    if room > u64::MAX as u128 {
        return Err(Error::InvariantViolation { detail: Violation::OutOfIds });
    }
    let mut wide = *fields;
    wide.max_records = usize::MAX;
    wide.max_depth = usize::MAX;
    wide.inline_max_bytes = usize::MAX;
    wide.max_tree_bytes = usize::MAX;
    assert(wide == wide_of(*fields));
    let mut next = id;
    let (tr, created) = Branch::build(&wide, rows.as_slice(), &mut next, true);
    proof {
        crate::segment::lemma_light(rows@);
        assert(Seq::new(rows@.len(), |j: int| ins_item(rows@, j)) =~= rows_items(rows@));
    }
    if next != id + 1 {
        return Ok(None);
    }
    let mut created = created;
    let ghost c0 = created@;
    proof {
        lemma_trees_grow_dom(Map::<TreeId, Tree>::empty(), c0, id as int, id + 1);
        assert(c0.dom().contains(id));
    }
    match created.remove(&id) {
        None => Ok(None),
        Some(t) => {
            proof {
                let dim = rows@[0].0@.len();
                lemma_trees_grow_dom(Map::<TreeId, Tree>::empty(), c0, id as int, id + 1);
                assert(t == c0[id]);
                assert(c0 =~= Map::<TreeId, Tree>::empty().insert(id, t));
                let n = rows@.len();
                let b = Build { range: (0, n as usize), level: 0, count: 0, bytes: 0 };
                let s = choose|s: Seq<usize>|
                    #![trigger order_wf(s, n)]
                    order_wf(s, n) && same_range(first_order(n), s, 0, n as int) && shaped(
                        rule_of(wide, b, true, range_len(rows@, s, 0, n as int)),
                        wide,
                        rows@,
                        s,
                        id as int,
                        id as int,
                        c0,
                        b,
                        dim,
                        c0[id].root,
                    );
                assert(rows_items(rows@) == row_items(list@) + ref_items(refs@) && order_wf(s, rows@.len()));
                assert((row_items(list@) + ref_items(refs@))[0].point() == rows@[0].0@) by {
                    assert(rows_items(rows@)[0] == ins_item(rows@, 0));
                }
                assert(rebuilt(*fields, row_items(list@) + ref_items(refs@), id, t));
                assert(crate::forest::tree_sound(c0[id], dim)) by {
                    reveal(trees_placed);
                }
                assert((row_items(list@) + ref_items(refs@))[0].point() == rows@[0].0@) by {
                    assert(rows_items(rows@)[0] == ins_item(rows@, 0));
                }
                assert(tr matches Some(x) && x.id == id);
                assert(forest_full(c0, id as int, id as int) =~= Multiset::<Item>::empty());
                assert(forest_full(c0, id as int, id + 1) =~= crate::content::full_ms(t.root));
                assert(news(tree_boxes(c0, dim), id as int, id as int) =~= Multiset::<Item>::empty());
                assert(Seq::new(rows@.len(), |j: int| ins_item(rows@, j)) =~= rows_items(rows@));
                assert(inserts_ms(rows@) == rows_items(rows@).to_multiset());
                lemma_multiset_parts(row_items(list@), ref_items(refs@));
                assert(crate::content::full_ms(t.root) =~= row_items(list@).to_multiset().add(
                    ref_items(refs@).to_multiset(),
                ));
                lemma_node_kind(t.root, false);
                lemma_node_kind(t.root, true);
                assert(of_kind(row_items(list@), false));
                assert(of_kind(ref_items(refs@), true));
                lemma_split_kinds(
                    node_items(t.root, false),
                    node_items(t.root, true),
                    row_items(list@),
                    ref_items(refs@),
                );
            }
            Ok(Some(t))
        },
    }
}

/// What two sequences hold together.
proof fn lemma_multiset_parts(a: Seq<Item>, b: Seq<Item>)
    ensures
        (a + b).to_multiset() == a.to_multiset().add(b.to_multiset()),
{
    vstd::seq_lib::lemma_multiset_commutative(a, b);
}

impl<'a> Merge<'a> {
    /// Makes the deletions that are asked for, from the trees under the
    /// roots. The pass reaches the roots and, from a tree that it reaches,
    /// every tree that is referred to with bounds that meet the point of a
    /// deletion. Every tree of the registry that it reaches loses the
    /// records whose ids are to be deleted and keeps the others and its
    /// references; a tree that loses a record is rebuilt under its id; every
    /// other tree is left as it is. An id to be deleted that no tree reached
    /// holds is missing: where the merge is told so, the missing ids are the
    /// error `RemoveIdsMissing`. A tree that the pass reaches and the
    /// registry lacks is the error `Io`, and a tree whose rest cannot be
    /// rebuilt is the error `InvariantViolation`; after an error every tree
    /// has lost only records that were to be deleted.
    pub fn remove(&mut self) -> (r: Result<(), Error>)
        requires
            fields_ok(old(self).fields),
        ensures
            final(self).fields == old(self).fields,
            final(self).inserts == old(self).inserts,
            final(self).deletes == old(self).deletes,
            final(self).inputs == old(self).inputs,
            final(self).roots == old(self).roots,
            final(self).next_tree == old(self).next_tree,
            final(self).rebuild_depth == old(self).rebuild_depth,
            final(self).error_if_missing == old(self).error_if_missing,
            all_shrunk(old(self).trees@, final(self).trees@, delete_ids(old(self).deletes@)),
            old(self).deletes@.len() == 0 ==> r is Ok && final(self).trees@ == old(self).trees@,
            forall|t: TreeId|
                old(self).trees@.dom().contains(t) && !in_reach(
                    old(self).trees@,
                    old(self).roots@,
                    pending_of(old(self).deletes@, old(self).deletes@.len()),
                    t,
                ) ==> final(self).trees@[t] == #[trigger] old(self).trees@[t],
            removed(
                old(self).trees@,
                final(self).trees@,
                old(self).roots@,
                pending_of(old(self).deletes@, old(self).deletes@.len()),
                old(self).error_if_missing,
                r,
            ),
            pass_clean(
                old(self).trees@,
                old(self).roots@,
                pending_of(old(self).deletes@, old(self).deletes@.len()),
                old(self).error_if_missing,
            ) ==> r is Ok,
    {
        broadcast use vstd::std_specs::hash::group_hash_axioms;
        broadcast use vstd::multiset::group_multiset_axioms;

        let ghost t0 = self.trees@;
        let ghost wanted = delete_ids(self.deletes@);
        let ghost p = pending_of(self.deletes@, self.deletes@.len() as nat);
        let ghost roots = self.roots@;
        proof {
            assert forall|id: TreeId| #[trigger] t0.dom().contains(id) implies shrunk(t0[id], t0[id], wanted) by {}
        }
        if self.deletes.len() == 0 {
            proof {
                assert(p =~= Seq::empty());
                assert forall|t: TreeId| #[trigger] t0.dom().contains(t) implies swept(t0[t], t0[t], p) by {
                    lemma_sweep_nothing(node_items(t0[t].root, false));
                    lemma_swept_same(t0[t], p);
                }
                assert forall|x: u64| !missing(t0, roots, p, x) by {
                    assert(!has_id(p, x));
                }
            }
            return Ok(());
        }
        let pending = start_pending(&self.deletes);
        proof {
            assert forall|id: u64| has_id(pending_view(pending@), id) implies wanted.contains(id) by {
                lemma_pending_ids(self.deletes@, self.deletes@.len() as nat, id);
            }
            lemma_pass_start(t0, roots, p);
            crate::delete::lemma_pending_unique(self.deletes@, self.deletes@.len() as nat);
            lemma_has_id(p, self.deletes@[0].1);
        }
        let mut found: HashSet<u64> = HashSet::new();
        let mut visited: HashSet<TreeId> = HashSet::new();
        let mut ri: usize = 0;
        while ri < self.roots.len()
            invariant
                ri <= self.roots@.len(),
                fields_ok(self.fields),
                self.fields == old(self).fields,
                self.inserts == old(self).inserts,
                self.deletes == old(self).deletes,
                self.inputs == old(self).inputs,
                self.roots == old(self).roots,
                self.next_tree == old(self).next_tree,
                self.rebuild_depth == old(self).rebuild_depth,
                self.error_if_missing == old(self).error_if_missing,
                t0 == old(self).trees@,
                roots == self.roots@,
                old(self).deletes@.len() > 0,
                wanted == delete_ids(old(self).deletes@),
                p == pending_of(old(self).deletes@, old(self).deletes@.len() as nat),
                p == pending_view(pending@),
                all_shrunk(t0, self.trees@, wanted),
                visited@.subset_of(t0.dom()),
                forall|id: TreeId| t0.dom().contains(id) && !visited@.contains(id) ==> self.trees@[id] == #[trigger] t0[id],
                forall|id: u64| has_id(p, id) ==> wanted.contains(id),
                pass_inv(t0, self.trees@, roots, p, visited@, Seq::empty(), found@),
                roots_seen(roots, visited@, ri as int),
            decreases self.roots@.len() - ri,
        {
            let mut stack: Vec<TreeId> = Vec::new();
            match &self.roots[ri] {
                Some(r) => {
                    stack.push(r.id);
                    proof {
                        assert(stack@ =~= seq![r.id]);
                        lemma_root_reached(t0, roots, p, ri as int);
                        assert forall|e: TreeId| #[trigger] stack@.contains(e) implies in_reach(t0, roots, p, e) by {
                            let i = choose|i: int| 0 <= i < stack@.len() && stack@[i] == e;
                            assert(e == r.id);
                        }
                        assert(stack@[0] == r.id);
                    }
                },
                None => {},
            }
            proof {
                lemma_pass_stack(t0, self.trees@, roots, p, visited@, Seq::empty(), stack@, found@);
            }
            while stack.len() > 0
                invariant
                    fields_ok(self.fields),
                    self.fields == old(self).fields,
                    self.inserts == old(self).inserts,
                    self.deletes == old(self).deletes,
                    self.inputs == old(self).inputs,
                    self.roots == old(self).roots,
                    self.next_tree == old(self).next_tree,
                    self.rebuild_depth == old(self).rebuild_depth,
                    self.error_if_missing == old(self).error_if_missing,
                    t0 == old(self).trees@,
                    roots == self.roots@,
                    old(self).deletes@.len() > 0,
                    wanted == delete_ids(old(self).deletes@),
                    p == pending_of(old(self).deletes@, old(self).deletes@.len() as nat),
                    p == pending_view(pending@),
                    all_shrunk(t0, self.trees@, wanted),
                    visited@.subset_of(t0.dom()),
                    t0.dom().finite(),
                    forall|id: TreeId|
                        t0.dom().contains(id) && !visited@.contains(id) ==> self.trees@[id] == #[trigger] t0[id],
                    forall|id: u64| has_id(p, id) ==> wanted.contains(id),
                    ri < self.roots@.len(),
                    pass_inv(t0, self.trees@, roots, p, visited@, stack@, found@),
                    roots_seen(roots, visited@, ri as int),
                    roots[ri as int] matches Some(r) ==> visited@.contains(r.id) || stack@.contains(r.id),
                decreases t0.dom().len() - visited@.len(), stack@.len(),
            {
                proof {
                    vstd::set_lib::lemma_len_subset(visited@, t0.dom());
                    lemma_pass_reached(t0, self.trees@, roots, p, visited@, stack@, found@);
                }
                let ghost st0 = stack@;
                let id = stack.pop().unwrap();
                let ghost st1 = stack@;
                proof {
                    assert(st0[st0.len() - 1] == id);
                    assert(st0.contains(id));
                    assert forall|e: TreeId| #[trigger] st0.contains(e) implies e == id || st1.contains(e) by {
                        let i = choose|i: int| 0 <= i < st0.len() && st0[i] == e;
                        if i < st1.len() {
                            assert(st1[i] == e);
                        }
                    }
                    assert forall|e: TreeId| #[trigger] st1.contains(e) implies st0.contains(e) by {
                        let i = choose|i: int| 0 <= i < st1.len() && st1[i] == e;
                        assert(st0[i] == e);
                    }
                }
                if visited.contains(&id) {
                    proof {
                        lemma_pass_stack(t0, self.trees@, roots, p, visited@, st0, st1, found@);
                    }
                    continue;
                }
                let ghost seen = visited@;
                let ghost f0 = found@;
                let ghost before = self.trees@;
                let (built, follow) = match self.trees.get(&id) {
                    None => {
                        proof {
                            assert forall|t: TreeId| t0.dom().contains(t) && !in_reach(t0, roots, p, t) implies self.trees@[t]
                                == #[trigger] t0[t] by {}
                        }
                        return Err(Error::Io { id });
                    },
                    Some(t) => t.remove(&pending, &mut found),
                };
                visited.insert(id);
                proof {
                    vstd::set_lib::lemma_len_subset(visited@, t0.dom());
                    assert(visited@.len() == seen.len() + 1);
                }
                let mut k: usize = 0;
                while k < follow.len()
                    invariant
                        k <= follow@.len(),
                        forall|e: TreeId| #[trigger] st1.contains(e) ==> stack@.contains(e),
                        forall|j: int| 0 <= j < k ==> stack@.contains(#[trigger] follow@[j]),
                        forall|e: TreeId| #[trigger] stack@.contains(e) ==> st1.contains(e) || follow@.contains(e),
                    decreases follow@.len() - k,
                {
                    let ghost sk = stack@;
                    stack.push(follow[k]);
                    proof {
                        assert forall|e: TreeId| #[trigger] sk.contains(e) implies stack@.contains(e) by {
                            let i = choose|i: int| 0 <= i < sk.len() && sk[i] == e;
                            assert(stack@[i] == e);
                        }
                        assert(stack@[sk.len() as int] == follow@[k as int]);
                        assert forall|e: TreeId| #[trigger] stack@.contains(e) implies st1.contains(e)
                            || follow@.contains(e) by {
                            let i = choose|i: int| 0 <= i < stack@.len() && stack@[i] == e;
                            if i < sk.len() {
                                assert(sk[i] == e);
                                assert(sk.contains(e));
                            } else {
                                assert(follow@[k as int] == e);
                            }
                        }
                    }
                    k += 1;
                }
                proof {
                    assert forall|e: TreeId| #[trigger] follow@.contains(e) implies stack@.contains(e) by {
                        let j = choose|j: int| 0 <= j < follow@.len() && follow@[j] == e;
                        assert(stack@.contains(follow@[j]));
                    }
                    assert forall|t: TreeId| t0.dom().contains(t) && !in_reach(t0, roots, p, t) implies self.trees@[t]
                        == #[trigger] t0[t] by {}
                }
                match built {
                    None => {
                        proof {
                            lemma_swept_same(t0[id], p);
                            lemma_pass_visit(
                                t0,
                                before,
                                self.trees@,
                                roots,
                                p,
                                seen,
                                st0,
                                stack@,
                                f0,
                                found@,
                                id,
                            );
                        }
                    },
                    Some((list, refs)) => {
                        let ghost rest = row_items(list@) + ref_items(refs@);
                        let t = match rebuild_tree(&self.fields, id, list, refs) {
                            Ok(t) => t,
                            Err(e) => {
                                proof {
                                    assert(in_reach(t0, roots, p, id));
                                    assert(rest == rest_of(t0[id], p));
                                    match e {
                                        Error::InvariantViolation { detail } => {
                                            assert(rest_fails(rest_of(t0[id], p), id, detail));
                                            assert(rebuild_fails(t0, roots, p, detail));
                                        },
                                        _ => {},
                                    }
                                }
                                return Err(e);
                            },
                        };
                        proof {
                            lemma_sweep(node_items(t0[id].root, false), p);
                            assert(shrunk(t0[id], t, wanted)) by {
                                let r0 = node_items(t0[id].root, false).to_multiset();
                                let r1 = node_items(t.root, false).to_multiset();
                                assert forall|x: Item| r1.count(x) < r0.count(x) implies wanted.contains(
                                    item_id(x),
                                ) by {
                                    assert(has_id(p, item_id(x)));
                                }
                            }
                            assert(swept(t0[id], t, p));
                        }
                        self.trees.put(&id, t);
                        proof {
                            assert(self.trees@.dom() =~= t0.dom());
                            assert forall|x: TreeId| #[trigger] t0.dom().contains(x) implies shrunk(
                                t0[x],
                                self.trees@[x],
                                wanted,
                            ) by {
                                if x != id {
                                    assert(self.trees@[x] == before[x]);
                                }
                            }
                            lemma_pass_visit(
                                t0,
                                before,
                                self.trees@,
                                roots,
                                p,
                                seen,
                                st0,
                                stack@,
                                f0,
                                found@,
                                id,
                            );
                        }
                    },
                }
            }
            proof {
                assert(stack@ =~= Seq::<TreeId>::empty());
            }
            ri += 1;
        }
        proof {
            lemma_pass_end(t0, self.trees@, roots, p, visited@, found@);
        }
        if self.error_if_missing {
            let mut ids: Vec<u64> = Vec::new();
            let mut k: usize = 0;
            while k < pending.len()
                invariant
                    k <= pending@.len(),
                    p == pending_view(pending@),
                    crate::delete::unique_ids(p),
                    ids@.no_duplicates(),
                    forall|x: u64|
                        #[trigger] ids@.contains(x) <==> !found@.contains(x) && exists|j: int|
                            0 <= j < k && (#[trigger] p[j]).0 == x,
                decreases pending@.len() - k,
            {
                let ghost i0 = ids@;
                let x = pending[k].0;
                assert(p[k as int].0 == x);
                if !found.contains(&x) {
                    ids.push(x);
                    proof {
                        assert(!i0.contains(x)) by {
                            if i0.contains(x) {
                                let j = choose|j: int| 0 <= j < k && (#[trigger] p[j]).0 == x;
                                assert(p[j].0 != p[k as int].0);
                            }
                        }
                        assert(ids@[i0.len() as int] == x);
                        assert forall|a: int, b: int| 0 <= a < ids@.len() && 0 <= b < ids@.len() && a != b implies ids@[a]
                            != ids@[b] by {
                            if a < i0.len() && b < i0.len() {
                                assert(i0[a] != i0[b]);
                            } else if a < i0.len() {
                                assert(i0.contains(i0[a]));
                            } else if b < i0.len() {
                                assert(i0.contains(i0[b]));
                            }
                        }
                        assert forall|y: u64| #[trigger] ids@.contains(y) <==> !found@.contains(y) && exists|j: int|
                            0 <= j < k + 1 && (#[trigger] p[j]).0 == y by {
                            if i0.contains(y) {
                                let i = choose|i: int| 0 <= i < i0.len() && i0[i] == y;
                                assert(ids@[i] == y);
                            }
                            if ids@.contains(y) {
                                let i = choose|i: int| 0 <= i < ids@.len() && ids@[i] == y;
                                if i < i0.len() {
                                    assert(i0[i] == y);
                                    assert(i0.contains(y));
                                }
                            }
                        }
                    }
                }
                k += 1;
            }
            proof {
                assert forall|x: u64| #[trigger] ids@.contains(x) <==> missing(t0, roots, p, x) by {
                    lemma_has_id(p, x);
                }
            }
            if ids.len() > 0 {
                proof {
                    assert(ids@.contains(ids@[0]));
                }
                return Err(Error::RemoveIdsMissing { ids });
            }
            proof {
                assert forall|x: u64| !missing(t0, roots, p, x) by {
                    if missing(t0, roots, p, x) {
                        assert(ids@.contains(x));
                    }
                }
            }
        }
        Ok(())
    }

    /// Makes the deletions, then folds the trees under the inputs back, to
    /// the depth of the merge, and builds a new tree from their records and
    /// the inserts. Nothing is written: the result names the root of the new
    /// tree, the ids of the trees that were folded back and are to be
    /// dropped, and the new trees. An error of the deletions is the error of
    /// the merge; after any error the next free id is what it was.
    pub fn merge(&mut self) -> (r: Result<(Option<TreeRef>, Vec<TreeId>, CreateTrees), Error>)
        requires
            fields_ok(old(self).fields),
        ensures
            final(self).fields == old(self).fields,
            final(self).inserts == old(self).inserts,
            final(self).deletes == old(self).deletes,
            final(self).inputs == old(self).inputs,
            final(self).roots == old(self).roots,
            final(self).rebuild_depth == old(self).rebuild_depth,
            final(self).error_if_missing == old(self).error_if_missing,
            all_shrunk(old(self).trees@, final(self).trees@, delete_ids(old(self).deletes@)),
            old(self).deletes@.len() == 0 ==> final(self).trees@ == old(self).trees@,
            r is Err ==> final(self).next_tree == old(self).next_tree,
            match r {
                Ok((tr, rm, created)) => {
                    &&& removed(
                        old(self).trees@,
                        final(self).trees@,
                        old(self).roots@,
                        pending_of(old(self).deletes@, old(self).deletes@.len()),
                        old(self).error_if_missing,
                        Ok(()),
                    )
                    &&& folds_ok(final(self).trees@, ref_items(old(self).inputs@), old(self).rebuild_depth as nat)
                    &&& items_fit(
                        merge_rows(final(self).trees@, old(self).inputs@, old(self).inserts@, old(self).rebuild_depth as nat),
                    )
                    &&& merged(
                        old(self).fields,
                        final(self).trees@,
                        old(self).inputs@,
                        old(self).inserts@,
                        old(self).rebuild_depth as nat,
                        old(self).next_tree,
                        final(self).next_tree,
                        tr,
                        rm@,
                        created@,
                    )
                },
                Err(e) => {
                    ||| removed(
                        old(self).trees@,
                        final(self).trees@,
                        old(self).roots@,
                        pending_of(old(self).deletes@, old(self).deletes@.len()),
                        old(self).error_if_missing,
                        Err(e),
                    )
                    ||| {
                        &&& removed(
                            old(self).trees@,
                            final(self).trees@,
                            old(self).roots@,
                            pending_of(old(self).deletes@, old(self).deletes@.len()),
                            old(self).error_if_missing,
                            Ok(()),
                        )
                        &&& rebuild_stops(
                            final(self).trees@,
                            old(self).inputs@,
                            old(self).inserts@,
                            old(self).rebuild_depth as nat,
                            old(self).next_tree,
                            e,
                        )
                    }
                },
            },
            pass_clean(
                old(self).trees@,
                old(self).roots@,
                pending_of(old(self).deletes@, old(self).deletes@.len()),
                old(self).error_if_missing,
            ) && folds_ok(final(self).trees@, ref_items(old(self).inputs@), old(self).rebuild_depth as nat)
                && items_fit(
                merge_rows(final(self).trees@, old(self).inputs@, old(self).inserts@, old(self).rebuild_depth as nat),
            ) && old(self).next_tree + 2 * merge_rows(
                final(self).trees@,
                old(self).inputs@,
                old(self).inserts@,
                old(self).rebuild_depth as nat,
            ).len() <= u64::MAX ==> r is Ok,
    {
        match self.remove() {
            Ok(()) => {},
            Err(e) => {
                return Err(e);
            },
        }
        let mut next = self.next_tree;
        let r = rebuild(&self.fields, &self.trees, &self.inputs, self.inserts, self.rebuild_depth, &mut next);
        self.next_tree = next;
        r
    }
}

} // verus!
