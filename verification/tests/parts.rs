use eyros::coord::Coord;
use eyros::coord::Coord::{Interval, Scalar};
use eyros::delete::start_pending;
use eyros::pivots::sort_pivots;
use eyros::query::{matching_mask, point_meets};
use eyros::range::{mask_of, partition, picks, Pick};
use eyros::remove::{find_pending, meets_pending, overlap, point_meets_point};
use eyros::segment::{cut_segments, record_bytes};
use eyros::error::{Error, Violation};
use eyros::merge::rebuild_tree;
use eyros::setup::{check_fields, SetupFields};
use std::collections::HashSet;
use eyros::span::get_bounds;
use eyros::tree::{clone_point, clone_row, Branch, InsertValue, Node, Tree, TreeRef, Value};

fn scalars<'a>(xs: &[i64], v: &'a Value) -> Vec<(Vec<Coord>, InsertValue<'a>)> {
    xs.iter().map(|x| (vec![Scalar(*x), Scalar(0)], InsertValue::Value(v))).collect()
}

#[test]
fn the_pivots_of_a_branch_lie_between_sorted_neighbours() {
    let v = Value { id: 0, data: vec![] };
    let rows = scalars(&[30, 10, 40, 20], &v);
    let mut f = SetupFields::default();
    f.inline = 1;
    f.ext_records = 0;
    let mut next = 0u64;
    let (tr, created) = Branch::build(&f, &rows, &mut next, false);
    match &created[&tr.unwrap().id].root {
        Node::Branch(b) => {
            assert_eq!(b.pivots, vec![15, 25, 35]);
            assert!(b.intersections.is_empty());
            assert_eq!(b.nodes.len(), 4);
        }
        Node::Data(..) => panic!("a leaf"),
    }
}

#[test]
fn pivots_are_put_in_order() {
    let mut ps = vec![5, -1, 5, 3, i64::MIN, 0];
    sort_pivots(&mut ps);
    assert_eq!(ps, vec![i64::MIN, -1, 0, 3, 5, 5]);
    let mut none: Vec<i64> = vec![];
    sort_pivots(&mut none);
    assert!(none.is_empty());
}

#[test]
fn the_mask_names_the_pivots_touched() {
    let pivots = vec![0, 10, 10, 20];
    assert_eq!(mask_of(&Scalar(10), &pivots), 0b0110);
    assert_eq!(mask_of(&Scalar(5), &pivots), 0);
    assert_eq!(mask_of(&Interval(0, 10), &pivots), 0b0111);
    assert_eq!(mask_of(&Interval(-5, 25), &pivots), 0b1111);
    assert_eq!(mask_of(&Interval(11, 19), &pivots), 0);
    assert!(picks(&Pick::Mask(0b0110), &Scalar(10), &pivots));
    assert!(!picks(&Pick::Mask(0b0100), &Scalar(10), &pivots));
    assert!(picks(&Pick::Below(0), &Interval(-9, -1), &pivots));
    assert!(!picks(&Pick::Below(0), &Interval(-9, 0), &pivots));
    assert!(picks(&Pick::Between(0, 10), &Interval(3, 4), &pivots));
    assert!(!picks(&Pick::Between(0, 10), &Scalar(11), &pivots));
    assert!(picks(&Pick::Above(20), &Scalar(21), &pivots));
    assert!(!picks(&Pick::Above(20), &Interval(20, 30), &pivots));
}

#[test]
fn a_partition_moves_what_passes_to_the_front() {
    let v = Value { id: 0, data: vec![] };
    let rows = scalars(&[5, -3, 7, -1, 0, 9, -8], &v);
    let mut sorted: Vec<usize> = (0..7).collect();
    let n = partition(&mut sorted, &rows, 1, 6, &Pick::Below(0), 0, &vec![0]);
    assert_eq!(n, 2);
    assert_eq!(sorted[0], 0);
    assert_eq!(sorted[6], 6);
    let mut front: Vec<usize> = sorted[1..3].to_vec();
    front.sort();
    assert_eq!(front, vec![1, 3]);
    let mut back: Vec<usize> = sorted[3..6].to_vec();
    back.sort();
    assert_eq!(back, vec![2, 4, 5]);
}

#[test]
fn the_box_around_a_range() {
    let v = Value { id: 0, data: vec![] };
    let rows = vec![
        (vec![Scalar(5), Interval(0, 9)], InsertValue::Value(&v)),
        (vec![Interval(-4, 2), Scalar(3)], InsertValue::Value(&v)),
        (vec![Scalar(100), Scalar(-100)], InsertValue::Value(&v)),
    ];
    let sorted = vec![2, 0, 1];
    assert_eq!(get_bounds(&sorted, &rows, 1, 3, 2), vec![Interval(-4, 5), Interval(0, 9)]);
    assert_eq!(get_bounds(&sorted, &rows, 0, 1, 2), vec![Interval(100, 100), Interval(-100, -100)]);
    assert_eq!(get_bounds(&sorted, &rows, 0, 3, 2), vec![Interval(-4, 100), Interval(-100, 9)]);
}

#[test]
fn a_leaf_is_cut_before_the_insert_that_would_exceed() {
    let values: Vec<Value> = [10usize, 10, 50, 10, 100, 5].iter().map(|n| Value { id: 1, data: vec![0; *n] }).collect();
    let rows: Vec<(Vec<Coord>, InsertValue)> =
        values.iter().map(|v| (vec![Scalar(0), Scalar(0)], InsertValue::Value(v))).collect();
    // a record of n bytes is reckoned at 17 + 4 + 1 + 1 + n
    assert_eq!(record_bytes(&rows[0]), 33);
    assert_eq!(record_bytes(&rows[4]), 123);
    let r = (
        vec![Interval(0, 1), Interval(0, 1)],
        InsertValue::Ref(TreeRef { id: 200, bounds: vec![Interval(0, 1), Scalar(4)] }),
    );
    assert_eq!(record_bytes(&r), 33 + 4 + 2 + 16);
    let sorted: Vec<usize> = (0..6).collect();
    // 33 + 33 fit into 100; 73 + 33 do not
    assert_eq!(cut_segments(&sorted, &rows, 0, 6, 100), vec![(0, 2), (2, 3), (3, 4), (4, 5), (5, 6)]);
    assert_eq!(cut_segments(&sorted, &rows, 0, 6, 110), vec![(0, 2), (2, 4), (4, 5), (5, 6)]);
    assert_eq!(cut_segments(&sorted, &rows, 0, 6, 1_000), vec![(0, 6)]);
    assert_eq!(cut_segments(&sorted, &rows, 1, 4, 1), vec![(1, 2), (2, 3), (3, 4)]);
}

#[test]
fn a_query_reaches_the_pivots_around_its_box() {
    let pivots = vec![10, 20, 30, 40];
    assert_eq!(matching_mask(&pivots, &0, &5), 0b0001);
    assert_eq!(matching_mask(&pivots, &12, &15), 0b0011);
    assert_eq!(matching_mask(&pivots, &20, &20), 0b0111);
    assert_eq!(matching_mask(&pivots, &25, &35), 0b1110);
    assert_eq!(matching_mask(&pivots, &45, &50), 0b1000);
    assert_eq!(matching_mask(&pivots, &0, &100), 0b1111);
    assert_eq!(matching_mask(&vec![7], &8, &9), 0b1);
    assert_eq!(matching_mask(&vec![7], &0, &6), 0b1);
    assert!(point_meets(&vec![Scalar(1), Interval(5, 9)], &(vec![0, 9], vec![1, 20])));
    assert!(!point_meets(&vec![Scalar(1), Interval(5, 9)], &(vec![0, 10], vec![1, 20])));
}

#[test]
fn a_query_of_one_tree_prunes_and_filters() {
    let row = |x: i64, y: i64, id: u64| (vec![Scalar(x), Scalar(y)], Value { id, data: vec![] });
    let t = Tree::new(Node::Branch(Branch::new(
        vec![10, 20],
        vec![(0b01, Node::Data(vec![row(10, 0, 1), row(10, 50, 2)], vec![]))],
        vec![
            Node::Data(vec![row(5, 0, 3)], vec![TreeRef { id: 70, bounds: vec![Interval(0, 9), Interval(0, 9)] }]),
            Node::Data(vec![row(15, 0, 4), row(12, 7, 5)], vec![]),
            Node::Data(vec![row(25, 0, 6)], vec![TreeRef { id: 71, bounds: vec![Interval(21, 30), Interval(0, 0)] }]),
        ],
    )));
    let ids = |bbox: (Vec<i64>, Vec<i64>)| {
        let (rows, refs) = t.query_local(&bbox);
        (rows.iter().map(|r| r.1.id).collect::<Vec<_>>(), refs.iter().map(|r| r.id).collect::<Vec<_>>())
    };
    assert_eq!(ids((vec![0, 0], vec![100, 100])), (vec![1, 2, 3, 4, 5, 6], vec![70, 71]));
    assert_eq!(ids((vec![10, 0], vec![12, 10])), (vec![1, 5], vec![]));
    assert_eq!(ids((vec![21, 0], vec![22, 0])), (vec![], vec![71]));
    assert_eq!(ids((vec![0, 1], vec![9, 9])), (vec![], vec![70]));
    assert_eq!(ids((vec![-5, -5], vec![-1, -1])), (vec![], vec![]));
    let (rows, refs) = t.list();
    assert_eq!(rows.iter().map(|r| r.1.id).collect::<Vec<_>>(), vec![1, 2, 3, 4, 5, 6]);
    assert_eq!(refs.iter().map(|r| r.id).collect::<Vec<_>>(), vec![70, 71]);
    assert_eq!(t.list_refs().iter().map(|r| r.id).collect::<Vec<_>>(), vec![70, 71]);
}

#[test]
fn every_record_with_a_deleted_id_leaves() {
    let row = |x: i64, id: u64| (vec![Scalar(x), Scalar(0)], Value { id, data: vec![] });
    let near = TreeRef { id: 8, bounds: vec![Interval(0, 10), Interval(0, 10)] };
    let far = TreeRef { id: 9, bounds: vec![Interval(50, 60), Interval(0, 10)] };
    let t = Tree::new(Node::Data(vec![row(1, 1), row(2, 2), row(3, 1), row(4, 3)], vec![near, far]));
    let pending = start_pending(&vec![
        (vec![Scalar(1), Scalar(0)], 1),
        (vec![Scalar(4), Scalar(0)], 3),
        (vec![Scalar(55), Scalar(5)], 40),
        (vec![Scalar(999), Scalar(0)], 1),
    ]);
    assert_eq!(pending.iter().map(|p| p.0).collect::<Vec<_>>(), vec![1, 3, 40]);
    assert_eq!(pending[0].1, vec![Scalar(999), Scalar(0)]);
    assert_eq!(find_pending(&pending, 3), Some(1));
    assert_eq!(find_pending(&pending, 4), None);
    assert!(meets_pending(&vec![Interval(50, 60), Interval(0, 10)], &pending));
    assert!(meets_pending(&vec![Interval(0, 10), Interval(0, 10)], &pending));
    assert!(!meets_pending(&vec![Interval(100, 200), Interval(0, 10)], &pending));
    assert!(!point_meets_point(&vec![Scalar(1)], &vec![Scalar(1), Scalar(1)]));
    let mut found = HashSet::new();
    found.insert(77u64);
    let (left, follow) = t.remove(&pending, &mut found);
    let (rows, refs) = left.unwrap();
    assert_eq!(rows.iter().map(|r| r.1.id).collect::<Vec<_>>(), vec![2]);
    assert_eq!(refs.len(), 2);
    assert_eq!(follow, vec![8, 9]);
    let mut ids: Vec<u64> = found.iter().cloned().collect();
    ids.sort();
    assert_eq!(ids, vec![1, 3, 77]);
    let rest = Tree::new(Node::Data(rows, refs));
    let mut found = HashSet::new();
    let (left, follow) = rest.remove(&pending, &mut found);
    assert!(left.is_none());
    assert!(found.is_empty());
    assert_eq!(follow, vec![8, 9]);
}

#[test]
fn what_is_left_of_a_tree_is_one_tree() {
    let f = SetupFields::default();
    let t = rebuild_tree(&f, 5, vec![], vec![]).unwrap();
    assert!(matches!(&t.root, Node::Data(a, b) if a.is_empty() && b.is_empty()));
    let row = |x: i64, id: u64| (vec![Scalar(x), Scalar(0)], Value { id, data: vec![7; 10] });
    let rows: Vec<_> = (0..40i64).map(|x| row(x, x as u64)).collect();
    // the size at which a leaf is cut does not count for what is left
    let mut small = SetupFields::default();
    small.inline_max_bytes = 10;
    let t = rebuild_tree(&small, 5, rows, vec![]).unwrap();
    let (list, refs) = t.list();
    let mut ids: Vec<u64> = list.iter().map(|r| r.1.id).collect();
    ids.sort();
    assert_eq!(ids, (0..40u64).collect::<Vec<_>>());
    assert!(refs.is_empty());
    let mixed = vec![(vec![Scalar(1)], Value { id: 1, data: vec![] })];
    assert!(matches!(
        rebuild_tree(&f, 5, mixed, vec![]),
        Err(Error::InvariantViolation { detail: Violation::MalformedInput })
    ));
    assert!(matches!(
        rebuild_tree(&f, u64::MAX, vec![row(1, 1)], vec![]),
        Err(Error::InvariantViolation { detail: Violation::OutOfIds })
    ));
    assert!(check_fields(&f));
    let mut bad = f;
    bad.branch_factor = 34;
    assert!(!check_fields(&bad));
    bad.branch_factor = 2;
    bad.max_depth = 0;
    assert!(!check_fields(&bad));
}

#[test]
fn copies_are_equal() {
    let p = vec![Scalar(1), Interval(2, 3)];
    assert_eq!(clone_point(&p), p);
    let r = (p.clone(), Value { id: 4, data: vec![1, 2, 3] });
    let c = clone_row(&r);
    assert_eq!((c.0, c.1.id, c.1.data), (p, 4, vec![1, 2, 3]));
}

#[test]
fn a_built_tree_has_the_shape_of_its_arity() {
    let v = Value { id: 0, data: vec![] };
    let rows = scalars(&[30, 10, 40, 20, 50, 60], &v);
    let mut f = SetupFields::default();
    f.inline = 1;
    f.ext_records = 0;
    let mut next = 0u64;
    let (tr, created) = Branch::build(&f, &rows, &mut next, false);
    let tree = &created[&tr.unwrap().id];
    assert!(tree.has_shape(2));
    assert!(!tree.has_shape(3));
    assert!(Tree::empty().has_shape(2));
    assert!(Tree::empty().has_shape(5));
}

#[test]
fn a_tree_out_of_shape_is_told() {
    let row = |p: Vec<Coord>| (p, Value { id: 1, data: vec![] });
    let mixed = Tree::new(Node::Data(vec![row(vec![Scalar(1), Scalar(2)]), row(vec![Scalar(1)])], vec![]));
    assert!(!mixed.has_shape(2));
    assert!(!mixed.has_shape(1));
    let short = Tree::new(Node::Data(vec![], vec![TreeRef { id: 0, bounds: vec![Scalar(1)] }]));
    assert!(!short.has_shape(2));
    assert!(short.has_shape(1));
    let leaf = || Node::Data(vec![], vec![]);
    let no_pivots = Tree::new(Node::Branch(Branch::new(vec![], vec![], vec![leaf()])));
    assert!(!no_pivots.has_shape(2));
    let gaps_short = Tree::new(Node::Branch(Branch::new(vec![5], vec![], vec![leaf()])));
    assert!(!gaps_short.has_shape(2));
    let fine = Tree::new(Node::Branch(Branch::new(vec![5], vec![], vec![leaf(), leaf()])));
    assert!(fine.has_shape(2));
    let deep = Tree::new(Node::Branch(Branch::new(
        vec![5],
        vec![(1, Node::Data(vec![row(vec![Scalar(5)])], vec![]))],
        vec![leaf(), leaf()],
    )));
    assert!(!deep.has_shape(2));
}

#[test]
fn boxes_overlap_when_they_meet_on_every_axis() {
    let a = (vec![0, 0], vec![10, 10]);
    assert!(overlap(&a, &(vec![10, 10], vec![20, 20])));
    assert!(overlap(&a, &(vec![-5, 3], vec![0, 4])));
    assert!(overlap(&a, &(vec![2, 2], vec![3, 3])));
    assert!(!overlap(&a, &(vec![11, 0], vec![20, 10])));
    assert!(!overlap(&a, &(vec![0, -9], vec![10, -1])));
    assert!(!overlap(&a, &(vec![0], vec![10])));
    assert!(!overlap(&a, &(vec![0, 0], vec![10])));
    assert!(overlap(&(vec![], vec![]), &(vec![], vec![])));
}
