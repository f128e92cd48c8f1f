use eyros::coord::Coord;
use eyros::error::{Error, Violation};
use eyros::merge::{check_inserts, rebuild, Merge};
use eyros::setup::SetupFields;
use eyros::stream::{QAction, QState};
use eyros::tree::{Branch, Build, InsertValue, Node, Tree, TreeRef, Value};
use eyros::tree_file::{get_file_from_id, TreeFile};
use random::Source;
use std::collections::{HashMap, HashSet};

type Point = Vec<Coord>;
type Bounds = (Vec<i64>, Vec<i64>);

fn fields(max_tree_bytes: usize) -> SetupFields {
    let mut f = SetupFields::default();
    f.max_tree_bytes = max_tree_bytes;
    f
}

fn inserts<'a>(rows: &'a [(Point, Value)]) -> Vec<(Point, InsertValue<'a>)> {
    rows.iter().map(|(p, v)| (p.clone(), InsertValue::Value(v))).collect()
}

fn given<'a>(rows: &'a [(Point, Value)]) -> Vec<(&'a Point, &'a Value)> {
    rows.iter().map(|(p, v)| (p, v)).collect()
}

fn meets(p: &Point, bbox: &Bounds) -> bool {
    p.iter().enumerate().all(|(a, c)| match c {
        Coord::Scalar(x) => bbox.0[a] <= *x && *x <= bbox.1[a],
        Coord::Interval(lo, hi) => *hi >= bbox.0[a] && *lo <= bbox.1[a],
    })
}

/// Runs the coordinator over the registry, looking each dispatched
/// reference up at once, and returns the ids found and the trees visited.
fn query(trees: &TreeFile, roots: &[TreeRef], bbox: &Bounds, nproc: usize) -> (Vec<u64>, Vec<u64>) {
    let mut ids = vec![];
    let mut visited = vec![];
    for root in roots {
        visited.push(root.id);
        let (rows, refs) = trees.get(&root.id).unwrap().query_local(bbox);
        let mut state = QState::new(rows, refs);
        let mut waiting: Vec<TreeRef> = vec![];
        loop {
            match state.next(nproc) {
                QAction::Emit(row) => ids.push(row.1.id),
                QAction::Dispatch(out) => {
                    assert!(!out.is_empty() && out.len() <= nproc);
                    waiting.extend(out);
                }
                QAction::Await => {
                    let r = waiting.remove(0);
                    visited.push(r.id);
                    let (rows, refs) = trees.get(&r.id).unwrap().query_local(bbox);
                    state.on_result(rows, refs);
                }
                QAction::Done => break,
            }
        }
        assert!(waiting.is_empty());
    }
    ids.sort();
    (ids, visited)
}

fn registry(created: HashMap<u64, Tree>) -> TreeFile {
    let mut trees = TreeFile::new();
    for (id, t) in created {
        trees.put(&id, t);
    }
    trees
}

fn all_refs(node: &Node, out: &mut Vec<TreeRef>) {
    match node {
        Node::Data(_, refs) => out.extend(refs.iter().cloned()),
        Node::Branch(b) => {
            for (_, c) in b.intersections.iter() {
                all_refs(c, out);
            }
            for c in b.nodes.iter() {
                all_refs(c, out);
            }
        }
    }
}

/// Checks what every tree must keep: ascending pivots, one gap child more
/// than pivots, records in a gap strictly inside it, and records under a
/// mask touching exactly its pivots.
fn check_placed(node: &Node, level: usize, dim: usize) {
    if let Node::Branch(b) = node {
        let a = level % dim;
        assert!(!b.pivots.is_empty() && b.pivots.len() <= 32);
        assert!(b.pivots.windows(2).all(|w| w[0] <= w[1]));
        assert_eq!(b.nodes.len(), b.pivots.len() + 1);
        let ends = |c: &Coord| match c {
            Coord::Scalar(x) => (*x, *x),
            Coord::Interval(lo, hi) => (*lo, *hi),
        };
        let points = |n: &Node| -> Vec<Point> {
            let t = Tree { root: clone_node(n) };
            let (rows, refs) = t.list();
            rows.into_iter().map(|r| r.0).chain(refs.into_iter().map(|r| r.bounds)).collect()
        };
        for (m, c) in b.intersections.iter() {
            assert_ne!(*m, 0);
            for p in points(c) {
                let (lo, hi) = ends(&p[a]);
                for (i, pv) in b.pivots.iter().enumerate() {
                    assert_eq!(lo <= *pv && *pv <= hi, m & (1 << i) != 0);
                }
            }
            check_placed(c, level + 1, dim);
        }
        let n = b.pivots.len();
        for (k, c) in b.nodes.iter().enumerate() {
            for p in points(c) {
                let (lo, hi) = ends(&p[a]);
                if k == 0 {
                    assert!(hi < b.pivots[0]);
                } else if k < n {
                    assert!(b.pivots[k - 1] < lo && hi < b.pivots[k]);
                } else {
                    assert!(lo > b.pivots[n - 1]);
                }
            }
            check_placed(c, level + 1, dim);
        }
    }
}

fn clone_node(n: &Node) -> Node {
    match n {
        Node::Data(rows, refs) => Node::Data(
            rows.iter().map(|r| (r.0.clone(), r.1.clone())).collect(),
            refs.clone(),
        ),
        Node::Branch(b) => Node::Branch(Branch::new(
            b.pivots.clone(),
            b.intersections.iter().map(|(m, c)| (*m, clone_node(c))).collect(),
            b.nodes.iter().map(clone_node).collect(),
        )),
    }
}

fn six_rows() -> Vec<(Point, Value)> {
    // the coordinates are tenths
    vec![
        (vec![Coord::Scalar(10), Coord::Scalar(30)], Value { id: 1, data: vec![1; 1_000] }),
        (vec![Coord::Scalar(10), Coord::Scalar(20)], Value { id: 2, data: vec![2; 2_000] }),
        (vec![Coord::Interval(60, 90), Coord::Interval(40, 50)], Value { id: 3, data: vec![3; 1_000] }),
        (vec![Coord::Interval(-25, 5), Coord::Scalar(-12)], Value { id: 4, data: vec![4; 2_000] }),
        (vec![Coord::Scalar(-45), Coord::Interval(-55, -12)], Value { id: 5, data: vec![5; 1_000] }),
        (vec![Coord::Interval(-90, -80), Coord::Interval(-40, 40)], Value { id: 6, data: vec![6; 1_000] }),
    ]
}

#[test]
fn build_nothing() {
    let mut next = 7u64;
    let (tr, trees) = Branch::build(&fields(5_000), &[], &mut next, false);
    assert!(tr.is_none());
    assert!(trees.is_empty());
    assert_eq!(next, 7);
}

#[test]
fn max_tree_bytes_1() {
    let max_tree_bytes = 5_000;
    let rows = six_rows();
    let mut m = Merge {
        fields: fields(max_tree_bytes),
        inserts: &given(&rows),
        deletes: vec![],
        inputs: vec![],
        roots: vec![],
        trees: TreeFile::new(),
        next_tree: 0,
        rebuild_depth: 2,
        error_if_missing: false,
    };
    let (tr, rm, created) = m.merge().unwrap();
    assert!(rm.is_empty());
    let next = m.next_tree;
    let tr = tr.unwrap();
    assert_eq!(tr.id + 1, next);
    assert_eq!(created.len() as u64, next);
    assert_eq!(tr.bounds, vec![Coord::Interval(-90, 90), Coord::Interval(-55, 50)]);
    let trees = registry(created);
    let bbox = (vec![-100, -100], vec![100, 100]);
    let (ids, visited) = query(&trees, &[tr.clone()], &bbox, 2);
    assert_eq!(ids.len(), 6);
    assert_eq!(ids, vec![1, 2, 3, 4, 5, 6]);
    assert!(visited.len() > 1);
    for id in visited {
        let bytes = trees.get(&id).unwrap().count_bytes();
        assert!(bytes <= max_tree_bytes, "{} <= {}", bytes, max_tree_bytes);
    }
    let (ids, _) = query(&trees, &[tr], &(vec![0, 0], vec![100, 100]), 2);
    assert_eq!(ids, vec![1, 2, 3]);
}

fn random_batch(r: &mut random::Default, first_id: u64, size: usize) -> Vec<(Point, Value)> {
    let scale = |x: f32| (x * 1_000_000.0) as i64;
    (0..size)
        .map(|k| {
            let n = (r.read::<f32>() * 500.0 + 1.0) as usize;
            let data = r.iter().take(n).collect::<Vec<u8>>();
            let point = if r.read::<f32>() > 0.5 {
                let xmin: f32 = r.read::<f32>() * 2.0 - 1.0;
                let xmax: f32 = xmin + r.read::<f32>().powf(2.0) * (1.0 - xmin);
                let ymin: f32 = r.read::<f32>() * 2.0 - 1.0;
                let ymax: f32 = ymin + r.read::<f32>().powf(2.0) * (1.0 - ymin);
                vec![
                    Coord::Interval(scale(xmin), scale(xmax)),
                    Coord::Interval(scale(ymin), scale(ymax)),
                ]
            } else {
                let x: f32 = r.read::<f32>() * 2.0 - 1.0;
                let y: f32 = r.read::<f32>() * 2.0 - 1.0;
                vec![Coord::Scalar(scale(x)), Coord::Scalar(scale(y))]
            };
            (point, Value { id: first_id + k as u64, data })
        })
        .collect()
}

#[test]
fn max_tree_bytes_2() {
    let max_tree_bytes = 250_000;
    let mut r = random::default().seed([13, 12]);
    let (batch_size, nbatches) = (1_000, 10);
    let f = fields(max_tree_bytes);
    let mut trees = TreeFile::new();
    let mut roots: Vec<TreeRef> = vec![];
    let mut next = 0u64;
    let mut all: Vec<(Point, Value)> = vec![];
    for b in 0..nbatches {
        let batch = random_batch(&mut r, (b * batch_size) as u64, batch_size);
        // each batch is merged into the forest as a root of its own
        let mut m = Merge {
            fields: f,
            inserts: &given(&batch),
            deletes: vec![],
            inputs: vec![],
            roots: roots.iter().cloned().map(Some).collect(),
            trees,
            next_tree: next,
            rebuild_depth: 2,
            error_if_missing: false,
        };
        let (tr, rm, created) = m.merge().unwrap();
        assert!(rm.is_empty());
        next = m.next_tree;
        trees = m.trees;
        for (id, t) in created {
            check_placed(&t.root, 0, 2);
            trees.put(&id, t);
        }
        roots.push(tr.unwrap());
        all.extend(batch);
    }
    let bbox = (vec![-10_000_000, -10_000_000], vec![10_000_000, 10_000_000]);
    let (ids, visited) = query(&trees, &roots, &bbox, 4);
    assert_eq!(ids.len(), batch_size * nbatches);
    assert_eq!(ids, (0..(batch_size * nbatches) as u64).collect::<Vec<_>>());
    assert_eq!(visited.len(), trees.len());
    for id in visited {
        let bytes = trees.get(&id).unwrap().count_bytes();
        assert!(bytes <= max_tree_bytes, "{} <= {}", bytes, max_tree_bytes);
    }
    // a smaller box finds exactly what meets it
    let bbox = (vec![-250_000, 100_000], vec![400_000, 900_000]);
    let (ids, _) = query(&trees, &roots, &bbox, 3);
    let mut want: Vec<u64> = all.iter().filter(|(p, _)| meets(p, &bbox)).map(|(_, v)| v.id).collect();
    want.sort();
    assert_eq!(ids, want);
}

#[test]
fn every_reference_carries_the_tight_box_of_its_tree() {
    let mut r = random::default().seed([7, 7]);
    let batch = random_batch(&mut r, 0, 3_000);
    let mut next = 10u64;
    let (tr, created) = Branch::build(&fields(100_000), &inserts(&batch), &mut next, false);
    let tr = tr.unwrap();
    assert!(created.len() > 1);
    let mut refs = vec![tr];
    for t in created.values() {
        all_refs(&t.root, &mut refs);
    }
    assert_eq!(refs.len(), created.len());
    let ids: HashSet<u64> = refs.iter().map(|r| r.id).collect();
    assert_eq!(ids, created.keys().cloned().collect::<HashSet<u64>>());
    for r in refs {
        let (rows, inner) = created[&r.id].list();
        for a in 0..2 {
            let los = rows.iter().map(|x| &x.0).chain(inner.iter().map(|x| &x.bounds)).map(|p| match p[a] {
                Coord::Scalar(x) => x,
                Coord::Interval(lo, _) => lo,
            });
            let his = rows.iter().map(|x| &x.0).chain(inner.iter().map(|x| &x.bounds)).map(|p| match p[a] {
                Coord::Scalar(x) => x,
                Coord::Interval(_, hi) => hi,
            });
            assert_eq!(r.bounds[a], Coord::Interval(los.min().unwrap(), his.max().unwrap()));
        }
    }
}

#[test]
fn rows_on_one_line_still_answer_queries_on_the_other_axis() {
    let rows: Vec<(Point, Value)> = (0..4_000)
        .map(|k| (vec![Coord::Scalar(0), Coord::Scalar(k as i64 * 3 - 6_000)], Value { id: k, data: vec![9; 4] }))
        .collect();
    let mut f = fields(1_000_000);
    f.ext_records = 100;
    let mut next = 0u64;
    let (tr, created) = Branch::build(&f, &inserts(&rows), &mut next, false);
    let tr = tr.unwrap();
    match &created[&tr.id].root {
        Node::Branch(b) => assert!(b.pivots.iter().all(|p| *p == 0)),
        Node::Data(data, refs) => assert_eq!(data.len() + refs.len(), 4_000),
    }
    let trees = registry(created);
    for bbox in [
        (vec![-1, -100], vec![1, 100]),
        (vec![0, 5_000], vec![0, 5_999]),
        (vec![1, -10_000], vec![5, 10_000]),
        (vec![-5, -6_000], vec![0, -6_000]),
    ] {
        let (ids, _) = query(&trees, &[tr.clone()], &bbox, 2);
        let mut want: Vec<u64> = rows.iter().filter(|(p, _)| meets(p, &bbox)).map(|(_, v)| v.id).collect();
        want.sort();
        assert_eq!(ids, want);
    }
}

#[test]
fn a_build_is_deep_where_the_options_say_so() {
    let rows: Vec<(Point, Value)> = (0..600)
        .map(|k| {
            let k = k as i64;
            (
                vec![Coord::Scalar((k * 7919) % 1_000), Coord::Interval(k, k + (k % 50)), Coord::Scalar(-k)],
                Value { id: k as u64, data: vec![1; (k % 30) as usize] },
            )
        })
        .collect();
    let mut f = SetupFields::default();
    f.branch_factor = 3;
    f.inline = 4;
    f.ext_records = 2;
    f.max_depth = 3;
    f.max_records = 200;
    f.inline_max_bytes = 1_000;
    f.max_tree_bytes = 1_000;
    let mut next = 100u64;
    let (tr, created) = Branch::build(&f, &inserts(&rows), &mut next, false);
    let tr = tr.unwrap();
    assert!(created.len() > 10);
    assert!(created.keys().all(|id| 100 <= *id && *id < next));
    for t in created.values() {
        check_placed(&t.root, 0, 3);
    }
    let trees = registry(created);
    let bbox = (vec![100, 0, -400], vec![300, 450, -20]);
    let (ids, _) = query(&trees, &[tr.clone()], &bbox, 1);
    let mut want: Vec<u64> = rows.iter().filter(|(p, _)| meets(p, &bbox)).map(|(_, v)| v.id).collect();
    want.sort();
    assert!(!want.is_empty());
    assert_eq!(ids, want);
    let (ids, _) = query(&trees, &[tr], &(vec![0, 0, -1_000], vec![1_000, 1_000, 0]), 8);
    assert_eq!(ids.len(), 600);
}

#[test]
fn a_fresh_build_starts_at_the_root() {
    let b = Build { level: 3, range: (4, 9), count: 17, bytes: 1_000 };
    let e = b.ext();
    assert_eq!((e.level, e.range, e.count, e.bytes), (0, (4, 9), 0, 0));
}

#[test]
fn the_default_options() {
    let f = SetupFields::default();
    assert_eq!(f.branch_factor, 6);
    assert_eq!(f.inline, 500);
    assert_eq!(f.rebuild_depth, 2);
}

#[test]
fn malformed_rows_are_told_apart() {
    let v = Value { id: 1, data: vec![] };
    let ok = vec![(vec![Coord::Scalar(1), Coord::Interval(2, 3)], InsertValue::Value(&v))];
    assert!(check_inserts(&ok));
    assert!(check_inserts(&[]));
    let one_axis = vec![(vec![Coord::Scalar(1)], InsertValue::Value(&v))];
    assert!(!check_inserts(&one_axis));
    let backwards = vec![(vec![Coord::Scalar(1), Coord::Interval(3, 2)], InsertValue::Value(&v))];
    assert!(!check_inserts(&backwards));
    let mixed = vec![
        (vec![Coord::Scalar(1), Coord::Scalar(1)], InsertValue::Value(&v)),
        (vec![Coord::Scalar(1), Coord::Scalar(1), Coord::Scalar(1)], InsertValue::Value(&v)),
    ];
    assert!(!check_inserts(&mixed));
    let astray = vec![(
        vec![Coord::Scalar(1), Coord::Scalar(1)],
        InsertValue::Ref(TreeRef { id: 3, bounds: vec![Coord::Interval(0, 1), Coord::Interval(0, 1)] }),
    )];
    assert!(!check_inserts(&astray));
}

fn thousand_points() -> Vec<(Point, Value)> {
    (0..1_000u64)
        .map(|k| {
            let x = (k as i64 * 37) % 1_000 - 500;
            let y = (k as i64 * 101) % 1_000 - 500;
            (vec![Coord::Scalar(x), Coord::Scalar(y)], Value { id: k, data: vec![k as u8; 10] })
        })
        .collect()
}

#[test]
fn deleted_records_are_gone_and_the_others_stay() {
    let rows = thousand_points();
    let f = fields(100_000);
    let mut next = 0u64;
    let (tr, created) = Branch::build(&f, &inserts(&rows), &mut next, false);
    let tr = tr.unwrap();
    let deletes: Vec<(Point, u64)> =
        rows.iter().filter(|(_, v)| v.id % 3 == 0).map(|(p, v)| (p.clone(), v.id)).collect();
    let more = vec![(vec![Coord::Scalar(1_000), Coord::Scalar(1_000)], Value { id: 5_000, data: vec![] })];
    let mut m = Merge {
        fields: f,
        inserts: &given(&more),
        deletes,
        inputs: vec![],
        roots: vec![Some(tr.clone()), None],
        trees: registry(created),
        next_tree: next,
        rebuild_depth: 2,
        error_if_missing: true,
    };
    let (new_root, rm, made) = m.merge().unwrap();
    assert!(rm.is_empty());
    let mut trees = m.trees;
    for (id, t) in made {
        trees.put(&id, t);
    }
    let bbox = (vec![-2_000, -2_000], vec![2_000, 2_000]);
    let (ids, _) = query(&trees, &[tr, new_root.unwrap()], &bbox, 2);
    let mut want: Vec<u64> = (0..1_000u64).filter(|k| k % 3 != 0).collect();
    want.push(5_000);
    assert_eq!(ids, want);
}

#[test]
fn a_deletion_that_finds_nothing_is_an_error_when_asked() {
    let rows = thousand_points();
    let f = fields(100_000);
    let mut next = 0u64;
    let (tr, created) = Branch::build(&f, &inserts(&rows), &mut next, false);
    let deletes = vec![
        (rows[5].0.clone(), 5u64),
        (vec![Coord::Scalar(0), Coord::Scalar(0)], 77_777u64),
        (vec![Coord::Scalar(1), Coord::Scalar(1)], 77_777u64),
    ];
    let mut m = Merge {
        fields: f,
        inserts: &[],
        deletes: deletes.clone(),
        inputs: vec![],
        roots: vec![tr.clone()],
        trees: registry(created),
        next_tree: next,
        rebuild_depth: 2,
        error_if_missing: true,
    };
    match m.remove() {
        Err(Error::RemoveIdsMissing { ids }) => assert_eq!(ids, vec![77_777]),
        other => panic!("{:?}", other),
    }
    // the record that was found is gone all the same
    let (ids, _) = query(&m.trees, &[tr.clone().unwrap()], &(vec![-500, -500], vec![500, 500]), 2);
    assert_eq!(ids.len(), 999);
    assert!(!ids.contains(&5));
    // without the flag the same deletions pass
    m.error_if_missing = false;
    m.deletes = deletes;
    assert!(m.remove().is_ok());
}

#[test]
fn a_tree_that_is_not_there_is_an_error() {
    let mut m = Merge {
        fields: SetupFields::default(),
        inserts: &[],
        deletes: vec![(vec![Coord::Scalar(0), Coord::Scalar(0)], 1)],
        inputs: vec![TreeRef { id: 9, bounds: vec![Coord::Interval(0, 1), Coord::Interval(0, 1)] }],
        roots: vec![Some(TreeRef { id: 4, bounds: vec![Coord::Interval(0, 1), Coord::Interval(0, 1)] })],
        trees: TreeFile::new(),
        next_tree: 10,
        rebuild_depth: 2,
        error_if_missing: false,
    };
    assert!(matches!(m.remove(), Err(Error::Io { id: 4 })));
    m.deletes = vec![];
    assert!(matches!(m.merge(), Err(Error::Io { id: 9 })));
}

#[test]
fn rows_that_do_not_fit_a_build_are_an_error() {
    let good = Value { id: 1, data: vec![] };
    let p2 = vec![Coord::Scalar(0), Coord::Scalar(0)];
    let p3 = vec![Coord::Scalar(0), Coord::Scalar(0), Coord::Scalar(0)];
    let rows = vec![(&p2, &good), (&p3, &good)];
    let trees = TreeFile::new();
    let mut next = 0u64;
    let r = rebuild(&SetupFields::default(), &trees, &vec![], &rows, 2, &mut next);
    assert!(matches!(r, Err(Error::InvariantViolation { detail: Violation::MalformedInput })));
    let rows = vec![(&p2, &good)];
    let mut next = u64::MAX - 1;
    let r = rebuild(&SetupFields::default(), &trees, &vec![], &rows, 2, &mut next);
    assert!(matches!(r, Err(Error::InvariantViolation { detail: Violation::OutOfIds })));
    assert_eq!(next, u64::MAX - 1);
}

#[test]
fn a_merge_folds_trees_back_and_names_them_for_removal() {
    let mut r = random::default().seed([1, 2]);
    let first = random_batch(&mut r, 0, 2_000);
    let second = random_batch(&mut r, 2_000, 700);
    let mut f = fields(200_000);
    f.ext_records = 100;
    let mut next = 0u64;
    let (tr, created) = Branch::build(&f, &inserts(&first), &mut next, false);
    let tr = tr.unwrap();
    assert!(created.len() > 2);
    let before: HashSet<u64> = created.keys().cloned().collect();
    let mut m = Merge {
        fields: f,
        inserts: &given(&second),
        deletes: vec![],
        inputs: vec![tr.clone()],
        roots: vec![Some(tr.clone())],
        trees: registry(created),
        next_tree: next,
        rebuild_depth: 1,
        error_if_missing: false,
    };
    let (new_root, rm, made) = m.merge().unwrap();
    let new_root = new_root.unwrap();
    // only the root was folded back
    assert_eq!(rm, vec![tr.id]);
    let made_ids: HashSet<u64> = made.keys().cloned().collect();
    assert!(rm.iter().all(|id| !made_ids.contains(id)));
    assert!(made_ids.iter().all(|id| *id >= next && *id < m.next_tree));
    let surviving: HashSet<u64> = before.iter().filter(|id| !rm.contains(id)).cloned().collect();
    let mut refs = vec![];
    for t in made.values() {
        all_refs(&t.root, &mut refs);
    }
    assert!(refs.iter().all(|r| surviving.contains(&r.id) || made_ids.contains(&r.id)));
    assert!(refs.iter().any(|r| surviving.contains(&r.id)));
    // everything is found under the new root
    let mut trees = m.trees;
    for id in rm {
        trees.remove(&id);
    }
    for (id, t) in made {
        trees.put(&id, t);
    }
    let bbox = (vec![-10_000_000, -10_000_000], vec![10_000_000, 10_000_000]);
    let (ids, _) = query(&trees, &[new_root], &bbox, 4);
    assert_eq!(ids, (0..2_700u64).collect::<Vec<_>>());
}

#[test]
fn a_query_given_up_leaves_everything_as_it_was() {
    let mut r = random::default().seed([3, 4]);
    let rows = random_batch(&mut r, 0, 12_000);
    let mut next = 0u64;
    let (tr, created) = Branch::build(&fields(100_000), &inserts(&rows), &mut next, false);
    let tr = tr.unwrap();
    let trees = registry(created);
    let sizes: HashMap<u64, usize> = (0..next).map(|id| (id, trees.get(&id).unwrap().count_bytes())).collect();
    let bbox = (vec![-10_000_000, -10_000_000], vec![10_000_000, 10_000_000]);
    let (rows, refs) = trees.get(&tr.id).unwrap().query_local(&bbox);
    let mut state = QState::new(rows, refs);
    let mut waiting: Vec<TreeRef> = vec![];
    let mut seen = 0;
    while seen < 10 {
        match state.next(2) {
            QAction::Emit(_) => seen += 1,
            QAction::Dispatch(out) => waiting.extend(out),
            QAction::Await => {
                let r = waiting.remove(0);
                let (rows, refs) = trees.get(&r.id).unwrap().query_local(&bbox);
                state.on_result(rows, refs);
            }
            QAction::Done => panic!("ended early"),
        }
    }
    // the stream is dropped here: what is under way is counted, and nothing is lost or written
    assert_eq!(state.active, waiting.len());
    drop(state);
    assert_eq!(trees.len() as u64, next);
    for id in 0..next {
        assert_eq!(trees.get(&id).unwrap().count_bytes(), sizes[&id]);
    }
}

#[test]
fn the_coordinator_surfaces_records_first_and_dispatches_in_batches() {
    let row = |id: u64| (vec![Coord::Scalar(0), Coord::Scalar(0)], Value { id, data: vec![] });
    let tref = |id: u64| TreeRef { id, bounds: vec![Coord::Interval(0, 1), Coord::Interval(0, 1)] };
    let mut s = QState::new(vec![row(1), row(2)], vec![tref(10), tref(11), tref(12)]);
    assert!(matches!(s.next(2), QAction::Emit(r) if r.1.id == 1));
    assert!(matches!(s.next(2), QAction::Emit(r) if r.1.id == 2));
    match s.next(2) {
        QAction::Dispatch(out) => assert_eq!(out.iter().map(|r| r.id).collect::<Vec<_>>(), vec![10, 11]),
        _ => panic!(),
    }
    assert_eq!(s.active, 2);
    assert!(matches!(s.next(2), QAction::Await));
    s.on_error();
    assert_eq!(s.active, 1);
    assert!(matches!(s.next(2), QAction::Await));
    s.on_result(vec![row(3)], vec![tref(13)]);
    assert_eq!(s.active, 0);
    assert!(matches!(s.next(2), QAction::Emit(r) if r.1.id == 3));
    match s.next(2) {
        QAction::Dispatch(out) => assert_eq!(out.iter().map(|r| r.id).collect::<Vec<_>>(), vec![12, 13]),
        _ => panic!(),
    }
    s.on_result(vec![], vec![]);
    s.on_result(vec![], vec![]);
    assert!(matches!(s.next(2), QAction::Done));
    assert!(matches!(s.next(2), QAction::Done));
}

#[test]
fn the_registry_keeps_what_it_is_given() {
    let mut trees = TreeFile::new();
    assert_eq!(trees.len(), 0);
    assert!(trees.get(&1).is_none());
    trees.put(&1, Tree::empty());
    trees.put(&2, Tree::new(Node::Data(vec![], vec![])));
    assert!(trees.contains(&1) && trees.contains(&2) && !trees.contains(&3));
    assert_eq!(trees.len(), 2);
    assert_eq!(trees.get(&1).unwrap().list().0.len(), 0);
    trees.remove(&1);
    assert!(!trees.contains(&1));
    assert_eq!(trees.len(), 1);
}

#[test]
fn file_of_an_id() {
    assert_eq!(get_file_from_id(&0), "t/00/00/00/00/00/00/00/00");
    assert_eq!(get_file_from_id(&0x0123_4567_89ab_cdef), "t/01/23/45/67/89/ab/cd/ef");
    assert_eq!(get_file_from_id(&u64::MAX), "t/ff/ff/ff/ff/ff/ff/ff/ff");
    assert_eq!(get_file_from_id(&258), "t/00/00/00/00/00/00/01/02");
}

#[test]
fn a_leaf_too_large_to_stay_is_cut_at_the_size_of_a_tree() {
    // six records of 109 bytes: a leaf of 660 bytes, over both limits
    let rows: Vec<(Point, Value)> = (0..6u64)
        .map(|k| (vec![Coord::Scalar(k as i64), Coord::Scalar(0)], Value { id: k, data: vec![k as u8; 90] }))
        .collect();
    let mut f = SetupFields::default();
    f.inline_max_bytes = 100;
    f.max_tree_bytes = 300;
    let mut next = 10u64;
    let (tr, created) = Branch::build(&f, &inserts(&rows), &mut next, false);
    let tr = tr.unwrap();
    // three leaves of two records each, and the root that refers to them
    assert_eq!(created.len(), 4);
    assert_eq!(tr.id, 13);
    let (none, refs) = created[&13].list();
    assert!(none.is_empty());
    assert_eq!(refs.iter().map(|r| r.id).collect::<Vec<_>>(), vec![10, 11, 12]);
    for id in 10..13u64 {
        let (list, inner) = created[&id].list();
        assert_eq!(list.len(), 2);
        assert!(inner.is_empty());
        assert!(created[&id].count_bytes() <= 300);
    }
    // one record that would take the tree over its size leaves it too
    let one = vec![(vec![Coord::Scalar(0), Coord::Scalar(0)], Value { id: 1, data: vec![0; 400] })];
    let mut next = 0u64;
    let (tr, created) = Branch::build(&f, &inserts(&one), &mut next, false);
    assert_eq!(tr.unwrap().id, 1);
    assert_eq!(created[&0].list().0.len(), 1);
    assert_eq!(created[&1].list().1.len(), 1);
}

#[test]
fn every_new_tree_hangs_under_the_root() {
    let rows = thousand_points();
    let mut f = fields(2_000);
    f.max_depth = 2;
    let mut next = 0u64;
    let (tr, created) = Branch::build(&f, &inserts(&rows), &mut next, false);
    let tr = tr.unwrap();
    let mut seen: HashSet<u64> = HashSet::new();
    let mut stack = vec![tr.id];
    while let Some(id) = stack.pop() {
        if seen.insert(id) {
            for r in created[&id].list_refs() {
                stack.push(r.id);
            }
        }
    }
    assert_eq!(seen, created.keys().cloned().collect::<HashSet<u64>>());
    assert!(created.len() > 3);
}
