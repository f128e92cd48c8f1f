use eyros::bytes::{
    count_branch_bytes, count_leaf_bytes, count_node_bytes, count_point_bytes, count_ref_bytes,
    count_value_bytes, sat_add,
};
use eyros::codec::{
    put_point, put_ref, put_row, put_value, put_varint, read_point, read_ref, read_row, read_scalar,
    read_value, read_varint,
};
use eyros::coord::Coord;
use eyros::coord::Coord::{Interval, Scalar};
use eyros::error::Error;
use eyros::reader::read_branch;
use eyros::setup::SetupFields;
use eyros::tree::{Branch, InsertValue, Node, Tree, TreeRef, Value};
use eyros::wire::{get_u32, get_u64, put_u32, put_u64};

fn small_leaf() -> Tree {
    Tree::new(Node::Data(
        vec![(vec![Scalar(1), Interval(-1, 2)], Value { id: 300, data: vec![7, 8, 9] })],
        vec![TreeRef { id: 5, bounds: vec![Interval(0, 1), Interval(2, 3)] }],
    ))
}

fn be(x: i64) -> Vec<u8> {
    x.to_be_bytes().to_vec()
}

fn same(a: &Node, b: &Node) -> bool {
    match (a, b) {
        (Node::Data(r1, f1), Node::Data(r2, f2)) => {
            r1.len() == r2.len()
                && r1.iter().zip(r2).all(|(x, y)| x.0 == y.0 && x.1.id == y.1.id && x.1.data == y.1.data)
                && f1.len() == f2.len()
                && f1.iter().zip(f2).all(|(x, y)| x.id == y.id && x.bounds == y.bounds)
        }
        (Node::Branch(x), Node::Branch(y)) => {
            x.pivots == y.pivots
                && x.intersections.len() == y.intersections.len()
                && x.intersections.iter().zip(&y.intersections).all(|(p, q)| p.0 == q.0 && same(&p.1, &q.1))
                && x.nodes.len() == y.nodes.len()
                && x.nodes.iter().zip(&y.nodes).all(|(p, q)| same(p, q))
        }
        _ => false,
    }
}

#[test]
fn fixed_width_numbers_stand_most_significant_byte_first() {
    let mut out = vec![9u8];
    put_u32(&mut out, 0x0102_0304);
    put_u64(&mut out, 0x1122_3344_5566_7788);
    assert_eq!(out, vec![9, 1, 2, 3, 4, 0x11, 0x22, 0x33, 0x44, 0x55, 0x66, 0x77, 0x88]);
    assert_eq!(get_u32(&out, 1), Some(0x0102_0304));
    assert_eq!(get_u64(&out, 5), Some(0x1122_3344_5566_7788));
    assert_eq!(get_u32(&out, 10), None);
    assert_eq!(get_u64(&out, 6), None);
    assert_eq!(get_u32(&out, usize::MAX), None);
}

#[test]
fn varints_take_seven_bits_to_a_byte() {
    for (v, bytes) in [
        (0u64, vec![0u8]),
        (1, vec![1]),
        (127, vec![127]),
        (128, vec![0x80, 1]),
        (300, vec![0xac, 2]),
        (16_384, vec![0x80, 0x80, 1]),
        ((1 << 56) - 1, vec![0xff, 0xff, 0xff, 0xff, 0xff, 0xff, 0xff, 0x7f]),
    ] {
        let mut out = vec![];
        put_varint(&mut out, v);
        assert_eq!(out, bytes);
        out.push(0xee);
        assert_eq!(read_varint(&out, 0), Some((v, bytes.len())));
    }
    assert_eq!(read_varint(&[0x80, 0x80], 0), None);
    assert_eq!(read_varint(&[5], 1), None);
    assert_eq!(read_varint(&[5], 2), None);
    assert_eq!(read_varint(&[9, 0x81, 0x01], 1), Some((129, 3)));
}

#[test]
fn scalars_and_points_are_read_back() {
    let p = vec![Scalar(-2), Interval(i64::MIN, i64::MAX), Scalar(77)];
    let mut out = vec![1u8, 2];
    put_point(&mut out, &p);
    let mut want = vec![1u8, 2, 0b010];
    want.extend(be(-2));
    want.extend(be(i64::MIN));
    want.extend(be(i64::MAX));
    want.extend(be(77));
    assert_eq!(out, want);
    assert_eq!(read_point(&out, 2, 3), Some((p, out.len())));
    assert_eq!(read_scalar(&out, 3), Some((-2, 11)));
    assert_eq!(read_point(&out, 2, 4), None);
    assert_eq!(read_point(&out[..out.len() - 1], 2, 3), None);
    assert_eq!(count_point_bytes(&vec![Scalar(-2), Interval(0, 1), Scalar(77)]), 1 + 8 + 16 + 8);
}

#[test]
fn payloads_records_and_references_are_read_back() {
    let v = Value { id: 300, data: vec![7, 8, 9] };
    let mut out = vec![];
    put_value(&mut out, &v);
    assert_eq!(out, vec![0xac, 2, 3, 7, 8, 9]);
    assert_eq!(count_value_bytes(&v), 6);
    let (w, end) = read_value(&out, 0).unwrap();
    assert_eq!((w.id, w.data, end), (300, vec![7, 8, 9], 6));
    assert!(read_value(&out[..5], 0).is_none());

    let long = Value { id: 1, data: vec![5; 200] };
    let mut out = vec![];
    put_value(&mut out, &long);
    assert_eq!(&out[..3], &[1, 0xc8, 1]);
    assert_eq!(out.len(), 203);
    assert_eq!(count_value_bytes(&long), 203);
    assert_eq!(read_value(&out, 0).unwrap().0.data, vec![5; 200]);

    let row = (vec![Scalar(1), Interval(-1, 2)], v);
    let mut out = vec![0u8];
    put_row(&mut out, &row);
    let (r, end) = read_row(&out, 1, 2).unwrap();
    assert_eq!((r.0, r.1.id, r.1.data, end), (row.0.clone(), 300, vec![7, 8, 9], out.len()));

    let tr = TreeRef { id: 5, bounds: vec![Interval(0, 1), Interval(2, 3)] };
    let mut out = vec![];
    put_ref(&mut out, &tr);
    assert_eq!(out.len(), 1 + 1 + 32);
    assert_eq!(count_ref_bytes(&tr), 34);
    let (r, end) = read_ref(&out, 0, 2).unwrap();
    assert_eq!((r.id, r.bounds, end), (5, tr.bounds.clone(), 34));
}

#[test]
fn the_bytes_of_a_leaf() {
    let t = small_leaf();
    let mut want: Vec<u8> = vec![0, 0, 0, 72, 0, 1, 0b10];
    want.extend(be(1));
    want.extend(be(-1));
    want.extend(be(2));
    want.extend([0xac, 2, 3, 7, 8, 9]);
    want.extend([1, 5, 0b11]);
    for x in 0..4 {
        want.extend(be(x));
    }
    let bytes = t.to_bytes().unwrap();
    assert_eq!(bytes, want);
    assert_eq!(bytes.len(), 72);
    assert_eq!(t.count_bytes(), 72);
    if let Node::Data(rows, refs) = &t.root {
        assert_eq!(count_leaf_bytes(rows, refs), 72);
    }
    let back = Tree::from_bytes(&bytes, 2).unwrap();
    assert!(same(&back.root, &t.root));
    assert!(matches!(Tree::from_bytes(&bytes, 3), Err(Error::Serialize)));
    assert!(matches!(Tree::from_bytes(&bytes[..71], 2), Err(Error::Serialize)));
    let mut wrong = bytes.clone();
    wrong[3] = 71;
    assert!(matches!(Tree::from_bytes(&wrong, 2), Err(Error::Serialize)));
    assert!(matches!(Tree::from_bytes(&[], 2), Err(Error::Serialize)));
}

#[test]
fn the_empty_tree_has_a_block() {
    let t = Tree::empty();
    let bytes = t.to_bytes().unwrap();
    assert_eq!(bytes, vec![0, 0, 0, 7, 0, 0, 0]);
    assert_eq!(t.count_bytes(), 7);
    assert!(same(&Tree::from_bytes(&bytes, 2).unwrap().root, &t.root));
}

#[test]
fn what_could_not_be_read_back_is_not_written() {
    let t = Tree::new(Node::Data(vec![(vec![Scalar(0), Scalar(0)], Value { id: 1 << 56, data: vec![] })], vec![]));
    assert!(matches!(t.to_bytes(), Err(Error::Serialize)));
    let t = Tree::new(Node::Data(vec![(vec![Scalar(0); 9], Value { id: 1, data: vec![] })], vec![]));
    assert!(matches!(t.to_bytes(), Err(Error::Serialize)));
    let t = Tree::new(Node::Branch(Branch::new(vec![], vec![], vec![Node::Data(vec![], vec![])])));
    assert!(matches!(t.to_bytes(), Err(Error::Serialize)));
    let t = Tree::new(Node::Branch(Branch::new(vec![1], vec![], vec![Node::Data(vec![], vec![])])));
    assert!(matches!(t.to_bytes(), Err(Error::Serialize)));
}

fn branch_tree() -> Tree {
    let leaf = |x: i64, id: u64| Node::Data(vec![(vec![Scalar(x), Scalar(0)], Value { id, data: vec![1, 2] })], vec![]);
    let inner = Node::Branch(Branch::new(
        vec![5],
        vec![],
        vec![leaf(20, 3), Node::Data(vec![], vec![])],
    ));
    Tree::new(Node::Branch(Branch::new(
        vec![10, 30],
        vec![(0b01, leaf(10, 1)), (0b11, Node::Data(vec![], vec![TreeRef { id: 9, bounds: vec![Interval(10, 30), Scalar(0)] }]))],
        vec![Node::Data(vec![], vec![]), inner, leaf(40, 2)],
    )))
}

#[test]
fn the_bytes_of_a_branch() {
    let t = branch_tree();
    let bytes = t.to_bytes().unwrap();
    assert_eq!(bytes.len(), t.count_bytes());
    assert_eq!(count_node_bytes(&t.root), bytes.len());
    // the block: length, two pivots, two intersection children, one byte of kinds, the entries
    let head = 4 + 1 + 16 + 1 + 1 + 2 * 12 + 3 * 8;
    assert_eq!(count_branch_bytes(2, 2), head);
    assert_eq!(&bytes[..4], &[0, 0, 0, head as u8]);
    assert_eq!(bytes[4], 2);
    assert_eq!(&bytes[5..13], &be(10)[..]);
    assert_eq!(&bytes[13..21], &be(30)[..]);
    assert_eq!(bytes[21], 2);
    // leaves: both intersection children, the first gap child and the last
    assert_eq!(bytes[22], 0b10111);
    let b = read_branch(&bytes, 0).unwrap();
    assert_eq!(b.pivots, vec![10, 30]);
    assert_eq!(b.masks, vec![0b01, 0b11]);
    let leaf_len = 4 + 1 + 1 + (1 + 16) + (1 + 1 + 2) + 1;
    let ref_leaf_len = 4 + 1 + 1 + 1 + (1 + 1 + 16 + 8);
    let first = head as u64;
    assert_eq!(b.intersecting, vec![(true, first + 1), (true, first + leaf_len + 1)]);
    let inner = first + leaf_len + ref_leaf_len;
    let inner_len = (4 + 1 + 8 + 1 + 1 + 2 * 8) + leaf_len;
    assert_eq!(b.buckets, vec![(true, 0), (false, inner + 1), (true, inner + inner_len + 1)]);
    assert_eq!(bytes.len() as u64, inner + inner_len + leaf_len);
    let c = read_branch(&bytes, inner as usize).unwrap();
    assert_eq!(c.pivots, vec![5]);
    assert_eq!(c.buckets, vec![(true, inner + 31 + 1), (true, 0)]);
    assert!(read_branch(&bytes, head).is_none());
    assert!(read_branch(&bytes, bytes.len()).is_none());
    let back = Tree::from_bytes(&bytes, 2).unwrap();
    assert!(same(&back.root, &t.root));
    // a child that is not where the block says is not read
    let mut wrong = bytes.clone();
    wrong[22 + 1 + 4 + 7] += 1;
    assert!(matches!(Tree::from_bytes(&wrong, 2), Err(Error::Serialize)));
}

#[test]
fn built_trees_are_read_back_as_they_were() {
    let values: Vec<Value> = (0..800u64).map(|k| Value { id: k, data: vec![k as u8; (k % 40) as usize] }).collect();
    let rows: Vec<(Vec<Coord>, InsertValue)> = values
        .iter()
        .map(|v| {
            let k = v.id as i64;
            let p = if k % 3 == 0 {
                vec![Interval(k * 13 % 500, k * 13 % 500 + k % 90), Scalar(-k), Interval(-5, k)]
            } else {
                vec![Scalar(k * 13 % 500), Scalar(k * 7 % 300), Scalar(k)]
            };
            (p, InsertValue::Value(v))
        })
        .collect();
    let mut f = SetupFields::default();
    f.inline = 20;
    f.ext_records = 10;
    f.max_depth = 4;
    f.inline_max_bytes = 300;
    let mut next = 0u64;
    let (_, created) = Branch::build(&f, &rows, &mut next, false);
    assert!(created.len() > 5);
    let mut branches = 0;
    for t in created.values() {
        let bytes = t.to_bytes().unwrap();
        assert_eq!(bytes.len(), t.count_bytes());
        let back = Tree::from_bytes(&bytes, 3).unwrap();
        assert!(same(&back.root, &t.root));
        assert_eq!(back.to_bytes().unwrap(), bytes);
        if let Node::Branch(b) = &t.root {
            branches += 1;
            assert_eq!(b.bytes(), read_branch(&bytes, 0).map(|x| {
                4 + 1 + 8 * x.pivots.len() + 1 + (x.masks.len() + x.pivots.len() + 8) / 8 + 12 * x.masks.len() + 8 * x.buckets.len()
            }).unwrap());
        }
    }
    assert!(branches > 0);
}

#[test]
fn sizes_stop_at_the_largest() {
    assert_eq!(sat_add(2, 3), 5);
    assert_eq!(sat_add(usize::MAX, 1), usize::MAX);
    assert_eq!(sat_add(usize::MAX - 1, 1), usize::MAX);
}
