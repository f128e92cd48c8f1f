use eyros::coord::{
    cmp_max, cmp_min, coord_cmp, coord_max, coord_min, find_separation, intersect_coord,
    intersect_coord_coord, intersect_iv, intersect_pivot, Coord,
};
use eyros::coord::Coord::{Interval, Scalar};
use std::cmp::Ordering;

#[test]
fn separation_of_overlapping_ranges_pulls_to_one_side() {
    // [2, 10] and [6, 20] overlap
    assert_eq!(find_separation(&2, &10, &6, &20, true), 4);
    assert_eq!(find_separation(&2, &10, &6, &20, false), 15);
}

#[test]
fn separation_of_ranges_apart_lies_between_them() {
    assert_eq!(find_separation(&0, &4, &10, &20, true), 7);
    assert_eq!(find_separation(&0, &4, &10, &20, false), 7);
}

#[test]
fn separation_halves_toward_zero() {
    assert_eq!(find_separation(&3, &3, &3, &3, true), 2);
    assert_eq!(find_separation(&-3, &-3, &-3, &-3, false), -2);
    assert_eq!(find_separation(&i64::MAX, &i64::MAX, &i64::MAX, &i64::MAX, true), i64::MAX - 1);
    assert_eq!(find_separation(&i64::MIN, &i64::MIN, &i64::MIN, &i64::MIN, true), i64::MIN);
}

#[test]
fn ranges_meet_when_each_begins_before_the_other_ends() {
    assert!(intersect_iv(&0, &5, &5, &9));
    assert!(intersect_iv(&5, &9, &0, &5));
    assert!(!intersect_iv(&0, &4, &5, &9));
    assert!(!intersect_iv(&5, &9, &0, &4));
    assert!(intersect_iv(&0, &10, &3, &4));
}

#[test]
fn a_scalar_touches_only_its_own_pivot() {
    assert!(intersect_pivot(&Coord::Scalar(7), &7));
    assert!(!intersect_pivot(&Coord::Scalar(7), &8));
    assert!(intersect_pivot(&Coord::Interval(3, 7), &3));
    assert!(intersect_pivot(&Coord::Interval(3, 7), &7));
    assert!(intersect_pivot(&Coord::Interval(3, 7), &5));
    assert!(!intersect_pivot(&Coord::Interval(3, 7), &8));
    assert!(!intersect_pivot(&Coord::Interval(3, 7), &2));
}

#[test]
fn coordinates_meet_by_kind() {
    assert!(intersect_coord_coord(&Scalar(1), &Scalar(1)));
    assert!(!intersect_coord_coord(&Scalar(1), &Scalar(2)));
    assert!(intersect_coord_coord(&Scalar(4), &Interval(4, 9)));
    assert!(!intersect_coord_coord(&Scalar(3), &Interval(4, 9)));
    assert!(intersect_coord_coord(&Interval(4, 9), &Scalar(9)));
    assert!(!intersect_coord_coord(&Interval(4, 9), &Scalar(10)));
    assert!(intersect_coord_coord(&Interval(0, 4), &Interval(4, 9)));
    assert!(!intersect_coord_coord(&Interval(0, 3), &Interval(4, 9)));
}

#[test]
fn a_coordinate_meets_a_closed_range() {
    assert!(intersect_coord(&Coord::Scalar(5), &5, &5));
    assert!(!intersect_coord(&Coord::Scalar(5), &6, &9));
    assert!(intersect_coord(&Coord::Interval(0, 5), &5, &9));
    assert!(!intersect_coord(&Coord::Interval(0, 4), &5, &9));
}

#[test]
fn coordinates_are_ordered_by_lower_endpoint() {
    assert_eq!(coord_cmp(&Scalar(1), &Scalar(2)), Some(Ordering::Less));
    assert_eq!(coord_cmp(&Scalar(2), &Interval(2, 9)), Some(Ordering::Equal));
    assert_eq!(coord_cmp(&Interval(3, 4), &Scalar(2)), Some(Ordering::Greater));
    assert_eq!(coord_cmp(&Interval(-5, 100), &Interval(-4, -3)), Some(Ordering::Less));
}

#[test]
fn running_bounds_tighten_toward_the_endpoints() {
    assert_eq!(coord_min(&Scalar(3), &5), 3);
    assert_eq!(coord_min(&Scalar(7), &5), 5);
    assert_eq!(coord_min(&Interval(1, 9), &5), 1);
    assert_eq!(coord_max(&Scalar(3), &5), 5);
    assert_eq!(coord_max(&Scalar(7), &5), 7);
    assert_eq!(coord_max(&Interval(1, 9), &5), 9);
    assert_eq!(cmp_min(&2, &2), 2);
    assert_eq!(cmp_min(&-1, &2), -1);
    assert_eq!(cmp_max(&-1, &2), 2);
}
