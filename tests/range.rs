use light_grid::range::{is_valid_range, Point, PointRange};

#[test]
fn test_empty_range() {
    let start = Point(0, 0);
    let mut r = PointRange::new(start, start, start);
    assert_eq!(Some(0), r.next());
    assert_eq!(None, r.next());
}

#[test]
fn test_one_point() {
    let mut r = PointRange::new(Point(1, 1), Point(1, 1), Point(2, 2));
    assert_eq!(Some(4), r.next());
    assert_eq!(None, r.next());
}

#[test]
fn test_range() {
    // Cells (1,1), (2,1), (1,2), (2,2) of a grid three cells wide.
    let mut r = PointRange::new(Point(1, 1), Point(2, 2), Point(2, 2));
    for i in [4usize, 5, 7, 8] {
        assert_eq!(Some(i), r.next());
    }
    assert_eq!(None, r.next());
}

#[test]
fn test_count_big_range() {
    let r = PointRange::new(Point(0, 0), Point(999, 999), Point(999, 999));
    assert_eq!(1_000_000, r.count());
}

#[test]
fn test_count_null_range() {
    let r = PointRange::new(Point(499, 499), Point(500, 500), Point(999, 999));
    assert_eq!(4, r.count());
}

fn collect(mut r: PointRange) -> Vec<usize> {
    let mut v = Vec::new();
    while let Some(i) = r.next() {
        v.push(i);
    }
    v
}

#[test]
fn range_shape() {
    let from = Point(2, 1);
    let to = Point(4, 3);
    let max = Point(9, 5);
    let v = collect(PointRange::new(from, to, max));
    assert_eq!(9, v.len());
    assert_eq!(2 + 10, v[0]);
    assert_eq!(4 + 3 * 10, v[8]);
    assert_eq!(vec![12, 13, 14, 22, 23, 24, 32, 33, 34], v);
}

#[test]
fn exhausted_range_stays_exhausted() {
    let mut r = PointRange::new(Point(0, 0), Point(1, 0), Point(1, 0));
    assert_eq!(Some(0), r.next());
    assert_eq!(Some(1), r.next());
    assert_eq!(None, r.next());
    assert_eq!(None, r.next());
}

#[test]
fn count_after_partial_use() {
    let mut r = PointRange::new(Point(0, 0), Point(2, 2), Point(2, 2));
    r.next();
    r.next();
    assert_eq!(7, r.count());
}

#[test]
fn valid_range_check() {
    let max = Point(9, 9);
    assert!(is_valid_range(Point(0, 0), Point(9, 9), max));
    assert!(is_valid_range(Point(3, 3), Point(3, 3), max));
    assert!(!is_valid_range(Point(4, 0), Point(3, 9), max));
    assert!(!is_valid_range(Point(0, 4), Point(9, 3), max));
    assert!(!is_valid_range(Point(0, 0), Point(10, 9), max));
    assert!(!is_valid_range(Point(0, 0), Point(9, 10), max));
}
