use geomengine::{are_parallel_lines, are_perpendicular_lines, intersection_point, Line2D, Point2D};

fn line(x1: i32, y1: i32, x2: i32, y2: i32) -> Line2D {
    Line2D::new(Point2D::new(x1, y1), Point2D::new(x2, y2))
}

#[test]
fn test_are_parallel_lines_horizontal_pair() {
    let l1 = line(0, 0, 1, 0);
    let l2 = line(0, 1, 1, 1);
    assert!(are_parallel_lines(&l1, &l2));
}

#[test]
fn test_are_parallel_lines_perpendicular_pair() {
    let l1 = line(0, 0, 1, 0);
    let l2 = line(0, 0, 0, 1);
    assert!(!are_parallel_lines(&l1, &l2));
}

#[test]
fn test_are_perpendicular_lines_axes() {
    let l1 = line(0, 0, 1, 0);
    let l2 = line(0, 0, 0, 1);
    assert!(are_perpendicular_lines(&l1, &l2));
}

#[test]
fn test_are_perpendicular_lines_parallel_pair() {
    let l1 = line(0, 0, 1, 0);
    let l2 = line(0, 1, 1, 1);
    assert!(!are_perpendicular_lines(&l1, &l2));
}

#[test]
fn test_intersection_point_crossing_diagonals() {
    let l1 = line(0, 0, 2, 2);
    let l2 = line(0, 2, 2, 0);
    let p = intersection_point(&l1, &l2).unwrap();
    assert_eq!(p, Point2D::new(1, 1));
}

#[test]
fn test_intersection_point_parallel_is_absent() {
    let l1 = line(0, 0, 1, 0);
    let l2 = line(0, 1, 1, 1);
    assert!(intersection_point(&l1, &l2).is_none());
}

#[test]
fn test_intersection_point_beyond_segments() {
    // As infinite lines these meet far outside both segments.
    let l1 = line(0, 0, 1, 0);
    let l2 = line(10, 5, 11, 4);
    let p = intersection_point(&l1, &l2).unwrap();
    assert_eq!(p, Point2D::new(15, 0));
}
