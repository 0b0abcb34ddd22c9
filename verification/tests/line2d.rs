use geomengine::{Line2D, Point2D};

#[test]
fn test_line2d_new() {
    let p1 = Point2D::new(0, 0);
    let p2 = Point2D::new(1, 1);
    let line = Line2D::new(p1, p2);

    assert_eq!(line.p1, p1);
    assert_eq!(line.p2, p2);
}

#[test]
fn test_line2d_midpoint() {
    let p1 = Point2D::new(0, 0);
    let p2 = Point2D::new(2, 2);
    let line = Line2D::new(p1, p2);

    assert_eq!(line.midpoint(), Point2D::new(1, 1));
}

#[test]
fn test_line2d_length_squared() {
    let p1 = Point2D::new(0, 0);
    let p2 = Point2D::new(3, 4);
    let line = Line2D::new(p1, p2);

    assert_eq!(line.length_squared(), 25);
    assert_eq!(Line2D::new(p2, p2).length_squared(), 0);
}

#[test]
fn test_line2d_slope_non_vertical_line() {
    let p1 = Point2D::new(0, 0);
    let p2 = Point2D::new(2, 2);
    let line = Line2D::new(p1, p2);

    assert_eq!(line.slope(), Some(1));
}

#[test]
fn test_line2d_slope_vertical_line() {
    let p1 = Point2D::new(1, 3);
    let p2 = Point2D::new(1, 2);
    let vertical_line = Line2D::new(p1, p2);

    assert!(vertical_line.slope().is_none(), "Expected None: Cannot find slope of vertical line");
}

#[test]
fn zero_segments_return_empty() {
    let line = Line2D::new(Point2D::new(0, 0), Point2D::new(1, 2));
    let result = line.subdivide(0);
    assert!(result.is_empty(), "Expect: empty vector");
}

#[test]
fn one_segment_return_self() {
    let line = Line2D::new(Point2D::new(0, 0), Point2D::new(1, 1));
    let new_lines = line.subdivide(1);

    assert_eq!(new_lines.len(), 1);
    assert_eq!(new_lines[0], line);
}

#[test]
fn two_segments_return_two_lines() {
    let line = Line2D::new(Point2D::new(0, 0), Point2D::new(1234, 1234));
    let divided_lines = line.subdivide(2);

    assert!(divided_lines.len() == 2, "Expect: length must equal the subdivision");

    //match start
    assert_eq!(divided_lines[0].p1.x, line.p1.x);
    assert_eq!(divided_lines[0].p1.y, line.p1.y);

    //match segment points
    assert_eq!(divided_lines[0].p2.x, divided_lines[1].p1.x);
    assert_eq!(divided_lines[0].p2.y, divided_lines[1].p1.y);

    //match value
    assert_eq!(divided_lines[0].p2.x, 617);
    assert_eq!(divided_lines[0].p2.y, 617);

    //match end
    assert_eq!(divided_lines[1].p2.x, line.p2.x);
    assert_eq!(divided_lines[1].p2.y, line.p2.y);
}

#[test]
fn subdivide_uneven_segments_still_chain() {
    let line = Line2D::new(Point2D::new(0, -1), Point2D::new(10, 6));
    let parts = line.subdivide(3);

    assert_eq!(parts.len(), 3);
    assert_eq!(parts[0].p1, line.p1);
    assert_eq!(parts[2].p2, line.p2);
    for i in 0..2 {
        assert_eq!(parts[i].p2, parts[i + 1].p1);
    }
}

#[test]
fn test_line2d_midpoint_truncates_toward_zero() {
    let line = Line2D::new(Point2D::new(0, 0), Point2D::new(-3, 3));

    assert_eq!(line.midpoint(), Point2D::new(-1, 1));
}

#[test]
fn test_line2d_slope_truncates_toward_zero() {
    let line = Line2D::new(Point2D::new(0, 0), Point2D::new(2, -5));

    assert_eq!(line.slope(), Some(-2));
}
