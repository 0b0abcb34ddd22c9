use geomengine::{bounding_box_2d, centroid_2d, convex_hull_2d, Point2D};

#[test]
fn test_convex_hull_2d_single_point() {
    let points = vec![Point2D::new(1, 1)];
    let hull = convex_hull_2d(&points);
    assert_eq!(hull, points);
}

#[test]
fn test_convex_hull_2d_two_points() {
    let points = vec![Point2D::new(1, 1), Point2D::new(1, 2)];
    let hull = convex_hull_2d(&points);
    assert_eq!(hull, points);
}

#[test]
fn test_convex_hull_2d_five_points() {
    let points = vec![
        Point2D::new(0, 0),
        Point2D::new(1, -4),
        Point2D::new(-1, -5),
        Point2D::new(-5, -3),
        Point2D::new(-3, -1),
        Point2D::new(-1, -3),
        Point2D::new(-2, -2),
        Point2D::new(-1, -1),
        Point2D::new(-2, -1),
        Point2D::new(-1, 1),
    ];
    let expected_hull = vec![
        Point2D::new(-5, -3),
        Point2D::new(-1, -5),
        Point2D::new(1, -4),
        Point2D::new(0, 0),
        Point2D::new(-1, 1),
    ];

    let hull = convex_hull_2d(&points);
    assert_eq!(hull, expected_hull);
}

#[test]
fn test_convex_hull_2d_collinear_points() {
    let points = vec![
        Point2D::new(0, 0),
        Point2D::new(2, 2),
        Point2D::new(1, 1),
        Point2D::new(3, 3),
    ];
    let hull = convex_hull_2d(&points);
    assert_eq!(hull, vec![Point2D::new(0, 0), Point2D::new(3, 3)]);
}

#[test]
fn test_convex_hull_2d_idempotent_on_hull() {
    let points = vec![
        Point2D::new(0, 0),
        Point2D::new(1, -4),
        Point2D::new(-1, -5),
        Point2D::new(-5, -3),
        Point2D::new(-3, -1),
        Point2D::new(-1, -3),
        Point2D::new(-2, -2),
        Point2D::new(-1, -1),
        Point2D::new(-2, -1),
        Point2D::new(-1, 1),
    ];
    let hull = convex_hull_2d(&points);
    let again = convex_hull_2d(&hull);
    assert_eq!(again, hull);
}

#[test]
fn test_centroid_2d_single_point() {
    let points = vec![Point2D::new(1, 0)];
    let centroid = centroid_2d(&points).unwrap();
    assert_eq!(centroid, points[0]);
}

#[test]
fn test_centroid_2d_multiple_points() {
    let points = vec![
        Point2D::new(0, 0),
        Point2D::new(1, 1),
        Point2D::new(2, 3),
        Point2D::new(1, 4),
    ];
    let centroid = centroid_2d(&points).unwrap();

    assert_eq!(centroid, Point2D::new(1, 2));
}

#[test]
fn test_centroid_2d_empty_is_absent() {
    let points: Vec<Point2D> = vec![];
    assert!(centroid_2d(&points).is_none());
}

#[test]
fn test_centroid_2d_identical_points() {
    let p = Point2D::new(-7, 9);
    let points = vec![p, p, p, p, p];
    assert_eq!(centroid_2d(&points), Some(p));
}

#[test]
fn test_bounding_box_2d_empty() {
    let points: Vec<Point2D> = vec![];
    let bbox = bounding_box_2d(&points);
    assert!(bbox.is_none(), "Expected None: Empty points return None");
}

#[test]
fn test_bounding_box_2d_single_point() {
    let points = vec![Point2D::new(1, 2)];
    let bbox = bounding_box_2d(&points);
    assert_eq!(bbox, Some((Point2D::new(1, 2), Point2D::new(1, 2))));
}

#[test]
fn test_bounding_box_2d_multiple_points() {
    let points = vec![
        Point2D::new(0, 0),
        Point2D::new(1, 1),
        Point2D::new(2, 3),
        Point2D::new(1, 4),
    ];
    let bbox = bounding_box_2d(&points);
    assert_eq!(bbox, Some((Point2D::new(0, 0), Point2D::new(2, 4))));
}

#[test]
fn test_bounding_box_negative_coordinates() {
    let points = vec![
        Point2D::new(-3, -2),
        Point2D::new(1, -4),
        Point2D::new(-1, 3),
        Point2D::new(2, 1),
    ];
    let bbox = bounding_box_2d(&points);
    assert_eq!(bbox, Some((Point2D::new(-3, -4), Point2D::new(2, 3))));
}

#[test]
fn test_bounding_box_encloses_every_point() {
    let points = vec![
        Point2D::new(4, -9),
        Point2D::new(-6, 2),
        Point2D::new(0, 11),
        Point2D::new(7, 7),
    ];
    let (lo, hi) = bounding_box_2d(&points).unwrap();
    for p in &points {
        assert!(lo.x <= p.x && p.x <= hi.x);
        assert!(lo.y <= p.y && p.y <= hi.y);
    }
}

#[test]
fn test_convex_hull_2d_duplicate_points_absorbed() {
    let points = vec![
        Point2D::new(0, 0),
        Point2D::new(2, 0),
        Point2D::new(2, 0),
        Point2D::new(1, 1),
        Point2D::new(0, 0),
    ];
    let hull = convex_hull_2d(&points);
    assert_eq!(hull, vec![Point2D::new(0, 0), Point2D::new(2, 0), Point2D::new(1, 1)]);
}

#[test]
fn test_bounding_box_extreme_coordinates() {
    let points = vec![
        Point2D::new(i32::MIN, i32::MAX),
        Point2D::new(i32::MAX, i32::MIN),
    ];
    let bbox = bounding_box_2d(&points);
    assert_eq!(
        bbox,
        Some((Point2D::new(i32::MIN, i32::MIN), Point2D::new(i32::MAX, i32::MAX)))
    );
}
