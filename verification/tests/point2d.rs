use geomengine::Point2D;

#[test]
fn test_point2d_new() {
    let point = Point2D::new(1, 2);
    assert_eq!(point.x, 1);
    assert_eq!(point.y, 2);
}

#[test]
fn test_point2d_origin() {
    let point = Point2D::origin();
    assert_eq!(point.x, 0);
    assert_eq!(point.y, 0);
}

#[test]
fn test_point2d_translate() {
    let point = Point2D::new(1, 2);
    let moved = point.translate((3, -5));
    assert_eq!(moved, Point2D::new(4, -3));
    assert_eq!(point.translate_x(10), Point2D::new(11, 2));
    assert_eq!(point.translate_y(-2), Point2D::new(1, 0));
}

#[test]
fn test_point2d_add() {
    let p1 = Point2D::new(1, 2);
    let p2 = Point2D::new(3, 4);

    let result = p1.add(&p2);
    assert_eq!(result.x, 4);
    assert_eq!(result.y, 6);
}

#[test]
fn test_point2d_sub() {
    let p1 = Point2D::new(5, 7);
    let p2 = Point2D::new(2, 3);

    let result = p1.subtract(&p2);

    assert_eq!(result.x, 3);
    assert_eq!(result.y, 4);
}

#[test]
fn test_point2d_mul() {
    let p = Point2D::new(2, 3);

    let result = p.scale(2);

    assert_eq!(result.x, 4);
    assert_eq!(result.y, 6);
}

#[test]
fn test_point2d_div() {
    let p = Point2D::new(4, -2);

    let result = p.divide(2);

    assert_eq!(result.x, 2);
    assert_eq!(result.y, -1);
}

#[test]
fn test_point2d_div_truncates_toward_zero() {
    let p = Point2D::new(7, -7);

    let result = p.divide(2);

    assert_eq!(result.x, 3);
    assert_eq!(result.y, -3);
}

#[test]
fn test_point2d_dot_product() {
    let p1 = Point2D::new(1, 2);
    let p2 = Point2D::new(3, 4);

    let dot = p1.dot_product(&p2);

    assert_eq!(dot, 11);
}

#[test]
fn test_point2d_cross_product() {
    let p1 = Point2D::new(1, 2);
    let p2 = Point2D::new(3, 4);

    let cross = p1.cross_product(&p2);

    assert_eq!(cross, -2);
}

#[test]
fn test_point2d_distance_squared() {
    let p1 = Point2D::new(0, 0);
    let p2 = Point2D::new(3, 4);

    assert_eq!(p1.distance_squared(&p2), 25);
    assert_eq!(p2.distance_squared(&p1), 25);
    assert_eq!(p1.distance_squared(&p1), 0);
}

#[test]
fn test_point2d_dot_product_extreme_coordinates() {
    let p = Point2D::new(i32::MIN, i32::MIN);

    let dot = p.dot_product(&p);

    assert_eq!(dot, 9223372036854775808i128);
}
