use vstd::prelude::*;
use crate::scalar::div_trunc;
use crate::scalar::lemma_mul_abs_bound;

verus! {

/// A point in the plane, a pure value: two coordinates of an exact integer
/// scalar, equal exactly when the coordinates are.  Every operation returns
/// a fresh point and mutates nothing.
///
/// Quantities built from products of coordinates (dot and cross products,
/// squared distances) are returned in a wider integer scalar, so they are
/// exact for every representable point and no operation here can overflow.
#[derive(Clone, Copy, PartialEq, Eq, Structural, Debug)]
pub struct Point2D {
    pub x: i32,
    pub y: i32,
}

impl Point2D {
    /// The point with the given coordinates.
    pub fn new(x: i32, y: i32) -> (r: Point2D)
        ensures
            r.x == x,
            r.y == y,
    {
        Point2D { x, y }
    }

    /// The origin: both coordinates are the scalar zero.
    pub fn origin() -> (r: Point2D)
        ensures
            r.x == 0,
            r.y == 0,
    {
        Point2D { x: 0, y: 0 }
    }

    /// The point offset by the given deltas, one per axis.
    pub fn translate(&self, param: (i32, i32)) -> (r: Point2D)
        requires
            i32::MIN <= self.x + param.0 <= i32::MAX,
            i32::MIN <= self.y + param.1 <= i32::MAX,
        ensures
            r.x == self.x + param.0,
            r.y == self.y + param.1,
    {
        Point2D { x: self.x + param.0, y: self.y + param.1 }
    }

    /// The point offset along the x axis only.
    pub fn translate_x(&self, dx: i32) -> (r: Point2D)
        requires
            i32::MIN <= self.x + dx <= i32::MAX,
        ensures
            r.x == self.x + dx,
            r.y == self.y,
    {
        Point2D { x: self.x + dx, y: self.y }
    }

    /// The point offset along the y axis only.
    pub fn translate_y(&self, dy: i32) -> (r: Point2D)
        requires
            i32::MIN <= self.y + dy <= i32::MAX,
        ensures
            r.x == self.x,
            r.y == self.y + dy,
    {
        Point2D { x: self.x, y: self.y + dy }
    }

    /// Component-wise vector sum.
    pub fn add(&self, other: &Point2D) -> (r: Point2D)
        requires
            i32::MIN <= self.x + other.x <= i32::MAX,
            i32::MIN <= self.y + other.y <= i32::MAX,
        ensures
            r.x == self.x + other.x,
            r.y == self.y + other.y,
    {
        Point2D { x: self.x + other.x, y: self.y + other.y }
    }

    /// Component-wise vector difference.
    pub fn subtract(&self, other: &Point2D) -> (r: Point2D)
        requires
            i32::MIN <= self.x - other.x <= i32::MAX,
            i32::MIN <= self.y - other.y <= i32::MAX,
        ensures
            r.x == self.x - other.x,
            r.y == self.y - other.y,
    {
        Point2D { x: self.x - other.x, y: self.y - other.y }
    }

    /// Both coordinates multiplied by the scalar.
    pub fn scale(&self, scalar: i32) -> (r: Point2D)
        requires
            i32::MIN <= self.x * scalar <= i32::MAX,
            i32::MIN <= self.y * scalar <= i32::MAX,
        ensures
            r.x == self.x * scalar,
            r.y == self.y * scalar,
    {
        Point2D { x: self.x * scalar, y: self.y * scalar }
    }

    /// Both coordinates divided by the scalar, with the scalar's own
    /// (truncating) division.  The scalar zero is the caller's
    /// responsibility to exclude, as is the one quotient the scalar type
    /// cannot represent.
    pub fn divide(&self, scalar: i32) -> (r: Point2D)
        requires
            scalar != 0,
            scalar == -1 ==> self.x > i32::MIN && self.y > i32::MIN,
        ensures
            r.x == div_trunc(self.x as int, scalar as int),
            r.y == div_trunc(self.y as int, scalar as int),
    {
        proof {
            crate::scalar::lemma_div_trunc_range(self.x as int, scalar as int);
            crate::scalar::lemma_div_trunc_range(self.y as int, scalar as int);
        }
        Point2D { x: self.x / scalar, y: self.y / scalar }
    }

    /// The dot product of the two position vectors, exact in the wide scalar.
    pub fn dot_product(&self, other: &Point2D) -> (r: i128)
        ensures
            r == self.x * other.x + self.y * other.y,
    {
        proof {
            lemma_mul_abs_bound(self.x as int, other.x as int, 0x8000_0000, 0x8000_0000);
            lemma_mul_abs_bound(self.y as int, other.y as int, 0x8000_0000, 0x8000_0000);
        }
        (self.x as i128) * (other.x as i128) + (self.y as i128) * (other.y as i128)
    }

    /// The scalar cross product of the two position vectors, exact in the
    /// wide scalar: positive when `other` lies counter-clockwise of `self`.
    pub fn cross_product(&self, other: &Point2D) -> (r: i128)
        ensures
            r == self.x * other.y - self.y * other.x,
    {
        proof {
            lemma_mul_abs_bound(self.x as int, other.y as int, 0x8000_0000, 0x8000_0000);
            lemma_mul_abs_bound(self.y as int, other.x as int, 0x8000_0000, 0x8000_0000);
        }
        (self.x as i128) * (other.y as i128) - (self.y as i128) * (other.x as i128)
    }

    /// The square of the Euclidean distance to `other`, exact in the wide
    /// scalar and never negative.  The distance itself is a square root and
    /// so belongs to a floating-point caller, which takes it from here.
    pub fn distance_squared(&self, other: &Point2D) -> (r: i128)
        ensures
            r == (other.x - self.x) * (other.x - self.x) + (other.y - self.y) * (other.y - self.y),
            r >= 0,
    {
        let dx: i64 = (other.x as i64) - (self.x as i64);
        let dy: i64 = (other.y as i64) - (self.y as i64);
        proof {
            lemma_mul_abs_bound(dx as int, dx as int, 0x1_0000_0000, 0x1_0000_0000);
            lemma_mul_abs_bound(dy as int, dy as int, 0x1_0000_0000, 0x1_0000_0000);
            assert(dx * dx >= 0 && dy * dy >= 0) by (nonlinear_arith);
        }
        (dx as i128) * (dx as i128) + (dy as i128) * (dy as i128)
    }
}

} // verus!
