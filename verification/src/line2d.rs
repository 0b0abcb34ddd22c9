use vstd::prelude::*;
use crate::point2d::Point2D;
use crate::scalar::{div_trunc, lemma_div_trunc_between, lemma_div_trunc_exact, lemma_div_trunc_range};

verus! {

/// A directed line segment between two points.  Direction matters for the
/// slope's sign and for subdivision order, not for midpoint or length.
/// The degenerate segment with `p1 == p2` is a legal value.
#[derive(Clone, Copy, PartialEq, Eq, Structural, Debug)]
pub struct Line2D {
    pub p1: Point2D,
    pub p2: Point2D,
}

/// The coordinate of the waypoint a fraction `i / n` of the way from `c1`
/// to `c2`: the whole offset is scaled first and divided last, so the
/// waypoints for `i == 0` and `i == n` are exactly the two endpoints.
pub open spec fn cut_coord(c1: int, c2: int, i: int, n: int) -> int
    recommends n > 0,
{
    c1 + div_trunc((c2 - c1) * i, n)
}

impl Line2D {
    /// The segment from `p1` to `p2`.
    pub fn new(p1: Point2D, p2: Point2D) -> (r: Line2D)
        ensures
            r.p1 == p1,
            r.p2 == p2,
    {
        Line2D { p1, p2 }
    }

    /// The midpoint: the average of the endpoints, taken with the scalar's
    /// own (truncating) division by two.
    pub fn midpoint(&self) -> (r: Point2D)
        ensures
            r.x == div_trunc(self.p1.x + self.p2.x, 2),
            r.y == div_trunc(self.p1.y + self.p2.y, 2),
    {
        let sx: i64 = self.p1.x as i64 + self.p2.x as i64;
        let sy: i64 = self.p1.y as i64 + self.p2.y as i64;
        proof {
            lemma_div_trunc_between(sx as int, 2, i32::MIN as int, i32::MAX as int);
            lemma_div_trunc_between(sy as int, 2, i32::MIN as int, i32::MAX as int);
        }
        Point2D { x: (sx / 2) as i32, y: (sy / 2) as i32 }
    }

    /// The square of the segment's Euclidean length, exact in the wide
    /// scalar; zero exactly for the degenerate segment.  The length itself
    /// is a square root and so belongs to a floating-point caller.
    pub fn length_squared(&self) -> (r: i128)
        ensures
            r == (self.p2.x - self.p1.x) * (self.p2.x - self.p1.x)
                + (self.p2.y - self.p1.y) * (self.p2.y - self.p1.y),
            r >= 0,
            r == 0 <==> self.p1 == self.p2,
    {
        let r = self.p1.distance_squared(&self.p2);
        proof {
            let dx = self.p2.x - self.p1.x;
            let dy = self.p2.y - self.p1.y;
            assert(dx * dx >= 0 && dy * dy >= 0) by (nonlinear_arith);
            assert(dx != 0 ==> dx * dx > 0) by (nonlinear_arith);
            assert(dy != 0 ==> dy * dy > 0) by (nonlinear_arith);
        }
        r
    }

    /// The waypoint a fraction `i / n` of the way along the segment.
    fn cut_point(&self, i: usize, n: usize) -> (r: Point2D)
        requires
            0 < n,
            i <= n,
        ensures
            r.x == cut_coord(self.p1.x as int, self.p2.x as int, i as int, n as int),
            r.y == cut_coord(self.p1.y as int, self.p2.y as int, i as int, n as int),
    {
        let dx: i64 = self.p2.x as i64 - self.p1.x as i64;
        let dy: i64 = self.p2.y as i64 - self.p1.y as i64;
        proof {
            crate::scalar::lemma_mul_abs_bound(dx as int, i as int, 0x1_0000_0000, usize::MAX as int);
            crate::scalar::lemma_mul_abs_bound(dy as int, i as int, 0x1_0000_0000, usize::MAX as int);
        }
        let numx: i128 = (dx as i128) * (i as i128);
        let numy: i128 = (dy as i128) * (i as i128);
        proof {
            assert(dx >= 0 ==> 0 <= dx * i <= dx * n) by (nonlinear_arith)
                requires 0 <= i <= n;
            assert(dx < 0 ==> dx * n <= dx * i <= 0) by (nonlinear_arith)
                requires 0 <= i <= n;
            assert(dy >= 0 ==> 0 <= dy * i <= dy * n) by (nonlinear_arith)
                requires 0 <= i <= n;
            assert(dy < 0 ==> dy * n <= dy * i <= 0) by (nonlinear_arith)
                requires 0 <= i <= n;
            if dx >= 0 {
                lemma_div_trunc_between(dx * i, n as int, 0, dx as int);
            } else {
                lemma_div_trunc_between(dx * i, n as int, dx as int, 0);
            }
            if dy >= 0 {
                lemma_div_trunc_between(dy * i, n as int, 0, dy as int);
            } else {
                lemma_div_trunc_between(dy * i, n as int, dy as int, 0);
            }
        }
        let qx: i128 = numx / (n as i128);
        let qy: i128 = numy / (n as i128);
        Point2D { x: (self.p1.x as i128 + qx) as i32, y: (self.p1.y as i128 + qy) as i32 }
    }

    /// The segment cut into `n` equal consecutive sub-segments that cover
    /// it: each one runs between two adjacent waypoints, so the chain
    /// starts exactly at `p1`, ends exactly at `p2`, and each sub-segment
    /// ends exactly where the next one starts.
    pub fn subdivide(&self, num_segments: usize) -> (r: Vec<Line2D>)
        ensures
            r@.len() == num_segments,
            forall|i: int| 0 <= i < num_segments ==> {
                &&& (#[trigger] r@[i]).p1.x == cut_coord(self.p1.x as int, self.p2.x as int, i, num_segments as int)
                &&& r@[i].p1.y == cut_coord(self.p1.y as int, self.p2.y as int, i, num_segments as int)
                &&& r@[i].p2.x == cut_coord(self.p1.x as int, self.p2.x as int, i + 1, num_segments as int)
                &&& r@[i].p2.y == cut_coord(self.p1.y as int, self.p2.y as int, i + 1, num_segments as int)
            },
            num_segments > 0 ==> r@[0].p1 == self.p1 && r@[num_segments - 1].p2 == self.p2,
            forall|i: int| 0 <= i < num_segments - 1 ==> (#[trigger] r@[i]).p2 == r@[i + 1].p1,
    {
        let mut subdivisions: Vec<Line2D> = Vec::new();
        if num_segments == 0 {
            return subdivisions;
        }
        let mut i: usize = 0;
        while i < num_segments
            invariant
                0 < num_segments,
                i <= num_segments,
                subdivisions@.len() == i,
                forall|j: int| 0 <= j < i ==> {
                    &&& (#[trigger] subdivisions@[j]).p1.x == cut_coord(self.p1.x as int, self.p2.x as int, j, num_segments as int)
                    &&& subdivisions@[j].p1.y == cut_coord(self.p1.y as int, self.p2.y as int, j, num_segments as int)
                    &&& subdivisions@[j].p2.x == cut_coord(self.p1.x as int, self.p2.x as int, j + 1, num_segments as int)
                    &&& subdivisions@[j].p2.y == cut_coord(self.p1.y as int, self.p2.y as int, j + 1, num_segments as int)
                },
            decreases num_segments - i,
        {
            let start = self.cut_point(i, num_segments);
            let end = self.cut_point(i + 1, num_segments);
            subdivisions.push(Line2D { p1: start, p2: end });
            i = i + 1;
        }
        proof {
            let n = num_segments as int;
            lemma_div_trunc_exact(0, n);
            lemma_div_trunc_exact(self.p2.x - self.p1.x, n);
            lemma_div_trunc_exact(self.p2.y - self.p1.y, n);
            assert(cut_coord(self.p1.x as int, self.p2.x as int, 0, n) == self.p1.x);
            assert(cut_coord(self.p1.y as int, self.p2.y as int, 0, n) == self.p1.y);
            assert(cut_coord(self.p1.x as int, self.p2.x as int, n, n) == self.p2.x);
            assert(cut_coord(self.p1.y as int, self.p2.y as int, n, n) == self.p2.y);
        }
        subdivisions
    }

    /// The slope, rise over run with the scalar's own (truncating)
    /// division; absent exactly when the segment is vertical, its two
    /// x-coordinates exactly equal.
    pub fn slope(&self) -> (r: Option<i64>)
        ensures
            self.p2.x == self.p1.x ==> r is None,
            self.p2.x != self.p1.x ==> (r matches Some(s)
                && s == div_trunc(self.p2.y - self.p1.y, self.p2.x - self.p1.x)),
    {
        if self.p2.x == self.p1.x {
            None
        } else {
            let dy: i64 = self.p2.y as i64 - self.p1.y as i64;
            let dx: i64 = self.p2.x as i64 - self.p1.x as i64;
            proof {
                lemma_div_trunc_range(dy as int, dx as int);
            }
            Some(dy / dx)
        }
    }
}

} // verus!
