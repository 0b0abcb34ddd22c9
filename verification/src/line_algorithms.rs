use vstd::prelude::*;
use crate::line2d::Line2D;
use crate::point2d::Point2D;
use crate::scalar::{div_trunc, lemma_mul_abs_bound};

verus! {

/// The cross term of two lines' direction vectors: zero exactly when the
/// directions are parallel (degenerate lines count as parallel to
/// everything, their direction being the zero vector).
pub open spec fn parallel_term(l1: Line2D, l2: Line2D) -> int {
    (l1.p2.y - l1.p1.y) * (l2.p2.x - l2.p1.x) - (l1.p2.x - l1.p1.x) * (l2.p2.y - l2.p1.y)
}

/// The dot product of two lines' direction vectors: zero exactly when the
/// directions are perpendicular (or one of them degenerate).
pub open spec fn direction_dot(l1: Line2D, l2: Line2D) -> int {
    (l1.p2.x - l1.p1.x) * (l2.p2.x - l2.p1.x) + (l1.p2.y - l1.p1.y) * (l2.p2.y - l2.p1.y)
}

/// The determinant of the two-by-two system solved for the intersection of
/// the two lines taken as infinite lines.
pub open spec fn intersection_denom(l1: Line2D, l2: Line2D) -> int {
    (l1.p1.x - l1.p2.x) * (l2.p1.y - l2.p2.y) - (l1.p1.y - l1.p2.y) * (l2.p1.x - l2.p2.x)
}

/// The Cramer numerator of the intersection's x coordinate.
pub open spec fn intersection_num_x(l1: Line2D, l2: Line2D) -> int {
    (l1.p1.x * l1.p2.y - l1.p1.y * l1.p2.x) * (l2.p1.x - l2.p2.x)
        - (l2.p1.x * l2.p2.y - l2.p1.y * l2.p2.x) * (l1.p1.x - l1.p2.x)
}

/// The Cramer numerator of the intersection's y coordinate.
pub open spec fn intersection_num_y(l1: Line2D, l2: Line2D) -> int {
    (l1.p1.x * l1.p2.y - l1.p1.y * l1.p2.x) * (l2.p1.y - l2.p2.y)
        - (l2.p1.x * l2.p2.y - l2.p1.y * l2.p2.x) * (l1.p1.y - l1.p2.y)
}

/// Whether the two lines are parallel: the cross term of their directions
/// is the scalar zero, exactly (the exact scalar needs no epsilon).
pub fn are_parallel_lines(l1: &Line2D, l2: &Line2D) -> (r: bool)
    ensures
        r <==> parallel_term(*l1, *l2) == 0,
{
    let dy1: i64 = l1.p2.y as i64 - l1.p1.y as i64;
    let dx1: i64 = l1.p2.x as i64 - l1.p1.x as i64;
    let dy2: i64 = l2.p2.y as i64 - l2.p1.y as i64;
    let dx2: i64 = l2.p2.x as i64 - l2.p1.x as i64;
    proof {
        lemma_mul_abs_bound(dy1 as int, dx2 as int, 0x1_0000_0000, 0x1_0000_0000);
        lemma_mul_abs_bound(dx1 as int, dy2 as int, 0x1_0000_0000, 0x1_0000_0000);
    }
    let lhs: i128 = (dy1 as i128) * (dx2 as i128);
    let rhs: i128 = (dx1 as i128) * (dy2 as i128);
    lhs == rhs
}

/// Whether the two lines are perpendicular: the dot product of their
/// directions is the scalar zero, exactly.
pub fn are_perpendicular_lines(l1: &Line2D, l2: &Line2D) -> (r: bool)
    ensures
        r <==> direction_dot(*l1, *l2) == 0,
{
    let dx1: i64 = l1.p2.x as i64 - l1.p1.x as i64;
    let dy1: i64 = l1.p2.y as i64 - l1.p1.y as i64;
    let dx2: i64 = l2.p2.x as i64 - l2.p1.x as i64;
    let dy2: i64 = l2.p2.y as i64 - l2.p1.y as i64;
    proof {
        lemma_mul_abs_bound(dx1 as int, dx2 as int, 0x1_0000_0000, 0x1_0000_0000);
        lemma_mul_abs_bound(dy1 as int, dy2 as int, 0x1_0000_0000, 0x1_0000_0000);
    }
    let dot: i128 = (dx1 as i128) * (dx2 as i128) + (dy1 as i128) * (dy2 as i128);
    dot == 0
}

/// The intersection of the two lines taken as infinite lines, by the
/// closed-form solution of the two-by-two system, with the scalar's own
/// (truncating) division; absent exactly when the determinant is the
/// scalar zero, which happens exactly when the lines are parallel.  The
/// guard runs before any division, so a zero determinant is never divided
/// by.  The caller keeps the intersection inside the coordinate scalar's
/// range; that is a machine limit, not a geometric one.
pub fn intersection_point(l1: &Line2D, l2: &Line2D) -> (r: Option<Point2D>)
    requires
        intersection_denom(*l1, *l2) != 0 ==> i32::MIN <= div_trunc(
            intersection_num_x(*l1, *l2),
            intersection_denom(*l1, *l2),
        ) <= i32::MAX && i32::MIN <= div_trunc(
            intersection_num_y(*l1, *l2),
            intersection_denom(*l1, *l2),
        ) <= i32::MAX,
    ensures
        r is Some <==> intersection_denom(*l1, *l2) != 0,
        r is Some <==> parallel_term(*l1, *l2) != 0,
        intersection_denom(*l1, *l2) != 0 ==> (r matches Some(p)
            && p.x == div_trunc(intersection_num_x(*l1, *l2), intersection_denom(*l1, *l2))
            && p.y == div_trunc(intersection_num_y(*l1, *l2), intersection_denom(*l1, *l2))),
{
    let x1: i128 = l1.p1.x as i128;
    let y1: i128 = l1.p1.y as i128;
    let x2: i128 = l1.p2.x as i128;
    let y2: i128 = l1.p2.y as i128;
    let x3: i128 = l2.p1.x as i128;
    let y3: i128 = l2.p1.y as i128;
    let x4: i128 = l2.p2.x as i128;
    let y4: i128 = l2.p2.y as i128;
    proof {
        lemma_mul_abs_bound((x1 - x2) as int, (y3 - y4) as int, 0x1_0000_0000, 0x1_0000_0000);
        lemma_mul_abs_bound((y1 - y2) as int, (x3 - x4) as int, 0x1_0000_0000, 0x1_0000_0000);
        lemma_mul_abs_bound(x1 as int, y2 as int, 0x8000_0000, 0x8000_0000);
        lemma_mul_abs_bound(y1 as int, x2 as int, 0x8000_0000, 0x8000_0000);
        lemma_mul_abs_bound(x3 as int, y4 as int, 0x8000_0000, 0x8000_0000);
        lemma_mul_abs_bound(y3 as int, x4 as int, 0x8000_0000, 0x8000_0000);
    }
    let denom: i128 = (x1 - x2) * (y3 - y4) - (y1 - y2) * (x3 - x4);
    proof {
        assert(denom == intersection_denom(*l1, *l2));
        assert((x1 - x2) * (y3 - y4) - (y1 - y2) * (x3 - x4) == 0 <==> (y2 - y1) * (x4 - x3) - (x2
            - x1) * (y4 - y3) == 0) by (nonlinear_arith);
    }
    if denom == 0 {
        return None;
    }
    let det1: i128 = x1 * y2 - y1 * x2;
    let det2: i128 = x3 * y4 - y3 * x4;
    proof {
        lemma_mul_abs_bound(det1 as int, (x3 - x4) as int, 0x8000_0000_0000_0000, 0x1_0000_0000);
        lemma_mul_abs_bound(det2 as int, (x1 - x2) as int, 0x8000_0000_0000_0000, 0x1_0000_0000);
        lemma_mul_abs_bound(det1 as int, (y3 - y4) as int, 0x8000_0000_0000_0000, 0x1_0000_0000);
        lemma_mul_abs_bound(det2 as int, (y1 - y2) as int, 0x8000_0000_0000_0000, 0x1_0000_0000);
    }
    let num_x: i128 = det1 * (x3 - x4) - det2 * (x1 - x2);
    let num_y: i128 = det1 * (y3 - y4) - det2 * (y1 - y2);
    proof {
        assert(num_x == intersection_num_x(*l1, *l2));
        assert(num_y == intersection_num_y(*l1, *l2));
    }
    let ix: i128 = num_x / denom;
    let iy: i128 = num_y / denom;
    Some(Point2D { x: ix as i32, y: iy as i32 })
}

} // verus!
