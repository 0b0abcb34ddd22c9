use vstd::prelude::*;
use crate::point2d::Point2D;
use crate::scalar::{div_trunc, lemma_div_trunc_between, lemma_mul_abs_bound};

verus! {

/// The lexicographic order on points: by x coordinate first, ties broken
/// by y.  This is the order the convex hull scan sorts by.
pub open spec fn lex_le(a: Point2D, b: Point2D) -> bool {
    a.x < b.x || (a.x == b.x && a.y <= b.y)
}

/// A point sequence that ascends lexicographically.
pub open spec fn sorted_lex(s: Seq<Point2D>) -> bool {
    forall|i: int, j: int| 0 <= i <= j < s.len() ==> lex_le(#[trigger] s[i], #[trigger] s[j])
}

/// A point sequence that descends lexicographically.
pub open spec fn rev_sorted_lex(s: Seq<Point2D>) -> bool {
    forall|i: int, j: int| 0 <= i <= j < s.len() ==> lex_le(#[trigger] s[j], #[trigger] s[i])
}

/// The cross-product turn test: positive when the path `o -> a -> b` turns
/// left (counter-clockwise), negative when it turns right, zero when the
/// three points are collinear.
pub open spec fn cross(o: Point2D, a: Point2D, b: Point2D) -> int {
    (a.x - o.x) * (b.y - o.y) - (a.y - o.y) * (b.x - o.x)
}

/// A walk that turns strictly left at every interior vertex: no three
/// consecutive points are collinear or bend the other way.
pub open spec fn strict_left_turns(c: Seq<Point2D>) -> bool {
    forall|t: int| 0 <= t && t + 2 < c.len() ==> #[trigger] cross(c[t], c[t + 1], c[t + 2]) > 0
}

/// The algebraic core the decomposition lemmas share, over the components
/// of three direction vectors.
proof fn lemma_cross_core(ux: int, uy: int, vx: int, vy: int, wx: int, wy: int)
    ensures
        vx * (ux * wy - uy * wx) == wx * (ux * vy - uy * vx) + ux * (vx * wy - vy * wx),
{
    assert(vx * (ux * wy - uy * wx) == wx * (ux * vy - uy * vx) + ux * (vx * wy - vy * wx))
        by (nonlinear_arith);
}

/// The turn that `p` makes with edge `(a, b)` extended to `c` decomposes
/// over the two shorter edges.
proof fn lemma_cross_triangle(a: Point2D, b: Point2D, c: Point2D, p: Point2D)
    ensures
        (c.x - b.x) * cross(a, b, p) == (p.x - b.x) * cross(a, b, c) + (b.x - a.x) * cross(
            b,
            c,
            p,
        ),
{
    let ux = b.x - a.x as int;
    let uy = b.y - a.y as int;
    let vx = c.x - b.x as int;
    let vy = c.y - b.y as int;
    let wx = p.x - b.x as int;
    let wy = p.y - b.y as int;
    let c1 = cross(a, b, p);
    let c2 = cross(a, b, c);
    let c3 = cross(b, c, p);
    assert(c1 == ux * wy - uy * wx) by (nonlinear_arith)
        requires
            c1 == ux * (wy + uy) - uy * (wx + ux);
    assert(c2 == ux * vy - uy * vx) by (nonlinear_arith)
        requires
            c2 == ux * (vy + uy) - uy * (vx + ux);
    assert(c3 == vx * wy - vy * wx);
    lemma_cross_core(ux, uy, vx, vy, wx, wy);
}

/// The turn `p -> q` seen from `o` decomposes over the intermediate
/// direction `o -> t`.
proof fn lemma_cross_rotation(o: Point2D, t: Point2D, p: Point2D, q: Point2D)
    ensures
        (t.x - o.x) * cross(o, p, q) == (q.x - o.x) * cross(o, p, t) + (p.x - o.x) * cross(
            o,
            t,
            q,
        ),
{
    let ux = p.x - o.x as int;
    let uy = p.y - o.y as int;
    let vx = t.x - o.x as int;
    let vy = t.y - o.y as int;
    let wx = q.x - o.x as int;
    let wy = q.y - o.y as int;
    assert(cross(o, p, q) == ux * wy - uy * wx);
    assert(cross(o, p, t) == ux * vy - uy * vx);
    assert(cross(o, t, q) == vx * wy - vy * wx);
    lemma_cross_core(ux, uy, vx, vy, wx, wy);
}

/// The turn test re-based from one origin to another.
proof fn lemma_cross_shift(o: Point2D, t: Point2D, p: Point2D, q: Point2D)
    ensures
        cross(o, p, q) == cross(t, p, q) - cross(o, t, p) + cross(o, t, q),
{
    let ux = p.x - o.x as int;
    let uy = p.y - o.y as int;
    let vx = t.x - o.x as int;
    let vy = t.y - o.y as int;
    let wx = q.x - o.x as int;
    let wy = q.y - o.y as int;
    let c1 = cross(o, p, q);
    let c2 = cross(t, p, q);
    let c3 = cross(o, t, p);
    let c4 = cross(o, t, q);
    assert(c1 == ux * wy - uy * wx);
    assert(c2 == (ux - vx) * (wy - vy) - (uy - vy) * (wx - vx));
    assert(c3 == vx * uy - vy * ux);
    assert(c4 == vx * wy - vy * wx);
    assert(c2 == (ux * wy - uy * wx) - (ux * vy - uy * vx) - (vx * wy - vy * wx))
        by (nonlinear_arith)
        requires
            c2 == (ux - vx) * (wy - vy) - (uy - vy) * (wx - vx);
    assert(c3 == -(ux * vy - uy * vx)) by (nonlinear_arith)
        requires
            c3 == vx * uy - vy * ux;
}

/// In a lexicographically ascending path, an edge followed by a strict
/// left turn cannot be vertical or degenerate: it strictly gains x.
proof fn lemma_turn_edge_gains_x(a: Point2D, b: Point2D, c: Point2D)
    requires
        lex_le(a, b),
        lex_le(b, c),
        cross(a, b, c) > 0,
    ensures
        a.x < b.x,
{
    if a.x == b.x {
        let cr = cross(a, b, c);
        assert(cr <= 0) by (nonlinear_arith)
            requires
                cr == (b.x - a.x) * (c.y - a.y) - (b.y - a.y) * (c.x - a.x),
                a.x == b.x,
                a.y <= b.y,
                a.x <= c.x;
    }
}

/// In a lexicographically descending path, an edge followed by a strict
/// left turn cannot be vertical or degenerate: it strictly loses x.
proof fn lemma_turn_edge_loses_x(a: Point2D, b: Point2D, c: Point2D)
    requires
        lex_le(b, a),
        lex_le(c, b),
        cross(a, b, c) > 0,
    ensures
        b.x < a.x,
{
    if a.x == b.x {
        let cr = cross(a, b, c);
        assert(cr <= 0) by (nonlinear_arith)
            requires
                cr == (b.x - a.x) * (c.y - a.y) - (b.y - a.y) * (c.x - a.x),
                a.x == b.x,
                b.y <= a.y,
                c.x <= a.x;
    }
}

/// Extending a lexicographically ascending, strictly left-turning chain
/// with a point beyond its end that turns left off the last edge keeps the
/// point on or left of every edge of the chain.
proof fn lemma_chain_extension_asc(c: Seq<Point2D>, p: Point2D, e: int)
    requires
        sorted_lex(c),
        strict_left_turns(c),
        c.len() >= 2,
        forall|t: int| 0 <= t < c.len() ==> lex_le(#[trigger] c[t], p),
        cross(c[c.len() - 2], c[c.len() - 1], p) > 0,
        0 <= e,
        e + 1 < c.len(),
    ensures
        cross(c[e], c[e + 1], p) >= 0,
    decreases c.len() - e,
{
    if e == c.len() - 2 {
    } else {
        lemma_chain_extension_asc(c, p, e + 1);
        let f = e + 1;
        if e + 2 == c.len() - 1 {
            lemma_turn_edge_gains_x(c[e + 1], c[e + 2], p);
        } else {
            assert(cross(c[f], c[f + 1], c[f + 2]) > 0);
            lemma_turn_edge_gains_x(c[f], c[f + 1], c[f + 2]);
        }
        lemma_cross_triangle(c[e], c[e + 1], c[e + 2], p);
        let tr = cross(c[e], c[e + 1], c[e + 2]);
        let rec = cross(c[e + 1], c[e + 2], p);
        assert(tr > 0);
        let vx = c[e + 2].x - c[e + 1].x;
        let wx = p.x - c[e + 1].x;
        let ux = c[e + 1].x - c[e].x;
        assert(lex_le(c[e], c[e + 1]) && lex_le(c[e + 1], p));
        let goal = cross(c[e], c[e + 1], p);
        assert(wx * tr >= 0) by (nonlinear_arith)
            requires wx >= 0, tr > 0;
        assert(ux * rec >= 0) by (nonlinear_arith)
            requires ux >= 0, rec >= 0;
        assert(goal >= 0) by (nonlinear_arith)
            requires
                vx > 0,
                vx * goal >= 0;
    }
}

/// The mirror image of the ascending chain-extension fact, for the
/// descending (upper) chain.
proof fn lemma_chain_extension_desc(c: Seq<Point2D>, p: Point2D, e: int)
    requires
        rev_sorted_lex(c),
        strict_left_turns(c),
        c.len() >= 2,
        forall|t: int| 0 <= t < c.len() ==> lex_le(p, #[trigger] c[t]),
        cross(c[c.len() - 2], c[c.len() - 1], p) > 0,
        0 <= e,
        e + 1 < c.len(),
    ensures
        cross(c[e], c[e + 1], p) >= 0,
    decreases c.len() - e,
{
    if e == c.len() - 2 {
    } else {
        lemma_chain_extension_desc(c, p, e + 1);
        let f = e + 1;
        if e + 2 == c.len() - 1 {
            lemma_turn_edge_loses_x(c[e + 1], c[e + 2], p);
        } else {
            assert(cross(c[f], c[f + 1], c[f + 2]) > 0);
            lemma_turn_edge_loses_x(c[f], c[f + 1], c[f + 2]);
        }
        lemma_cross_triangle(c[e], c[e + 1], c[e + 2], p);
        let tr = cross(c[e], c[e + 1], c[e + 2]);
        let rec = cross(c[e + 1], c[e + 2], p);
        assert(tr > 0);
        let vx = c[e + 2].x - c[e + 1].x;
        let wx = p.x - c[e + 1].x;
        let ux = c[e + 1].x - c[e].x;
        assert(lex_le(c[e + 1], c[e]) && lex_le(p, c[e + 1]));
        let goal = cross(c[e], c[e + 1], p);
        assert(wx * tr <= 0) by (nonlinear_arith)
            requires wx <= 0, tr > 0;
        assert(ux * rec <= 0) by (nonlinear_arith)
            requires ux <= 0, rec >= 0;
        assert(goal >= 0) by (nonlinear_arith)
            requires
                vx < 0,
                vx * goal <= 0;
    }
}

/// The sum of the x coordinates of a point sequence.
pub open spec fn sum_x(s: Seq<Point2D>) -> int
    decreases s.len(),
{
    if s.len() == 0 {
        0
    } else {
        sum_x(s.drop_last()) + s.last().x
    }
}

/// The sum of the y coordinates of a point sequence.
pub open spec fn sum_y(s: Seq<Point2D>) -> int
    decreases s.len(),
{
    if s.len() == 0 {
        0
    } else {
        sum_y(s.drop_last()) + s.last().y
    }
}

/// A sequence of one repeated point sums to that point scaled by the
/// sequence's length.
proof fn lemma_sum_of_identical_points(s: Seq<Point2D>, p: Point2D)
    requires
        forall|i: int| 0 <= i < s.len() ==> s[i] == p,
    ensures
        sum_x(s) == s.len() * p.x,
        sum_y(s) == s.len() * p.y,
    decreases s.len(),
{
    if s.len() == 0 {
    } else {
        lemma_sum_of_identical_points(s.drop_last(), p);
        assert(s.len() * p.x == (s.len() - 1) * p.x + p.x) by (nonlinear_arith);
        assert(s.len() * p.y == (s.len() - 1) * p.y + p.y) by (nonlinear_arith);
    }
}

/// The centroid of any number of copies of one point is that point: the
/// coordinate sums are exact multiples of the count, so the truncating
/// mean loses nothing.
pub proof fn lemma_centroid_of_identical_points(s: Seq<Point2D>, p: Point2D)
    requires
        s.len() > 0,
        forall|i: int| 0 <= i < s.len() ==> s[i] == p,
    ensures
        div_trunc(sum_x(s), s.len() as int) == p.x,
        div_trunc(sum_y(s), s.len() as int) == p.y,
{
    lemma_sum_of_identical_points(s, p);
    crate::scalar::lemma_div_trunc_exact(p.x as int, s.len() as int);
    crate::scalar::lemma_div_trunc_exact(p.y as int, s.len() as int);
    assert(s.len() * p.x == p.x * s.len()) by (nonlinear_arith);
    assert(s.len() * p.y == p.y * s.len()) by (nonlinear_arith);
}

/// The centroid of a point set: the arithmetic mean of the coordinates,
/// taken with the scalar's own (truncating) division.  An empty set has no
/// centroid, and that is reported rather than computed around.
pub fn centroid_2d(points: &Vec<Point2D>) -> (r: Option<Point2D>)
    ensures
        r is Some <==> points@.len() > 0,
        points@.len() > 0 ==> (r matches Some(c)
            && c.x == div_trunc(sum_x(points@), points@.len() as int)
            && c.y == div_trunc(sum_y(points@), points@.len() as int)),
{
    let n = points.len();
    if n == 0 {
        return None;
    }
    let mut sx: i128 = 0;
    let mut sy: i128 = 0;
    let mut i: usize = 0;
    while i < n
        invariant
            i <= n,
            n == points@.len(),
            sx == sum_x(points@.take(i as int)),
            sy == sum_y(points@.take(i as int)),
            -0x8000_0000 * (i as int) <= sx <= 0x7fff_ffff * (i as int),
            -0x8000_0000 * (i as int) <= sy <= 0x7fff_ffff * (i as int),
        decreases n - i,
    {
        proof {
            assert(points@.take(i + 1).drop_last() =~= points@.take(i as int));
            assert(points@.take(i + 1).last() == points@[i as int]);
        }
        sx = sx + points[i].x as i128;
        sy = sy + points[i].y as i128;
        i = i + 1;
    }
    proof {
        assert(points@.take(n as int) =~= points@);
        lemma_div_trunc_between(sx as int, n as int, -0x8000_0000, 0x7fff_ffff);
        lemma_div_trunc_between(sy as int, n as int, -0x8000_0000, 0x7fff_ffff);
    }
    Some(Point2D { x: (sx / (n as i128)) as i32, y: (sy / (n as i128)) as i32 })
}

/// The axis-aligned bounding box of a point set, as its min corner and max
/// corner: every point lies between the corners, and each corner
/// coordinate is attained by some point.  An empty set has no box.
pub fn bounding_box_2d(points: &Vec<Point2D>) -> (r: Option<(Point2D, Point2D)>)
    ensures
        r is Some <==> points@.len() > 0,
        points@.len() > 0 ==> (r matches Some(bb) && {
            &&& forall|k: int| 0 <= k < points@.len() ==> {
                &&& bb.0.x <= (#[trigger] points@[k]).x <= bb.1.x
                &&& bb.0.y <= points@[k].y <= bb.1.y
            }
            &&& exists|k: int| 0 <= k < points@.len() && (#[trigger] points@[k]).x == bb.0.x
            &&& exists|k: int| 0 <= k < points@.len() && (#[trigger] points@[k]).y == bb.0.y
            &&& exists|k: int| 0 <= k < points@.len() && (#[trigger] points@[k]).x == bb.1.x
            &&& exists|k: int| 0 <= k < points@.len() && (#[trigger] points@[k]).y == bb.1.y
        }),
{
    let n = points.len();
    if n == 0 {
        return None;
    }
    let first = points[0];
    let mut min_x = first.x;
    let mut min_y = first.y;
    let mut max_x = first.x;
    let mut max_y = first.y;
    let mut i: usize = 1;
    while i < n
        invariant
            1 <= i <= n,
            n == points@.len(),
            forall|k: int| 0 <= k < i ==> {
                &&& min_x <= (#[trigger] points@[k]).x <= max_x
                &&& min_y <= points@[k].y <= max_y
            },
            exists|k: int| 0 <= k < i && (#[trigger] points@[k]).x == min_x,
            exists|k: int| 0 <= k < i && (#[trigger] points@[k]).y == min_y,
            exists|k: int| 0 <= k < i && (#[trigger] points@[k]).x == max_x,
            exists|k: int| 0 <= k < i && (#[trigger] points@[k]).y == max_y,
        decreases n - i,
    {
        let p = points[i];
        if p.x < min_x {
            min_x = p.x;
        }
        if p.y < min_y {
            min_y = p.y;
        }
        if p.x > max_x {
            max_x = p.x;
        }
        if p.y > max_y {
            max_y = p.y;
        }
        i = i + 1;
    }
    Some((Point2D { x: min_x, y: min_y }, Point2D { x: max_x, y: max_y }))
}

/// The turn test, computed exactly in the wide scalar.
fn cross_points(o: Point2D, a: Point2D, b: Point2D) -> (r: i128)
    ensures
        r == cross(o, a, b),
{
    let ax: i64 = a.x as i64 - o.x as i64;
    let ay: i64 = a.y as i64 - o.y as i64;
    let bx: i64 = b.x as i64 - o.x as i64;
    let by: i64 = b.y as i64 - o.y as i64;
    proof {
        lemma_mul_abs_bound(ax as int, by as int, 0x1_0000_0000, 0x1_0000_0000);
        lemma_mul_abs_bound(ay as int, bx as int, 0x1_0000_0000, 0x1_0000_0000);
    }
    (ax as i128) * (by as i128) - (ay as i128) * (bx as i128)
}

/// A fresh vector holding the same points in the same order.
fn copied_points(points: &Vec<Point2D>) -> (r: Vec<Point2D>)
    ensures
        r@ == points@,
{
    let mut r: Vec<Point2D> = Vec::new();
    let mut i: usize = 0;
    while i < points.len()
        invariant
            i <= points@.len(),
            r@ == points@.take(i as int),
        decreases points@.len() - i,
    {
        r.push(points[i]);
        proof {
            assert(points@.take(i + 1) =~= points@.take(i as int).push(points@[i as int]));
        }
        i = i + 1;
    }
    proof {
        assert(points@.take(points@.len() as int) =~= points@);
    }
    r
}

/// Insertion sort into lexicographic order; the points are rearranged and
/// none is gained or lost.
fn sort_lex(v: &mut Vec<Point2D>)
    ensures
        final(v)@.len() == old(v)@.len(),
        final(v)@.to_multiset() == old(v)@.to_multiset(),
        sorted_lex(final(v)@),
{
    broadcast use vstd::seq_lib::group_to_multiset_ensures;
    broadcast use vstd::multiset::group_multiset_axioms;

    let n = v.len();
    if n < 2 {
        return;
    }
    let mut i: usize = 1;
    while i < n
        invariant
            n == v@.len(),
            1 <= i <= n,
            v@.to_multiset() == old(v)@.to_multiset(),
            sorted_lex(v@.take(i as int)),
        decreases n - i,
    {
        let mut j: usize = i;
        while j > 0 && (v[j].x < v[j - 1].x || (v[j].x == v[j - 1].x && v[j].y < v[j - 1].y))
            invariant
                n == v@.len(),
                0 <= j <= i < n,
                v@.to_multiset() == old(v)@.to_multiset(),
                sorted_lex(v@.take(j as int)),
                forall|k1: int, k2: int| j <= k1 <= k2 <= i ==> lex_le(#[trigger] v@[k1], #[trigger] v@[k2]),
                forall|k1: int, k2: int| 0 <= k1 < j && j < k2 <= i ==> lex_le(#[trigger] v@[k1], #[trigger] v@[k2]),
            decreases j,
        {
            let ghost s0 = v@;
            let a = v[j - 1];
            let b = v[j];
            v[j - 1] = b;
            v[j] = a;
            proof {
                let jj = j as int;
                let s1 = s0.update(jj - 1, b);
                assert(v@ =~= s1.update(jj, a));
                assert(s1[jj] == b && s0[jj - 1] == a);
                let m0 = s0.to_multiset();
                assert(s0.contains(a)) by {
                    assert(s0[jj - 1] == a);
                }
                vstd::seq_lib::to_multiset_contains(s0, a);
                assert(m0.count(a) > 0);
                vstd::seq_lib::to_multiset_update(s0, jj - 1, b);
                assert(s1.to_multiset() == m0.insert(b).remove(a));
                vstd::seq_lib::to_multiset_update(s1, jj, a);
                assert(v@.to_multiset() == m0.insert(b).remove(a).insert(a).remove(b));
                assert forall|x: Point2D| v@.to_multiset().count(x) == m0.count(x) by {
                    assert(m0.insert(b).count(x) == m0.count(x) + if x == b { 1int } else { 0 });
                    assert(m0.insert(b).count(a) > 0);
                }
                assert(v@.to_multiset() =~= s0.to_multiset());
                assert(v@.take(jj - 1) =~= s0.take(jj - 1));
                assert forall|k1: int, k2: int| jj - 1 <= k1 <= k2 <= i implies lex_le(
                    #[trigger] v@[k1],
                    #[trigger] v@[k2],
                ) by {
                    if k1 == jj - 1 && k2 >= jj {
                        assert(v@[k1] == s0[jj]);
                        assert(k2 > jj ==> v@[k2] == s0[k2] && lex_le(s0[jj], s0[k2]));
                    } else if k1 == jj && k2 > jj {
                        assert(v@[k1] == s0[jj - 1] && v@[k2] == s0[k2]);
                        assert(lex_le(s0[jj - 1], s0[k2]));
                    } else if k1 > jj {
                        assert(v@[k1] == s0[k1] && v@[k2] == s0[k2]);
                    }
                }
                assert forall|k1: int, k2: int| 0 <= k1 < jj - 1 && jj - 1 < k2 <= i implies lex_le(
                    #[trigger] v@[k1],
                    #[trigger] v@[k2],
                ) by {
                    assert(v@[k1] == s0[k1]);
                    if k2 == jj {
                        assert(v@[k2] == s0[jj - 1]);
                        assert(lex_le(s0.take(jj)[k1], s0.take(jj)[jj - 1]));
                    } else {
                        assert(v@[k2] == s0[k2]);
                        assert(lex_le(s0[k1], s0[k2]));
                    }
                }
            }
            j = j - 1;
        }
        proof {
            let jj = j as int;
            assert forall|k1: int, k2: int| 0 <= k1 <= k2 <= i implies lex_le(
                #[trigger] v@[k1],
                #[trigger] v@[k2],
            ) by {
                if k2 < jj {
                    assert(lex_le(v@.take(jj)[k1], v@.take(jj)[k2]));
                } else if k1 < jj {
                    assert(lex_le(v@.take(jj)[k1], v@.take(jj)[jj - 1]));
                    assert(lex_le(v@[jj - 1], v@[jj]));
                    if k2 > jj {
                        assert(lex_le(v@[k1], v@[k2]));
                    }
                }
            }
            assert forall|k1: int, k2: int| 0 <= k1 <= k2 < i + 1 implies lex_le(
                #[trigger] v@.take(i + 1)[k1],
                #[trigger] v@.take(i + 1)[k2],
            ) by {
                assert(lex_le(v@[k1], v@[k2]));
            }
        }
        i = i + 1;
    }
    proof {
        assert(v@.take(n as int) =~= v@);
    }
}

/// The convex hull of a point set, by Andrew's monotone-chain scan:
/// fewer than three points pass through unchanged; otherwise the points
/// are sorted lexicographically and a lower and an upper chain are built
/// with the strict cross-product turn test, so collinear and duplicate
/// points are popped.  The result walks the hull counter-clockwise from
/// the lexicographically least input point, splitting at the greatest
/// into an ascending and a descending chain that both turn strictly
/// left, every vertex is an input point, and every input point lies on
/// or left of every edge of the walk, the closing edge included: the
/// walk encloses the whole set.
#[verifier::rlimit(60)]
pub fn convex_hull_2d(points: &Vec<Point2D>) -> (r: Vec<Point2D>)
    ensures
        points@.len() < 3 ==> r@ == points@,
        forall|i: int| 0 <= i < r@.len() ==> points@.contains(#[trigger] r@[i]),
        points@.len() >= 3 ==> r@.len() >= 2,
        points@.len() >= 3 ==> forall|k: int| 0 <= k < points@.len() ==> lex_le(
            r@[0],
            #[trigger] points@[k],
        ),
        points@.len() >= 3 ==> exists|k: int|
            #![trigger r@.take(k + 1)]
            {
                &&& 1 <= k < r@.len()
                &&& sorted_lex(r@.take(k + 1))
                &&& rev_sorted_lex(r@.skip(k).push(r@[0]))
                &&& strict_left_turns(r@.take(k + 1))
                &&& strict_left_turns(r@.skip(k).push(r@[0]))
                &&& forall|m: int| 0 <= m < points@.len() ==> lex_le(#[trigger] points@[m], r@[k])
            },
        points@.len() >= 3 ==> forall|e: int, m: int|
            0 <= e < r@.len() - 1 && 0 <= m < points@.len() ==> #[trigger] cross(
                r@[e],
                r@[e + 1],
                points@[m],
            ) >= 0,
        points@.len() >= 3 ==> forall|m: int| 0 <= m < points@.len() ==> #[trigger] cross(
            r@[r@.len() - 1],
            r@[0],
            points@[m],
        ) >= 0,
{
    broadcast use vstd::seq_lib::group_to_multiset_ensures;

    let mut pts = copied_points(points);
    if pts.len() < 3 {
        return pts;
    }
    sort_lex(&mut pts);
    let n = pts.len();
    let mut lower: Vec<Point2D> = Vec::new();
    let mut idx: usize = 0;
    while idx < n
        invariant
            n == pts@.len(),
            3 <= n,
            idx <= n,
            sorted_lex(pts@),
            lower@.len() <= idx,
            idx >= 1 ==> lower@.len() >= 1 && lower@[0] == pts@[0],
            idx >= 2 ==> lower@.len() >= 2,
            idx >= 1 ==> lower@.last() == pts@[idx - 1],
            idx >= 1 ==> forall|t: int| 0 <= t < lower@.len() ==> lex_le(
                #[trigger] lower@[t],
                pts@[idx - 1],
            ),
            sorted_lex(lower@),
            strict_left_turns(lower@),
            forall|t: int| 0 <= t < lower@.len() ==> pts@.contains(#[trigger] lower@[t]),
            forall|qi: int, e: int| 0 <= qi < idx && 0 <= e && e + 1 < lower@.len() ==> #[trigger] cross(
                lower@[e],
                lower@[e + 1],
                pts@[qi],
            ) >= 0,
        decreases n - idx,
    {
        let p = pts[idx];
        proof {
            if idx >= 1 {
                assert forall|qi: int| 0 <= qi < idx implies pts@[qi].x <= lower@.last().x by {
                    assert(lex_le(pts@[qi], pts@[idx - 1]));
                }
            }
        }
        while lower.len() >= 2 && cross_points(lower[lower.len() - 2], lower[lower.len() - 1], p) <= 0
            invariant
                n == pts@.len(),
                idx < n,
                p == pts@[idx as int],
                sorted_lex(pts@),
                lower@.len() <= idx,
                idx >= 1 ==> lower@.len() >= 1 && lower@[0] == pts@[0],
                idx >= 1 ==> forall|t: int| 0 <= t < lower@.len() ==> lex_le(
                    #[trigger] lower@[t],
                    pts@[idx - 1],
                ),
                sorted_lex(lower@),
                strict_left_turns(lower@),
                forall|t: int| 0 <= t < lower@.len() ==> pts@.contains(#[trigger] lower@[t]),
                forall|qi: int, e: int| 0 <= qi < idx && 0 <= e && e + 1 < lower@.len() ==> #[trigger] cross(
                    lower@[e],
                    lower@[e + 1],
                    pts@[qi],
                ) >= 0,
                lower@.len() >= 1 ==> forall|qi: int| 0 <= qi < idx ==> (#[trigger] pts@[qi]).x
                    <= lower@.last().x || cross(lower@.last(), p, pts@[qi]) >= 0,
            decreases lower@.len(),
        {
            let ghost lpre = lower@;
            let _ = lower.pop();
            proof {
                assert(lower@ =~= lpre.take(lpre.len() - 1));
                assert forall|t: int| 0 <= t && t + 2 < lower@.len() implies #[trigger] cross(
                    lower@[t],
                    lower@[t + 1],
                    lower@[t + 2],
                ) > 0 by {
                    assert(cross(lpre[t], lpre[t + 1], lpre[t + 2]) > 0);
                }
                assert forall|qi: int, e: int| 0 <= qi < idx && 0 <= e && e + 1 < lower@.len()
                    implies #[trigger] cross(lower@[e], lower@[e + 1], pts@[qi]) >= 0 by {
                    assert(cross(lpre[e], lpre[e + 1], pts@[qi]) >= 0);
                }
                let o = lower@.last();
                let tt = lpre.last();
                assert(o == lpre[lpre.len() - 2]);
                assert(cross(o, tt, p) <= 0);
                assert forall|qi: int| 0 <= qi < idx implies (#[trigger] pts@[qi]).x <= o.x
                    || cross(o, p, pts@[qi]) >= 0 by {
                    let q = pts@[qi];
                    assert(q.x <= tt.x || cross(tt, p, q) >= 0);
                    let ee = lpre.len() - 2;
                    assert(cross(lpre[ee], lpre[ee + 1], q) >= 0);
                    assert(lpre[ee] == o && lpre[ee + 1] == tt);
                    assert(lex_le(o, pts@[idx - 1]) && lex_le(pts@[idx - 1], p));
                    if q.x > o.x {
                        if q.x <= tt.x {
                            lemma_cross_rotation(o, tt, p, q);
                            let vx = tt.x - o.x as int;
                            let goal = cross(o, p, q);
                            let c2 = cross(o, p, tt);
                            let c3 = cross(o, tt, q);
                            let c5 = cross(o, tt, p);
                            assert(c2 == -c5) by (nonlinear_arith)
                                requires
                                    c2 == (p.x - o.x) * (tt.y - o.y) - (p.y - o.y) * (tt.x - o.x),
                                    c5 == (tt.x - o.x) * (p.y - o.y) - (tt.y - o.y) * (p.x - o.x);
                            assert(lex_le(o, tt));
                            assert((q.x - o.x) * c2 >= 0) by (nonlinear_arith)
                                requires q.x - o.x >= 0, c2 >= 0;
                            assert((p.x - o.x) * c3 >= 0) by (nonlinear_arith)
                                requires p.x - o.x >= 0, c3 >= 0;
                            assert(goal >= 0) by (nonlinear_arith)
                                requires vx > 0, vx * goal >= 0;
                        } else {
                            lemma_cross_shift(o, tt, p, q);
                        }
                    }
                }
            }
        }
        proof {
            assert(pts@.contains(p)) by {
                assert(pts@[idx as int] == p);
            }
            assert(idx >= 1 ==> lex_le(pts@[idx - 1], pts@[idx as int]));
        }
        let ghost lpre = lower@;
        lower.push(p);
        proof {
            assert forall|t: int| 0 <= t && t + 2 < lower@.len() implies #[trigger] cross(
                lower@[t],
                lower@[t + 1],
                lower@[t + 2],
            ) > 0 by {
                if t + 2 < lpre.len() {
                    assert(cross(lpre[t], lpre[t + 1], lpre[t + 2]) > 0);
                } else {
                    assert(lower@[t] == lpre[t] && lower@[t + 1] == lpre[t + 1]);
                    assert(lower@[t + 2] == p);
                }
            }
            assert forall|qi: int, e: int| 0 <= qi < idx + 1 && 0 <= e && e + 1 < lower@.len()
                implies #[trigger] cross(lower@[e], lower@[e + 1], pts@[qi]) >= 0 by {
                let q = pts@[qi];
                if e + 2 < lower@.len() {
                    assert(lower@[e] == lpre[e] && lower@[e + 1] == lpre[e + 1]);
                    if qi < idx {
                        assert(cross(lpre[e], lpre[e + 1], q) >= 0);
                    } else {
                        lemma_chain_extension_asc(lpre, p, e);
                    }
                } else {
                    let o = lpre.last();
                    assert(lower@[e] == o && lower@[e + 1] == p);
                    if qi == idx {
                        assert(cross(o, p, q) == 0);
                    } else if q.x <= o.x {
                        assert(lex_le(o, pts@[idx - 1]) && lex_le(pts@[idx - 1], p));
                        if lpre.len() >= 2 {
                            let s = lpre[lpre.len() - 2];
                            assert(cross(s, o, p) > 0);
                            let ee = lpre.len() - 2;
                            assert(cross(lpre[ee], lpre[ee + 1], q) >= 0);
                            assert(lpre[ee] == s && lpre[ee + 1] == o);
                            assert(lex_le(s, o));
                            lemma_turn_edge_gains_x(s, o, p);
                            lemma_cross_triangle(s, o, p, q);
                            let vx = o.x - s.x as int;
                            let goal = cross(o, p, q);
                            assert((p.x - o.x) * cross(s, o, q) >= 0) by (nonlinear_arith)
                                requires p.x - o.x >= 0, cross(s, o, q) >= 0;
                            assert((q.x - o.x) * cross(s, o, p) <= 0) by (nonlinear_arith)
                                requires q.x - o.x <= 0, cross(s, o, p) > 0;
                            assert(goal >= 0) by (nonlinear_arith)
                                requires vx > 0, vx * goal >= 0;
                        } else {
                            assert(o == pts@[0]);
                            assert(lex_le(o, q));
                            assert(q.x == o.x && q.y >= o.y);
                            let goal = cross(o, p, q);
                            assert(goal >= 0) by (nonlinear_arith)
                                requires
                                    goal == (p.x - o.x) * (q.y - o.y) - (p.y - o.y) * (q.x - o.x),
                                    q.x == o.x,
                                    p.x - o.x >= 0,
                                    q.y - o.y >= 0;
                        }
                    }
                }
            }
        }
        idx = idx + 1;
    }
    let mut upper: Vec<Point2D> = Vec::new();
    let mut ridx: usize = n;
    while ridx > 0
        invariant
            n == pts@.len(),
            3 <= n,
            ridx <= n,
            sorted_lex(pts@),
            upper@.len() <= n - ridx,
            ridx <= n - 1 ==> upper@.len() >= 1 && upper@[0] == pts@[n - 1],
            ridx <= n - 2 ==> upper@.len() >= 2,
            ridx <= n - 1 ==> upper@.last() == pts@[ridx as int],
            ridx <= n - 1 ==> forall|t: int| 0 <= t < upper@.len() ==> lex_le(
                pts@[ridx as int],
                #[trigger] upper@[t],
            ),
            rev_sorted_lex(upper@),
            strict_left_turns(upper@),
            forall|t: int| 0 <= t < upper@.len() ==> pts@.contains(#[trigger] upper@[t]),
            forall|qi: int, e: int| ridx <= qi < n && 0 <= e && e + 1 < upper@.len() ==> #[trigger] cross(
                upper@[e],
                upper@[e + 1],
                pts@[qi],
            ) >= 0,
        decreases ridx,
    {
        let p = pts[ridx - 1];
        proof {
            if ridx <= n - 1 {
                assert forall|qi: int| ridx <= qi < n implies pts@[qi].x >= upper@.last().x by {
                    assert(lex_le(pts@[ridx as int], pts@[qi]));
                }
            }
        }
        while upper.len() >= 2 && cross_points(upper[upper.len() - 2], upper[upper.len() - 1], p) <= 0
            invariant
                n == pts@.len(),
                1 <= ridx <= n,
                p == pts@[ridx - 1],
                sorted_lex(pts@),
                upper@.len() <= n - ridx,
                ridx <= n - 1 ==> upper@.len() >= 1 && upper@[0] == pts@[n - 1],
                ridx <= n - 1 ==> forall|t: int| 0 <= t < upper@.len() ==> lex_le(
                    pts@[ridx as int],
                    #[trigger] upper@[t],
                ),
                rev_sorted_lex(upper@),
                strict_left_turns(upper@),
                forall|t: int| 0 <= t < upper@.len() ==> pts@.contains(#[trigger] upper@[t]),
                forall|qi: int, e: int| ridx <= qi < n && 0 <= e && e + 1 < upper@.len() ==> #[trigger] cross(
                    upper@[e],
                    upper@[e + 1],
                    pts@[qi],
                ) >= 0,
                upper@.len() >= 1 ==> forall|qi: int| ridx <= qi < n ==> (#[trigger] pts@[qi]).x
                    >= upper@.last().x || cross(upper@.last(), p, pts@[qi]) >= 0,
            decreases upper@.len(),
        {
            let ghost upre = upper@;
            let _ = upper.pop();
            proof {
                assert(upper@ =~= upre.take(upre.len() - 1));
                assert forall|t: int| 0 <= t && t + 2 < upper@.len() implies #[trigger] cross(
                    upper@[t],
                    upper@[t + 1],
                    upper@[t + 2],
                ) > 0 by {
                    assert(cross(upre[t], upre[t + 1], upre[t + 2]) > 0);
                }
                assert forall|qi: int, e: int| ridx <= qi < n && 0 <= e && e + 1 < upper@.len()
                    implies #[trigger] cross(upper@[e], upper@[e + 1], pts@[qi]) >= 0 by {
                    assert(cross(upre[e], upre[e + 1], pts@[qi]) >= 0);
                }
                let o = upper@.last();
                let tt = upre.last();
                assert(o == upre[upre.len() - 2]);
                assert(cross(o, tt, p) <= 0);
                assert forall|qi: int| ridx <= qi < n implies (#[trigger] pts@[qi]).x >= o.x
                    || cross(o, p, pts@[qi]) >= 0 by {
                    let q = pts@[qi];
                    assert(q.x >= tt.x || cross(tt, p, q) >= 0);
                    let ee = upre.len() - 2;
                    assert(cross(upre[ee], upre[ee + 1], q) >= 0);
                    assert(upre[ee] == o && upre[ee + 1] == tt);
                    assert(lex_le(pts@[ridx as int], o) && lex_le(p, pts@[ridx as int]));
                    if q.x < o.x {
                        if q.x >= tt.x {
                            lemma_cross_rotation(o, tt, p, q);
                            let vx = tt.x - o.x as int;
                            let goal = cross(o, p, q);
                            let c2 = cross(o, p, tt);
                            let c3 = cross(o, tt, q);
                            let c5 = cross(o, tt, p);
                            assert(c2 == -c5) by (nonlinear_arith)
                                requires
                                    c2 == (p.x - o.x) * (tt.y - o.y) - (p.y - o.y) * (tt.x - o.x),
                                    c5 == (tt.x - o.x) * (p.y - o.y) - (tt.y - o.y) * (p.x - o.x);
                            assert(lex_le(tt, o));
                            assert((q.x - o.x) * c2 <= 0) by (nonlinear_arith)
                                requires q.x - o.x <= 0, c2 >= 0;
                            assert((p.x - o.x) * c3 <= 0) by (nonlinear_arith)
                                requires p.x - o.x <= 0, c3 >= 0;
                            assert(goal >= 0) by (nonlinear_arith)
                                requires vx < 0, vx * goal <= 0;
                        } else {
                            lemma_cross_shift(o, tt, p, q);
                        }
                    }
                }
            }
        }
        proof {
            assert(pts@.contains(p)) by {
                assert(pts@[ridx - 1] == p);
            }
            assert(ridx <= n - 1 ==> lex_le(pts@[ridx - 1], pts@[ridx as int]));
        }
        let ghost upre = upper@;
        upper.push(p);
        proof {
            assert forall|t: int| 0 <= t && t + 2 < upper@.len() implies #[trigger] cross(
                upper@[t],
                upper@[t + 1],
                upper@[t + 2],
            ) > 0 by {
                if t + 2 < upre.len() {
                    assert(cross(upre[t], upre[t + 1], upre[t + 2]) > 0);
                } else {
                    assert(upper@[t] == upre[t] && upper@[t + 1] == upre[t + 1]);
                    assert(upper@[t + 2] == p);
                }
            }
            assert forall|qi: int, e: int| ridx - 1 <= qi < n && 0 <= e && e + 1 < upper@.len()
                implies #[trigger] cross(upper@[e], upper@[e + 1], pts@[qi]) >= 0 by {
                let q = pts@[qi];
                if e + 2 < upper@.len() {
                    assert(upper@[e] == upre[e] && upper@[e + 1] == upre[e + 1]);
                    if qi >= ridx {
                        assert(cross(upre[e], upre[e + 1], q) >= 0);
                    } else {
                        lemma_chain_extension_desc(upre, p, e);
                    }
                } else {
                    let o = upre.last();
                    assert(upper@[e] == o && upper@[e + 1] == p);
                    if qi == ridx - 1 {
                        assert(cross(o, p, q) == 0);
                    } else if q.x >= o.x {
                        assert(lex_le(pts@[ridx as int], o) && lex_le(p, pts@[ridx as int]));
                        if upre.len() >= 2 {
                            let s = upre[upre.len() - 2];
                            assert(cross(s, o, p) > 0);
                            let ee = upre.len() - 2;
                            assert(cross(upre[ee], upre[ee + 1], q) >= 0);
                            assert(upre[ee] == s && upre[ee + 1] == o);
                            assert(lex_le(o, s));
                            lemma_turn_edge_loses_x(s, o, p);
                            lemma_cross_triangle(s, o, p, q);
                            let vx = o.x - s.x as int;
                            let goal = cross(o, p, q);
                            assert((p.x - o.x) * cross(s, o, q) <= 0) by (nonlinear_arith)
                                requires p.x - o.x <= 0, cross(s, o, q) >= 0;
                            assert((q.x - o.x) * cross(s, o, p) >= 0) by (nonlinear_arith)
                                requires q.x - o.x >= 0, cross(s, o, p) > 0;
                            assert(goal >= 0) by (nonlinear_arith)
                                requires vx < 0, vx * goal <= 0;
                        } else {
                            assert(o == pts@[n - 1]);
                            assert(lex_le(q, o));
                            assert(q.x == o.x && q.y <= o.y);
                            let goal = cross(o, p, q);
                            assert(goal >= 0) by (nonlinear_arith)
                                requires
                                    goal == (p.x - o.x) * (q.y - o.y) - (p.y - o.y) * (q.x - o.x),
                                    q.x == o.x,
                                    p.x - o.x <= 0,
                                    q.y - o.y <= 0;
                        }
                    }
                }
            }
        }
        ridx = ridx - 1;
    }
    let ghost lowfull = lower@;
    let ghost upfull = upper@;
    let _ = lower.pop();
    let _ = upper.pop();
    let ghost low = lower@;
    let ghost up = upper@;
    lower.append(&mut upper);
    proof {
        assert(lower@ == low + up);
        let k = low.len() as int;
        assert(lower@.take(k + 1) =~= lowfull) by {
            assert(lowfull.last() == pts@[n - 1] && upfull[0] == pts@[n - 1]);
        }
        assert(lower@.skip(k).push(lower@[0]) =~= upfull) by {
            assert(upfull.last() == pts@[0] && lowfull[0] == pts@[0]);
            assert(lower@[0] == low[0] && low[0] == lowfull[0]);
            assert forall|s: int| 0 <= s < up.len() implies lower@.skip(k)[s] == upfull[s] by {
                assert(lower@[k + s] == up[s]);
                assert(up[s] == upfull[s]);
            }
        }
        assert forall|m: int| 0 <= m < points@.len() implies lex_le(
            #[trigger] points@[m],
            lower@[k],
        ) by {
            let q = points@[m];
            assert(points@.contains(q));
            assert(points@.to_multiset().contains(q));
            assert(pts@.to_multiset().contains(q));
            assert(pts@.contains(q));
            let j = choose|j: int| 0 <= j < pts@.len() && pts@[j] == q;
            assert(lex_le(pts@[j], pts@[n - 1]));
            assert(lower@[k] == lower@.take(k + 1)[k] && lower@.take(k + 1)[k] == lowfull[k]);
            assert(lowfull[k] == lowfull.last() && lowfull.last() == pts@[n - 1]);
        }
        assert(1 <= k < lower@.len());
        assert(sorted_lex(lower@.take(k + 1)));
        assert(rev_sorted_lex(lower@.skip(k).push(lower@[0])));
        assert(strict_left_turns(lower@.take(k + 1)));
        assert(strict_left_turns(lower@.skip(k).push(lower@[0])));
        assert forall|t: int| 0 <= t < lower@.len() implies points@.contains(lower@[t]) by {
            let q = lower@[t];
            if t < low.len() {
                assert(pts@.contains(q));
            } else {
                assert(up[t - low.len()] == q);
                assert(pts@.contains(q));
            }
            assert(pts@.to_multiset().contains(q));
            assert(points@.to_multiset().contains(q));
        }
        assert forall|m: int| 0 <= m < points@.len() implies lex_le(lower@[0], points@[m]) by {
            let q = points@[m];
            assert(points@.contains(q));
            assert(points@.to_multiset().contains(q));
            assert(pts@.to_multiset().contains(q));
            assert(pts@.contains(q));
            let j = choose|j: int| 0 <= j < pts@.len() && pts@[j] == q;
            assert(lex_le(pts@[0], pts@[j]));
            assert(lower@[0] == pts@[0]);
        }
        assert forall|e: int, m: int| 0 <= e < lower@.len() - 1 && 0 <= m < points@.len()
            implies #[trigger] cross(lower@[e], lower@[e + 1], points@[m]) >= 0 by {
            let q = points@[m];
            assert(points@.contains(q));
            assert(points@.to_multiset().contains(q));
            assert(pts@.to_multiset().contains(q));
            assert(pts@.contains(q));
            let j = choose|j: int| 0 <= j < pts@.len() && pts@[j] == q;
            if e < k {
                assert(cross(lowfull[e], lowfull[e + 1], pts@[j]) >= 0);
                assert(lower@.take(k + 1)[e] == lower@[e] && lower@.take(k + 1)[e + 1] == lower@[e
                    + 1]);
            } else {
                let s = e - k;
                assert(cross(upfull[s], upfull[s + 1], pts@[j]) >= 0);
                assert(lower@.skip(k)[s] == lower@[e] && lower@.skip(k)[s + 1] == lower@[e + 1]);
                assert(upfull[s] == lower@[e] && upfull[s + 1] == lower@[e + 1]);
            }
        }
        assert forall|m: int| 0 <= m < points@.len() implies #[trigger] cross(
            lower@[lower@.len() - 1],
            lower@[0],
            points@[m],
        ) >= 0 by {
            let q = points@[m];
            assert(points@.contains(q));
            assert(points@.to_multiset().contains(q));
            assert(pts@.to_multiset().contains(q));
            assert(pts@.contains(q));
            let j = choose|j: int| 0 <= j < pts@.len() && pts@[j] == q;
            let ee = upfull.len() - 2;
            assert(cross(upfull[ee], upfull[ee + 1], pts@[j]) >= 0);
            assert(lower@.skip(k)[ee] == lower@[k + ee]);
            assert(upfull[ee] == lower@[lower@.len() - 1] && upfull[ee + 1] == lower@[0]);
        }
    }
    lower
}

} // verus!
