//! A small 2D computational-geometry library: points, lines, and
//! point-set operations (centroid, bounding box, convex hull, line
//! intersection and parallelism predicates), verified with Verus.
//!
//! The kernel is instantiated over an exact integer scalar, so every
//! geometric predicate (parallelism, perpendicularity, turn direction,
//! degeneracy) is decided exactly; the epsilon tolerance a floating
//! scalar would need degenerates to exact equality.  Operations that
//! inherently need floating-point arithmetic (square roots, trigonometry)
//! live outside the verified library and build on the exact quantities
//! (squared distances, dot and cross products) that it provides.

mod scalar;
mod point2d;
mod line2d;
mod point_algorithms;
mod line_algorithms;

pub use point2d::Point2D;
pub use line2d::Line2D;
pub use line2d::cut_coord;
pub use point_algorithms::{centroid_2d, bounding_box_2d, convex_hull_2d, sum_x, sum_y, lex_le, sorted_lex, rev_sorted_lex, strict_left_turns, cross, lemma_centroid_of_identical_points};
pub use line_algorithms::{are_parallel_lines, are_perpendicular_lines, intersection_point, parallel_term, direction_dot, intersection_denom, intersection_num_x, intersection_num_y};
pub use scalar::div_trunc;
