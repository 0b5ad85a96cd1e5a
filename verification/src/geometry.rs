//! Exact 2D geometry for the track grid.
//!
//! Every coordinate a compiled track mentions — tile corners, tile centres,
//! the finish line — is an integer, because the tile size is the even
//! constant [`crate::racetrack::TILE_SIZE`]. Points therefore carry integer
//! coordinates, and the line/line intersection is computed exactly: instead
//! of dividing out the Cramer solution it returns the solution as a quotient
//! with a positive denominator, so equality of intersections is exact
//! equality, with no epsilon.

use vstd::prelude::*;

verus! {

/// An `(x, y)` pair within the region allocated to the racetrack.
#[derive(Copy, Clone, PartialEq, Eq, Structural, Debug)]
pub struct Point {
    pub x: i64,
    pub y: i64,
}

/// Whether `p` lies in the axis-aligned rectangle spanned by `r1` and `r2`,
/// bounds included on every side.
pub open spec fn spec_inside_rectangle(p: Point, r1: Point, r2: Point) -> bool {
    &&& (if r1.x <= r2.x {
        r1.x <= p.x <= r2.x
    } else {
        r2.x <= p.x <= r1.x
    })
    &&& (if r1.y <= r2.y {
        r1.y <= p.y <= r2.y
    } else {
        r2.y <= p.y <= r1.y
    })
}

impl Point {
    /// Produces a new point with the x-coordinate increased by the given amount.
    pub fn add_x(self, x_inc: i64) -> (r: Point)
        requires
            i64::MIN <= self.x + x_inc <= i64::MAX,
        ensures
            r.x == self.x + x_inc,
            r.y == self.y,
    {
        Point { x: self.x + x_inc, y: self.y }
    }

    /// Produces a new point with the y-coordinate increased by the given amount.
    pub fn add_y(self, y_inc: i64) -> (r: Point)
        requires
            i64::MIN <= self.y + y_inc <= i64::MAX,
        ensures
            r.x == self.x,
            r.y == self.y + y_inc,
    {
        Point { x: self.x, y: self.y + y_inc }
    }

    /// Returns whether the point is inside of the rectangle defined by the
    /// two points, bounds included.
    pub fn inside_rectangle(&self, p1: Point, p2: Point) -> (r: bool)
        ensures
            r == spec_inside_rectangle(*self, p1, p2),
    {
        let min_x = if p1.x <= p2.x { p1.x } else { p2.x };
        let max_x = if p1.x <= p2.x { p2.x } else { p1.x };
        let min_y = if p1.y <= p2.y { p1.y } else { p2.y };
        let max_y = if p1.y <= p2.y { p2.y } else { p1.y };
        min_x <= self.x && self.x <= max_x && min_y <= self.y && self.y <= max_y
    }
}

/// Bound on the coordinates [`intersection_of_2_lines`] accepts; it keeps
/// every intermediate product comfortably inside `i128`.
pub const COORD_LIMIT: i64 = 1_000_000;

/// Whether every coordinate of `p` is at most [`COORD_LIMIT`] in magnitude.
pub open spec fn spec_bounded(p: Point) -> bool {
    -COORD_LIMIT <= p.x <= COORD_LIMIT && -COORD_LIMIT <= p.y <= COORD_LIMIT
}

/// The exact intersection of two infinite lines, as the Cramer quotients
/// `(x·den, y·den, den)` with `den > 0`: the line through `s` and `e` is
/// `a·x + b·y = c` with `a = e.y − s.y`, `b = s.x − e.x`, `c = a·s.x + b·s.y`.
#[derive(Copy, Clone, PartialEq, Eq, Structural, Debug)]
pub struct RatPoint {
    /// The x-coordinate of the intersection, multiplied by `den`.
    pub x_num: i128,
    /// The y-coordinate of the intersection, multiplied by `den`.
    pub y_num: i128,
    /// The common positive denominator: the determinant's magnitude.
    pub den: i128,
}

/// Coefficient `a` of the line through `s` and `e`.
pub open spec fn spec_line_a(s: Point, e: Point) -> int {
    e.y - s.y
}

/// Coefficient `b` of the line through `s` and `e`.
pub open spec fn spec_line_b(s: Point, e: Point) -> int {
    s.x - e.x
}

/// Right-hand side `c` of the line through `s` and `e`.
pub open spec fn spec_line_c(s: Point, e: Point) -> int {
    spec_line_a(s, e) * s.x + spec_line_b(s, e) * s.y
}

/// The determinant of the pair of lines: zero exactly for parallel or
/// degenerate lines.
pub open spec fn spec_det(s1: Point, e1: Point, s2: Point, e2: Point) -> int {
    spec_line_a(s1, e1) * spec_line_b(s2, e2) - spec_line_a(s2, e2) * spec_line_b(s1, e1)
}

/// The intersection of the two infinite lines, as `(x_num, y_num, den)` with
/// `x = x_num / den`, `y = y_num / den` and `den > 0`; `None` exactly when
/// the determinant is zero.
pub open spec fn spec_intersection(s1: Point, e1: Point, s2: Point, e2: Point) -> Option<
    (int, int, int),
> {
    let a1 = spec_line_a(s1, e1);
    let b1 = spec_line_b(s1, e1);
    let c1 = spec_line_c(s1, e1);
    let a2 = spec_line_a(s2, e2);
    let b2 = spec_line_b(s2, e2);
    let c2 = spec_line_c(s2, e2);
    let det = spec_det(s1, e1, s2, e2);
    if det == 0 {
        None
    } else if det > 0 {
        Some((b2 * c1 - b1 * c2, a1 * c2 - a2 * c1, det))
    } else {
        Some((b1 * c2 - b2 * c1, a2 * c1 - a1 * c2, -det))
    }
}

/// Computes [`spec_intersection`] exactly: the point where the infinite line
/// through `s1`, `e1` meets the one through `s2`, `e2`, or `None` for
/// parallel or degenerate lines.
pub fn intersection_of_2_lines(s1: Point, e1: Point, s2: Point, e2: Point) -> (r: Option<RatPoint>)
    requires
        spec_bounded(s1),
        spec_bounded(e1),
        spec_bounded(s2),
        spec_bounded(e2),
    ensures
        r is None <==> spec_intersection(s1, e1, s2, e2) is None,
        r matches Some(p) ==> {
            &&& spec_intersection(s1, e1, s2, e2) == Some(
                (p.x_num as int, p.y_num as int, p.den as int),
            )
            &&& p.den > 0
        },
{
    let a1: i128 = e1.y as i128 - s1.y as i128;
    let b1: i128 = s1.x as i128 - e1.x as i128;
    let a2: i128 = e2.y as i128 - s2.y as i128;
    let b2: i128 = s2.x as i128 - e2.x as i128;
    proof {
        lemma_product_bound(a1 as int, s1.x as int, 2 * COORD_LIMIT as int, COORD_LIMIT as int);
        lemma_product_bound(b1 as int, s1.y as int, 2 * COORD_LIMIT as int, COORD_LIMIT as int);
        lemma_product_bound(a2 as int, s2.x as int, 2 * COORD_LIMIT as int, COORD_LIMIT as int);
        lemma_product_bound(b2 as int, s2.y as int, 2 * COORD_LIMIT as int, COORD_LIMIT as int);
    }
    let c1: i128 = a1 * s1.x as i128 + b1 * s1.y as i128;
    let c2: i128 = a2 * s2.x as i128 + b2 * s2.y as i128;
    proof {
        lemma_product_bound(a1 as int, b2 as int, 2 * COORD_LIMIT as int, 2 * COORD_LIMIT as int);
        lemma_product_bound(a2 as int, b1 as int, 2 * COORD_LIMIT as int, 2 * COORD_LIMIT as int);
    }
    let det: i128 = a1 * b2 - a2 * b1;
    if det == 0 {
        None
    } else {
        let c_bound: i128 = 4 * (COORD_LIMIT as i128) * (COORD_LIMIT as i128);
        proof {
            lemma_product_bound(b2 as int, c1 as int, 2 * COORD_LIMIT as int, c_bound as int);
            lemma_product_bound(b1 as int, c2 as int, 2 * COORD_LIMIT as int, c_bound as int);
            lemma_product_bound(a1 as int, c2 as int, 2 * COORD_LIMIT as int, c_bound as int);
            lemma_product_bound(a2 as int, c1 as int, 2 * COORD_LIMIT as int, c_bound as int);
        }
        let x_num: i128 = b2 * c1 - b1 * c2;
        let y_num: i128 = a1 * c2 - a2 * c1;
        if det > 0 {
            Some(RatPoint { x_num, y_num, den: det })
        } else {
            Some(RatPoint { x_num: -x_num, y_num: -y_num, den: -det })
        }
    }
}

/// `|a·b| ≤ bound_a·bound_b` whenever `|a| ≤ bound_a` and `|b| ≤ bound_b`.
proof fn lemma_product_bound(a: int, b: int, bound_a: int, bound_b: int)
    requires
        -bound_a <= a <= bound_a,
        -bound_b <= b <= bound_b,
        0 <= bound_a,
        0 <= bound_b,
    ensures
        -(bound_a * bound_b) <= a * b <= bound_a * bound_b,
{
    assert(-(bound_a * bound_b) <= a * b <= bound_a * bound_b) by (nonlinear_arith)
        requires
            -bound_a <= a <= bound_a,
            -bound_b <= b <= bound_b,
            0 <= bound_a,
            0 <= bound_b,
    ;
}

/// The intersection is commutative: swapping the two lines yields the same
/// point — the same quotients, exactly.
pub proof fn lemma_intersection_commutes(s1: Point, e1: Point, s2: Point, e2: Point)
    ensures
        spec_intersection(s1, e1, s2, e2) == spec_intersection(s2, e2, s1, e1),
{
    assert(spec_det(s2, e2, s1, e1) == -spec_det(s1, e1, s2, e2));
}

} // verus!
