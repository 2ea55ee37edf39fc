use vstd::prelude::*;

use crate::point::Point;
use crate::rectangle::Rectangle;
use vstd::arithmetic::mul::lemma_mul_unary_negation;

verus! {

/// The square of an integer.
pub open spec fn sq(a: int) -> int {
    a * a
}

/// `v` clamped into the interval from `lo` to `hi`.
pub open spec fn clamp(v: int, lo: int, hi: int) -> int {
    if v < lo {
        lo
    } else if v > hi {
        hi
    } else {
        v
    }
}

/// Squares are never negative.
pub proof fn lemma_sq_nonneg(a: int)
    ensures
        sq(a) >= 0,
{
    assert(a * a >= 0) by (nonlinear_arith);
}

/// Squaring is monotone in the absolute value.
pub proof fn lemma_sq_le(u: int, v: int)
    requires
        -v <= u <= v,
    ensures
        sq(u) <= sq(v),
{
    assert(u * u <= v * v) by (nonlinear_arith)
        requires
            -v <= u <= v,
    ;
}

/// A query shape: a center point plus a radius. Circles are only ever used
/// as queries, never stored in the tree. All comparisons are made between
/// squared distances and the squared radius, so the radius itself is never
/// rooted or squared out of the integer domain.
#[derive(Clone, Copy, Debug, PartialEq, Eq, Structural)]
pub struct Circle {
    pub center: Point,
    pub radius: i64,
}

impl Circle {
    /// Whether `p` lies within the circle: the squared Euclidean distance
    /// from the center is at most the squared radius.
    pub open spec fn spec_contains(self, p: Point) -> bool {
        sq(self.center.x - p.x) + sq(self.center.y - p.y) <= sq(self.radius as int)
    }

    /// The point of `r` nearest to the center: the center's coordinates
    /// clamped into the rectangle's spans (x component).
    pub open spec fn nearest_x(self, r: Rectangle) -> int {
        clamp(self.center.x as int, r.top_left.x as int, r.bottom_right.x as int)
    }

    /// The point of `r` nearest to the center (y component).
    pub open spec fn nearest_y(self, r: Rectangle) -> int {
        clamp(self.center.y as int, r.top_left.y as int, r.bottom_right.y as int)
    }

    /// Whether the circle meets the rectangle: the squared distance from
    /// the center to the nearest point of the rectangle is at most the
    /// squared radius. This is the exact clamp-then-measure test, not a
    /// bounding-box approximation, so range queries can prune a subtree
    /// if and only if no point of its rectangle can match.
    pub open spec fn spec_intersects(self, r: Rectangle) -> bool {
        sq(self.center.x - self.nearest_x(r)) + sq(self.center.y - self.nearest_y(r)) <= sq(
            self.radius as int,
        )
    }

    /// Whether `point` lies within the circle.
    pub fn contains(&self, point: &Point) -> (res: bool)
        ensures
            res == self.spec_contains(*point),
    {
        dist_sq_le(self.center.x, self.center.y, point.x, point.y, self.radius)
    }

    /// Whether the circle meets `rectangle`.
    pub fn intersects(&self, rectangle: &Rectangle) -> (res: bool)
        ensures
            res == self.spec_intersects(*rectangle),
    {
        let nx = clamp_i64(self.center.x, rectangle.top_left.x, rectangle.bottom_right.x);
        let ny = clamp_i64(self.center.y, rectangle.top_left.y, rectangle.bottom_right.y);
        dist_sq_le(self.center.x, self.center.y, nx, ny, self.radius)
    }

    /// A point of a rectangle that the circle covers witnesses that the
    /// circle meets the rectangle: the clamped nearest point is at most as
    /// far from the center as the witness. Range queries rely on this to
    /// prune subtrees without ever missing a stored point.
    pub proof fn lemma_contains_implies_intersects(self, r: Rectangle, p: Point)
        requires
            r.wf(),
            r.spec_contains(p),
            self.spec_contains(p),
        ensures
            self.spec_intersects(r),
    {
        let cx = self.center.x as int;
        let cy = self.center.y as int;
        let nx = self.nearest_x(r);
        let ny = self.nearest_y(r);
        assert(-(cx - p.x) <= cx - nx <= cx - p.x || -(p.x - cx) <= nx - cx <= p.x - cx);
        if cx - p.x >= 0 {
            lemma_sq_le(cx - nx, cx - p.x);
        } else {
            lemma_sq_le(cx - nx, -(cx - p.x));
            assert(sq(-(cx - p.x)) == sq(cx - p.x)) by {
                lemma_mul_unary_negation(cx - p.x, -(cx - p.x));
                lemma_mul_unary_negation(cx - p.x, cx - p.x);
            }
        }
        if cy - p.y >= 0 {
            lemma_sq_le(cy - ny, cy - p.y);
        } else {
            lemma_sq_le(cy - ny, -(cy - p.y));
            assert(sq(-(cy - p.y)) == sq(cy - p.y)) by {
                lemma_mul_unary_negation(cy - p.y, -(cy - p.y));
                lemma_mul_unary_negation(cy - p.y, cy - p.y);
            }
        }
    }
}

/// `v` clamped into the interval from `lo` to `hi` on machine integers.
pub fn clamp_i64(v: i64, lo: i64, hi: i64) -> (c: i64)
    ensures
        c == clamp(v as int, lo as int, hi as int),
{
    if v < lo {
        lo
    } else if v > hi {
        hi
    } else {
        v
    }
}

/// The square of a difference of two `i64` values, computed in `u128`.
/// The magnitude of such a difference is below two to the sixty-fourth,
/// so the square fits.
fn sq_wide(d: i128) -> (s: u128)
    requires
        -0xffff_ffff_ffff_ffffi128 <= d <= 0xffff_ffff_ffff_ffffi128,
    ensures
        s == sq(d as int),
{
    let a: u128 = if d >= 0 {
        d as u128
    } else {
        (-d) as u128
    };
    proof {
        if d < 0 {
            assert((-d) * (-d) == d * d) by (nonlinear_arith);
        }
        assert((a as int) * (a as int) <= 0xffff_ffff_ffff_ffff * 0xffff_ffff_ffff_ffff)
            by (nonlinear_arith)
            requires
                0 <= a <= 0xffff_ffff_ffff_ffff,
        ;
    }
    a * a
}

/// Whether the squared distance between two points is at most the squared
/// radius, without overflow: each square fits in `u128`, and the sum is
/// compared by subtraction instead of being formed.
fn dist_sq_le(x1: i64, y1: i64, x2: i64, y2: i64, radius: i64) -> (res: bool)
    ensures
        res == (sq(x1 - x2) + sq(y1 - y2) <= sq(radius as int)),
{
    let dx: i128 = (x1 as i128) - (x2 as i128);
    let dy: i128 = (y1 as i128) - (y2 as i128);
    let sx = sq_wide(dx);
    let sy = sq_wide(dy);
    let rr = sq_wide(radius as i128);
    proof {
        lemma_sq_nonneg(dx as int);
        lemma_sq_nonneg(dy as int);
    }
    if sy > rr {
        false
    } else {
        sx <= rr - sy
    }
}

} // verus!
