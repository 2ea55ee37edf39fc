use vstd::prelude::*;

use crate::point::Point;
use vstd::arithmetic::div_mod::{lemma_div_is_ordered, lemma_div_nonincreasing, lemma_div_pos_is_pos};

verus! {

/// An axis-aligned box given by its top-left and bottom-right corners.
/// The constructors store the corners verbatim and perform no validation;
/// the geometry is meaningful only when `wf()` holds, that is, when the
/// top-left coordinates are component-wise at most the bottom-right ones.
#[derive(Clone, Copy, Debug, PartialEq, Eq, Structural)]
pub struct Rectangle {
    pub top_left: Point,
    pub bottom_right: Point,
}

/// One of the four quadrants a rectangle subdivides into.
#[derive(Clone, Copy, Debug, PartialEq, Eq, Structural)]
pub enum Quadrant {
    TopLeft,
    TopRight,
    BottomLeft,
    BottomRight,
}

/// The midpoint of the segment from `a` to `b`, rounded toward `a`.
/// For `a <= b` this is the floor of the exact average.
pub open spec fn mid(a: int, b: int) -> int {
    a + (b - a) / 2
}

/// Basic bounds of the midpoint: it lies between the endpoints, and it is
/// strictly below `b` as soon as the segment has length at least two.
pub proof fn lemma_mid_bounds(a: int, b: int)
    requires
        a <= b,
    ensures
        a <= mid(a, b) <= b,
        b - a >= 1 ==> mid(a, b) < b,
        b - a >= 2 ==> a < mid(a, b),
{
    let d = b - a;
    lemma_div_pos_is_pos(d, 2);
    lemma_div_nonincreasing(d, 2);
    if d >= 1 {
        assert(d / 2 < d) by {
            vstd::arithmetic::div_mod::lemma_div_decreases(d, 2);
        }
    }
    if d >= 2 {
        assert(1 <= d / 2) by {
            lemma_div_is_ordered(2, d, 2);
        }
    }
}

/// Computes `mid` on machine integers. The intermediate difference can
/// exceed the `i64` range, so it is taken in wider types.
pub fn midpoint(a: i64, b: i64) -> (m: i64)
    requires
        a <= b,
    ensures
        m == mid(a as int, b as int),
        a <= m <= b,
{
    proof {
        lemma_mid_bounds(a as int, b as int);
    }
    let diff: i128 = (b as i128) - (a as i128);
    let diff_u: u64 = diff as u64;
    let half: u64 = diff_u / 2;
    let m_wide: i128 = (a as i128) + (half as i128);
    m_wide as i64
}

impl Rectangle {
    /// The geometric invariant: the top-left corner is component-wise at
    /// most the bottom-right corner.
    pub open spec fn wf(self) -> bool {
        self.top_left.x <= self.bottom_right.x && self.top_left.y <= self.bottom_right.y
    }

    /// Whether `p` lies in this rectangle; all four edges are inclusive.
    pub open spec fn spec_contains(self, p: Point) -> bool {
        &&& self.top_left.x <= p.x <= self.bottom_right.x
        &&& self.top_left.y <= p.y <= self.bottom_right.y
    }

    /// The midpoint of the horizontal span.
    pub open spec fn mid_x(self) -> int {
        mid(self.top_left.x as int, self.bottom_right.x as int)
    }

    /// The midpoint of the vertical span.
    pub open spec fn mid_y(self) -> int {
        mid(self.top_left.y as int, self.bottom_right.y as int)
    }

    /// A zero-sized rectangle at the origin.
    pub fn new() -> (r: Rectangle)
        ensures
            r == (Rectangle {
                top_left: Point { x: 0, y: 0 },
                bottom_right: Point { x: 0, y: 0 },
            }),
    {
        Rectangle {
            top_left: Point { x: 0, y: 0 },
            bottom_right: Point { x: 0, y: 0 },
        }
    }

    /// Stores the two corners verbatim; no validation is performed.
    pub fn from(top_left: &Point, bottom_right: &Point) -> (r: Rectangle)
        ensures
            r == (Rectangle { top_left: *top_left, bottom_right: *bottom_right }),
    {
        Rectangle { top_left: *top_left, bottom_right: *bottom_right }
    }

    /// The width of the horizontal span.
    pub open spec fn span_x(self) -> int {
        self.bottom_right.x - self.top_left.x
    }

    /// The height of the vertical span.
    pub open spec fn span_y(self) -> int {
        self.bottom_right.y - self.top_left.y
    }

    /// Width plus height; the measure that shrinks under subdivision.
    pub open spec fn span_sum(self) -> int {
        self.span_x() + self.span_y()
    }

    /// The rectangle of one quadrant. The four quadrants share their
    /// boundary lines: each includes the dividing midlines.
    pub open spec fn quadrant_rect(self, q: Quadrant) -> Rectangle {
        match q {
            Quadrant::TopLeft => Rectangle {
                top_left: self.top_left,
                bottom_right: Point { x: self.mid_x() as i64, y: self.mid_y() as i64 },
            },
            Quadrant::TopRight => Rectangle {
                top_left: Point { x: self.mid_x() as i64, y: self.top_left.y },
                bottom_right: Point { x: self.bottom_right.x, y: self.mid_y() as i64 },
            },
            Quadrant::BottomLeft => Rectangle {
                top_left: Point { x: self.top_left.x, y: self.mid_y() as i64 },
                bottom_right: Point { x: self.mid_x() as i64, y: self.bottom_right.y },
            },
            Quadrant::BottomRight => Rectangle {
                top_left: Point { x: self.mid_x() as i64, y: self.mid_y() as i64 },
                bottom_right: self.bottom_right,
            },
        }
    }

    /// The quadrant a point is routed to: the midlines themselves go left
    /// and up. Insert, delete-descent and search all use this same rule,
    /// so a stored point is always found in the quadrant it was routed to.
    pub open spec fn route(self, p: Point) -> Quadrant {
        if p.x <= self.mid_x() {
            if p.y <= self.mid_y() {
                Quadrant::TopLeft
            } else {
                Quadrant::BottomLeft
            }
        } else {
            if p.y <= self.mid_y() {
                Quadrant::TopRight
            } else {
                Quadrant::BottomRight
            }
        }
    }

    /// On a well-formed rectangle the midpoints stay inside the spans, so
    /// every quadrant is well-formed, lies inside the parent, and is no
    /// wider or taller than the parent.
    pub proof fn lemma_quadrant_frame(self, q: Quadrant)
        requires
            self.wf(),
        ensures
            self.quadrant_rect(q).wf(),
            self.quadrant_rect(q).span_x() <= self.span_x(),
            self.quadrant_rect(q).span_y() <= self.span_y(),
            forall|p: Point| self.quadrant_rect(q).spec_contains(p) ==> self.spec_contains(p),
    {
        lemma_mid_bounds(self.top_left.x as int, self.bottom_right.x as int);
        lemma_mid_bounds(self.top_left.y as int, self.bottom_right.y as int);
    }

    /// A contained point lies in the quadrant it is routed to.
    pub proof fn lemma_route_contains(self, p: Point)
        requires
            self.wf(),
            self.spec_contains(p),
        ensures
            self.quadrant_rect(self.route(p)).spec_contains(p),
    {
        lemma_mid_bounds(self.top_left.x as int, self.bottom_right.x as int);
        lemma_mid_bounds(self.top_left.y as int, self.bottom_right.y as int);
    }

    /// If a quadrant is as large as its parent, then all contained points
    /// routed to it coincide: subdivision either shrinks the rectangle or
    /// isolates a single point, which is what bounds the recursion depth
    /// of the tree-building step.
    pub proof fn lemma_same_span_unique(self, q: Quadrant, p1: Point, p2: Point)
        requires
            self.wf(),
            self.spec_contains(p1),
            self.spec_contains(p2),
            self.route(p1) == q,
            self.route(p2) == q,
            self.quadrant_rect(q).span_sum() == self.span_sum(),
        ensures
            p1 == p2,
    {
        lemma_mid_bounds(self.top_left.x as int, self.bottom_right.x as int);
        lemma_mid_bounds(self.top_left.y as int, self.bottom_right.y as int);
        self.lemma_quadrant_frame(q);
        let r = self.quadrant_rect(q);
        assert(r.span_x() == self.span_x() && r.span_y() == self.span_y());
        let dx = self.span_x();
        let dy = self.span_y();
        if dx >= 1 {
            assert(dx / 2 < dx) by {
                vstd::arithmetic::div_mod::lemma_div_decreases(dx, 2);
            }
        }
        if dy >= 1 {
            assert(dy / 2 < dy) by {
                vstd::arithmetic::div_mod::lemma_div_decreases(dy, 2);
            }
        }
        if dx >= 2 {
            assert(1 <= dx / 2) by {
                lemma_div_is_ordered(2, dx, 2);
            }
        }
        if dy >= 2 {
            assert(1 <= dy / 2) by {
                lemma_div_is_ordered(2, dy, 2);
            }
        }
    }
}

} // verus!
