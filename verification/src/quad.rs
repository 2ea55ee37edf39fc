use vstd::prelude::*;

use crate::circle::Circle;
use crate::point::Point;
use crate::rectangle::{Quadrant, Rectangle, midpoint};

verus! {

/// A node of the region quadtree. A node is either a leaf holding up to
/// `capacity` points directly, or an internal node whose four children
/// partition its rectangle into quadrants sharing their boundary lines.
///
/// A node is created as a leaf and turns internal at most once, the moment
/// an insertion would exceed its capacity; it never collapses back, even if
/// deletions later empty every descendant.
///
/// Points have no identity beyond their coordinates, so the tree keeps each
/// point at most once: the abstract value of a tree is the set of stored
/// points, and inserting a point that is already stored leaves the tree
/// unchanged.
#[derive(Debug)]
pub struct Quad {
    border: Rectangle,
    points: Vec<Point>,
    capacity: usize,
    is_leaf: bool,
    top_left_quad: Option<Box<Quad>>,
    top_right_quad: Option<Box<Quad>>,
    bottom_left_quad: Option<Box<Quad>>,
    bottom_right_quad: Option<Box<Quad>>,
}

impl Quad {
    /// The set of points stored in this subtree.
    pub closed spec fn pts(self) -> Set<Point>
        decreases self,
    {
        if self.is_leaf {
            self.points@.to_set()
        } else {
            child_pts(self.top_left_quad) + child_pts(self.top_right_quad) + child_pts(
                self.bottom_left_quad,
            ) + child_pts(self.bottom_right_quad)
        }
    }

    /// The rectangle this node is responsible for.
    pub closed spec fn spec_border(self) -> Rectangle {
        self.border
    }

    /// The leaf capacity, fixed at construction and inherited unchanged by
    /// every descendant.
    pub closed spec fn spec_capacity(self) -> int {
        self.capacity as int
    }

    /// Whether this node still stores points directly.
    pub closed spec fn spec_is_leaf(self) -> bool {
        self.is_leaf
    }

    /// Well-formedness: the border is a proper rectangle, the capacity is
    /// positive, a leaf holds at most `capacity` distinct points that all
    /// lie within its border and has no children, and an internal node
    /// holds no points directly but has four well-formed children, one per
    /// quadrant, each holding only points that are routed to it.
    pub closed spec fn wf(self) -> bool
        decreases self,
    {
        &&& self.border.wf()
        &&& self.capacity >= 1
        &&& if self.is_leaf {
            &&& self.top_left_quad is None
            &&& self.top_right_quad is None
            &&& self.bottom_left_quad is None
            &&& self.bottom_right_quad is None
            &&& self.points@.no_duplicates()
            &&& self.points@.len() <= self.capacity
            &&& forall|i: int|
                0 <= i < self.points@.len() ==> self.border.spec_contains(
                    #[trigger] self.points@[i],
                )
        } else {
            &&& self.points@.len() == 0
            &&& child_ok(
                self.top_left_quad,
                self.border,
                self.capacity as int,
                Quadrant::TopLeft,
            )
            &&& child_ok(
                self.top_right_quad,
                self.border,
                self.capacity as int,
                Quadrant::TopRight,
            )
            &&& child_ok(
                self.bottom_left_quad,
                self.border,
                self.capacity as int,
                Quadrant::BottomLeft,
            )
            &&& child_ok(
                self.bottom_right_quad,
                self.border,
                self.capacity as int,
                Quadrant::BottomRight,
            )
        }
    }

    /// Every stored point lies within the border of the node storing it.
    pub proof fn lemma_pts_in_border(self)
        requires
            self.wf(),
        ensures
            forall|p: Point| self@.contains(p) ==> self.spec_border().spec_contains(p),
        decreases self,
    {
        assert(self@ == self.pts());
        if self.is_leaf {
            assert forall|p: Point| self.pts().contains(p) implies self.spec_border().spec_contains(
                p,
            ) by {
                let i = choose|i: int|
                    0 <= i < self.points@.len() && self.points@[i] == p;
                assert(self.border.spec_contains(self.points@[i]));
            }
        } else {
            assert forall|p: Point| self.pts().contains(p) implies self.spec_border().spec_contains(
                p,
            ) by {
                if child_pts(self.top_left_quad).contains(p) {
                    let c = self.top_left_quad->0;
                    c.lemma_pts_in_border();
                    self.border.lemma_quadrant_frame(Quadrant::TopLeft);
                } else if child_pts(self.top_right_quad).contains(p) {
                    let c = self.top_right_quad->0;
                    c.lemma_pts_in_border();
                    self.border.lemma_quadrant_frame(Quadrant::TopRight);
                } else if child_pts(self.bottom_left_quad).contains(p) {
                    let c = self.bottom_left_quad->0;
                    c.lemma_pts_in_border();
                    self.border.lemma_quadrant_frame(Quadrant::BottomLeft);
                } else {
                    let c = self.bottom_right_quad->0;
                    c.lemma_pts_in_border();
                    self.border.lemma_quadrant_frame(Quadrant::BottomRight);
                }
            }
        }
    }

    /// A fresh leaf with a zero-sized border at the origin and capacity one.
    pub fn new() -> (quad: Quad)
        ensures
            quad.wf(),
            quad@ == Set::<Point>::empty(),
            quad.spec_is_leaf(),
            quad.spec_capacity() == 1,
            quad.spec_border() == (Rectangle {
                top_left: Point { x: 0, y: 0 },
                bottom_right: Point { x: 0, y: 0 },
            }),
    {
        let quad = Quad {
            border: Rectangle::new(),
            points: Vec::new(),
            capacity: 1,
            is_leaf: true,
            top_left_quad: None,
            top_right_quad: None,
            bottom_left_quad: None,
            bottom_right_quad: None,
        };
        proof {
            assert(quad.pts() =~= Set::<Point>::empty());
        }
        quad
    }

    /// A fresh leaf over the given border with the given capacity.
    ///
    /// The corners must describe a proper rectangle and the capacity must
    /// be positive: a zero capacity would make the first insertion
    /// subdivide without end, and corners in the wrong order leave no
    /// meaningful quadrants to subdivide into.
    pub fn from(top_left: Point, bottom_right: Point, capacity: usize) -> (quad: Quad)
        requires
            top_left.x <= bottom_right.x,
            top_left.y <= bottom_right.y,
            capacity >= 1,
        ensures
            quad.wf(),
            quad@ == Set::<Point>::empty(),
            quad.spec_is_leaf(),
            quad.spec_capacity() == capacity,
            quad.spec_border() == (Rectangle { top_left, bottom_right }),
    {
        let quad = Quad {
            border: Rectangle::from(&top_left, &bottom_right),
            points: Vec::new(),
            capacity,
            is_leaf: true,
            top_left_quad: None,
            top_right_quad: None,
            bottom_left_quad: None,
            bottom_right_quad: None,
        };
        proof {
            assert(quad.pts() =~= Set::<Point>::empty());
        }
        quad
    }

    /// Whether the point lies within this node's border; all four edges
    /// are inclusive.
    fn check_boundary(&self, point: &Point) -> (inside: bool)
        ensures
            inside == self.border.spec_contains(*point),
    {
        point.x >= self.border.top_left.x && point.x <= self.border.bottom_right.x && point.y
            >= self.border.top_left.y && point.y <= self.border.bottom_right.y
    }

    /// Whether an exactly-equal point is currently stored in the tree.
    ///
    /// A point outside the border is never stored, so the answer there is
    /// immediately false. At a leaf the stored list decides. At an internal
    /// node the point's quadrant is computed by the midpoint rule and only
    /// that one child is searched: insertion routes by the same rule, so
    /// the one child is the only place the point could be.
    pub fn search(&self, point: &Point) -> (found: bool)
        requires
            self.wf(),
        ensures
            found == self@.contains(*point),
        decreases self,
    {
        if !self.check_boundary(point) {
            proof {
                self.lemma_pts_in_border();
            }
            return false;
        }
        if self.is_leaf {
            return contains_point(&self.points, point);
        }
        let mx = midpoint(self.border.top_left.x, self.border.bottom_right.x);
        let my = midpoint(self.border.top_left.y, self.border.bottom_right.y);
        if point.x <= mx {
            if point.y <= my {
                proof {
                    self.lemma_other_children_miss(*point, Quadrant::TopLeft);
                }
                self.top_left_quad.as_ref().unwrap().search(point)
            } else {
                proof {
                    self.lemma_other_children_miss(*point, Quadrant::BottomLeft);
                }
                self.bottom_left_quad.as_ref().unwrap().search(point)
            }
        } else {
            if point.y <= my {
                proof {
                    self.lemma_other_children_miss(*point, Quadrant::TopRight);
                }
                self.top_right_quad.as_ref().unwrap().search(point)
            } else {
                proof {
                    self.lemma_other_children_miss(*point, Quadrant::BottomRight);
                }
                self.bottom_right_quad.as_ref().unwrap().search(point)
            }
        }
    }

    /// On an internal node, a point routed to quadrant `q` can be stored
    /// nowhere but in the child for `q`: membership in the whole tree
    /// coincides with membership in that child.
    proof fn lemma_other_children_miss(self, p: Point, q: Quadrant)
        requires
            self.wf(),
            !self.spec_is_leaf(),
            self.border.route(p) == q,
        ensures
            self.pts().contains(p) == child_pts(child_of(self, q)).contains(p),
    {
    }
}

/// The child of a node in the direction of a quadrant.
spec fn child_of(quad: Quad, q: Quadrant) -> Option<Box<Quad>> {
    match q {
        Quadrant::TopLeft => quad.top_left_quad,
        Quadrant::TopRight => quad.top_right_quad,
        Quadrant::BottomLeft => quad.bottom_left_quad,
        Quadrant::BottomRight => quad.bottom_right_quad,
    }
}

/// The set of points stored under an optional child.
spec fn child_pts(child: Option<Box<Quad>>) -> Set<Point>
    decreases child,
{
    match child {
        Some(c) => c.pts(),
        None => Set::empty(),
    }
}

/// What a parent requires of the child for quadrant `q`: present,
/// well-formed, responsible for exactly that quadrant of the parent's
/// border, carrying the same capacity, and holding only points that the
/// midpoint rule routes to `q`.
spec fn child_ok(child: Option<Box<Quad>>, parent: Rectangle, capacity: int, q: Quadrant) -> bool
    decreases child,
{
    match child {
        Some(c) => {
            &&& c.wf()
            &&& c.spec_border() == parent.quadrant_rect(q)
            &&& c.spec_capacity() == capacity
            &&& forall|p: Point| c.pts().contains(p) ==> parent.route(p) == q
        },
        None => false,
    }
}

impl View for Quad {
    type V = Set<Point>;

    closed spec fn view(&self) -> Set<Point> {
        self.pts()
    }
}

/// Appending one element turns the set of a sequence into an insertion.
proof fn lemma_push_to_set(s: Seq<Point>, x: Point)
    ensures
        (s.push(x)).to_set() == s.to_set().insert(x),
{
    assert forall|y: Point| #[trigger] (s.push(x)).contains(y) implies s.contains(y) || y == x by {
        let j = choose|j: int| 0 <= j < s.push(x).len() && s.push(x)[j] == y;
        if j < s.len() {
            assert(s[j] == y);
        }
    }
    assert forall|y: Point| s.contains(y) implies (s.push(x)).contains(y) by {
        let j = choose|j: int| 0 <= j < s.len() && s[j] == y;
        assert(s.push(x)[j] == y);
    }
    assert(s.push(x)[s.len() as int] == x);
    assert((s.push(x)).to_set() =~= s.to_set().insert(x));
}

/// Taking one more element appends exactly the next element.
proof fn lemma_take_step(s: Seq<Point>, i: int)
    requires
        0 <= i < s.len(),
    ensures
        s.take(i + 1) == s.take(i).push(s[i]),
{
    assert(s.take(i + 1) =~= s.take(i).push(s[i]));
}

/// In a duplicate-free sequence, the next element is absent from the
/// prefix before it.
proof fn lemma_nodup_prefix_excludes(s: Seq<Point>, i: int)
    requires
        s.no_duplicates(),
        0 <= i < s.len(),
    ensures
        !s.take(i).contains(s[i]),
{
    if s.take(i).contains(s[i]) {
        let j = choose|j: int| 0 <= j < s.take(i).len() && s.take(i)[j] == s[i];
        assert(s[j] == s[i]);
    }
}

/// The invariant of one partition bucket while points are distributed to
/// the quadrants: duplicate-free, routed entirely to quadrant `q`, and
/// drawn from the distributed prefix.
spec fn part_inv(part: Seq<Point>, prefix: Seq<Point>, border: Rectangle, q: Quadrant) -> bool {
    &&& part.no_duplicates()
    &&& forall|j: int| 0 <= j < part.len() ==> border.route(#[trigger] part[j]) == q
    &&& forall|j: int| 0 <= j < part.len() ==> prefix.contains(#[trigger] part[j])
}

/// Pushing the next point into the bucket it is routed to preserves the
/// bucket invariant.
proof fn lemma_bucket_push(
    part: Seq<Point>,
    prefix: Seq<Point>,
    x: Point,
    border: Rectangle,
    q: Quadrant,
)
    requires
        part_inv(part, prefix, border, q),
        !prefix.contains(x),
        border.route(x) == q,
    ensures
        part_inv(part.push(x), prefix.push(x), border, q),
{
    let part1 = part.push(x);
    let prefix1 = prefix.push(x);
    assert(!part.contains(x)) by {
        if part.contains(x) {
            let j = choose|j: int| 0 <= j < part.len() && part[j] == x;
            assert(prefix.contains(part[j]));
        }
    }
    assert forall|a: int, b: int|
        0 <= a < part1.len() && 0 <= b < part1.len() && a != b implies part1[a] != part1[b] by {
        if a < part.len() && b < part.len() {
            assert(part[a] != part[b]);
        } else if b == part.len() {
            assert(part1[b] == x && part1[a] == part[a]);
            if part[a] == x {
                assert(part.contains(x));
            }
        } else {
            assert(part1[a] == x && part1[b] == part[b]);
            if part[b] == x {
                assert(part.contains(x));
            }
        }
    }
    assert forall|j: int| 0 <= j < part1.len() implies prefix1.contains(#[trigger] part1[j]) by {
        if j < part.len() {
            assert(prefix.contains(part[j]));
            let k = choose|k: int| 0 <= k < prefix.len() && prefix[k] == part[j];
            assert(prefix1[k] == part1[j]);
        } else {
            assert(prefix1[prefix.len() as int] == x);
        }
    }
    assert forall|j: int| 0 <= j < part1.len() implies border.route(#[trigger] part1[j]) == q by {
        if j < part.len() {
            assert(border.route(part[j]) == q);
        }
    }
}

/// A bucket that was not extended still satisfies its invariant against
/// the longer prefix.
proof fn lemma_bucket_keep(
    part: Seq<Point>,
    prefix: Seq<Point>,
    x: Point,
    border: Rectangle,
    q: Quadrant,
)
    requires
        part_inv(part, prefix, border, q),
    ensures
        part_inv(part, prefix.push(x), border, q),
{
    assert forall|j: int|
        0 <= j < part.len() implies prefix.push(x).contains(#[trigger] part[j]) by {
        assert(prefix.contains(part[j]));
        let k = choose|k: int| 0 <= k < prefix.len() && prefix[k] == part[j];
        assert(prefix.push(x)[k] == part[j]);
    }
}

impl Quad {
    /// Builds a subtree over `border` holding exactly the given points: a
    /// leaf when they fit within the capacity, and otherwise an internal
    /// node whose children are built from the points routed to each
    /// quadrant.
    ///
    /// Termination: a quadrant is either strictly smaller than its parent
    /// (in width plus height) or can be the target of at most one distinct
    /// contained point, in which case its bucket is strictly smaller than
    /// an overfull point list.
    fn build(border: Rectangle, capacity: usize, points: Vec<Point>) -> (quad: Quad)
        requires
            border.wf(),
            capacity >= 1,
            points@.no_duplicates(),
            forall|i: int| 0 <= i < points@.len() ==> border.spec_contains(#[trigger] points@[i]),
        ensures
            quad.wf(),
            quad@ == points@.to_set(),
            quad.spec_border() == border,
            quad.spec_capacity() == capacity,
            quad.spec_is_leaf() == (points@.len() <= capacity),
        decreases border.span_sum(), points@.len(),
    {
        if points.len() <= capacity {
            let quad = Quad {
                border,
                points,
                capacity,
                is_leaf: true,
                top_left_quad: None,
                top_right_quad: None,
                bottom_left_quad: None,
                bottom_right_quad: None,
            };
            quad
        } else {
            let mx = midpoint(border.top_left.x, border.bottom_right.x);
            let my = midpoint(border.top_left.y, border.bottom_right.y);
            let mut tl_pts: Vec<Point> = Vec::new();
            let mut tr_pts: Vec<Point> = Vec::new();
            let mut bl_pts: Vec<Point> = Vec::new();
            let mut br_pts: Vec<Point> = Vec::new();
            let mut i: usize = 0;
            while i < points.len()
                invariant
                    0 <= i <= points@.len(),
                    border.wf(),
                    points@.no_duplicates(),
                    forall|k: int|
                        0 <= k < points@.len() ==> border.spec_contains(#[trigger] points@[k]),
                    mx == border.mid_x(),
                    my == border.mid_y(),
                    part_inv(tl_pts@, points@.take(i as int), border, Quadrant::TopLeft),
                    part_inv(tr_pts@, points@.take(i as int), border, Quadrant::TopRight),
                    part_inv(bl_pts@, points@.take(i as int), border, Quadrant::BottomLeft),
                    part_inv(br_pts@, points@.take(i as int), border, Quadrant::BottomRight),
                    tl_pts@.to_set() + tr_pts@.to_set() + bl_pts@.to_set() + br_pts@.to_set()
                        == points@.take(i as int).to_set(),
                decreases points@.len() - i,
            {
                let p = points[i];
                proof {
                    lemma_take_step(points@, i as int);
                    lemma_nodup_prefix_excludes(points@, i as int);
                    lemma_push_to_set(points@.take(i as int), p);
                }
                if p.x <= mx {
                    if p.y <= my {
                        proof {
                            assert(border.route(p) == Quadrant::TopLeft);
                            lemma_push_to_set(tl_pts@, p);
                            lemma_bucket_push(
                                tl_pts@,
                                points@.take(i as int),
                                p,
                                border,
                                Quadrant::TopLeft,
                            );
                            lemma_bucket_keep(
                                tr_pts@,
                                points@.take(i as int),
                                p,
                                border,
                                Quadrant::TopRight,
                            );
                            lemma_bucket_keep(
                                bl_pts@,
                                points@.take(i as int),
                                p,
                                border,
                                Quadrant::BottomLeft,
                            );
                            lemma_bucket_keep(
                                br_pts@,
                                points@.take(i as int),
                                p,
                                border,
                                Quadrant::BottomRight,
                            );
                        }
                        tl_pts.push(p);
                    } else {
                        proof {
                            assert(border.route(p) == Quadrant::BottomLeft);
                            lemma_push_to_set(bl_pts@, p);
                            lemma_bucket_push(
                                bl_pts@,
                                points@.take(i as int),
                                p,
                                border,
                                Quadrant::BottomLeft,
                            );
                            lemma_bucket_keep(
                                tl_pts@,
                                points@.take(i as int),
                                p,
                                border,
                                Quadrant::TopLeft,
                            );
                            lemma_bucket_keep(
                                tr_pts@,
                                points@.take(i as int),
                                p,
                                border,
                                Quadrant::TopRight,
                            );
                            lemma_bucket_keep(
                                br_pts@,
                                points@.take(i as int),
                                p,
                                border,
                                Quadrant::BottomRight,
                            );
                        }
                        bl_pts.push(p);
                    }
                } else {
                    if p.y <= my {
                        proof {
                            assert(border.route(p) == Quadrant::TopRight);
                            lemma_push_to_set(tr_pts@, p);
                            lemma_bucket_push(
                                tr_pts@,
                                points@.take(i as int),
                                p,
                                border,
                                Quadrant::TopRight,
                            );
                            lemma_bucket_keep(
                                tl_pts@,
                                points@.take(i as int),
                                p,
                                border,
                                Quadrant::TopLeft,
                            );
                            lemma_bucket_keep(
                                bl_pts@,
                                points@.take(i as int),
                                p,
                                border,
                                Quadrant::BottomLeft,
                            );
                            lemma_bucket_keep(
                                br_pts@,
                                points@.take(i as int),
                                p,
                                border,
                                Quadrant::BottomRight,
                            );
                        }
                        tr_pts.push(p);
                    } else {
                        proof {
                            assert(border.route(p) == Quadrant::BottomRight);
                            lemma_push_to_set(br_pts@, p);
                            lemma_bucket_push(
                                br_pts@,
                                points@.take(i as int),
                                p,
                                border,
                                Quadrant::BottomRight,
                            );
                            lemma_bucket_keep(
                                tl_pts@,
                                points@.take(i as int),
                                p,
                                border,
                                Quadrant::TopLeft,
                            );
                            lemma_bucket_keep(
                                tr_pts@,
                                points@.take(i as int),
                                p,
                                border,
                                Quadrant::TopRight,
                            );
                            lemma_bucket_keep(
                                bl_pts@,
                                points@.take(i as int),
                                p,
                                border,
                                Quadrant::BottomLeft,
                            );
                        }
                        br_pts.push(p);
                    }
                }
                proof {
                    assert(tl_pts@.to_set() + tr_pts@.to_set() + bl_pts@.to_set()
                        + br_pts@.to_set() =~= points@.take(i as int + 1).to_set());
                }
                i += 1;
            }
            proof {
                assert(points@.take(points@.len() as int) =~= points@);
                crate::rectangle::lemma_mid_bounds(
                    border.top_left.x as int,
                    border.bottom_right.x as int,
                );
                crate::rectangle::lemma_mid_bounds(
                    border.top_left.y as int,
                    border.bottom_right.y as int,
                );
            }
            let tl_rect = Rectangle {
                top_left: border.top_left,
                bottom_right: Point { x: mx, y: my },
            };
            let tr_rect = Rectangle {
                top_left: Point { x: mx, y: border.top_left.y },
                bottom_right: Point { x: border.bottom_right.x, y: my },
            };
            let bl_rect = Rectangle {
                top_left: Point { x: border.top_left.x, y: my },
                bottom_right: Point { x: mx, y: border.bottom_right.y },
            };
            let br_rect = Rectangle {
                top_left: Point { x: mx, y: my },
                bottom_right: border.bottom_right,
            };
            proof {
                assert(tl_rect == border.quadrant_rect(Quadrant::TopLeft));
                assert(tr_rect == border.quadrant_rect(Quadrant::TopRight));
                assert(bl_rect == border.quadrant_rect(Quadrant::BottomLeft));
                assert(br_rect == border.quadrant_rect(Quadrant::BottomRight));
                lemma_bucket_fits(tl_pts@, points@, border, Quadrant::TopLeft);
                lemma_bucket_fits(tr_pts@, points@, border, Quadrant::TopRight);
                lemma_bucket_fits(bl_pts@, points@, border, Quadrant::BottomLeft);
                lemma_bucket_fits(br_pts@, points@, border, Quadrant::BottomRight);
            }
            let tl_quad = Quad::build(tl_rect, capacity, tl_pts);
            let tr_quad = Quad::build(tr_rect, capacity, tr_pts);
            let bl_quad = Quad::build(bl_rect, capacity, bl_pts);
            let br_quad = Quad::build(br_rect, capacity, br_pts);
            let quad = Quad {
                border,
                points: Vec::new(),
                capacity,
                is_leaf: false,
                top_left_quad: Some(Box::new(tl_quad)),
                top_right_quad: Some(Box::new(tr_quad)),
                bottom_left_quad: Some(Box::new(bl_quad)),
                bottom_right_quad: Some(Box::new(br_quad)),
            };
            proof {
                assert(quad.pts() =~= points@.to_set());
            }
            quad
        }
    }
}

/// Appending an absent element keeps a sequence duplicate-free.
proof fn lemma_push_nodup(s: Seq<Point>, x: Point)
    requires
        s.no_duplicates(),
        !s.contains(x),
    ensures
        s.push(x).no_duplicates(),
{
    let s1 = s.push(x);
    assert forall|a: int, b: int|
        0 <= a < s1.len() && 0 <= b < s1.len() && a != b implies s1[a] != s1[b] by {
        if a < s.len() && b < s.len() {
            assert(s[a] != s[b]);
        } else if b == s.len() {
            if s[a] == x {
                assert(s.contains(x));
            }
        } else {
            if s[b] == x {
                assert(s.contains(x));
            }
        }
    }
}

impl Quad {
    /// The capacity of a well-formed tree is positive and fits a
    /// machine word.
    pub proof fn lemma_capacity_range(self)
        requires
            self.wf(),
        ensures
            1 <= self.spec_capacity() <= usize::MAX,
    {
    }

    /// The set of stored points is finite.
    pub proof fn lemma_pts_finite(self)
        requires
            self.wf(),
        ensures
            self@.finite(),
        decreases self,
    {
        broadcast use vstd::seq_lib::seq_to_set_is_finite;

        if !self.is_leaf {
            self.top_left_quad->0.lemma_pts_finite();
            self.top_right_quad->0.lemma_pts_finite();
            self.bottom_left_quad->0.lemma_pts_finite();
            self.bottom_right_quad->0.lemma_pts_finite();
        }
    }

    /// Partitions this leaf's rectangle into four quadrants, re-routes
    /// every point it holds into four fresh children, clears the point
    /// list and flips the node to internal. Invoked only on a leaf that
    /// has just exceeded its capacity; the transition is permanent.
    fn subdivide(&mut self)
        requires
            old(self).border.wf(),
            old(self).capacity >= 1,
            old(self).is_leaf,
            old(self).points@.no_duplicates(),
            forall|i: int|
                0 <= i < old(self).points@.len() ==> old(self).border.spec_contains(
                    #[trigger] old(self).points@[i],
                ),
            old(self).points@.len() > old(self).capacity,
        ensures
            final(self).wf(),
            !final(self).spec_is_leaf(),
            final(self)@ == old(self).points@.to_set(),
            final(self).spec_border() == old(self).spec_border(),
            final(self).spec_capacity() == old(self).spec_capacity(),
    {
        let pts = self.points.split_off(0);
        proof {
            assert(pts@ =~= old(self).points@);
        }
        let node = Quad::build(self.border, self.capacity, pts);
        *self = node;
    }

    /// Inserts a point. A point outside the tree's border is silently
    /// ignored; a point already stored is left as is. A leaf with room
    /// appends the point; a full leaf subdivides first, so subdivision
    /// triggers exactly when a distinct in-border point arrives at a leaf
    /// already holding `capacity` points. An internal node routes the
    /// point to the one child whose quadrant it falls in.
    pub fn insert(&mut self, point: &Point)
        requires
            old(self).wf(),
        ensures
            final(self).wf(),
            final(self)@ == if old(self).spec_border().spec_contains(*point) {
                old(self)@.insert(*point)
            } else {
                old(self)@
            },
            final(self).spec_border() == old(self).spec_border(),
            final(self).spec_capacity() == old(self).spec_capacity(),
            final(self).spec_is_leaf() == (old(self).spec_is_leaf() && !(
            old(self).spec_border().spec_contains(*point) && !old(self)@.contains(*point) && old(
                self,
            )@.len() == old(self).spec_capacity())),
        decreases *old(self),
    {
        if !self.check_boundary(point) {
            return ;
        }
        if self.is_leaf {
            proof {
                self.points@.unique_seq_to_set();
            }
            if contains_point(&self.points, point) {
                proof {
                    assert(old(self)@.insert(*point) =~= old(self)@);
                }
                return ;
            }
            proof {
                lemma_push_to_set(self.points@, *point);
                lemma_push_nodup(self.points@, *point);
            }
            if self.points.len() < self.capacity {
                self.points.push(*point);
            } else {
                self.points.push(*point);
                self.subdivide();
            }
        } else {
            let mx = midpoint(self.border.top_left.x, self.border.bottom_right.x);
            let my = midpoint(self.border.top_left.y, self.border.bottom_right.y);
            if point.x <= mx {
                if point.y <= my {
                    proof {
                        assert(self.border.route(*point) == Quadrant::TopLeft);
                        self.border.lemma_route_contains(*point);
                    }
                    let mut child = self.top_left_quad.take().unwrap();
                    (&mut *child).insert(point);
                    self.top_left_quad = Some(child);
                } else {
                    proof {
                        assert(self.border.route(*point) == Quadrant::BottomLeft);
                        self.border.lemma_route_contains(*point);
                    }
                    let mut child = self.bottom_left_quad.take().unwrap();
                    (&mut *child).insert(point);
                    self.bottom_left_quad = Some(child);
                }
            } else {
                if point.y <= my {
                    proof {
                        assert(self.border.route(*point) == Quadrant::TopRight);
                        self.border.lemma_route_contains(*point);
                    }
                    let mut child = self.top_right_quad.take().unwrap();
                    (&mut *child).insert(point);
                    self.top_right_quad = Some(child);
                } else {
                    proof {
                        assert(self.border.route(*point) == Quadrant::BottomRight);
                        self.border.lemma_route_contains(*point);
                    }
                    let mut child = self.bottom_right_quad.take().unwrap();
                    (&mut *child).insert(point);
                    self.bottom_right_quad = Some(child);
                }
            }
            proof {
                assert(self@ =~= old(self)@.insert(*point));
            }
        }
    }
}

/// Removes every point equal to the given one from the list, keeping the
/// order of the remaining points.
fn remove_matching(points: &mut Vec<Point>, point: &Point)
    requires
        old(points)@.no_duplicates(),
    ensures
        final(points)@.no_duplicates(),
        final(points)@.to_set() == old(points)@.to_set().remove(*point),
        final(points)@.len() <= old(points)@.len(),
        forall|q: Point| final(points)@.contains(q) ==> old(points)@.contains(q),
{
    let ghost initial = points@;
    let mut kept: Vec<Point> = Vec::new();
    let mut i: usize = 0;
    while i < points.len()
        invariant
            0 <= i <= points@.len(),
            points@ == initial,
            points@.no_duplicates(),
            kept@.no_duplicates(),
            kept@.len() <= i,
            kept@.to_set() == points@.take(i as int).to_set().remove(*point),
        decreases points@.len() - i,
    {
        let p = points[i];
        proof {
            lemma_take_step(points@, i as int);
            lemma_nodup_prefix_excludes(points@, i as int);
            lemma_push_to_set(points@.take(i as int), p);
        }
        if p != *point {
            proof {
                assert(!kept@.contains(p)) by {
                    if kept@.contains(p) {
                        assert(kept@.to_set().contains(p));
                    }
                }
                lemma_push_nodup(kept@, p);
                lemma_push_to_set(kept@, p);
                assert(kept@.push(p).to_set() =~= points@.take(i as int + 1).to_set().remove(
                    *point,
                ));
            }
            kept.push(p);
        } else {
            proof {
                assert(kept@.to_set() =~= points@.take(i as int + 1).to_set().remove(*point));
            }
        }
        i += 1;
    }
    proof {
        assert(points@.take(points@.len() as int) =~= points@);
    }
    *points = kept;
    proof {
        assert forall|q: Point| final(points)@.contains(q) implies initial.contains(q) by {
            assert(final(points)@.to_set().contains(q));
        }
    }
}

impl Quad {
    /// Deletes a point. A point outside the tree's border is silently
    /// ignored. A leaf removes every stored point equal to the given one;
    /// an internal node forwards the deletion into all four children
    /// unconditionally. Deletion never merges nodes back into leaves,
    /// even when it empties every descendant.
    pub fn delete(&mut self, point: &Point)
        requires
            old(self).wf(),
        ensures
            final(self).wf(),
            final(self)@ == old(self)@.remove(*point),
            final(self).spec_border() == old(self).spec_border(),
            final(self).spec_capacity() == old(self).spec_capacity(),
            final(self).spec_is_leaf() == old(self).spec_is_leaf(),
        decreases *old(self),
    {
        if !self.check_boundary(point) {
            proof {
                self.lemma_pts_in_border();
                assert(old(self)@.remove(*point) =~= old(self)@);
            }
            return ;
        }
        if self.is_leaf {
            remove_matching(&mut self.points, point);
            proof {
                assert forall|i: int|
                    0 <= i < self.points@.len() implies self.border.spec_contains(
                    #[trigger] self.points@[i],
                ) by {
                    assert(self.points@.contains(self.points@[i]));
                    assert(old(self).points@.contains(self.points@[i]));
                    let k = choose|k: int|
                        0 <= k < old(self).points@.len() && old(self).points@[k]
                            == self.points@[i];
                }
            }
        } else {
            let mut tl = self.top_left_quad.take().unwrap();
            (&mut *tl).delete(point);
            self.top_left_quad = Some(tl);
            let mut tr = self.top_right_quad.take().unwrap();
            (&mut *tr).delete(point);
            self.top_right_quad = Some(tr);
            let mut bl = self.bottom_left_quad.take().unwrap();
            (&mut *bl).delete(point);
            self.bottom_left_quad = Some(bl);
            let mut br = self.bottom_right_quad.take().unwrap();
            (&mut *br).delete(point);
            self.bottom_right_quad = Some(br);
            proof {
                assert(final(self)@ =~= old(self)@.remove(*point));
            }
        }
    }
}

/// A finished partition bucket satisfies the preconditions of the
/// recursive build for its quadrant, and is small enough for the
/// recursion to terminate: the quadrant is strictly smaller than the
/// parent, or the bucket holds at most one point.
proof fn lemma_bucket_fits(part: Seq<Point>, all: Seq<Point>, border: Rectangle, q: Quadrant)
    requires
        border.wf(),
        part_inv(part, all, border, q),
        forall|k: int| 0 <= k < all.len() ==> border.spec_contains(#[trigger] all[k]),
    ensures
        forall|j: int|
            0 <= j < part.len() ==> border.quadrant_rect(q).spec_contains(#[trigger] part[j]),
        border.quadrant_rect(q).span_sum() <= border.span_sum(),
        border.quadrant_rect(q).span_sum() == border.span_sum() ==> part.len() <= 1,
{
    border.lemma_quadrant_frame(q);
    assert forall|j: int|
        0 <= j < part.len() implies border.quadrant_rect(q).spec_contains(#[trigger] part[j]) by {
        let p = part[j];
        let k = choose|k: int| 0 <= k < all.len() && all[k] == p;
        border.lemma_route_contains(p);
    }
    if border.quadrant_rect(q).span_sum() == border.span_sum() && part.len() >= 2 {
        let p1 = part[0];
        let p2 = part[1];
        let k1 = choose|k: int| 0 <= k < all.len() && all[k] == p1;
        let k2 = choose|k: int| 0 <= k < all.len() && all[k] == p2;
        border.lemma_same_span_unique(q, p1, p2);
        assert(false);
    }
}

/// Membership in a sequence extended by one element.
proof fn lemma_push_contains(s: Seq<Point>, x: Point)
    ensures
        forall|y: Point| #[trigger] s.push(x).contains(y) <==> s.contains(y) || y == x,
{
    assert forall|y: Point| #[trigger] s.push(x).contains(y) implies s.contains(y) || y == x by {
        let j = choose|j: int| 0 <= j < s.push(x).len() && s.push(x)[j] == y;
        if j < s.len() {
            assert(s[j] == y);
        }
    }
    assert forall|y: Point| s.contains(y) || y == x implies #[trigger] s.push(x).contains(y) by {
        if s.contains(y) {
            let j = choose|j: int| 0 <= j < s.len() && s[j] == y;
            assert(s.push(x)[j] == y);
        } else {
            assert(s.push(x)[s.len() as int] == y);
        }
    }
}

/// One step of filtering: appending an element appends it to the
/// filtered sequence exactly when it satisfies the predicate.
proof fn lemma_filter_push(s: Seq<Point>, x: Point, pred: spec_fn(Point) -> bool)
    ensures
        s.push(x).filter(pred) == if pred(x) {
            s.filter(pred).push(x)
        } else {
            s.filter(pred)
        },
{
    reveal(Seq::filter);
    let s1 = s.push(x);
    assert(s1.drop_last() =~= s);
    assert(s1.last() == x);
}

/// A filtered sequence only holds elements of the original.
proof fn lemma_filter_subset(s: Seq<Point>, pred: spec_fn(Point) -> bool)
    ensures
        forall|x: Point| #[trigger] s.filter(pred).contains(x) ==> s.contains(x),
    decreases s.len(),
{
    reveal(Seq::filter);
    if s.len() == 0 {
    } else {
        let sub = s.drop_last();
        let last = s.last();
        lemma_filter_subset(sub, pred);
        lemma_push_contains(sub, last);
        assert(sub.push(last) =~= s);
        lemma_filter_push(sub, last, pred);
        if pred(last) {
            lemma_push_contains(sub.filter(pred), last);
        }
    }
}

/// Filtering a duplicate-free sequence yields a duplicate-free sequence.
proof fn lemma_filter_nodup(s: Seq<Point>, pred: spec_fn(Point) -> bool)
    requires
        s.no_duplicates(),
    ensures
        s.filter(pred).no_duplicates(),
    decreases s.len(),
{
    reveal(Seq::filter);
    if s.len() == 0 {
    } else {
        let sub = s.drop_last();
        let last = s.last();
        assert(sub.no_duplicates()) by {
            assert forall|a: int, b: int|
                0 <= a < sub.len() && 0 <= b < sub.len() && a != b implies sub[a] != sub[b] by {
                assert(s[a] == sub[a] && s[b] == sub[b]);
            }
        }
        lemma_filter_nodup(sub, pred);
        assert(sub.push(last) =~= s);
        lemma_filter_push(sub, last, pred);
        if pred(last) {
            assert(!sub.contains(last)) by {
                if sub.contains(last) {
                    let j = choose|j: int| 0 <= j < sub.len() && sub[j] == last;
                    assert(s[j] == s[s.len() - 1]);
                }
            }
            lemma_filter_subset(sub, pred);
            lemma_push_nodup(sub.filter(pred), last);
        }
    }
}

/// Membership in a concatenation.
proof fn lemma_add_contains(a: Seq<Point>, b: Seq<Point>)
    ensures
        forall|x: Point| #[trigger] (a + b).contains(x) <==> a.contains(x) || b.contains(x),
{
    assert forall|x: Point| #[trigger] (a + b).contains(x) implies a.contains(x) || b.contains(
        x,
    ) by {
        let j = choose|j: int| 0 <= j < (a + b).len() && (a + b)[j] == x;
        if j < a.len() {
            assert(a[j] == x);
        } else {
            assert(b[j - a.len()] == x);
        }
    }
    assert forall|x: Point| a.contains(x) || b.contains(x) implies #[trigger] (a + b).contains(
        x,
    ) by {
        if a.contains(x) {
            let j = choose|j: int| 0 <= j < a.len() && a[j] == x;
            assert((a + b)[j] == x);
        } else {
            let j = choose|j: int| 0 <= j < b.len() && b[j] == x;
            assert((a + b)[a.len() + j] == x);
        }
    }
}

/// Concatenating duplicate-free sequences with no common element yields
/// a duplicate-free sequence.
proof fn lemma_add_nodup(a: Seq<Point>, b: Seq<Point>)
    requires
        a.no_duplicates(),
        b.no_duplicates(),
        forall|x: Point| #[trigger] a.contains(x) ==> !b.contains(x),
    ensures
        (a + b).no_duplicates(),
{
    assert forall|i: int, j: int|
        0 <= i < (a + b).len() && 0 <= j < (a + b).len() && i != j implies (a + b)[i] != (a
        + b)[j] by {
        if i < a.len() && j < a.len() {
            assert(a[i] != a[j]);
        } else if i >= a.len() && j >= a.len() {
            assert(b[i - a.len()] != b[j - a.len()]);
        } else if i < a.len() {
            if (a + b)[i] == (a + b)[j] {
                assert(a.contains(a[i]));
                assert(b.contains(b[j - a.len()]));
            }
        } else {
            if (a + b)[i] == (a + b)[j] {
                assert(a.contains(a[j]));
                assert(b.contains(b[i - a.len()]));
            }
        }
    }
}

/// The predicate a range query filters stored points with.
spec fn range_pred(circle: Circle) -> spec_fn(Point) -> bool {
    |q: Point| circle.spec_contains(q)
}

/// The points of the subtree under an optional child matching a query.
spec fn child_range(child: Option<Box<Quad>>, circle: Circle) -> Seq<Point>
    decreases child,
{
    match child {
        Some(c) => c.spec_range(circle),
        None => Seq::empty(),
    }
}

impl Quad {
    /// The result of a range query over this subtree, in traversal order:
    /// a subtree whose border the circle misses contributes nothing; a
    /// leaf contributes its covered points in storage order; an internal
    /// node concatenates its children's results in the order top-left,
    /// top-right, bottom-left, bottom-right.
    pub closed spec fn spec_range(self, circle: Circle) -> Seq<Point>
        decreases self,
    {
        if !circle.spec_intersects(self.border) {
            Seq::empty()
        } else if self.is_leaf {
            self.points@.filter(range_pred(circle))
        } else {
            child_range(self.top_left_quad, circle) + child_range(self.top_right_quad, circle)
                + child_range(self.bottom_left_quad, circle) + child_range(
                self.bottom_right_quad,
                circle,
            )
        }
    }

    /// A range query returns exactly the stored points the circle covers:
    /// pruning a subtree whose border the circle misses never loses a
    /// stored point, and every returned point is a stored match.
    pub proof fn lemma_range_characterization(self, circle: Circle)
        requires
            self.wf(),
        ensures
            forall|p: Point| #[trigger]
                self.spec_range(circle).contains(p) <==> self@.contains(p)
                    && circle.spec_contains(p),
        decreases self,
    {
        if !circle.spec_intersects(self.border) {
            self.lemma_pts_in_border();
            assert forall|p: Point| #[trigger]
                self.spec_range(circle).contains(p) <==> self@.contains(p)
                    && circle.spec_contains(p) by {
                if self@.contains(p) && circle.spec_contains(p) {
                    circle.lemma_contains_implies_intersects(self.border, p);
                }
            }
        } else if self.is_leaf {
            let pred = range_pred(circle);
            broadcast use vstd::seq_lib::group_filter_ensures;

            lemma_filter_subset(self.points@, pred);
            assert forall|p: Point| #[trigger]
                self.spec_range(circle).contains(p) <==> self@.contains(p)
                    && circle.spec_contains(p) by {
                if self.points@.filter(pred).contains(p) {
                    let k = choose|k: int|
                        0 <= k < self.points@.filter(pred).len() && self.points@.filter(pred)[k]
                            == p;
                    assert(pred(self.points@.filter(pred)[k]));
                }
                if self@.contains(p) && circle.spec_contains(p) {
                    let k = choose|k: int|
                        0 <= k < self.points@.len() && self.points@[k] == p;
                    assert(self.points@.filter(pred).contains(self.points@[k]));
                }
            }
        } else {
            let a = child_range(self.top_left_quad, circle);
            let b = child_range(self.top_right_quad, circle);
            let c = child_range(self.bottom_left_quad, circle);
            let d = child_range(self.bottom_right_quad, circle);
            self.top_left_quad->0.lemma_range_characterization(circle);
            self.top_right_quad->0.lemma_range_characterization(circle);
            self.bottom_left_quad->0.lemma_range_characterization(circle);
            self.bottom_right_quad->0.lemma_range_characterization(circle);
            lemma_add_contains(a, b);
            lemma_add_contains(a + b, c);
            lemma_add_contains(a + b + c, d);
            let tl = self.top_left_quad->0;
            let tr = self.top_right_quad->0;
            let bl = self.bottom_left_quad->0;
            let br = self.bottom_right_quad->0;
            assert(a == tl.spec_range(circle) && b == tr.spec_range(circle) && c
                == bl.spec_range(circle) && d == br.spec_range(circle));
            assert(tl@ == tl.pts() && tr@ == tr.pts() && bl@ == bl.pts() && br@ == br.pts());
            assert(self@ == tl.pts() + tr.pts() + bl.pts() + br.pts());
            assert forall|p: Point| #[trigger]
                self.spec_range(circle).contains(p) <==> self@.contains(p)
                    && circle.spec_contains(p) by {
                if self.spec_range(circle).contains(p) {
                    assert(a.contains(p) || b.contains(p) || c.contains(p) || d.contains(p));
                    if a.contains(p) {
                        assert(tl.spec_range(circle).contains(p));
                    } else if b.contains(p) {
                        assert(tr.spec_range(circle).contains(p));
                    } else if c.contains(p) {
                        assert(bl.spec_range(circle).contains(p));
                    } else {
                        assert(br.spec_range(circle).contains(p));
                    }
                }
                if self@.contains(p) && circle.spec_contains(p) {
                    if tl.pts().contains(p) {
                        assert(tl.spec_range(circle).contains(p));
                    } else if tr.pts().contains(p) {
                        assert(tr.spec_range(circle).contains(p));
                    } else if bl.pts().contains(p) {
                        assert(bl.spec_range(circle).contains(p));
                    } else {
                        assert(br.spec_range(circle).contains(p));
                    }
                    assert(a.contains(p) || b.contains(p) || c.contains(p) || d.contains(p));
                }
            }
        }
    }

    /// A range query returns each point at most once: the four children
    /// of a node hold disjoint point sets, since each stored point lies
    /// only in the child its routing quadrant names.
    pub proof fn lemma_range_no_duplicates(self, circle: Circle)
        requires
            self.wf(),
        ensures
            self.spec_range(circle).no_duplicates(),
        decreases self,
    {
        if !circle.spec_intersects(self.border) {
        } else if self.is_leaf {
            lemma_filter_nodup(self.points@, range_pred(circle));
        } else {
            let a = child_range(self.top_left_quad, circle);
            let b = child_range(self.top_right_quad, circle);
            let c = child_range(self.bottom_left_quad, circle);
            let d = child_range(self.bottom_right_quad, circle);
            self.top_left_quad->0.lemma_range_no_duplicates(circle);
            self.top_right_quad->0.lemma_range_no_duplicates(circle);
            self.bottom_left_quad->0.lemma_range_no_duplicates(circle);
            self.bottom_right_quad->0.lemma_range_no_duplicates(circle);
            self.top_left_quad->0.lemma_range_characterization(circle);
            self.top_right_quad->0.lemma_range_characterization(circle);
            self.bottom_left_quad->0.lemma_range_characterization(circle);
            self.bottom_right_quad->0.lemma_range_characterization(circle);
            lemma_add_contains(a, b);
            lemma_add_contains(a + b, c);
            lemma_add_contains(a + b + c, d);
            let tl = self.top_left_quad->0;
            let tr = self.top_right_quad->0;
            let bl = self.bottom_left_quad->0;
            let br = self.bottom_right_quad->0;
            assert(a == tl.spec_range(circle) && b == tr.spec_range(circle) && c
                == bl.spec_range(circle) && d == br.spec_range(circle));
            assert(tl@ == tl.pts() && tr@ == tr.pts() && bl@ == bl.pts() && br@ == br.pts());
            assert forall|x: Point| #[trigger] a.contains(x) implies !b.contains(x) by {
                assert(tl.spec_range(circle).contains(x));
                assert(tl.pts().contains(x));
                assert(self.border.route(x) == Quadrant::TopLeft);
                if b.contains(x) {
                    assert(tr.spec_range(circle).contains(x));
                    assert(tr.pts().contains(x));
                    assert(self.border.route(x) == Quadrant::TopRight);
                    assert(false);
                }
            }
            lemma_add_nodup(a, b);
            assert forall|x: Point| #[trigger] (a + b).contains(x) implies !c.contains(x) by {
                if c.contains(x) {
                    assert(bl.spec_range(circle).contains(x));
                    assert(bl.pts().contains(x));
                    assert(self.border.route(x) == Quadrant::BottomLeft);
                    if a.contains(x) {
                        assert(tl.spec_range(circle).contains(x));
                        assert(tl.pts().contains(x));
                        assert(self.border.route(x) == Quadrant::TopLeft);
                    } else {
                        assert(b.contains(x));
                        assert(tr.spec_range(circle).contains(x));
                        assert(tr.pts().contains(x));
                        assert(self.border.route(x) == Quadrant::TopRight);
                    }
                    assert(false);
                }
            }
            lemma_add_nodup(a + b, c);
            assert forall|x: Point| #[trigger] (a + b + c).contains(x) implies !d.contains(
                x,
            ) by {
                if d.contains(x) {
                    assert(br.spec_range(circle).contains(x));
                    assert(br.pts().contains(x));
                    assert(self.border.route(x) == Quadrant::BottomRight);
                    if a.contains(x) {
                        assert(tl.spec_range(circle).contains(x));
                        assert(tl.pts().contains(x));
                        assert(self.border.route(x) == Quadrant::TopLeft);
                    } else if b.contains(x) {
                        assert(tr.spec_range(circle).contains(x));
                        assert(tr.pts().contains(x));
                        assert(self.border.route(x) == Quadrant::TopRight);
                    } else {
                        assert(c.contains(x));
                        assert(bl.spec_range(circle).contains(x));
                        assert(bl.pts().contains(x));
                        assert(self.border.route(x) == Quadrant::BottomLeft);
                    }
                    assert(false);
                }
            }
            lemma_add_nodup(a + b + c, d);
        }
    }

    /// Appends to `points` every stored point of this subtree that the
    /// circle covers, pruning any subtree whose border the circle misses.
    pub fn find_within_range_helper(&self, circle: &Circle, points: &mut Vec<Point>)
        requires
            self.wf(),
        ensures
            final(points)@ == old(points)@ + self.spec_range(*circle),
        decreases self,
    {
        if circle.intersects(&self.border) {
            if !self.is_leaf {
                let ghost base = points@;
                self.top_left_quad.as_ref().unwrap().find_within_range_helper(circle, points);
                self.top_right_quad.as_ref().unwrap().find_within_range_helper(circle, points);
                self.bottom_left_quad.as_ref().unwrap().find_within_range_helper(circle, points);
                self.bottom_right_quad.as_ref().unwrap().find_within_range_helper(circle, points);
                proof {
                    assert(final(points)@ =~= base + self.spec_range(*circle));
                }
            } else {
                let ghost base = points@;
                let mut i: usize = 0;
                while i < self.points.len()
                    invariant
                        0 <= i <= self.points@.len(),
                        self.wf(),
                        self.spec_is_leaf(),
                        circle.spec_intersects(self.spec_border()),
                        points@ == base + self.points@.take(i as int).filter(
                            range_pred(*circle),
                        ),
                    decreases self.points@.len() - i,
                {
                    let p = self.points[i];
                    proof {
                        lemma_take_step(self.points@, i as int);
                        lemma_filter_push(self.points@.take(i as int), p, range_pred(*circle));
                    }
                    if circle.contains(&p) {
                        points.push(p);
                    }
                    i += 1;
                }
                proof {
                    assert(self.points@.take(self.points@.len() as int) =~= self.points@);
                }
            }
        } else {
            proof {
                assert(old(points)@ + self.spec_range(*circle) =~= old(points)@);
            }
        }
    }

    /// Produces the stored points the circle covers, as a fresh list in
    /// traversal order: top-left before top-right before bottom-left
    /// before bottom-right, leaf storage order within each. The result
    /// holds exactly the stored points within the circle, each once.
    pub fn find_within_range(&self, circle: &Circle) -> (found: Vec<Point>)
        requires
            self.wf(),
        ensures
            found@ == self.spec_range(*circle),
            forall|p: Point| #[trigger]
                found@.contains(p) <==> self@.contains(p) && circle.spec_contains(p),
            found@.no_duplicates(),
    {
        let mut points: Vec<Point> = Vec::new();
        self.find_within_range_helper(circle, &mut points);
        proof {
            assert(points@ =~= self.spec_range(*circle));
            self.lemma_range_characterization(*circle);
            self.lemma_range_no_duplicates(*circle);
        }
        points
    }
}

/// A plain recursive snapshot of the tree's shape: every node's stored
/// points and, below internal nodes, four children. Produced for
/// introspection by a serving layer; the tree never reads one back.
#[derive(Debug)]
pub struct QuadNode {
    pub points: Vec<Point>,
    pub is_child: bool,
    pub top_left: Option<Box<QuadNode>>,
    pub top_right: Option<Box<QuadNode>>,
    pub bottom_left: Option<Box<QuadNode>>,
    pub bottom_right: Option<Box<QuadNode>>,
}

/// Whether an optional snapshot node faithfully mirrors an optional
/// child: both present, with the snapshot marked as a child.
spec fn child_dumps_to(child: Option<Box<Quad>>, node_child: Option<Box<QuadNode>>) -> bool
    decreases child,
{
    match (child, node_child) {
        (Some(c), Some(n)) => c.dumps_to(*n, true),
        _ => false,
    }
}

impl Quad {
    /// Whether `node` is a faithful snapshot of this subtree: the same
    /// directly stored points, a child snapshot exactly where the tree
    /// has a child, and the given parenthood flag.
    pub closed spec fn dumps_to(self, node: QuadNode, is_child: bool) -> bool
        decreases self,
    {
        &&& node.points@ == self.points@
        &&& node.is_child == is_child
        &&& if self.is_leaf {
            &&& node.top_left is None
            &&& node.top_right is None
            &&& node.bottom_left is None
            &&& node.bottom_right is None
        } else {
            &&& child_dumps_to(self.top_left_quad, node.top_left)
            &&& child_dumps_to(self.top_right_quad, node.top_right)
            &&& child_dumps_to(self.bottom_left_quad, node.bottom_left)
            &&& child_dumps_to(self.bottom_right_quad, node.bottom_right)
        }
    }

    /// Copies this subtree into a snapshot node, marking it as a child
    /// of some parent when `is_child` is set.
    fn to_node(&self, is_child: bool) -> (node: QuadNode)
        requires
            self.wf(),
        ensures
            self.dumps_to(node, is_child),
        decreases self,
    {
        let mut copied: Vec<Point> = Vec::new();
        let mut i: usize = 0;
        while i < self.points.len()
            invariant
                0 <= i <= self.points@.len(),
                copied@ == self.points@.take(i as int),
            decreases self.points@.len() - i,
        {
            let p = self.points[i];
            proof {
                lemma_take_step(self.points@, i as int);
            }
            copied.push(p);
            i += 1;
        }
        proof {
            assert(self.points@.take(self.points@.len() as int) =~= self.points@);
        }
        if self.is_leaf {
            QuadNode {
                points: copied,
                is_child,
                top_left: None,
                top_right: None,
                bottom_left: None,
                bottom_right: None,
            }
        } else {
            QuadNode {
                points: copied,
                is_child,
                top_left: Some(Box::new(self.top_left_quad.as_ref().unwrap().to_node(true))),
                top_right: Some(Box::new(self.top_right_quad.as_ref().unwrap().to_node(true))),
                bottom_left: Some(Box::new(self.bottom_left_quad.as_ref().unwrap().to_node(true))),
                bottom_right: Some(
                    Box::new(self.bottom_right_quad.as_ref().unwrap().to_node(true)),
                ),
            }
        }
    }

    /// A full recursive dump of the tree's shape, for introspection: the
    /// root is not a child, every node below it is.
    pub fn get_all_quads(&self) -> (node: QuadNode)
        requires
            self.wf(),
        ensures
            self.dumps_to(node, false),
    {
        self.to_node(false)
    }

    /// Boundary inclusivity: the border's edges are part of the border,
    /// so a point lying exactly on them is stored by `insert` and then
    /// found by `search`.
    pub proof fn lemma_boundary_inclusive(self, p: Point)
        requires
            self.wf(),
            p.x == self.spec_border().top_left.x || p.x == self.spec_border().bottom_right.x
                || p.y == self.spec_border().top_left.y || p.y
                == self.spec_border().bottom_right.y,
            self.spec_border().top_left.x <= p.x <= self.spec_border().bottom_right.x,
            self.spec_border().top_left.y <= p.y <= self.spec_border().bottom_right.y,
        ensures
            self.spec_border().spec_contains(p),
            self@.insert(p).contains(p),
    {
    }

    /// Out-of-bounds no-op: a point strictly outside the border is never
    /// stored, so inserting it leaves the tree's point set unchanged,
    /// searching for it returns false, and the stored-point count, which
    /// the finite point set carries, does not move.
    pub proof fn lemma_out_of_bounds_noop(self, p: Point)
        requires
            self.wf(),
            p.x < self.spec_border().top_left.x || p.x > self.spec_border().bottom_right.x || p.y
                < self.spec_border().top_left.y || p.y > self.spec_border().bottom_right.y,
        ensures
            !self.spec_border().spec_contains(p),
            !self@.contains(p),
            self@.finite(),
    {
        self.lemma_pts_in_border();
        self.lemma_pts_finite();
    }
}

/// Inserting a point into a stored set and then deleting it leaves the
/// point absent, so a search after the pair of operations returns false.
pub proof fn lemma_insert_delete_absent(s: Set<Point>, p: Point)
    ensures
        !s.insert(p).remove(p).contains(p),
{
}

/// Whether the list holds an exactly-equal point.
fn contains_point(points: &Vec<Point>, point: &Point) -> (found: bool)
    ensures
        found == points@.contains(*point),
{
    let mut i: usize = 0;
    while i < points.len()
        invariant
            0 <= i <= points@.len(),
            forall|j: int| 0 <= j < i ==> points@[j] != *point,
        decreases points@.len() - i,
    {
        if points[i] == *point {
            assert(points@[i as int] == *point);
            return true;
        }
        i += 1;
    }
    false
}

} // verus!
