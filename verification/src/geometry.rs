//! Boundary geometry: points, line segments, and an ordered composite of
//! curve primitives, with an exact closest-point query.
//!
//! All coordinates are fixed-point integers (`SCALE` units make one domain
//! unit), so the projection formulas below are exact integer arithmetic and
//! the minimum search is total: no candidate distance can fail to compare.

use vstd::prelude::*;

verus! {

use crate::COORD_LIMIT;
use crate::SCALE;
use crate::numerics::clamp_i64;
use crate::numerics::clamp_to;
use crate::numerics::lemma_mul_bounds;
use crate::numerics::lemma_scale_to_bounds;
use crate::numerics::lemma_scale_to_ends;
use crate::numerics::lies_between;
use crate::numerics::mul_div_trunc;
use crate::numerics::scale_to;

/// A point of the plane, in fixed-point units (see `crate::SCALE`).
#[derive(Clone, Copy, Debug, PartialEq, Eq, Structural)]
pub struct Point {
    pub x: i64,
    pub y: i64,
}

impl Point {
    /// Both coordinates are small enough for every intermediate product of
    /// the geometric formulas to fit in `i128`.
    pub open spec fn in_range(self) -> bool {
        -COORD_LIMIT <= self.x <= COORD_LIMIT && -COORD_LIMIT <= self.y <= COORD_LIMIT
    }

    pub fn new(x: i64, y: i64) -> (r: Point)
        ensures
            r == (Point { x, y }),
    {
        Point { x, y }
    }
}

/// Squared Euclidean distance between two points.
pub open spec fn dist2(a: Point, b: Point) -> int {
    (a.x - b.x) * (a.x - b.x) + (a.y - b.y) * (a.y - b.y)
}

/// Squared distance, computed exactly in `i128`.
pub fn dist2_i128(a: Point, b: Point) -> (r: i128)
    requires
        a.in_range(),
        b.in_range(),
    ensures
        r == dist2(a, b),
        0 <= r <= 9671406556917033397649408,
{
    let dx: i128 = (a.x as i128) - (b.x as i128);
    let dy: i128 = (a.y as i128) - (b.y as i128);
    proof {
        lemma_mul_bounds(dx as int, dx as int, 2199023255552, 2199023255552);
        lemma_mul_bounds(dy as int, dy as int, 2199023255552, 2199023255552);
        assert(0 <= dx * dx) by (nonlinear_arith);
        assert(0 <= dy * dy) by (nonlinear_arith);
    }
    dx * dx + dy * dy
}

/// An error raised while building boundary geometry.
#[derive(Clone, Copy, Debug, PartialEq, Eq, Structural)]
pub enum GeometryError {
    /// The two end points of a segment coincide, so the segment would have
    /// zero extent.
    DegenerateSegment,
}

/// A straight boundary segment between two distinct points.
#[derive(Clone)]
pub struct Line {
    pub point1: Point,
    pub point2: Point,
}

/// A placeholder for a cubic boundary piece; no query is implemented for it
/// yet and no composite holds one.
#[derive(Clone)]
pub struct Bezier {
    pub point1: Point,
    pub point2: Point,
    pub point3: Point,
    pub point4: Point,
}

/// A boundary piece of one of the supported curve kinds.
#[derive(Clone)]
pub enum Geom2D {
    Line(Line),
}

/// The coordinate of `l.point_along(t)` on the x axis, as exact integers:
/// the parameter is clamped into `[0, SCALE]` and the segment direction is
/// scaled by it.
pub open spec fn along_x(l: Line, t: int) -> int {
    l.point1.x + scale_to(clamp_to(t, 0, SCALE as int), l.point2.x - l.point1.x, SCALE as int)
}

/// The coordinate of `l.point_along(t)` on the y axis.
pub open spec fn along_y(l: Line, t: int) -> int {
    l.point1.y + scale_to(clamp_to(t, 0, SCALE as int), l.point2.y - l.point1.y, SCALE as int)
}

/// The clamped projection parameter of `q` onto `l`, in `[0, SCALE]`:
/// `dot(q - p1, p2 - p1)`, clamped into `[0, len2]`, and brought to the
/// fixed-point scale.
pub open spec fn line_param(l: Line, q: Point) -> int {
    let dx: int = l.point2.x - l.point1.x;
    let dy: int = l.point2.y - l.point1.y;
    let dot: int = (q.x - l.point1.x) * dx + (q.y - l.point1.y) * dy;
    let len2: int = dx * dx + dy * dy;
    scale_to(clamp_to(dot, 0, len2), SCALE as int, len2)
}

/// The closest point of `l` to `q`: the projection parameter evaluated along
/// the segment.
pub open spec fn line_closest(l: Line, q: Point) -> Point {
    Point { x: along_x(l, line_param(l, q)) as i64, y: along_y(l, line_param(l, q)) as i64 }
}

impl Line {
    /// The segment has in-range, distinct end points.
    pub open spec fn wf(self) -> bool {
        self.point1.in_range() && self.point2.in_range() && self.point1 != self.point2
    }

    /// Builds a segment; two identical end points are rejected and never
    /// silently coerced.
    pub fn new(start_point: Point, end_point: Point) -> (r: Result<Line, GeometryError>)
        requires
            start_point.in_range(),
            end_point.in_range(),
        ensures
            r is Ok <==> start_point != end_point,
            r matches Ok(l) ==> l == (Line { point1: start_point, point2: end_point }) && l.wf(),
            r matches Err(e) ==> e == GeometryError::DegenerateSegment,
    {
        if start_point != end_point {
            Ok(Line { point1: start_point, point2: end_point })
        } else {
            Err(GeometryError::DegenerateSegment)
        }
    }

    /// The two end points, in construction order.
    pub fn points(&self) -> (r: [Point; 2])
        ensures
            r[0] == self.point1,
            r[1] == self.point2,
    {
        [self.point1, self.point2]
    }
}

/// A curve primitive that can be evaluated at a parameter in `[0, SCALE]`;
/// parameters outside that interval are clamped to it.
pub trait Parametric {
    /// The primitive is fit to be evaluated.
    spec fn param_wf(&self) -> bool;

    /// The point the primitive passes through at (clamped) parameter `t`.
    spec fn spec_point_along(&self, t: int) -> Point;

    /// Evaluates the primitive at fixed-point parameter `t`.
    fn point_along(&self, t: i64) -> (r: Point)
        requires
            self.param_wf(),
        ensures
            r == self.spec_point_along(t as int),
            r.in_range(),
    ;
}

/// Both coordinates of `along` at a clamped parameter stay within the
/// segment's extent, so they stay in range.
proof fn lemma_along_in_segment(l: Line, t: int)
    requires
        l.wf(),
    ensures
        lies_between(along_x(l, t), l.point1.x as int, l.point2.x as int),
        lies_between(along_y(l, t), l.point1.y as int, l.point2.y as int),
        -COORD_LIMIT <= along_x(l, t) <= COORD_LIMIT,
        -COORD_LIMIT <= along_y(l, t) <= COORD_LIMIT,
{
    let tc: int = clamp_to(t, 0, SCALE as int);
    lemma_scale_to_bounds(tc, l.point2.x - l.point1.x, SCALE as int);
    lemma_scale_to_bounds(tc, l.point2.y - l.point1.y, SCALE as int);
}

impl Parametric for Line {
    open spec fn param_wf(&self) -> bool {
        self.wf()
    }

    open spec fn spec_point_along(&self, t: int) -> Point {
        Point { x: along_x(*self, t) as i64, y: along_y(*self, t) as i64 }
    }

    fn point_along(&self, t: i64) -> (r: Point) {
        let tc: i64 = clamp_i64(t, 0, SCALE);
        let dx: i64 = self.point2.x - self.point1.x;
        let dy: i64 = self.point2.y - self.point1.y;
        proof {
            lemma_mul_bounds(tc as int, dx as int, SCALE as int, 2199023255552);
            lemma_mul_bounds(tc as int, dy as int, SCALE as int, 2199023255552);
            lemma_along_in_segment(*self, t as int);
        }
        let delta_x: i128 = mul_div_trunc(tc as i128, dx as i128, SCALE as i128);
        let delta_y: i128 = mul_div_trunc(tc as i128, dy as i128, SCALE as i128);
        proof {
            lemma_scale_to_bounds(tc as int, dx as int, SCALE as int);
            lemma_scale_to_bounds(tc as int, dy as int, SCALE as int);
        }
        Point { x: self.point1.x + (delta_x as i64), y: self.point1.y + (delta_y as i64) }
    }
}

/// Evaluating at or below parameter `0` gives the start point, at or above
/// `SCALE` the end point, and any parameter the same point as its clamped
/// value: a segment never extrapolates past its end points.
pub proof fn lemma_point_along_clamps(l: Line, t: int)
    requires
        l.wf(),
    ensures
        t <= 0 ==> l.spec_point_along(t) == l.point1,
        t >= SCALE ==> l.spec_point_along(t) == l.point2,
        l.spec_point_along(t) == l.spec_point_along(clamp_to(t, 0, SCALE as int)),
{
    lemma_scale_to_ends(l.point2.x - l.point1.x, SCALE as int);
    lemma_scale_to_ends(l.point2.y - l.point1.y, SCALE as int);
}

/// A query that yields the nearest boundary point to an arbitrary point of
/// the plane, or no answer where the geometry offers no candidate.
pub trait ClosestPointQuery {
    /// The geometry is fit to be queried.
    spec fn cpq_wf(&self) -> bool;

    /// The answer of the query, as a mathematical function of the geometry
    /// and the query point.
    spec fn spec_closest_point(&self, query: Point) -> Option<Point>;

    /// Finds the nearest boundary point to `query`.
    fn closest_point(&self, query: Point) -> (r: Option<Point>)
        requires
            self.cpq_wf(),
            query.in_range(),
        ensures
            r == self.spec_closest_point(query),
            r matches Some(p) ==> p.in_range(),
    ;
}

impl ClosestPointQuery for Line {
    open spec fn cpq_wf(&self) -> bool {
        self.wf()
    }

    open spec fn spec_closest_point(&self, query: Point) -> Option<Point> {
        Some(line_closest(*self, query))
    }

    fn closest_point(&self, query: Point) -> (r: Option<Point>) {
        let dx: i128 = (self.point2.x as i128) - (self.point1.x as i128);
        let dy: i128 = (self.point2.y as i128) - (self.point1.y as i128);
        let qx: i128 = (query.x as i128) - (self.point1.x as i128);
        let qy: i128 = (query.y as i128) - (self.point1.y as i128);
        proof {
            lemma_mul_bounds(qx as int, dx as int, 2199023255552, 2199023255552);
            lemma_mul_bounds(qy as int, dy as int, 2199023255552, 2199023255552);
            lemma_mul_bounds(dx as int, dx as int, 2199023255552, 2199023255552);
            lemma_mul_bounds(dy as int, dy as int, 2199023255552, 2199023255552);
            assert(0 <= dx * dx) by (nonlinear_arith);
            assert(0 <= dy * dy) by (nonlinear_arith);
            assert(dx != 0 || dy != 0);
            assert(dx * dx + dy * dy > 0) by (nonlinear_arith)
                requires dx != 0 || dy != 0;
        }
        let dot: i128 = qx * dx + qy * dy;
        let len2: i128 = dx * dx + dy * dy;
        let tc: i128 = if dot < 0 {
            0
        } else if dot > len2 {
            len2
        } else {
            dot
        };
        proof {
            lemma_mul_bounds(tc as int, SCALE as int, 9671406556917033397649408, SCALE as int);
        }
        let t128: i128 = mul_div_trunc(tc, SCALE as i128, len2);
        proof {
            lemma_scale_to_bounds(tc as int, SCALE as int, len2 as int);
        }
        let t: i64 = t128 as i64;
        Some(self.point_along(t))
    }
}

impl ClosestPointQuery for Geom2D {
    open spec fn cpq_wf(&self) -> bool {
        match self {
            Geom2D::Line(line) => line.wf(),
        }
    }

    open spec fn spec_closest_point(&self, query: Point) -> Option<Point> {
        match self {
            Geom2D::Line(line) => line.spec_closest_point(query),
        }
    }

    fn closest_point(&self, query: Point) -> (r: Option<Point>) {
        match self {
            Geom2D::Line(line) => line.closest_point(query),
        }
    }
}

/// The closest point of `q` to any segment lies within the segment's own
/// extent on both axes: the query never answers with a point beyond the end
/// points.
pub proof fn lemma_closest_point_on_segment(l: Line, q: Point)
    requires
        l.wf(),
    ensures
        lies_between(line_closest(l, q).x as int, l.point1.x as int, l.point2.x as int),
        lies_between(line_closest(l, q).y as int, l.point1.y as int, l.point2.y as int),
        line_closest(l, q).in_range(),
{
    lemma_along_in_segment(l, line_param(l, q));
}

/// The answer over an ordered sequence of primitives: every primitive is
/// asked, primitives without an answer are discarded, and among the rest the
/// candidate at minimum squared distance wins, the earliest of equally
/// distant candidates first.
pub open spec fn best_over(s: Seq<Geom2D>, q: Point) -> Option<Point>
    decreases s.len(),
{
    if s.len() == 0 {
        None
    } else {
        let prev = best_over(s.drop_last(), q);
        let cand = s.last().spec_closest_point(q);
        match (prev, cand) {
            (None, c) => c,
            (Some(bp), None) => Some(bp),
            (Some(bp), Some(cp)) => if dist2(cp, q) < dist2(bp, q) {
                Some(cp)
            } else {
                Some(bp)
            },
        }
    }
}

/// An ordered, append-only composite of curve primitives standing for a full
/// domain boundary.
#[derive(Clone)]
pub struct ParametricComposite {
    pub components: Vec<Geom2D>,
}

impl ParametricComposite {
    /// Every component is fit to be queried.
    pub open spec fn wf(self) -> bool {
        forall|i: int| 0 <= i < self.components@.len() ==> (#[trigger] self.components@[i]).cpq_wf()
    }

    /// A composite with no components yet.
    pub fn new() -> (r: ParametricComposite)
        ensures
            r.components@.len() == 0,
            r.wf(),
    {
        ParametricComposite { components: Vec::new() }
    }

    /// Appends a segment between two distinct points; identical points are
    /// rejected and leave the composite unchanged.
    pub fn push_line(&mut self, start_point: Point, end_point: Point) -> (r: Result<
        (),
        GeometryError,
    >)
        requires
            old(self).wf(),
            start_point.in_range(),
            end_point.in_range(),
        ensures
            r is Ok <==> start_point != end_point,
            r is Ok ==> final(self).components@ == old(self).components@.push(
                Geom2D::Line(Line { point1: start_point, point2: end_point }),
            ),
            r is Err ==> *final(self) == *old(self) && r == Err::<(), GeometryError>(
                GeometryError::DegenerateSegment,
            ),
            final(self).wf(),
    {
        match Line::new(start_point, end_point) {
            Ok(new_line) => {
                self.components.push(Geom2D::Line(new_line));
                proof {
                    let s = self.components@;
                    assert forall|i: int| 0 <= i < s.len() implies (#[trigger] s[i]).cpq_wf() by {
                        if i < s.len() - 1 {
                            assert(s[i] == old(self).components@[i]);
                        }
                    }
                }
                Ok(())
            },
            Err(e) => Err(e),
        }
    }

    /// The number of components.
    pub fn len(&self) -> (r: usize)
        ensures
            r == self.components@.len(),
    {
        self.components.len()
    }

    /// The component at `index`, in insertion order, if there is one.
    pub fn component(&self, index: usize) -> (r: Option<&Geom2D>)
        ensures
            index < self.components@.len() ==> (r matches Some(c) && *c == self.components@[
                index as int
            ]),
            index >= self.components@.len() ==> r is None,
    {
        if index < self.components.len() {
            Some(&self.components[index])
        } else {
            None
        }
    }
}

impl ClosestPointQuery for ParametricComposite {
    open spec fn cpq_wf(&self) -> bool {
        self.wf()
    }

    open spec fn spec_closest_point(&self, query: Point) -> Option<Point> {
        best_over(self.components@, query)
    }

    #[verifier::loop_isolation(false)]
    fn closest_point(&self, query: Point) -> (r: Option<Point>) {
        let mut best: Option<Point> = None;
        let mut best_d2: i128 = 0;
        let mut i: usize = 0;
        while i < self.components.len()
            invariant
                i <= self.components@.len(),
                best == best_over(self.components@.take(i as int), query),
                best matches Some(p) ==> p.in_range() && best_d2 == dist2(p, query),
            decreases self.components@.len() - i,
        {
            let cand = self.components[i].closest_point(query);
            proof {
                assert(self.components@.take(i + 1).drop_last() =~= self.components@.take(i as int));
                assert(self.components@.take(i + 1).last() == self.components@[i as int]);
            }
            match cand {
                Some(cp) => {
                    let d2: i128 = dist2_i128(cp, query);
                    let replace: bool = match best {
                        Some(_) => d2 < best_d2,
                        None => true,
                    };
                    if replace {
                        best = Some(cp);
                        best_d2 = d2;
                    }
                },
                None => {},
            }
            i = i + 1;
        }
        proof {
            assert(self.components@.take(self.components@.len() as int) =~= self.components@);
        }
        best
    }
}

/// Every in-range query on `g` has an answer.
pub open spec fn answers_all<G: ClosestPointQuery>(g: G) -> bool {
    forall|q: Point| q.in_range() ==> (#[trigger] g.spec_closest_point(q)) is Some
}

/// No in-range query on `g` has an answer.
pub open spec fn answers_none<G: ClosestPointQuery>(g: G) -> bool {
    forall|q: Point| q.in_range() ==> (#[trigger] g.spec_closest_point(q)) is None
}

/// The selection law of the composite query. Where no primitive answers,
/// there is no answer. Where there is an answer, it is the answer of some
/// primitive; its squared distance to the query is minimal among all
/// primitives' answers; and it comes from the first primitive, in insertion
/// order, to achieve that distance: every earlier primitive's answer lies
/// strictly farther away.
pub proof fn lemma_best_over_minimal(s: Seq<Geom2D>, q: Point)
    ensures
        best_over(s, q) is None ==> forall|i: int|
            0 <= i < s.len() ==> (#[trigger] s[i].spec_closest_point(q)) is None,
        best_over(s, q) matches Some(bp) ==> forall|i: int|
            0 <= i < s.len() ==> ((#[trigger] s[i].spec_closest_point(q)) matches Some(cp)
                ==> dist2(bp, q) <= dist2(cp, q)),
        best_over(s, q) matches Some(bp) ==> exists|i: int|
            {
                &&& 0 <= i < s.len()
                &&& (#[trigger] s[i].spec_closest_point(q)) == Some(bp)
                &&& forall|j: int|
                    0 <= j < i ==> ((#[trigger] s[j].spec_closest_point(q)) matches Some(cp)
                        ==> dist2(bp, q) < dist2(cp, q))
            },
    decreases s.len(),
{
    if s.len() > 0 {
        let init = s.drop_last();
        lemma_best_over_minimal(init, q);
        assert(s.last() == s[s.len() - 1]);
        assert(forall|i: int| 0 <= i < init.len() ==> init[i] == s[i]);
        match best_over(s, q) {
            None => {
            },
            Some(bp) => {
                let prev = best_over(init, q);
                let cand = s.last().spec_closest_point(q);
                match prev {
                    None => {
                        // Every earlier primitive is silent, so the last one
                        // answered and wins outright.
                        assert(cand == Some(bp));
                        assert forall|j: int| 0 <= j < s.len() - 1 implies !((
                        #[trigger] s[j].spec_closest_point(q)) matches Some(cp)) by {
                            assert(init[j].spec_closest_point(q) is None);
                        }
                        assert(s[s.len() - 1].spec_closest_point(q) == Some(bp));
                    },
                    Some(pbp) => {
                        if (match cand {
                            Some(cp) => dist2(cp, q) < dist2(pbp, q),
                            None => false,
                        }) {
                            // The last primitive strictly improves on every
                            // earlier answer, so it is the first to achieve
                            // the new minimum.
                            assert(cand == Some(bp));
                            assert(s[s.len() - 1].spec_closest_point(q) == Some(bp));
                        } else {
                            // The earlier winner stands; its witness carries
                            // over unchanged.
                            assert(bp == pbp);
                            let wi = choose|i: int|
                                {
                                    &&& 0 <= i < init.len()
                                    &&& (#[trigger] init[i].spec_closest_point(q)) == Some(pbp)
                                    &&& forall|j: int|
                                        0 <= j < i ==> ((
                                        #[trigger] init[j].spec_closest_point(q)) matches Some(cp)
                                            ==> dist2(pbp, q) < dist2(cp, q))
                                };
                            assert(s[wi].spec_closest_point(q) == Some(bp));
                            assert(forall|j: int|
                                0 <= j < wi ==> ((#[trigger] s[j].spec_closest_point(q)) matches Some(
                                    cp,
                                ) ==> dist2(bp, q) < dist2(cp, q)));
                        }
                    },
                }
            },
        }
    }
}

/// A non-empty sequence of primitives always yields an answer: every
/// primitive kind currently held answers every query.
proof fn lemma_best_over_some(s: Seq<Geom2D>, q: Point)
    requires
        s.len() > 0,
    ensures
        best_over(s, q) is Some,
    decreases s.len(),
{
    if s.len() > 1 {
        lemma_best_over_some(s.drop_last(), q);
    }
}

/// A composite with at least one component answers every in-range query; one
/// with no components answers none.
pub proof fn lemma_composite_answers(pc: ParametricComposite)
    ensures
        pc.components@.len() > 0 ==> answers_all(pc),
        pc.components@.len() == 0 ==> answers_none(pc),
{
    if pc.components@.len() > 0 {
        assert forall|q: Point| q.in_range() implies (#[trigger] pc.spec_closest_point(
            q,
        )) is Some by {
            lemma_best_over_some(pc.components@, q);
        }
    } else {
        assert forall|q: Point| q.in_range() implies (#[trigger] pc.spec_closest_point(
            q,
        )) is None by {
            assert(pc.components@.len() == 0);
        }
    }
}

} // verus!
