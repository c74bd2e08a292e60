use vstd::prelude::*;
use crate::point::Point;
use crate::intersection::Fraction;

verus! {

/// The segment from `p1` to `p2`; the two may coincide.
#[derive(Clone, Copy, Debug, PartialEq, Eq, Structural)]
pub struct LineSegment {
    pub p1: Point,
    pub p2: Point,
}

/// A polygon given by its vertex loop: each point is joined to the next, and
/// the last to the first.
#[derive(Clone, Debug)]
pub struct Polygon {
    pub points: Vec<Point>,
}

/// Why a polygon operation could not give a result.
#[derive(Clone, Copy, Debug, PartialEq, Eq, Structural)]
pub enum PolygonError {
    /// The polygon has no vertex.
    EmptyPolygon,
}

/// The `i`-th edge of the vertex loop `pts`: from `pts[i]` to the next
/// vertex, the last vertex wrapping round to the first.
pub open spec fn edge_of(pts: Seq<Point>, i: int) -> LineSegment {
    LineSegment { p1: pts[i], p2: pts[(i + 1) % (pts.len() as int)] }
}

/// The sum of the `x` coordinates of `pts`.
pub open spec fn sum_x(pts: Seq<Point>) -> int
    decreases pts.len(),
{
    if pts.len() == 0 {
        0
    } else {
        sum_x(pts.drop_last()) + pts.last().x
    }
}

/// The sum of the `y` coordinates of `pts`.
pub open spec fn sum_y(pts: Seq<Point>) -> int
    decreases pts.len(),
{
    if pts.len() == 0 {
        0
    } else {
        sum_y(pts.drop_last()) + pts.last().y
    }
}

/// A sum of `n` coordinates is bounded by `n` times the coordinate range.
pub proof fn lemma_sum_bound(pts: Seq<Point>)
    ensures
        -0x8000_0000 * pts.len() <= sum_x(pts) <= 0x8000_0000 * pts.len(),
        -0x8000_0000 * pts.len() <= sum_y(pts) <= 0x8000_0000 * pts.len(),
    decreases pts.len(),
{
    if pts.len() > 0 {
        lemma_sum_bound(pts.drop_last());
    }
}

impl Polygon {
    /// The polygon's edges, one per vertex, in order.
    pub fn edges(&self) -> (r: Vec<LineSegment>)
        ensures
            r@.len() == self.points@.len(),
            forall|i: int| 0 <= i < r@.len() ==> r@[i] == edge_of(self.points@, i),
    {
        let n = self.points.len();
        let mut edges: Vec<LineSegment> = Vec::new();
        let mut i: usize = 0;
        while i < n
            invariant
                n == self.points@.len(),
                i <= n,
                edges@.len() == i,
                forall|k: int| 0 <= k < i ==> edges@[k] == edge_of(self.points@, k),
            decreases n - i,
        {
            let j = (i + 1) % n;
            edges.push(LineSegment { p1: self.points[i], p2: self.points[j] });
            i = i + 1;
        }
        edges
    }

    /// The smallest axis-aligned box holding every vertex, as
    /// `(min_x, min_y, max_x, max_y)`.
    pub fn bounding_box(&self) -> (r: Result<(i32, i32, i32, i32), PolygonError>)
        ensures
            self.points@.len() == 0 <==> r is Err,
            r matches Ok((min_x, min_y, max_x, max_y)) ==> {
                &&& forall|i: int|
                    0 <= i < self.points@.len() ==> {
                        &&& min_x <= #[trigger] self.points@[i].x <= max_x
                        &&& min_y <= self.points@[i].y <= max_y
                    }
                &&& exists|i: int| 0 <= i < self.points@.len() && self.points@[i].x == min_x
                &&& exists|i: int| 0 <= i < self.points@.len() && self.points@[i].y == min_y
                &&& exists|i: int| 0 <= i < self.points@.len() && self.points@[i].x == max_x
                &&& exists|i: int| 0 <= i < self.points@.len() && self.points@[i].y == max_y
            },
            r matches Err(e) ==> e == PolygonError::EmptyPolygon,
    {
        let n = self.points.len();
        if n == 0 {
            return Err(PolygonError::EmptyPolygon);
        }
        let pts = &self.points;
        let (mut min_x, mut min_y, mut max_x, mut max_y) = (pts[0].x, pts[0].y, pts[0].x, pts[0].y);
        let ghost (mut ia, mut ib, mut ic, mut id) = (0int, 0int, 0int, 0int);
        let mut i: usize = 1;
        while i < n
            invariant
                n == pts@.len(),
                1 <= i <= n,
                forall|k: int|
                    0 <= k < i ==> {
                        &&& min_x <= #[trigger] pts@[k].x <= max_x
                        &&& min_y <= pts@[k].y <= max_y
                    },
                0 <= ia < n && pts@[ia].x == min_x,
                0 <= ib < n && pts@[ib].y == min_y,
                0 <= ic < n && pts@[ic].x == max_x,
                0 <= id < n && pts@[id].y == max_y,
            decreases n - i,
        {
            let p = pts[i];
            if p.x < min_x {
                min_x = p.x;
                proof { ia = i as int; }
            }
            if p.y < min_y {
                min_y = p.y;
                proof { ib = i as int; }
            }
            if p.x > max_x {
                max_x = p.x;
                proof { ic = i as int; }
            }
            if p.y > max_y {
                max_y = p.y;
                proof { id = i as int; }
            }
            i = i + 1;
        }
        Ok((min_x, min_y, max_x, max_y))
    }

    /// The vertex centroid: the mean of the vertices (not the area centroid),
    /// as two exact fractions `(x, y)` over the vertex count.
    pub fn centroid(&self) -> (r: Result<(Fraction, Fraction), PolygonError>)
        ensures
            self.points@.len() == 0 <==> r is Err,
            r matches Ok((cx, cy)) ==> {
                &&& cx.num == sum_x(self.points@)
                &&& cy.num == sum_y(self.points@)
                &&& cx.den == self.points@.len()
                &&& cy.den == self.points@.len()
            },
            r matches Err(e) ==> e == PolygonError::EmptyPolygon,
    {
        let n = self.points.len();
        if n == 0 {
            return Err(PolygonError::EmptyPolygon);
        }
        let (sx, sy) = self.sums();
        Ok((Fraction { num: sx, den: n as i128 }, Fraction { num: sy, den: n as i128 }))
    }

    /// The sums of the vertices' `x` and of their `y` coordinates.
    pub fn sums(&self) -> (r: (i128, i128))
        ensures
            r.0 == sum_x(self.points@),
            r.1 == sum_y(self.points@),
    {
        let n = self.points.len();
        let mut sx: i128 = 0;
        let mut sy: i128 = 0;
        let mut i: usize = 0;
        while i < n
            invariant
                n == self.points@.len(),
                i <= n,
                sx == sum_x(self.points@.take(i as int)),
                sy == sum_y(self.points@.take(i as int)),
            decreases n - i,
        {
            proof {
                let t = self.points@.take(i as int + 1);
                assert(t.drop_last() == self.points@.take(i as int));
                lemma_sum_bound(self.points@.take(i as int));
            }
            sx = sx + self.points[i].x as i128;
            sy = sy + self.points[i].y as i128;
            i = i + 1;
        }
        assert(self.points@.take(n as int) == self.points@);
        (sx, sy)
    }
}

} // verus!
