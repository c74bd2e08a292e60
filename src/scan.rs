use vstd::prelude::*;
use crate::intersection::{crossing_of, intersection, same_value, Fraction};
use crate::point::{lemma_product_bound, lemma_product_bound_by, Point};
use crate::polygon::{edge_of, LineSegment, Polygon};

verus! {

/// The edges of the vertex loop `pts`, in order.
pub open spec fn edges_of(pts: Seq<Point>) -> Seq<LineSegment> {
    Seq::new(pts.len(), |i: int| edge_of(pts, i))
}

/// The crossings of the lines through `edges` with the scanline at height
/// `y`, in edge order, leaving out the edges that have none.
pub open spec fn crossings(edges: Seq<LineSegment>, y: int) -> Seq<(int, int)>
    decreases edges.len(),
{
    if edges.len() == 0 {
        Seq::empty()
    } else {
        let rest = crossings(edges.drop_last(), y);
        match crossing_of(edges.last(), y) {
            Some(c) => rest.push(c),
            None => rest,
        }
    }
}

/// No fraction before position `i` of `s` has the value of `s[i]`.
pub open spec fn first_of_value(s: Seq<(int, int)>, i: int) -> bool {
    forall|j: int| 0 <= j < i ==> !same_value(#[trigger] s[j], s[i])
}

/// How many distinct values the fractions of `s` take.
pub open spec fn distinct_count(s: Seq<(int, int)>) -> nat
    decreases s.len(),
{
    if s.len() == 0 {
        0
    } else {
        distinct_count(s.drop_last()) + if first_of_value(s, s.len() - 1) {
            1nat
        } else {
            0nat
        }
    }
}

/// How many distinct points the lines through the edges of `pts` have in
/// common with the scanline at height `y`.
pub open spec fn crossing_count(pts: Seq<Point>, y: int) -> nat {
    distinct_count(crossings(edges_of(pts), y))
}

/// The fraction of a crossing has a small numerator and a positive,
/// small denominator.
pub open spec fn small(c: (int, int)) -> bool {
    -0x4_0000_0000_0000_0000 <= c.0 <= 0x4_0000_0000_0000_0000 && 0 < c.1 <= 0x2_0000_0000
}

/// A crossing at a scanline of `i32` height has a small fraction.
pub proof fn lemma_crossing_small(s: LineSegment, y: int)
    requires
        i32::MIN <= y <= i32::MAX,
    ensures
        crossing_of(s, y) matches Some(c) ==> small(c),
{
    let (x1, y1, x2, y2) = (s.p1.x as int, s.p1.y as int, s.p2.x as int, s.p2.y as int);
    if x1 != x2 && y1 != y2 {
        lemma_product_bound(x1, y2 - y1, 0x1_0000_0000);
        lemma_product_bound(y - y1, x2 - x1, 0x1_0000_0000);
    }
}

/// Every crossing at a scanline of `i32` height has a small fraction.
pub proof fn lemma_crossings_small(edges: Seq<LineSegment>, y: int)
    requires
        i32::MIN <= y <= i32::MAX,
    ensures
        forall|k: int| 0 <= k < crossings(edges, y).len() ==> small(#[trigger] crossings(edges, y)[k]),
    decreases edges.len(),
{
    if edges.len() > 0 {
        lemma_crossings_small(edges.drop_last(), y);
        lemma_crossing_small(edges.last(), y);
        let rest = crossings(edges.drop_last(), y);
        assert(forall|k: int| 0 <= k < rest.len() ==> small(#[trigger] rest[k]));
        match crossing_of(edges.last(), y) {
            Some(c) => {
                assert(crossings(edges, y) == rest.push(c));
                assert forall|k: int| 0 <= k < rest.len() + 1 implies small(#[trigger] rest.push(c)[k]) by {
                    if k < rest.len() {
                        assert(rest.push(c)[k] == rest[k]);
                    }
                }
            },
            None => {},
        }
    }
}

/// Whether two small fractions have the same value, by cross-multiplication.
pub fn same_fraction(a: Fraction, b: Fraction) -> (r: bool)
    requires
        small(a.pair()),
        small(b.pair()),
    ensures
        r == same_value(a.pair(), b.pair()),
{
    proof {
        lemma_product_bound_by(a.num as int, b.den as int, 0x4_0000_0000_0000_0000, 0x2_0000_0000);
        lemma_product_bound_by(b.num as int, a.den as int, 0x4_0000_0000_0000_0000, 0x2_0000_0000);
    }
    a.num * b.den == b.num * a.den
}

/// The crossings of the lines through `edges` with the scanline at `y`.
pub fn scan_crossings(edges: &Vec<LineSegment>, y: i32) -> (r: Vec<Fraction>)
    ensures
        r@.len() == crossings(edges@, y as int).len(),
        forall|k: int| 0 <= k < r@.len() ==> #[trigger] r@[k].pair() == crossings(edges@, y as int)[k],
{
    let mut r: Vec<Fraction> = Vec::new();
    let mut i: usize = 0;
    while i < edges.len()
        invariant
            i <= edges@.len(),
            r@.len() == crossings(edges@.take(i as int), y as int).len(),
            forall|k: int|
                0 <= k < r@.len() ==> #[trigger] r@[k].pair() == crossings(
                    edges@.take(i as int),
                    y as int,
                )[k],
        decreases edges@.len() - i,
    {
        proof {
            assert(edges@.take(i as int + 1).drop_last() == edges@.take(i as int));
        }
        match intersection(edges[i], y) {
            Some(f) => r.push(f),
            None => {},
        }
        i = i + 1;
    }
    assert(edges@.take(edges@.len() as int) == edges@);
    r
}

/// The number of distinct points that the lines through `edges` have in
/// common with the scanline at `y`; edges without a single crossing count
/// for nothing.
pub fn count_crossings(edges: &Vec<LineSegment>, y: i32) -> (r: usize)
    ensures
        r == distinct_count(crossings(edges@, y as int)),
{
    let cs = scan_crossings(edges, y);
    let ghost s = crossings(edges@, y as int);
    proof {
        lemma_crossings_small(edges@, y as int);
    }
    let mut count: usize = 0;
    let mut i: usize = 0;
    while i < cs.len()
        invariant
            i <= cs@.len(),
            cs@.len() == s.len(),
            forall|k: int| 0 <= k < cs@.len() ==> #[trigger] cs@[k].pair() == s[k],
            forall|k: int| 0 <= k < s.len() ==> small(#[trigger] s[k]),
            count == distinct_count(s.take(i as int)),
            count <= i,
        decreases cs@.len() - i,
    {
        let mut fresh = true;
        let mut j: usize = 0;
        while j < i
            invariant
                j <= i < cs@.len(),
                cs@.len() == s.len(),
                forall|k: int| 0 <= k < cs@.len() ==> #[trigger] cs@[k].pair() == s[k],
                forall|k: int| 0 <= k < s.len() ==> small(#[trigger] s[k]),
                fresh == forall|k: int| 0 <= k < j ==> !same_value(#[trigger] s[k], s[i as int]),
            decreases i - j,
        {
            assert(cs@[j as int].pair() == s[j as int]);
            assert(cs@[i as int].pair() == s[i as int]);
            if same_fraction(cs[j], cs[i]) {
                fresh = false;
            }
            j = j + 1;
        }
        proof {
            let t = s.take(i as int + 1);
            assert(t.drop_last() == s.take(i as int));
            assert(first_of_value(t, i as int) == fresh) by {
                assert forall|k: int| 0 <= k < i implies t[k] == s[k] by {}
            }
        }
        if fresh {
            count = count + 1;
        }
        i = i + 1;
    }
    assert(s.take(s.len() as int) == s);
    count
}

impl Polygon {
    /// The number of distinct points that the lines through this polygon's
    /// edges have in common with the scanline at height `y`.
    pub fn scanline_crossings(&self, y: i32) -> (r: usize)
        ensures
            r == crossing_count(self.points@, y as int),
    {
        let edges = self.edges();
        assert(edges@ == edges_of(self.points@));
        count_crossings(&edges, y)
    }
}

} // verus!
