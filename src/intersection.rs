use vstd::prelude::*;
use crate::point::lemma_product_bound;
use crate::polygon::LineSegment;

verus! {

/// An exact fraction `num / den` with a positive denominator.
///
/// Fractions are not reduced: two of them denote the same number when
/// `a.num * b.den == b.num * a.den`.
#[derive(Clone, Copy, Debug, PartialEq, Eq, Structural)]
pub struct Fraction {
    pub num: i128,
    pub den: i128,
}

impl Fraction {
    /// The fraction as a pair of integers.
    pub open spec fn pair(self) -> (int, int) {
        (self.num as int, self.den as int)
    }
}

/// Two fractions, given as (numerator, denominator) pairs with positive
/// denominators, denote the same number.
pub open spec fn same_value(a: (int, int), b: (int, int)) -> bool {
    a.0 * b.1 == b.0 * a.1
}

/// The point at which the line through `s` meets the horizontal line at
/// height `y`, as a fraction `(num, den)` with `den > 0`.
///
/// A vertical segment meets it at its own `x`, whatever `y` is. A
/// horizontal segment that is not vertical has no single meeting point:
/// `None`. Otherwise the abscissa is
/// `x1 + (y - y1) * (x2 - x1) / (y2 - y1)`, with the sign carried by the
/// numerator.
pub open spec fn crossing_of(s: LineSegment, y: int) -> Option<(int, int)> {
    let (x1, y1, x2, y2) = (s.p1.x as int, s.p1.y as int, s.p2.x as int, s.p2.y as int);
    if x1 == x2 {
        Some((x1, 1))
    } else if y1 == y2 {
        None
    } else {
        let n = x1 * (y2 - y1) + (y - y1) * (x2 - x1);
        if y2 > y1 {
            Some((n, y2 - y1))
        } else {
            Some((-n, y1 - y2))
        }
    }
}

/// The abscissa at which the line through `segment` crosses the scanline at
/// height `y`.
///
/// The segment is taken as an infinite line: `y` need not lie
/// within its span. `None` stands for a horizontal, non-vertical segment,
/// which has no single crossing.
pub fn intersection(segment: LineSegment, y: i32) -> (r: Option<Fraction>)
    ensures
        r is None <==> crossing_of(segment, y as int) is None,
        r matches Some(f) ==> crossing_of(segment, y as int) == Some(f.pair()),
{
    let x1 = segment.p1.x as i128;
    let y1 = segment.p1.y as i128;
    let x2 = segment.p2.x as i128;
    let y2 = segment.p2.y as i128;
    if x1 == x2 {
        Some(Fraction { num: x1, den: 1 })
    } else if y1 == y2 {
        None
    } else {
        proof {
            lemma_product_bound(x1 as int, y2 - y1, 0x1_0000_0000);
            lemma_product_bound(y - y1, x2 - x1, 0x1_0000_0000);
        }
        let n = x1 * (y2 - y1) + (y as i128 - y1) * (x2 - x1);
        if y2 > y1 {
            Some(Fraction { num: n, den: y2 - y1 })
        } else {
            Some(Fraction { num: -n, den: y1 - y2 })
        }
    }
}

/// For a segment that is neither vertical nor horizontal, the crossing at
/// height `y` lies on the segment's line, and every fraction that lies on
/// that line at height `y` denotes the same number.
pub proof fn lemma_crossing_solves_line(s: LineSegment, y: int)
    requires
        s.p1.x != s.p2.x,
        s.p1.y != s.p2.y,
    ensures
        crossing_of(s, y) is Some,
        ({
            let (n, d) = crossing_of(s, y).unwrap();
            let (x1, y1, x2, y2) = (s.p1.x as int, s.p1.y as int, s.p2.x as int, s.p2.y as int);
            &&& d > 0
            &&& (n - x1 * d) * (y2 - y1) == (y - y1) * (x2 - x1) * d
            &&& forall|n2: int, d2: int|
                d2 > 0 && (n2 - x1 * d2) * (y2 - y1) == (y - y1) * (x2 - x1) * d2
                    ==> #[trigger] same_value((n, d), (n2, d2))
        }),
{
    let (x1, y1, x2, y2) = (s.p1.x as int, s.p1.y as int, s.p2.x as int, s.p2.y as int);
    let (n, d) = crossing_of(s, y).unwrap();
    let k = (y - y1) * (x2 - x1);
    if y2 > y1 {
        assert(n == x1 * d + k);
        assert((n - x1 * d) * (y2 - y1) == k * d) by (nonlinear_arith)
            requires n == x1 * d + k, d == y2 - y1;
    } else {
        assert(n == -(x1 * (y2 - y1) + k));
        assert((n - x1 * d) * (y2 - y1) == k * d) by (nonlinear_arith)
            requires n == -(x1 * (y2 - y1) + k), d == y1 - y2;
    }
    assert forall|n2: int, d2: int|
        d2 > 0 && (n2 - x1 * d2) * (y2 - y1) == k * d2 implies #[trigger] same_value((n, d), (n2, d2))
    by {
        let dd = y2 - y1;
        assert((n - x1 * d) * dd * d2 == k * d * d2) by (nonlinear_arith)
            requires (n - x1 * d) * dd == k * d;
        assert((n2 - x1 * d2) * dd * d == k * d2 * d) by (nonlinear_arith)
            requires (n2 - x1 * d2) * dd == k * d2;
        assert(k * d * d2 == k * d2 * d) by (nonlinear_arith);
        assert((n * d2 - n2 * d) * dd == 0) by (nonlinear_arith)
            requires
                (n - x1 * d) * dd * d2 == k * d * d2,
                (n2 - x1 * d2) * dd * d == k * d2 * d,
                k * d * d2 == k * d2 * d;
        assert(n * d2 - n2 * d == 0) by (nonlinear_arith)
            requires (n * d2 - n2 * d) * dd == 0, dd != 0;
    }
}

/// A vertical segment crosses every scanline at its own `x`, including
/// scanlines outside the segment's span.
pub proof fn lemma_vertical_crossing(s: LineSegment, y: int)
    requires
        s.p1.x == s.p2.x,
    ensures
        crossing_of(s, y) == Some((s.p1.x as int, 1int)),
{
}

} // verus!
