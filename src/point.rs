use vstd::prelude::*;

verus! {

/// A point of the integer grid.
///
/// `==` compares both coordinates. The derived `Ord` is lexicographic:
/// `x` first, then `y`.
#[derive(Clone, Copy, Debug, PartialEq, Eq, Structural, PartialOrd, Ord, Hash)]
pub struct Point {
    pub x: i32,
    pub y: i32,
}

/// A difference of two points, exact in 64 bits.
#[derive(Clone, Copy, Debug, PartialEq, Eq, Structural)]
pub struct Vector {
    pub x: i64,
    pub y: i64,
}

/// The two-dimensional cross product `ux * vy - uy * vx`.
pub open spec fn cross_of(ux: int, uy: int, vx: int, vy: int) -> int {
    ux * vy - uy * vx
}

/// Lexicographic order on points: `x` first, then `y`.
pub open spec fn lex_lt(a: Point, b: Point) -> bool {
    a.x < b.x || (a.x == b.x && a.y < b.y)
}

impl Point {
    /// The vector from `other` to `self`.
    pub fn sub(self, other: Point) -> (r: Vector)
        ensures
            r.x == self.x - other.x,
            r.y == self.y - other.y,
    {
        Vector { x: self.x as i64 - other.x as i64, y: self.y as i64 - other.y as i64 }
    }

    /// The cross product of the two points read as vectors from the origin.
    pub fn cross(&self, other: Point) -> (r: i128)
        ensures
            r == cross_of(self.x as int, self.y as int, other.x as int, other.y as int),
    {
        proof {
            lemma_product_bound(self.x as int, other.y as int, 0x8000_0000);
            lemma_product_bound(self.y as int, other.x as int, 0x8000_0000);
        }
        self.x as i128 * other.y as i128 - self.y as i128 * other.x as i128
    }

    /// Strict lexicographic order: `x` first, then `y`.
    pub fn lex_less(&self, other: &Point) -> (r: bool)
        ensures
            r == lex_lt(*self, *other),
    {
        self.x < other.x || (self.x == other.x && self.y < other.y)
    }
}

/// A product of two factors bounded by `m` in absolute value is bounded by `m * m`.
pub proof fn lemma_product_bound(a: int, b: int, m: int)
    requires
        -m <= a <= m,
        -m <= b <= m,
    ensures
        -(m * m) <= a * b <= m * m,
{
    assert(-(m * m) <= a * b <= m * m) by (nonlinear_arith)
        requires
            -m <= a <= m,
            -m <= b <= m,
    ;
}

/// A product of factors bounded by `ma` and by `mb` is bounded by `ma * mb`.
pub proof fn lemma_product_bound_by(a: int, b: int, ma: int, mb: int)
    requires
        -ma <= a <= ma,
        -mb <= b <= mb,
    ensures
        -(ma * mb) <= a * b <= ma * mb,
{
    assert(-(ma * mb) <= a * b <= ma * mb) by (nonlinear_arith)
        requires
            -ma <= a <= ma,
            -mb <= b <= mb,
    ;
}

impl Vector {
    /// The cross product `self.x * other.y - self.y * other.x`, exact in 128 bits.
    pub fn cross(&self, other: Vector) -> (r: i128)
        requires
            self.x > i64::MIN,
            self.y > i64::MIN,
            other.x > i64::MIN,
            other.y > i64::MIN,
        ensures
            r == cross_of(self.x as int, self.y as int, other.x as int, other.y as int),
    {
        proof {
            lemma_product_bound(self.x as int, other.y as int, 0x7fff_ffff_ffff_ffff);
            lemma_product_bound(self.y as int, other.x as int, 0x7fff_ffff_ffff_ffff);
        }
        let a = self.x as i128 * other.y as i128;
        let b = self.y as i128 * other.x as i128;
        a - b
    }
}

} // verus!
