use vstd::prelude::*;
use vstd::seq_lib::to_multiset_insert;
use crate::point::{cross_of, lemma_product_bound, Point};

verus! {

/// Scanline order: by `y` first, then by `x`.
pub open spec fn yx_lt(a: Point, b: Point) -> bool {
    a.y < b.y || (a.y == b.y && a.x < b.x)
}

/// `v` holds exactly the distinct points of `pts`, each once, in scanline
/// order.
pub open spec fn is_scan_order(v: Seq<Point>, pts: Seq<Point>) -> bool {
    &&& forall|i: int, j: int| 0 <= i < j < v.len() ==> yx_lt(#[trigger] v[i], #[trigger] v[j])
    &&& forall|q: Point| v.contains(q) <==> pts.contains(q)
}

/// Two sequences in strictly increasing scanline order with the same
/// points are the same sequence.
pub proof fn lemma_sorted_unique(v1: Seq<Point>, v2: Seq<Point>)
    requires
        forall|i: int, j: int| 0 <= i < j < v1.len() ==> yx_lt(#[trigger] v1[i], #[trigger] v1[j]),
        forall|i: int, j: int| 0 <= i < j < v2.len() ==> yx_lt(#[trigger] v2[i], #[trigger] v2[j]),
        forall|q: Point| v1.contains(q) <==> v2.contains(q),
    ensures
        v1 == v2,
    decreases v1.len(),
{
    if v1.len() == 0 {
        if v2.len() > 0 {
            assert(v2.contains(v2[0]));
        }
        assert(v1 =~= v2);
    } else {
        assert(v1.contains(v1[0]));
        assert(v2.len() > 0);
        assert(v2.contains(v2[0]));
        let k1 = choose|k: int| 0 <= k < v1.len() && v1[k] == v2[0];
        let k2 = choose|k: int| 0 <= k < v2.len() && v2[k] == v1[0];
        if k1 > 0 && k2 > 0 {
            assert(yx_lt(v1[0], v1[k1]));
            assert(yx_lt(v2[0], v2[k2]));
        }
        assert(v1[0] == v2[0]);
        let (t1, t2) = (v1.drop_first(), v2.drop_first());
        assert forall|q: Point| t1.contains(q) <==> t2.contains(q) by {
            if t1.contains(q) {
                let a = choose|a: int| 0 <= a < t1.len() && t1[a] == q;
                assert(v1[a + 1] == q);
                assert(yx_lt(v1[0], v1[a + 1]));
                assert(v2.contains(q));
                let b = choose|b: int| 0 <= b < v2.len() && v2[b] == q;
                assert(b > 0);
                assert(t2[b - 1] == q);
            }
            if t2.contains(q) {
                let a = choose|a: int| 0 <= a < t2.len() && t2[a] == q;
                assert(v2[a + 1] == q);
                assert(yx_lt(v2[0], v2[a + 1]));
                assert(v1.contains(q));
                let b = choose|b: int| 0 <= b < v1.len() && v1[b] == q;
                assert(b > 0);
                assert(t1[b - 1] == q);
            }
        }
        assert forall|i: int, j: int| 0 <= i < j < t1.len() implies yx_lt(#[trigger] t1[i], #[trigger] t1[j]) by {
            assert(yx_lt(v1[i + 1], v1[j + 1]));
        }
        assert forall|i: int, j: int| 0 <= i < j < t2.len() implies yx_lt(#[trigger] t2[i], #[trigger] t2[j]) by {
            assert(yx_lt(v2[i + 1], v2[j + 1]));
        }
        lemma_sorted_unique(t1, t2);
        assert(v1 =~= v2) by {
            assert forall|i: int| 0 <= i < v1.len() implies v1[i] == v2[i] by {
                if i > 0 {
                    assert(v1[i] == t1[i - 1]);
                    assert(v2[i] == t2[i - 1]);
                }
            }
        }
    }
}

/// There is one scanline order of a sequence of points.
pub proof fn lemma_scan_order_unique(v1: Seq<Point>, v2: Seq<Point>, pts: Seq<Point>)
    requires
        is_scan_order(v1, pts),
        is_scan_order(v2, pts),
    ensures
        v1 == v2,
{
    lemma_sorted_unique(v1, v2);
}

/// The distinct points of `pts` in scanline order.
pub fn scan_order(pts: &Vec<Point>) -> (r: Vec<Point>)
    ensures
        is_scan_order(r@, pts@),
{
    let mut r: Vec<Point> = Vec::new();
    let mut i: usize = 0;
    while i < pts.len()
        invariant
            i <= pts@.len(),
            is_scan_order(r@, pts@.take(i as int)),
        decreases pts@.len() - i,
    {
        let p = pts[i];
        let mut j: usize = 0;
        while j < r.len() && (r[j].y < p.y || (r[j].y == p.y && r[j].x < p.x))
            invariant
                j <= r@.len(),
                forall|k: int| 0 <= k < j ==> yx_lt(#[trigger] r@[k], p),
            decreases r@.len() - j,
        {
            j = j + 1;
        }
        let ghost old_r = r@;
        let ghost prev = pts@.take(i as int);
        let ghost next = pts@.take(i as int + 1);
        assert(next == prev.push(p));
        if j < r.len() && r[j].x == p.x && r[j].y == p.y {
            assert(r@[j as int] == p);
            assert forall|q: Point| r@.contains(q) <==> next.contains(q) by {
                assert(r@.contains(q) <==> prev.contains(q));
                if next.contains(q) {
                    let k = choose|k: int| 0 <= k < next.len() && next[k] == q;
                    if k < prev.len() {
                        assert(prev[k] == q);
                    } else {
                        assert(q == p);
                        assert(r@[j as int] == q);
                    }
                }
                if prev.contains(q) {
                    let k = choose|k: int| 0 <= k < prev.len() && prev[k] == q;
                    assert(next[k] == q);
                }
            }
        } else {
            r.insert(j, p);
            assert forall|a: int, b: int| 0 <= a < b < r@.len() implies yx_lt(
                #[trigger] r@[a],
                #[trigger] r@[b],
            ) by {
                if b < j {
                } else if b == j {
                } else if a < j {
                    assert(r@[b] == old_r[b - 1]);
                    assert(yx_lt(old_r[a], old_r[b - 1]));
                } else if a == j {
                    assert(r@[b] == old_r[b - 1]);
                    assert(yx_lt(old_r[j as int], old_r[b - 1]) || j == b - 1);
                } else {
                    assert(yx_lt(old_r[a - 1], old_r[b - 1]));
                }
            }
            assert forall|q: Point| r@.contains(q) <==> next.contains(q) by {
                assert(old_r.contains(q) <==> prev.contains(q));
                if r@.contains(q) {
                    let k = choose|k: int| 0 <= k < r@.len() && r@[k] == q;
                    if k < j {
                        assert(old_r[k] == q);
                    } else if k > j {
                        assert(old_r[k - 1] == q);
                    } else {
                        assert(next[prev.len() as int] == q);
                    }
                    if q != p {
                        assert(prev.contains(q));
                        let k2 = choose|k2: int| 0 <= k2 < prev.len() && prev[k2] == q;
                        assert(next[k2] == q);
                    }
                }
                if next.contains(q) && q != p {
                    let k = choose|k: int| 0 <= k < next.len() && next[k] == q;
                    assert(prev[k] == q);
                    assert(old_r.contains(q));
                    let m = choose|m: int| 0 <= m < old_r.len() && old_r[m] == q;
                    if m < j {
                        assert(r@[m] == q);
                    } else {
                        assert(r@[m + 1] == q);
                    }
                }
                if q == p {
                    assert(r@[j as int] == q);
                }
            }
        }
        i = i + 1;
    }
    assert(pts@.take(pts@.len() as int) == pts@);
    r
}

/// The vector from the vertex centroid to `p`, scaled by the vertex count
/// `n` so that it has integer components: `n * p - (sx, sy)`, where
/// `(sx, sy)` is the sum of the vertices.
pub open spec fn scaled(p: Point, n: int, sx: int, sy: int) -> (int, int) {
    (n * p.x - sx, n * p.y - sy)
}

/// Which part of the plane a vector points into: the zero vector, the
/// half-turn that starts on the positive `x` axis, or the other half-turn.
pub open spec fn half(v: (int, int)) -> int {
    if v.0 == 0 && v.1 == 0 {
        0
    } else if v.1 > 0 || (v.1 == 0 && v.0 > 0) {
        1
    } else {
        2
    }
}

/// Counter-clockwise order of direction, starting from the positive `x`
/// axis; the zero vector comes first. Vectors of one direction are equal in
/// this order.
pub open spec fn ccw_le(u: (int, int), v: (int, int)) -> bool {
    half(u) < half(v) || (half(u) == half(v) && cross_of(u.0, u.1, v.0, v.1) >= 0)
}

/// Each point of `s` comes at or before the next one in counter-clockwise
/// order around the centroid `(sx / n, sy / n)`.
pub open spec fn ccw_sorted(s: Seq<Point>, n: int, sx: int, sy: int) -> bool {
    forall|i: int|
        0 <= i < s.len() - 1 ==> ccw_le(
            scaled(#[trigger] s[i], n, sx, sy),
            scaled(s[i + 1], n, sx, sy),
        )
}

/// The centroid sums `(sx, sy)` of `n` vertices are in range.
pub open spec fn centre_in_range(n: int, sx: int, sy: int) -> bool {
    &&& 0 <= n < 0x8000_0000
    &&& -0x8000_0000 * n <= sx <= 0x8000_0000 * n
    &&& -0x8000_0000 * n <= sy <= 0x8000_0000 * n
}

fn scaled_exec(p: Point, n: i128, sx: i128, sy: i128) -> (r: (i128, i128))
    requires
        centre_in_range(n as int, sx as int, sy as int),
    ensures
        (r.0 as int, r.1 as int) == scaled(p, n as int, sx as int, sy as int),
        -0x8000_0000_0000_0000 < r.0 < 0x8000_0000_0000_0000,
        -0x8000_0000_0000_0000 < r.1 < 0x8000_0000_0000_0000,
{
    proof {
        lemma_product_bound(n as int, p.x as int, 0x8000_0000);
        lemma_product_bound(n as int, p.y as int, 0x8000_0000);
        assert(-0x8000_0000 * n <= n * p.x <= 0x8000_0000 * n) by (nonlinear_arith)
            requires 0 <= n, -0x8000_0000 <= p.x <= 0x8000_0000;
        assert(-0x8000_0000 * n <= n * p.y <= 0x8000_0000 * n) by (nonlinear_arith)
            requires 0 <= n, -0x8000_0000 <= p.y <= 0x8000_0000;
    }
    (n * p.x as i128 - sx, n * p.y as i128 - sy)
}

fn half_exec(v: (i128, i128)) -> (r: i128)
    ensures
        r == half((v.0 as int, v.1 as int)),
{
    if v.0 == 0 && v.1 == 0 {
        0
    } else if v.1 > 0 || (v.1 == 0 && v.0 > 0) {
        1
    } else {
        2
    }
}

/// Whether `a` comes at or before `b` counter-clockwise round the centroid.
fn ccw_le_exec(a: Point, b: Point, n: i128, sx: i128, sy: i128) -> (r: bool)
    requires
        centre_in_range(n as int, sx as int, sy as int),
    ensures
        r == ccw_le(scaled(a, n as int, sx as int, sy as int), scaled(b, n as int, sx as int, sy as int)),
{
    let u = scaled_exec(a, n, sx, sy);
    let v = scaled_exec(b, n, sx, sy);
    let hu = half_exec(u);
    let hv = half_exec(v);
    if hu != hv {
        return hu < hv;
    }
    proof {
        lemma_product_bound(u.0 as int, v.1 as int, 0x7fff_ffff_ffff_ffff);
        lemma_product_bound(u.1 as int, v.0 as int, 0x7fff_ffff_ffff_ffff);
    }
    u.0 * v.1 - u.1 * v.0 >= 0
}

/// The points of `pts`, rearranged in counter-clockwise order around the
/// centroid `(sx / n, sy / n)`.
pub fn ccw_sort(pts: Vec<Point>, n: i128, sx: i128, sy: i128) -> (r: Vec<Point>)
    requires
        centre_in_range(n as int, sx as int, sy as int),
    ensures
        r@.to_multiset() == pts@.to_multiset(),
        ccw_sorted(r@, n as int, sx as int, sy as int),
{
    let mut r: Vec<Point> = Vec::new();
    let mut i: usize = 0;
    proof {
        broadcast use vstd::seq_lib::group_to_multiset_ensures;
        assert(pts@.take(0) =~= r@);
    }
    while i < pts.len()
        invariant
            centre_in_range(n as int, sx as int, sy as int),
            i <= pts@.len(),
            r@.to_multiset() == pts@.take(i as int).to_multiset(),
            ccw_sorted(r@, n as int, sx as int, sy as int),
        decreases pts@.len() - i,
    {
        let p = pts[i];
        let mut j: usize = 0;
        while j < r.len() && ccw_le_exec(r[j], p, n, sx, sy)
            invariant
                centre_in_range(n as int, sx as int, sy as int),
                j <= r@.len(),
                j > 0 ==> ccw_le(scaled(r@[j - 1], n as int, sx as int, sy as int), scaled(p, n as int, sx as int, sy as int)),
            decreases r@.len() - j,
        {
            j = j + 1;
        }
        let ghost old_r = r@;
        proof {
            to_multiset_insert(old_r, j as int, p);
            vstd::seq_lib::to_multiset_build(pts@.take(i as int), p);
            assert(pts@.take(i as int + 1) == pts@.take(i as int).push(p));
        }
        r.insert(j, p);
        assert forall|k: int| 0 <= k < r@.len() - 1 implies ccw_le(
            scaled(#[trigger] r@[k], n as int, sx as int, sy as int),
            scaled(r@[k + 1], n as int, sx as int, sy as int),
        ) by {
            if k + 1 < j {
                assert(r@[k] == old_r[k] && r@[k + 1] == old_r[k + 1]);
            } else if k > j {
                assert(r@[k] == old_r[k - 1] && r@[k + 1] == old_r[k]);
            }
        }
        i = i + 1;
    }
    assert(pts@.take(pts@.len() as int) == pts@);
    r
}

} // verus!
