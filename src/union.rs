use vstd::prelude::*;
use crate::intersection::{crossing_of, intersection, same_value, Fraction};
use crate::order::scan_order;
use crate::point::{lemma_product_bound_by, Point};
use crate::polygon::{LineSegment, Polygon};
use crate::scan::{edges_of, lemma_crossing_small, same_fraction, small};
use crate::boolean::concat;

verus! {

/// A point whose `x` is an exact fraction; scanline crossings need not lie
/// on the integer grid.
#[derive(Clone, Copy, Debug, PartialEq, Eq, Structural)]
pub struct ScanPoint {
    pub x: Fraction,
    pub y: i32,
}

/// `a` comes strictly before `b`: by the value of `x`, then by `y`.
pub open spec fn scan_lt(a: ScanPoint, b: ScanPoint) -> bool {
    let l = a.x.num * b.x.den;
    let r = b.x.num * a.x.den;
    l < r || (l == r && a.y < b.y)
}

/// Some point of `s` has the value `(x, y)`.
pub open spec fn has_value(s: Seq<ScanPoint>, x: (int, int), y: int) -> bool {
    exists|i: int| 0 <= i < s.len() && same_value(#[trigger] s[i].x.pair(), x) && s[i].y == y
}

/// `(x, y)` is a point that the union of the vertex loops `a` and `b` is
/// made of: a vertex of either, or the crossing of the line through an
/// edge of either with the scanline of a vertex of either.
pub open spec fn union_source(a: Seq<Point>, b: Seq<Point>, x: (int, int), y: int) -> bool {
    let (vs, es) = (a + b, edges_of(a) + edges_of(b));
    ||| exists|j: int| 0 <= j < vs.len() && x == (#[trigger] vs[j].x as int, 1int) && y == vs[j].y
    ||| exists|i: int, j: int|
        0 <= i < es.len() && 0 <= j < vs.len() && y == vs[j].y && #[trigger] crossing_of(es[i], vs[j].y as int) == Some(x)
}

/// Consecutive points of `s` are in strictly increasing order, and all
/// have small fractions.
pub open spec fn scan_sorted(s: Seq<ScanPoint>) -> bool {
    &&& forall|i: int| 0 <= i < s.len() ==> small(#[trigger] s[i].x.pair())
    &&& forall|i: int| 0 <= i < s.len() - 1 ==> scan_lt(#[trigger] s[i], s[i + 1])
}

fn scan_less(a: ScanPoint, b: ScanPoint) -> (r: bool)
    requires
        small(a.x.pair()),
        small(b.x.pair()),
    ensures
        r == scan_lt(a, b),
{
    proof {
        lemma_product_bound_by(a.x.num as int, b.x.den as int, 0x4_0000_0000_0000_0000, 0x2_0000_0000);
        lemma_product_bound_by(b.x.num as int, a.x.den as int, 0x4_0000_0000_0000_0000, 0x2_0000_0000);
    }
    let l = a.x.num * b.x.den;
    let r = b.x.num * a.x.den;
    l < r || (l == r && a.y < b.y)
}

/// `s` with `q` added at its place in the order, unless a point of the same
/// value is there already.
fn insert_unique(s: Vec<ScanPoint>, q: ScanPoint) -> (r: Vec<ScanPoint>)
    requires
        scan_sorted(s@),
        small(q.x.pair()),
    ensures
        scan_sorted(r@),
        forall|i: int| 0 <= i < s@.len() ==> r@.contains(#[trigger] s@[i]),
        forall|i: int| 0 <= i < r@.len() ==> #[trigger] r@[i] == q || s@.contains(r@[i]),
        has_value(r@, q.x.pair(), q.y as int),
{
    let mut i: usize = 0;
    while i < s.len()
        invariant
            i <= s@.len(),
            scan_sorted(s@),
            small(q.x.pair()),
            forall|k: int| 0 <= k < i ==> !(same_value(#[trigger] s@[k].x.pair(), q.x.pair()) && s@[k].y == q.y),
        decreases s@.len() - i,
    {
        if same_fraction(s[i].x, q.x) && s[i].y == q.y {
            assert(s@.contains(s@[i as int]));
            return s;
        }
        i = i + 1;
    }
    let mut j: usize = 0;
    while j < s.len() && !scan_less(q, s[j])
        invariant
            j <= s@.len(),
            scan_sorted(s@),
            small(q.x.pair()),
            j > 0 ==> !scan_lt(q, s@[j - 1]),
        decreases s@.len() - j,
    {
        j = j + 1;
    }
    let ghost old_s = s@;
    let mut r = s;
    r.insert(j, q);
    proof {
        if j > 0 {
            let a = old_s[j - 1];
            assert(!(same_value(a.x.pair(), q.x.pair()) && a.y == q.y));
            assert(scan_lt(a, q));
        }
        if j < old_s.len() {
            let b = old_s[j as int];
            assert(!(same_value(b.x.pair(), q.x.pair()) && b.y == q.y));
            assert(scan_lt(q, b));
        }
        assert forall|k: int| 0 <= k < r@.len() - 1 implies scan_lt(#[trigger] r@[k], r@[k + 1]) by {
            if k + 1 < j {
                assert(r@[k] == old_s[k] && r@[k + 1] == old_s[k + 1]);
            } else if k > j {
                assert(r@[k] == old_s[k - 1] && r@[k + 1] == old_s[k]);
            }
        }
        assert forall|k: int| 0 <= k < r@.len() implies small(#[trigger] r@[k].x.pair()) by {
            if k < j {
                assert(r@[k] == old_s[k]);
            } else if k > j {
                assert(r@[k] == old_s[k - 1]);
            }
        }
        assert forall|k: int| 0 <= k < old_s.len() implies r@.contains(#[trigger] old_s[k]) by {
            if k < j {
                assert(r@[k] == old_s[k]);
            } else {
                assert(r@[k + 1] == old_s[k]);
            }
        }
        assert forall|k: int| 0 <= k < r@.len() implies #[trigger] r@[k] == q || old_s.contains(r@[k]) by {
            if k < j {
                assert(r@[k] == old_s[k]);
            } else if k > j {
                assert(r@[k] == old_s[k - 1]);
            }
        }
        assert(r@[j as int] == q);
    }
    r
}

/// Every crossing of the lines through `es` with the scanline at `y` has a
/// point of the same value in `s`.
pub open spec fn covered(s: Seq<ScanPoint>, es: Seq<LineSegment>, y: int) -> bool {
    forall|i: int|
        0 <= i < es.len() && #[trigger] crossing_of(es[i], y) is Some ==> has_value(
            s,
            crossing_of(es[i], y).unwrap(),
            y,
        )
}

proof fn lemma_has_value_kept(old: Seq<ScanPoint>, new: Seq<ScanPoint>, x: (int, int), y: int)
    requires
        forall|i: int| 0 <= i < old.len() ==> new.contains(#[trigger] old[i]),
        has_value(old, x, y),
    ensures
        has_value(new, x, y),
{
    let i = choose|i: int| 0 <= i < old.len() && same_value(#[trigger] old[i].x.pair(), x) && old[i].y == y;
    assert(new.contains(old[i]));
    let k = choose|k: int| 0 <= k < new.len() && new[k] == old[i];
    assert(same_value(new[k].x.pair(), x));
}

proof fn lemma_covered_kept(old: Seq<ScanPoint>, new: Seq<ScanPoint>, es: Seq<LineSegment>, y: int)
    requires
        forall|i: int| 0 <= i < old.len() ==> new.contains(#[trigger] old[i]),
        covered(old, es, y),
    ensures
        covered(new, es, y),
{
    assert forall|i: int| 0 <= i < es.len() && #[trigger] crossing_of(es[i], y) is Some implies has_value(
        new,
        crossing_of(es[i], y).unwrap(),
        y,
    ) by {
        lemma_has_value_kept(old, new, crossing_of(es[i], y).unwrap(), y);
    }
}

/// When the line through every edge of `p` meets the scanline of each
/// vertex of `p` only at vertices of `p`, the union of `p` with itself adds
/// no point: every point it is made of has the value of a vertex of `p`,
/// and every vertex is one of them.
pub proof fn lemma_union_self(p: Seq<Point>)
    requires
        forall|i: int, j: int|
            0 <= i < p.len() && 0 <= j < p.len() && (#[trigger] crossing_of(edges_of(p)[i], p[j].y as int)) is Some
                ==> exists|k: int|
                0 <= k < p.len() && p[k].y == p[j].y && same_value(
                    crossing_of(edges_of(p)[i], p[j].y as int).unwrap(),
                    (#[trigger] p[k].x as int, 1int),
                ),
    ensures
        forall|x: (int, int), y: int|
            #[trigger] union_source(p, p, x, y) ==> exists|k: int|
                0 <= k < p.len() && y == p[k].y && same_value(x, (#[trigger] p[k].x as int, 1int)),
        forall|k: int| 0 <= k < p.len() ==> union_source(p, p, (#[trigger] p[k].x as int, 1int), p[k].y as int),
{
    let vs = p + p;
    let es = edges_of(p) + edges_of(p);
    assert forall|x: (int, int), y: int| #[trigger] union_source(p, p, x, y) implies exists|k: int|
        0 <= k < p.len() && y == p[k].y && same_value(x, (#[trigger] p[k].x as int, 1int)) by {
        if exists|j: int| 0 <= j < vs.len() && x == (#[trigger] vs[j].x as int, 1int) && y == vs[j].y {
            let j = choose|j: int| 0 <= j < vs.len() && x == (#[trigger] vs[j].x as int, 1int) && y == vs[j].y;
            let k = if j < p.len() { j } else { j - p.len() };
            assert(vs[j] == p[k]);
            assert(same_value(x, (p[k].x as int, 1int)));
        } else {
            let (i, j) = choose|i: int, j: int|
                0 <= i < es.len() && 0 <= j < vs.len() && y == vs[j].y && #[trigger] crossing_of(es[i], vs[j].y as int) == Some(x);
            let i2 = if i < p.len() { i } else { i - p.len() };
            let j2 = if j < p.len() { j } else { j - p.len() };
            assert(es[i] == edges_of(p)[i2]);
            assert(vs[j] == p[j2]);
            assert(crossing_of(edges_of(p)[i2], p[j2].y as int) is Some);
        }
    }
    assert forall|k: int| 0 <= k < p.len() implies union_source(p, p, (#[trigger] p[k].x as int, 1int), p[k].y as int) by {
        assert(vs[k] == p[k]);
    }
}

impl Polygon {
    /// The points of the union of this polygon and `other`, by a scanline
    /// sweep: the vertices of both, together with every point where the
    /// line through an edge of either meets the scanline of a vertex of
    /// either. Each value comes once, in order of `x`, then `y`.
    ///
    /// The result is a point set in coordinate order, not a boundary in
    /// traversal order.
    pub fn union(&self, other: &Polygon) -> (r: Vec<ScanPoint>)
        ensures
            scan_sorted(r@),
            forall|i: int|
                0 <= i < r@.len() ==> union_source(
                    self.points@,
                    other.points@,
                    #[trigger] r@[i].x.pair(),
                    r@[i].y as int,
                ),
            forall|x: (int, int), y: int|
                #[trigger] union_source(self.points@, other.points@, x, y) ==> has_value(r@, x, y),
    {
        let ghost a = self.points@;
        let ghost b = other.points@;
        let all = concat(&self.points, &other.points);
        let se = self.edges();
        let oe = other.edges();
        let edges = concat(&se, &oe);
        assert(se@ == edges_of(a));
        assert(oe@ == edges_of(b));
        let ghost es = edges@;
        let mut r: Vec<ScanPoint> = Vec::new();
        let mut i: usize = 0;
        while i < all.len()
            invariant
                all@ == a + b,
                es == edges_of(a) + edges_of(b),
                i <= all@.len(),
                scan_sorted(r@),
                forall|k: int| 0 <= k < r@.len() ==> union_source(a, b, #[trigger] r@[k].x.pair(), r@[k].y as int),
                forall|j: int| 0 <= j < i ==> has_value(r@, (#[trigger] all@[j].x as int, 1int), all@[j].y as int),
            decreases all@.len() - i,
        {
            let p = all[i];
            let q = ScanPoint { x: Fraction { num: p.x as i128, den: 1 }, y: p.y };
            let ghost old_r = r@;
            r = insert_unique(r, q);
            proof {
                assert forall|j: int| 0 <= j < i + 1 implies has_value(r@, (#[trigger] all@[j].x as int, 1int), all@[j].y as int) by {
                    if j < i {
                        lemma_has_value_kept(old_r, r@, (all@[j].x as int, 1int), all@[j].y as int);
                    }
                }
                assert forall|k: int| 0 <= k < r@.len() implies union_source(a, b, #[trigger] r@[k].x.pair(), r@[k].y as int) by {
                    if r@[k] != q {
                        let m = choose|m: int| 0 <= m < old_r.len() && old_r[m] == r@[k];
                    } else {
                        assert(all@[i as int].x == q.x.num);
                    }
                }
            }
            i = i + 1;
        }
        let v = scan_order(&all);
        let mut k: usize = 0;
        while k < v.len()
            invariant
                all@ == a + b,
                es == edges_of(a) + edges_of(b),
                edges@ == es,
                crate::order::is_scan_order(v@, all@),
                k <= v@.len(),
                scan_sorted(r@),
                forall|m: int| 0 <= m < r@.len() ==> union_source(a, b, #[trigger] r@[m].x.pair(), r@[m].y as int),
                forall|j: int| 0 <= j < all@.len() ==> has_value(r@, (#[trigger] all@[j].x as int, 1int), all@[j].y as int),
                forall|kk: int| 0 <= kk < k ==> covered(r@, es, #[trigger] v@[kk].y as int),
            decreases v@.len() - k,
        {
            let y = v[k].y;
            let ghost vk = v@[k as int];
            let ghost jv = choose|jv: int| 0 <= jv < all@.len() && all@[jv] == vk;
            proof {
                assert(v@.contains(vk));
            }
            if k == 0 || y != v[k - 1].y {
                let mut e: usize = 0;
                while e < edges.len()
                    invariant
                        all@ == a + b,
                        es == edges_of(a) + edges_of(b),
                        edges@ == es,
                        crate::order::is_scan_order(v@, all@),
                        k < v@.len(),
                        y == v@[k as int].y,
                        0 <= jv < all@.len() && all@[jv] == v@[k as int],
                        e <= es.len(),
                        scan_sorted(r@),
                        forall|m: int| 0 <= m < r@.len() ==> union_source(a, b, #[trigger] r@[m].x.pair(), r@[m].y as int),
                        forall|j: int| 0 <= j < all@.len() ==> has_value(r@, (#[trigger] all@[j].x as int, 1int), all@[j].y as int),
                        forall|kk: int| 0 <= kk < k ==> covered(r@, es, #[trigger] v@[kk].y as int),
                        forall|i: int|
                            0 <= i < e && #[trigger] crossing_of(es[i], y as int) is Some ==> has_value(
                                r@,
                                crossing_of(es[i], y as int).unwrap(),
                                y as int,
                            ),
                    decreases es.len() - e,
                {
                    match intersection(edges[e], y) {
                        Some(f) => {
                            proof {
                                lemma_crossing_small(es[e as int], y as int);
                            }
                            let ghost old_r = r@;
                            let q = ScanPoint { x: f, y };
                            r = insert_unique(r, q);
                            proof {
                                assert forall|j: int| 0 <= j < all@.len() implies has_value(r@, (#[trigger] all@[j].x as int, 1int), all@[j].y as int) by {
                                    lemma_has_value_kept(old_r, r@, (all@[j].x as int, 1int), all@[j].y as int);
                                }
                                assert forall|kk: int| 0 <= kk < k implies covered(r@, es, #[trigger] v@[kk].y as int) by {
                                    lemma_covered_kept(old_r, r@, es, v@[kk].y as int);
                                }
                                assert forall|i: int|
                                    0 <= i < e + 1 && #[trigger] crossing_of(es[i], y as int) is Some implies has_value(
                                        r@,
                                        crossing_of(es[i], y as int).unwrap(),
                                        y as int,
                                    ) by {
                                    if i < e {
                                        lemma_has_value_kept(old_r, r@, crossing_of(es[i], y as int).unwrap(), y as int);
                                    }
                                }
                                assert forall|m: int| 0 <= m < r@.len() implies union_source(a, b, #[trigger] r@[m].x.pair(), r@[m].y as int) by {
                                    if r@[m] != q {
                                        let mm = choose|mm: int| 0 <= mm < old_r.len() && old_r[mm] == r@[m];
                                    } else {
                                        assert(crossing_of(es[e as int], all@[jv].y as int) == Some(q.x.pair()));
                                    }
                                }
                            }
                        },
                        None => {},
                    }
                    e = e + 1;
                }
            } else {
                assert(covered(r@, es, v@[k - 1].y as int));
            }
            k = k + 1;
        }
        proof {
            assert forall|x: (int, int), y: int| #[trigger] union_source(a, b, x, y) implies has_value(r@, x, y) by {
                let vs = a + b;
                if exists|j: int| 0 <= j < vs.len() && x == (#[trigger] vs[j].x as int, 1int) && y == vs[j].y {
                    let j = choose|j: int| 0 <= j < vs.len() && x == (#[trigger] vs[j].x as int, 1int) && y == vs[j].y;
                    assert(has_value(r@, (all@[j].x as int, 1int), all@[j].y as int));
                } else {
                    let (i, j) = choose|i: int, j: int|
                        0 <= i < es.len() && 0 <= j < vs.len() && y == vs[j].y && #[trigger] crossing_of(es[i], vs[j].y as int) == Some(x);
                    assert(all@.contains(all@[j]));
                    let kk = choose|kk: int| 0 <= kk < v@.len() && v@[kk] == all@[j];
                    assert(covered(r@, es, v@[kk].y as int));
                }
            }
        }
        r
    }
}

} // verus!
