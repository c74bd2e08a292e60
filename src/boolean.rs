use vstd::prelude::*;
use crate::order::{ccw_sort, ccw_sorted, centre_in_range, is_scan_order, scan_order};
use crate::point::Point;
use crate::polygon::{lemma_sum_bound, sum_x, sum_y, Polygon};
use crate::scan::{count_crossings, crossing_count};

verus! {

/// Position `k` of `v` starts a new scanline: it is the first point, or its
/// `y` differs from the previous point's.
pub open spec fn new_line(v: Seq<Point>, k: int) -> bool {
    k == 0 || v[k].y != v[k - 1].y
}

/// The scanline starting at position `k` of `v` flips the inside state: the
/// lines through `other`'s edges meet it in an even number of points.
pub open spec fn flips(v: Seq<Point>, other: Seq<Point>, k: int) -> bool {
    new_line(v, k) && crossing_count(other, v[k].y as int) % 2 == 0
}

/// The inside state once the first `k` points of `v` have been visited.
/// It starts false and flips at each scanline that `flips` says so of.
pub open spec fn inside_after(v: Seq<Point>, other: Seq<Point>, k: nat) -> bool
    decreases k,
{
    if k == 0 {
        false
    } else {
        inside_after(v, other, (k - 1) as nat) != flips(v, other, k - 1)
    }
}

/// The points `v[i]` with `i < n` and `flags[i]`, in order.
pub open spec fn flagged(v: Seq<Point>, flags: Seq<bool>, n: nat) -> Seq<Point>
    decreases n,
{
    if n == 0 {
        Seq::empty()
    } else {
        let rest = flagged(v, flags, (n - 1) as nat);
        if flags[n - 1] {
            rest.push(v[n - 1])
        } else {
            rest
        }
    }
}

/// The points of `v` that are visited while the inside state is false.
pub open spec fn kept(v: Seq<Point>, other: Seq<Point>) -> Seq<Point> {
    flagged(v, Seq::new(v.len(), |i: int| !inside_after(v, other, (i + 1) as nat)), v.len())
}

/// The points `v[i]` with `flags[i]`, in order.
fn collect_flagged(v: &Vec<Point>, flags: &Vec<bool>) -> (r: Vec<Point>)
    requires
        flags@.len() == v@.len(),
    ensures
        r@ == flagged(v@, flags@, v@.len()),
{
    let mut r: Vec<Point> = Vec::new();
    let mut i: usize = 0;
    while i < v.len()
        invariant
            i <= v@.len(),
            flags@.len() == v@.len(),
            r@ == flagged(v@, flags@, i as nat),
        decreases v@.len() - i,
    {
        if flags[i] {
            r.push(v[i]);
        }
        i = i + 1;
    }
    r
}

/// The inside state before each visited point, computed as the scan goes.
fn inside_flags(v: &Vec<Point>, other: &Polygon) -> (r: Vec<bool>)
    ensures
        r@.len() == v@.len(),
        forall|i: int| 0 <= i < v@.len() ==> #[trigger] r@[i] == inside_after(v@, other.points@, (i + 1) as nat),
{
    let edges = other.edges();
    let mut r: Vec<bool> = Vec::new();
    let mut inside = false;
    let mut k: usize = 0;
    while k < v.len()
        invariant
            k <= v@.len(),
            r@.len() == k,
            edges@ == crate::scan::edges_of(other.points@),
            inside == inside_after(v@, other.points@, k as nat),
            forall|i: int| 0 <= i < k ==> #[trigger] r@[i] == inside_after(v@, other.points@, (i + 1) as nat),
        decreases v@.len() - k,
    {
        let p = v[k];
        if k == 0 || p.y != v[k - 1].y {
            let c = count_crossings(&edges, p.y);
            if c % 2 == 0 {
                inside = !inside;
            }
        }
        r.push(inside);
        k = k + 1;
    }
    r
}

proof fn lemma_flagged_all(v: Seq<Point>, flags: Seq<bool>, n: nat)
    requires
        n <= v.len(),
        n <= flags.len(),
        forall|i: int| 0 <= i < n ==> #[trigger] flags[i],
    ensures
        flagged(v, flags, n) == v.take(n as int),
    decreases n,
{
    if n > 0 {
        lemma_flagged_all(v, flags, (n - 1) as nat);
        assert(v.take(n as int) == v.take(n - 1).push(v[n - 1]));
    }
}

proof fn lemma_never_inside(v: Seq<Point>, other: Seq<Point>, k: nat)
    requires
        k <= v.len(),
        forall|i: int| 0 <= i < v.len() ==> crossing_count(other, #[trigger] v[i].y as int) % 2 == 1,
    ensures
        !inside_after(v, other, k),
    decreases k,
{
    if k > 0 {
        lemma_never_inside(v, other, (k - 1) as nat);
        assert(crossing_count(other, v[k - 1].y as int) % 2 == 1);
    }
}

/// When the lines through `q`'s edges meet the scanline of every vertex of
/// `p` an odd number of times, the inside state never turns true, and the
/// sweep of `difference` keeps every distinct vertex of `p`. This is the
/// case of a `q` clear of `p` whose edge lines cross each of `p`'s
/// scanlines an odd number of times; with no edge at all (an empty `q`) the
/// count is zero, which is even, and the first scanline of `p` is dropped.
pub proof fn lemma_difference_keeps_all(p: Seq<Point>, q: Seq<Point>, v: Seq<Point>)
    requires
        is_scan_order(v, p),
        forall|i: int| 0 <= i < p.len() ==> crossing_count(q, #[trigger] p[i].y as int) % 2 == 1,
    ensures
        kept(v, q) == v,
{
    assert forall|i: int| 0 <= i < v.len() implies crossing_count(q, #[trigger] v[i].y as int) % 2 == 1 by {
        assert(v.contains(v[i]));
        assert(p.contains(v[i]));
    }
    let flags = Seq::new(v.len(), |i: int| !inside_after(v, q, (i + 1) as nat));
    assert forall|i: int| 0 <= i < v.len() implies #[trigger] flags[i] by {
        lemma_never_inside(v, q, (i + 1) as nat);
    }
    lemma_flagged_all(v, flags, v.len());
    assert(v.take(v.len() as int) == v);
}

/// The state of the splitting sweep once the first `k` points of `v` have
/// been visited: which points are still held, and the pieces given out so
/// far.
///
/// All points start held. At a new scanline whose lines of `other` meet it
/// at least once and after which the inside state is false, the held
/// points are given out as one piece and none stays held. A point visited
/// while the inside state is true is let go.
pub open spec fn split_state(v: Seq<Point>, other: Seq<Point>, k: nat) -> (Seq<bool>, Seq<Seq<Point>>)
    decreases k,
{
    if k == 0 {
        (Seq::new(v.len(), |i: int| true), Seq::empty())
    } else {
        let prev = split_state(v, other, (k - 1) as nat);
        let i = k - 1;
        let ins = inside_after(v, other, k);
        let flushed = if new_line(v, i) && !ins && crossing_count(other, v[i].y as int) > 0 {
            (Seq::new(v.len(), |j: int| false), prev.1.push(flagged(v, prev.0, v.len())))
        } else {
            prev
        };
        if ins {
            (flushed.0.update(i, false), flushed.1)
        } else {
            flushed
        }
    }
}

/// The splitting sweep holds one flag per point.
pub proof fn lemma_split_state_len(v: Seq<Point>, other: Seq<Point>, k: nat)
    requires
        k <= v.len(),
    ensures
        split_state(v, other, k).0.len() == v.len(),
    decreases k,
{
    if k > 0 {
        lemma_split_state_len(v, other, (k - 1) as nat);
    }
}

/// The pieces of the splitting sweep over `v`: those given out during the
/// sweep, then the points still held at its end, if there are any.
pub open spec fn split_pieces(v: Seq<Point>, other: Seq<Point>) -> Seq<Seq<Point>> {
    let last = split_state(v, other, v.len());
    let rest = flagged(v, last.0, v.len());
    if rest.len() > 0 {
        last.1.push(rest)
    } else {
        last.1
    }
}

/// `n` copies of `b`.
fn fill(n: usize, b: bool) -> (r: Vec<bool>)
    ensures
        r@ == Seq::new(n as nat, |i: int| b),
{
    let mut r: Vec<bool> = Vec::new();
    let mut i: usize = 0;
    while i < n
        invariant
            i <= n,
            r@ == Seq::new(i as nat, |k: int| b),
        decreases n - i,
    {
        r.push(b);
        proof {
            assert(r@ =~= Seq::new((i + 1) as nat, |k: int| b));
        }
        i = i + 1;
    }
    r
}

/// The items of `a` followed by those of `b`.
pub(crate) fn concat<T: Copy>(a: &Vec<T>, b: &Vec<T>) -> (r: Vec<T>)
    ensures
        r@ == a@ + b@,
{
    let mut r: Vec<T> = Vec::new();
    let mut i: usize = 0;
    while i < a.len()
        invariant
            i <= a@.len(),
            r@ == a@.take(i as int),
        decreases a@.len() - i,
    {
        r.push(a[i]);
        proof {
            assert(a@.take(i + 1) == a@.take(i as int).push(a@[i as int]));
        }
        i = i + 1;
    }
    let mut j: usize = 0;
    assert(a@.take(a@.len() as int) == a@);
    while j < b.len()
        invariant
            j <= b@.len(),
            r@ == a@ + b@.take(j as int),
        decreases b@.len() - j,
    {
        r.push(b[j]);
        proof {
            assert(a@ + b@.take(j + 1) == (a@ + b@.take(j as int)).push(b@[j as int]));
        }
        j = j + 1;
    }
    assert(b@.take(b@.len() as int) == b@);
    r
}


impl Polygon {
    /// The vertices of this polygon that lie outside `other`, by a scanline
    /// sweep.
    ///
    /// The distinct vertices are visited in scanline order (by `y`, then
    /// `x`), with an inside state that starts false. At each new scanline
    /// the lines through `other`'s edges are met with it; when they meet it
    /// in an even number of distinct points, the state flips. A vertex
    /// visited while the state is true is dropped. The vertices that stay
    /// are returned in counter-clockwise order round this polygon's vertex
    /// centroid.
    ///
    /// This polygon must have fewer than 2^31 vertices: the centroid
    /// comparisons are exact in 128-bit integers, and the vertex count
    /// scales every vector compared.
    pub fn difference(&self, other: &Polygon) -> (r: Polygon)
        requires
            self.points@.len() < 0x8000_0000,
        ensures
            exists|v: Seq<Point>|
                {
                    &&& is_scan_order(v, self.points@)
                    &&& r.points@.to_multiset() == #[trigger] kept(v, other.points@).to_multiset()
                },
            ccw_sorted(
                r.points@,
                self.points@.len() as int,
                sum_x(self.points@),
                sum_y(self.points@),
            ),
    {
        let v = scan_order(&self.points);
        let inside = inside_flags(&v, other);
        let mut keep: Vec<bool> = Vec::new();
        let mut i: usize = 0;
        while i < inside.len()
            invariant
                i <= inside@.len(),
                keep@.len() == i,
                forall|k: int| 0 <= k < i ==> #[trigger] keep@[k] == !inside@[k],
            decreases inside@.len() - i,
        {
            keep.push(!inside[i]);
            i = i + 1;
        }
        assert(keep@ == Seq::new(v@.len(), |i: int| !inside_after(v@, other.points@, (i + 1) as nat)));
        let points = collect_flagged(&v, &keep);
        let (sx, sy) = self.sums();
        proof {
            lemma_sum_bound(self.points@);
        }
        let sorted = ccw_sort(points, self.points.len() as i128, sx, sy);
        assert(sorted@.to_multiset() == kept(v@, other.points@).to_multiset());
        Polygon { points: sorted }
    }

    /// The difference of this polygon and `other`, split into pieces at the
    /// scanlines where the sweep comes back out of `other`.
    ///
    /// The distinct vertices of both polygons are visited in scanline order
    /// with the inside state of `difference`, and are all held at the
    /// start. At a new scanline that the lines through `other`'s edges meet
    /// at least once and after which the state is false, the held points
    /// are given out as one piece and none stays held; a point visited
    /// while the state is true is let go. What is still held at the end is
    /// the last piece, if anything is. Each piece comes in counter-clockwise
    /// order round this polygon's vertex centroid.
    ///
    /// This polygon must have fewer than 2^31 vertices, for the same reason
    /// as in `difference`: the exact centroid comparisons fit 128-bit
    /// integers only up to that count.
    pub fn split_difference(&self, other: &Polygon) -> (r: Vec<Polygon>)
        requires
            self.points@.len() < 0x8000_0000,
        ensures
            exists|v: Seq<Point>|
                {
                    &&& is_scan_order(v, self.points@ + other.points@)
                    &&& r@.len() == #[trigger] split_pieces(v, other.points@).len()
                    &&& forall|i: int|
                        0 <= i < r@.len() ==> #[trigger] r@[i].points@.to_multiset()
                            == split_pieces(v, other.points@)[i].to_multiset()
                },
            forall|i: int|
                0 <= i < r@.len() ==> ccw_sorted(
                    #[trigger] r@[i].points@,
                    self.points@.len() as int,
                    sum_x(self.points@),
                    sum_y(self.points@),
                ),
    {
        let all = concat(&self.points, &other.points);
        let v = scan_order(&all);
        let edges = other.edges();
        let n = self.points.len() as i128;
        let (sx, sy) = self.sums();
        proof {
            lemma_sum_bound(self.points@);
        }
        let ghost nn = self.points@.len() as int;
        let ghost sxx = sum_x(self.points@);
        let ghost syy = sum_y(self.points@);
        let mut held = fill(v.len(), true);
        let mut pieces: Vec<Polygon> = Vec::new();
        let mut inside = false;
        let mut k: usize = 0;
        while k < v.len()
            invariant
                k <= v@.len(),
                centre_in_range(n as int, sx as int, sy as int),
                n == nn,
                sx == sxx,
                sy == syy,
                edges@ == crate::scan::edges_of(other.points@),
                inside == inside_after(v@, other.points@, k as nat),
                held@ == split_state(v@, other.points@, k as nat).0,
                held@.len() == v@.len(),
                pieces@.len() == split_state(v@, other.points@, k as nat).1.len(),
                forall|i: int|
                    0 <= i < pieces@.len() ==> #[trigger] pieces@[i].points@.to_multiset()
                        == split_state(v@, other.points@, k as nat).1[i].to_multiset(),
                forall|i: int|
                    0 <= i < pieces@.len() ==> ccw_sorted(#[trigger] pieces@[i].points@, nn, sxx, syy),
            decreases v@.len() - k,
        {
            let p = v[k];
            let ghost prev = split_state(v@, other.points@, k as nat);
            let ghost old_pieces = pieces@;
            proof {
                lemma_split_state_len(v@, other.points@, k as nat + 1);
            }
            if k == 0 || p.y != v[k - 1].y {
                let c = count_crossings(&edges, p.y);
                if c % 2 == 0 {
                    inside = !inside;
                }
                if !inside && c > 0 {
                    let points = collect_flagged(&v, &held);
                    let sorted = ccw_sort(points, n, sx, sy);
                    pieces.push(Polygon { points: sorted });
                    held = fill(v.len(), false);
                    proof {
                        assert forall|i: int| 0 <= i < pieces@.len() implies #[trigger] pieces@[i].points@.to_multiset()
                            == prev.1.push(flagged(v@, prev.0, v@.len()))[i].to_multiset() by {
                            if i < old_pieces.len() {
                                assert(pieces@[i] == old_pieces[i]);
                            }
                        }
                        assert forall|i: int| 0 <= i < pieces@.len() implies ccw_sorted(#[trigger] pieces@[i].points@, nn, sxx, syy) by {
                            if i < old_pieces.len() {
                                assert(pieces@[i] == old_pieces[i]);
                            }
                        }
                    }
                }
            }
            if inside {
                held.set(k, false);
            }
            k = k + 1;
        }
        let rest = collect_flagged(&v, &held);
        if rest.len() > 0 {
            let ghost old_pieces = pieces@;
            let sorted = ccw_sort(rest, n, sx, sy);
            pieces.push(Polygon { points: sorted });
            proof {
                assert forall|i: int| 0 <= i < pieces@.len() implies ccw_sorted(#[trigger] pieces@[i].points@, nn, sxx, syy) by {
                    if i < old_pieces.len() {
                        assert(pieces@[i] == old_pieces[i]);
                    }
                }
            }
        }
        assert(is_scan_order(v@, self.points@ + other.points@));
        assert(pieces@.len() == split_pieces(v@, other.points@).len());
        pieces
    }
}

} // verus!
