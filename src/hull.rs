use vstd::prelude::*;
use vstd::seq_lib::to_multiset_insert;
use crate::point::{cross_of, Point};
use crate::polygon::Polygon;

verus! {

/// `a`, `b`, `c` make a strict turn at `b`: the cross product of `a - b`
/// and `c - b` is positive.
pub open spec fn turns(a: Point, b: Point, c: Point) -> bool {
    cross_of(a.x - b.x, a.y - b.y, c.x - b.x, c.y - b.y) > 0
}

/// Each point of `s` has a `y` no greater than the next one's.
pub open spec fn sorted_by_y(s: Seq<Point>) -> bool {
    forall|i: int, j: int| 0 <= i < j < s.len() ==> #[trigger] s[i].y <= #[trigger] s[j].y
}

/// `s` with `p` inserted just before the run of points at its end whose `y`
/// is greater than `p.y`. In a sequence sorted by `y`, that is right after
/// the last point whose `y` is at most `p.y`.
pub open spec fn insert_by_y(s: Seq<Point>, p: Point) -> Seq<Point>
    decreases s.len(),
{
    if s.len() == 0 {
        seq![p]
    } else if s.last().y > p.y {
        insert_by_y(s.drop_last(), p).push(s.last())
    } else {
        s.push(p)
    }
}

/// The stable sort of `s` by `y`: each point in turn is placed after all
/// earlier points of no greater `y`, so points of equal `y` keep their
/// order in `s`.
pub open spec fn stable_sort_y(s: Seq<Point>) -> Seq<Point>
    decreases s.len(),
{
    if s.len() == 0 {
        Seq::empty()
    } else {
        insert_by_y(stable_sort_y(s.drop_last()), s.last())
    }
}

proof fn lemma_insert_by_y_at(s: Seq<Point>, p: Point, j: int)
    requires
        0 <= j <= s.len(),
        forall|k: int| j <= k < s.len() ==> #[trigger] s[k].y > p.y,
        j > 0 ==> s[j - 1].y <= p.y,
    ensures
        insert_by_y(s, p) == s.insert(j, p),
    decreases s.len(),
{
    if s.len() == 0 {
        assert(s.insert(j, p) =~= seq![p]);
    } else if j < s.len() {
        let t = s.drop_last();
        lemma_insert_by_y_at(t, p, j);
        assert(t.insert(j, p).push(s.last()) =~= s.insert(j, p));
    } else {
        assert(s.push(p) =~= s.insert(j, p));
    }
}

/// The points of `pts`, sorted by `y` alone; points with equal `y` keep
/// their order.
pub fn sort_by_y(pts: &Vec<Point>) -> (r: Vec<Point>)
    ensures
        r@ == stable_sort_y(pts@),
        r@.to_multiset() == pts@.to_multiset(),
        sorted_by_y(r@),
{
    let mut r: Vec<Point> = Vec::new();
    let mut i: usize = 0;
    proof {
        broadcast use vstd::seq_lib::group_to_multiset_ensures;
        assert(pts@.take(0) =~= r@);
    }
    while i < pts.len()
        invariant
            i <= pts@.len(),
            r@ == stable_sort_y(pts@.take(i as int)),
            r@.to_multiset() == pts@.take(i as int).to_multiset(),
            sorted_by_y(r@),
        decreases pts@.len() - i,
    {
        let p = pts[i];
        let mut j: usize = r.len();
        while j > 0 && r[j - 1].y > p.y
            invariant
                j <= r@.len(),
                forall|k: int| j <= k < r@.len() ==> #[trigger] r@[k].y > p.y,
            decreases j,
        {
            j = j - 1;
        }
        let ghost old_r = r@;
        proof {
            lemma_insert_by_y_at(old_r, p, j as int);
            assert(pts@.take(i as int + 1).drop_last() == pts@.take(i as int));
            to_multiset_insert(old_r, j as int, p);
            vstd::seq_lib::to_multiset_build(pts@.take(i as int), p);
            assert(pts@.take(i as int + 1) == pts@.take(i as int).push(p));
        }
        r.insert(j, p);
        assert forall|a: int, b: int| 0 <= a < b < r@.len() implies #[trigger] r@[a].y <= #[trigger] r@[b].y by {
            if b < j {
            } else if b == j {
                assert(old_r[a].y <= old_r[j - 1].y || a == j - 1);
            } else if a < j {
                assert(r@[b] == old_r[b - 1]);
                assert(old_r[a].y <= old_r[j - 1].y || a == j - 1);
            } else if a == j {
                assert(r@[b] == old_r[b - 1]);
                assert(old_r[j as int].y <= old_r[b - 1].y || j == b - 1);
            } else {
                assert(r@[a] == old_r[a - 1]);
                assert(r@[b] == old_r[b - 1]);
            }
        }
        i = i + 1;
    }
    assert(pts@.take(pts@.len() as int) == pts@);
    r
}

/// Whether `a`, `b`, `c` make a strict turn at `b`.
fn turns_exec(a: Point, b: Point, c: Point) -> (r: bool)
    ensures
        r == turns(a, b, c),
{
    a.sub(b).cross(c.sub(b)) > 0
}

/// The chain `s` turns strictly at every inner point, except perhaps at
/// position `skip + 1`.
pub open spec fn turns_except(s: Seq<Point>, skip: int) -> bool {
    forall|i: int| 0 <= i < s.len() - 2 && i != skip ==> turns(#[trigger] s[i], s[i + 1], s[i + 2])
}

/// The chain `r` with its last point dropped for as long as it holds at
/// least `floor` and at least two points, and its last two points and `p`
/// fail to make a strict turn.
pub open spec fn pop_while(r: Seq<Point>, p: Point, floor: nat) -> Seq<Point>
    decreases r.len(),
{
    if r.len() >= floor && r.len() >= 2 && !turns(r[r.len() - 2], r[r.len() - 1], p) {
        pop_while(r.drop_last(), p, floor)
    } else {
        r
    }
}

/// The first chain after the first `k` points of `s`: each point, in
/// order, is pushed once the chain has dropped what fails to turn with it.
pub open spec fn lower_pass(s: Seq<Point>, k: nat) -> Seq<Point>
    decreases k,
{
    if k == 0 {
        Seq::empty()
    } else {
        pop_while(lower_pass(s, (k - 1) as nat), s[k - 1], 2).push(s[k - 1])
    }
}

/// The second chain after the last `k` points of `s`, taken in reverse
/// order and added onto `start`; it never drops below `floor` points.
pub open spec fn upper_pass(s: Seq<Point>, start: Seq<Point>, floor: nat, k: nat) -> Seq<Point>
    decreases k,
{
    if k == 0 {
        start
    } else {
        let p = s[s.len() - k];
        pop_while(upper_pass(s, start, floor, (k - 1) as nat), p, floor).push(p)
    }
}

/// The monotone chain over `s`: the first chain over `s`, then the second
/// over `s` in reverse, which keeps every point of the first.
pub open spec fn chain(s: Seq<Point>) -> Seq<Point> {
    let low = lower_pass(s, s.len());
    upper_pass(s, low, (low.len() + 1) as nat, s.len())
}

proof fn lemma_pop_while_len(r: Seq<Point>, p: Point, floor: nat)
    ensures
        pop_while(r, p, floor).len() <= r.len(),
    decreases r.len(),
{
    if r.len() >= floor && r.len() >= 2 && !turns(r[r.len() - 2], r[r.len() - 1], p) {
        lemma_pop_while_len(r.drop_last(), p, floor);
    }
}

impl Polygon {
    /// The convex hull by the monotone chain: the vertices are sorted by
    /// `y`; a first chain takes them in that order and a second in reverse,
    /// each dropping its last point while the last two points and the next
    /// one fail to make a strict turn. The second chain never drops a point
    /// of the first.
    ///
    /// The result is exactly `chain` over the stable sort of the vertices by
    /// `y`, and is at most twice as long as the vertex list.
    /// It is made of vertices of this polygon. It starts with the
    /// first vertex of least `y` and, closing the loop, ends with it again.
    /// It turns strictly at each of its inner points but the last point of
    /// the first chain.
    pub fn convex_hull(&self) -> (r: Polygon)
        ensures
            r.points@ == chain(stable_sort_y(self.points@)),
            r.points@.len() <= 2 * self.points@.len(),
            forall|i: int| 0 <= i < r.points@.len() ==> self.points@.contains(#[trigger] r.points@[i]),
            self.points@.len() == 0 ==> r.points@.len() == 0,
            self.points@.len() > 0 ==> {
                &&& r.points@.len() >= 2
                &&& r.points@[0] == r.points@.last()
                &&& self.points@.contains(r.points@[0])
                &&& forall|i: int| 0 <= i < self.points@.len() ==> r.points@[0].y <= #[trigger] self.points@[i].y
                &&& exists|lower: int| 1 <= lower < r.points@.len() && #[trigger] turns_except(r.points@, lower - 2)
            },
    {
        let points = sort_by_y(&self.points);
        let ghost sp = points@;
        let m = points.len();
        let mut result: Vec<Point> = Vec::new();
        let mut i: usize = 0;
        while i < m
            invariant
                m == sp.len(),
                points@ == sp,
                sorted_by_y(sp),
                i <= m,
                result@ == lower_pass(sp, i as nat),
                result@.len() <= i,
                i > 0 ==> result@.len() >= 1 && result@[0] == sp[0] && result@.last() == sp[i - 1],
                i == 0 ==> result@.len() == 0,
                forall|k: int| 0 <= k < result@.len() ==> sp.contains(#[trigger] result@[k]),
                turns_except(result@, -1),
            decreases m - i,
        {
            let p = points[i];
            let ghost target = pop_while(result@, p, 2);
            proof {
                lemma_pop_while_len(result@, p, 2);
            }
            while result.len() >= 2 && !turns_exec(result[result.len() - 2], result[result.len() - 1], p)
                invariant
                    pop_while(result@, p, 2) == target,
                    target.len() <= result@.len(),
                    i > 0 ==> result@.len() >= 1 && result@[0] == sp[0],
                    i == 0 ==> result@.len() == 0,
                    forall|k: int| 0 <= k < result@.len() ==> sp.contains(#[trigger] result@[k]),
                    turns_except(result@, -1),
                decreases result@.len(),
            {
                proof {
                    lemma_pop_while_len(result@.drop_last(), p, 2);
                }
                result.pop();
            }
            proof {
                assert(sp.contains(sp[i as int]));
            }
            result.push(p);
            proof {
                let s = result@;
                assert forall|k: int| 0 <= k < s.len() - 2 && k != -1 implies turns(#[trigger] s[k], s[k + 1], s[k + 2]) by {
                    if k + 2 < s.len() - 1 {
                        assert(s[k] == s.drop_last()[k]);
                    }
                }
            }
            i = i + 1;
        }
        let lower = result.len();
        let ghost lower_chain = result@;
        let mut j: usize = m;
        while j > 0
            invariant
                m == sp.len(),
                points@ == sp,
                sorted_by_y(sp),
                j <= m,
                lower == lower_chain.len(),
                lower_chain == lower_pass(sp, m as nat),
                result@ == upper_pass(sp, lower_chain, (lower + 1) as nat, (m - j) as nat),
                result@.len() <= lower + (m - j),
                lower <= m,
                m > 0 ==> lower >= 1 && lower_chain[0] == sp[0],
                m == 0 ==> lower == 0,
                result@.len() >= lower,
                result@.take(lower as int) == lower_chain,
                j < m ==> result@.len() > lower && result@.last() == sp[j as int],
                forall|k: int| 0 <= k < result@.len() ==> sp.contains(#[trigger] result@[k]),
                turns_except(result@, lower - 2),
            decreases j,
        {
            j = j - 1;
            let p = points[j];
            let ghost fl = (lower + 1) as nat;
            let ghost target = pop_while(result@, p, fl);
            proof {
                lemma_pop_while_len(result@, p, fl);
                assert(sp[sp.len() - (m - j)] == p);
            }
            while result.len() > lower && !turns_exec(result[result.len() - 2], result[result.len() - 1], p)
                invariant
                    fl == lower + 1,
                    pop_while(result@, p, fl) == target,
                    target.len() <= result@.len(),
                    lower == lower_chain.len(),
                    lower >= 1,
                    result@.len() >= lower,
                    result@.take(lower as int) == lower_chain,
                    forall|k: int| 0 <= k < result@.len() ==> sp.contains(#[trigger] result@[k]),
                    turns_except(result@, lower - 2),
                decreases result@.len(),
            {
                let ghost before = result@;
                proof {
                    lemma_pop_while_len(result@.drop_last(), p, fl);
                }
                result.pop();
                proof {
                    assert(result@.take(lower as int) == before.take(lower as int));
                }
            }
            proof {
                assert(sp.contains(sp[j as int]));
            }
            let ghost before = result@;
            result.push(p);
            proof {
                let s = result@;
                assert(s.take(lower as int) == before.take(lower as int));
                assert forall|k: int| 0 <= k < s.len() - 2 && k != lower - 2 implies turns(#[trigger] s[k], s[k + 1], s[k + 2]) by {
                    if k + 2 < s.len() - 1 {
                        assert(s[k] == before[k]);
                    }
                }
            }
        }
        proof {
            assert forall|q: Point| sp.contains(q) <==> self.points@.contains(q) by {
                vstd::seq_lib::to_multiset_contains(sp, q);
                vstd::seq_lib::to_multiset_contains(self.points@, q);
                broadcast use vstd::seq_lib::group_to_multiset_ensures;
            }
        }
        proof {
            vstd::seq_lib::to_multiset_len(sp);
            vstd::seq_lib::to_multiset_len(self.points@);
            if m > 0 {
                assert(result@[0] == lower_chain[0]);
                assert(turns_except(result@, lower - 2));
                assert(result@.take(lower as int)[0] == result@[0]);
                assert(sp.contains(result@[0]));
                assert forall|i: int| 0 <= i < self.points@.len() implies result@[0].y <= #[trigger] self.points@[i].y by {
                    assert(self.points@.contains(self.points@[i]));
                    assert(sp.contains(self.points@[i]));
                    let k = choose|k: int| 0 <= k < sp.len() && sp[k] == self.points@[i];
                    if k > 0 {
                        assert(sp[0].y <= sp[k].y);
                    }
                }
            }
        }
        Polygon { points: result }
    }
}

} // verus!
