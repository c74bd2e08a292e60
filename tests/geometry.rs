use scanpoly::intersection::{intersection, Fraction};
use scanpoly::point::Point;
use scanpoly::polygon::{LineSegment, Polygon, PolygonError};
use scanpoly::union::ScanPoint;

fn pt(x: i32, y: i32) -> Point {
    Point { x, y }
}

fn poly(points: &[(i32, i32)]) -> Polygon {
    Polygon { points: points.iter().map(|&(x, y)| pt(x, y)).collect() }
}

fn square() -> Polygon {
    poly(&[(0, 0), (2, 0), (2, 2), (0, 2)])
}

fn seg(a: (i32, i32), b: (i32, i32)) -> LineSegment {
    LineSegment { p1: pt(a.0, a.1), p2: pt(b.0, b.1) }
}

/// Whether `f` denotes the integer `v`.
fn is_value(f: Fraction, v: i128) -> bool {
    f.den > 0 && f.num == v * f.den
}

#[test]
fn point_sub_and_cross() {
    let d = pt(5, -3).sub(pt(2, 4));
    assert_eq!((d.x, d.y), (3, -7));
    assert_eq!(pt(1, 2).cross(pt(3, 4)), -2);
    assert_eq!(d.cross(pt(1, 1).sub(pt(0, 0))), 3 * 1 - (-7) * 1);
}

#[test]
fn point_lex_order() {
    assert!(pt(0, 5).lex_less(&pt(1, 0)));
    assert!(pt(1, 0).lex_less(&pt(1, 1)));
    assert!(!pt(1, 1).lex_less(&pt(1, 1)));
    assert!(pt(0, 5) < pt(1, 0));
}

#[test]
fn intersection_positive_slope() {
    // y = 2x; at y = 2 the line is at x = 1.
    let f = intersection(seg((0, 0), (2, 4)), 2).unwrap();
    assert_eq!(f, Fraction { num: 4, den: 4 });
    assert!(is_value(f, 1));
}

#[test]
fn intersection_negative_slope() {
    // x + y = 4; at y = 1 the line is at x = 3.
    let f = intersection(seg((0, 4), (4, 0)), 1).unwrap();
    assert_eq!(f, Fraction { num: 12, den: 4 });
    assert!(is_value(f, 3));
}

#[test]
fn intersection_fractional_abscissa() {
    // Through (0, 0) and (3, 2): at y = 1, x = 3 / 2.
    let f = intersection(seg((0, 0), (3, 2)), 1).unwrap();
    assert_eq!(f.num * 2, 3 * f.den);
}

#[test]
fn intersection_extends_beyond_segment() {
    // The segment spans y in [0, 2]; the line still meets y = 10 at x = 5.
    let f = intersection(seg((0, 0), (1, 2)), 10).unwrap();
    assert!(is_value(f, 5));
}

#[test]
fn intersection_vertical_any_y() {
    for y in [-100, 0, 1, 2, 1000] {
        let f = intersection(seg((3, 0), (3, 2)), y).unwrap();
        assert_eq!(f, Fraction { num: 3, den: 1 });
    }
    // A segment of one point is vertical too.
    assert_eq!(intersection(seg((7, 7), (7, 7)), 0), Some(Fraction { num: 7, den: 1 }));
}

#[test]
fn intersection_horizontal_is_none() {
    assert_eq!(intersection(seg((0, 1), (5, 1)), 3), None);
    assert_eq!(intersection(seg((0, 1), (5, 1)), 1), None);
}

#[test]
fn intersection_extreme_coordinates() {
    let f = intersection(seg((i32::MIN, i32::MIN), (i32::MAX, i32::MAX)), 0).unwrap();
    // The line is x = y, so at y = 0 the abscissa is 0.
    assert!(is_value(f, 0));
}

#[test]
fn edges_wrap_round() {
    let e = poly(&[(0, 0), (1, 0), (0, 1)]).edges();
    assert_eq!(e.len(), 3);
    assert_eq!(e[0], seg((0, 0), (1, 0)));
    assert_eq!(e[1], seg((1, 0), (0, 1)));
    assert_eq!(e[2], seg((0, 1), (0, 0)));
    assert!(poly(&[]).edges().is_empty());
}

#[test]
fn bounding_box_square() {
    assert_eq!(square().bounding_box(), Ok((0, 0, 2, 2)));
}

#[test]
fn bounding_box_mixed() {
    let p = poly(&[(3, -1), (-4, 7), (0, 2)]);
    assert_eq!(p.bounding_box(), Ok((-4, -1, 3, 7)));
}

#[test]
fn bounding_box_empty() {
    assert_eq!(poly(&[]).bounding_box(), Err(PolygonError::EmptyPolygon));
}

#[test]
fn centroid_square() {
    let (cx, cy) = square().centroid().unwrap();
    assert!(is_value(cx, 1));
    assert!(is_value(cy, 1));
    assert_eq!(cx, Fraction { num: 4, den: 4 });
}

#[test]
fn centroid_fractional() {
    let (cx, cy) = poly(&[(0, 0), (1, 0), (0, 1)]).centroid().unwrap();
    assert_eq!(cx, Fraction { num: 1, den: 3 });
    assert_eq!(cy, Fraction { num: 1, den: 3 });
}

#[test]
fn centroid_empty() {
    assert_eq!(poly(&[]).centroid(), Err(PolygonError::EmptyPolygon));
}

#[test]
fn centroid_extreme_values() {
    let (cx, _) = poly(&[(i32::MAX, 0), (i32::MAX, 0), (i32::MIN, 0)]).centroid().unwrap();
    assert_eq!(cx.num, 2 * i32::MAX as i128 + i32::MIN as i128);
    assert_eq!(cx.den, 3);
}

#[test]
fn scanline_crossings_counts_distinct_points() {
    let s = square();
    // The two vertical edges meet every scanline; the horizontal ones never.
    assert_eq!(s.scanline_crossings(1), 2);
    assert_eq!(s.scanline_crossings(50), 2);
    // A triangle: at the height of a vertex two edge lines meet there.
    let t = poly(&[(10, 1), (12, 3), (11, -3)]);
    assert_eq!(t.scanline_crossings(0), 3);
    assert_eq!(t.scanline_crossings(3), 2);
    assert_eq!(poly(&[]).scanline_crossings(0), 0);
}

#[test]
fn convex_hull_excludes_interior_point() {
    let p = poly(&[(0, 0), (2, 0), (2, 2), (0, 2), (1, 1)]);
    let h = p.convex_hull();
    assert!(!h.points.contains(&pt(1, 1)));
}

#[test]
fn convex_hull_of_convex_set_keeps_its_points() {
    let h = square().convex_hull();
    assert_eq!(h.points, vec![pt(0, 0), pt(0, 2), pt(2, 2), pt(2, 0), pt(0, 0)]);
    let mut inner: Vec<Point> = h.points[..h.points.len() - 1].to_vec();
    inner.sort();
    let mut corners = square().points;
    corners.sort();
    assert_eq!(inner, corners);
}

#[test]
fn convex_hull_of_convex_pentagon() {
    let p = poly(&[(0, 0), (4, 0), (5, 3), (2, 5), (-1, 3)]);
    let h = p.convex_hull();
    assert_eq!(h.points, vec![pt(0, 0), pt(-1, 3), pt(2, 5), pt(5, 3), pt(4, 0), pt(0, 0)]);
}

#[test]
fn convex_hull_closes_on_lowest_point() {
    let h = poly(&[(5, 3), (1, -2), (4, 8)]).convex_hull();
    assert_eq!(h.points.first(), Some(&pt(1, -2)));
    assert_eq!(h.points.last(), Some(&pt(1, -2)));
}

#[test]
fn convex_hull_single_and_empty() {
    assert_eq!(poly(&[(3, 4)]).convex_hull().points, vec![pt(3, 4), pt(3, 4)]);
    assert!(poly(&[]).convex_hull().points.is_empty());
}

/// Three edge lines that meet each of the square's scanlines in three
/// distinct points, away from the square.
fn far_triangle() -> Polygon {
    poly(&[(10, 1), (12, 3), (11, -3)])
}

#[test]
fn difference_with_clear_polygon_keeps_points() {
    let d = square().difference(&far_triangle());
    let mut got = d.points.clone();
    got.sort();
    let mut want = square().points;
    want.sort();
    assert_eq!(got, want);
    // Counter-clockwise round the centroid (1, 1), from the positive x axis.
    assert_eq!(d.points, vec![pt(2, 2), pt(0, 2), pt(0, 0), pt(2, 0)]);
}

#[test]
fn difference_drops_repeated_vertices() {
    let p = poly(&[(0, 0), (2, 0), (2, 0), (2, 2), (0, 2)]);
    assert_eq!(p.difference(&far_triangle()).points.len(), 4);
}

#[test]
fn difference_with_empty_polygon_flips_at_first_scanline() {
    // No edge meets any scanline: zero crossings is even, so the state flips
    // at each scanline and the first one (y = 0) is dropped.
    let d = square().difference(&poly(&[]));
    assert_eq!(d.points, vec![pt(2, 2), pt(0, 2)]);
}

#[test]
fn difference_of_empty_polygon() {
    assert!(poly(&[]).difference(&square()).points.is_empty());
}

#[test]
fn split_difference_with_empty_polygon() {
    let pieces = square().split_difference(&poly(&[]));
    assert_eq!(pieces.len(), 1);
    assert_eq!(pieces[0].points, vec![pt(2, 2), pt(0, 2)]);
}

#[test]
fn split_difference_gives_out_held_points() {
    // A doubled vertical edge at x = 5 meets every scanline once.
    let q = poly(&[(5, -10), (5, 10)]);
    let pieces = square().split_difference(&q);
    assert_eq!(pieces.len(), 4);
    assert_eq!(pieces[0].points.len(), 6);
    for p in &pieces[1..] {
        assert!(p.points.is_empty());
    }
}

fn sp(x: i128, y: i32) -> ScanPoint {
    ScanPoint { x: Fraction { num: x, den: 1 }, y }
}

#[test]
fn union_with_itself_is_vertex_set() {
    let u = square().union(&square());
    assert_eq!(u, vec![sp(0, 0), sp(0, 2), sp(2, 0), sp(2, 2)]);
}

#[test]
fn union_adds_scanline_crossings() {
    // The line through (0, 0) and (4, 1) meets the scanline y = 2 at x = 8.
    let p = poly(&[(0, 0), (4, 1), (0, 2)]);
    let u = p.union(&poly(&[]));
    assert!(u.iter().any(|q| q.y == 2 && q.x.num == 8 * q.x.den));
    assert!(u.contains(&sp(0, 0)) && u.contains(&sp(4, 1)) && u.contains(&sp(0, 2)));
    // Strictly increasing by value of x, then y.
    for w in u.windows(2) {
        let (a, b) = (w[0], w[1]);
        let (l, r) = (a.x.num * b.x.den, b.x.num * a.x.den);
        assert!(l < r || (l == r && a.y < b.y));
    }
}

#[test]
fn union_keeps_one_point_per_value() {
    let a = poly(&[(0, 0), (2, 0), (2, 2), (0, 2)]);
    let b = poly(&[(2, 0), (4, 0), (4, 2), (2, 2)]);
    let u = a.union(&b);
    assert_eq!(u, vec![sp(0, 0), sp(0, 2), sp(2, 0), sp(2, 2), sp(4, 0), sp(4, 2)]);
}

#[test]
fn union_of_empty_polygons() {
    assert!(poly(&[]).union(&poly(&[])).is_empty());
}

#[test]
fn convex_hull_length_is_bounded() {
    let p = poly(&[(0, 0), (2, 0), (2, 2), (0, 2), (1, 1), (1, 0), (0, 1)]);
    let h = p.convex_hull();
    assert!(h.points.len() <= 2 * p.points.len());
    assert!(!h.points.contains(&pt(1, 1)));
}

#[test]
fn convex_hull_interior_point_exact_result() {
    let p = poly(&[(0, 0), (2, 0), (2, 2), (0, 2), (1, 1)]);
    let mut inner: Vec<Point> = p.convex_hull().points;
    assert_eq!(inner.first(), inner.last());
    inner.pop();
    inner.sort();
    let mut corners = square().points;
    corners.sort();
    assert_eq!(inner, corners);
}
