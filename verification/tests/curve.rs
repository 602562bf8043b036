use pigment::curve::{delete_knot, drag_knot, grab_knot, to_norm, to_screen};
use pigment::geometry::{Point, Rect};
use pigment::scalar::Scalar;

fn s(x: f32) -> Scalar {
    Scalar::from_bits(x.to_bits())
}

fn f(x: Scalar) -> f32 {
    f32::from_bits(x.bits)
}

fn at(x: f32, y: f32) -> Point {
    Point { x: s(x), y: s(y) }
}

fn dist(a: Point, b: Point) -> Scalar {
    s((f(a.x) - f(b.x)).hypot(f(a.y) - f(b.y)))
}

fn area() -> Rect {
    Rect { min: at(0.0, 0.0), max: at(128.0, 128.0) }
}

fn line() -> Vec<(Scalar, Scalar)> {
    vec![(s(0.0), s(0.0)), (s(1.0), s(1.0))]
}

#[test]
fn knots_are_shown_upwards() {
    assert_eq!(to_screen((s(0.25), s(0.75)), area()), at(32.0, 32.0));
    assert_eq!(to_norm(at(32.0, 32.0), area()), (s(0.25), s(0.75)));
    assert_eq!(to_norm(at(-5.0, 500.0), area()), (s(0.0), s(0.0)));
}

#[test]
fn a_knot_is_grabbed_or_added() {
    let mut pts = line();
    // Near the end of the line.
    assert_eq!(grab_knot(&mut pts, area(), at(120.0, 5.0), &dist), 1);
    assert_eq!(pts.len(), 2);
    // Far from any knot: a new one, in its place.
    assert_eq!(grab_knot(&mut pts, area(), at(64.0, 32.0), &dist), 1);
    assert_eq!(pts, vec![(s(0.0), s(0.0)), (s(0.5), s(0.75)), (s(1.0), s(1.0))]);
    assert_eq!(grab_knot(&mut pts, area(), at(32.0, 32.0), &dist), 1);
    assert_eq!(pts.len(), 4);
    // The nearest of two.
    assert_eq!(grab_knot(&mut pts, area(), at(60.0, 32.0), &dist), 2);
}

#[test]
fn ends_are_pinned_and_knots_do_not_cross() {
    let mut pts = vec![(s(0.0), s(0.0)), (s(0.5), s(0.5)), (s(1.0), s(1.0))];
    drag_knot(&mut pts, 0, area(), at(64.0, 64.0));
    assert_eq!(pts[0], (s(0.0), s(0.5)));
    drag_knot(&mut pts, 2, area(), at(64.0, 0.0));
    assert_eq!(pts[2], (s(1.0), s(1.0)));
    drag_knot(&mut pts, 1, area(), at(500.0, 128.0));
    assert_eq!(f(pts[1].0), 1.0 - 1e-3);
    assert_eq!(f(pts[1].1), 0.0);
    drag_knot(&mut pts, 1, area(), at(-500.0, 128.0));
    assert_eq!(f(pts[1].0), 1e-3);
}

#[test]
fn only_knots_between_the_ends_are_deleted() {
    let mut pts = vec![(s(0.0), s(0.0)), (s(0.5), s(0.5)), (s(1.0), s(1.0))];
    delete_knot(&mut pts, area(), at(0.0, 128.0), &dist);
    assert_eq!(pts.len(), 3);
    delete_knot(&mut pts, area(), at(64.0, 77.0), &dist);
    assert_eq!(pts.len(), 3); // 13 away
    delete_knot(&mut pts, area(), at(64.0, 70.0), &dist);
    assert_eq!(pts, line());
    delete_knot(&mut pts, area(), at(0.0, 128.0), &dist);
    assert_eq!(pts, line());
}

/// At least two knots, in order, in the unit square, from 0 to 1.
fn is_curve(pts: &[(Scalar, Scalar)]) -> bool {
    let unit = |v: Scalar| (0.0..=1.0).contains(&f(v));
    pts.len() >= 2
        && pts.iter().all(|p| unit(p.0) && unit(p.1))
        && pts.windows(2).all(|w| f(w[0].0) <= f(w[1].0))
        && f(pts[0].0) == 0.0
        && f(pts[pts.len() - 1].0) == 1.0
}

#[test]
fn a_curve_stays_a_curve() {
    let mut pts = line();
    // Presses on the very edges and outside the box.
    for p in [at(0.0, 64.0), at(128.0, 64.0), at(-9.0, -9.0), at(300.0, 300.0), at(64.0, 20.0)] {
        let i = grab_knot(&mut pts, area(), p, &dist);
        assert!(i < pts.len() && is_curve(&pts));
    }
    let last = pts.len() - 1;
    for p in [at(50.0, -10.0), at(90.0, 500.0)] {
        drag_knot(&mut pts, 0, area(), p);
        drag_knot(&mut pts, last, area(), p);
        assert!(is_curve(&pts));
    }
    while pts.len() > 2 {
        let shown = to_screen(pts[1], area());
        delete_knot(&mut pts, area(), shown, &dist);
        assert!(is_curve(&pts));
    }
}
