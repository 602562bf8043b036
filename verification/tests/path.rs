use pigment::geometry::{Point, Rect, Size};
use pigment::path::{can_fill, grab_frame, pen_frame, pick_reach, Handle, PenAction};
use pigment::scalar::Scalar;

fn s(x: f32) -> Scalar {
    Scalar::from_bits(x.to_bits())
}

fn wide(width: f32) -> Rect {
    let zero = Point { x: s(0.0), y: s(0.0) };
    Rect { min: zero, max: Point { x: s(width), y: s(1.0) } }
}

#[test]
fn the_reach_follows_the_zoom() {
    let size = Size { width: 100, height: 1 };
    // Two points per pixel.
    assert_eq!(pick_reach(wide(200.0), size), s(4.0));
    assert_eq!(pick_reach(wide(50.0), size), s(16.0));
    // At the least, a thousandth of a point per pixel.
    assert_eq!(pick_reach(wide(0.0), size), s(8.0 / 1e-3));
    assert_eq!(pick_reach(wide(4.0), Size { width: 0, height: 1 }), s(2.0));
}

#[test]
fn the_pen_shapes_open_paths() {
    let idle = PenAction { press: false, shape: false, click: false };
    // A press that becomes a drag.
    let (d, a) = pen_frame(false, true, true, false, false, false);
    assert_eq!((d, a), (true, PenAction { press: true, shape: true, click: false }));
    let (d, a) = pen_frame(d, false, true, false, false, false);
    assert_eq!((d, a), (true, PenAction { shape: true, ..idle }));
    let (d, a) = pen_frame(d, false, false, true, false, false);
    assert_eq!((d, a), (false, idle));
    // A press that closes the path shapes nothing.
    let (d, a) = pen_frame(false, true, true, false, false, true);
    assert_eq!((d, a), (false, PenAction { press: true, ..idle }));
    let (d, a) = pen_frame(d, false, true, false, false, true);
    assert_eq!((d, a), (false, idle));
    let (d, a) = pen_frame(d, false, false, false, true, false);
    assert_eq!((d, a), (false, PenAction { click: true, ..idle }));
}

#[test]
fn a_handle_is_held_until_it_is_let_go() {
    let h = Some(Handle { anchor: 3, part: 1 });
    let (held, moved) = grab_frame(None, true, h, true, false);
    assert_eq!((held, moved), (h, h));
    let (held, moved) = grab_frame(held, false, None, true, false);
    assert_eq!((held, moved), (h, h));
    let (held, moved) = grab_frame(held, false, None, false, true);
    assert_eq!((held, moved), (None, None));
    // A press beside the path holds nothing.
    assert_eq!(grab_frame(h, true, None, true, false), (None, None));
}

#[test]
fn two_anchors_can_be_filled() {
    assert!(!can_fill(0) && !can_fill(1) && can_fill(2));
}
