use pigment::canvas::{canvas_uniform, to_clip};
use pigment::geometry::{
    clamp_seed, compute_xform, dirty_rect, doc_to_screen, expand_dirty, screen_to_doc,
    send_layer_xform, Point, Rect, Size, ViewTransform,
};
use pigment::histogram::bars;
use pigment::scalar::Scalar;

fn s(x: f32) -> Scalar {
    Scalar::from_bits(x.to_bits())
}

fn f(x: Scalar) -> f32 {
    f32::from_bits(x.bits)
}

fn at(x: f32, y: f32) -> Point {
    Point { x: s(x), y: s(y) }
}

fn size(width: u32, height: u32) -> Size {
    Size { width, height }
}

fn rect(x0: f32, y0: f32, x1: f32, y1: f32) -> Rect {
    Rect { min: at(x0, y0), max: at(x1, y1) }
}

// The drag-stop (bake) frame must still send the affine even though the drag is
// no longer "active".
#[test]
fn affine_sent_on_bake_frame() {
    // Mid-drag: active, not yet baking.
    assert!(send_layer_xform(true, false));
    // Drag-stop / bake frame: active was just cleared, but bake is set.
    assert!(send_layer_xform(false, true));
    // Both set (defensive).
    assert!(send_layer_xform(true, true));
    // Idle frame: nothing to send.
    assert!(!send_layer_xform(false, false));
}

// A pure +half-width translate maps to a layer-from-canvas offset of -0.5.
#[test]
fn translate_maps_to_uv_offset() {
    let (m, off) = compute_xform(at(50.0, 0.0), s(1.0), size(100, 50));
    assert_eq!(m.map(f), [1.0, 0.0, 0.0, 1.0]);
    assert!((f(off[0]) - -0.5).abs() < 1e-6, "off.x = {}", f(off[0]));
    assert!(f(off[1]).abs() < 1e-6, "off.y = {}", f(off[1]));
}

#[test]
fn zooming_keeps_the_anchor_and_the_limits() {
    let mut v = ViewTransform::default();
    v.zoom_to(s(2.0), at(10.0, -4.0));
    assert_eq!(f(v.zoom), 2.0);
    assert_eq!(v.pan, at(-10.0, 4.0));
    v.zoom_to(s(1000.0), at(0.0, 0.0));
    assert_eq!(f(v.zoom), 64.0);
    v.zoom_to(s(1e-9), at(0.0, 0.0));
    assert_eq!(f(v.zoom), 0.02);
    assert_eq!(v.percent(), 2);
    v.pan_by(at(1.0, 2.0));
    // About its middle the document stays where it is.
    let pan = v.pan;
    v.zoom_to(s(3.7), pan);
    assert_eq!(v.pan, pan);
    v.zoom = s(1.005);
    assert_eq!(v.percent(), 101);
}

#[test]
fn fitting_fills_the_viewport_but_for_a_margin() {
    let mut v = ViewTransform::default();
    v.pan = at(7.0, 7.0);
    v.fit(rect(0.0, 0.0, 200.0, 100.0), size(100, 100));
    assert_eq!(v.pan, at(0.0, 0.0));
    assert_eq!(f(v.zoom), 0.95);
    let r = v.doc_rect(at(100.0, 50.0), size(100, 100));
    assert_eq!((f(r.min.x), f(r.max.x), f(r.min.y), f(r.max.y)), (52.5, 147.5, 2.5, 97.5));
    let before = v.zoom;
    v.fit(rect(0.0, 0.0, 200.0, 100.0), size(0, 100));
    assert_eq!(v.zoom, before);
}

#[test]
fn positions_go_between_screen_and_document() {
    let doc = rect(10.0, 20.0, 110.0, 70.0);
    let d = screen_to_doc(at(60.0, 45.0), doc, size(200, 100));
    assert_eq!(d, at(100.0, 50.0));
    assert_eq!(doc_to_screen(d, doc, size(200, 100)), at(60.0, 45.0));
    assert_eq!(clamp_seed(at(3.9, 0.0), size(4, 4)), Some((3, 0)));
    assert_eq!(clamp_seed(at(4.0, 0.0), size(4, 4)), None);
    assert_eq!(clamp_seed(at(-0.1, 0.0), size(4, 4)), None);
}

#[test]
fn the_touched_box_grows_and_is_clipped() {
    let b = expand_dirty(None, at(5.0, 5.0), s(2.5));
    let b = expand_dirty(Some(b), at(1.0, 9.0), s(2.5));
    assert_eq!(b.lo, at(-1.5, 2.5));
    assert_eq!(b.hi, at(7.5, 11.5));
    assert_eq!(dirty_rect(Some(b), size(20, 10)), [0, 2, 8, 8]);
    assert_eq!(dirty_rect(None, size(20, 10)), [0, 0, 20, 10]);
    // At least one pixel, even where the box is off the canvas.
    let off = expand_dirty(None, at(-50.0, 5.0), s(1.0));
    assert_eq!(dirty_rect(Some(off), size(20, 10)), [0, 4, 1, 2]);
    let right = expand_dirty(None, at(21.0, 5.0), s(1.0));
    assert_eq!(dirty_rect(Some(right), size(10, 10)), [9, 4, 1, 2]);
    let below = expand_dirty(None, at(5.0, 1e12), s(1.0));
    assert_eq!(dirty_rect(Some(below), size(10, 10)), [4, 9, 2, 1]);
    // An odd width that has no scalar of its own is not exceeded.
    let wide = expand_dirty(None, at(1e9, 0.5), s(2e9));
    assert_eq!(dirty_rect(Some(wide), size(16_777_217, 1)), [0, 0, 16_777_217, 1]);
}

#[test]
fn positions_return_up_to_rounding() {
    let doc = rect(-37.3, 12.7, 911.1, 702.9);
    let canvas = size(1280, 801);
    for p in [at(0.1, 13.3), at(640.7, 399.9), at(-512.3, 1e4)] {
        let back = doc_to_screen(screen_to_doc(p, doc, canvas), doc, canvas);
        let start = doc.min;
        for (r, v, o) in [(back.x, p.x, start.x), (back.y, p.y, start.y)] {
            let bound = (f(v).abs() + 10.0 * (f(v) - f(o)).abs()) / 16_777_216.0;
            assert!((f(r) - f(v)).abs() <= bound);
        }
    }
    for d in [at(0.1, 13.3), at(640.7, 399.9), at(1279.9, 800.1)] {
        let back = screen_to_doc(doc_to_screen(d, doc, canvas), doc, canvas);
        assert!((f(back.x) - f(d.x)).abs() < 1e-3 && (f(back.y) - f(d.y)).abs() < 1e-3);
    }
    // The corners of the document are those of its box.
    assert_eq!(doc_to_screen(at(0.0, 0.0), doc, canvas), doc.min);
    let corner = doc_to_screen(at(1280.0, 801.0), doc, canvas);
    assert!((f(corner.x) - 911.1).abs() < 1e-3 && (f(corner.y) - 702.9).abs() < 1e-3);
}

// What is under the cursor, in document pixels from the middle, stays there.
#[test]
fn the_anchor_stays_under_the_cursor() {
    let mut v = ViewTransform { pan: at(31.7, -88.1), zoom: s(0.73) };
    let anchor = at(-212.3, 97.9);
    let under = |v: &ViewTransform| {
        let z = f(v.zoom);
        ((f(anchor.x) - f(v.pan.x)) / z, (f(anchor.y) - f(v.pan.y)) / z)
    };
    let before = under(&v);
    for factor in [1.1, 3.0, 0.2, 0.9] {
        v.zoom_to(s(factor), anchor);
        let now = under(&v);
        assert!((now.0 - before.0).abs() < 1e-3 && (now.1 - before.1).abs() < 1e-3);
    }
}

#[test]
fn the_screen_is_clip_space() {
    let screen = [800, 600];
    assert_eq!(to_clip(at(0.0, 0.0), s(2.0), screen), at(-1.0, 1.0));
    assert_eq!(to_clip(at(400.0, 300.0), s(2.0), screen), at(1.0, -1.0));
    let u = canvas_uniform(rect(200.0, 150.0, 400.0, 300.0), s(10.0), s(2.0), screen);
    assert_eq!(u.clip_min, at(0.0, 0.0));
    assert_eq!(u.clip_max, at(1.0, -1.0));
    assert_eq!(f(u.checker_px), 20.0);
}

#[test]
fn bars_are_scaled_to_the_tallest() {
    let r = bars(&vec![0, 2, 4, 1], rect(10.0, 0.0, 30.0, 64.0));
    let got: Vec<(f32, f32)> = r.into_iter().map(|(x, h)| (f(x), f(h))).collect();
    assert_eq!(got, [(10.0, 0.0), (15.0, 32.0), (20.0, 64.0), (25.0, 16.0)]);
    assert!(bars(&vec![], rect(0.0, 0.0, 1.0, 1.0)).is_empty());
    assert_eq!(bars(&vec![0], rect(0.0, 0.0, 1.0, 1.0)), vec![(s(0.0), s(0.0))]);
}
