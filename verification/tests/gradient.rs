use pigment::geometry::Size;
use pigment::gradient::{
    fill_axis, presets, EditColorStop, EditOpacityStop, GradientEditor, GradientType, Rgb8,
};
use pigment::scalar::Scalar;

fn s(x: f32) -> Scalar {
    Scalar::from_bits(x.to_bits())
}

fn f(x: Scalar) -> f32 {
    f32::from_bits(x.bits)
}

fn srgb_to_linear(c: f32) -> f32 {
    if c <= 0.04045 {
        c / 12.92
    } else {
        ((c + 0.055) / 1.055).powf(2.4)
    }
}

fn linear(x: Scalar) -> Scalar {
    s(srgb_to_linear(f(x)))
}

fn rgb(r: u8, g: u8, b: u8) -> Rgb8 {
    Rgb8 { r, g, b }
}

#[test]
fn editor_to_core_converts_srgb_to_linear() {
    let ed = GradientEditor {
        color_stops: vec![
            EditColorStop { pos: s(0.0), color: rgb(0, 0, 0) },
            EditColorStop { pos: s(1.0), color: rgb(255, 255, 255) },
        ],
        opacity_stops: vec![
            EditOpacityStop { pos: s(0.0), alpha: s(1.0) },
            EditOpacityStop { pos: s(1.0), alpha: s(0.25) },
        ],
        kind: GradientType::Radial,
        dither: false,
        fill_layer: true,
        sel_color: 0,
        sel_opacity: 0,
    };
    let g = ed.to_core(&linear);
    // Black stays 0, white stays 1 in linear; geometry and dither carry over.
    assert_eq!(g.color_stops.len(), 2);
    assert!(f(g.color_stops[0].color[0]).abs() < 1e-4);
    assert!((f(g.color_stops[1].color[0]) - 1.0).abs() < 1e-4);
    assert!((f(g.opacity_stops[1].alpha) - 0.25).abs() < 1e-4);
    assert_eq!(g.kind, GradientType::Radial);
    assert!(!g.dither);
}

#[test]
fn mid_gray_srgb_maps_to_linear() {
    let ed = GradientEditor {
        color_stops: vec![EditColorStop { pos: s(0.0), color: rgb(188, 188, 188) }],
        ..GradientEditor::default()
    };
    let g = ed.to_core(&linear);
    let expected = srgb_to_linear(188.0 / 255.0);
    assert!((f(g.color_stops[0].color[0]) - expected).abs() < 1e-4);
}

#[test]
fn load_preset_replaces_stops() {
    let mut ed = GradientEditor::default();
    ed.load_preset("Spectrum");
    assert_eq!(ed.color_stops.len(), 5);
    ed.load_preset("Black→White");
    assert_eq!(ed.color_stops.len(), 2);
    assert_eq!(ed.color_stops[0].color, rgb(0, 0, 0));
    // Unknown preset is a no-op.
    ed.load_preset("nope");
    assert_eq!(ed.color_stops.len(), 2);
}

#[test]
fn every_preset_is_found_by_its_name() {
    for p in presets() {
        let mut ed = GradientEditor::default();
        ed.sel_color = 1;
        ed.load_preset(p.name);
        assert_eq!(ed.color_stops, p.colors);
        assert_eq!(ed.opacity_stops, p.opacities);
        assert_eq!(ed.sel_color, 0);
    }
}

#[test]
fn stops_are_added_and_one_remains() {
    let mut ed = GradientEditor::default();
    ed.add_color_stop();
    // Half a turn on from the last one, which is at 1.
    assert_eq!(f(ed.color_stops[2].pos), 0.5);
    assert_eq!(ed.color_stops[2].color, rgb(20, 120, 230));
    ed.add_opacity_stop();
    assert_eq!(f(ed.opacity_stops[2].pos), 0.5);
    assert_eq!(f(ed.opacity_stops[2].alpha), 0.0);
    ed.remove_color_stop(1);
    ed.remove_color_stop(0);
    assert_eq!(ed.color_stops.len(), 1);
    ed.remove_color_stop(0);
    assert_eq!(ed.color_stops.len(), 1);
    ed.remove_opacity_stop(0);
    assert_eq!(ed.opacity_stops.len(), 2);
}

#[test]
fn fill_axis_crosses_the_middle() {
    let (a, b) = fill_axis(Size { width: 64, height: 30 });
    assert_eq!((f(a.x), f(a.y), f(b.x), f(b.y)), (0.0, 15.0, 64.0, 15.0));
}
