use pigment::color::{
    color_to_srgba, fill_pixel, region_of, rgba8_to_f16_bytes, sample_color, selection_of,
    srgba_to_color, to_byte, to_rgba8,
};
use pigment::gradient::Rgb8;
use pigment::grid::{flip, reposition};
use pigment::half_float::f16_bytes_to_f32;
use pigment::mask::{coverage_bounds, shape_mask};
use pigment::scalar::Scalar;
use pigment::text::{decimal, numbered};

fn s(x: f32) -> Scalar {
    Scalar::from_bits(x.to_bits())
}

fn f(x: Scalar) -> f32 {
    f32::from_bits(x.bits)
}

fn same(x: Scalar) -> Scalar {
    x
}

// A picked colour is multiplied by its alpha, as the colour picker does.
#[test]
fn picked_colours_are_multiplied_by_alpha() {
    assert_eq!(srgba_to_color([s(1.0), s(0.5), s(0.0), s(1.0)]), [255, 127, 0, 255]);
    assert_eq!(srgba_to_color([s(1.0), s(0.5), s(0.25), s(0.0)]), [0, 0, 0, 0]);
    // 255 and 127 at an alpha of 127.
    assert_eq!(srgba_to_color([s(1.0), s(0.5), s(0.0), s(0.5)]), [127, 63, 0, 127]);
    assert_eq!(srgba_to_color([s(-1.0), s(9.0), s(f32::NAN), s(1.0)]), [0, 255, 0, 255]);
    for a in 1..255u8 {
        for v in [0u8, 1, 100, 127, 128, 254, 255] {
            let c = color_to_srgba([v, 255 - v, v / 2, a]);
            let got = srgba_to_color(c);
            let fade = |x: u8| (x as f32 * (a as f32 / 255.0) + 0.5) as u8;
            assert_eq!(got, [fade(v), fade(255 - v), fade(v / 2), a], "{v} at {a}");
        }
    }
}

#[test]
fn every_opaque_colour_survives() {
    for v in 0..=255u8 {
        let c = [v, 255 - v, v ^ 0x55, 255];
        assert_eq!(srgba_to_color(color_to_srgba(c)), c);
    }
}

#[test]
fn bytes_become_premultiplied_light() {
    let bytes = rgba8_to_f16_bytes(&[255, 0, 51, 255, 255, 255, 255, 0, 9], &same);
    let px: Vec<f32> = f16_bytes_to_f32(&bytes).into_iter().map(f).collect();
    // A pixel that is not whole is left out.
    assert_eq!(px.len(), 8);
    assert_eq!(px[0], 1.0);
    assert!((px[2] - 0.2).abs() < 1e-3);
    assert_eq!(px[4..8], [0.0; 4]);
    let px = [s(0.25), s(0.5), s(0.0), s(0.5)];
    assert_eq!(to_rgba8(&px, &same), vec![128, 255, 0, 128]);
    assert_eq!(to_byte(s(0.5)), 128);
    assert_eq!(to_byte(s(2.0)), 255);
    assert_eq!(
        fill_pixel(Rgb8 { r: 255, g: 0, b: 255 }, s(0.5), &same).map(f),
        [0.5, 0.0, 0.5, 0.5]
    );
    assert_eq!(
        sample_color([s(0.25), s(0.5), s(0.0), s(0.5)], &same),
        Some(Rgb8 { r: 128, g: 255, b: 0 })
    );
    assert_eq!(sample_color([s(0.25), s(0.5), s(0.0), s(0.0)], &same), None);
}

#[test]
fn a_region_survives_as_a_selection() {
    let region = vec![true, false, true];
    let sel = selection_of(&region);
    assert_eq!(sel, vec![s(1.0), s(0.0), s(1.0)]);
    assert_eq!(region_of(&sel), region);
    assert_eq!(region_of(&[s(0.5), s(0.51)]), vec![false, true]);
}

#[test]
fn bounds_enclose_what_is_covered() {
    let mut sel = vec![s(0.0); 20];
    assert!(coverage_bounds(&sel, 5, 4, s(0.5)).is_none());
    sel[5 + 2] = s(0.9);
    sel[2 * 5 + 4] = s(0.6);
    sel[3 * 5] = s(0.5);
    let b = coverage_bounds(&sel, 5, 4, s(0.5)).unwrap();
    assert_eq!((b.x0, b.y0, b.x1, b.y1), (2, 1, 5, 3));
}

#[test]
fn marquees_select_pixel_middles() {
    let m = shape_mask([s(0.5), s(0.0), s(2.0), s(1.0)], false, 4, 2);
    let got: Vec<f32> = m.into_iter().map(f).collect();
    assert_eq!(got, [1.0, 1.0, 1.0, 0.0, 0.0, 0.0, 0.0, 0.0]);
    let m = shape_mask([s(0.0), s(0.0), s(4.0), s(4.0)], true, 4, 4);
    let got: Vec<f32> = m.into_iter().map(f).collect();
    assert_eq!(
        got,
        [0.0, 1.0, 1.0, 0.0, 1.0, 1.0, 1.0, 1.0, 1.0, 1.0, 1.0, 1.0, 0.0, 1.0, 1.0, 0.0]
    );
}

#[test]
fn a_window_of_an_image() {
    let px: Vec<Scalar> = (0..4).flat_map(|i| [s(i as f32); 4]).collect();
    // Two by two, seen from one to the left and one up.
    let w: Vec<f32> = reposition(&px, 2, 2, 2, 2, -1, -1).into_iter().map(f).collect();
    assert_eq!(w[12..16], [0.0; 4]);
    let w: Vec<f32> = reposition(&px, 2, 2, 1, 2, 1, 0).into_iter().map(f).collect();
    assert_eq!(w, [1.0, 1.0, 1.0, 1.0, 3.0, 3.0, 3.0, 3.0]);
    assert_eq!(reposition(&px, 2, 2, 2, 2, 0, 0), px);
    let back = flip(&flip(&px, 2, 2, false), 2, 2, false);
    assert_eq!(back, px);
}

#[test]
fn numbers_are_written_out() {
    for n in [0usize, 7, 10, 99, 100, 12345, usize::MAX] {
        assert_eq!(decimal(n), n.to_string());
    }
    assert_eq!(numbered("Layer ", 12), "Layer 12");
}
