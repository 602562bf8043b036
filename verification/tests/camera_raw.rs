use pigment::camera_raw::{develop_pixel, l2s1, s2l1, smoothstep01, vignette_gain, CameraRaw};
use pigment::scalar::Scalar;

fn s(x: f32) -> Scalar {
    Scalar::from_bits(x.to_bits())
}

fn f(x: Scalar) -> f32 {
    f32::from_bits(x.bits)
}

fn pow(x: Scalar, y: Scalar) -> Scalar {
    s(f(x).powf(f(y)))
}

fn develop(cr: &CameraRaw, px: [f32; 3]) -> [f32; 3] {
    let out = develop_pixel(cr, [s(px[0]), s(px[1]), s(px[2])], &pow);
    [f(out[0]), f(out[1]), f(out[2])]
}

fn to_linear(d: f32) -> f32 {
    f(s2l1(&pow, s(d)))
}

fn gain(vignette: f32, dist: f32) -> f32 {
    f(vignette_gain(s(vignette), s(dist)))
}

// A linear value whose sRGB is about 0.5.
const MID: [f32; 3] = [0.214_041_14, 0.214_041_14, 0.214_041_14];

fn approx(a: f32, b: f32, eps: f32) -> bool {
    (a - b).abs() <= eps
}

// Identity params are a true per-pixel no-op, to the bit, for all channels.
#[test]
fn identity_is_noop() {
    let cr = CameraRaw::default();
    assert!(cr.is_identity());
    for px in [[0.0; 3], [1.0; 3], MID, [0.1, 0.5, 0.9]] {
        let out = develop(&cr, px);
        for k in 0..3 {
            assert!(approx(out[k], px[k], 1e-6), "identity changed ch{k}: {} -> {}", px[k], out[k]);
            assert_eq!(out[k].to_bits(), px[k].to_bits());
        }
    }
}

// Positive exposure brightens; negative darkens (linear gain).
#[test]
fn exposure_brightens_and_darkens() {
    let up = develop(&CameraRaw { exposure: s(1.0), ..Default::default() }, MID);
    let down = develop(&CameraRaw { exposure: s(-1.0), ..Default::default() }, MID);
    assert!(up[0] > MID[0] + 1e-3, "exposure +1 brightens: {}", up[0]);
    assert!(down[0] < MID[0] - 1e-3, "exposure -1 darkens: {}", down[0]);
    // +1 EV is about twice the linear midpoint.
    assert!(approx(up[0], MID[0] * 2.0, 1e-3));
}

// Contrast pivots about mid-gray.
#[test]
fn contrast_pivots_about_mid() {
    let cr = CameraRaw { contrast: s(50.0), ..Default::default() };
    let mid = develop(&cr, MID);
    assert!(approx(mid[0], MID[0], 2e-3), "mid pivot fixed: {}", mid[0]);
    let bright_in = [to_linear(0.75); 3];
    let dark_in = [to_linear(0.25); 3];
    let bright = develop(&cr, bright_in);
    let dark = develop(&cr, dark_in);
    assert!(bright[0] > bright_in[0], "contrast brightens highs");
    assert!(dark[0] < dark_in[0], "contrast darkens lows");
}

// Temperature warms (R up, B down) for +temp; green is unmoved by temp alone.
#[test]
fn temperature_warms_red_cools_blue() {
    let warm = develop(&CameraRaw { temp: s(60.0), ..Default::default() }, MID);
    assert!(warm[0] > MID[0], "temp+ raises red: {}", warm[0]);
    assert!(warm[2] < MID[2], "temp+ lowers blue: {}", warm[2]);
    assert!(approx(warm[1], MID[1], 1e-4), "temp leaves green: {}", warm[1]);
}

// Tint trades green against magenta: +tint raises R and B, lowers G.
#[test]
fn tint_shifts_green_magenta() {
    let mag = develop(&CameraRaw { tint: s(60.0), ..Default::default() }, MID);
    assert!(mag[0] > MID[0] && mag[2] > MID[2], "tint+ raises R&B");
    assert!(mag[1] < MID[1], "tint+ lowers green");
}

// Highlights affect bright tones much more than dark ones; shadows the reverse.
#[test]
fn highlights_and_shadows_hit_their_ranges() {
    let bright_in = [to_linear(0.85); 3];
    let dark_in = [to_linear(0.15); 3];
    let cr_h = CameraRaw { highlights: s(-80.0), ..Default::default() };
    let db = develop(&cr_h, bright_in)[0];
    let dd = develop(&cr_h, dark_in)[0];
    assert!(bright_in[0] - db > dark_in[0] - dd, "highlights bite the brights");
    assert!(db < bright_in[0], "highlights- darkens brights");
    let cr_s = CameraRaw { shadows: s(80.0), ..Default::default() };
    let sd = develop(&cr_s, dark_in)[0];
    let sb = develop(&cr_s, bright_in)[0];
    assert!(sd - dark_in[0] > sb - bright_in[0], "shadows lift the darks");
    assert!(sd > dark_in[0], "shadows+ brightens darks");
}

// Whites bite the extreme highlights, blacks the extreme shadows.
#[test]
fn whites_and_blacks_hit_extremes() {
    let near_white = [to_linear(0.95); 3];
    let near_black = [to_linear(0.05); 3];
    let mid = MID;
    let cr_w = CameraRaw { whites: s(-80.0), ..Default::default() };
    let dw = near_white[0] - develop(&cr_w, near_white)[0];
    let dm = mid[0] - develop(&cr_w, mid)[0];
    assert!(dw > dm, "whites move the extreme highlight more than mid");
    let cr_b = CameraRaw { blacks: s(80.0), ..Default::default() };
    let dbk = develop(&cr_b, near_black)[0] - near_black[0];
    let dbm = develop(&cr_b, mid)[0] - mid[0];
    assert!(dbk > dbm, "blacks move the extreme shadow more than mid");
}

// Saturation pushes a colour away from or toward its gray; vibrance does too, but
// weighted toward less saturated colours.
#[test]
fn saturation_and_vibrance_behave() {
    let muted = [to_linear(0.5), to_linear(0.45), to_linear(0.4)];
    let vivid = [to_linear(0.9), to_linear(0.2), to_linear(0.2)];
    let spread = |p: [f32; 3]| {
        p.iter().cloned().fold(f32::MIN, f32::max) - p.iter().cloned().fold(f32::MAX, f32::min)
    };
    let sat = develop(&CameraRaw { saturation: s(60.0), ..Default::default() }, muted);
    assert!(spread(sat) > spread(muted), "saturation+ widens chroma");
    let desat = develop(&CameraRaw { saturation: s(-100.0), ..Default::default() }, vivid);
    assert!(spread(desat) < spread(vivid) - 0.1, "saturation- mutes");
    let vib = CameraRaw { vibrance: s(80.0), ..Default::default() };
    let rm = spread(develop(&vib, muted)) / spread(muted);
    let rv = spread(develop(&vib, vivid)) / spread(vivid);
    assert!(rm > rv, "vibrance favours the muted colour: {rm} vs {rv}");
}

// Negative darkens the corner more than the center; positive lightens it. Zero is
// identity everywhere.
#[test]
fn vignette_darkens_corners_more_than_center() {
    assert!(approx(gain(0.0, 1.0), 1.0, 1e-9));
    assert!(approx(gain(-80.0, 0.0), 1.0, 1e-9));
    assert!(approx(gain(80.0, 0.0), 1.0, 1e-9));
    let corner = gain(-80.0, 1.0);
    let midr = gain(-80.0, 0.5);
    assert!(corner < midr, "corner darker than mid radius: {corner} {midr}");
    assert!(midr < 1.0, "mid radius darkened: {midr}");
    assert!(gain(80.0, 1.0) > 1.0);
}

// The extended parameters hold every control losslessly.
#[test]
fn ext_round_trips() {
    let cr = CameraRaw {
        temp: s(10.0),
        tint: s(-5.0),
        exposure: s(0.5),
        contrast: s(25.0),
        highlights: s(-30.0),
        shadows: s(40.0),
        whites: s(12.0),
        blacks: s(-8.0),
        vibrance: s(60.0),
        saturation: s(-20.0),
        vignette: s(-45.0),
    };
    assert_eq!(CameraRaw::from_ext(cr.to_ext()), cr);
    assert_eq!(cr.shader_params(), cr.to_ext());
    assert!(!cr.is_identity());
}

#[test]
fn vignette_has_exact_values() {
    // 1 + (-0.8) * 0.25 and 1 + 0.5 * 1, in single precision.
    assert_eq!(gain(-80.0, 0.5), 1.0 + (-80.0f32 / 100.0) * 0.5 * 0.5);
    assert_eq!(gain(50.0, 2.0), 1.5);
    // Never below zero.
    assert_eq!(gain(-250.0, 1.0), 0.0);
}

#[test]
fn smoothstep_is_limited() {
    for (t, want) in [(-1.0, 0.0), (0.0, 0.0), (0.5, 0.5), (1.0, 1.0), (3.0, 1.0), (0.25, 0.15625)] {
        assert_eq!(f(smoothstep01(s(t))), want);
    }
}

#[test]
fn transfer_has_its_linear_part() {
    assert_eq!(f(l2s1(&pow, s(0.001))), 0.001f32 * 12.92);
    assert_eq!(f(s2l1(&pow, s(0.02))), 0.02f32 / 12.92);
    assert!(approx(f(l2s1(&pow, s(1.0))), 1.0, 1e-6));
    assert!(approx(f(s2l1(&pow, s(0.5))), 0.214_041_14, 1e-6));
}

// On every channel of a coloured pixel, not of a grey one alone.
#[test]
fn white_balance_goes_one_way() {
    let px = [0.125, 0.25, 0.5];
    let warm = develop(&CameraRaw { temp: s(40.0), ..CameraRaw::default() }, px);
    let cool = develop(&CameraRaw { temp: s(-40.0), ..CameraRaw::default() }, px);
    assert!(warm[0] > px[0] && warm[2] < px[2] && approx(warm[1], px[1], 1e-5));
    assert!(cool[0] < px[0] && cool[2] > px[2] && approx(cool[1], px[1], 1e-5));
    let magenta = develop(&CameraRaw { tint: s(100.0), ..CameraRaw::default() }, px);
    assert!(magenta[0] > px[0] && magenta[1] < px[1] && magenta[2] > px[2]);
}

#[test]
fn a_vignette_goes_one_way_everywhere() {
    for i in 0..=8 {
        let dist = i as f32 / 8.0;
        assert!(gain(-60.0, dist) <= 1.0);
        assert!(gain(60.0, dist) >= 1.0);
    }
    assert_eq!(gain(-100.0, 1.0), 0.0);
    assert_eq!(gain(-1000.0, 1.0), 0.0);
}

// The vignette is positional: a single pixel does not know of it, to the bit.
#[test]
fn vignette_is_not_per_pixel() {
    let px = [-1.0, 0.3, 2.0];
    let only = CameraRaw { vignette: s(50.0), ..CameraRaw::default() };
    assert!(!only.is_identity());
    assert_eq!(develop(&only, px), px);
    let plain = CameraRaw { contrast: s(30.0), temp: s(-10.0), ..CameraRaw::default() };
    let both = CameraRaw { vignette: s(-80.0), ..plain };
    assert_eq!(develop(&plain, px).map(f32::to_bits), develop(&both, px).map(f32::to_bits));
}
