use pigment::pattern::{capture, pattern_texel, tile_fill, Pattern};
use pigment::scalar::Scalar;

fn s(x: f32) -> Scalar {
    Scalar::from_bits(x.to_bits())
}

fn f(x: Scalar) -> f32 {
    f32::from_bits(x.bits)
}

fn texel(dx: u32, dy: u32, tw: u32, th: u32, scale: f32, offset: (f32, f32)) -> (u32, u32) {
    pattern_texel(dx, dy, tw, th, s(scale), (s(offset.0), s(offset.1)))
}

fn scalars(v: &[f32]) -> Vec<Scalar> {
    v.iter().map(|x| s(*x)).collect()
}

fn fill(
    base: &mut Vec<f32>,
    pat: &Pattern,
    w: u32,
    h: u32,
    scale: f32,
    offset: (f32, f32),
    sel: Option<&[f32]>,
) {
    let mut px = scalars(base);
    let sel = sel.map(scalars);
    tile_fill(&mut px, pat, w, h, s(scale), (s(offset.0), s(offset.1)), sel.as_deref());
    *base = px.into_iter().map(f).collect();
}

#[test]
fn texel_wraps_beyond_tile_size() {
    // A 4×4 tile at scale 1, no offset: dest wraps mod 4.
    assert_eq!(texel(0, 0, 4, 4, 1.0, (0.0, 0.0)), (0, 0));
    assert_eq!(texel(3, 3, 4, 4, 1.0, (0.0, 0.0)), (3, 3));
    assert_eq!(texel(4, 5, 4, 4, 1.0, (0.0, 0.0)), (0, 1));
    assert_eq!(texel(9, 4, 4, 4, 1.0, (0.0, 0.0)), (1, 0));
}

#[test]
fn texel_offset_shifts_origin() {
    // Offset of (2,0) moves the tile right by 2: dest 2 → texel 0.
    assert_eq!(texel(2, 0, 4, 4, 1.0, (2.0, 0.0)), (0, 0));
    assert_eq!(texel(1, 0, 4, 4, 1.0, (2.0, 0.0)), (3, 0)); // -1 wraps to 3
}

#[test]
fn texel_scale_zooms_tile() {
    // Scale 2: each tile texel covers 2 dest px, so dest 0,1 → texel 0.
    assert_eq!(texel(0, 0, 4, 4, 2.0, (0.0, 0.0)), (0, 0));
    assert_eq!(texel(1, 0, 4, 4, 2.0, (0.0, 0.0)), (0, 0));
    assert_eq!(texel(2, 0, 4, 4, 2.0, (0.0, 0.0)), (1, 0));
    assert_eq!(texel(8, 0, 4, 4, 2.0, (0.0, 0.0)), (0, 0)); // wraps
}

#[test]
fn texel_degenerate_tile_is_origin() {
    assert_eq!(texel(5, 5, 0, 0, 1.0, (0.0, 0.0)), (0, 0));
}

// A 2×2 opaque checker tile over a 4×4 destination gives the checker exactly.
#[test]
fn checker_tile_reproduces_checker() {
    let white = [1.0, 1.0, 1.0, 1.0];
    let black = [0.0, 0.0, 0.0, 1.0];
    let mut px = vec![0.0f32; 2 * 2 * 4];
    for y in 0..2u32 {
        for x in 0..2u32 {
            let c = if (x + y) % 2 == 0 { white } else { black };
            let i = ((y * 2 + x) * 4) as usize;
            px[i..i + 4].copy_from_slice(&c);
        }
    }
    let pat = Pattern { w: 2, h: 2, px: scalars(&px) };
    let mut base = vec![0.0f32; 4 * 4 * 4];
    fill(&mut base, &pat, 4, 4, 1.0, (0.0, 0.0), None);
    for y in 0..4u32 {
        for x in 0..4u32 {
            let i = ((y * 4 + x) * 4) as usize;
            let expect = if (x + y) % 2 == 0 { 1.0 } else { 0.0 };
            assert!(
                (base[i] - expect).abs() < 1e-6,
                "checker mismatch at ({x},{y}): got {} want {expect}",
                base[i]
            );
            assert!((base[i + 3] - 1.0).abs() < 1e-6); // opaque everywhere
        }
    }
}

// Pixels outside the selection are left alone, pixels inside take the pattern.
#[test]
fn selection_gates_fill() {
    let pat = Pattern { w: 1, h: 1, px: scalars(&[1.0, 0.0, 0.0, 1.0]) };
    let (w, h) = (3u32, 2u32);
    let mut base = vec![0.5f32; (w * h * 4) as usize];
    // Select only the left column.
    let mut sel = vec![0.0f32; (w * h) as usize];
    for y in 0..h {
        sel[(y * w) as usize] = 1.0;
    }
    fill(&mut base, &pat, w, h, 1.0, (0.0, 0.0), Some(&sel));
    for y in 0..h {
        for x in 0..w {
            let i = ((y * w + x) * 4) as usize;
            if x == 0 {
                assert!((base[i] - 1.0).abs() < 1e-6); // red R inside
                assert!(base[i + 1].abs() < 1e-6);
            } else {
                assert!((base[i] - 0.5).abs() < 1e-6); // untouched outside
                assert!((base[i + 1] - 0.5).abs() < 1e-6);
            }
        }
    }
}

// Partial coverage blends in proportion.
#[test]
fn partial_coverage_blends() {
    let pat = Pattern { w: 1, h: 1, px: scalars(&[1.0, 1.0, 1.0, 1.0]) };
    let mut base = vec![0.0f32, 0.0, 0.0, 1.0];
    let sel = vec![0.5f32];
    fill(&mut base, &pat, 1, 1, 1.0, (0.0, 0.0), Some(&sel));
    // Half coverage of white over black is half gray, alpha stays 1.
    assert!((base[0] - 0.5).abs() < 1e-6);
    assert!((base[3] - 1.0).abs() < 1e-6);
}

// A captured tile, laid where it was captured, gives the pixels back.
#[test]
fn captured_tile_refills_its_place() {
    let (w, h) = (4u32, 3u32);
    let px: Vec<f32> = (0..w * h).flat_map(|i| [i as f32 / 16.0, 0.25, 0.5, 1.0]).collect();
    let mut sel = vec![0.0f32; (w * h) as usize];
    for y in 1..3 {
        for x in 1..3 {
            sel[(y * w + x) as usize] = 1.0;
        }
    }
    let tile = capture(&scalars(&px), w, h, Some(&scalars(&sel))).unwrap();
    assert_eq!((tile.w, tile.h), (2, 2));
    let mut base = vec![0.0f32; (w * h * 4) as usize];
    fill(&mut base, &tile, w, h, 1.0, (1.0, 1.0), Some(&sel));
    for i in 0..(w * h) as usize {
        let want = if sel[i] > 0.5 { px[i * 4] } else { 0.0 };
        assert_eq!(base[i * 4], want);
    }
    // Nothing selected, nothing captured.
    assert!(capture(&scalars(&px), w, h, Some(&scalars(&vec![0.0; 12]))).is_none());
    // Without a selection the whole layer is the tile.
    let whole = capture(&scalars(&px), w, h, None).unwrap();
    assert_eq!((whole.w, whole.h), (w, h));
    assert_eq!(whole.px, scalars(&px));
}
