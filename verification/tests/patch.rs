use pigment::geometry::Point;
use pigment::half_float::{f16_bytes_to_f32, f32_to_f16_bytes};
use pigment::mask::translate_mask;
use pigment::retouch::{aligned_source, clip_region, clone_job, straight_pixels, stored_bytes};
use pigment::scalar::Scalar;
use pigment::tools::{centroid, Lasso, Patch};

fn s(x: f32) -> Scalar {
    Scalar::from_bits(x.to_bits())
}

fn f(x: Scalar) -> f32 {
    f32::from_bits(x.bits)
}

fn scalars(v: &[f32]) -> Vec<Scalar> {
    v.iter().map(|x| s(*x)).collect()
}

fn length(p: Point) -> Scalar {
    s(f(p.x).hypot(f(p.y)))
}

fn at(x: f32, y: f32) -> Point {
    Point { x: s(x), y: s(y) }
}

/// Blend `src` into the masked part of `dest`: keep its differences, and meet the
/// surroundings at the edge.
fn seamless_clone(
    dest: &[f32],
    src: &[f32],
    mask: &[bool],
    w: usize,
    h: usize,
    iters: usize,
) -> Vec<f32> {
    let mut out = dest.to_vec();
    for _ in 0..iters {
        for y in 0..h {
            for x in 0..w {
                let p = y * w + x;
                if !mask[p] {
                    continue;
                }
                for c in 0..3 {
                    let (mut sum, mut n) = (0.0f32, 0.0f32);
                    let mut near = Vec::new();
                    if x > 0 {
                        near.push(p - 1);
                    }
                    if x + 1 < w {
                        near.push(p + 1);
                    }
                    if y > 0 {
                        near.push(p - w);
                    }
                    if y + 1 < h {
                        near.push(p + w);
                    }
                    for q in near {
                        sum += out[q * 4 + c] + src[p * 4 + c] - src[q * 4 + c];
                        n += 1.0;
                    }
                    out[p * 4 + c] = sum / n;
                }
            }
        }
    }
    out
}

fn patch_pipeline(
    image: &[f32],
    region: &[bool],
    sel: Option<&[f32]>,
    w: usize,
    h: usize,
    off: (i64, i64),
    iters: usize,
) -> Vec<f32> {
    let image_s = scalars(image);
    let sel_s = sel.map(scalars);
    let mask = clip_region(region, sel_s.as_deref(), w as u32, h as u32, off);
    let src: Vec<f32> =
        aligned_source(&image_s, w as u32, h as u32, off).into_iter().map(f).collect();
    seamless_clone(image, &src, &mask, w, h, iters)
}

fn fill(w: usize, h: usize, rgba: [f32; 4]) -> Vec<f32> {
    let mut v = Vec::with_capacity(w * h * 4);
    for _ in 0..w * h {
        v.extend_from_slice(&rgba);
    }
    v
}

#[test]
fn patch_transplants_source_texture_into_destination() {
    // Flat gray with a bright dot at a source area to the right of the destination.
    let (w, h) = (24, 12);
    let mut img = fill(w, h, [0.5, 0.5, 0.5, 1.0]);
    for y in 4..8 {
        for x in 15..19 {
            let p = (y * w + x) * 4;
            img[p] = 0.9;
            img[p + 1] = 0.9;
            img[p + 2] = 0.9;
        }
    }
    let mut region = vec![false; w * h];
    for y in 4..8 {
        for x in 3..7 {
            region[y * w + x] = true;
        }
    }
    let out = patch_pipeline(&img, &region, None, w, h, (-12, 0), 400);
    let c = (6 * w + 5) * 4;
    assert!(
        out[c] > 0.62,
        "destination center should pick up bright source texture, got {}",
        out[c]
    );
    // A pixel well outside the region is untouched.
    let outside = 0;
    assert_eq!(out[outside], img[outside]);
}

#[test]
fn patch_clips_to_selection() {
    // The region spans two columns but the selection only allows the left one.
    let (w, h) = (10, 6);
    let mut img = fill(w, h, [0.4, 0.4, 0.4, 1.0]);
    for y in 0..h {
        for x in 7..10 {
            let p = (y * w + x) * 4;
            img[p] = 0.95;
            img[p + 1] = 0.95;
            img[p + 2] = 0.95;
        }
    }
    let mut region = vec![false; w * h];
    for y in 2..4 {
        for x in 2..4 {
            region[y * w + x] = true;
        }
    }
    let mut sel = vec![0.0f32; w * h];
    for y in 0..h {
        sel[y * w + 2] = 1.0;
    }
    let out = patch_pipeline(&img, &region, Some(&sel), w, h, (-5, 0), 200);
    let clipped = (2 * w + 3) * 4;
    assert_eq!(out[clipped], img[clipped]);
}

#[test]
fn patch_identity_offset_is_noop() {
    // Zero offset: the source is the destination, and the result the input.
    let (w, h) = (8, 8);
    let img = fill(w, h, [0.3, 0.6, 0.2, 1.0]);
    let mut region = vec![false; w * h];
    for y in 2..6 {
        for x in 2..6 {
            region[y * w + x] = true;
        }
    }
    let out = patch_pipeline(&img, &region, None, w, h, (0, 0), 100);
    for (i, (&o, &d)) in out.iter().zip(img.iter()).enumerate() {
        assert!((o - d).abs() < 1e-3, "idx {i}: {o} vs {d}");
    }
}

#[test]
fn translate_mask_shifts_and_clips() {
    let (w, h) = (6u32, 6u32);
    let mut m = vec![false; (w * h) as usize];
    m[(2 * w + 2) as usize] = true; // (2,2)
    m[0] = true; // (0,0)
    let out = translate_mask(&m, w, h, s(1.0), s(1.0));
    assert!(out[(3 * w + 3) as usize], "(2,2) → (3,3)");
    assert!(out[(w + 1) as usize], "(0,0) → (1,1)");
    // Shifting up-left drops the (0,0) pixel off-canvas.
    let out2 = translate_mask(&m, w, h, s(-1.0), s(-1.0));
    assert!(out2[(w + 1) as usize], "(2,2) → (1,1)");
    assert_eq!(out2.iter().filter(|&&b| b).count(), 1, "(0,0) clipped away");
}

#[test]
fn pixels_without_a_source_are_not_patched() {
    let (w, h) = (5u32, 2u32);
    let mask = clip_region(&[true; 10], None, w, h, (2, 0));
    assert_eq!(mask, [false, false, true, true, true, false, false, true, true, true]);
}

#[test]
fn clone_job_holds_region_and_source() {
    let (w, h) = (3u32, 1u32);
    let px: Vec<f32> = vec![0.5, 0.0, 0.0, 1.0, 0.25, 0.0, 0.0, 0.5, 0.0, 0.0, 0.0, 0.0];
    let bytes = f32_to_f16_bytes(&scalars(&px));
    let job = clone_job(&bytes, &[true; 3], None, w, h, [s(1.4), s(0.0)]);
    // Straight pixels; the source is one pixel to the left.
    let dest: Vec<f32> = job.dest.iter().map(|v| f(*v)).collect();
    assert_eq!(dest, [0.5, 0.0, 0.0, 1.0, 0.5, 0.0, 0.0, 0.5, 0.0, 0.0, 0.0, 0.0]);
    let src: Vec<f32> = job.src.iter().map(|v| f(*v)).collect();
    assert_eq!(src[4..8], [0.5, 0.0, 0.0, 1.0]);
    assert_eq!(src[8..12], [0.5, 0.0, 0.0, 0.5]);
    assert_eq!(job.mask, [false, true, true]);
    // What comes back is stored premultiplied.
    let stored: Vec<f32> =
        f16_bytes_to_f32(&stored_bytes(&job.dest, w, h)).into_iter().map(f).collect();
    assert_eq!(stored, px);
    let straight = straight_pixels(&bytes, w, h);
    assert_eq!(straight, job.dest);
}

#[test]
fn the_patch_is_outlined_and_dragged() {
    let (w, h) = (6u32, 4u32);
    let mut patch = Patch::new();
    assert!(!patch.has_region());
    let mut region = vec![false; 24];
    region[6 + 1] = true;
    region[6 + 2] = true;
    patch.set_region(region.clone(), w, h);
    assert!(patch.has_region());
    // The middle of two pixels side by side.
    assert_eq!(patch.anchor, Some(at(2.0, 1.5)));
    assert_eq!(centroid(&region, w, h), Some(at(2.0, 1.5)));
    // A short drag does nothing.
    patch.start_drag(at(1.0, 1.0));
    patch.drag(at(1.5, 1.0));
    assert!(patch.stop_drag(w, h, &length).is_none());
    assert!(patch.has_region());
    // Dragged onto the texture that it takes.
    patch.start_drag(at(1.0, 1.0));
    patch.drag(at(3.0, 1.0));
    let plan = patch.stop_drag(w, h, &length).unwrap();
    assert_eq!(plan.region, region);
    assert_eq!(plan.offset, [s(-2.0), s(-0.0)]);
    assert!(!patch.has_region());
    assert!(patch.anchor.is_none());
    // Dragged onto the place where it is put.
    patch.source_mode = false;
    patch.set_region(region.clone(), w, h);
    patch.start_drag(at(1.0, 1.0));
    patch.drag(at(3.0, 2.0));
    let plan = patch.stop_drag(w, h, &length).unwrap();
    assert_eq!(plan.region, translate_mask(&region, w, h, s(2.0), s(1.0)));
    assert_eq!(plan.offset, [s(2.0), s(1.0)]);
    // A region from a larger canvas is moved on the smaller one.
    patch.set_region(region.clone(), w, h);
    patch.start_drag(at(1.0, 1.0));
    patch.drag(at(3.0, 2.0));
    let plan = patch.stop_drag(w, h - 1, &length).unwrap();
    assert_eq!(plan.region, translate_mask(&region, w, h - 1, s(2.0), s(1.0)));
    // One from a smaller canvas is not, and stays.
    patch.set_region(region.clone(), w, h);
    patch.start_drag(at(1.0, 1.0));
    patch.drag(at(3.0, 2.0));
    assert!(patch.stop_drag(w, h + 1, &length).is_none());
    assert_eq!(patch.region, region);
    assert!(patch.from.is_none() && patch.offset == at(0.0, 0.0));
}

#[test]
fn a_lasso_needs_three_points() {
    let mut lasso = Lasso::new();
    lasso.start(Some(at(0.0, 0.0)));
    lasso.drag(at(1.0, 1.0), &length); // too near
    lasso.drag(at(5.0, 0.0), &length);
    assert_eq!(lasso.points.len(), 2);
    assert!(lasso.stop().is_none());
    assert!(lasso.points.is_empty());
    lasso.start(None);
    for p in [at(0.0, 0.0), at(5.0, 0.0), at(0.0, 5.0)] {
        lasso.drag(p, &length);
    }
    assert_eq!(lasso.stop(), Some(vec![at(0.0, 0.0), at(5.0, 0.0), at(0.0, 5.0)]));
}
