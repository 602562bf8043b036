//! Where the canvas is drawn: the document's box in the renderer's clip space.

use crate::exact::{
    law_difference_tracks, law_product, law_product_tracks, law_quotient, law_whole,
    lemma_constants, lemma_unit, parts, size, value, within,
};
use crate::geometry::{Point, Rect, ONE};
use crate::scalar::Scalar;
use crate::styles::S2;
use vstd::prelude::*;

verus! {

/// What the renderer is told of the canvas: two corners of the document in clip
/// space, and the size of a square of the checkerboard in pixels.
#[derive(Clone, Copy, PartialEq, Eq, Structural, Debug)]
pub struct CanvasUniform {
    pub clip_min: Point,
    pub clip_max: Point,
    pub checker_px: Scalar,
}

/// A screen coordinate as a part of the screen, from 0 to 2.
pub open spec fn doubled_part(p: Scalar, pixels_per_point: Scalar, extent: int) -> Scalar {
    p.product(pixels_per_point).quotient(Scalar::whole(extent)).product(Scalar { bits: S2 })
}

/// A screen position in clip space, which runs from -1 to 1, upwards.
pub open spec fn clip_position(p: Point, pixels_per_point: Scalar, screen: (int, int)) -> Point {
    let one = Scalar { bits: ONE };
    Point {
        x: doubled_part(p.x, pixels_per_point, screen.0).difference(one),
        y: one.difference(doubled_part(p.y, pixels_per_point, screen.1)),
    }
}

fn doubled(p: Scalar, pixels_per_point: Scalar, extent: u32) -> (r: Scalar)
    ensures
        r == doubled_part(p, pixels_per_point, extent as int),
{
    p.times(pixels_per_point).over(Scalar::from_u32(extent)).times(Scalar { bits: S2 })
}

/// A screen position in clip space, on a screen of so many pixels.
pub fn to_clip(p: Point, pixels_per_point: Scalar, screen: [u32; 2]) -> (r: Point)
    ensures
        r == clip_position(p, pixels_per_point, (screen@[0] as int, screen@[1] as int)),
{
    let one: Scalar = Scalar { bits: ONE };
    Point {
        x: doubled(p.x, pixels_per_point, screen[0]).minus(one),
        y: one.minus(doubled(p.y, pixels_per_point, screen[1])),
    }
}

/// What the renderer is told of a document shown in `doc_rect`.
pub fn canvas_uniform(
    doc_rect: Rect,
    checker_pts: Scalar,
    pixels_per_point: Scalar,
    screen: [u32; 2],
) -> (r: CanvasUniform)
    ensures
        ({
            let (k, s) = (pixels_per_point, (screen@[0] as int, screen@[1] as int));
            &&& r.clip_min == clip_position(doc_rect.min, k, s)
            &&& r.clip_max == clip_position(doc_rect.max, k, s)
            &&& r.checker_px == checker_pts.product(k)
        }),
{
    CanvasUniform {
        clip_min: to_clip(doc_rect.min, pixels_per_point, screen),
        clip_max: to_clip(doc_rect.max, pixels_per_point, screen),
        checker_px: checker_pts.times(pixels_per_point),
    }
}

/// A part of the screen, which is divided by its extent.
proof fn lemma_part_of_screen(q: real, x: real, e: real, r: real)
    requires
        e >= 1real,
        0real <= x <= e,
        0x100_0000real * size(q - x) <= e + 1real,
        r == q / e,
    ensures
        within(r, x / e, parts(2real)),
        0real <= x / e <= 1real,
{
    let (z, n) = (x / e, 0x100_0000real);
    assert(z * e == x && r * e == q && 0real <= z <= 1real) by (nonlinear_arith)
        requires
            e >= 1real,
            0real <= x <= e,
            z == x / e,
            r == q / e,
    ;
    assert(-2real <= n * (r - z) <= 2real) by (nonlinear_arith)
        requires
            n == 0x100_0000real,
            z * e == x,
            r * e == q,
            e >= 1real,
            -(e + 1real) <= n * (q - x) <= e + 1real,
    ;
}

proof fn lemma_doubled_part(p: Scalar, k: Scalar, extent: int)
    requires
        p.is_finite() && k.is_finite(),
        1 <= extent <= 0x1_0000,
        0real <= value(p) * value(k) <= extent as real,
    ensures
        doubled_part(p, k, extent).is_finite(),
        within(
            value(doubled_part(p, k, extent)),
            2real * ((value(p) * value(k)) / (extent as real)),
            parts(12real),
        ),
        0real <= (value(p) * value(k)) / (extent as real) <= 1real,
{
    let (x, e) = (value(p) * value(k), extent as real);
    lemma_constants();
    lemma_unit();
    law_whole(extent);
    law_product(p, k);
    let q = p.product(k);
    let r = value(q) / e;
    lemma_part_of_screen(value(q), x, e, r);
    law_quotient(q, Scalar::whole(extent));
    let part = q.quotient(Scalar::whole(extent));
    assert(within(value(part), x / e, parts(4real)));
    law_product_tracks(
        part,
        Scalar { bits: S2 },
        x / e,
        2real,
        parts(4real),
        0real,
        1real,
        2real,
        parts(8real),
        2real,
        parts(11real),
    );
}

/// The screen fills clip space: its left edge is at -1 and its right one at 1, its top at 1
/// and its bottom at -1, and what lies between them is evenly spread.
pub proof fn law_screen_fills_clip_space(p: Point, k: Scalar, screen: (int, int))
    requires
        p.x.is_finite() && p.y.is_finite() && k.is_finite(),
        1 <= screen.0 <= 0x1_0000 && 1 <= screen.1 <= 0x1_0000,
        0real <= value(p.x) * value(k) <= screen.0 as real,
        0real <= value(p.y) * value(k) <= screen.1 as real,
    ensures
        ({
            let r = clip_position(p, k, screen);
            let (x, y) = (
                (value(p.x) * value(k)) / (screen.0 as real),
                (value(p.y) * value(k)) / (screen.1 as real),
            );
            &&& r.x.is_finite() && r.y.is_finite()
            &&& within(value(r.x), 2real * x - 1real, parts(16real))
            &&& within(value(r.y), 1real - 2real * y, parts(16real))
        }),
{
    let one = Scalar { bits: ONE };
    lemma_constants();
    lemma_doubled_part(p.x, k, screen.0);
    lemma_doubled_part(p.y, k, screen.1);
    let (x, y) = (
        (value(p.x) * value(k)) / (screen.0 as real),
        (value(p.y) * value(k)) / (screen.1 as real),
    );
    law_difference_tracks(
        doubled_part(p.x, k, screen.0),
        one,
        2real * x,
        1real,
        parts(12real),
        0real,
        1real,
        parts(14real),
    );
    law_difference_tracks(
        one,
        doubled_part(p.y, k, screen.1),
        1real,
        2real * y,
        0real,
        parts(12real),
        1real,
        parts(14real),
    );
}

} // verus!
