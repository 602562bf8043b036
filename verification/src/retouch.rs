//! Retouching: brushed coverage, and the pixel work before and after a solver
//! runs on a layer.
//!
//! Layers are stored premultiplied; the solvers work on straight colour.

use crate::arith::{
    law_product_is_near, law_root_of_a_square, law_rounding_stays_within,
    law_small_numbers_are_exact, law_times_one, law_times_zero, lemma_one, lemma_scaled_sign,
};
use crate::exact::{
    half_whole, law_ceil, law_difference_is_exact, law_difference_tracks, law_floor,
    law_order_of_values, law_product, law_product_is_exact, law_product_stays_within,
    law_product_tracks, law_quotient, law_sum_is_exact, law_sum_stays_within, law_sum_tracks,
    law_whole, least, lemma_constants, lemma_half_whole, lemma_pattern, lemma_real_product,
    lemma_signed_whole, lemma_unit, lemma_value, parts, signed_whole, size, value, within,
};
use crate::geometry::{Point, Size, HALF, ONE};
use crate::grid::{
    cell, channel, grid_fits, index_of, lemma_index, lemma_position, on_grid, pixel_count,
};
use crate::half_float::{f16_bytes_to_f32, f32_to_f16_bytes, packs, unpacks};
use crate::mask::whole_pixels;
use crate::pattern::{blend_over, coverage, seen, source_over};
use crate::scalar::{clip, unit, Scalar};
use vstd::arithmetic::mul::*;
use vstd::arithmetic::power2::*;
use vstd::prelude::*;

verus! {

/// The alpha (one hundred-thousandth) up to which a pixel counts as transparent.
pub const LEAST_ALPHA: u32 = 0x3727_c5ac;

/// What a premultiplied channel is multiplied by to make it straight.
pub open spec fn straightening(alpha: Scalar) -> Scalar {
    if (Scalar { bits: LEAST_ALPHA }).less(alpha) {
        (Scalar { bits: ONE }).quotient(alpha)
    } else {
        Scalar { bits: 0 }
    }
}

/// `out` holds `n` pixels of `prem` with straight colour.
pub open spec fn straightened(prem: Seq<Scalar>, n: int, out: Seq<Scalar>) -> bool {
    &&& out.len() == 4 * n
    &&& forall|k: int|
        0 <= k < 4 * n ==> #[trigger] out[k] == (if k % 4 == 3 {
            prem[k]
        } else {
            prem[k].product(straightening(prem[k - k % 4 + 3]))
        })
}

/// `out` holds `n` pixels of `px` with premultiplied colour.
pub open spec fn premultiplied(px: Seq<Scalar>, n: int, out: Seq<Scalar>) -> bool {
    &&& out.len() == 4 * n
    &&& forall|k: int|
        0 <= k < 4 * n ==> #[trigger] out[k] == (if k % 4 == 3 {
            px[k]
        } else {
            px[k].product(px[k - k % 4 + 3])
        })
}

/// Premultiplied pixels to straight ones.
pub fn to_straight(prem: &[Scalar], n: usize) -> (out: Vec<Scalar>)
    requires
        prem@.len() >= 4 * n,
    ensures
        straightened(prem@, n as int, out@),
{
    let mut out: Vec<Scalar> = Vec::new();
    let len: usize = prem.len();
    let mut k: usize = 0;
    while k < 4 * n
        invariant
            k <= 4 * n <= len == prem@.len(),
            out@.len() == k,
            forall|j: int|
                0 <= j < k ==> #[trigger] out@[j] == (if j % 4 == 3 {
                    prem@[j]
                } else {
                    prem@[j].product(straightening(prem@[j - j % 4 + 3]))
                }),
        decreases 4 * n - k,
    {
        if k % 4 == 3 {
            out.push(prem[k]);
        } else {
            let a: Scalar = prem[k - k % 4 + 3];
            let inv: Scalar = if a.gt(Scalar { bits: LEAST_ALPHA }) {
                Scalar { bits: ONE }.over(a)
            } else {
                Scalar::zero()
            };
            out.push(prem[k].times(inv));
        }
        k = k + 1;
    }
    out
}

/// Straight pixels to premultiplied ones.
pub fn to_premultiplied(px: &[Scalar], n: usize) -> (out: Vec<Scalar>)
    requires
        px@.len() >= 4 * n,
    ensures
        premultiplied(px@, n as int, out@),
{
    let mut out: Vec<Scalar> = Vec::new();
    let len: usize = px.len();
    let mut k: usize = 0;
    while k < 4 * n
        invariant
            k <= 4 * n <= len == px@.len(),
            out@.len() == k,
            forall|j: int|
                0 <= j < k ==> #[trigger] out@[j] == (if j % 4 == 3 {
                    px@[j]
                } else {
                    px@[j].product(px@[j - j % 4 + 3])
                }),
        decreases 4 * n - k,
    {
        if k % 4 == 3 {
            out.push(px[k]);
        } else {
            out.push(px[k].times(px[k - k % 4 + 3]));
        }
        k = k + 1;
    }
    out
}

/// The first and last coordinate that a dab about `c` with radius `r` looks at,
/// on one axis.
pub open spec fn reach(c: Scalar, r: Scalar) -> (int, int) {
    let (lo, hi) = (c.difference(r), c.sum(r));
    (
        lo.cast(lo.floor_int(), i64::MIN as int, i64::MAX as int),
        hi.cast(hi.ceil_int(), i64::MIN as int, i64::MAX as int),
    )
}

/// Whether a dab about `c` with radius `r` looks at coordinate `x`.
pub open spec fn reaches(c: Scalar, r: Scalar, x: int) -> bool {
    reach(c, r).0 <= x <= reach(c, r).1
}

/// The part of [`reach`] that lies on an axis of `extent` pixels, as a first
/// coordinate and one past the last.
fn reach_on(c: Scalar, r: Scalar, extent: u32) -> (s: (u32, u32))
    ensures
        s.1 <= extent,
        forall|x: int|
            0 <= x < extent ==> (s.0 <= x < s.1 <==> #[trigger] reaches(c, r, x)),
{
    let lo: i64 = c.minus(r).floor_i64();
    let hi: i64 = c.plus(r).ceil_i64();
    let first: u32 = if lo <= 0 {
        0
    } else if lo >= extent as i64 {
        extent
    } else {
        lo as u32
    };
    let last: u32 = if hi < 0 {
        0
    } else if hi >= extent as i64 {
        extent
    } else {
        hi as u32 + 1
    };
    (first, last)
}

/// The distance from `c` to the middle of pixel `x`, on one axis.
pub open spec fn from_centre(x: int, c: Scalar) -> Scalar {
    Scalar::whole(x).sum(Scalar { bits: HALF }).difference(c)
}

/// The square of the distance from `c` to the middle of a pixel.
pub open spec fn squared_distance(x: int, y: int, c: Point) -> Scalar {
    let (dx, dy) = (from_centre(x, c.x), from_centre(y, c.y));
    dx.product(dx).sum(dy.product(dy))
}

fn squared_distance_of(x: u32, y: u32, c: Point) -> (d: Scalar)
    ensures
        d == squared_distance(x as int, y as int, c),
{
    let half: Scalar = Scalar { bits: HALF };
    let dx: Scalar = Scalar::from_u32(x).plus(half).minus(c.x);
    let dy: Scalar = Scalar::from_u32(y).plus(half).minus(c.y);
    dx.times(dx).plus(dy.times(dy))
}

/// Whether a disk about `c` with radius `r` covers a pixel.
pub open spec fn in_disk(c: Point, r: Scalar, x: int, y: int) -> bool {
    &&& reaches(c.x, r, x)
    &&& reaches(c.y, r, y)
    &&& squared_distance(x, y, c).at_most(r.product(r))
}

/// The mask that a stamp starts from: `mask`, or a blank one where `mask` is not
/// of the canvas's size.
pub open spec fn canvas_mask<T>(mask: Seq<T>, size: Size, blank: T) -> Seq<T> {
    if mask.len() == size.width * size.height {
        mask
    } else {
        Seq::new((size.width * size.height) as nat, |i: int| blank)
    }
}

/// Whether the pixel at (`cx`, `cy`) comes before (`x`, `y`) in row order.
spec fn before(cx: int, cy: int, x: int, y: int) -> bool {
    cy < y || (cy == y && cx < x)
}

/// Stamp a filled disk into the brushed coverage.
pub fn heal_mark(mask: &mut Vec<bool>, size: Size, c: Point, r: Scalar)
    requires
        grid_fits(size.width as int, size.height as int, 1),
    ensures
        final(mask)@.len() == size.width * size.height,
        forall|x: int, y: int|
            on_grid(size.width as int, size.height as int, x, y) ==> #[trigger] cell(
                final(mask)@,
                size.width as int,
                x,
                y,
            ) == (cell(canvas_mask(old(mask)@, size, false), size.width as int, x, y) || in_disk(
                c,
                r,
                x,
                y,
            )),
{
    let (w, h): (u32, u32) = (size.width, size.height);
    proof {
        lemma_mul_nonnegative(w as int, h as int);
    }
    let n: usize = pixel_count(w, h);
    if mask.len() != n {
        *mask = vec![false;n];
    }
    let ghost start = mask@;
    assert(start =~= canvas_mask(old(mask)@, size, false));
    let r2: Scalar = r.times(r);
    let (x0, x1): (u32, u32) = reach_on(c.x, r, w);
    let (y0, y1): (u32, u32) = reach_on(c.y, r, h);
    let mut y: u32 = y0;
    while y < y1
        invariant
            n == w * h,
            n <= u32::MAX,
            mask@.len() == n,
            start.len() == n,
            r2 == r.product(r),
            x1 <= w,
            y0 <= y,
            y1 <= h,
            forall|cx: int| 0 <= cx < w ==> (x0 <= cx < x1 <==> #[trigger] reaches(c.x, r, cx)),
            forall|cy: int| 0 <= cy < h ==> (y0 <= cy < y1 <==> #[trigger] reaches(c.y, r, cy)),
            forall|cx: int, cy: int|
                on_grid(w as int, h as int, cx, cy) ==> #[trigger] cell(mask@, w as int, cx, cy)
                    == (cell(start, w as int, cx, cy) || (in_disk(c, r, cx, cy) && cy < y)),
        decreases y1 - y,
    {
        let mut x: u32 = x0;
        while x < x1
            invariant
                n == w * h,
                n <= u32::MAX,
                mask@.len() == n,
                start.len() == n,
                r2 == r.product(r),
                x1 <= w,
                y0 <= y < y1 <= h,
                forall|cx: int|
                    0 <= cx < w ==> (x0 <= cx < x1 <==> #[trigger] reaches(c.x, r, cx)),
                forall|cy: int|
                    0 <= cy < h ==> (y0 <= cy < y1 <==> #[trigger] reaches(c.y, r, cy)),
                x0 <= x,
                forall|cx: int, cy: int|
                    on_grid(w as int, h as int, cx, cy) ==> #[trigger] cell(
                        mask@,
                        w as int,
                        cx,
                        cy,
                    ) == (cell(start, w as int, cx, cy) || (in_disk(c, r, cx, cy) && before(
                        cx,
                        cy,
                        x as int,
                        y as int,
                    ))),
            decreases x1 - x,
        {
            let ghost previous = mask@;
            proof {
                lemma_index(w as int, h as int, x as int, y as int);
                lemma_mul_nonnegative(y as int, w as int);
            }
            if squared_distance_of(x, y, c).le(r2) {
                mask[y as usize * w as usize + x as usize] = true;
            }
            proof {
                assert forall|cx: int, cy: int|
                    on_grid(w as int, h as int, cx, cy) implies #[trigger] cell(
                    mask@,
                    w as int,
                    cx,
                    cy,
                ) == (cell(start, w as int, cx, cy) || (in_disk(c, r, cx, cy) && before(
                    cx,
                    cy,
                    x + 1,
                    y as int,
                ))) by {
                    lemma_index(w as int, h as int, cx, cy);
                    assert(cell(previous, w as int, cx, cy) == (cell(start, w as int, cx, cy) || (
                    in_disk(c, r, cx, cy) && before(cx, cy, x as int, y as int))));
                    assert(reaches(c.x, r, x as int) && reaches(c.y, r, y as int));
                }
            }
            x = x + 1;
        }
        proof {
            assert forall|cx: int, cy: int|
                on_grid(w as int, h as int, cx, cy) implies #[trigger] cell(
                mask@,
                w as int,
                cx,
                cy,
            ) == (cell(start, w as int, cx, cy) || (in_disk(c, r, cx, cy) && cy < y + 1)) by {
                assert(cy == y && in_disk(c, r, cx, cy) ==> before(cx, cy, x as int, y as int));
            }
        }
        y = y + 1;
    }
    proof {
        assert forall|cx: int, cy: int|
            on_grid(w as int, h as int, cx, cy) implies #[trigger] cell(mask@, w as int, cx, cy)
            == (cell(start, w as int, cx, cy) || in_disk(c, r, cx, cy)) by {
            assert(in_disk(c, r, cx, cy) ==> reaches(c.y, r, cy));
        }
    }
}

/// What a soft dab makes of coverage `old` at distance `d` from its centre: more
/// coverage, most at the centre and none at the edge, up to 1.
pub open spec fn softened(old: Scalar, d: Scalar, r: Scalar, flow: Scalar) -> Scalar {
    let one = Scalar { bits: ONE };
    old.sum(one.difference(d.quotient(r)).product(flow)).lesser(one)
}

/// What a soft dab about `c` makes of coverage `old` at a pixel.
pub open spec fn toned(
    old: Scalar,
    c: Point,
    r: Scalar,
    flow: Scalar,
    x: int,
    y: int,
) -> Scalar {
    let d = squared_distance(x, y, c).root();
    if reaches(c.x, r, x) && reaches(c.y, r, y) && d.at_most(r) {
        softened(old, d, r, flow)
    } else {
        old
    }
}

/// Add a soft round dab to the brushed coverage.
pub fn tone_mark(mask: &mut Vec<Scalar>, size: Size, c: Point, r: Scalar, flow: Scalar)
    requires
        grid_fits(size.width as int, size.height as int, 1),
    ensures
        final(mask)@.len() == size.width * size.height,
        forall|x: int, y: int|
            on_grid(size.width as int, size.height as int, x, y) ==> #[trigger] cell(
                final(mask)@,
                size.width as int,
                x,
                y,
            ) == toned(
                cell(
                    canvas_mask(old(mask)@, size, Scalar { bits: 0 }),
                    size.width as int,
                    x,
                    y,
                ),
                c,
                r,
                flow,
                x,
                y,
            ),
{
    let (w, h): (u32, u32) = (size.width, size.height);
    proof {
        lemma_mul_nonnegative(w as int, h as int);
    }
    let n: usize = pixel_count(w, h);
    if mask.len() != n {
        *mask = vec![Scalar::zero();n];
    }
    let ghost start = mask@;
    assert(start =~= canvas_mask(old(mask)@, size, Scalar { bits: 0 }));
    let one: Scalar = Scalar { bits: ONE };
    let (x0, x1): (u32, u32) = reach_on(c.x, r, w);
    let (y0, y1): (u32, u32) = reach_on(c.y, r, h);
    let mut y: u32 = y0;
    while y < y1
        invariant
            n == w * h,
            n <= u32::MAX,
            mask@.len() == n,
            start.len() == n,
            one == (Scalar { bits: ONE }),
            x1 <= w,
            y0 <= y,
            y1 <= h,
            forall|cx: int| 0 <= cx < w ==> (x0 <= cx < x1 <==> #[trigger] reaches(c.x, r, cx)),
            forall|cy: int| 0 <= cy < h ==> (y0 <= cy < y1 <==> #[trigger] reaches(c.y, r, cy)),
            forall|cx: int, cy: int|
                on_grid(w as int, h as int, cx, cy) ==> #[trigger] cell(mask@, w as int, cx, cy)
                    == (if cy < y {
                    toned(cell(start, w as int, cx, cy), c, r, flow, cx, cy)
                } else {
                    cell(start, w as int, cx, cy)
                }),
        decreases y1 - y,
    {
        let mut x: u32 = x0;
        while x < x1
            invariant
                n == w * h,
                n <= u32::MAX,
                mask@.len() == n,
                start.len() == n,
                one == (Scalar { bits: ONE }),
                x1 <= w,
                y0 <= y < y1 <= h,
                forall|cx: int|
                    0 <= cx < w ==> (x0 <= cx < x1 <==> #[trigger] reaches(c.x, r, cx)),
                forall|cy: int|
                    0 <= cy < h ==> (y0 <= cy < y1 <==> #[trigger] reaches(c.y, r, cy)),
                x0 <= x,
                forall|cx: int, cy: int|
                    on_grid(w as int, h as int, cx, cy) ==> #[trigger] cell(
                        mask@,
                        w as int,
                        cx,
                        cy,
                    ) == (if before(cx, cy, x as int, y as int) {
                        toned(cell(start, w as int, cx, cy), c, r, flow, cx, cy)
                    } else {
                        cell(start, w as int, cx, cy)
                    }),
            decreases x1 - x,
        {
            let ghost previous = mask@;
            proof {
                lemma_index(w as int, h as int, x as int, y as int);
                lemma_mul_nonnegative(y as int, w as int);
                assert(cell(previous, w as int, x as int, y as int) == cell(
                    start,
                    w as int,
                    x as int,
                    y as int,
                ));
                assert(reaches(c.x, r, x as int) && reaches(c.y, r, y as int));
            }
            let d: Scalar = squared_distance_of(x, y, c).sqrt();
            if d.le(r) {
                let f: Scalar = one.minus(d.over(r)).times(flow);
                let i: usize = y as usize * w as usize + x as usize;
                let more: Scalar = mask[i].plus(f).min(one);
                mask[i] = more;
            }
            proof {
                assert forall|cx: int, cy: int|
                    on_grid(w as int, h as int, cx, cy) implies #[trigger] cell(
                    mask@,
                    w as int,
                    cx,
                    cy,
                ) == (if before(cx, cy, x + 1, y as int) {
                    toned(cell(start, w as int, cx, cy), c, r, flow, cx, cy)
                } else {
                    cell(start, w as int, cx, cy)
                }) by {
                    lemma_index(w as int, h as int, cx, cy);
                    assert(cell(previous, w as int, cx, cy) == (if before(
                        cx,
                        cy,
                        x as int,
                        y as int,
                    ) {
                        toned(cell(start, w as int, cx, cy), c, r, flow, cx, cy)
                    } else {
                        cell(start, w as int, cx, cy)
                    }));
                }
            }
            x = x + 1;
        }
        proof {
            assert forall|cx: int, cy: int|
                on_grid(w as int, h as int, cx, cy) implies #[trigger] cell(
                mask@,
                w as int,
                cx,
                cy,
            ) == (if cy < y + 1 {
                toned(cell(start, w as int, cx, cy), c, r, flow, cx, cy)
            } else {
                cell(start, w as int, cx, cy)
            }) by {
                assert(cy == y && reaches(c.x, r, cx) ==> before(cx, cy, x as int, y as int));
            }
        }
        y = y + 1;
    }
    proof {
        assert forall|cx: int, cy: int|
            on_grid(w as int, h as int, cx, cy) implies #[trigger] cell(mask@, w as int, cx, cy)
            == toned(cell(start, w as int, cx, cy), c, r, flow, cx, cy) by {
            if cy >= y {
                assert(!reaches(c.y, r, cy));
            }
        }
    }
}

/// Whether a pixel of the region takes texture from the pixel `(ox, oy)` before
/// it: it is selected by more than half, and its source is on the canvas.
pub open spec fn transplanted(
    region: Seq<bool>,
    sel: Option<Seq<Scalar>>,
    w: int,
    h: int,
    ox: int,
    oy: int,
    x: int,
    y: int,
) -> bool {
    &&& cell(region, w, x, y)
    &&& sel matches Some(s) ==> !cell(s, w, x, y).at_most(Scalar { bits: HALF })
    &&& on_grid(w, h, x - ox, y - oy)
}

/// The region clipped to the selection and to the pixels that have a source.
pub fn clip_region(
    region: &[bool],
    sel: Option<&[Scalar]>,
    w: u32,
    h: u32,
    off: (i64, i64),
) -> (mask: Vec<bool>)
    requires
        region@.len() == w * h,
        grid_fits(w as int, h as int, 1),
        sel matches Some(s) ==> s@.len() >= w * h,
    ensures
        mask@.len() == w * h,
        forall|x: int, y: int|
            on_grid(w as int, h as int, x, y) ==> #[trigger] cell(mask@, w as int, x, y)
                == transplanted(
                region@,
                seen(sel),
                w as int,
                h as int,
                off.0 as int,
                off.1 as int,
                x,
                y,
            ),
{
    proof {
        lemma_mul_nonnegative(w as int, h as int);
    }
    let n: usize = pixel_count(w, h);
    let mut mask: Vec<bool> = Vec::new();
    let mut k: usize = 0;
    while k < n
        invariant
            n == w * h,
            n == region@.len(),
            n <= u32::MAX,
            k <= n,
            sel matches Some(s) ==> s@.len() >= n,
            mask@.len() == k,
            forall|j: int|
                0 <= j < k ==> #[trigger] mask@[j] == transplanted(
                    region@,
                    seen(sel),
                    w as int,
                    h as int,
                    off.0 as int,
                    off.1 as int,
                    j % (w as int),
                    j / (w as int),
                ),
        decreases n - k,
    {
        proof {
            lemma_position(w as int, h as int, k as int);
        }
        let sx: i128 = (k % w as usize) as i128 - off.0 as i128;
        let sy: i128 = (k / w as usize) as i128 - off.1 as i128;
        let selected: bool = match sel {
            Some(s) => !s[k].le(Scalar { bits: HALF }),
            None => true,
        };
        mask.push(
            region[k] && selected && 0 <= sx && sx < w as i128 && 0 <= sy && sy < h as i128,
        );
        k = k + 1;
    }
    proof {
        assert forall|x: int, y: int| on_grid(w as int, h as int, x, y) implies #[trigger] cell(
            mask@,
            w as int,
            x,
            y,
        ) == transplanted(
            region@,
            seen(sel),
            w as int,
            h as int,
            off.0 as int,
            off.1 as int,
            x,
            y,
        ) by {
            lemma_index(w as int, h as int, x, y);
            let j = index_of(w as int, x, y);
            assert(mask@[j] == transplanted(
                region@,
                seen(sel),
                w as int,
                h as int,
                off.0 as int,
                off.1 as int,
                j % (w as int),
                j / (w as int),
            ));
        }
    }
    mask
}

/// `src` is the image moved by an offset, its edge pixels continued outwards.
pub open spec fn aligned(
    image: Seq<Scalar>,
    w: int,
    h: int,
    ox: int,
    oy: int,
    src: Seq<Scalar>,
) -> bool {
    &&& src.len() == 4 * (w * h)
    &&& forall|x: int, y: int, c: int|
        on_grid(w, h, x, y) && 0 <= c < 4 ==> #[trigger] channel(src, w, x, y, c) == channel(
            image,
            w,
            clip(x - ox, 0, w - 1),
            clip(y - oy, 0, h - 1),
            c,
        )
}

fn clip_to(v: i128, extent: u32) -> (r: usize)
    requires
        extent > 0,
    ensures
        r == clip(v as int, 0, extent - 1),
{
    if v < 0 {
        0
    } else if v > extent as i128 - 1 {
        (extent - 1) as usize
    } else {
        v as usize
    }
}

/// The image moved by an offset, its edge pixels continued outwards, so that it
/// has a pixel everywhere.
pub fn aligned_source(image: &[Scalar], w: u32, h: u32, off: (i64, i64)) -> (src: Vec<Scalar>)
    requires
        image@.len() >= 4 * (w * h),
        grid_fits(w as int, h as int, 4),
    ensures
        aligned(image@, w as int, h as int, off.0 as int, off.1 as int, src@),
{
    proof {
        lemma_mul_nonnegative(w as int, h as int);
    }
    let n: usize = pixel_count(w, h);
    let mut src: Vec<Scalar> = Vec::new();
    let mut k: usize = 0;
    while k < 4 * n
        invariant
            n == w * h,
            4 * n <= image@.len(),
            4 * n <= u32::MAX,
            k <= 4 * n,
            src@.len() == k,
            forall|j: int|
                0 <= j < k ==> #[trigger] src@[j] == channel(
                    image@,
                    w as int,
                    clip((j / 4) % (w as int) - off.0, 0, w - 1),
                    clip((j / 4) / (w as int) - off.1, 0, h - 1),
                    j % 4,
                ),
        decreases 4 * n - k,
    {
        let i: usize = k / 4;
        proof {
            lemma_position(w as int, h as int, i as int);
        }
        let sx: usize = clip_to((i % w as usize) as i128 - off.0 as i128, w);
        let sy: usize = clip_to((i / w as usize) as i128 - off.1 as i128, h);
        proof {
            lemma_index(w as int, h as int, sx as int, sy as int);
            lemma_mul_nonnegative(sy as int, w as int);
        }
        src.push(image[4 * (sy * w as usize + sx) + k % 4]);
        k = k + 1;
    }
    proof {
        assert forall|x: int, y: int, c: int|
            on_grid(w as int, h as int, x, y) && 0 <= c < 4 implies #[trigger] channel(
            src@,
            w as int,
            x,
            y,
            c,
        ) == channel(
            image@,
            w as int,
            clip(x - off.0, 0, w - 1),
            clip(y - off.1, 0, h - 1),
            c,
        ) by {
            lemma_index(w as int, h as int, x, y);
            let j = 4 * index_of(w as int, x, y) + c;
            assert(j / 4 == index_of(w as int, x, y) && j % 4 == c);
            assert(src@[j] == channel(
                image@,
                w as int,
                clip((j / 4) % (w as int) - off.0, 0, w - 1),
                clip((j / 4) / (w as int) - off.1, 0, h - 1),
                j % 4,
            ));
        }
    }
    src
}

/// What a gradient-domain clone works on: straight destination and source
/// pixels, and the region to solve.
pub struct CloneJob {
    pub dest: Vec<Scalar>,
    pub src: Vec<Scalar>,
    pub mask: Vec<bool>,
}

/// `job` is the clone of the texture at `-offset` into a region of a layer, within
/// the selection.
pub open spec fn is_clone_job(
    bytes: Seq<u8>,
    region: Seq<bool>,
    sel: Option<Seq<Scalar>>,
    size: (int, int),
    offset: Seq<Scalar>,
    job: CloneJob,
) -> bool {
    let (w, h) = size;
    let (ox, oy) = (whole_pixels(offset[0]), whole_pixels(offset[1]));
    &&& exists|prem: Seq<Scalar>| #[trigger]
        unpacks(bytes, prem) && straightened(prem, w * h, job.dest@)
    &&& aligned(job.dest@, w, h, ox, oy, job.src@)
    &&& job.mask@.len() == w * h
    &&& forall|x: int, y: int|
        on_grid(w, h, x, y) ==> #[trigger] cell(job.mask@, w, x, y) == transplanted(
            region,
            sel,
            w,
            h,
            ox,
            oy,
            x,
            y,
        )
}

/// Set up a clone of the texture at `-offset` into a region of a layer, which is
/// given as its stored bytes. The healing brush has no selection.
pub fn clone_job(
    bytes: &[u8],
    region: &[bool],
    sel: Option<&[Scalar]>,
    w: u32,
    h: u32,
    offset: [Scalar; 2],
) -> (job: CloneJob)
    requires
        bytes@.len() >= 8 * (w * h),
        region@.len() == w * h,
        grid_fits(w as int, h as int, 4),
        sel matches Some(s) ==> s@.len() >= w * h,
    ensures
        is_clone_job(bytes@, region@, seen(sel), (w as int, h as int), offset@, job),
{
    proof {
        lemma_mul_nonnegative(w as int, h as int);
    }
    let off: (i64, i64) = (offset[0].round_i64(), offset[1].round_i64());
    let prem: Vec<Scalar> = f16_bytes_to_f32(bytes);
    let dest: Vec<Scalar> = to_straight(prem.as_slice(), pixel_count(w, h));
    let mask: Vec<bool> = clip_region(region, sel, w, h, off);
    let src: Vec<Scalar> = aligned_source(dest.as_slice(), w, h, off);
    CloneJob { dest, src, mask }
}

/// A layer's stored bytes as straight pixels, for the solvers that need no
/// source.
pub fn straight_pixels(bytes: &[u8], w: u32, h: u32) -> (px: Vec<Scalar>)
    requires
        bytes@.len() >= 8 * (w * h),
        grid_fits(w as int, h as int, 4),
    ensures
        exists|prem: Seq<Scalar>| #[trigger]
            unpacks(bytes@, prem) && straightened(prem, w * h, px@),
{
    proof {
        lemma_mul_nonnegative(w as int, h as int);
    }
    let prem: Vec<Scalar> = f16_bytes_to_f32(bytes);
    to_straight(prem.as_slice(), pixel_count(w, h))
}

/// Straight pixels as a layer's stored bytes.
pub fn stored_bytes(solved: &[Scalar], w: u32, h: u32) -> (bytes: Vec<u8>)
    requires
        solved@.len() >= 4 * (w * h),
        grid_fits(w as int, h as int, 4),
    ensures
        exists|out: Seq<Scalar>| #[trigger]
            packs(out, bytes@) && premultiplied(solved@, w * h, out),
{
    proof {
        lemma_mul_nonnegative(w as int, h as int);
    }
    let out: Vec<Scalar> = to_premultiplied(solved, pixel_count(w, h));
    f32_to_f16_bytes(out.as_slice())
}

/// Composite a rendered gradient over a layer, within the selection.
pub fn gradient_over(base: &mut [Scalar], grad: &[Scalar], sel: Option<&[Scalar]>, n: usize)
    requires
        old(base)@.len() >= 4 * n,
        grad@.len() >= 4 * n,
        sel matches Some(s) ==> s@.len() >= n,
    ensures
        final(base)@.len() == old(base)@.len(),
        forall|k: int|
            0 <= k < 4 * n ==> #[trigger] final(base)@[k] == source_over(
                grad@[k],
                grad@[k - k % 4 + 3],
                coverage(seen(sel), k / 4),
                old(base)@[k],
            ),
        forall|k: int|
            4 * n <= k < old(base)@.len() ==> #[trigger] final(base)@[k] == old(base)@[k],
{
    let ghost start = base@;
    let len: usize = grad.len();
    let mut k: usize = 0;
    while k < 4 * n
        invariant
            k <= 4 * n <= len == grad@.len(),
            base@.len() == start.len() >= 4 * n,
            sel matches Some(s) ==> s@.len() >= n,
            forall|j: int|
                0 <= j < k ==> #[trigger] base@[j] == source_over(
                    grad@[j],
                    grad@[j - j % 4 + 3],
                    coverage(seen(sel), j / 4),
                    start[j],
                ),
            forall|j: int| k <= j < base@.len() ==> #[trigger] base@[j] == start[j],
        decreases 4 * n - k,
    {
        let clip: Scalar = match sel {
            Some(s) => s[k / 4],
            None => Scalar { bits: ONE },
        };
        assert(clip == coverage(seen(sel), k as int / 4));
        let old: Scalar = base[k];
        base[k] = blend_over(grad[k], grad[k - k % 4 + 3], clip, old);
        k = k + 1;
    }
}

/// Fade every channel by the selection's coverage, as a copy does.
pub fn fade_by(px: &mut [Scalar], sel: &[Scalar], n: usize)
    requires
        old(px)@.len() >= 4 * n,
        sel@.len() >= n,
    ensures
        final(px)@.len() == old(px)@.len(),
        forall|k: int|
            0 <= k < 4 * n ==> #[trigger] final(px)@[k] == old(px)@[k].product(sel@[k / 4]),
        forall|k: int|
            4 * n <= k < old(px)@.len() ==> #[trigger] final(px)@[k] == old(px)@[k],
{
    let ghost start = px@;
    let len: usize = px.len();
    let mut k: usize = 0;
    while k < 4 * n
        invariant
            k <= 4 * n <= len == start.len() == px@.len(),
            sel@.len() >= n,
            forall|j: int|
                0 <= j < k ==> #[trigger] px@[j] == start[j].product(sel@[j / 4]),
            forall|j: int| k <= j < px@.len() ==> #[trigger] px@[j] == start[j],
        decreases 4 * n - k,
    {
        let v: Scalar = px[k].times(sel[k / 4]);
        px[k] = v;
        k = k + 1;
    }
}

/// Clear the pixels that are selected by more than half, as a cut does.
pub fn clear_selected(px: &mut [Scalar], sel: &[Scalar], n: usize)
    requires
        old(px)@.len() >= 4 * n,
        sel@.len() >= n,
    ensures
        final(px)@.len() == old(px)@.len(),
        forall|k: int|
            0 <= k < 4 * n ==> #[trigger] final(px)@[k] == (if (Scalar { bits: HALF }).less(
                sel@[k / 4],
            ) {
                Scalar { bits: 0 }
            } else {
                old(px)@[k]
            }),
        forall|k: int|
            4 * n <= k < old(px)@.len() ==> #[trigger] final(px)@[k] == old(px)@[k],
{
    let ghost start = px@;
    let len: usize = px.len();
    let mut k: usize = 0;
    while k < 4 * n
        invariant
            k <= 4 * n <= len == start.len() == px@.len(),
            sel@.len() >= n,
            forall|j: int|
                0 <= j < k ==> #[trigger] px@[j] == (if (Scalar { bits: HALF }).less(
                    sel@[j / 4],
                ) {
                    Scalar { bits: 0 }
                } else {
                    start[j]
                }),
            forall|j: int| k <= j < px@.len() ==> #[trigger] px@[j] == start[j],
        decreases 4 * n - k,
    {
        if sel[k / 4].gt(Scalar { bits: HALF }) {
            px[k] = Scalar::zero();
        }
        k = k + 1;
    }
}

/// Opaque pixels survive the way to straight colour and back unchanged.
pub proof fn law_opaque_pixels_survive(
    prem: Seq<Scalar>,
    n: int,
    straight: Seq<Scalar>,
    back: Seq<Scalar>,
    k: int,
)
    requires
        straightened(prem, n, straight),
        premultiplied(straight, n, back),
        0 <= k < 4 * n,
        prem[k - k % 4 + 3] == (Scalar { bits: ONE }),
        prem[k].is_finite(),
    ensures
        straight[k] == prem[k],
        back[k] == prem[k],
{
    let one = Scalar { bits: ONE };
    lemma_one();
    law_times_one(one);
    law_times_one(prem[k]);
    let a = k - k % 4 + 3;
    assert(a % 4 == 3);
    assert(straight[a] == one);
}

/// Fully transparent pixels come back with no colour at all.
pub proof fn law_transparent_pixels_have_no_colour(
    prem: Seq<Scalar>,
    n: int,
    straight: Seq<Scalar>,
    k: int,
)
    requires
        straightened(prem, n, straight),
        0 <= k < 4 * n,
        k % 4 != 3,
        prem[k - k % 4 + 3].magnitude() == 0,
        prem[k].is_finite(),
    ensures
        straight[k].magnitude() == 0,
{
    law_times_zero(prem[k], Scalar { bits: 0 });
}

/// Without an offset the aligned source is the image itself.
pub proof fn law_source_without_offset(
    image: Seq<Scalar>,
    w: int,
    h: int,
    src: Seq<Scalar>,
)
    requires
        w >= 0,
        h >= 0,
        image.len() == 4 * (w * h),
        aligned(image, w, h, 0, 0, src),
    ensures
        src == image,
{
    assert forall|k: int| 0 <= k < image.len() implies src[k] == image[k] by {
        let (p, c) = (k / 4, k % 4);
        lemma_position(w, h, p);
        assert(channel(src, w, p % w, p / w, c) == channel(image, w, p % w, p / w, c));
    }
    assert(src =~= image);
}

/// Every pixel that takes texture takes it from the pixel the offset points to,
/// not from a continued edge.
pub proof fn law_texture_is_real(
    image: Seq<Scalar>,
    region: Seq<bool>,
    sel: Option<Seq<Scalar>>,
    w: int,
    h: int,
    ox: int,
    oy: int,
    src: Seq<Scalar>,
    x: int,
    y: int,
    c: int,
)
    requires
        aligned(image, w, h, ox, oy, src),
        on_grid(w, h, x, y),
        0 <= c < 4,
        transplanted(region, sel, w, h, ox, oy, x, y),
    ensures
        channel(src, w, x, y, c) == channel(image, w, x - ox, y - oy, c),
{
}

/// Whether a point is the middle of pixel (`x`, `y`).
pub open spec fn is_middle(c: Point, x: int, y: int) -> bool {
    &&& c.x.is_finite() && value(c.x) == x as real + 1real / 2real
    &&& c.y.is_finite() && value(c.y) == y as real + 1real / 2real
}

/// The distance between two pixels on one axis is exact.
proof fn lemma_steps_apart(c: Scalar, x: int, i: int)
    requires
        0 <= x < 0x40_0000,
        0 <= x + i < 0x40_0000,
        c.is_finite(),
        value(c) == x as real + 1real / 2real,
    ensures
        from_centre(x + i, c).is_finite(),
        value(from_centre(x + i, c)) == i as real,
{
    let (w, half) = (Scalar::whole(x + i), Scalar { bits: HALF });
    lemma_constants();
    law_whole(x + i);
    lemma_half_whole(2 * (x + i) + 1);
    law_sum_is_exact(w, half, half_whole(2 * (x + i) + 1));
    lemma_signed_whole(i);
    law_difference_is_exact(w.sum(half), c, signed_whole(i));
}

/// The square of a whole number of steps: exact up to 2^24, and not below 2^24 from
/// there on.
proof fn lemma_square(d: Scalar, i: int)
    requires
        -0x40_0000 <= i <= 0x40_0000,
        d.is_finite(),
        value(d) == i as real,
    ensures
        d.product(d).is_finite(),
        value(d.product(d)) >= 0real,
        i * i <= 0x100_0000 ==> value(d.product(d)) == (i * i) as real,
        i * i > 0x100_0000 ==> value(d.product(d)) >= 0x100_0000real,
{
    assert(0 <= i * i <= 0x1000_0000_0000) by (nonlinear_arith)
        requires
            -0x40_0000 <= i <= 0x40_0000,
    ;
    lemma_real_product(i, i);
    assert(value(d) * value(d) == (i * i) as real);
    law_product(d, d);
    law_whole(0);
    law_product_stays_within(d, d, Scalar::whole(0));
    law_order_of_values(Scalar::whole(0), d.product(d));
    if i * i <= 0x100_0000 {
        law_whole(i * i);
        law_product_is_exact(d, d, Scalar::whole(i * i));
    } else {
        law_whole(0x100_0000);
        law_product_stays_within(d, d, Scalar::whole(0x100_0000));
        law_order_of_values(Scalar::whole(0x100_0000), d.product(d));
    }
}

/// A disk about the middle of a pixel looks at every pixel of its row up to its
/// radius.
proof fn lemma_reaches(c: Scalar, x: int, r: Scalar, n: int, i: int)
    requires
        0 <= x < 0x40_0000,
        c.is_finite(),
        value(c) == x as real + 1real / 2real,
        r.is_finite(),
        0 <= n < 0x800,
        value(r) == n as real,
        -n <= i <= n,
    ensures
        reaches(c, r, x + i),
{
    let (a, b) = (2 * (x - n) + 1, 2 * (x + n) + 1);
    lemma_half_whole(a);
    lemma_half_whole(b);
    law_difference_is_exact(c, r, half_whole(a));
    law_sum_is_exact(c, r, half_whole(b));
    law_floor(c.difference(r), x - n);
    law_ceil(c.sum(r), x + n + 1);
}

/// A disk of whole radius `n` about the middle of a pixel covers the pixels whose
/// middles lie in it: the one `i` columns and `j` rows away if and only if
/// `i^2 + j^2 <= n^2`. So a pixel of the pointer's own row or column is covered if
/// and only if it is no more than `n` pixels away.
pub proof fn law_disk_is_round(c: Point, x: int, y: int, r: Scalar, n: int, i: int, j: int)
    requires
        0 <= x < 0x40_0000 && 0 <= y < 0x40_0000,
        0 <= x + i < 0x40_0000 && 0 <= y + j < 0x40_0000,
        is_middle(c, x, y),
        r.is_finite(),
        0 <= n < 0x800,
        value(r) == n as real,
    ensures
        in_disk(c, r, x + i, y + j) <==> i * i + j * j <= n * n,
        j == 0 ==> (in_disk(c, r, x + i, y) <==> -n <= i <= n),
        i == 0 ==> (in_disk(c, r, x, y + j) <==> -n <= j <= n),
{
    let (dx, dy) = (from_centre(x + i, c.x), from_centre(y + j, c.y));
    lemma_steps_apart(c.x, x, i);
    lemma_steps_apart(c.y, y, j);
    lemma_square(dx, i);
    lemma_square(dy, j);
    let (xx, yy, rr) = (dx.product(dx), dy.product(dy), r.product(r));
    assert(0 <= n * n < 0x40_0000) by (nonlinear_arith)
        requires
            0 <= n < 0x800,
    ;
    lemma_square(r, n);
    let (lim, over) = (Scalar::whole(n * n), Scalar::whole(n * n + 1));
    law_whole(n * n);
    law_whole(n * n + 1);
    law_sum_stays_within(xx, yy, rr);
    law_sum_stays_within(xx, yy, over);
    law_order_of_values(rr, over);
    assert(i * i >= 0 && j * j >= 0) by (nonlinear_arith);
    assert((-n <= i <= n <==> i * i <= n * n) && (-n <= j <= n <==> j * j <= n * n))
        by (nonlinear_arith)
        requires
            n >= 0,
    ;
    if i * i + j * j <= n * n {
        lemma_reaches(c.x, x, r, n, i);
        lemma_reaches(c.y, y, r, n, j);
        assert(value(xx) + value(yy) == (i * i + j * j) as real);
    } else {
        assert(value(xx) + value(yy) >= (n * n + 1) as real);
        assert(over.at_most(xx.sum(yy)));
        assert(!xx.sum(yy).at_most(rr));
    }
}

/// A number times `a` and times `1 / a`, both off by their rounding.
proof fn lemma_there_and_back(v: real, a: real, k: real, c: real, i: real, l: real)
    requires
        0real < a <= 1real,
        k * a == 1real,
        k <= 0x2_0000real,
        0real < l,
        0x100_0000real * l <= 1real,
        0x100_0000real * size(c - v * a) <= size(v * a) + l,
        0x100_0000real * size(i - k) <= size(k) + l,
    ensures
        within(c * i, v, parts(4real * (size(v) + 1real))),
{
    let (w, n, u) = (v * a, 0x100_0000real, size(v));
    let (e, f, m) = (c - w, i - k, size(w));
    assert(k >= 1real) by (nonlinear_arith)
        requires
            0real < a <= 1real,
            k * a == 1real,
    ;
    assert(w * k == v) by (nonlinear_arith)
        requires
            w == v * a,
            k * a == 1real,
    ;
    assert(m * k == u) by (nonlinear_arith)
        requires
            w * k == v,
            k >= 1real,
            m == (if w < 0real { -w } else { w }),
            u == (if v < 0real { -v } else { v }),
    ;
    assert(c * i == v + w * f + e * k + e * f) by (nonlinear_arith)
        requires
            e == c - w,
            f == i - k,
            w * k == v,
    ;
    let (p, q, r) = (w * f, e * k, e * f);
    assert(-(2real * u) <= n * p <= 2real * u) by (nonlinear_arith)
        requires
            n == 0x100_0000real,
            p == w * f,
            m * k == u,
            -m <= w <= m,
            -(2real * k) <= n * f <= 2real * k,
    ;
    let lk = l * k;
    assert(lk <= 1real) by (nonlinear_arith)
        requires
            lk == l * k,
            0x100_0000real * l <= 1real,
            1real <= k <= 0x2_0000real,
            0real < l,
    ;
    assert(-(u + lk) <= n * q <= u + lk) by (nonlinear_arith)
        requires
            n == 0x100_0000real,
            q == e * k,
            lk == l * k,
            m * k == u,
            k >= 1real,
            -(m + l) <= n * e <= m + l,
    ;
    assert(-(u + lk) <= n * r <= u + lk) by (nonlinear_arith)
        requires
            n == 0x100_0000real,
            r == e * f,
            lk == l * k,
            m * k == u,
            k >= 1real,
            -(m + l) <= n * e <= m + l,
            -k <= f <= k,
    ;
}

/// Premultiplying a colour and making it straight again gives the colour back up to
/// rounding, whatever the alpha was, if only it is above the least one.
pub proof fn law_straight_colour_returns(v: Scalar, alpha: Scalar)
    requires
        v.is_finite() && alpha.is_finite(),
        size(value(v)) <= 0x1_0000real,
        (Scalar { bits: LEAST_ALPHA }).less(alpha),
        value(alpha) <= 1real,
    ensures
        ({
            let back = v.product(alpha).product(straightening(alpha));
            &&& back.is_finite()
            &&& within(value(back), value(v), parts(8real * (size(value(v)) + 1real)))
        }),
{
    let (least_a, one) = (Scalar { bits: LEAST_ALPHA }, Scalar { bits: ONE });
    lemma_constants();
    lemma_unit();
    lemma2_to64();
    lemma2_to64_rest();
    lemma_pattern(least_a, 40, 0xa7_c5ac, 0x100_0000_0000);
    law_order_of_values(least_a, alpha);
    let (x, a) = (value(v), value(alpha));
    let k = 1real / a;
    assert(k * a == 1real && 0real < k <= 0x2_0000real) by (nonlinear_arith)
        requires
            k == 1real / a,
            0x2_0000real * a >= 1real,
    ;
    let w = x * a;
    assert(size(w) <= 0x1_0000real) by (nonlinear_arith)
        requires
            w == x * a,
            0real < a <= 1real,
            -0x1_0000real <= x <= 0x1_0000real,
            size(w) == (if w < 0real { -w } else { w }),
    ;
    law_product(v, alpha);
    law_quotient(one, alpha);
    let (c, i) = (v.product(alpha), straightening(alpha));
    lemma_there_and_back(x, a, k, value(c), value(i), least());
    law_product(c, i);
}

/// Straight pixels survive the way to premultiplied ones and back, up to rounding:
/// every channel of every pixel whose alpha is above the least one.
pub proof fn law_straight_pixels_return(
    px: Seq<Scalar>,
    n: int,
    prem: Seq<Scalar>,
    back: Seq<Scalar>,
    k: int,
)
    requires
        premultiplied(px, n, prem),
        straightened(prem, n, back),
        0 <= k < 4 * n,
        px[k].is_finite(),
        size(value(px[k])) <= 0x1_0000real,
        ({
            let alpha = px[k - k % 4 + 3];
            alpha.is_finite() && (Scalar { bits: LEAST_ALPHA }).less(alpha) && value(alpha)
                <= 1real
        }),
    ensures
        back[k].is_finite(),
        within(value(back[k]), value(px[k]), parts(8real * (size(value(px[k])) + 1real))),
{
    let a = k - k % 4 + 3;
    assert(a % 4 == 3);
    assert(prem[a] == px[a]);
    if k % 4 != 3 {
        law_straight_colour_returns(px[k], px[a]);
        assert(back[k] == prem[k].product(straightening(prem[a])));
    }
}

/// The square root of the square of a whole number of pixels.
proof fn lemma_root_of_steps(s: Scalar, i: int)
    requires
        0 <= i < 0x800,
        s.is_finite() && !s.negative(),
        value(s) == (i * i) as real,
    ensures
        s.root().is_finite(),
        value(s.root()) == i as real,
{
    let t = Scalar::whole(i);
    lemma_unit();
    law_whole(i);
    law_small_numbers_are_exact(i);
    lemma_value(s);
    lemma_value(t);
    lemma_scaled_sign(s);
    lemma_constants();
    law_order_of_values(s, Scalar { bits: 0 });
    lemma_real_product(i, i);
    let u = unit();
    if i == 0 {
        assert(value(s) == 0real);
        assert(s.magnitude() == 0);
    } else {
        assert(i * i > 0) by (nonlinear_arith)
            requires
                i > 0,
        ;
        lemma_real_product(i * i, u);
        assert(s.abs_scaled() == (i * i) * u);
        assert(((i * i) * u) * u == (i * u) * (i * u)) by (nonlinear_arith);
        law_root_of_a_square(s, t);
    }
}

/// The coverage that a soft dab leaves at the part `part` of its radius.
pub open spec fn faded(old: real, part: real, flow: real) -> real {
    let c = old + (1real - part) * flow;
    if c > 1real {
        1real
    } else {
        c
    }
}

/// What a soft dab adds, in exact numbers.
proof fn lemma_softened(old: Scalar, d: Scalar, r: Scalar, flow: Scalar)
    requires
        old.is_finite() && d.is_finite() && r.is_finite() && flow.is_finite(),
        0real <= value(old) <= 1real,
        0real <= value(flow) <= 1real,
        0real <= value(d) <= value(r),
        0real < value(r),
    ensures
        softened(old, d, r, flow).is_finite(),
        within(
            value(softened(old, d, r, flow)),
            faded(value(old), value(d) / value(r), value(flow)),
            parts(16real),
        ),
{
    let one = Scalar { bits: ONE };
    lemma_constants();
    lemma_unit();
    let (dv, rv) = (value(d), value(r));
    let z = dv / rv;
    assert(0real <= z <= 1real) by (nonlinear_arith)
        requires
            z == dv / rv,
            0real <= dv <= rv,
            0real < rv,
    ;
    law_quotient(d, r);
    let q = d.quotient(r);
    law_difference_tracks(one, q, 1real, z, 0real, parts(2real), 1real, parts(4real));
    let (rest, f) = (one.difference(q), value(flow));
    law_product_tracks(
        rest,
        flow,
        1real - z,
        f,
        parts(4real),
        0real,
        1real,
        1real,
        parts(4real),
        1real,
        parts(6real),
    );
    let p = rest.product(flow);
    let g = (1real - z) * f;
    law_sum_tracks(old, p, value(old), g, 0real, parts(6real), 2real, parts(10real));
    law_order_of_values(one, old.sum(p));
}

/// A soft dab adds all of its flow at the pixel that it is about, none at its edge, and in
/// between the part of it that is left of the radius; no coverage gets above 1, and a
/// pixel beyond the radius keeps what it had. Stated of the pointer's own row and column.
pub proof fn law_soft_dab_fades(
    c: Point,
    x: int,
    y: int,
    r: Scalar,
    n: int,
    i: int,
    old: Scalar,
    flow: Scalar,
)
    requires
        0 <= x < 0x40_0000 && 0 <= y < 0x40_0000,
        is_middle(c, x, y),
        r.is_finite(),
        1 <= n < 0x800,
        value(r) == n as real,
        old.is_finite() && 0real <= value(old) <= 1real,
        flow.is_finite() && 0real <= value(flow) <= 1real,
        -0x800 < i < 0x800,
    ensures
        ({
            let away = if i < 0 {
                -i
            } else {
                i
            };
            let goal = faded(value(old), (away as real) / (n as real), value(flow));
            &&& 0 <= x + i < 0x40_0000 ==> ({
                let t = toned(old, c, r, flow, x + i, y);
                if away <= n {
                    t.is_finite() && within(value(t), goal, parts(16real))
                } else {
                    t == old
                }
            })
            &&& 0 <= y + i < 0x40_0000 ==> ({
                let t = toned(old, c, r, flow, x, y + i);
                if away <= n {
                    t.is_finite() && within(value(t), goal, parts(16real))
                } else {
                    t == old
                }
            })
        }),
{
    if 0 <= x + i < 0x40_0000 {
        lemma_row_tone(c, x, y, r, n, i, 0, i, old, flow);
    }
    if 0 <= y + i < 0x40_0000 {
        lemma_row_tone(c, x, y, r, n, 0, i, i, old, flow);
    }
}

proof fn lemma_row_tone(
    c: Point,
    x: int,
    y: int,
    r: Scalar,
    n: int,
    i: int,
    j: int,
    k: int,
    old: Scalar,
    flow: Scalar,
)
    requires
        0 <= x < 0x40_0000 && 0 <= y < 0x40_0000,
        0 <= x + i < 0x40_0000 && 0 <= y + j < 0x40_0000,
        (i == k && j == 0) || (i == 0 && j == k),
        -0x800 < k < 0x800,
        is_middle(c, x, y),
        r.is_finite(),
        1 <= n < 0x800,
        value(r) == n as real,
        old.is_finite() && 0real <= value(old) <= 1real,
        flow.is_finite() && 0real <= value(flow) <= 1real,
    ensures
        ({
            let away = if k < 0 {
                -k
            } else {
                k
            };
            let t = toned(old, c, r, flow, x + i, y + j);
            if away <= n {
                &&& t.is_finite()
                &&& within(
                    value(t),
                    faded(value(old), (away as real) / (n as real), value(flow)),
                    parts(16real),
                )
            } else {
                t == old
            }
        }),
{
    let away = if k < 0 {
        -k
    } else {
        k
    };
    let (dx, dy) = (from_centre(x + i, c.x), from_centre(y + j, c.y));
    lemma_steps_apart(c.x, x, i);
    lemma_steps_apart(c.y, y, j);
    lemma_square(dx, i);
    lemma_square(dy, j);
    assert(k * k == away * away) by (nonlinear_arith)
        requires
            away == k || away == -k,
    ;
    assert(0 <= away * away < 0x40_0000) by (nonlinear_arith)
        requires
            0 <= away < 0x800,
    ;
    assert(i * i + j * j == away * away && i * i <= away * away && j * j <= away * away) by {
        assert(0 * 0 == 0);
    }
    let (xx, yy) = (dx.product(dx), dy.product(dy));
    let s = squared_distance(x + i, y + j, c);
    law_whole(away * away);
    law_sum_is_exact(xx, yy, Scalar::whole(away * away));
    lemma_square_sign(dx);
    lemma_square_sign(dy);
    assert(!s.negative()) by {
        lemma_sum_not_negative(xx, yy);
    }
    lemma_root_of_steps(s, away);
    let d = s.root();
    law_order_of_values(d, r);
    if away <= n {
        lemma_reaches(c.x, x, r, n, i);
        lemma_reaches(c.y, y, r, n, j);
        lemma_softened(old, d, r, flow);
    }
}

proof fn lemma_square_sign(d: Scalar)
    requires
        d.is_finite(),
        d.product(d).is_finite(),
    ensures
        !d.product(d).negative(),
{
    law_product_is_near(d, d);
}

proof fn lemma_sum_not_negative(a: Scalar, b: Scalar)
    requires
        a.is_finite() && b.is_finite(),
        !a.negative() && !b.negative(),
    ensures
        !a.sum(b).negative(),
{
    lemma_scaled_sign(a);
    lemma_scaled_sign(b);
    let n = a.scaled() + b.scaled();
    if n != 0 {
        law_rounding_stays_within(false, n, 1, 0);
    }
}

} // verus!
