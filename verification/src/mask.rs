//! Masks over the canvas: one value per pixel, row by row.

use crate::exact::{
    half_whole, law_difference_is_exact, law_order_of_values, law_product, law_product_is_exact,
    law_product_stays_within, law_product_tracks, law_quotient, law_quotient_stays_within, law_sum,
    law_sum_is_exact, law_sum_stays_within, law_sum_tracks, law_whole, lemma_constants,
    lemma_half_whole, lemma_pattern, lemma_signed_whole, lemma_unit, parts, signed_whole, size,
    value, within,
};
use crate::geometry::{HALF, LEAST_EXTENT, ONE};
use crate::grid::{cell, grid_fits, index_of, lemma_index, lemma_position, on_grid, pixel_count};
use crate::scalar::Scalar;
use vstd::arithmetic::mul::*;
use vstd::arithmetic::power2::*;
use vstd::prelude::*;

verus! {

/// The whole number of pixels that a distance is rounded to.
pub open spec fn whole_pixels(d: Scalar) -> int {
    d.cast(d.round_int(), i64::MIN as int, i64::MAX as int)
}

/// `out` is the `w` by `h` region `mask`, moved right by `dx` and down by `dy`;
/// what leaves the canvas is lost, and nothing enters it.
pub open spec fn translated(
    mask: Seq<bool>,
    w: int,
    h: int,
    dx: int,
    dy: int,
    out: Seq<bool>,
) -> bool {
    &&& out.len() == w * h
    &&& forall|x: int, y: int|
        on_grid(w, h, x, y) ==> #[trigger] cell(out, w, x, y) == translated_at(
            mask,
            w,
            h,
            dx,
            dy,
            x,
            y,
        )
}

/// Whether a moved region covers column `x` of row `y`.
pub open spec fn translated_at(
    mask: Seq<bool>,
    w: int,
    h: int,
    dx: int,
    dy: int,
    x: int,
    y: int,
) -> bool {
    on_grid(w, h, x - dx, y - dy) && cell(mask, w, x - dx, y - dy)
}

/// Move a region by a distance in document pixels, rounded to whole pixels.
pub fn translate_mask(mask: &[bool], w: u32, h: u32, dx: Scalar, dy: Scalar) -> (out: Vec<bool>)
    requires
        mask@.len() >= w * h,
        grid_fits(w as int, h as int, 1),
    ensures
        translated(mask@, w as int, h as int, whole_pixels(dx), whole_pixels(dy), out@),
{
    proof {
        lemma_mul_nonnegative(w as int, h as int);
    }
    let n: usize = pixel_count(w, h);
    let (mx, my): (i128, i128) = (dx.round_i64() as i128, dy.round_i64() as i128);
    let mut out: Vec<bool> = Vec::new();
    let mut k: usize = 0;
    while k < n
        invariant
            n == w * h,
            n <= mask@.len(),
            n <= u32::MAX,
            k <= n,
            mx == whole_pixels(dx),
            my == whole_pixels(dy),
            i64::MIN <= mx <= i64::MAX,
            i64::MIN <= my <= i64::MAX,
            out@.len() == k,
            forall|j: int| 0 <= j < k ==> #[trigger] out@[j] == translated_at(
                mask@,
                w as int,
                h as int,
                mx as int,
                my as int,
                j % (w as int),
                j / (w as int),
            ),
        decreases n - k,
    {
        proof {
            lemma_position(w as int, h as int, k as int);
        }
        let sx: i128 = (k % w as usize) as i128 - mx;
        let sy: i128 = (k / w as usize) as i128 - my;
        if 0 <= sx && sx < w as i128 && 0 <= sy && sy < h as i128 {
            proof {
                lemma_index(w as int, h as int, sx as int, sy as int);
                lemma_mul_nonnegative(sy as int, w as int);
            }
            out.push(mask[sy as usize * w as usize + sx as usize]);
        } else {
            out.push(false);
        }
        k = k + 1;
    }
    proof {
        assert forall|x: int, y: int| on_grid(w as int, h as int, x, y) implies #[trigger] cell(
            out@,
            w as int,
            x,
            y,
        ) == translated_at(mask@, w as int, h as int, mx as int, my as int, x, y) by {
            lemma_index(w as int, h as int, x, y);
            let j = index_of(w as int, x, y);
            assert(out@[j] == translated_at(
                mask@,
                w as int,
                h as int,
                mx as int,
                my as int,
                j % (w as int),
                j / (w as int),
            ));
        }
    }
    out
}

/// A region moved nowhere is the region.
pub proof fn law_translate_by_nothing(mask: Seq<bool>, w: int, h: int, out: Seq<bool>)
    requires
        w >= 0,
        h >= 0,
        mask.len() == w * h,
        translated(mask, w, h, 0, 0, out),
    ensures
        out == mask,
{
    assert forall|i: int| 0 <= i < mask.len() implies out[i] == mask[i] by {
        lemma_position(w, h, i);
        assert(cell(out, w, i % w, i / w) == cell(mask, w, i % w, i / w));
    }
    assert(out =~= mask);
}

/// Moving a region back leaves no pixel set that was not set before, and keeps
/// every one that stayed on the canvas.
pub proof fn law_translate_back(
    mask: Seq<bool>,
    w: int,
    h: int,
    dx: int,
    dy: int,
    there: Seq<bool>,
    back: Seq<bool>,
    x: int,
    y: int,
)
    requires
        translated(mask, w, h, dx, dy, there),
        translated(there, w, h, -dx, -dy, back),
        on_grid(w, h, x, y),
    ensures
        cell(back, w, x, y) <==> cell(mask, w, x, y) && on_grid(w, h, x + dx, y + dy),
{
    assert(cell(back, w, x, y) == translated_at(there, w, h, -dx, -dy, x, y));
    if on_grid(w, h, x + dx, y + dy) {
        assert(cell(there, w, x + dx, y + dy) == translated_at(
            mask,
            w,
            h,
            dx,
            dy,
            x + dx,
            y + dy,
        ));
        assert(x + dx - dx == x && y + dy - dy == y);
    }
}

/// The smallest box that holds every pixel whose coverage is above a limit:
/// left, top, right and bottom, the last two one past the box.
pub struct Bounds {
    pub x0: u32,
    pub y0: u32,
    pub x1: u32,
    pub y1: u32,
}

/// Whether the coverage at column `x` of row `y` is above `limit`.
pub open spec fn covered(sel: Seq<Scalar>, w: int, limit: Scalar, x: int, y: int) -> bool {
    limit.less(cell(sel, w, x, y))
}

impl Bounds {
    pub open spec fn holds(self, x: int, y: int) -> bool {
        self.x0 <= x < self.x1 && self.y0 <= y < self.y1
    }

    /// Every covered pixel lies in the box, and each side of the box touches one.
    pub open spec fn encloses(self, sel: Seq<Scalar>, w: int, h: int, limit: Scalar) -> bool {
        &&& self.x0 < self.x1 <= w
        &&& self.y0 < self.y1 <= h
        &&& forall|x: int, y: int|
            on_grid(w, h, x, y) && #[trigger] covered(sel, w, limit, x, y) ==> self.holds(x, y)
        &&& exists|y: int|
            self.y0 <= y < self.y1 && #[trigger] covered(sel, w, limit, self.x0 as int, y)
        &&& exists|y: int|
            self.y0 <= y < self.y1 && #[trigger] covered(sel, w, limit, self.x1 - 1, y)
        &&& exists|x: int|
            self.x0 <= x < self.x1 && #[trigger] covered(sel, w, limit, x, self.y0 as int)
        &&& exists|x: int|
            self.x0 <= x < self.x1 && #[trigger] covered(sel, w, limit, x, self.y1 - 1)
    }
}

/// The box of the pixels whose coverage is above `limit`, if there are any.
pub fn coverage_bounds(sel: &[Scalar], w: u32, h: u32, limit: Scalar) -> (r: Option<Bounds>)
    requires
        sel@.len() >= w * h,
        grid_fits(w as int, h as int, 1),
    ensures
        match r {
            Some(b) => b.encloses(sel@, w as int, h as int, limit),
            None => forall|x: int, y: int|
                on_grid(w as int, h as int, x, y) ==> !#[trigger] covered(
                    sel@,
                    w as int,
                    limit,
                    x,
                    y,
                ),
        },
{
    proof {
        lemma_mul_nonnegative(w as int, h as int);
    }
    let n: usize = pixel_count(w, h);
    let mut b: Bounds = Bounds { x0: 0, y0: 0, x1: 0, y1: 0 };
    let mut found: bool = false;
    let mut k: usize = 0;
    while k < n
        invariant
            n == w * h,
            n <= sel@.len(),
            n <= u32::MAX,
            k <= n,
            !found ==> forall|x: int, y: int|
                on_grid(w as int, h as int, x, y) && index_of(w as int, x, y) < k
                    ==> !#[trigger] covered(sel@, w as int, limit, x, y),
            found ==> {
                &&& b.x0 < b.x1 <= w
                &&& b.y0 < b.y1 <= h
                &&& forall|x: int, y: int|
                    on_grid(w as int, h as int, x, y) && index_of(w as int, x, y) < k
                        && #[trigger] covered(sel@, w as int, limit, x, y) ==> b.holds(x, y)
                &&& exists|y: int|
                    b.y0 <= y < b.y1 && #[trigger] covered(
                        sel@,
                        w as int,
                        limit,
                        b.x0 as int,
                        y,
                    )
                &&& exists|y: int|
                    b.y0 <= y < b.y1 && #[trigger] covered(sel@, w as int, limit, b.x1 - 1, y)
                &&& exists|x: int|
                    b.x0 <= x < b.x1 && #[trigger] covered(
                        sel@,
                        w as int,
                        limit,
                        x,
                        b.y0 as int,
                    )
                &&& exists|x: int|
                    b.x0 <= x < b.x1 && #[trigger] covered(sel@, w as int, limit, x, b.y1 - 1)
            },
        decreases n - k,
    {
        proof {
            lemma_position(w as int, h as int, k as int);
        }
        let (x, y): (u32, u32) = ((k % w as usize) as u32, (k / w as usize) as u32);
        let ghost before = b;
        let ghost seen = found;
        let hit: bool = sel[k].gt(limit);
        if hit {
            assert(covered(sel@, w as int, limit, x as int, y as int));
            if found {
                b = Bounds {
                    x0: if x < b.x0 {
                        x
                    } else {
                        b.x0
                    },
                    y0: if y < b.y0 {
                        y
                    } else {
                        b.y0
                    },
                    x1: if x + 1 > b.x1 {
                        x + 1
                    } else {
                        b.x1
                    },
                    y1: if y + 1 > b.y1 {
                        y + 1
                    } else {
                        b.y1
                    },
                };
            } else {
                b = Bounds { x0: x, y0: y, x1: x + 1, y1: y + 1 };
                found = true;
            }
        }
        proof {
            if hit {
                let (s, width) = (sel@, w as int);
                let left = choose|c: int|
                    before.y0 <= c < before.y1 && #[trigger] covered(
                        s,
                        width,
                        limit,
                        before.x0 as int,
                        c,
                    );
                let right = choose|c: int|
                    before.y0 <= c < before.y1 && #[trigger] covered(
                        s,
                        width,
                        limit,
                        before.x1 - 1,
                        c,
                    );
                let upper = choose|c: int|
                    before.x0 <= c < before.x1 && #[trigger] covered(
                        s,
                        width,
                        limit,
                        c,
                        before.y0 as int,
                    );
                let lower = choose|c: int|
                    before.x0 <= c < before.x1 && #[trigger] covered(
                        s,
                        width,
                        limit,
                        c,
                        before.y1 - 1,
                    );
                let left = if !seen || x < before.x0 { y as int } else { left };
                let right = if !seen || x + 1 > before.x1 { y as int } else { right };
                let upper = if !seen || y < before.y0 { x as int } else { upper };
                let lower = if !seen || y + 1 > before.y1 { x as int } else { lower };
                assert(b.y0 <= left < b.y1 && covered(s, width, limit, b.x0 as int, left));
                assert(b.y0 <= right < b.y1 && covered(s, width, limit, b.x1 - 1, right));
                assert(b.x0 <= upper < b.x1 && covered(s, width, limit, upper, b.y0 as int));
                assert(b.x0 <= lower < b.x1 && covered(s, width, limit, lower, b.y1 - 1));
            }
            assert forall|cx: int, cy: int|
                on_grid(w as int, h as int, cx, cy) && index_of(w as int, cx, cy) < k + 1
                    && #[trigger] covered(sel@, w as int, limit, cx, cy) implies found && b.holds(
                cx,
                cy,
            ) by {
                if index_of(w as int, cx, cy) == k {
                    lemma_index(w as int, h as int, cx, cy);
                }
            }
        }
        k = k + 1;
    }
    if found {
        proof {
            assert forall|x: int, y: int|
                on_grid(w as int, h as int, x, y) && #[trigger] covered(
                    sel@,
                    w as int,
                    limit,
                    x,
                    y,
                ) implies b.holds(x, y) by {
                lemma_index(w as int, h as int, x, y);
            }
        }
        Some(b)
    } else {
        proof {
            assert forall|x: int, y: int| on_grid(w as int, h as int, x, y) implies !#[trigger] covered(
                sel@,
                w as int,
                limit,
                x,
                y,
            ) by {
                lemma_index(w as int, h as int, x, y);
            }
        }
        None
    }
}

/// There is one box around the covered pixels, and every box that holds them all
/// holds it.
pub proof fn law_bounds_are_smallest(
    sel: Seq<Scalar>,
    w: int,
    h: int,
    limit: Scalar,
    b: Bounds,
    other: Bounds,
)
    requires
        b.encloses(sel, w, h, limit),
        forall|x: int, y: int|
            on_grid(w, h, x, y) && #[trigger] covered(sel, w, limit, x, y) ==> other.holds(x, y),
    ensures
        other.x0 <= b.x0,
        other.y0 <= b.y0,
        b.x1 <= other.x1,
        b.y1 <= other.y1,
{
}

/// Whether the middle of the pixel at column `x` of row `y` lies in a marquee.
pub open spec fn in_marquee(rect: Seq<Scalar>, ellipse: bool, x: int, y: int) -> bool {
    let half = Scalar { bits: HALF };
    let least = Scalar { bits: LEAST_EXTENT };
    let (px, py) = (Scalar::whole(x).sum(half), Scalar::whole(y).sum(half));
    let (rx, ry, rw, rh) = (rect[0], rect[1], rect[2], rect[3]);
    if ellipse {
        let (cx, cy) = (rx.sum(rw.product(half)), ry.sum(rh.product(half)));
        let (hx, hy) = (rw.product(half).greater(least), rh.product(half).greater(least));
        let (dx, dy) = (px.difference(cx).quotient(hx), py.difference(cy).quotient(hy));
        dx.product(dx).sum(dy.product(dy)).at_most(Scalar { bits: ONE })
    } else {
        rx.at_most(px) && px.at_most(rx.sum(rw)) && ry.at_most(py) && py.at_most(ry.sum(rh))
    }
}

/// A rectangle or ellipse marquee as a selection mask of zeros and ones.
pub fn shape_mask(rect: [Scalar; 4], ellipse: bool, w: u32, h: u32) -> (m: Vec<Scalar>)
    requires
        grid_fits(w as int, h as int, 1),
    ensures
        m@.len() == w * h,
        forall|x: int, y: int|
            on_grid(w as int, h as int, x, y) ==> #[trigger] cell(m@, w as int, x, y) == (Scalar {
                bits: if in_marquee(rect@, ellipse, x, y) {
                    ONE
                } else {
                    0
                },
            }),
{
    proof {
        lemma_mul_nonnegative(w as int, h as int);
    }
    let (rx, ry, rw, rh): (Scalar, Scalar, Scalar, Scalar) = (rect[0], rect[1], rect[2], rect[3]);
    let half: Scalar = Scalar { bits: HALF };
    let least: Scalar = Scalar { bits: LEAST_EXTENT };
    let (cx, cy): (Scalar, Scalar) = (rx.plus(rw.times(half)), ry.plus(rh.times(half)));
    let (hx, hy): (Scalar, Scalar) = (rw.times(half).max(least), rh.times(half).max(least));
    let n: usize = pixel_count(w, h);
    let mut m: Vec<Scalar> = Vec::new();
    let mut k: usize = 0;
    while k < n
        invariant
            n == w * h,
            n <= u32::MAX,
            k <= n,
            rx == rect@[0],
            ry == rect@[1],
            rw == rect@[2],
            rh == rect@[3],
            half == (Scalar { bits: HALF }),
            cx == rx.sum(rw.product(half)),
            cy == ry.sum(rh.product(half)),
            hx == rw.product(half).greater(Scalar { bits: LEAST_EXTENT }),
            hy == rh.product(half).greater(Scalar { bits: LEAST_EXTENT }),
            m@.len() == k,
            forall|j: int|
                0 <= j < k ==> (#[trigger] m@[j]).bits == (if in_marquee(
                    rect@,
                    ellipse,
                    j % (w as int),
                    j / (w as int),
                ) {
                    ONE
                } else {
                    0
                }),
        decreases n - k,
    {
        proof {
            lemma_position(w as int, h as int, k as int);
        }
        let px: Scalar = Scalar::from_u32((k % w as usize) as u32).plus(half);
        let py: Scalar = Scalar::from_u32((k / w as usize) as u32).plus(half);
        let inside: bool = if ellipse {
            let (dx, dy): (Scalar, Scalar) = (px.minus(cx).over(hx), py.minus(cy).over(hy));
            dx.times(dx).plus(dy.times(dy)).le(Scalar { bits: ONE })
        } else {
            px.ge(rx) && px.le(rx.plus(rw)) && py.ge(ry) && py.le(ry.plus(rh))
        };
        m.push(
            Scalar {
                bits: if inside {
                    ONE
                } else {
                    0
                },
            },
        );
        k = k + 1;
    }
    proof {
        assert forall|x: int, y: int| on_grid(w as int, h as int, x, y) implies #[trigger] cell(
            m@,
            w as int,
            x,
            y,
        ) == (Scalar {
            bits: if in_marquee(rect@, ellipse, x, y) {
                ONE
            } else {
                0
            },
        }) by {
            lemma_index(w as int, h as int, x, y);
            let j = index_of(w as int, x, y);
            assert(m@[j].bits == (if in_marquee(rect@, ellipse, j % (w as int), j / (w as int)) {
                ONE
            } else {
                0
            }));
        }
    }
    m
}

/// A rectangle marquee with whole corners and sides selects the pixels that lie in it,
/// from its first column and row up to, and without, those at its far sides.
pub proof fn law_marquee_selects_whole_pixels(
    rect: Seq<Scalar>,
    left: int,
    top: int,
    width: int,
    height: int,
    x: int,
    y: int,
)
    requires
        rect.len() == 4,
        rect[0].is_finite() && rect[1].is_finite() && rect[2].is_finite() && rect[3].is_finite(),
        0 <= left < 0x40_0000 && 0 <= top < 0x40_0000,
        0 <= width < 0x40_0000 && 0 <= height < 0x40_0000,
        value(rect[0]) == left as real && value(rect[1]) == top as real,
        value(rect[2]) == width as real && value(rect[3]) == height as real,
        0 <= x < 0x40_0000 && 0 <= y < 0x40_0000,
    ensures
        in_marquee(rect, false, x, y) <==> left <= x < left + width && top <= y < top + height,
{
    lemma_side(rect[0], rect[2], left, width, x);
    lemma_side(rect[1], rect[3], top, height, y);
}

proof fn lemma_side(start: Scalar, extent: Scalar, a: int, n: int, x: int)
    requires
        start.is_finite() && extent.is_finite(),
        0 <= a < 0x40_0000 && 0 <= n < 0x40_0000 && 0 <= x < 0x40_0000,
        value(start) == a as real,
        value(extent) == n as real,
    ensures
        ({
            let p = Scalar::whole(x).sum(Scalar { bits: HALF });
            start.at_most(p) && p.at_most(start.sum(extent)) <==> a <= x < a + n
        }),
{
    let half = Scalar { bits: HALF };
    lemma_constants();
    law_whole(x);
    lemma_half_whole(2 * x + 1);
    law_sum_is_exact(Scalar::whole(x), half, half_whole(2 * x + 1));
    law_whole(a + n);
    law_sum_is_exact(start, extent, Scalar::whole(a + n));
    let p = Scalar::whole(x).sum(half);
    law_order_of_values(start, p);
    law_order_of_values(p, start.sum(extent));
}

/// Twice the distance from the middle of a span to the middle of pixel `x`.
pub open spec fn twice_off(start: int, extent: int, x: int) -> int {
    2 * x + 1 - 2 * start - extent
}

/// How far a pixel lies from the middle of a span, in halves of the span.
proof fn lemma_off_middle(start: Scalar, extent: Scalar, a: int, n: int, x: int)
    requires
        start.is_finite() && extent.is_finite(),
        0 <= a < 0x10_0000 && 1 <= n < 0x10_0000 && 0 <= x < 0x10_0000,
        value(start) == a as real,
        value(extent) == n as real,
    ensures
        ({
            let half = Scalar { bits: HALF };
            let p = Scalar::whole(x).sum(half);
            let c = start.sum(extent.product(half));
            let h = extent.product(half).greater(Scalar { bits: LEAST_EXTENT });
            let d = p.difference(c).quotient(h);
            let z = (twice_off(a, n, x) as real) / (n as real);
            &&& d.is_finite()
            &&& size(value(d)) <= 0x100_0000real
            &&& size(z) <= 2real ==> within(value(d), z, parts(3real))
            &&& size(z) > 2real ==> size(value(d)) >= 2real
        }),
{
    let (half, least_h) = (Scalar { bits: HALF }, Scalar { bits: LEAST_EXTENT });
    let i = twice_off(a, n, x);
    lemma_constants();
    lemma_unit();
    lemma2_to64();
    lemma2_to64_rest();
    lemma_pattern(least_h, 33, 0x83_126f, 0x2_0000_0000);
    law_whole(x);
    lemma_half_whole(2 * x + 1);
    law_sum_is_exact(Scalar::whole(x), half, half_whole(2 * x + 1));
    lemma_half_whole(n);
    law_product_is_exact(extent, half, half_whole(n));
    let hw = extent.product(half);
    law_order_of_values(hw, least_h);
    lemma_half_whole(2 * a + n);
    law_sum_is_exact(start, hw, half_whole(2 * a + n));
    let (p, c) = (Scalar::whole(x).sum(half), start.sum(hw));
    if i == 0 {
        law_difference_is_exact(p, c, Scalar { bits: 0 });
    } else {
        lemma_half_whole(i);
        law_difference_is_exact(p, c, half_whole(i));
    }
    let e = p.difference(c);
    let (ir, nr, ev, hv) = (i as real, n as real, value(e), value(hw));
    let z = ir / nr;
    assert(ev / hv == z) by (nonlinear_arith)
        requires
            z == ir / nr,
            2real * ev == ir,
            2real * hv == nr,
            nr >= 1real,
    ;
    assert(size(z) <= 0x80_0000real) by (nonlinear_arith)
        requires
            z == ir / nr,
            nr >= 1real,
            -0x80_0000real <= ir <= 0x80_0000real,
            size(z) == (if z < 0real { -z } else { z }),
    ;
    law_quotient(e, hw);
    let d = e.quotient(hw);
    lemma_signed_whole(2);
    lemma_signed_whole(-2);
    law_quotient_stays_within(e, hw, signed_whole(2));
    law_quotient_stays_within(e, hw, signed_whole(-2));
    law_order_of_values(signed_whole(2), d);
    law_order_of_values(d, signed_whole(-2));
}

/// The square of an offset: near the exact one, or at least 4 far from the middle.
proof fn lemma_offset_square(d: Scalar, z: real)
    requires
        d.is_finite(),
        size(value(d)) <= 0x100_0000real,
        size(z) <= 2real ==> within(value(d), z, parts(3real)),
        size(z) > 2real ==> size(value(d)) >= 2real,
    ensures
        d.product(d).is_finite(),
        0real <= value(d.product(d)) <= 0x2_0000_0000_0000real,
        size(z) <= 2real ==> within(value(d.product(d)), z * z, parts(20real)),
        size(z) <= 2real ==> 0real <= z * z <= 4real,
        size(z) > 2real ==> value(d.product(d)) >= 4real && z * z >= 4real,
{
    let v = value(d);
    let s = v * v;
    assert(0real <= s <= 0x1_0000_0000_0000real) by (nonlinear_arith)
        requires
            s == v * v,
            -0x100_0000real <= v <= 0x100_0000real,
    ;
    lemma_constants();
    lemma_unit();
    law_product(d, d);
    law_product_stays_within(d, d, Scalar { bits: 0 });
    law_order_of_values(Scalar { bits: 0 }, d.product(d));
    if size(z) <= 2real {
        law_product_tracks(
            d,
            d,
            z,
            z,
            parts(3real),
            parts(3real),
            2real,
            2real,
            parts(13real),
            4real,
            parts(18real),
        );
        assert(0real <= z * z) by (nonlinear_arith);
    } else {
        assert(s >= 4real && z * z >= 4real) by (nonlinear_arith)
            requires
                s == v * v,
                v >= 2real || v <= -2real,
                z >= 2real || z <= -2real,
        ;
        law_whole(4);
        law_product_stays_within(d, d, Scalar::whole(4));
        law_order_of_values(Scalar::whole(4), d.product(d));
    }
}

/// An ellipse marquee selects the pixels whose middles lie in the ellipse that fills its
/// box: those at most one from the box's middle, with each axis measured in halves of the
/// box. Only a pixel on its very edge depends on rounding.
pub proof fn law_ellipse_fills_its_box(
    rect: Seq<Scalar>,
    left: int,
    top: int,
    width: int,
    height: int,
    x: int,
    y: int,
)
    requires
        rect.len() == 4,
        rect[0].is_finite() && rect[1].is_finite() && rect[2].is_finite() && rect[3].is_finite(),
        0 <= left < 0x10_0000 && 0 <= top < 0x10_0000,
        1 <= width < 0x10_0000 && 1 <= height < 0x10_0000,
        value(rect[0]) == left as real && value(rect[1]) == top as real,
        value(rect[2]) == width as real && value(rect[3]) == height as real,
        0 <= x < 0x10_0000 && 0 <= y < 0x10_0000,
    ensures
        ({
            let u = (twice_off(left, width, x) as real) / (width as real);
            let v = (twice_off(top, height, y) as real) / (height as real);
            &&& u * u + v * v <= 1real - parts(64real) ==> in_marquee(rect, true, x, y)
            &&& u * u + v * v >= 1real + parts(64real) ==> !in_marquee(rect, true, x, y)
        }),
{
    let (half, one, least_h) = (
        Scalar { bits: HALF },
        Scalar { bits: ONE },
        Scalar { bits: LEAST_EXTENT },
    );
    lemma_constants();
    lemma_off_middle(rect[0], rect[2], left, width, x);
    lemma_off_middle(rect[1], rect[3], top, height, y);
    let u = (twice_off(left, width, x) as real) / (width as real);
    let v = (twice_off(top, height, y) as real) / (height as real);
    let (px, py) = (Scalar::whole(x).sum(half), Scalar::whole(y).sum(half));
    let (cx, cy) = (
        rect[0].sum(rect[2].product(half)),
        rect[1].sum(rect[3].product(half)),
    );
    let (hx, hy) = (
        rect[2].product(half).greater(least_h),
        rect[3].product(half).greater(least_h),
    );
    let (dx, dy) = (px.difference(cx).quotient(hx), py.difference(cy).quotient(hy));
    lemma_offset_square(dx, u);
    lemma_offset_square(dy, v);
    let (xx, yy) = (dx.product(dx), dy.product(dy));
    lemma_ellipse_sum(xx, yy, u * u, v * v, size(u) <= 2real, size(v) <= 2real);
}

proof fn lemma_ellipse_sum(xx: Scalar, yy: Scalar, a: real, b: real, near_x: bool, near_y: bool)
    requires
        xx.is_finite() && yy.is_finite(),
        0real <= value(xx) <= 0x2_0000_0000_0000real,
        0real <= value(yy) <= 0x2_0000_0000_0000real,
        near_x ==> within(value(xx), a, parts(20real)) && 0real <= a <= 4real,
        near_y ==> within(value(yy), b, parts(20real)) && 0real <= b <= 4real,
        !near_x ==> value(xx) >= 4real && a >= 4real,
        !near_y ==> value(yy) >= 4real && b >= 4real,
    ensures
        a + b <= 1real - parts(64real) ==> xx.sum(yy).at_most(Scalar { bits: ONE }),
        a + b >= 1real + parts(64real) ==> !xx.sum(yy).at_most(Scalar { bits: ONE }),
{
    let one = Scalar { bits: ONE };
    lemma_constants();
    lemma_unit();
    law_sum(xx, yy);
    law_order_of_values(xx.sum(yy), one);
    if near_x && near_y {
        law_sum_tracks(xx, yy, a, b, parts(20real), parts(20real), 8real, parts(49real));
    } else {
        law_whole(4);
        law_sum_stays_within(xx, yy, Scalar::whole(4));
        law_order_of_values(Scalar::whole(4), xx.sum(yy));
    }
}

} // verus!
