//! Pattern fill: a repeatable tile captured from the canvas, and the fill that
//! tiles it over a layer with a scale and an offset.
//!
//! Pixels are linear premultiplied RGBA, so a fill is a plain source-over.

use crate::arith::{
    law_adding_zero, law_minus_itself, law_small_numbers_are_exact, law_times_one, law_times_zero,
    lemma_one,
};
use crate::exact::{
    law_difference_is_exact, law_difference_tracks, law_floor, law_order_of_values,
    law_product_tracks, law_quotient, law_quotient_stays_within, law_sum_tracks, law_whole, least,
    lemma_constants, lemma_pattern, lemma_real_product, lemma_signed_whole, lemma_unit, parts,
    signed_whole, size, value, within,
};
use crate::geometry::ONE;
use crate::grid::{
    cell, channel, grid_fits, index_of, lemma_index, lemma_position, on_grid, pixel_count,
};
use crate::mask::{coverage_bounds, covered, Bounds};
use crate::scalar::{law_whole_numbers_survive, Scalar};
use vstd::arithmetic::div_mod::*;
use vstd::arithmetic::mul::*;
use vstd::arithmetic::power2::*;
use vstd::prelude::*;

verus! {

/// One millionth, the least scale that a tile is drawn at.
pub const LEAST_SCALE: u32 = 0x3586_37bd;

/// A pattern tile: `w` by `h` RGBA pixels, row by row.
pub struct Pattern {
    pub w: u32,
    pub h: u32,
    pub px: Vec<Scalar>,
}

impl Pattern {
    pub open spec fn wf(self) -> bool {
        &&& self.px@.len() == 4 * (self.w * self.h)
        &&& grid_fits(self.w as int, self.h as int, 4)
    }

    pub open spec fn is_empty(self) -> bool {
        self.w == 0 || self.h == 0
    }
}

/// The scale that a tile is drawn at: `scale`, unless it is too small or a NaN.
pub open spec fn drawn_scale(scale: Scalar) -> Scalar {
    let least = Scalar { bits: LEAST_SCALE };
    if least.less(scale) {
        scale
    } else {
        least
    }
}

/// The texel that a destination coordinate samples, on an axis where the tile
/// has `extent` texels: the coordinate in tile space, wrapped around.
pub open spec fn texel(d: int, extent: int, scale: Scalar, offset: Scalar) -> int {
    let v = Scalar::whole(d).difference(offset).quotient(drawn_scale(scale));
    v.cast(v.floor_int(), i64::MIN as int, i64::MAX as int) % extent
}

fn texel_along(d: u32, extent: u32, scale: Scalar, offset: Scalar) -> (r: u32)
    requires
        extent > 0,
    ensures
        r == texel(d as int, extent as int, scale, offset),
        r < extent,
{
    let least: Scalar = Scalar { bits: LEAST_SCALE };
    let s: Scalar = if scale.gt(least) {
        scale
    } else {
        least
    };
    let v: i64 = Scalar::from_u32(d).minus(offset).over(s).floor_i64();
    proof {
        lemma_mod_bound(v as int, extent as int);
    }
    match v.checked_rem_euclid(extent as i64) {
        Some(t) => t as u32,
        None => 0,
    }
}

/// The texel of a `tw` by `th` tile that the destination pixel (`dx`, `dy`)
/// samples. A tile without texels gives the origin.
pub fn pattern_texel(
    dx: u32,
    dy: u32,
    tw: u32,
    th: u32,
    scale: Scalar,
    offset: (Scalar, Scalar),
) -> (r: (u32, u32))
    ensures
        tw == 0 || th == 0 ==> r == (0u32, 0u32),
        tw > 0 && th > 0 ==> {
            &&& r.0 == texel(dx as int, tw as int, scale, offset.0) < tw
            &&& r.1 == texel(dy as int, th as int, scale, offset.1) < th
        },
{
    if tw == 0 || th == 0 {
        return (0, 0);
    }
    (texel_along(dx, tw, scale, offset.0), texel_along(dy, th, scale, offset.1))
}

/// The coverage of pixel `i`: full where there is no selection.
pub open spec fn coverage(sel: Option<Seq<Scalar>>, i: int) -> Scalar {
    match sel {
        Some(s) => s[i],
        None => Scalar { bits: ONE },
    }
}

/// One channel of a source-over: `src` with alpha `alpha`, both scaled by the
/// coverage, over `dst`.
pub open spec fn source_over(src: Scalar, alpha: Scalar, clip: Scalar, dst: Scalar) -> Scalar {
    let rest = (Scalar { bits: ONE }).difference(alpha.product(clip));
    src.product(clip).sum(dst.product(rest))
}

/// One channel of a source-over.
pub(crate) fn blend_over(src: Scalar, alpha: Scalar, clip: Scalar, dst: Scalar) -> (r: Scalar)
    ensures
        r == source_over(src, alpha, clip, dst),
{
    let rest: Scalar = Scalar { bits: ONE }.minus(alpha.times(clip));
    src.times(clip).plus(dst.times(rest))
}

/// Channel `c` of the tile's texel under the pixel at column `x` of row `y`.
pub open spec fn tile_channel(
    pattern: Pattern,
    scale: Scalar,
    offset: (Scalar, Scalar),
    x: int,
    y: int,
    c: int,
) -> Scalar {
    channel(
        pattern.px@,
        pattern.w as int,
        texel(x, pattern.w as int, scale, offset.0),
        texel(y, pattern.h as int, scale, offset.1),
        c,
    )
}

/// What a fill makes of a channel that was `old`.
pub open spec fn tiled(
    old: Scalar,
    pattern: Pattern,
    scale: Scalar,
    offset: (Scalar, Scalar),
    clip: Scalar,
    x: int,
    y: int,
    c: int,
) -> Scalar {
    if clip.at_most(Scalar { bits: 0 }) {
        old
    } else {
        source_over(
            tile_channel(pattern, scale, offset, x, y, c),
            tile_channel(pattern, scale, offset, x, y, 3),
            clip,
            old,
        )
    }
}

spec fn tiled_at(
    old: Seq<Scalar>,
    pattern: Pattern,
    w: int,
    scale: Scalar,
    offset: (Scalar, Scalar),
    sel: Option<Seq<Scalar>>,
    k: int,
) -> Scalar {
    let i = k / 4;
    tiled(old[k], pattern, scale, offset, coverage(sel, i), i % w, i / w, k % 4)
}

/// The contents of an optional slice.
pub open spec fn seen(sel: Option<&[Scalar]>) -> Option<Seq<Scalar>> {
    match sel {
        Some(s) => Some(s@),
        None => None,
    }
}

/// Tile `pattern` over a `w` by `h` image, source-over, gated by an optional
/// coverage mask. Pixels without coverage are left as they are.
pub fn tile_fill(
    base: &mut [Scalar],
    pattern: &Pattern,
    w: u32,
    h: u32,
    scale: Scalar,
    offset: (Scalar, Scalar),
    sel: Option<&[Scalar]>,
)
    requires
        pattern.wf(),
        grid_fits(w as int, h as int, 4),
        old(base)@.len() >= 4 * (w * h),
        sel matches Some(s) ==> s@.len() >= w * h,
        pattern.is_empty() ==> forall|i: int|
            0 <= i < w * h ==> #[trigger] coverage(seen(sel), i).at_most(Scalar { bits: 0 }),
    ensures
        final(base)@.len() == old(base)@.len(),
        forall|x: int, y: int, c: int|
            on_grid(w as int, h as int, x, y) && 0 <= c < 4 ==> #[trigger] channel(
                final(base)@,
                w as int,
                x,
                y,
                c,
            ) == tiled(
                channel(old(base)@, w as int, x, y, c),
                *pattern,
                scale,
                offset,
                coverage(seen(sel), index_of(w as int, x, y)),
                x,
                y,
                c,
            ),
        forall|k: int|
            4 * (w * h) <= k < old(base)@.len() ==> #[trigger] final(base)@[k] == old(base)@[k],
{
    proof {
        lemma_mul_nonnegative(w as int, h as int);
        lemma_mul_nonnegative(pattern.w as int, pattern.h as int);
    }
    let n: usize = pixel_count(w, h);
    let mut k: usize = 0;
    let ghost before = base@;
    while k < 4 * n
        invariant
            n == w * h,
            4 * n <= base@.len() == before.len(),
            k <= 4 * n,
            pattern.wf(),
            sel matches Some(s) ==> s@.len() >= n,
            pattern.is_empty() ==> forall|i: int|
                0 <= i < n ==> #[trigger] coverage(seen(sel), i).at_most(Scalar { bits: 0 }),
            forall|j: int|
                0 <= j < k ==> #[trigger] base@[j] == tiled_at(
                    before,
                    *pattern,
                    w as int,
                    scale,
                    offset,
                    seen(sel),
                    j,
                ),
            forall|j: int| k <= j < base@.len() ==> #[trigger] base@[j] == before[j],
        decreases 4 * n - k,
    {
        let i: usize = k / 4;
        let clip: Scalar = match sel {
            Some(s) => s[i],
            None => Scalar { bits: ONE },
        };
        assert(clip == coverage(seen(sel), i as int));
        if !clip.le(Scalar::zero()) {
            proof {
                lemma_position(w as int, h as int, i as int);
            }
            let (x, y): (u32, u32) = ((i % w as usize) as u32, (i / w as usize) as u32);
            let (tx, ty): (u32, u32) = pattern_texel(x, y, pattern.w, pattern.h, scale, offset);
            proof {
                lemma_index(pattern.w as int, pattern.h as int, tx as int, ty as int);
                lemma_mul_nonnegative(ty as int, pattern.w as int);
            }
            let p: usize = 4 * (ty as usize * pattern.w as usize + tx as usize);
            let old: Scalar = base[k];
            base[k] = blend_over(pattern.px[p + k % 4], pattern.px[p + 3], clip, old);
        }
        k = k + 1;
    }
    proof {
        assert forall|x: int, y: int, c: int|
            on_grid(w as int, h as int, x, y) && 0 <= c < 4 implies #[trigger] channel(
            base@,
            w as int,
            x,
            y,
            c,
        ) == tiled(
            channel(before, w as int, x, y, c),
            *pattern,
            scale,
            offset,
            coverage(seen(sel), index_of(w as int, x, y)),
            x,
            y,
            c,
        ) by {
            lemma_index(w as int, h as int, x, y);
            let j = 4 * index_of(w as int, x, y) + c;
            assert(j / 4 == index_of(w as int, x, y) && j % 4 == c);
            assert(base@[j] == tiled_at(
                before,
                *pattern,
                w as int,
                scale,
                offset,
                seen(sel),
                j,
            ));
        }
    }
}

/// `b` is the box that a tile is captured from: the smallest around the selected
/// pixels, or the whole canvas where there is no selection.
pub open spec fn tile_box(sel: Option<Seq<Scalar>>, w: int, h: int, b: Bounds) -> bool {
    match sel {
        Some(s) => b.encloses(s, w, h, Scalar { bits: 0 }),
        None => b.x0 == 0 && b.y0 == 0 && b.x1 == w && b.y1 == h,
    }
}

impl Pattern {
    /// The tile holds the pixels of the box `b`, faded by their coverage.
    pub open spec fn captures(
        self,
        px: Seq<Scalar>,
        w: int,
        sel: Option<Seq<Scalar>>,
        b: Bounds,
    ) -> bool {
        &&& self.wf()
        &&& self.w == b.x1 - b.x0
        &&& self.h == b.y1 - b.y0
        &&& forall|x: int, y: int, c: int|
            on_grid(self.w as int, self.h as int, x, y) && 0 <= c < 4 ==> #[trigger] channel(
                self.px@,
                self.w as int,
                x,
                y,
                c,
            ) == channel(px, w, b.x0 + x, b.y0 + y, c).product(
                coverage(sel, index_of(w, b.x0 + x, b.y0 + y)),
            )
    }
}

/// Capture a tile from a `w` by `h` layer: the box around the selected pixels,
/// or all of it. Nothing is captured of an empty selection.
pub fn capture(px: &[Scalar], w: u32, h: u32, sel: Option<&[Scalar]>) -> (r: Option<Pattern>)
    requires
        px@.len() >= 4 * (w * h),
        grid_fits(w as int, h as int, 4),
        sel matches Some(s) ==> s@.len() >= w * h,
    ensures
        r matches Some(p) ==> exists|b: Bounds| #[trigger]
            tile_box(seen(sel), w as int, h as int, b) && p.captures(px@, w as int, seen(sel), b),
        r is None <==> (sel matches Some(s) && forall|x: int, y: int|
            on_grid(w as int, h as int, x, y) ==> !#[trigger] covered(
                s@,
                w as int,
                Scalar { bits: 0 },
                x,
                y,
            )),
{
    proof {
        lemma_mul_nonnegative(w as int, h as int);
    }
    let b: Bounds = match sel {
        Some(s) => match coverage_bounds(s, w, h, Scalar::zero()) {
            Some(b) => b,
            None => {
                return None;
            },
        },
        None => Bounds { x0: 0, y0: 0, x1: w, y1: h },
    };
    let (tw, th): (u32, u32) = (b.x1 - b.x0, b.y1 - b.y0);
    proof {
        assert(0 <= tw * th <= w * h) by (nonlinear_arith)
            requires
                0 <= tw <= w,
                0 <= th <= h,
        ;
    }
    let n: usize = pixel_count(tw, th);
    let mut tile: Vec<Scalar> = Vec::new();
    let mut k: usize = 0;
    while k < 4 * n
        invariant
            n == tw * th,
            4 * n <= u32::MAX,
            k <= 4 * n,
            tw == b.x1 - b.x0,
            th == b.y1 - b.y0,
            b.x1 <= w,
            b.y1 <= h,
            4 * (w * h) <= px@.len(),
            4 * (w * h) <= u32::MAX,
            sel matches Some(s) ==> s@.len() >= w * h,
            tile@.len() == k,
            forall|j: int| 0 <= j < k ==> #[trigger] tile@[j] == captured_at(
                px@,
                w as int,
                seen(sel),
                b,
                j,
            ),
        decreases 4 * n - k,
    {
        let i: usize = k / 4;
        proof {
            lemma_position(tw as int, th as int, i as int);
        }
        let (x, y): (usize, usize) = (
            b.x0 as usize + i % tw as usize,
            b.y0 as usize + i / tw as usize,
        );
        proof {
            lemma_index(w as int, h as int, x as int, y as int);
            lemma_mul_nonnegative(y as int, w as int);
        }
        let src: usize = y * w as usize + x;
        let clip: Scalar = match sel {
            Some(s) => s[src],
            None => Scalar { bits: ONE },
        };
        tile.push(px[4 * src + k % 4].times(clip));
        k = k + 1;
    }
    let p: Pattern = Pattern { w: tw, h: th, px: tile };
    proof {
        assert forall|x: int, y: int, c: int|
            on_grid(tw as int, th as int, x, y) && 0 <= c < 4 implies #[trigger] channel(
            p.px@,
            tw as int,
            x,
            y,
            c,
        ) == channel(px@, w as int, b.x0 + x, b.y0 + y, c).product(
            coverage(seen(sel), index_of(w as int, b.x0 + x, b.y0 + y)),
        ) by {
            lemma_index(tw as int, th as int, x, y);
            let j = 4 * index_of(tw as int, x, y) + c;
            assert(j / 4 == index_of(tw as int, x, y) && j % 4 == c);
            assert(tile@[j] == captured_at(px@, w as int, seen(sel), b, j));
        }
        if sel is Some {
            let s = sel->Some_0@;
            let y = choose|y: int|
                b.y0 <= y < b.y1 && #[trigger] covered(
                    s,
                    w as int,
                    Scalar { bits: 0 },
                    b.x0 as int,
                    y,
                );
            assert(on_grid(w as int, h as int, b.x0 as int, y));
        }
        assert(tile_box(seen(sel), w as int, h as int, b));
    }
    Some(p)
}

spec fn captured_at(
    px: Seq<Scalar>,
    w: int,
    sel: Option<Seq<Scalar>>,
    b: Bounds,
    k: int,
) -> Scalar {
    let tw = b.x1 - b.x0;
    let (x, y) = (b.x0 + (k / 4) % tw, b.y0 + (k / 4) / tw);
    channel(px, w, x, y, k % 4).product(coverage(sel, index_of(w, x, y)))
}

/// A tile drawn at its own size from the canvas origin repeats every `extent`
/// pixels. Coordinates above 2^24 are not all scalars.
pub proof fn law_tile_repeats(d: int, extent: int)
    requires
        0 <= d <= 0x100_0000,
        extent > 0,
    ensures
        texel(d, extent, Scalar { bits: ONE }, Scalar { bits: 0 }) == d % extent,
{
    let one = Scalar { bits: ONE };
    let zero = Scalar { bits: 0 };
    let a = Scalar::whole(d);
    law_small_numbers_are_exact(d);
    law_adding_zero(a, zero.negation());
    let v = a.difference(zero);
    if d == 0 {
        assert(v == zero) by {
            assert(a.abs_scaled() == 0 && zero.negation().abs_scaled() == 0) by {
                assert(a.significand() == 0 && zero.negation().significand() == 0);
                lemma_mul_by_zero_is_zero(
                    vstd::arithmetic::power2::pow2(a.shift() as nat) as int,
                );
                lemma_mul_by_zero_is_zero(
                    vstd::arithmetic::power2::pow2(zero.negation().shift() as nat) as int,
                );
            }
        }
    }
    assert(v == a);
    law_times_one(a);
    law_whole_numbers_survive(a, d);
}

/// An opaque texel takes the place of what it covers.
pub proof fn law_opaque_replaces(src: Scalar, dst: Scalar)
    requires
        src.is_finite(),
        dst.is_finite(),
    ensures
        source_over(src, Scalar { bits: ONE }, Scalar { bits: ONE }, dst).same(src),
        src.magnitude() > 0 ==> source_over(
            src,
            Scalar { bits: ONE },
            Scalar { bits: ONE },
            dst,
        ) == src,
{
    let one = Scalar { bits: ONE };
    lemma_one();
    law_times_one(src);
    law_times_one(one);
    law_minus_itself(one);
    law_times_zero(dst, Scalar { bits: 0 });
    law_adding_zero(src, dst.product(Scalar { bits: 0 }));
}

/// A tile captured from a whole layer re-fills the canvas identically: filled at
/// its own size, its opaque pixels come back as they were.
pub proof fn law_captured_tile_refills(
    px: Seq<Scalar>,
    w: int,
    h: int,
    p: Pattern,
    b: Bounds,
    old: Scalar,
    x: int,
    y: int,
    c: int,
)
    requires
        tile_box(None, w, h, b),
        p.captures(px, w, None, b),
        w <= 0x100_0000,
        h <= 0x100_0000,
        on_grid(w, h, x, y),
        0 <= c < 4,
        channel(px, w, x, y, c).is_finite(),
        channel(px, w, x, y, 3) == (Scalar { bits: ONE }),
        old.is_finite(),
    ensures
        tiled(
            old,
            p,
            Scalar { bits: ONE },
            (Scalar { bits: 0 }, Scalar { bits: 0 }),
            coverage(None, index_of(w, x, y)),
            x,
            y,
            c,
        ).same(channel(px, w, x, y, c)),
{
    let one = Scalar { bits: ONE };
    law_tile_repeats(x, w);
    law_tile_repeats(y, h);
    lemma_small_mod(x as nat, w as nat);
    lemma_small_mod(y as nat, h as nat);
    law_times_one(channel(px, w, x, y, c));
    law_times_one(one);
    assert(channel(p.px@, w, x, y, c) == channel(px, w, x, y, c));
    assert(channel(p.px@, w, x, y, 3) == one);
    law_opaque_replaces(channel(px, w, x, y, c), old);
}

/// A fill leaves the pixels outside the selection as they were.
pub proof fn law_unselected_pixels_stay(
    old: Scalar,
    p: Pattern,
    scale: Scalar,
    offset: (Scalar, Scalar),
    sel: Seq<Scalar>,
    w: int,
    x: int,
    y: int,
    c: int,
)
    requires
        cell(sel, w, x, y).magnitude() == 0,
    ensures
        tiled(
            old,
            p,
            scale,
            offset,
            coverage(Some(sel), index_of(w, x, y)),
            x,
            y,
            c,
        ) == old,
{
}

/// Source-over in exact numbers, up to rounding: the source's colour as far as it is
/// covered, and the destination as far as the covered source lets it through. So nothing
/// changes where nothing is covered, and the result of numbers from 0 to 1 lies between
/// the destination and one where the source is as bright as its alpha.
pub proof fn law_source_over_mixes(src: Scalar, alpha: Scalar, cover: Scalar, dst: Scalar)
    requires
        src.is_finite() && 0real <= value(src) <= 1real,
        alpha.is_finite() && 0real <= value(alpha) <= 1real,
        cover.is_finite() && 0real <= value(cover) <= 1real,
        dst.is_finite() && 0real <= value(dst) <= 1real,
    ensures
        ({
            let r = source_over(src, alpha, cover, dst);
            let (s, a, c, d) = (value(src), value(alpha), value(cover), value(dst));
            &&& r.is_finite()
            &&& within(value(r), s * c + d * (1real - a * c), parts(16real))
            &&& c == 0real ==> within(value(r), d, parts(16real))
            &&& src == alpha ==> value(r) >= d - parts(16real) && value(r) <= 1real + parts(
                16real,
            )
        }),
{
    let one = Scalar { bits: ONE };
    let (s, a, c, d) = (value(src), value(alpha), value(cover), value(dst));
    lemma_constants();
    law_product_tracks(alpha, cover, a, c, 0real, 0real, 1real, 1real, 0real, 1real, parts(2real));
    law_product_tracks(src, cover, s, c, 0real, 0real, 1real, 1real, 0real, 1real, parts(2real));
    let ac = a * c;
    assert(0real <= ac <= 1real && 0real <= s * c <= 1real) by (nonlinear_arith)
        requires
            ac == a * c,
            0real <= a <= 1real,
            0real <= c <= 1real,
            0real <= s <= 1real,
    ;
    law_difference_tracks(
        one,
        alpha.product(cover),
        1real,
        ac,
        0real,
        parts(2real),
        1real,
        parts(4real),
    );
    let rest = one.difference(alpha.product(cover));
    law_product_tracks(
        dst,
        rest,
        d,
        1real - ac,
        0real,
        parts(4real),
        1real,
        1real,
        parts(4real),
        1real,
        parts(6real),
    );
    let (x, y) = (s * c, d * (1real - ac));
    law_sum_tracks(
        src.product(cover),
        dst.product(rest),
        x,
        y,
        parts(2real),
        parts(6real),
        2real,
        parts(11real),
    );
    if c == 0real {
        assert(x == 0real && y == d) by (nonlinear_arith)
            requires
                c == 0real,
                ac == a * c,
                x == s * c,
                y == d * (1real - ac),
        ;
    }
    if src == alpha {
        assert(x + y >= d && x + y <= 1real) by (nonlinear_arith)
            requires
                x == ac,
                y == d * (1real - ac),
                0real <= ac <= 1real,
                0real <= d <= 1real,
        ;
    }
}

/// A tile that is drawn `n` times as large shows each of its texels `n` pixels long, from
/// the offset on and over and over again.
pub proof fn law_texels_follow_the_scale(
    d: int,
    extent: int,
    scale: Scalar,
    n: int,
    offset: Scalar,
    o: int,
)
    requires
        0 <= d < 0x40_0000,
        extent > 0,
        scale.is_finite() && value(scale) == n as real,
        1 <= n <= 0x1_0000,
        offset.is_finite() && value(offset) == o as real,
        -0x40_0000 < o < 0x40_0000,
    ensures
        texel(d, extent, scale, offset) == ((d - o) / n) % extent,
{
    let least_s = Scalar { bits: LEAST_SCALE };
    lemma2_to64();
    lemma2_to64_rest();
    lemma_unit();
    lemma_pattern(least_s, 43, 0x86_37bd, 0x800_0000_0000);
    law_order_of_values(least_s, scale);
    assert(drawn_scale(scale) == scale);
    let x = d - o;
    law_whole(d);
    lemma_signed_whole(x);
    law_difference_is_exact(Scalar::whole(d), offset, signed_whole(x));
    let a = Scalar::whole(d).difference(offset);
    let k = x / n;
    lemma_fundamental_div_mod(x, n);
    lemma_mod_bound(x, n);
    assert(-0x80_0000 <= k <= 0x80_0000) by (nonlinear_arith)
        requires
            x == n * k + x % n,
            0 <= x % n < n,
            1 <= n,
            -0x80_0000 < x < 0x80_0000,
    ;
    lemma_signed_whole(k);
    let (xr, nr, kr, m) = (x as real, n as real, k as real, (x % n) as real);
    lemma_real_product(n, k);
    assert(xr == nr * kr + m);
    let z = xr / nr;
    assert(z * nr == xr) by (nonlinear_arith)
        requires
            z == xr / nr,
            nr >= 1real,
    ;
    assert(kr <= z) by (nonlinear_arith)
        requires
            z * nr == xr,
            xr == nr * kr + m,
            m >= 0real,
            nr >= 1real,
    ;
    assert(size(z) <= 0x80_0000real) by (nonlinear_arith)
        requires
            z * nr == xr,
            nr >= 1real,
            -0x80_0000real <= xr <= 0x80_0000real,
            size(z) == (if z < 0real { -z } else { z }),
    ;
    law_quotient(a, scale);
    law_quotient_stays_within(a, scale, signed_whole(k));
    let q = a.quotient(scale);
    law_order_of_values(signed_whole(k), q);
    let (v, e) = (value(q), size(z));
    assert(e * nr <= 0x80_0000real) by (nonlinear_arith)
        requires
            z * nr == xr,
            -0x80_0000real <= xr <= 0x80_0000real,
            e == (if z < 0real { -z } else { z }),
    ;
    assert(v < kr + 1real) by (nonlinear_arith)
        requires
            z * nr == xr,
            xr == nr * kr + m,
            m <= nr - 1real,
            1real <= nr <= 0x1_0000real,
            0x100_0000real * (v - z) <= e + least(),
            e * nr <= 0x80_0000real,
            0x100_0000_0000real * least() <= 1real,
    ;
    law_floor(q, k);
}

} // verus!
