//! Camera Raw develop: white balance, exposure, contrast, tonal regions and
//! saturation of one pixel, and the vignette gain at a distance from the centre.
//!
//! White balance and exposure work in linear light, the rest in display space.
//! Raising a number to a power is left to the caller.

use crate::arith::{
    law_adding_zero, law_minus_itself, law_one_and_a_part, law_part_of_more, law_sign_of_quotient,
    law_sums_are_monotone, law_times_a_part, law_times_more, law_times_one, law_times_zero,
    lemma_one,
};
use crate::exact::{
    held, law_difference, law_difference_tracks, law_limit_tracks, law_order_of_values,
    law_product, law_product_is_exact, law_product_stays_within, law_product_tracks, law_quotient,
    law_quotient_is_exact, law_quotient_stays_within, law_sum, law_sum_tracks, lemma_constants,
    lemma_pattern, lemma_unit, parts, size, value, within,
};
use crate::geometry::{HALF, ONE};
use crate::scalar::Scalar;
use vstd::arithmetic::power2::*;
use vstd::prelude::*;

verus! {

/// Bit patterns of the pipeline's constants, named after their values.
pub const TWO: u32 = 0x4000_0000;

pub const THREE: u32 = 0x4040_0000;

pub const HUNDRED: u32 = 0x42c8_0000;

/// 0.15
pub const TINT_GAIN: u32 = 0x3e19_999a;

/// 0.30
pub const TEMP_GAIN: u32 = 0x3e99_999a;

/// 0.0031308 and 0.04045, where the transfer curve turns from a line to a power.
pub const LINEAR_KNEE: u32 = 0x3b4d_2e1c;

pub const DISPLAY_KNEE: u32 = 0x3d25_aee6;

/// 12.92
pub const LINE_SLOPE: u32 = 0x414e_b852;

/// 1.055 and 0.055
pub const POWER_SCALE: u32 = 0x3f87_0a3d;

pub const POWER_OFFSET: u32 = 0x3d61_47ae;

/// 2.4
pub const GAMMA: u32 = 0x4019_999a;

/// 0.2126, 0.7152 and 0.0722, the weights of red, green and blue in luma.
pub const LUMA_RED: u32 = 0x3e59_b3d0;

pub const LUMA_GREEN: u32 = 0x3f37_1759;

pub const LUMA_BLUE: u32 = 0x3d93_dd98;

/// 0.3, 0.4, 0.6 and 0.7, the edges of the tonal regions.
pub const THREE_TENTHS: u32 = 0x3e99_999a;

pub const FOUR_TENTHS: u32 = 0x3ecc_cccd;

pub const SIX_TENTHS: u32 = 0x3f19_999a;

pub const SEVEN_TENTHS: u32 = 0x3f33_3333;

/// 0.0001, the least luma that a gain is taken from.
pub const LEAST_LUMA: u32 = 0x38d1_b717;

/// The develop controls. Each is 0 where it does nothing.
#[derive(Clone, Copy, PartialEq, Eq, Structural, Debug)]
pub struct CameraRaw {
    pub temp: Scalar,
    pub tint: Scalar,
    pub exposure: Scalar,
    pub contrast: Scalar,
    pub highlights: Scalar,
    pub shadows: Scalar,
    pub whites: Scalar,
    pub blacks: Scalar,
    pub vibrance: Scalar,
    pub saturation: Scalar,
    pub vignette: Scalar,
}

/// Whether a control does nothing.
pub open spec fn idle(s: Scalar) -> bool {
    s.same(Scalar { bits: 0 })
}

fn is_idle(s: Scalar) -> (r: bool)
    ensures
        r == idle(s),
{
    s.equals(Scalar::zero())
}

impl CameraRaw {
    /// The controls in the order in which they are saved.
    pub open spec fn controls(self) -> Seq<Scalar> {
        seq![
            self.temp,
            self.tint,
            self.exposure,
            self.contrast,
            self.highlights,
            self.shadows,
            self.whites,
            self.blacks,
            self.vibrance,
            self.saturation,
            self.vignette,
        ]
    }

    /// Every control does nothing.
    pub open spec fn identity(self) -> bool {
        forall|i: int| 0 <= i < 11 ==> idle(#[trigger] self.controls()[i])
    }

    /// Every control of the single pixel does nothing. The vignette, which depends on
    /// where the pixel is, is none of them.
    pub open spec fn neutral(self) -> bool {
        forall|i: int| 0 <= i < 10 ==> idle(#[trigger] self.controls()[i])
    }

    /// The controls as they are saved; the last slot is reserved.
    pub fn to_ext(self) -> (r: [Scalar; 12])
        ensures
            r@ == self.controls().push(Scalar { bits: 0 }),
    {
        [
            self.temp,
            self.tint,
            self.exposure,
            self.contrast,
            self.highlights,
            self.shadows,
            self.whites,
            self.blacks,
            self.vibrance,
            self.saturation,
            self.vignette,
            Scalar::zero(),
        ]
    }

    /// The controls that were saved.
    pub fn from_ext(e: [Scalar; 12]) -> (r: CameraRaw)
        ensures
            r.controls() == e@.take(11),
    {
        let r: CameraRaw = CameraRaw {
            temp: e[0],
            tint: e[1],
            exposure: e[2],
            contrast: e[3],
            highlights: e[4],
            shadows: e[5],
            whites: e[6],
            blacks: e[7],
            vibrance: e[8],
            saturation: e[9],
            vignette: e[10],
        };
        assert(r.controls() =~= e@.take(11));
        r
    }

    /// The controls as the shader takes them, which is how they are saved.
    pub fn shader_params(&self) -> (r: [Scalar; 12])
        ensures
            r@ == self.controls().push(Scalar { bits: 0 }),
    {
        self.to_ext()
    }

    /// Whether every control of the single pixel does nothing.
    fn is_neutral(&self) -> (r: bool)
        ensures
            r == self.neutral(),
    {
        let r: bool = is_idle(self.temp) && is_idle(self.tint) && is_idle(self.exposure)
            && is_idle(self.contrast) && is_idle(self.highlights) && is_idle(self.shadows)
            && is_idle(self.whites) && is_idle(self.blacks) && is_idle(self.vibrance) && is_idle(
            self.saturation,
        );
        proof {
            let c = self.controls();
            assert(c[0] == self.temp && c[1] == self.tint && c[2] == self.exposure && c[3]
                == self.contrast && c[4] == self.highlights && c[5] == self.shadows && c[6]
                == self.whites && c[7] == self.blacks && c[8] == self.vibrance && c[9]
                == self.saturation);
        }
        r
    }

    /// Whether every control does nothing.
    pub fn is_identity(&self) -> (r: bool)
        ensures
            r == self.identity(),
    {
        let r: bool = self.is_neutral() && is_idle(self.vignette);
        proof {
            let c = self.controls();
            assert(c[10] == self.vignette);
        }
        r
    }
}

impl Default for CameraRaw {
    fn default() -> (r: CameraRaw)
        ensures
            r.controls() == Seq::new(11, |i: int| Scalar { bits: 0 }),
            r.identity(),
    {
        let z: Scalar = Scalar::zero();
        let r: CameraRaw = CameraRaw {
            temp: z,
            tint: z,
            exposure: z,
            contrast: z,
            highlights: z,
            shadows: z,
            whites: z,
            blacks: z,
            vibrance: z,
            saturation: z,
            vignette: z,
        };
        assert(r.controls() =~= Seq::new(11, |i: int| Scalar { bits: 0 }));
        r
    }
}

/// Saved controls come back as they were.
pub proof fn law_saved_controls_return(cr: CameraRaw, back: CameraRaw)
    requires
        back.controls() == cr.controls().push(Scalar { bits: 0 }).take(11),
    ensures
        back == cr,
{
    let (a, b) = (cr.controls(), back.controls());
    assert(a =~= b);
    assert(a[0] == b[0] && a[1] == b[1] && a[2] == b[2] && a[3] == b[3] && a[4] == b[4] && a[5]
        == b[5] && a[6] == b[6] && a[7] == b[7] && a[8] == b[8] && a[9] == b[9] && a[10] == b[10]);
}

/// A red, green and blue triple.
pub type Rgb = (Scalar, Scalar, Scalar);

/// `s` limited to 0..=1.
pub open spec fn unit_range(s: Scalar) -> Scalar {
    s.limited(Scalar { bits: 0 }, Scalar { bits: ONE })
}

fn to_unit_range(s: Scalar) -> (r: Scalar)
    ensures
        r == unit_range(s),
{
    s.clamp(Scalar::zero(), Scalar { bits: ONE })
}

/// A control of -100..=100 as -1..=1.
pub open spec fn fraction(s: Scalar) -> Scalar {
    s.quotient(Scalar { bits: HUNDRED })
}

fn to_fraction(s: Scalar) -> (r: Scalar)
    ensures
        r == fraction(s),
{
    s.over(Scalar { bits: HUNDRED })
}

/// White balance: warmer raises red and lowers blue, magenta raises both and
/// lowers green.
pub open spec fn balanced(cr: CameraRaw, v: Rgb) -> Rgb {
    if idle(cr.temp) && idle(cr.tint) {
        v
    } else {
        let one = Scalar { bits: ONE };
        let warm = (Scalar { bits: TEMP_GAIN }).product(fraction(cr.temp));
        let magenta = (Scalar { bits: TINT_GAIN }).product(fraction(cr.tint));
        (
            v.0.product(one.sum(warm).sum(magenta)),
            v.1.product(one.difference(magenta)),
            v.2.product(one.difference(warm).sum(magenta)),
        )
    }
}

fn balance(cr: &CameraRaw, v: Rgb) -> (r: Rgb)
    ensures
        r == balanced(*cr, v),
{
    if is_idle(cr.temp) && is_idle(cr.tint) {
        return v;
    }
    let one: Scalar = Scalar { bits: ONE };
    let warm: Scalar = Scalar { bits: TEMP_GAIN }.times(to_fraction(cr.temp));
    let magenta: Scalar = Scalar { bits: TINT_GAIN }.times(to_fraction(cr.tint));
    (
        v.0.times(one.plus(warm).plus(magenta)),
        v.1.times(one.minus(magenta)),
        v.2.times(one.minus(warm).plus(magenta)),
    )
}

/// Exposure: every channel gains two to the power of the control.
pub open spec fn exposed<P: Fn(Scalar, Scalar) -> Scalar>(
    cr: CameraRaw,
    pow: P,
    v: Rgb,
    r: Rgb,
) -> bool {
    if idle(cr.exposure) {
        r == v
    } else {
        exists|gain: Scalar| #[trigger]
            call_ensures(pow, (Scalar { bits: TWO }, cr.exposure), gain) && r == (
                v.0.product(gain),
                v.1.product(gain),
                v.2.product(gain),
            )
    }
}

/// The transfer curve from linear light to display space.
pub open spec fn encoded<P: Fn(Scalar, Scalar) -> Scalar>(pow: P, c: Scalar, d: Scalar) -> bool {
    if c.at_most(Scalar { bits: LINEAR_KNEE }) {
        d == c.product(Scalar { bits: LINE_SLOPE })
    } else {
        exists|p: Scalar| #[trigger]
            call_ensures(
                pow,
                (c, (Scalar { bits: ONE }).quotient(Scalar { bits: GAMMA })),
                p,
            ) && d == (Scalar { bits: POWER_SCALE }).product(p).difference(
                Scalar { bits: POWER_OFFSET },
            )
    }
}

/// The transfer curve from display space to linear light.
pub open spec fn decoded<P: Fn(Scalar, Scalar) -> Scalar>(pow: P, d: Scalar, c: Scalar) -> bool {
    if d.at_most(Scalar { bits: DISPLAY_KNEE }) {
        c == d.quotient(Scalar { bits: LINE_SLOPE })
    } else {
        call_ensures(
            pow,
            (
                d.sum(Scalar { bits: POWER_OFFSET }).quotient(Scalar { bits: POWER_SCALE }),
                Scalar { bits: GAMMA },
            ),
            c,
        )
    }
}

/// Linear light to display space.
pub fn l2s1<P: Fn(Scalar, Scalar) -> Scalar>(pow: &P, c: Scalar) -> (d: Scalar)
    requires
        forall|x: Scalar, y: Scalar| #[trigger] call_requires(*pow, (x, y)),
    ensures
        encoded(*pow, c, d),
{
    if c.le(Scalar { bits: LINEAR_KNEE }) {
        c.times(Scalar { bits: LINE_SLOPE })
    } else {
        let p: Scalar = pow(c, Scalar { bits: ONE }.over(Scalar { bits: GAMMA }));
        Scalar { bits: POWER_SCALE }.times(p).minus(Scalar { bits: POWER_OFFSET })
    }
}

/// Display space to linear light.
pub fn s2l1<P: Fn(Scalar, Scalar) -> Scalar>(pow: &P, d: Scalar) -> (c: Scalar)
    requires
        forall|x: Scalar, y: Scalar| #[trigger] call_requires(*pow, (x, y)),
    ensures
        decoded(*pow, d, c),
{
    if d.le(Scalar { bits: DISPLAY_KNEE }) {
        d.over(Scalar { bits: LINE_SLOPE })
    } else {
        pow(
            d.plus(Scalar { bits: POWER_OFFSET }).over(Scalar { bits: POWER_SCALE }),
            Scalar { bits: GAMMA },
        )
    }
}

/// Luma of a display-space triple.
pub open spec fn luma(v: Rgb) -> Scalar {
    (Scalar { bits: LUMA_RED }).product(v.0).sum((Scalar { bits: LUMA_GREEN }).product(v.1)).sum(
        (Scalar { bits: LUMA_BLUE }).product(v.2),
    )
}

/// Luma of a display-space triple.
pub fn luma709(r: Scalar, g: Scalar, b: Scalar) -> (y: Scalar)
    ensures
        y == luma((r, g, b)),
{
    Scalar { bits: LUMA_RED }.times(r).plus(Scalar { bits: LUMA_GREEN }.times(g)).plus(
        Scalar { bits: LUMA_BLUE }.times(b),
    )
}

/// The Hermite ramp `t^2 (3 - 2t)` on 0..=1, flat outside.
pub open spec fn ramp(t: Scalar) -> Scalar {
    let t = unit_range(t);
    t.product(t).product(
        (Scalar { bits: THREE }).difference((Scalar { bits: TWO }).product(t)),
    )
}

/// The Hermite ramp.
pub fn smoothstep01(t: Scalar) -> (r: Scalar)
    ensures
        r == ramp(t),
{
    let t: Scalar = to_unit_range(t);
    t.times(t).times(Scalar { bits: THREE }.minus(Scalar { bits: TWO }.times(t)))
}

/// How steep contrast `c` makes the curve about middle grey.
pub open spec fn contrast_slope(c: Scalar) -> Scalar {
    let one = Scalar { bits: ONE };
    if (Scalar { bits: 0 }).at_most(c) {
        one.sum(c)
    } else {
        one.sum(c.product(Scalar { bits: HALF }))
    }
}

/// A channel stretched about middle grey.
pub open spec fn stretched(v: Scalar, slope: Scalar) -> Scalar {
    let half = Scalar { bits: HALF };
    unit_range(half.sum(v.difference(half).product(slope)))
}

/// Contrast.
pub open spec fn contrasted(cr: CameraRaw, v: Rgb) -> Rgb {
    if idle(cr.contrast) {
        v
    } else {
        let slope = contrast_slope(fraction(cr.contrast));
        (stretched(v.0, slope), stretched(v.1, slope), stretched(v.2, slope))
    }
}

fn stretch(v: Scalar, slope: Scalar) -> (r: Scalar)
    ensures
        r == stretched(v, slope),
{
    let half: Scalar = Scalar { bits: HALF };
    to_unit_range(half.plus(v.minus(half).times(slope)))
}

fn contrast(cr: &CameraRaw, v: Rgb) -> (r: Rgb)
    ensures
        r == contrasted(*cr, v),
{
    if is_idle(cr.contrast) {
        return v;
    }
    let one: Scalar = Scalar { bits: ONE };
    let c: Scalar = to_fraction(cr.contrast);
    let slope: Scalar = if c.ge(Scalar::zero()) {
        one.plus(c)
    } else {
        one.plus(c.times(Scalar { bits: HALF }))
    };
    (stretch(v.0, slope), stretch(v.1, slope), stretch(v.2, slope))
}

/// How much the tonal controls shift luma `y`: each one weighs in on its own
/// part of the range.
pub open spec fn region_shift(cr: CameraRaw, y: Scalar) -> Scalar {
    let (s3, s4) = (Scalar { bits: THREE_TENTHS }, Scalar { bits: FOUR_TENTHS });
    let (s6, s7) = (Scalar { bits: SIX_TENTHS }, Scalar { bits: SEVEN_TENTHS });
    let high = fraction(cr.highlights).product(ramp(y.difference(s3).quotient(s7)));
    let shad = fraction(cr.shadows).product(ramp(s7.difference(y).quotient(s7)));
    let white = fraction(cr.whites).product(ramp(y.difference(s6).quotient(s4)));
    let black = fraction(cr.blacks).product(ramp(s4.difference(y).quotient(s4)));
    (Scalar { bits: HALF }).product(high.sum(shad).sum(white).sum(black))
}

/// Highlights, shadows, whites and blacks: every channel gains what luma gains.
pub open spec fn regions(cr: CameraRaw, v: Rgb) -> Rgb {
    if idle(cr.highlights) && idle(cr.shadows) && idle(cr.whites) && idle(cr.blacks) {
        v
    } else {
        let y = unit_range(luma(v));
        let delta = region_shift(cr, y);
        let gain = if (Scalar { bits: LEAST_LUMA }).less(y) {
            unit_range(y.sum(delta)).quotient(y)
        } else {
            (Scalar { bits: ONE }).sum(delta)
        };
        (
            unit_range(v.0.product(gain)),
            unit_range(v.1.product(gain)),
            unit_range(v.2.product(gain)),
        )
    }
}

fn shift_of(cr: &CameraRaw, y: Scalar) -> (r: Scalar)
    ensures
        r == region_shift(*cr, y),
{
    let (s3, s4): (Scalar, Scalar) = (Scalar { bits: THREE_TENTHS }, Scalar { bits: FOUR_TENTHS });
    let (s6, s7): (Scalar, Scalar) = (Scalar { bits: SIX_TENTHS }, Scalar { bits: SEVEN_TENTHS });
    let high: Scalar = to_fraction(cr.highlights).times(smoothstep01(y.minus(s3).over(s7)));
    let shad: Scalar = to_fraction(cr.shadows).times(smoothstep01(s7.minus(y).over(s7)));
    let white: Scalar = to_fraction(cr.whites).times(smoothstep01(y.minus(s6).over(s4)));
    let black: Scalar = to_fraction(cr.blacks).times(smoothstep01(s4.minus(y).over(s4)));
    Scalar { bits: HALF }.times(high.plus(shad).plus(white).plus(black))
}

fn apply_regions(cr: &CameraRaw, v: Rgb) -> (r: Rgb)
    ensures
        r == regions(*cr, v),
{
    if is_idle(cr.highlights) && is_idle(cr.shadows) && is_idle(cr.whites) && is_idle(cr.blacks) {
        return v;
    }
    let y: Scalar = to_unit_range(luma709(v.0, v.1, v.2));
    let delta: Scalar = shift_of(cr, y);
    let gain: Scalar = if y.gt(Scalar { bits: LEAST_LUMA }) {
        to_unit_range(y.plus(delta)).over(y)
    } else {
        Scalar { bits: ONE }.plus(delta)
    };
    (
        to_unit_range(v.0.times(gain)),
        to_unit_range(v.1.times(gain)),
        to_unit_range(v.2.times(gain)),
    )
}

/// Vibrance and saturation: the distance of every channel from luma is scaled;
/// vibrance weighs less the more saturated the pixel is.
pub open spec fn saturated(cr: CameraRaw, v: Rgb) -> Rgb {
    if idle(cr.vibrance) && idle(cr.saturation) {
        v
    } else {
        let one = Scalar { bits: ONE };
        let y = luma(v);
        let spread = v.0.greater(v.1).greater(v.2).difference(v.0.lesser(v.1).lesser(v.2));
        let vibrance = fraction(cr.vibrance).product(one.difference(spread));
        let scale = one.sum(fraction(cr.saturation)).sum(vibrance);
        (
            unit_range(y.sum(v.0.difference(y).product(scale))),
            unit_range(y.sum(v.1.difference(y).product(scale))),
            unit_range(y.sum(v.2.difference(y).product(scale))),
        )
    }
}

fn saturate(cr: &CameraRaw, v: Rgb) -> (r: Rgb)
    ensures
        r == saturated(*cr, v),
{
    if is_idle(cr.vibrance) && is_idle(cr.saturation) {
        return v;
    }
    let one: Scalar = Scalar { bits: ONE };
    let y: Scalar = luma709(v.0, v.1, v.2);
    let spread: Scalar = v.0.max(v.1).max(v.2).minus(v.0.min(v.1).min(v.2));
    let vibrance: Scalar = to_fraction(cr.vibrance).times(one.minus(spread));
    let scale: Scalar = one.plus(to_fraction(cr.saturation)).plus(vibrance);
    (
        to_unit_range(y.plus(v.0.minus(y).times(scale))),
        to_unit_range(y.plus(v.1.minus(y).times(scale))),
        to_unit_range(y.plus(v.2.minus(y).times(scale))),
    )
}

/// The display-space half of the pipeline.
pub open spec fn graded(cr: CameraRaw, v: Rgb) -> Rgb {
    saturated(cr, regions(cr, contrasted(cr, v)))
}

/// `d` is linear `v` in display space, limited to 0..=1 before.
pub open spec fn displayed<P: Fn(Scalar, Scalar) -> Scalar>(pow: P, v: Rgb, d: Rgb) -> bool {
    &&& encoded(pow, unit_range(v.0), d.0)
    &&& encoded(pow, unit_range(v.1), d.1)
    &&& encoded(pow, unit_range(v.2), d.2)
}

/// `out` is display-space `d` in linear light.
pub open spec fn linearised<P: Fn(Scalar, Scalar) -> Scalar>(pow: P, d: Rgb, out: Rgb) -> bool {
    &&& decoded(pow, d.0, out.0)
    &&& decoded(pow, d.1, out.1)
    &&& decoded(pow, d.2, out.2)
}

/// `out` is the straight linear pixel `v`, developed. Controls that do nothing to a
/// single pixel leave it as it is.
pub open spec fn developed<P: Fn(Scalar, Scalar) -> Scalar>(
    cr: CameraRaw,
    pow: P,
    v: Rgb,
    out: Rgb,
) -> bool {
    if cr.neutral() {
        out == v
    } else {
        exists|lit: Rgb, d: Rgb| #[trigger]
            exposed(cr, pow, balanced(cr, v), lit) && #[trigger] displayed(pow, lit, d)
                && linearised(pow, graded(cr, d), out)
    }
}

/// Develop a straight linear pixel. The vignette is not part of it.
pub fn develop_pixel<P: Fn(Scalar, Scalar) -> Scalar>(
    cr: &CameraRaw,
    rgb: [Scalar; 3],
    pow: &P,
) -> (out: [Scalar; 3])
    requires
        forall|x: Scalar, y: Scalar| #[trigger] call_requires(*pow, (x, y)),
    ensures
        developed(*cr, *pow, (rgb@[0], rgb@[1], rgb@[2]), (out@[0], out@[1], out@[2])),
{
    if cr.is_neutral() {
        return rgb;
    }
    let v: Rgb = balance(cr, (rgb[0], rgb[1], rgb[2]));
    let lit: Rgb = if is_idle(cr.exposure) {
        v
    } else {
        let gain: Scalar = pow(Scalar { bits: TWO }, cr.exposure);
        (v.0.times(gain), v.1.times(gain), v.2.times(gain))
    };
    let d: Rgb = (
        l2s1(pow, to_unit_range(lit.0)),
        l2s1(pow, to_unit_range(lit.1)),
        l2s1(pow, to_unit_range(lit.2)),
    );
    let g: Rgb = saturate(cr, apply_regions(cr, contrast(cr, d)));
    let out: [Scalar; 3] = [s2l1(pow, g.0), s2l1(pow, g.1), s2l1(pow, g.2)];
    proof {
        assert(exposed(*cr, *pow, v, lit));
        assert(displayed(*pow, lit, d));
        assert(linearised(*pow, graded(*cr, d), (out@[0], out@[1], out@[2])));
    }
    out
}

/// The vignette's gain at a distance from the centre, 1 being the farthest
/// corner.
pub open spec fn vignetted(vignette: Scalar, dist: Scalar) -> Scalar {
    let one = Scalar { bits: ONE };
    let d = unit_range(dist);
    if idle(vignette) {
        one
    } else {
        one.sum(fraction(vignette).product(d).product(d)).greater(Scalar { bits: 0 })
    }
}

/// The vignette's gain at a distance from the centre.
pub fn vignette_gain(vignette: Scalar, dist01: Scalar) -> (r: Scalar)
    ensures
        r == vignetted(vignette, dist01),
{
    let one: Scalar = Scalar { bits: ONE };
    if is_idle(vignette) {
        return one;
    }
    let d: Scalar = to_unit_range(dist01);
    one.plus(to_fraction(vignette).times(d).times(d)).max(Scalar::zero())
}

/// Controls that do nothing leave every pixel as it is, to the bit.
pub proof fn law_identity_changes_nothing<P: Fn(Scalar, Scalar) -> Scalar>(
    cr: CameraRaw,
    pow: P,
    v: Rgb,
    out: Rgb,
)
    requires
        cr.identity(),
        developed(cr, pow, v, out),
    ensures
        out == v,
{
}

/// Controls that differ in the vignette alone develop a pixel alike, in one direction.
proof fn lemma_other_vignette<P: Fn(Scalar, Scalar) -> Scalar>(
    a: CameraRaw,
    b: CameraRaw,
    pow: P,
    v: Rgb,
    out: Rgb,
)
    requires
        a == (CameraRaw { vignette: a.vignette, ..b }),
        a.neutral() == b.neutral(),
        developed(a, pow, v, out),
    ensures
        developed(b, pow, v, out),
{
    if !a.neutral() {
        let (lit, d) = choose|lit: Rgb, d: Rgb| #[trigger]
            exposed(a, pow, balanced(a, v), lit) && #[trigger] displayed(pow, lit, d)
                && linearised(pow, graded(a, d), out);
        assert(balanced(b, v) == balanced(a, v));
        assert(exposed(b, pow, balanced(b, v), lit));
        assert(displayed(pow, lit, d));
        assert(graded(b, d) == graded(a, d));
    }
}

/// The vignette is no part of the single pixel: controls that differ in nothing else
/// develop every pixel alike.
pub proof fn law_vignette_is_not_per_pixel<P: Fn(Scalar, Scalar) -> Scalar>(
    a: CameraRaw,
    b: CameraRaw,
    pow: P,
    v: Rgb,
    out: Rgb,
)
    requires
        a.controls().take(10) == b.controls().take(10),
    ensures
        developed(a, pow, v, out) == developed(b, pow, v, out),
{
    let (c, d) = (a.controls(), b.controls());
    assert forall|i: int| 0 <= i < 10 implies #[trigger] c[i] == d[i] by {
        assert(c.take(10)[i] == d.take(10)[i]);
    }
    assert(c[0] == d[0] && c[1] == d[1] && c[2] == d[2] && c[3] == d[3] && c[4] == d[4] && c[5]
        == d[5] && c[6] == d[6] && c[7] == d[7] && c[8] == d[8] && c[9] == d[9]);
    assert(a == (CameraRaw { vignette: a.vignette, ..b }));
    assert(a.neutral() == b.neutral());
    if developed(a, pow, v, out) {
        lemma_other_vignette(a, b, pow, v, out);
    }
    if developed(b, pow, v, out) {
        lemma_other_vignette(b, a, pow, v, out);
    }
}

/// `pow` gives one result for the same arguments.
pub open spec fn steady<P: Fn(Scalar, Scalar) -> Scalar>(pow: P) -> bool {
    forall|x: Scalar, y: Scalar, p: Scalar, q: Scalar|
        #![trigger call_ensures(pow, (x, y), p), call_ensures(pow, (x, y), q)]
        call_ensures(pow, (x, y), p) && call_ensures(pow, (x, y), q) ==> p == q
}

proof fn lemma_encoded_once<P: Fn(Scalar, Scalar) -> Scalar>(
    pow: P,
    c: Scalar,
    d: Scalar,
    e: Scalar,
)
    requires
        steady(pow),
        encoded(pow, c, d),
        encoded(pow, c, e),
    ensures
        d == e,
{
}

proof fn lemma_exposed_once<P: Fn(Scalar, Scalar) -> Scalar>(
    cr: CameraRaw,
    pow: P,
    v: Rgb,
    r: Rgb,
    t: Rgb,
)
    requires
        steady(pow),
        exposed(cr, pow, v, r),
        exposed(cr, pow, v, t),
    ensures
        r == t,
{
}

/// A pixel is developed in one way only, where a power has one result.
pub proof fn law_develop_has_one_result<P: Fn(Scalar, Scalar) -> Scalar>(
    cr: CameraRaw,
    pow: P,
    v: Rgb,
    out: Rgb,
    again: Rgb,
)
    requires
        steady(pow),
        developed(cr, pow, v, out),
        developed(cr, pow, v, again),
    ensures
        out == again,
{
    if !cr.neutral() {
        let w = balanced(cr, v);
        let (lit, d) = choose|lit: Rgb, d: Rgb| #[trigger]
            exposed(cr, pow, w, lit) && #[trigger] displayed(pow, lit, d) && linearised(
                pow,
                graded(cr, d),
                out,
            );
        let (lit2, d2) = choose|lit: Rgb, d: Rgb| #[trigger]
            exposed(cr, pow, w, lit) && #[trigger] displayed(pow, lit, d) && linearised(
                pow,
                graded(cr, d),
                again,
            );
        lemma_exposed_once(cr, pow, w, lit, lit2);
        lemma_encoded_once(pow, unit_range(lit.0), d.0, d2.0);
        lemma_encoded_once(pow, unit_range(lit.1), d.1, d2.1);
        lemma_encoded_once(pow, unit_range(lit.2), d.2, d2.2);
        assert(d == d2);
    }
}

/// Two calls with controls that differ in the vignette alone give the same pixel, to
/// the bit, where a power has one result.
pub proof fn law_vignette_changes_no_pixel<P: Fn(Scalar, Scalar) -> Scalar>(
    a: CameraRaw,
    b: CameraRaw,
    pow: P,
    v: Rgb,
    out_a: Rgb,
    out_b: Rgb,
)
    requires
        steady(pow),
        a.controls().take(10) == b.controls().take(10),
        developed(a, pow, v, out_a),
        developed(b, pow, v, out_b),
    ensures
        out_a == out_b,
{
    law_vignette_is_not_per_pixel(a, b, pow, v, out_b);
    law_develop_has_one_result(a, pow, v, out_a, out_b);
}

/// The vignette never changes the centre of the canvas.
pub proof fn law_vignette_keeps_the_centre(vignette: Scalar)
    requires
        fraction(vignette).is_finite(),
    ensures
        vignetted(vignette, Scalar { bits: 0 }) == (Scalar { bits: ONE }),
{
    let zero = Scalar { bits: 0 };
    let a = fraction(vignette).product(zero);
    law_times_zero(fraction(vignette), zero);
    law_times_zero(a, zero);
    lemma_one();
    law_adding_zero(Scalar { bits: ONE }, a.product(zero));
}

/// A negative vignette darkens or leaves every place on the canvas, a positive one
/// lightens or leaves it.
pub proof fn law_vignette_goes_one_way(vignette: Scalar, dist: Scalar)
    requires
        fraction(vignette).is_finite(),
        !dist.is_nan(),
    ensures
        vignette.less(Scalar { bits: 0 }) ==> vignetted(vignette, dist).at_most(
            Scalar { bits: ONE },
        ),
        (Scalar { bits: 0 }).less(vignette) ==> (Scalar { bits: ONE }).at_most(
            vignetted(vignette, dist),
        ),
{
    let (one, d, k) = (Scalar { bits: ONE }, unit_range(dist), fraction(vignette));
    let x = k.product(d).product(d);
    lemma_one();
    law_times_a_part(k, d);
    law_times_a_part(k.product(d), d);
    law_sign_of_quotient(vignette, Scalar { bits: HUNDRED });
    if x.magnitude() == 0 {
        law_adding_zero(one, x);
    } else if x.negative() {
        assert(x.negation().negation() == x);
        law_sums_are_monotone(one, x.negation());
    } else {
        law_sums_are_monotone(one, x);
    }
}

/// Whether a control is within its range.
pub open spec fn in_control_range(s: Scalar) -> bool {
    s.magnitude() <= HUNDRED
}

/// Whether a channel is a number, and not negative.
pub open spec fn is_light(v: Scalar) -> bool {
    v.is_finite() && !v.negative()
}

/// `pow` raises 2 to this power as a power of two goes: to 1 or more by a power that
/// is not negative, and to 1 or less, but not below 0, by one that is not positive.
pub open spec fn lights_by<P: Fn(Scalar, Scalar) -> Scalar>(pow: P, exposure: Scalar) -> bool {
    forall|gain: Scalar| #[trigger]
        call_ensures(pow, (Scalar { bits: TWO }, exposure), gain) ==> is_light(gain) && ((Scalar {
            bits: 0,
        }).at_most(exposure) ==> (Scalar { bits: ONE }).at_most(gain)) && (exposure.at_most(
            Scalar { bits: 0 },
        ) ==> gain.at_most(Scalar { bits: ONE }))
}

/// A positive exposure darkens no channel, a negative one lightens none.
pub proof fn law_exposure_brightens_and_darkens<P: Fn(Scalar, Scalar) -> Scalar>(
    cr: CameraRaw,
    pow: P,
    v: Rgb,
    r: Rgb,
)
    requires
        lights_by(pow, cr.exposure),
        is_light(v.0) && is_light(v.1) && is_light(v.2),
        exposed(cr, pow, v, r),
    ensures
        (Scalar { bits: 0 }).at_most(cr.exposure) ==> v.0.at_most(r.0) && v.1.at_most(r.1)
            && v.2.at_most(r.2),
        cr.exposure.at_most(Scalar { bits: 0 }) ==> r.0.at_most(v.0) && r.1.at_most(v.1)
            && r.2.at_most(v.2),
{
    if !idle(cr.exposure) {
        let gain = choose|gain: Scalar| #[trigger]
            call_ensures(pow, (Scalar { bits: TWO }, cr.exposure), gain) && r == (
                v.0.product(gain),
                v.1.product(gain),
                v.2.product(gain),
            );
        if (Scalar { bits: 0 }).at_most(cr.exposure) {
            law_times_more(v.0, gain);
            law_times_more(v.1, gain);
            law_times_more(v.2, gain);
        }
        if cr.exposure.at_most(Scalar { bits: 0 }) {
            law_times_a_part(v.0, gain);
            law_times_a_part(v.1, gain);
            law_times_a_part(v.2, gain);
        }
    }
}

/// The gains of a white balance by `x`, which is a part of 1, beside a balance
/// that does nothing: one channel is raised, or left as it is, and the other
/// lowered.
proof fn lemma_gains(x: Scalar, idle: Scalar, v: Scalar)
    requires
        x.magnitude() < ONE,
        !x.negative(),
        idle.magnitude() == 0,
        is_light(v),
    ensures
        ({
            let one = Scalar { bits: ONE };
            &&& v.at_most(v.product(one.sum(x)))
            &&& v.at_most(v.product(one.sum(x).sum(idle)))
            &&& v.at_most(v.product(one.sum(idle).sum(x)))
            &&& v.product(one.difference(x)).at_most(v)
            &&& v.product(one.difference(x).sum(idle)).at_most(v)
            &&& v.product(one.difference(idle).sum(x.negation())).at_most(v)
            &&& v.at_most(v.product(one.difference(idle).sum(x)))
            &&& v.product(one.sum(idle)) == v
            &&& v.product(one.difference(idle)) == v
        }),
{
    let one = Scalar { bits: ONE };
    lemma_one();
    law_one_and_a_part(x);
    let (up, down) = (one.sum(x), one.difference(x));
    law_adding_zero(one, idle);
    law_adding_zero(one, idle.negation());
    law_adding_zero(up, idle);
    law_adding_zero(down, idle);
    law_times_one(v);
    law_times_more(v, up);
    law_times_a_part(v, down);
    if down.magnitude() == 0 {
        law_times_zero(v, down.sum(idle));
    }
}

/// A positive temperature raises red and lowers blue, a negative one lowers red
/// and raises blue; green stays.
pub proof fn law_temperature_warms_and_cools(cr: CameraRaw, v: Rgb)
    requires
        in_control_range(cr.temp),
        idle(cr.tint),
        is_light(v.0) && is_light(v.1) && is_light(v.2),
    ensures
        ({
            let r = balanced(cr, v);
            &&& (Scalar { bits: 0 }).at_most(cr.temp) ==> v.0.at_most(r.0) && r.2.at_most(v.2)
            &&& cr.temp.at_most(Scalar { bits: 0 }) ==> r.0.at_most(v.0) && v.2.at_most(r.2)
            &&& r.1 == v.1
        }),
{
    let hundred = Scalar { bits: HUNDRED };
    let (t, m) = (fraction(cr.temp), fraction(cr.tint));
    law_part_of_more(cr.temp, hundred);
    law_part_of_more(cr.tint, hundred);
    let warm = (Scalar { bits: TEMP_GAIN }).product(t);
    let magenta = (Scalar { bits: TINT_GAIN }).product(m);
    law_times_a_part(Scalar { bits: TEMP_GAIN }, t);
    law_times_zero(Scalar { bits: TINT_GAIN }, m);
    let x = if warm.negative() { warm.negation() } else { warm };
    assert(warm.negation().negation() == warm);
    lemma_gains(x, magenta, v.0);
    lemma_gains(x, magenta, v.1);
    lemma_gains(x, magenta, v.2);
}

/// A positive tint raises red and blue and lowers green, a negative one the
/// reverse.
pub proof fn law_tint_trades_magenta_for_green(cr: CameraRaw, v: Rgb)
    requires
        in_control_range(cr.tint),
        idle(cr.temp),
        is_light(v.0) && is_light(v.1) && is_light(v.2),
    ensures
        ({
            let r = balanced(cr, v);
            &&& (Scalar { bits: 0 }).at_most(cr.tint) ==> v.0.at_most(r.0) && v.2.at_most(r.2)
                && r.1.at_most(v.1)
            &&& cr.tint.at_most(Scalar { bits: 0 }) ==> r.0.at_most(v.0) && r.2.at_most(v.2)
                && v.1.at_most(r.1)
        }),
{
    let hundred = Scalar { bits: HUNDRED };
    let (t, m) = (fraction(cr.temp), fraction(cr.tint));
    law_part_of_more(cr.temp, hundred);
    law_part_of_more(cr.tint, hundred);
    let warm = (Scalar { bits: TEMP_GAIN }).product(t);
    let magenta = (Scalar { bits: TINT_GAIN }).product(m);
    law_times_a_part(Scalar { bits: TINT_GAIN }, m);
    law_times_zero(Scalar { bits: TEMP_GAIN }, t);
    let x = if magenta.negative() { magenta.negation() } else { magenta };
    assert(magenta.negation().negation() == magenta);
    assert(warm.negation().negation() == warm);
    lemma_gains(x, warm, v.0);
    lemma_gains(x, warm.negation(), v.0);
    lemma_gains(x, warm, v.1);
    lemma_gains(x, warm, v.2);
    lemma_gains(x, warm.negation(), v.2);
}

/// Contrast keeps middle grey where it is.
pub proof fn law_contrast_keeps_middle_grey(slope: Scalar)
    requires
        slope.is_finite(),
    ensures
        stretched(Scalar { bits: HALF }, slope) == (Scalar { bits: HALF }),
{
    let half = Scalar { bits: HALF };
    law_minus_itself(half);
    law_times_zero(slope, Scalar { bits: 0 });
    law_adding_zero(half, (Scalar { bits: 0 }).product(slope));
}

/// The slope that a contrast of -100..=100 gives the curve about middle grey: from a
/// half over 1 to 2.
pub open spec fn steepness(c: Scalar) -> real {
    let k = value(c) / 100real;
    if k >= 0real {
        1real + k
    } else {
        1real + k / 2real
    }
}

proof fn lemma_slope(c: Scalar)
    requires
        c.is_finite(),
        size(value(c)) <= 100real,
    ensures
        contrast_slope(fraction(c)).is_finite(),
        within(value(contrast_slope(fraction(c))), steepness(c), parts(8real)),
        1real <= 2real * steepness(c) <= 4real,
{
    let (zero, half, one) = (Scalar { bits: 0 }, Scalar { bits: HALF }, Scalar { bits: ONE });
    let hundred = Scalar { bits: HUNDRED };
    lemma_constants();
    lemma_unit();
    let k = value(c) / 100real;
    let f = fraction(c);
    assert(-1real <= k <= 1real);
    law_quotient(c, hundred);
    law_quotient_stays_within(c, hundred, zero);
    law_order_of_values(zero, f);
    law_order_of_values(f, zero);
    assert(within(value(f), k, parts(2real)));
    law_sum_tracks(one, f, 1real, k, 0real, parts(2real), 2real, parts(5real));
    law_product_tracks(
        f,
        half,
        k,
        1real / 2real,
        parts(2real),
        0real,
        1real,
        1real / 2real,
        parts(1real),
        1real / 2real,
        parts(3real),
    );
    law_sum_tracks(
        one,
        f.product(half),
        1real,
        k * (1real / 2real),
        0real,
        parts(3real),
        2real,
        parts(6real),
    );
}

/// What contrast makes of a channel, in exact numbers: it scales the distance from
/// middle grey, up to rounding.
proof fn lemma_stretched(c: Scalar, v: Scalar)
    requires
        c.is_finite(),
        size(value(c)) <= 100real,
        v.is_finite(),
        0real <= value(v) <= 1real,
    ensures
        ({
            let w = stretched(v, contrast_slope(fraction(c)));
            &&& w.is_finite() && 0real <= value(w) <= 1real
            &&& within(
                value(w),
                held(1real / 2real + (value(v) - 1real / 2real) * steepness(c)),
                parts(16real),
            )
        }),
{
    let half = Scalar { bits: HALF };
    let (x, h, s) = (value(v), 1real / 2real, steepness(c));
    let slope = contrast_slope(fraction(c));
    lemma_constants();
    lemma_slope(c);
    let d = v.difference(half);
    law_difference_tracks(v, half, x, h, 0real, 0real, h, parts(2real));
    law_product_tracks(
        d,
        slope,
        x - h,
        s,
        parts(2real),
        parts(8real),
        h,
        2real,
        parts(9real),
        1real,
        parts(11real),
    );
    let p = (x - h) * s;
    law_sum_tracks(half, d.product(slope), h, p, 0real, parts(11real), 2real, parts(14real));
    law_limit_tracks(half.sum(d.product(slope)), h + p, parts(14real));
}

/// `w` is as far from middle grey as a contrast of `c` makes `v`, up to rounding: no
/// farther for a contrast that is not positive, and half as far for -100; no nearer for
/// one that is not negative, unless it is black or white, and twice as far for 100.
pub open spec fn set_apart(c: Scalar, v: Scalar, w: Scalar) -> bool {
    let (x, y, h) = (value(v), value(w), 1real / 2real);
    &&& w.is_finite() && 0real <= y <= 1real
    &&& value(c) <= 0real ==> size(y - h) <= size(x - h) + parts(16real)
    &&& value(c) >= 0real ==> size(y - h) >= size(x - h) - parts(16real) || y == 0real || y
        == 1real
    &&& value(c) == -100real ==> within(2real * (y - h), x - h, parts(32real))
    &&& value(c) == 100real ==> within(y, held(h + 2real * (x - h)), parts(16real))
    &&& within(y, held(h + (x - h) * steepness(c)), parts(16real))
}

proof fn lemma_set_apart(c: Scalar, v: Scalar)
    requires
        c.is_finite(),
        size(value(c)) <= 100real,
        v.is_finite(),
        0real <= value(v) <= 1real,
    ensures
        set_apart(c, v, stretched(v, contrast_slope(fraction(c)))),
        value(c) == 0real ==> set_apart(c, v, v),
{
    let (x, h, s) = (value(v), 1real / 2real, steepness(c));
    let d = x - h;
    lemma_stretched(c, v);
    lemma_slope(c);
    lemma_constants();
    assert(s <= 1real ==> size(d * s) <= size(d)) by (nonlinear_arith)
        requires
            0real <= s,
            size(d * s) == (if d * s < 0real { -(d * s) } else { d * s }),
            size(d) == (if d < 0real { -d } else { d }),
    ;
    assert(s >= 1real ==> size(d * s) >= size(d)) by (nonlinear_arith)
        requires
            size(d * s) == (if d * s < 0real { -(d * s) } else { d * s }),
            size(d) == (if d < 0real { -d } else { d }),
    ;
    if value(c) == -100real {
        assert(s == h);
        assert(d * s == d * h);
    }
    if value(c) == 100real {
        assert(s == 2real);
        assert(d * s == d * 2real);
    }
    if value(c) == 0real {
        assert(s == 1real);
        assert(d * s == d) by (nonlinear_arith)
            requires
                s == 1real,
        ;
    }
}

/// Whether a pixel is made of numbers from 0 to 1.
pub open spec fn in_gamut(v: Rgb) -> bool {
    &&& v.0.is_finite() && 0real <= value(v.0) <= 1real
    &&& v.1.is_finite() && 0real <= value(v.1) <= 1real
    &&& v.2.is_finite() && 0real <= value(v.2) <= 1real
}

/// Whether the tonal controls and those of saturation do nothing.
pub open spec fn only_contrast(cr: CameraRaw) -> bool {
    &&& idle(cr.highlights) && idle(cr.shadows) && idle(cr.whites) && idle(cr.blacks)
    &&& idle(cr.vibrance) && idle(cr.saturation)
}

/// Contrast drives the channels of a pixel in display space away from middle grey, or
/// back towards it, each by itself.
pub proof fn law_contrast_sets_channels_apart(cr: CameraRaw, v: Rgb)
    requires
        cr.contrast.is_finite(),
        size(value(cr.contrast)) <= 100real,
        only_contrast(cr),
        in_gamut(v),
    ensures
        set_apart(cr.contrast, v.0, graded(cr, v).0),
        set_apart(cr.contrast, v.1, graded(cr, v).1),
        set_apart(cr.contrast, v.2, graded(cr, v).2),
{
    lemma_constants();
    law_order_of_values(cr.contrast, Scalar { bits: 0 });
    lemma_set_apart(cr.contrast, v.0);
    lemma_set_apart(cr.contrast, v.1);
    lemma_set_apart(cr.contrast, v.2);
}

/// The numbers that the pipeline's constants stand for.
proof fn lemma_gain_constants()
    ensures
        within(value(Scalar { bits: TINT_GAIN }), 15real / 100real, parts(1real)),
        within(value(Scalar { bits: TEMP_GAIN }), 30real / 100real, parts(1real)),
        within(value(Scalar { bits: LUMA_RED }), 2126real / 10000real, parts(1real)),
        within(value(Scalar { bits: LUMA_GREEN }), 7152real / 10000real, parts(1real)),
        within(value(Scalar { bits: LUMA_BLUE }), 722real / 10000real, parts(1real)),
        value(Scalar { bits: THREE }) == 3real,
{
    lemma2_to64();
    lemma_pattern(Scalar { bits: TINT_GAIN }, 26, 0x99_999a, 0x400_0000);
    lemma_pattern(Scalar { bits: TEMP_GAIN }, 25, 0x99_999a, 0x200_0000);
    lemma_pattern(Scalar { bits: LUMA_RED }, 26, 0xd9_b3d0, 0x400_0000);
    lemma_pattern(Scalar { bits: LUMA_GREEN }, 24, 0xb7_1759, 0x100_0000);
    lemma_pattern(Scalar { bits: LUMA_BLUE }, 27, 0x93_dd98, 0x800_0000);
    lemma_pattern(Scalar { bits: THREE }, 22, 0xc0_0000, 0x40_0000);
}

/// A control of -100..=100 as the part of 100 that it is.
proof fn lemma_fraction(s: Scalar)
    requires
        s.is_finite(),
        size(value(s)) <= 100real,
    ensures
        fraction(s).is_finite(),
        within(value(fraction(s)), value(s) / 100real, parts(2real)),
        idle(s) <==> value(s) == 0real,
{
    lemma_constants();
    lemma_unit();
    law_quotient(s, Scalar { bits: HUNDRED });
    law_order_of_values(s, Scalar { bits: 0 });
}

/// The luma of a pixel, in exact numbers.
pub open spec fn brightness(r: real, g: real, b: real) -> real {
    (2126real * r + 7152real * g + 722real * b) / 10000real
}

/// Luma is the weighted mean of the channels, so a grey pixel has the luma of its
/// channels.
pub proof fn law_luma_is_the_weighted_mean(v: Rgb)
    requires
        in_gamut(v),
    ensures
        luma(v).is_finite(),
        within(
            value(luma(v)),
            brightness(value(v.0), value(v.1), value(v.2)),
            parts(16real),
        ),
        v.0 == v.1 && v.1 == v.2 ==> within(value(luma(v)), value(v.0), parts(16real)),
{
    lemma_gain_constants();
    let (wr, wg, wb) = (2126real / 10000real, 7152real / 10000real, 722real / 10000real);
    let (r, g, b) = (
        (Scalar { bits: LUMA_RED }),
        (Scalar { bits: LUMA_GREEN }),
        (Scalar { bits: LUMA_BLUE }),
    );
    let (x, y, z) = (value(v.0), value(v.1), value(v.2));
    law_product_tracks(
        r,
        v.0,
        wr,
        x,
        parts(1real),
        0real,
        wr,
        1real,
        parts(1real),
        wr,
        parts(3real),
    );
    law_product_tracks(
        g,
        v.1,
        wg,
        y,
        parts(1real),
        0real,
        wg,
        1real,
        parts(1real),
        wg,
        parts(3real),
    );
    law_product_tracks(
        b,
        v.2,
        wb,
        z,
        parts(1real),
        0real,
        wb,
        1real,
        parts(1real),
        wb,
        parts(3real),
    );
    let (rr, gg, bb) = (r.product(v.0), g.product(v.1), b.product(v.2));
    law_sum_tracks(rr, gg, wr * x, wg * y, parts(3real), parts(3real), 1real, parts(8real));
    law_sum_tracks(
        rr.sum(gg),
        bb,
        wr * x + wg * y,
        wb * z,
        parts(8real),
        parts(3real),
        1real,
        parts(13real),
    );
}

/// The vignette changes the light by its part of 100 at the corners, and by the square of
/// the distance from the centre elsewhere; it takes away no more than all of it.
pub proof fn law_vignette_grows_with_the_square(vignette: Scalar, dist: Scalar)
    requires
        vignette.is_finite() && dist.is_finite(),
        size(value(vignette)) <= 100real,
    ensures
        ({
            let (d, r) = (held(value(dist)), vignetted(vignette, dist));
            &&& r.is_finite() && value(r) >= 0real
            &&& within(value(r), 1real + (value(vignette) / 100real) * (d * d), parts(16real))
            &&& value(dist) >= 1real ==> within(
                value(r),
                1real + value(vignette) / 100real,
                parts(16real),
            )
        }),
{
    let (zero, one) = (Scalar { bits: 0 }, Scalar { bits: ONE });
    lemma_constants();
    lemma_fraction(vignette);
    law_limit_tracks(dist, value(dist), 0real);
    let (f, u, d, k) = (
        fraction(vignette),
        unit_range(dist),
        held(value(dist)),
        value(vignette) / 100real,
    );
    law_product_tracks(
        f,
        u,
        k,
        d,
        parts(2real),
        0real,
        1real,
        1real,
        parts(2real),
        1real,
        parts(4real),
    );
    law_product_tracks(
        f.product(u),
        u,
        k * d,
        d,
        parts(4real),
        0real,
        1real,
        1real,
        parts(4real),
        1real,
        parts(6real),
    );
    let g = f.product(u).product(u);
    law_sum_tracks(one, g, 1real, (k * d) * d, 0real, parts(6real), 2real, parts(10real));
    let s = one.sum(g);
    law_order_of_values(s, zero);
    let t = k * (d * d);
    assert((k * d) * d == t) by (nonlinear_arith)
        requires
            t == k * (d * d),
    ;
    assert(d * d <= 1real && 0real <= d * d && t >= -1real) by (nonlinear_arith)
        requires
            0real <= d <= 1real,
            -1real <= k <= 1real,
            t == k * (d * d),
    ;
    if value(vignette) == 0real {
        assert(t == 0real) by (nonlinear_arith)
            requires
                k == 0real,
                t == k * (d * d),
        ;
    }
    if value(dist) >= 1real {
        assert(t == k) by (nonlinear_arith)
            requires
                d == 1real,
                t == k * (d * d),
        ;
    }
}

/// A channel of white balance: multiplied by a gain that is off by a little.
proof fn lemma_gained(v: Scalar, gain: Scalar, g: real)
    requires
        v.is_finite() && gain.is_finite(),
        0real <= value(v) <= 1real,
        within(value(gain), g, parts(20real)),
        size(g) <= 2real,
    ensures
        v.product(gain).is_finite(),
        within(value(v.product(gain)), value(v) * g, parts(32real)),
{
    law_product_tracks(
        v,
        gain,
        value(v),
        g,
        0real,
        parts(20real),
        1real,
        2real,
        parts(20real),
        2real,
        parts(24real),
    );
}

/// White balance multiplies each channel by a gain: a temperature of 100 gives red 30 of
/// 100 more and blue as much less, a tint of 100 gives red and blue 15 of 100 more and
/// green as much less, and less of either gives its part of that.
pub proof fn law_balance_trades_channels(cr: CameraRaw, v: Rgb)
    requires
        cr.temp.is_finite() && size(value(cr.temp)) <= 100real,
        cr.tint.is_finite() && size(value(cr.tint)) <= 100real,
        in_gamut(v),
    ensures
        ({
            let r = balanced(cr, v);
            let (t, m) = (
                (30real / 100real) * (value(cr.temp) / 100real),
                (15real / 100real) * (value(cr.tint) / 100real),
            );
            &&& r.0.is_finite() && r.1.is_finite() && r.2.is_finite()
            &&& within(value(r.0), value(v.0) * (1real + t + m), parts(32real))
            &&& within(value(r.1), value(v.1) * (1real - m), parts(32real))
            &&& within(value(r.2), value(v.2) * (1real - t + m), parts(32real))
        }),
{
    let one = Scalar { bits: ONE };
    lemma_constants();
    lemma_gain_constants();
    lemma_fraction(cr.temp);
    lemma_fraction(cr.tint);
    let (x, y) = (value(cr.temp) / 100real, value(cr.tint) / 100real);
    let (tg, mg) = (30real / 100real, 15real / 100real);
    let (ts, ms) = (Scalar { bits: TEMP_GAIN }, Scalar { bits: TINT_GAIN });
    law_product_tracks(
        ts,
        fraction(cr.temp),
        tg,
        x,
        parts(1real),
        parts(2real),
        tg,
        1real,
        parts(2real),
        tg,
        parts(4real),
    );
    law_product_tracks(
        ms,
        fraction(cr.tint),
        mg,
        y,
        parts(1real),
        parts(2real),
        mg,
        1real,
        parts(2real),
        mg,
        parts(4real),
    );
    let (warm, magenta) = (ts.product(fraction(cr.temp)), ms.product(fraction(cr.tint)));
    let (t, m) = (tg * x, mg * y);
    law_sum_tracks(one, warm, 1real, t, 0real, parts(4real), 2real, parts(7real));
    law_sum_tracks(
        one.sum(warm),
        magenta,
        1real + t,
        m,
        parts(7real),
        parts(4real),
        2real,
        parts(14real),
    );
    law_difference_tracks(one, magenta, 1real, m, 0real, parts(4real), 2real, parts(7real));
    law_difference_tracks(one, warm, 1real, t, 0real, parts(4real), 2real, parts(7real));
    law_sum_tracks(
        one.difference(warm),
        magenta,
        1real - t,
        m,
        parts(7real),
        parts(4real),
        2real,
        parts(14real),
    );
    if idle(cr.temp) && idle(cr.tint) {
        assert(t == 0real && m == 0real);
        assert(value(v.0) * (1real + t + m) == value(v.0));
        assert(value(v.1) * (1real - m) == value(v.1));
        assert(value(v.2) * (1real - t + m) == value(v.2));
    } else {
        lemma_gained(v.0, one.sum(warm).sum(magenta), 1real + t + m);
        lemma_gained(v.1, one.difference(magenta), 1real - m);
        lemma_gained(v.2, one.difference(warm).sum(magenta), 1real - t + m);
    }
}

/// A channel that is scaled in its distance from luma.
proof fn lemma_saturated_channel(y: Scalar, v: Scalar, scale: Scalar, l: real, s: real)
    requires
        y.is_finite() && v.is_finite() && scale.is_finite(),
        0real <= value(v) <= 1real,
        0real <= l <= 1real,
        within(value(y), l, parts(16real)),
        within(value(scale), s, parts(18real)),
        size(s) <= 3real,
    ensures
        ({
            let r = unit_range(y.sum(v.difference(y).product(scale)));
            &&& r.is_finite()
            &&& within(value(r), held(l + (value(v) - l) * s), parts(128real))
        }),
{
    let x = value(v);
    law_difference_tracks(v, y, x, l, 0real, parts(16real), 1real, parts(18real));
    law_product_tracks(
        v.difference(y),
        scale,
        x - l,
        s,
        parts(18real),
        parts(18real),
        1real,
        3real,
        parts(73real),
        3real,
        parts(77real),
    );
    let p = v.difference(y).product(scale);
    law_sum_tracks(y, p, l, (x - l) * s, parts(16real), parts(77real), 4real, parts(98real));
    law_limit_tracks(y.sum(p), l + (x - l) * s, parts(98real));
}

/// Saturation scales the distance of every channel from the pixel's luma by one and its
/// part of 100, without regard to the channel: a saturation of -100 leaves a grey of the
/// pixel's luma.
pub proof fn law_saturation_scales_the_distance_from_luma(cr: CameraRaw, v: Rgb)
    requires
        idle(cr.vibrance),
        cr.saturation.is_finite() && size(value(cr.saturation)) <= 100real,
        in_gamut(v),
    ensures
        ({
            let r = saturated(cr, v);
            let l = brightness(value(v.0), value(v.1), value(v.2));
            let s = 1real + value(cr.saturation) / 100real;
            &&& r.0.is_finite() && r.1.is_finite() && r.2.is_finite()
            &&& within(value(r.0), held(l + (value(v.0) - l) * s), parts(128real))
            &&& within(value(r.1), held(l + (value(v.1) - l) * s), parts(128real))
            &&& within(value(r.2), held(l + (value(v.2) - l) * s), parts(128real))
            &&& value(cr.saturation) == -100real ==> within(value(r.0), l, parts(128real))
                && within(value(r.1), l, parts(128real)) && within(value(r.2), l, parts(128real))
        }),
{
    let (zero, one) = (Scalar { bits: 0 }, Scalar { bits: ONE });
    let (a, b, c) = (value(v.0), value(v.1), value(v.2));
    let l = brightness(a, b, c);
    let k = value(cr.saturation) / 100real;
    let s = 1real + k;
    lemma_constants();
    lemma_unit();
    lemma_fraction(cr.saturation);
    law_luma_is_the_weighted_mean(v);
    let vib = cr.vibrance;
    law_order_of_values(vib, zero);
    lemma_fraction(vib);
    law_quotient_is_exact(vib, Scalar { bits: HUNDRED }, zero);
    let (hi, lo) = (v.0.greater(v.1).greater(v.2), v.0.lesser(v.1).lesser(v.2));
    law_order_of_values(v.0, v.1);
    law_order_of_values(v.0, v.2);
    law_order_of_values(v.1, v.0);
    law_order_of_values(v.1, v.2);
    law_order_of_values(v.2, v.0);
    law_order_of_values(v.2, v.1);
    assert(hi.is_finite() && lo.is_finite() && 0real <= value(hi) <= 1real && 0real <= value(lo)
        <= 1real);
    law_difference(hi, lo);
    let spread = hi.difference(lo);
    law_difference(one, spread);
    let rest = one.difference(spread);
    assert(value(fraction(vib)) * value(rest) == 0real) by (nonlinear_arith)
        requires
            value(fraction(vib)) == 0real,
    ;
    law_product_is_exact(fraction(vib), rest, zero);
    let extra = fraction(vib).product(rest);
    law_sum_tracks(
        one,
        fraction(cr.saturation),
        1real,
        k,
        0real,
        parts(2real),
        2real,
        parts(5real),
    );
    law_sum_tracks(
        one.sum(fraction(cr.saturation)),
        extra,
        s,
        0real,
        parts(5real),
        0real,
        2real,
        parts(8real),
    );
    let scale = one.sum(fraction(cr.saturation)).sum(extra);
    if idle(cr.saturation) {
        assert((a - l) * s == a - l && (b - l) * s == b - l && (c - l) * s == c - l)
            by (nonlinear_arith)
            requires
                s == 1real,
        ;
    } else {
        lemma_saturated_channel(luma(v), v.0, scale, l, s);
        lemma_saturated_channel(luma(v), v.1, scale, l, s);
        lemma_saturated_channel(luma(v), v.2, scale, l, s);
    }
    if value(cr.saturation) == -100real {
        assert((a - l) * s == 0real && (b - l) * s == 0real && (c - l) * s == 0real)
            by (nonlinear_arith)
            requires
                s == 0real,
        ;
    }
}

/// The Hermite ramp in exact numbers.
#[verifier::opaque]
pub open spec fn smooth(x: real) -> real {
    let t = held(x);
    (t * t) * (3real - 2real * t)
}

/// The ramp runs from 0 at 0 to 1 at 1 and is as far from one end as from the other in
/// the middle; outside it is flat.
pub proof fn law_ramp_is_smooth(t: Scalar)
    requires
        t.is_finite(),
    ensures
        ramp(t).is_finite(),
        value(ramp(t)) >= 0real,
        within(value(ramp(t)), smooth(value(t)), parts(16real)),
        value(t) <= 0real ==> value(ramp(t)) == 0real,
        value(t) >= 1real ==> within(value(ramp(t)), 1real, parts(16real)),
        2real * value(t) == 1real ==> within(value(ramp(t)), 1real / 2real, parts(16real)),
{
    let (zero, two, three) = (
        Scalar { bits: 0 },
        Scalar { bits: TWO },
        Scalar { bits: THREE },
    );
    reveal(smooth);
    lemma_constants();
    lemma_gain_constants();
    law_limit_tracks(t, value(t), 0real);
    let (u, x) = (unit_range(t), held(value(t)));
    law_product_tracks(u, u, x, x, 0real, 0real, 1real, 1real, 0real, 1real, parts(2real));
    law_product_tracks(two, u, 2real, x, 0real, 0real, 2real, 1real, 0real, 2real, parts(3real));
    let (sq, dbl) = (u.product(u), two.product(u));
    law_difference_tracks(three, dbl, 3real, 2real * x, 0real, parts(3real), 3real, parts(7real));
    let rest = three.difference(dbl);
    let xx = x * x;
    lemma_ramp_error(sq, rest, x);
    assert(xx >= 0real) by (nonlinear_arith)
        requires
            xx == x * x,
    ;
    law_product_stays_within(u, u, zero);
    law_order_of_values(zero, sq);
    let p = value(sq) * value(rest);
    assert(p >= 0real) by (nonlinear_arith)
        requires
            p == value(sq) * value(rest),
            value(sq) >= 0real,
            value(rest) >= 0real,
    ;
    law_product_stays_within(sq, rest, zero);
    law_order_of_values(zero, ramp(t));
    if value(t) <= 0real {
        assert(value(u) * value(u) == 0real) by (nonlinear_arith)
            requires
                value(u) == 0real,
        ;
        law_product_is_exact(u, u, zero);
        assert(p == 0real) by (nonlinear_arith)
            requires
                p == value(sq) * value(rest),
                value(sq) == 0real,
        ;
        law_product_is_exact(sq, rest, zero);
    }
    if value(t) >= 1real {
        assert(xx * (3real - 2real * x) == 1real) by (nonlinear_arith)
            requires
                x == 1real,
                xx == x * x,
        ;
    }
    if 2real * value(t) == 1real {
        assert(xx * (3real - 2real * x) == 1real / 2real) by (nonlinear_arith)
            requires
                x == 1real / 2real,
                xx == x * x,
        ;
    }
}

/// The last product of the ramp, with the tighter bound that the two factors give: where
/// the first is large the second is small.
proof fn lemma_ramp_error(sq: Scalar, rest: Scalar, x: real)
    requires
        sq.is_finite() && rest.is_finite(),
        0real <= x <= 1real,
        within(value(sq), x * x, parts(2real)),
        within(value(rest), 3real - 2real * x, parts(7real)),
    ensures
        sq.product(rest).is_finite(),
        within(value(sq.product(rest)), (x * x) * (3real - 2real * x), parts(16real)),
{
    let (p, q, xx, r) = (value(sq), value(rest), x * x, 3real - 2real * x);
    let (d, f) = (p - xx, q - r);
    let n = 0x100_0000real;
    assert(0real <= xx <= 1real && 0real <= xx * r <= 1real) by (nonlinear_arith)
        requires
            0real <= x <= 1real,
            xx == x * x,
            r == 3real - 2real * x,
    ;
    let (a, b, c) = (xx * f, r * d, d * f);
    assert(p * q == xx * r + a + b + c) by (nonlinear_arith)
        requires
            d == p - xx,
            f == q - r,
            a == xx * f,
            b == r * d,
            c == d * f,
    ;
    assert(-7real <= n * a <= 7real) by (nonlinear_arith)
        requires
            a == xx * f,
            0real <= xx <= 1real,
            n == 0x100_0000real,
            -7real <= n * f <= 7real,
    ;
    assert(-6real <= n * b <= 6real) by (nonlinear_arith)
        requires
            b == r * d,
            1real <= r <= 3real,
            n == 0x100_0000real,
            -2real <= n * d <= 2real,
    ;
    assert(-1real <= n * c <= 1real) by (nonlinear_arith)
        requires
            c == d * f,
            n == 0x100_0000real,
            -2real <= n * d <= 2real,
            -(1real / 4real) <= f <= 1real / 4real,
    ;
    lemma_unit();
    law_product(sq, rest);
}

/// The ramp changes no faster than six times its argument.
proof fn lemma_smooth_is_even(a: real, b: real, e: real)
    requires
        within(a, b, e),
    ensures
        within(smooth(a), smooth(b), 6real * e),
        0real <= smooth(b) <= 1real,
{
    reveal(smooth);
    let (t, u) = (held(a), held(b));
    let (tt, uu, tu) = (t * t, u * u, t * u);
    let g = 3real * (t + u) - 2real * (tt + tu + uu);
    let d = t - u;
    assert(0real <= tt <= 1real && 0real <= uu <= 1real && 0real <= tu <= 1real)
        by (nonlinear_arith)
        requires
            0real <= t <= 1real,
            0real <= u <= 1real,
            tt == t * t,
            uu == u * u,
            tu == t * u,
    ;
    assert(tt * (3real - 2real * t) - uu * (3real - 2real * u) == d * g) by (nonlinear_arith)
        requires
            tt == t * t,
            uu == u * u,
            tu == t * u,
            d == t - u,
            g == 3real * (t + u) - 2real * (tt + tu + uu),
    ;
    let m = size(d);
    assert(d * g <= 6real * m && -(d * g) <= 6real * m) by (nonlinear_arith)
        requires
            -6real <= g <= 6real,
            -m <= d <= m,
            d == m || d == -m,
    ;
    assert(0real <= uu * (3real - 2real * u) <= 1real) by (nonlinear_arith)
        requires
            0real <= u <= 1real,
            uu == u * u,
    ;
}

/// What one tonal control adds, given where luma is on its ramp.
proof fn lemma_weighed(c: Scalar, q: Scalar, z: real)
    requires
        c.is_finite() && size(value(c)) <= 100real,
        q.is_finite(),
        within(value(q), z, parts(24real)),
    ensures
        fraction(c).product(ramp(q)).is_finite(),
        within(
            value(fraction(c).product(ramp(q))),
            (value(c) / 100real) * smooth(z),
            parts(192real),
        ),
        size((value(c) / 100real) * smooth(z)) <= 1real,
{
    lemma_fraction(c);
    law_ramp_is_smooth(q);
    lemma_smooth_is_even(value(q), z, parts(24real));
    law_product_tracks(
        fraction(c),
        ramp(q),
        value(c) / 100real,
        smooth(z),
        parts(2real),
        parts(160real),
        1real,
        1real,
        parts(163real),
        1real,
        parts(165real),
    );
}

/// Where luma is on the ramps that go up and down from `edge` over a width of `den`.
proof fn lemma_on_ramp(y: Scalar, edge: Scalar, den: Scalar, k: real, w: real)
    requires
        y.is_finite() && edge.is_finite() && den.is_finite(),
        0real <= value(y) <= 1real,
        0real <= k <= 1real,
        within(value(edge), k, parts(1real)),
        within(value(den), w, parts(1real)),
        w == 7real / 10real || w == 4real / 10real,
    ensures
        y.difference(edge).quotient(den).is_finite(),
        edge.difference(y).quotient(den).is_finite(),
        within(value(y.difference(edge).quotient(den)), (value(y) - k) / w, parts(24real)),
        within(value(edge.difference(y).quotient(den)), (k - value(y)) / w, parts(24real)),
{
    law_difference_tracks(y, edge, value(y), k, 0real, parts(1real), 1real, parts(3real));
    law_difference_tracks(edge, y, k, value(y), parts(1real), 0real, 1real, parts(3real));
    lemma_ratio(y.difference(edge), den, value(y) - k, w);
    lemma_ratio(edge.difference(y), den, k - value(y), w);
}

proof fn lemma_ratio(a: Scalar, den: Scalar, x: real, w: real)
    requires
        a.is_finite() && den.is_finite(),
        size(x) <= 1real,
        within(value(a), x, parts(3real)),
        within(value(den), w, parts(1real)),
        w == 7real / 10real || w == 4real / 10real,
    ensures
        a.quotient(den).is_finite(),
        within(value(a.quotient(den)), x / w, parts(21real)),
{
    lemma_unit();
    let (p, c, z) = (value(a), value(den), x / w);
    let q = p / c;
    assert(q * c == p) by (nonlinear_arith)
        requires
            q == p / c,
            c > 0real,
    ;
    assert(z * w == x) by (nonlinear_arith)
        requires
            z == x / w,
            w > 0real,
    ;
    let n = 0x100_0000real;
    assert(-(5real / 2real) <= z <= 5real / 2real) by (nonlinear_arith)
        requires
            z * w == x,
            -1real <= x <= 1real,
            w >= 4real / 10real,
    ;
    let (d, f) = (q - z, c - w);
    let zf = z * f;
    assert(-(5real / 2real) <= n * zf <= 5real / 2real) by (nonlinear_arith)
        requires
            zf == z * f,
            n == 0x100_0000real,
            -(5real / 2real) <= z <= 5real / 2real,
            -1real <= n * f <= 1real,
    ;
    assert(d * c == p - x - zf) by (nonlinear_arith)
        requires
            q * c == p,
            z * w == x,
            zf == z * f,
            d == q - z,
            f == c - w,
    ;
    let nd = n * d;
    assert(-16real <= nd <= 16real) by (nonlinear_arith)
        requires
            nd == n * d,
            n == 0x100_0000real,
            d * c == p - x - zf,
            -6real <= n * (p - x - zf) <= 6real,
            c >= 3real / 8real,
    ;
    law_quotient(a, den);
}

/// How much the tonal controls shift luma `y`, in exact numbers.
pub open spec fn tonal_shift(cr: CameraRaw, y: real) -> real {
    let high = (value(cr.highlights) / 100real) * smooth((y - 3real / 10real) / (7real / 10real));
    let shad = (value(cr.shadows) / 100real) * smooth((7real / 10real - y) / (7real / 10real));
    let white = (value(cr.whites) / 100real) * smooth((y - 6real / 10real) / (4real / 10real));
    let black = (value(cr.blacks) / 100real) * smooth((4real / 10real - y) / (4real / 10real));
    (high + shad + white + black) / 2real
}

/// Whether the tonal controls are within their ranges.
pub open spec fn tonal_range(cr: CameraRaw) -> bool {
    &&& cr.highlights.is_finite() && size(value(cr.highlights)) <= 100real
    &&& cr.shadows.is_finite() && size(value(cr.shadows)) <= 100real
    &&& cr.whites.is_finite() && size(value(cr.whites)) <= 100real
    &&& cr.blacks.is_finite() && size(value(cr.blacks)) <= 100real
}

proof fn lemma_edges()
    ensures
        within(value(Scalar { bits: THREE_TENTHS }), 3real / 10real, parts(1real)),
        within(value(Scalar { bits: FOUR_TENTHS }), 4real / 10real, parts(1real)),
        within(value(Scalar { bits: SIX_TENTHS }), 6real / 10real, parts(1real)),
        within(value(Scalar { bits: SEVEN_TENTHS }), 7real / 10real, parts(1real)),
{
    lemma2_to64();
    lemma_pattern(Scalar { bits: THREE_TENTHS }, 25, 0x99_999a, 0x200_0000);
    lemma_pattern(Scalar { bits: FOUR_TENTHS }, 25, 0xcc_cccd, 0x200_0000);
    lemma_pattern(Scalar { bits: SIX_TENTHS }, 24, 0x99_999a, 0x100_0000);
    lemma_pattern(Scalar { bits: SEVEN_TENTHS }, 24, 0xb3_3333, 0x100_0000);
}

/// Each tonal control shifts luma on its own part of the range, by half of its part of
/// 100 where it weighs most: highlights from 0.3 up to 1, shadows from 0.7 down to 0,
/// whites from 0.6 up to 1 and blacks from 0.4 down to 0.
pub proof fn law_tonal_controls_shift_luma(cr: CameraRaw, y: Scalar)
    requires
        tonal_range(cr),
        y.is_finite(),
        0real <= value(y) <= 1real,
    ensures
        region_shift(cr, y).is_finite(),
        within(value(region_shift(cr, y)), tonal_shift(cr, value(y)), parts(1024real)),
        size(tonal_shift(cr, value(y))) <= 2real,
{
    let x = value(y);
    let (s3, s4) = (Scalar { bits: THREE_TENTHS }, Scalar { bits: FOUR_TENTHS });
    let (s6, s7) = (Scalar { bits: SIX_TENTHS }, Scalar { bits: SEVEN_TENTHS });
    let (w7, w4) = (7real / 10real, 4real / 10real);
    lemma_constants();
    lemma_edges();
    lemma_on_ramp(y, s3, s7, 3real / 10real, w7);
    lemma_on_ramp(y, s7, s7, w7, w7);
    lemma_on_ramp(y, s6, s4, 6real / 10real, w4);
    lemma_on_ramp(y, s4, s4, w4, w4);
    let (q1, q2) = (y.difference(s3).quotient(s7), s7.difference(y).quotient(s7));
    let (q3, q4) = (y.difference(s6).quotient(s4), s4.difference(y).quotient(s4));
    let (z1, z2) = ((x - 3real / 10real) / w7, (w7 - x) / w7);
    let (z3, z4) = ((x - 6real / 10real) / w4, (w4 - x) / w4);
    lemma_weighed(cr.highlights, q1, z1);
    lemma_weighed(cr.shadows, q2, z2);
    lemma_weighed(cr.whites, q3, z3);
    lemma_weighed(cr.blacks, q4, z4);
    lemma_shift_sum(
        fraction(cr.highlights).product(ramp(q1)),
        fraction(cr.shadows).product(ramp(q2)),
        fraction(cr.whites).product(ramp(q3)),
        fraction(cr.blacks).product(ramp(q4)),
        (value(cr.highlights) / 100real) * smooth(z1),
        (value(cr.shadows) / 100real) * smooth(z2),
        (value(cr.whites) / 100real) * smooth(z3),
        (value(cr.blacks) / 100real) * smooth(z4),
    );
}

proof fn lemma_shift_sum(
    a: Scalar,
    b: Scalar,
    c: Scalar,
    d: Scalar,
    x: real,
    y: real,
    z: real,
    w: real,
)
    requires
        a.is_finite() && b.is_finite() && c.is_finite() && d.is_finite(),
        within(value(a), x, parts(192real)),
        within(value(b), y, parts(192real)),
        within(value(c), z, parts(192real)),
        within(value(d), w, parts(192real)),
        size(x) <= 1real && size(y) <= 1real && size(z) <= 1real && size(w) <= 1real,
    ensures
        ({
            let r = (Scalar { bits: HALF }).product(a.sum(b).sum(c).sum(d));
            &&& r.is_finite()
            &&& within(value(r), (x + y + z + w) / 2real, parts(512real))
        }),
{
    let half = Scalar { bits: HALF };
    lemma_constants();
    law_sum_tracks(a, b, x, y, parts(192real), parts(192real), 2real, parts(387real));
    law_sum_tracks(a.sum(b), c, x + y, z, parts(387real), parts(192real), 3real, parts(583real));
    law_sum_tracks(
        a.sum(b).sum(c),
        d,
        x + y + z,
        w,
        parts(583real),
        parts(192real),
        4real,
        parts(780real),
    );
    let s = x + y + z + w;
    law_product_tracks(
        half,
        a.sum(b).sum(c).sum(d),
        1real / 2real,
        s,
        0real,
        parts(780real),
        1real / 2real,
        4real,
        parts(390real),
        2real,
        parts(393real),
    );
}

/// A number that is multiplied by `h / y`, where `y` is nearly the number itself.
proof fn lemma_nearly_cancels(v: real, y: real, h: real, z: real, g: real)
    requires
        1real <= 16real * v,
        v <= 1real,
        within(y, v, parts(16real)),
        0real <= h <= 1real,
        z * y == h,
        within(g, z, parts(18real)),
    ensures
        within(v * g, h, parts(512real)),
{
    let n = 0x100_0000real;
    let (d, f) = (v - y, g - z);
    let (p, q) = (d * z, v * f);
    assert(v * g == h + p + q) by (nonlinear_arith)
        requires
            d == v - y,
            f == g - z,
            p == d * z,
            q == v * f,
            z * y == h,
    ;
    assert(0real <= z <= 17real) by (nonlinear_arith)
        requires
            z * y == h,
            0real <= h <= 1real,
            17real * y >= 1real,
    ;
    assert(-272real <= n * p <= 272real) by (nonlinear_arith)
        requires
            p == d * z,
            0real <= z <= 17real,
            n == 0x100_0000real,
            -16real <= n * d <= 16real,
    ;
    assert(-18real <= n * q <= 18real) by (nonlinear_arith)
        requires
            q == v * f,
            0real <= v <= 1real,
            n == 0x100_0000real,
            -18real <= n * f <= 18real,
    ;
}

/// One channel of a pixel with that luma.
proof fn lemma_shifted_channel(v: Scalar, y: Scalar, delta: Scalar, t: real)
    requires
        v.is_finite() && y.is_finite() && delta.is_finite(),
        1real <= 16real * value(v),
        value(v) <= 1real,
        value(y) <= 1real,
        within(value(y), value(v), parts(16real)),
        within(value(delta), t, parts(1024real)),
        size(t) <= 2real,
    ensures
        ({
            let r = unit_range(v.product(unit_range(y.sum(delta)).quotient(y)));
            &&& r.is_finite()
            &&& within(value(r), held(value(v) + t), parts(2048real))
        }),
{
    let x = value(v);
    lemma_unit();
    law_sum_tracks(y, delta, x, t, parts(16real), parts(1024real), 3real, parts(1048real));
    law_limit_tracks(y.sum(delta), x + t, parts(1048real));
    let h = unit_range(y.sum(delta));
    let z = value(h) / value(y);
    let (hv, yv) = (value(h), value(y));
    assert(z * yv == hv && 0real <= z <= 17real) by (nonlinear_arith)
        requires
            z == hv / yv,
            0real <= hv <= 1real,
            17real * yv >= 1real,
    ;
    law_quotient(h, y);
    let g = h.quotient(y);
    lemma_nearly_cancels(x, yv, hv, z, value(g));
    law_product(v, g);
    law_limit_tracks(v.product(g), held(x + t), parts(2048real));
}

/// The tonal controls brighten and darken a grey pixel that is not near black by what
/// they shift its luma by: it stays grey and keeps within 0..=1.
pub proof fn law_grey_is_shifted(cr: CameraRaw, v: Scalar)
    requires
        tonal_range(cr),
        v.is_finite(),
        1real <= 16real * value(v),
        value(v) <= 1real,
    ensures
        ({
            let r = regions(cr, (v, v, v));
            let y = value(unit_range(luma((v, v, v))));
            &&& r.0 == r.1 && r.1 == r.2
            &&& r.0.is_finite()
            &&& within(y, value(v), parts(16real))
            &&& within(value(r.0), held(value(v) + tonal_shift(cr, y)), parts(2048real))
        }),
{
    lemma_constants();
    lemma2_to64();
    lemma2_to64_rest();
    let least_y = Scalar { bits: LEAST_LUMA };
    lemma_pattern(least_y, 37, 0xd1_b717, 0x20_0000_0000);
    law_luma_is_the_weighted_mean((v, v, v));
    let l = luma((v, v, v));
    law_limit_tracks(l, value(v), parts(16real));
    let y = unit_range(l);
    law_order_of_values(least_y, y);
    law_tonal_controls_shift_luma(cr, y);
    let t = tonal_shift(cr, value(y));
    lemma_shifted_channel(v, y, region_shift(cr, y), t);
    if idle(cr.highlights) && idle(cr.shadows) && idle(cr.whites) && idle(cr.blacks) {
        lemma_no_shift(cr, value(y));
    }
}

proof fn lemma_no_shift(cr: CameraRaw, y: real)
    requires
        tonal_range(cr),
        idle(cr.highlights) && idle(cr.shadows) && idle(cr.whites) && idle(cr.blacks),
    ensures
        tonal_shift(cr, y) == 0real,
{
    lemma_fraction(cr.highlights);
    lemma_fraction(cr.shadows);
    lemma_fraction(cr.whites);
    lemma_fraction(cr.blacks);
    lemma_nothing(smooth((y - 3real / 10real) / (7real / 10real)));
    lemma_nothing(smooth((7real / 10real - y) / (7real / 10real)));
    lemma_nothing(smooth((y - 6real / 10real) / (4real / 10real)));
    lemma_nothing(smooth((4real / 10real - y) / (4real / 10real)));
    assert(0real / 100real == 0real);
}

proof fn lemma_nothing(x: real)
    by (nonlinear_arith)
    ensures
        0real * x == 0real,
{
}

/// Dark light is put on a line in display space, and the way back undoes it.
pub proof fn law_dark_light_returns<P: Fn(Scalar, Scalar) -> Scalar>(
    pow: P,
    c: Scalar,
    d: Scalar,
    back: Scalar,
)
    requires
        c.is_finite() && 0real <= value(c),
        c.at_most(Scalar { bits: LINEAR_KNEE }),
        encoded(pow, c, d),
        decoded(pow, d, back),
    ensures
        d.is_finite() && back.is_finite(),
        within(value(d), value(c) * (1292real / 100real), parts(4real)),
        within(value(back), value(c), parts(4real)),
{
    let (knee, shown_knee, slope) = (
        Scalar { bits: LINEAR_KNEE },
        Scalar { bits: DISPLAY_KNEE },
        Scalar { bits: LINE_SLOPE },
    );
    lemma_unit();
    lemma_curve_constants();
    law_order_of_values(c, knee);
    let (x, s) = (value(c), value(slope));
    let p = x * s;
    assert(0real <= p && p <= 5real / 100real);
    law_product(c, slope);
    law_order_of_values(d, shown_knee);
    law_quotient(d, slope);
}

proof fn lemma_curve_constants()
    ensures
        value(Scalar { bits: LINEAR_KNEE }) == 0xcd_2e1creal / 0x1_0000_0000real,
        value(Scalar { bits: DISPLAY_KNEE }) == 0xa5_aee6real / 0x1000_0000real,
        value(Scalar { bits: LINE_SLOPE }) == 0xce_b852real / 0x10_0000real,
        value(Scalar { bits: POWER_SCALE }) == 0x87_0a3dreal / 0x80_0000real,
        value(Scalar { bits: POWER_OFFSET }) == 0xe1_47aereal / 0x1000_0000real,
{
    lemma2_to64();
    lemma2_to64_rest();
    lemma_pattern(Scalar { bits: LINEAR_KNEE }, 32, 0xcd_2e1c, 0x1_0000_0000);
    lemma_pattern(Scalar { bits: DISPLAY_KNEE }, 28, 0xa5_aee6, 0x1000_0000);
    lemma_pattern(Scalar { bits: LINE_SLOPE }, 20, 0xce_b852, 0x10_0000);
    lemma_pattern(Scalar { bits: POWER_SCALE }, 23, 0x87_0a3d, 0x80_0000);
    lemma_pattern(Scalar { bits: POWER_OFFSET }, 28, 0xe1_47ae, 0x1000_0000);
}

/// Above the knee the curve raises light to a power, and the way back undoes all that
/// was done to it: it raises the same number, up to rounding, to the inverse power.
pub proof fn law_bright_light_returns<P: Fn(Scalar, Scalar) -> Scalar>(
    pow: P,
    c: Scalar,
    d: Scalar,
    back: Scalar,
)
    requires
        c.is_finite(),
        (Scalar { bits: LINEAR_KNEE }).less(c),
        encoded(pow, c, d),
        decoded(pow, d, back),
        forall|y: Scalar, p: Scalar| #[trigger]
            call_ensures(pow, (c, y), p) ==> p.is_finite() && 1real <= 8real * value(p)
                && value(p) <= 1real,
    ensures
        exists|p: Scalar, q: Scalar, a: Scalar, b: Scalar|
            #![trigger call_ensures(pow, (c, a), p), call_ensures(pow, (q, b), back)]
            call_ensures(pow, (c, a), p) && call_ensures(pow, (q, b), back) && q.is_finite()
                && within(value(q), value(p), parts(16real)) && within(
                value(a) * value(b),
                1real,
                parts(4real),
            ) && b.bits == GAMMA,
{
    let (k, o, g, one) = (
        Scalar { bits: POWER_SCALE },
        Scalar { bits: POWER_OFFSET },
        Scalar { bits: GAMMA },
        Scalar { bits: ONE },
    );
    let a = one.quotient(g);
    lemma_constants();
    lemma_unit();
    lemma_curve_constants();
    lemma2_to64();
    lemma_pattern(g, 22, 0x99_999a, 0x40_0000);
    law_quotient(one, g);
    let p = choose|p: Scalar| #[trigger]
        call_ensures(pow, (c, a), p) && d == k.product(p).difference(o);
    assert(call_ensures(pow, (c, a), p));
    let (x, kv, ov) = (value(p), value(k), value(o));
    law_product(k, p);
    law_difference(k.product(p), o);
    law_order_of_values(d, Scalar { bits: DISPLAY_KNEE });
    law_sum(d, o);
    law_quotient(d.sum(o), k);
    let q = d.sum(o).quotient(k);
    assert(call_ensures(pow, (q, g), back));
}

/// The largest channel of a pixel less the smallest, in exact numbers.
pub open spec fn spread_of(r: real, g: real, b: real) -> real {
    let hi = if r >= g && r >= b {
        r
    } else if g >= b {
        g
    } else {
        b
    };
    let lo = if r <= g && r <= b {
        r
    } else if g <= b {
        g
    } else {
        b
    };
    hi - lo
}

proof fn lemma_spread(v: Rgb)
    requires
        in_gamut(v),
    ensures
        ({
            let s = v.0.greater(v.1).greater(v.2).difference(v.0.lesser(v.1).lesser(v.2));
            let x = spread_of(value(v.0), value(v.1), value(v.2));
            &&& s.is_finite()
            &&& 0real <= x <= 1real
            &&& within(value(s), x, parts(2real))
        }),
{
    law_order_of_values(v.0, v.1);
    law_order_of_values(v.0, v.2);
    law_order_of_values(v.1, v.0);
    law_order_of_values(v.1, v.2);
    law_order_of_values(v.2, v.0);
    law_order_of_values(v.2, v.1);
    let (hi, lo) = (v.0.greater(v.1).greater(v.2), v.0.lesser(v.1).lesser(v.2));
    law_difference_tracks(hi, lo, value(hi), value(lo), 0real, 0real, 1real, parts(2real));
}

/// Vibrance scales the distance of every channel from luma as saturation does, but by less
/// the farther apart the channels of the pixel are: by its part of 100 where they are the
/// same, and not at all where the pixel is as saturated as can be.
pub proof fn law_vibrance_spares_saturated_pixels(cr: CameraRaw, v: Rgb)
    requires
        cr.vibrance.is_finite() && size(value(cr.vibrance)) <= 100real,
        cr.saturation.is_finite() && size(value(cr.saturation)) <= 100real,
        in_gamut(v),
    ensures
        ({
            let r = saturated(cr, v);
            let (a, b, c) = (value(v.0), value(v.1), value(v.2));
            let l = brightness(a, b, c);
            let s = 1real + value(cr.saturation) / 100real + (value(cr.vibrance) / 100real) * (
            1real - spread_of(a, b, c));
            &&& r.0.is_finite() && r.1.is_finite() && r.2.is_finite()
            &&& within(value(r.0), held(l + (a - l) * s), parts(128real))
            &&& within(value(r.1), held(l + (b - l) * s), parts(128real))
            &&& within(value(r.2), held(l + (c - l) * s), parts(128real))
        }),
{
    let one = Scalar { bits: ONE };
    let (a, b, c) = (value(v.0), value(v.1), value(v.2));
    let l = brightness(a, b, c);
    let (k, m) = (value(cr.saturation) / 100real, value(cr.vibrance) / 100real);
    let x = spread_of(a, b, c);
    lemma_constants();
    lemma_fraction(cr.saturation);
    lemma_fraction(cr.vibrance);
    law_luma_is_the_weighted_mean(v);
    lemma_spread(v);
    let spread = v.0.greater(v.1).greater(v.2).difference(v.0.lesser(v.1).lesser(v.2));
    law_difference_tracks(one, spread, 1real, x, 0real, parts(2real), 1real, parts(4real));
    let rest = one.difference(spread);
    law_product_tracks(
        fraction(cr.vibrance),
        rest,
        m,
        1real - x,
        parts(2real),
        parts(4real),
        1real,
        1real,
        parts(7real),
        1real,
        parts(9real),
    );
    let extra = fraction(cr.vibrance).product(rest);
    let e = m * (1real - x);
    law_sum_tracks(
        one,
        fraction(cr.saturation),
        1real,
        k,
        0real,
        parts(2real),
        2real,
        parts(5real),
    );
    let first = one.sum(fraction(cr.saturation));
    law_sum_tracks(first, extra, 1real + k, e, parts(5real), parts(9real), 3real, parts(18real));
    let s = 1real + k + e;
    if idle(cr.vibrance) && idle(cr.saturation) {
        assert(e == 0real) by (nonlinear_arith)
            requires
                e == m * (1real - x),
                m == 0real,
        ;
        assert((a - l) * s == a - l && (b - l) * s == b - l && (c - l) * s == c - l)
            by (nonlinear_arith)
            requires
                s == 1real,
        ;
    } else {
        lemma_saturated_channel(luma(v), v.0, first.sum(extra), l, s);
        lemma_saturated_channel(luma(v), v.1, first.sum(extra), l, s);
        lemma_saturated_channel(luma(v), v.2, first.sum(extra), l, s);
    }
}

/// `pow` keeps the display-space form of light from 0 to 1 within 0 to 1.
pub open spec fn shows_in_gamut<P: Fn(Scalar, Scalar) -> Scalar>(pow: P) -> bool {
    forall|c: Scalar, d: Scalar| #[trigger]
        encoded(pow, unit_range(c), d) ==> d.is_finite() && 0real <= value(d) <= 1real
}

/// A pixel that is developed with contrast alone is set apart in display space, and
/// nothing else is done to it there or in linear light.
pub proof fn law_contrast_works_in_display_space<P: Fn(Scalar, Scalar) -> Scalar>(
    cr: CameraRaw,
    pow: P,
    v: Rgb,
    out: Rgb,
)
    requires
        developed(cr, pow, v, out),
        !idle(cr.contrast),
        cr.contrast.is_finite() && size(value(cr.contrast)) <= 100real,
        idle(cr.temp) && idle(cr.tint) && idle(cr.exposure) && only_contrast(cr),
        shows_in_gamut(pow),
    ensures
        exists|d: Rgb, g: Rgb| #[trigger]
            displayed(pow, v, d) && #[trigger] linearised(pow, g, out) && set_apart(
                cr.contrast,
                d.0,
                g.0,
            ) && set_apart(cr.contrast, d.1, g.1) && set_apart(cr.contrast, d.2, g.2),
{
    assert(cr.controls()[3] == cr.contrast);
    let (lit, d) = choose|lit: Rgb, d: Rgb| #[trigger]
        exposed(cr, pow, balanced(cr, v), lit) && #[trigger] displayed(pow, lit, d) && linearised(
            pow,
            graded(cr, d),
            out,
        );
    assert(lit == v);
    assert(displayed(pow, v, d));
    assert(encoded(pow, unit_range(v.0), d.0));
    assert(encoded(pow, unit_range(v.1), d.1));
    assert(encoded(pow, unit_range(v.2), d.2));
    law_contrast_sets_channels_apart(cr, d);
    assert(linearised(pow, graded(cr, d), out));
}

} // verus!
