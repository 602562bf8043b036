//! Colours on their way between bytes, display space and linear light.
//!
//! The transfer curves between display space and linear light are left to the
//! caller.

use crate::arith::{law_times_one, lemma_one};
use crate::camera_raw::unit_range;
use crate::exact::{
    held, law_limit_tracks, law_order_of_values, law_product, law_product_stays_within,
    law_product_tracks, law_quotient, law_quotient_stays_within, law_round, law_whole,
    lemma_constants, lemma_pattern, lemma_unit, parts, size, value, within,
};
use crate::geometry::{HALF, ONE};
use crate::gradient::{byte_level, level_of, Rgb8, BYTE_MAX};
use crate::half_float::{f32_to_f16_bytes, packs};
use crate::pattern::seen;
use crate::retouch::{law_straight_colour_returns, straightening, LEAST_ALPHA};
use crate::scalar::Scalar;
use vstd::arithmetic::power2::*;
use vstd::prelude::*;

verus! {

/// 0.01, the alpha up to which a sampled pixel has no colour.
pub const SAMPLE_ALPHA: u32 = 0x3c23_d70a;

/// `v` is a byte of display-space colour in linear light, premultiplied by an
/// alpha byte.
pub open spec fn lit<F: Fn(Scalar) -> Scalar>(linear: F, b: u8, a: u8, v: Scalar) -> bool {
    exists|l: Scalar| #[trigger]
        call_ensures(linear, (byte_level(b),), l) && v == l.product(byte_level(a))
}

/// `px` are 8-bit display-space pixels in linear light, premultiplied. An
/// incomplete last pixel is left out.
pub open spec fn lit_pixels<F: Fn(Scalar) -> Scalar>(
    linear: F,
    rgba8: Seq<u8>,
    px: Seq<Scalar>,
) -> bool {
    &&& px.len() == 4 * (rgba8.len() as int / 4)
    &&& forall|k: int|
        0 <= k < px.len() ==> if k % 4 == 3 {
            #[trigger] px[k] == byte_level(rgba8[k])
        } else {
            lit(linear, rgba8[k], rgba8[k - k % 4 + 3], px[k])
        }
}

/// `bytes` store 8-bit display-space pixels in linear light, premultiplied.
pub open spec fn stores_rgba8<F: Fn(Scalar) -> Scalar>(
    linear: F,
    rgba8: Seq<u8>,
    bytes: Seq<u8>,
) -> bool {
    exists|px: Seq<Scalar>| #[trigger] packs(px, bytes) && lit_pixels(linear, rgba8, px)
}

/// 8-bit display-space pixels as a layer's stored bytes.
pub fn rgba8_to_f16_bytes<F: Fn(Scalar) -> Scalar>(rgba8: &[u8], linear: &F) -> (bytes: Vec<u8>)
    requires
        forall|x: Scalar| #[trigger] call_requires(*linear, (x,)),
    ensures
        stores_rgba8(*linear, rgba8@, bytes@),
{
    let len: usize = rgba8.len();
    let n: usize = len - len % 4;
    let mut px: Vec<Scalar> = Vec::new();
    let mut k: usize = 0;
    while k < n
        invariant
            k <= n <= len == rgba8@.len(),
            n % 4 == 0,
            forall|x: Scalar| #[trigger] call_requires(*linear, (x,)),
            px@.len() == k,
            forall|j: int|
                0 <= j < k ==> if j % 4 == 3 {
                    #[trigger] px@[j] == byte_level(rgba8@[j])
                } else {
                    lit(*linear, rgba8@[j], rgba8@[j - j % 4 + 3], px@[j])
                },
        decreases n - k,
    {
        if k % 4 == 3 {
            px.push(level_of(rgba8[k]));
        } else {
            let l: Scalar = linear(level_of(rgba8[k]));
            px.push(l.times(level_of(rgba8[k - k % 4 + 3])));
        }
        k = k + 1;
    }
    assert(lit_pixels(*linear, rgba8@, px@));
    f32_to_f16_bytes(px.as_slice())
}

/// A number from 0 to 1 as the nearest byte.
pub open spec fn nearest_byte(s: Scalar) -> int {
    let v = s.product(Scalar { bits: BYTE_MAX });
    v.cast(v.round_int(), 0, 255)
}

/// A number from 0 to 1 as the nearest byte.
pub fn to_byte(s: Scalar) -> (r: u8)
    ensures
        r == nearest_byte(s),
{
    let v: u32 = s.times(Scalar { bits: BYTE_MAX }).round_u32();
    if v > 255 {
        255
    } else {
        v as u8
    }
}

/// `b` is the display-space byte of a premultiplied linear channel.
pub open spec fn shown_byte<F: Fn(Scalar) -> Scalar>(
    display: F,
    c: Scalar,
    alpha: Scalar,
    b: u8,
) -> bool {
    exists|d: Scalar| #[trigger]
        call_ensures(display, (unit_range(c.product(straightening(alpha))),), d) && b
            == nearest_byte(d)
}

/// `out` are premultiplied linear pixels as 8-bit display-space ones.
pub open spec fn shown_pixels<F: Fn(Scalar) -> Scalar>(
    display: F,
    px: Seq<Scalar>,
    out: Seq<u8>,
) -> bool {
    &&& out.len() == 4 * (px.len() as int / 4)
    &&& forall|k: int|
        0 <= k < out.len() ==> if k % 4 == 3 {
            #[trigger] out[k] == nearest_byte(unit_range(px[k]))
        } else {
            shown_byte(display, px[k], px[k - k % 4 + 3], out[k])
        }
}

/// Premultiplied linear pixels as 8-bit display-space ones, for an export.
pub fn to_rgba8<F: Fn(Scalar) -> Scalar>(px: &[Scalar], display: &F) -> (out: Vec<u8>)
    requires
        forall|x: Scalar| #[trigger] call_requires(*display, (x,)),
    ensures
        shown_pixels(*display, px@, out@),
{
    let len: usize = px.len();
    let n: usize = len - len % 4;
    let (zero, one): (Scalar, Scalar) = (Scalar::zero(), Scalar { bits: ONE });
    let mut out: Vec<u8> = Vec::new();
    let mut k: usize = 0;
    while k < n
        invariant
            k <= n <= len == px@.len(),
            n % 4 == 0,
            zero == (Scalar { bits: 0 }),
            one == (Scalar { bits: ONE }),
            forall|x: Scalar| #[trigger] call_requires(*display, (x,)),
            out@.len() == k,
            forall|j: int|
                0 <= j < k ==> if j % 4 == 3 {
                    #[trigger] out@[j] == nearest_byte(unit_range(px@[j]))
                } else {
                    shown_byte(*display, px@[j], px@[j - j % 4 + 3], out@[j])
                },
        decreases n - k,
    {
        if k % 4 == 3 {
            out.push(to_byte(px[k].clamp(zero, one)));
        } else {
            let a: Scalar = px[k - k % 4 + 3];
            let inv: Scalar = if a.gt(Scalar { bits: LEAST_ALPHA }) {
                one.over(a)
            } else {
                zero
            };
            let c: Scalar = px[k].times(inv).clamp(zero, one);
            assert(c == unit_range(px@[k as int].product(straightening(a))));
            let d: Scalar = display(c);
            out.push(to_byte(d));
            assert(shown_byte(*display, px@[k as int], a, out@[k as int]));
        }
        k = k + 1;
    }
    out
}

/// `b` is the display-space byte of a sampled channel.
pub open spec fn sampled_byte<F: Fn(Scalar) -> Scalar>(
    display: F,
    c: Scalar,
    alpha: Scalar,
    b: u8,
) -> bool {
    exists|d: Scalar| #[trigger]
        call_ensures(display, (c.quotient(alpha),), d) && b == nearest_byte(unit_range(d))
}

/// The colour of a sampled premultiplied pixel, if it has any.
pub fn sample_color<F: Fn(Scalar) -> Scalar>(p: [Scalar; 4], display: &F) -> (r: Option<Rgb8>)
    requires
        forall|x: Scalar| #[trigger] call_requires(*display, (x,)),
    ensures
        r is Some <==> (Scalar { bits: SAMPLE_ALPHA }).less(p@[3]),
        r matches Some(c) ==> {
            &&& sampled_byte(*display, p@[0], p@[3], c.r)
            &&& sampled_byte(*display, p@[1], p@[3], c.g)
            &&& sampled_byte(*display, p@[2], p@[3], c.b)
        },
{
    let a: Scalar = p[3];
    if !a.gt(Scalar { bits: SAMPLE_ALPHA }) {
        return None;
    }
    let (zero, one): (Scalar, Scalar) = (Scalar::zero(), Scalar { bits: ONE });
    let dr: Scalar = display(p[0].over(a));
    let dg: Scalar = display(p[1].over(a));
    let db: Scalar = display(p[2].over(a));
    Some(
        Rgb8 {
            r: to_byte(dr.clamp(zero, one)),
            g: to_byte(dg.clamp(zero, one)),
            b: to_byte(db.clamp(zero, one)),
        },
    )
}

/// A byte of colour, multiplied by an alpha.
pub open spec fn faded_byte(v: u8, a: u8) -> int {
    let x = Scalar::whole(v as int).product(byte_level(a)).sum(Scalar { bits: HALF });
    x.cast(x.trunc_int(), 0, 255)
}

/// `c` is a colour as a colour picker holds it: multiplied by its alpha.
pub open spec fn picked(r: u8, g: u8, b: u8, a: u8, c: Seq<u8>) -> bool {
    &&& c.len() == 4
    &&& c[3] == a
    &&& if a == 0 {
        c[0] == 0 && c[1] == 0 && c[2] == 0
    } else if a == 255 {
        c[0] == r && c[1] == g && c[2] == b
    } else {
        c[0] == faded_byte(r, a) && c[1] == faded_byte(g, a) && c[2] == faded_byte(b, a)
    }
}

/// Calls `egui::Color32::from_rgba_unmultiplied`. The claim is that it multiplies
/// each byte of colour by the alpha's part of 255 in single precision, adds a half
/// and drops the fraction; that it keeps an opaque colour as it is; and that it
/// makes a colour without alpha black.
#[verifier::external_body]
fn picker_color(r: u8, g: u8, b: u8, a: u8) -> (c: [u8; 4])
    ensures
        picked(r, g, b, a, c@),
{
    egui::Color32::from_rgba_unmultiplied(r, g, b, a).to_array()
}

/// A number from 0 to 1 as a byte, rounded towards zero.
pub open spec fn cut_byte(s: Scalar) -> int {
    let v = s.product(Scalar { bits: BYTE_MAX });
    v.cast(v.trunc_int(), 0, 255)
}

/// A display-space RGBA colour as a colour picker holds it: bytes, rounded towards
/// zero and multiplied by the alpha.
pub fn srgba_to_color(c: [Scalar; 4]) -> (r: [u8; 4])
    ensures
        picked(
            cut_byte(c@[0]) as u8,
            cut_byte(c@[1]) as u8,
            cut_byte(c@[2]) as u8,
            cut_byte(c@[3]) as u8,
            r@,
        ),
{
    picker_color(floor_byte(c[0]), floor_byte(c[1]), floor_byte(c[2]), floor_byte(c[3]))
}

fn floor_byte(s: Scalar) -> (r: u8)
    ensures
        r == cut_byte(s),
{
    let v: u32 = s.times(Scalar { bits: BYTE_MAX }).trunc_u32();
    if v > 255 {
        255
    } else {
        v as u8
    }
}

/// The bytes of a colour as numbers from 0 to 1.
pub fn color_to_srgba(c: [u8; 4]) -> (r: [Scalar; 4])
    ensures
        forall|i: int| 0 <= i < 4 ==> #[trigger] r@[i] == byte_level(c@[i]),
{
    [level_of(c[0]), level_of(c[1]), level_of(c[2]), level_of(c[3])]
}

/// `v` is a brush colour in linear light, premultiplied by an opacity.
pub open spec fn paint<F: Fn(Scalar) -> Scalar>(
    linear: F,
    c: Rgb8,
    opacity: Scalar,
    v: Seq<Scalar>,
) -> bool {
    &&& v.len() == 4
    &&& exists|l: Scalar| #[trigger]
        call_ensures(linear, (byte_level(c.r),), l) && v[0] == l.product(opacity)
    &&& exists|l: Scalar| #[trigger]
        call_ensures(linear, (byte_level(c.g),), l) && v[1] == l.product(opacity)
    &&& exists|l: Scalar| #[trigger]
        call_ensures(linear, (byte_level(c.b),), l) && v[2] == l.product(opacity)
    &&& v[3] == opacity
}

/// The pixel that a bucket fill paints.
pub fn fill_pixel<F: Fn(Scalar) -> Scalar>(c: Rgb8, opacity: Scalar, linear: &F) -> (r: [Scalar;
    4])
    requires
        forall|x: Scalar| #[trigger] call_requires(*linear, (x,)),
    ensures
        paint(*linear, c, opacity, r@),
{
    let lr: Scalar = linear(level_of(c.r));
    let lg: Scalar = linear(level_of(c.g));
    let lb: Scalar = linear(level_of(c.b));
    let r: [Scalar; 4] = [lr.times(opacity), lg.times(opacity), lb.times(opacity), opacity];
    assert(r@[0] == lr.product(opacity) && r@[1] == lg.product(opacity) && r@[2] == lb.product(
        opacity,
    ));
    r
}

/// Whether a fill paints pixel `i`: the flood reached it, and it is selected by
/// more than half.
pub open spec fn flooded(mask: Seq<bool>, sel: Option<Seq<Scalar>>, i: int) -> bool {
    mask[i] && (sel matches Some(s) ==> (Scalar { bits: HALF }).less(s[i]))
}

/// Paint the pixels that a flood reached, within the selection.
pub fn fill_masked(px: &mut [Scalar], mask: &[bool], sel: Option<&[Scalar]>, fill: [Scalar; 4])
    requires
        old(px)@.len() >= 4 * mask@.len(),
        sel matches Some(s) ==> s@.len() >= mask@.len(),
    ensures
        final(px)@.len() == old(px)@.len(),
        forall|k: int|
            0 <= k < 4 * mask@.len() ==> #[trigger] final(px)@[k] == (if flooded(
                mask@,
                seen(sel),
                k / 4,
            ) {
                fill@[k % 4]
            } else {
                old(px)@[k]
            }),
        forall|k: int|
            4 * mask@.len() <= k < old(px)@.len() ==> #[trigger] final(px)@[k] == old(px)@[k],
{
    let ghost start = px@;
    let len: usize = px.len();
    let n: usize = mask.len();
    let mut k: usize = 0;
    while k < 4 * n
        invariant
            n == mask@.len(),
            k <= 4 * n <= len == start.len() == px@.len(),
            sel matches Some(s) ==> s@.len() >= n,
            forall|j: int|
                0 <= j < k ==> #[trigger] px@[j] == (if flooded(mask@, seen(sel), j / 4) {
                    fill@[j % 4]
                } else {
                    start[j]
                }),
            forall|j: int| k <= j < px@.len() ==> #[trigger] px@[j] == start[j],
        decreases 4 * n - k,
    {
        let i: usize = k / 4;
        let selected: bool = match sel {
            Some(s) => s[i].gt(Scalar { bits: HALF }),
            None => true,
        };
        if mask[i] && selected {
            px[k] = fill[k % 4];
        }
        k = k + 1;
    }
}

/// A region as a selection mask of zeros and ones.
pub fn selection_of(mask: &[bool]) -> (r: Vec<Scalar>)
    ensures
        r@.len() == mask@.len(),
        forall|i: int|
            0 <= i < r@.len() ==> (#[trigger] r@[i]).bits == (if mask@[i] {
                ONE
            } else {
                0
            }),
{
    let mut r: Vec<Scalar> = Vec::new();
    let mut i: usize = 0;
    while i < mask.len()
        invariant
            i <= mask@.len(),
            r@.len() == i,
            forall|j: int|
                0 <= j < i ==> (#[trigger] r@[j]).bits == (if mask@[j] {
                    ONE
                } else {
                    0
                }),
        decreases mask@.len() - i,
    {
        r.push(
            Scalar {
                bits: if mask[i] {
                    ONE
                } else {
                    0
                },
            },
        );
        i = i + 1;
    }
    r
}

/// The pixels that a coverage mask selects by more than half.
pub fn region_of(sel: &[Scalar]) -> (r: Vec<bool>)
    ensures
        r@.len() == sel@.len(),
        forall|i: int|
            0 <= i < r@.len() ==> #[trigger] r@[i] == (Scalar { bits: HALF }).less(sel@[i]),
{
    let mut r: Vec<bool> = Vec::new();
    let mut i: usize = 0;
    while i < sel.len()
        invariant
            i <= sel@.len(),
            r@.len() == i,
            forall|j: int|
                0 <= j < i ==> #[trigger] r@[j] == (Scalar { bits: HALF }).less(sel@[j]),
        decreases sel@.len() - i,
    {
        r.push(sel[i].gt(Scalar { bits: HALF }));
        i = i + 1;
    }
    r
}

/// A region turned into a selection and back is the region.
pub proof fn law_region_survives_as_selection(mask: Seq<bool>, sel: Seq<Scalar>, back: Seq<bool>)
    requires
        sel.len() == mask.len(),
        back.len() == mask.len(),
        forall|i: int|
            0 <= i < sel.len() ==> (#[trigger] sel[i]).bits == (if mask[i] {
                ONE
            } else {
                0
            }),
        forall|i: int|
            0 <= i < back.len() ==> #[trigger] back[i] == (Scalar { bits: HALF }).less(sel[i]),
    ensures
        back == mask,
{
    assert forall|i: int| 0 <= i < mask.len() implies back[i] == mask[i] by {
        assert(sel[i].bits == (if mask[i] { ONE } else { 0 }));
    }
    assert(back =~= mask);
}

/// A number from 0 to 1 and its byte are half a step of the bytes apart at most, up to
/// rounding.
pub proof fn law_nearest_byte_is_near(s: Scalar)
    requires
        s.is_finite(),
        0real <= value(s) <= 1real,
    ensures
        0 <= nearest_byte(s) <= 255,
        2real * size(nearest_byte(s) as real - 255real * value(s)) <= 1real + parts(1024real),
{
    let max = Scalar { bits: BYTE_MAX };
    let v = s.product(max);
    let x = value(s) * 255real;
    lemma_constants();
    lemma_unit();
    law_product(s, max);
    law_product_stays_within(s, max, max);
    law_product_stays_within(s, max, Scalar { bits: 0 });
    law_order_of_values(v, max);
    law_order_of_values(Scalar { bits: 0 }, v);
    law_round(v);
    let r = v.round_int();
    assert(r <= 255 && r >= 0);
}

/// A byte stands for its part of 255.
pub proof fn law_level_of_a_byte(b: u8)
    ensures
        byte_level(b).is_finite(),
        0real <= value(byte_level(b)) <= 1real,
        within(value(byte_level(b)), b as real / 255real, parts(2real)),
{
    let (max, one) = (Scalar { bits: BYTE_MAX }, Scalar { bits: ONE });
    lemma_constants();
    lemma_unit();
    law_whole(b as int);
    let w = Scalar::whole(b as int);
    law_quotient(w, max);
    law_quotient_stays_within(w, max, one);
    law_quotient_stays_within(w, max, Scalar { bits: 0 });
    law_order_of_values(byte_level(b), one);
    law_order_of_values(Scalar { bits: 0 }, byte_level(b));
}

/// A byte taken as a number and turned back into a byte is the byte that it was.
pub proof fn law_bytes_return(b: u8, s: Scalar)
    requires
        s.is_finite(),
        0real <= value(s) <= 1real,
        within(value(s), b as real / 255real, 1real / 1024real),
    ensures
        nearest_byte(s) == b,
        nearest_byte(byte_level(b)) == b,
{
    law_level_of_a_byte(b);
    law_nearest_byte_is_near(s);
    law_nearest_byte_is_near(byte_level(b));
    let (m, n) = (nearest_byte(s), nearest_byte(byte_level(b)));
    assert((m - b) as real == m as real - b as real);
    assert((n - b) as real == n as real - b as real);
}

/// The exported colour does not depend on the alpha. A straight colour from 0 to 1, in a
/// pixel that is premultiplied by an alpha above the least one, is shown as the byte
/// nearest to what the display function makes of that colour, up to rounding of the
/// colour; in an opaque pixel, of that colour to the bit.
pub proof fn law_export_shows_straight_light<F: Fn(Scalar) -> Scalar>(
    display: F,
    px: Seq<Scalar>,
    out: Seq<u8>,
    k: int,
    v: Scalar,
)
    requires
        shown_pixels(display, px, out),
        0 <= k < out.len(),
        k % 4 != 3,
        v.is_finite(),
        0real <= value(v) <= 1real,
        ({
            let alpha = px[k - k % 4 + 3];
            &&& alpha.is_finite() && (Scalar { bits: LEAST_ALPHA }).less(alpha) && value(alpha)
                <= 1real
            &&& px[k] == v.product(alpha)
        }),
    ensures
        exists|light: Scalar, d: Scalar| #[trigger]
            call_ensures(display, (light,), d) && out[k] == nearest_byte(d) && light.is_finite()
                && 0real <= value(light) <= 1real && within(value(light), value(v), parts(16real))
                && (px[k - k % 4 + 3].bits == ONE ==> value(light) == value(v)),
{
    let alpha = px[k - k % 4 + 3];
    let raw = px[k].product(straightening(alpha));
    let light = unit_range(raw);
    assert(shown_byte(display, px[k], alpha, out[k])) by {
        assert(out[k] == out[k]);
    }
    let d = choose|d: Scalar| #[trigger]
        call_ensures(display, (light,), d) && out[k] == nearest_byte(d);
    law_straight_colour_returns(v, alpha);
    law_limit_tracks(raw, value(v), parts(16real));
    if alpha.bits == ONE {
        lemma_one();
        law_times_one(v);
        law_times_one(Scalar { bits: ONE });
        assert(raw == v);
    }
    assert(call_ensures(display, (light,), d));
}

/// The exported alpha is the pixel's own, limited to 0..=1, as the nearest byte.
pub proof fn law_export_keeps_alpha<F: Fn(Scalar) -> Scalar>(
    display: F,
    px: Seq<Scalar>,
    out: Seq<u8>,
    k: int,
)
    requires
        shown_pixels(display, px, out),
        0 <= k < out.len(),
        k % 4 == 3,
        px[k].is_finite(),
    ensures
        2real * size(out[k] as real - 255real * held(value(px[k]))) <= 1real + parts(1024real),
{
    law_limit_tracks(px[k], value(px[k]), 0real);
    law_nearest_byte_is_near(unit_range(px[k]));
    assert(out[k] == nearest_byte(unit_range(px[k])));
}

/// What is imported is premultiplied: a byte of colour is put into linear light as the
/// part of 255 that it is, and then multiplied by the alpha's part of 255.
pub proof fn law_import_premultiplies<F: Fn(Scalar) -> Scalar>(
    linear: F,
    rgba8: Seq<u8>,
    px: Seq<Scalar>,
    k: int,
)
    requires
        lit_pixels(linear, rgba8, px),
        0 <= k < px.len(),
        forall|x: Scalar, l: Scalar| #[trigger]
            call_ensures(linear, (x,), l) ==> l.is_finite() && 0real <= value(l) <= 1real,
    ensures
        px[k].is_finite(),
        k % 4 == 3 ==> within(value(px[k]), rgba8[k] as real / 255real, parts(2real)),
        k % 4 != 3 ==> exists|x: Scalar, l: Scalar| #[trigger]
            call_ensures(linear, (x,), l) && x.is_finite() && within(
                value(x),
                rgba8[k] as real / 255real,
                parts(2real),
            ) && within(
                value(px[k]),
                value(l) * (rgba8[k - k % 4 + 3] as real / 255real),
                parts(8real),
            ),
{
    assert(px[k] == px[k]);
    law_level_of_a_byte(rgba8[k]);
    if k % 4 != 3 {
        let a = rgba8[k - k % 4 + 3];
        law_level_of_a_byte(a);
        assert(lit(linear, rgba8[k], a, px[k]));
        let l = choose|l: Scalar| #[trigger]
            call_ensures(linear, (byte_level(rgba8[k]),), l) && px[k] == l.product(byte_level(a));
        assert(call_ensures(linear, (byte_level(rgba8[k]),), l));
        law_product_tracks(
            l,
            byte_level(a),
            value(l),
            a as real / 255real,
            0real,
            parts(2real),
            1real,
            1real,
            parts(2real),
            1real,
            parts(4real),
        );
    }
}

/// A sampled colour does not depend on the alpha either: a straight colour from 0 to 1,
/// premultiplied by an alpha above a hundredth, is handed to the display function as it
/// is, up to rounding.
pub proof fn law_sample_shows_straight_light<F: Fn(Scalar) -> Scalar>(
    display: F,
    v: Scalar,
    alpha: Scalar,
    b: u8,
)
    requires
        v.is_finite() && 0real <= value(v) <= 1real,
        alpha.is_finite() && (Scalar { bits: SAMPLE_ALPHA }).less(alpha) && value(alpha)
            <= 1real,
        sampled_byte(display, v.product(alpha), alpha, b),
    ensures
        exists|light: Scalar, d: Scalar| #[trigger]
            call_ensures(display, (light,), d) && b == nearest_byte(unit_range(d))
                && light.is_finite() && within(value(light), value(v), parts(8real)),
{
    let least_a = Scalar { bits: SAMPLE_ALPHA };
    lemma_unit();
    lemma2_to64();
    lemma_pattern(least_a, 30, 0xa3_d70a, 0x4000_0000);
    law_order_of_values(least_a, alpha);
    let (x, a) = (value(v), value(alpha));
    let p = x * a;
    assert(0real <= p <= a) by (nonlinear_arith)
        requires
            p == x * a,
            0real <= x <= 1real,
            0real < a,
    ;
    law_product(v, alpha);
    let c = v.product(alpha);
    let z = value(c) / a;
    let n = 0x100_0000real;
    assert(z * a == value(c)) by (nonlinear_arith)
        requires
            z == value(c) / a,
            a > 0real,
    ;
    assert(-2real <= n * (z - x) <= 2real) by (nonlinear_arith)
        requires
            n == 0x100_0000real,
            z * a == value(c),
            p == x * a,
            a > 0real,
            -(2real * a) <= n * (value(c) - p) <= 2real * a,
    ;
    law_quotient(c, alpha);
    let light = c.quotient(alpha);
    let d = choose|d: Scalar| #[trigger]
        call_ensures(display, (light,), d) && b == nearest_byte(unit_range(d));
    assert(call_ensures(display, (light,), d));
}

} // verus!
