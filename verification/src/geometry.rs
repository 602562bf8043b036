//! Canvas geometry: sizes, points in document pixels, the view transform and the
//! affine that moves a layer.

use crate::arith::{
    law_adding_zero, law_counts_are_finite, law_minus_itself, law_part_of_more,
    law_product_is_near, law_quotient_by_itself, law_quotient_is_bounded, law_quotient_is_near,
    law_sum_is_near, law_times_one, law_times_zero, lemma_one, lemma_scaled_sign, near,
};
use crate::exact::{
    law_difference, law_order_of_values, law_product, law_product_stays_within, law_quotient,
    law_round, law_sum, law_whole, lemma_constants, lemma_pattern, lemma_unit, parts, size, value,
    within,
};
use crate::scalar::{clip, unit, Scalar};
use vstd::arithmetic::div_mod::*;
use vstd::arithmetic::mul::*;
use vstd::arithmetic::power2::*;
use vstd::prelude::*;

verus! {

/// Bit patterns of the constants that geometry needs.
pub const ONE: u32 = 0x3f80_0000;

pub const HALF: u32 = 0x3f00_0000;

/// One thousandth, the least extent that anything is divided by.
pub const LEAST_EXTENT: u32 = 0x3a83_126f;

/// 0.02 and 64, the least and the largest zoom.
pub const LEAST_ZOOM: u32 = 0x3ca3_d70a;

pub const LARGEST_ZOOM: u32 = 0x4280_0000;

/// 0.95, how much of the viewport a fitted document fills.
pub const FIT_MARGIN: u32 = 0x3f73_3333;

/// 100, for percentages.
pub const HUNDRED: u32 = 0x42c8_0000;

/// A pixel size.
#[derive(Clone, Copy, PartialEq, Eq, Structural, Debug)]
pub struct Size {
    pub width: u32,
    pub height: u32,
}

/// A point or a distance.
#[derive(Clone, Copy, PartialEq, Eq, Structural, Debug)]
pub struct Point {
    pub x: Scalar,
    pub y: Scalar,
}

/// A box on the screen.
#[derive(Clone, Copy, PartialEq, Eq, Structural, Debug)]
pub struct Rect {
    pub min: Point,
    pub max: Point,
}

impl Point {
    pub fn zero() -> (p: Point)
        ensures
            p.x.bits == 0,
            p.y.bits == 0,
    {
        Point { x: Scalar::zero(), y: Scalar::zero() }
    }
}

impl Rect {
    pub open spec fn spec_width(self) -> Scalar {
        self.max.x.difference(self.min.x)
    }

    pub open spec fn spec_height(self) -> Scalar {
        self.max.y.difference(self.min.y)
    }

    pub fn width(&self) -> (r: Scalar)
        ensures
            r == self.spec_width(),
    {
        self.max.x.minus(self.min.x)
    }

    pub fn height(&self) -> (r: Scalar)
        ensures
            r == self.spec_height(),
    {
        self.max.y.minus(self.min.y)
    }
}

/// Whether the active layer's live affine goes to the renderer this frame: while
/// a drag is in progress, and on the frame that bakes it, when the drag has
/// already been cleared.
pub fn send_layer_xform(active: bool, bake: bool) -> (r: bool)
    ensures
        r == (active || bake),
{
    active || bake
}

/// One over the scale, which counts as a thousandth where it is smaller.
pub open spec fn inverse_scale(scale: Scalar) -> Scalar {
    (Scalar { bits: ONE }).quotient(scale.greater(Scalar { bits: LEAST_EXTENT }))
}

/// The offset along one axis of the affine that maps the canvas to a layer moved
/// by `translate` on an axis of `extent` pixels.
pub open spec fn xform_offset(translate: Scalar, extent: int, inv: Scalar) -> Scalar {
    let half = Scalar { bits: HALF };
    half.difference(half.sum(translate.quotient(Scalar::whole(extent))).product(inv))
}

/// The affine, in texture coordinates, from the canvas to a layer that was moved
/// and scaled about the canvas centre: a row-major matrix and an offset.
pub open spec fn layer_xform(translate: Point, scale: Scalar, size: Size) -> (
    Seq<Scalar>,
    Seq<Scalar>,
) {
    let inv = inverse_scale(scale);
    (
        seq![inv, Scalar { bits: 0 }, Scalar { bits: 0 }, inv],
        seq![
            xform_offset(translate.x, size.width as int, inv),
            xform_offset(translate.y, size.height as int, inv),
        ],
    )
}

/// The affine, in texture coordinates, from the canvas to a layer that was moved
/// and scaled about the canvas centre: a row-major matrix and an offset.
pub fn compute_xform(translate: Point, scale: Scalar, size: Size) -> (r: (
    [Scalar; 4],
    [Scalar; 2],
))
    ensures
        (r.0@, r.1@) == layer_xform(translate, scale, size),
{
    let inv: Scalar = Scalar { bits: ONE }.over(scale.max(Scalar { bits: LEAST_EXTENT }));
    let tx: Scalar = translate.x.over(Scalar::from_u32(size.width));
    let ty: Scalar = translate.y.over(Scalar::from_u32(size.height));
    let half: Scalar = Scalar { bits: HALF };
    let m: [Scalar; 4] = [inv, Scalar::zero(), Scalar::zero(), inv];
    let off: [Scalar; 2] = [
        half.minus(half.plus(tx).times(inv)),
        half.minus(half.plus(ty).times(inv)),
    ];
    assert(m@ =~= layer_xform(translate, scale, size).0);
    assert(off@ =~= layer_xform(translate, scale, size).1);
    (m, off)
}

/// A screen coordinate on an axis that shows `extent` pixels from `start` on over
/// a distance `shown`, in document pixels.
pub open spec fn doc_coordinate(p: Scalar, start: Scalar, shown: Scalar, extent: int) -> Scalar {
    p.difference(start).quotient(shown.greater(Scalar { bits: LEAST_EXTENT })).product(
        Scalar::whole(extent),
    )
}

/// A screen position in document pixels, given where the document is shown.
pub fn screen_to_doc(p: Point, doc_rect: Rect, size: Size) -> (r: Point)
    ensures
        r.x == doc_coordinate(p.x, doc_rect.min.x, doc_rect.spec_width(), size.width as int),
        r.y == doc_coordinate(p.y, doc_rect.min.y, doc_rect.spec_height(), size.height as int),
{
    let least: Scalar = Scalar { bits: LEAST_EXTENT };
    let u: Scalar = p.x.minus(doc_rect.min.x).over(doc_rect.width().max(least));
    let v: Scalar = p.y.minus(doc_rect.min.y).over(doc_rect.height().max(least));
    Point { x: u.times(Scalar::from_u32(size.width)), y: v.times(Scalar::from_u32(size.height)) }
}

/// A document coordinate on the screen, on an axis as in [`doc_coordinate`].
pub open spec fn screen_coordinate(p: Scalar, start: Scalar, shown: Scalar, extent: int) -> Scalar {
    start.sum(p.quotient(Scalar::whole(extent)).product(shown))
}

/// A document position on the screen, given where the document is shown.
pub fn doc_to_screen(p: Point, doc_rect: Rect, size: Size) -> (r: Point)
    ensures
        r.x == screen_coordinate(p.x, doc_rect.min.x, doc_rect.spec_width(), size.width as int),
        r.y == screen_coordinate(
            p.y,
            doc_rect.min.y,
            doc_rect.spec_height(),
            size.height as int,
        ),
{
    let u: Scalar = p.x.over(Scalar::from_u32(size.width)).times(doc_rect.width());
    let v: Scalar = p.y.over(Scalar::from_u32(size.height)).times(doc_rect.height());
    Point { x: doc_rect.min.x.plus(u), y: doc_rect.min.y.plus(v) }
}

/// The distance between two numbers, on the scale of [`Scalar::scaled`].
pub open spec fn gap(a: int, b: int) -> int {
    if a < b {
        b - a
    } else {
        a - b
    }
}

/// `r` is the coordinate `p` up to rounding, on an axis that is shown from `start` on
/// over a distance `shown`: it is off by at most 2^-24 of `p` and ten times that of
/// its distance from `start`, and a few of the smallest steps of what is shown.
pub open spec fn returns_to(p: Scalar, start: Scalar, shown: Scalar, r: Scalar) -> bool {
    0x100_0000 * (unit() * gap(r.scaled(), p.scaled())) <= unit() * (p.abs_scaled() + 10 * gap(
        p.scaled(),
        start.scaled(),
    )) + 0x100_0000 * (5 * shown.scaled() + 3 * unit())
}

/// Four roundings on the way there and back: `a` over `w`, times `e`, over `e`, times
/// `w`.
proof fn lemma_there_and_back(
    a: int,
    w: int,
    e: int,
    u: int,
    q: int,
    d: int,
    z: int,
    v: int,
)
    requires
        a >= 0 && w > 0 && e >= u && u > 0,
        q >= 0 && d >= 0 && z >= 0 && v >= 0,
        near(q, a * u, w),
        near(d, q * e, u),
        near(z, d * u, e),
        near(v, z * w, u),
    ensures
        0x100_0000 * gap(u * v, a * u) <= 7 * (a * u) + 0x400_0000 * w + 0x100_0000 * u,
{
    let (e1, e2, e3) = (e * z, d * u, q * e);
    assert(u * d == e2) by (nonlinear_arith)
        requires
            e2 == d * u,
    ;
    assert(e3 >= 0) by (nonlinear_arith)
        requires
            e3 == q * e,
            q >= 0,
            e > 0,
    ;
    let far = gap(e1, e3);
    assert(0x100_0000 * far <= 3 * e3 + 0x200_0000 * e);
    let apart = gap(z, q);
    assert(far == e * apart) by (nonlinear_arith)
        requires
            e1 == e * z,
            e3 == q * e,
            e > 0,
            far == (if e1 < e3 {
                e3 - e1
            } else {
                e1 - e3
            }),
            apart == (if z < q {
                q - z
            } else {
                z - q
            }),
    ;
    assert(0x100_0000 * apart <= 3 * q + 0x200_0000) by (nonlinear_arith)
        requires
            0x100_0000 * far <= 3 * e3 + 0x200_0000 * e,
            far == e * apart,
            e3 == q * e,
            e > 0,
    ;
    let (zw, qw, au, uv) = (z * w, q * w, a * u, u * v);
    assert(w * q == qw) by (nonlinear_arith)
        requires
            qw == q * w,
    ;
    assert(qw >= 0 && au >= 0) by (nonlinear_arith)
        requires
            qw == q * w,
            au == a * u,
            q >= 0,
            w > 0,
            a >= 0,
            u > 0,
    ;
    assert(0x100_0000 * gap(zw, qw) <= 3 * qw + 0x200_0000 * w) by (nonlinear_arith)
        requires
            0x100_0000 * apart <= 3 * q + 0x200_0000,
            apart == (if z < q {
                q - z
            } else {
                z - q
            }),
            zw == z * w,
            qw == q * w,
            w > 0,
            gap(zw, qw) == (if zw < qw {
                qw - zw
            } else {
                zw - qw
            }),
    ;
    assert(0x100_0000 * gap(zw, au) <= 5 * au + 0x300_0000 * w);
}

/// A position on the screen that is taken to the document and back is the same up to
/// rounding, on either axis, as long as no number on the way is too large.
#[verifier::spinoff_prover]
pub proof fn law_screen_position_returns(p: Scalar, start: Scalar, shown: Scalar, extent: int)
    requires
        p.is_finite(),
        start.is_finite(),
        shown.is_finite(),
        (Scalar { bits: LEAST_EXTENT }).at_most(shown),
        1 <= extent <= u32::MAX,
        doc_coordinate(p, start, shown, extent).is_finite(),
        screen_coordinate(
            doc_coordinate(p, start, shown, extent),
            start,
            shown,
            extent,
        ).is_finite(),
    ensures
        returns_to(
            p,
            start,
            shown,
            screen_coordinate(doc_coordinate(p, start, shown, extent), start, shown, extent),
        ),
{
    let count = Scalar::whole(extent);
    let a = p.difference(start);
    let q = a.quotient(shown);
    let d = q.product(count);
    let z = d.quotient(count);
    let v = z.product(shown);
    let r = start.sum(v);
    assert(shown.greater(Scalar { bits: LEAST_EXTENT }) == shown);
    lemma_one();
    law_counts_are_finite(extent);
    assert(start.negation().abs_scaled() == start.abs_scaled());
    assert(start.negation().scaled() == -start.scaled());
    assert(q.is_finite());
    assert(a.is_finite());
    law_sum_is_near(p, start.negation());
    law_quotient_is_near(a, shown);
    law_product_is_near(q, count);
    assert(v.is_finite());
    assert(z.is_finite());
    law_quotient_is_near(d, count);
    law_product_is_near(z, shown);
    law_sum_is_near(start, v);
    let (u, w) = (unit(), shown.abs_scaled());
    assert(w > 0) by {
        lemma_scaled_sign(shown);
    }
    lemma_scaled_sign(a);
    lemma_there_and_back(
        a.abs_scaled(),
        w,
        count.abs_scaled(),
        u,
        q.abs_scaled(),
        d.abs_scaled(),
        z.abs_scaled(),
        v.abs_scaled(),
    );
    let (ps, ss, vs, rs) = (p.scaled(), start.scaled(), v.scaled(), r.scaled());
    let far = gap(ps, ss);
    let (aa, va) = (a.abs_scaled(), v.abs_scaled());
    let miss = gap(va, far);
    let (mu, fu, au, uv) = (u * miss, u * far, aa * u, u * va);
    assert(0x100_0000 * gap(au, fu) <= fu + 0x80_0000 * u) by (nonlinear_arith)
        requires
            near(aa, far, 1),
            au == aa * u,
            fu == u * far,
            u > 0,
            gap(au, fu) == (if au < fu {
                fu - au
            } else {
                au - fu
            }),
    ;
    assert(mu == gap(uv, fu)) by (nonlinear_arith)
        requires
            mu == u * miss,
            uv == u * va,
            fu == u * far,
            u > 0,
            miss == (if va < far {
                far - va
            } else {
                va - far
            }),
            gap(uv, fu) == (if uv < fu {
                fu - uv
            } else {
                uv - fu
            }),
    ;
    assert(0x100_0000 * mu <= 9 * fu + 0x400_0000 * w + 0x200_0000 * u);
    let t = ss + vs;
    assert(gap(t, ps) == miss);
    let ta = if t < 0 { -t } else { t };
    let off = gap(rs, t);
    assert(0x100_0000 * off <= ta + 0x80_0000);
    assert(ta <= p.abs_scaled() + miss);
    let pa = p.abs_scaled();
    let gu = u * gap(rs, ps);
    assert(0x100_0000 * gu <= u * pa + mu + 0x80_0000 * u + 0x100_0000 * mu) by (nonlinear_arith)
        requires
            gu == u * gap(rs, ps),
            gap(rs, ps) <= off + miss,
            0x100_0000 * off <= pa + miss + 0x80_0000,
            mu == u * miss,
            u > 0,
    ;
    assert(u * (pa + 10 * far) == u * pa + 10 * fu) by (nonlinear_arith)
        requires
            fu == u * far,
    ;
    assert(u * pa >= 0) by (nonlinear_arith)
        requires
            u > 0,
            pa >= 0,
    ;
}

/// `r` is the document coordinate `p` up to rounding, on an axis that shows `count`
/// pixels from `start` on over a distance `shown`: it is off by at most ten times 2^-24
/// of `p`, three times that of `start` in document pixels, and a few of the smallest
/// steps of what is shown.
pub open spec fn returns_to_doc(
    p: Scalar,
    start: Scalar,
    shown: Scalar,
    count: Scalar,
    r: Scalar,
) -> bool {
    let (u, w, e) = (unit(), shown.scaled(), count.scaled());
    0x100_0000 * ((u * w) * gap(r.scaled(), p.scaled())) <= 10 * ((u * w) * p.abs_scaled()) + 3 * (
    (u * e) * start.abs_scaled()) + 0x400_0000 * (w * e + u * e)
}

/// Two roundings: `a` over `b`, times `c`, where `u` is 1.
proof fn lemma_two_roundings(a: int, b: int, c: int, u: int, t: int, v: int)
    requires
        a >= 0 && b > 0 && c >= 0 && u > 0 && t >= 0 && v >= 0,
        near(t, a * u, b),
        near(v, t * c, u),
    ensures
        0x100_0000 * gap((u * b) * v, (u * c) * a) <= 3 * ((u * c) * a) + 0x100_0000 * (b * c + u
            * b),
{
    let (x, y, z) = ((u * c) * a, (b * c) * t, (u * b) * v);
    let (bc, ub) = (b * c, u * b);
    assert(0x100_0000 * (y - x) <= x + 0x80_0000 * bc && 0x100_0000 * (x - y) <= x + 0x80_0000
        * bc && x >= 0) by (nonlinear_arith)
        requires
            near(t, a * u, b),
            x == (u * c) * a,
            y == (b * c) * t,
            bc == b * c,
            a >= 0,
            c >= 0,
            u > 0,
    ;
    assert(0x100_0000 * (z - y) <= y + 0x80_0000 * ub && 0x100_0000 * (y - z) <= y + 0x80_0000
        * ub) by (nonlinear_arith)
        requires
            near(v, t * c, u),
            y == (b * c) * t,
            z == (u * b) * v,
            ub == u * b,
            b > 0,
    ;
    assert(bc >= 0 && ub > 0) by (nonlinear_arith)
        requires
            bc == b * c,
            ub == u * b,
            b > 0,
            c >= 0,
            u > 0,
    ;
}

/// The ends of the document are shown at the ends of where it is shown: its first
/// pixel begins there exactly, and its last one ends there up to rounding.
pub proof fn law_document_is_shown_in_its_box(start: Scalar, end: Scalar, extent: int)
    requires
        start.is_finite(),
        end.is_finite(),
        1 <= extent <= u32::MAX,
        end.difference(start).is_finite(),
        screen_coordinate(
            Scalar::whole(extent),
            start,
            end.difference(start),
            extent,
        ).is_finite(),
    ensures
        screen_coordinate(Scalar { bits: 0 }, start, end.difference(start), extent).same(start),
        ({
            let r = screen_coordinate(
                Scalar::whole(extent),
                start,
                end.difference(start),
                extent,
            );
            0x100_0000 * gap(r.scaled(), end.scaled()) <= end.abs_scaled() + 2 * gap(
                end.scaled(),
                start.scaled(),
            ) + 0x200_0000
        }),
{
    let (zero, shown, count) = (
        Scalar { bits: 0 },
        end.difference(start),
        Scalar::whole(extent),
    );
    law_counts_are_finite(extent);
    law_part_of_more(zero, count);
    law_times_zero(shown, zero.quotient(count));
    law_adding_zero(start, zero.quotient(count).product(shown));
    law_quotient_by_itself(count);
    law_times_one(shown);
    assert(start.negation().abs_scaled() == start.abs_scaled());
    assert(start.negation().scaled() == -start.scaled());
    law_sum_is_near(end, start.negation());
    law_sum_is_near(start, shown);
    lemma_scaled_sign(end);
    lemma_scaled_sign(start);
}

/// A position in the document that is taken to the screen and back is the same up to
/// rounding, on either axis, as long as no number on the way is too large.
#[verifier::spinoff_prover]
pub proof fn law_document_position_returns(p: Scalar, start: Scalar, shown: Scalar, extent: int)
    requires
        p.is_finite(),
        start.is_finite(),
        shown.is_finite(),
        (Scalar { bits: LEAST_EXTENT }).at_most(shown),
        1 <= extent <= u32::MAX,
        screen_coordinate(p, start, shown, extent).is_finite(),
        doc_coordinate(
            screen_coordinate(p, start, shown, extent),
            start,
            shown,
            extent,
        ).is_finite(),
    ensures
        returns_to_doc(
            p,
            start,
            shown,
            Scalar::whole(extent),
            doc_coordinate(screen_coordinate(p, start, shown, extent), start, shown, extent),
        ),
{
    let count = Scalar::whole(extent);
    let t = p.quotient(count);
    let v = t.product(shown);
    let x = start.sum(v);
    let a = x.difference(start);
    let q = a.quotient(shown);
    let y = q.product(count);
    assert(shown.greater(Scalar { bits: LEAST_EXTENT }) == shown);
    lemma_one();
    law_counts_are_finite(extent);
    assert(start.negation().abs_scaled() == start.abs_scaled());
    assert(start.negation().scaled() == -start.scaled());
    assert(v.is_finite());
    assert(t.is_finite());
    assert(q.is_finite());
    assert(a.is_finite());
    law_quotient_is_near(p, count);
    law_product_is_near(t, shown);
    law_sum_is_near(start, v);
    law_sum_is_near(x, start.negation());
    law_quotient_is_near(a, shown);
    law_product_is_near(q, count);
    lemma_scaled_sign(p);
    lemma_scaled_sign(start);
    lemma_scaled_sign(shown);
    lemma_scaled_sign(a);
    let (u, w, e) = (unit(), shown.abs_scaled(), count.abs_scaled());
    let (da, va, aa, ya) = (p.abs_scaled(), v.abs_scaled(), a.abs_scaled(), y.abs_scaled());
    lemma_two_roundings(da, e, w, u, t.abs_scaled(), va);
    lemma_two_roundings(aa, w, e, u, q.abs_scaled(), ya);
    let (ss, vs, xs, as_) = (start.scaled(), v.scaled(), x.scaled(), a.scaled());
    let sa = start.abs_scaled();
    let miss = gap(as_, vs);
    assert(0x100_0000 * gap(xs, ss + vs) <= sa + va + 0x80_0000);
    assert(0x100_0000 * gap(as_, xs - ss) <= gap(xs, ss) + 0x80_0000);
    assert(0x100_0000 * miss <= 2 * sa + 3 * va + 0x200_0000);
    // Everything in the same measure, with its sign.
    let (ue, uw) = (u * e, u * w);
    let (xx, vv, ac, cc) = (uw * p.scaled(), ue * vs, ue * as_, uw * y.scaled());
    let (xa, vva, aca, cca) = (uw * da, ue * va, ue * aa, uw * ya);
    lemma_mul_unary_negation(uw, da);
    lemma_mul_unary_negation(ue, va);
    lemma_mul_unary_negation(ue, aa);
    lemma_mul_unary_negation(uw, ya);
    assert(ue > 0 && uw > 0 && w * e == e * w && w * e > 0) by (nonlinear_arith)
        requires
            ue == u * e,
            uw == u * w,
            u > 0,
            e > 0,
            w > 0,
    ;
    let (uem, ues) = (ue * miss, ue * sa);
    assert(0x100_0000 * uem <= 2 * ues + 3 * vva + 0x200_0000 * ue) by (nonlinear_arith)
        requires
            0x100_0000 * miss <= 2 * sa + 3 * va + 0x200_0000,
            uem == ue * miss,
            ues == ue * sa,
            vva == ue * va,
            ue > 0,
    ;
    assert(gap(ac, vv) == uem) by (nonlinear_arith)
        requires
            ac == ue * as_,
            vv == ue * vs,
            uem == ue * miss,
            ue > 0,
            miss == (if as_ < vs {
                vs - as_
            } else {
                as_ - vs
            }),
            gap(ac, vv) == (if ac < vv {
                vv - ac
            } else {
                ac - vv
            }),
    ;
    assert(xa >= 0 && vva >= 0 && aca >= 0 && ues >= 0) by (nonlinear_arith)
        requires
            xa == uw * da,
            vva == ue * va,
            aca == ue * aa,
            ues == ue * sa,
            ue > 0,
            uw > 0,
            da >= 0,
            va >= 0,
            aa >= 0,
            sa >= 0,
    ;
    assert(uw <= w * e) by (nonlinear_arith)
        requires
            uw == u * w,
            u <= e,
            w > 0,
    ;
    let out = gap(cc, xx);
    assert(0x100_0000 * gap(vv, xx) <= 3 * xa + 0x100_0000 * (w * e + ue));
    assert(0x100_0000 * gap(cc, ac) <= 3 * aca + 0x100_0000 * (w * e + uw));
    assert(aca <= vva + uem);
    assert(vva <= xa + gap(vv, xx));
    assert(0x100_0000 * out <= 10 * xa + 3 * ues + 0x400_0000 * (w * e + ue));
    assert(out == uw * gap(y.scaled(), p.scaled())) by (nonlinear_arith)
        requires
            cc == uw * y.scaled(),
            xx == uw * p.scaled(),
            uw > 0,
            out == (if cc < xx {
                xx - cc
            } else {
                cc - xx
            }),
            gap(y.scaled(), p.scaled()) == (if y.scaled() < p.scaled() {
                p.scaled() - y.scaled()
            } else {
                y.scaled() - p.scaled()
            }),
    ;
}

/// Whether a position is off the canvas. A NaN coordinate is not.
pub open spec fn off_canvas(p: Point, size: Size) -> bool {
    let zero = Scalar { bits: 0 };
    ||| p.x.less(zero)
    ||| p.y.less(zero)
    ||| Scalar::whole(size.width as int).at_most(p.x)
    ||| Scalar::whole(size.height as int).at_most(p.y)
}

/// The pixel that a fill starts from, if the position is on the canvas.
pub fn clamp_seed(p: Point, size: Size) -> (r: Option<(u32, u32)>)
    ensures
        match r {
            None => off_canvas(p, size),
            Some((x, y)) => {
                &&& !off_canvas(p, size)
                &&& x == p.x.cast(p.x.trunc_int(), 0, u32::MAX as int)
                &&& y == p.y.cast(p.y.trunc_int(), 0, u32::MAX as int)
            },
        },
{
    let zero: Scalar = Scalar::zero();
    if p.x.lt(zero) || p.y.lt(zero) || p.x.ge(Scalar::from_u32(size.width)) || p.y.ge(
        Scalar::from_u32(size.height),
    ) {
        return None;
    }
    Some((p.x.trunc_u32(), p.y.trunc_u32()))
}

impl Point {
    pub open spec fn spec_plus(self, other: Point) -> Point {
        Point { x: self.x.sum(other.x), y: self.y.sum(other.y) }
    }

    pub open spec fn spec_minus(self, other: Point) -> Point {
        Point { x: self.x.difference(other.x), y: self.y.difference(other.y) }
    }

    pub open spec fn spec_scaled(self, k: Scalar) -> Point {
        Point { x: self.x.product(k), y: self.y.product(k) }
    }

    pub fn plus(self, other: Point) -> (r: Point)
        ensures
            r == self.spec_plus(other),
    {
        Point { x: self.x.plus(other.x), y: self.y.plus(other.y) }
    }

    pub fn minus(self, other: Point) -> (r: Point)
        ensures
            r == self.spec_minus(other),
    {
        Point { x: self.x.minus(other.x), y: self.y.minus(other.y) }
    }

    pub fn scaled(self, k: Scalar) -> (r: Point)
        ensures
            r == self.spec_scaled(k),
    {
        Point { x: self.x.times(k), y: self.y.times(k) }
    }

    /// Both coordinates divided by `k`.
    pub fn divided(self, k: Scalar) -> (r: Point)
        ensures
            r.x == self.x.quotient(k),
            r.y == self.y.quotient(k),
    {
        Point { x: self.x.over(k), y: self.y.over(k) }
    }
}

/// Where the document is on the screen: a distance from the middle of the
/// viewport, and screen points per document pixel.
#[derive(Clone, Copy, PartialEq, Eq, Structural, Debug)]
pub struct ViewTransform {
    pub pan: Point,
    pub zoom: Scalar,
}

impl Default for ViewTransform {
    fn default() -> (r: ViewTransform)
        ensures
            r.pan == (Point { x: Scalar { bits: 0 }, y: Scalar { bits: 0 } }),
            r.zoom.bits == ONE,
    {
        ViewTransform { pan: Point::zero(), zoom: Scalar { bits: ONE } }
    }
}

/// A zoom within its limits.
pub open spec fn zoom_in_range(z: Scalar) -> Scalar {
    z.limited(Scalar { bits: LEAST_ZOOM }, Scalar { bits: LARGEST_ZOOM })
}

/// A zoom in percent, to the nearest.
pub open spec fn zoom_percent(zoom: Scalar) -> int {
    let p = zoom.product(Scalar { bits: HUNDRED });
    p.cast(p.round_int(), i32::MIN as int, i32::MAX as int)
}

/// The zoom at which a document is shown as a whole.
pub open spec fn fit_zoom(viewport: Rect, size: Size) -> Scalar {
    zoom_in_range(
        viewport.spec_width().quotient(Scalar::whole(size.width as int)).lesser(
            viewport.spec_height().quotient(Scalar::whole(size.height as int)),
        ).product(Scalar { bits: FIT_MARGIN }),
    )
}

impl ViewTransform {
    /// The view zoomed about an anchor.
    pub open spec fn zoomed(self, factor: Scalar, anchor_from_center: Point) -> ViewTransform {
        let zoom = zoom_in_range(self.zoom.product(factor));
        let pan = self.pan.spec_minus(anchor_from_center).spec_scaled(
            zoom.quotient(self.zoom),
        ).spec_plus(anchor_from_center);
        ViewTransform { pan, zoom }
    }

    /// Zoom about an anchor, which is given from the middle of the viewport, so that
    /// what is shown there stays put.
    pub fn zoom_to(&mut self, factor: Scalar, anchor_from_center: Point)
        ensures
            *final(self) == old(self).zoomed(factor, anchor_from_center),
    {
        let new_zoom: Scalar = self.zoom.times(factor).clamp(
            Scalar { bits: LEAST_ZOOM },
            Scalar { bits: LARGEST_ZOOM },
        );
        let ratio: Scalar = new_zoom.over(self.zoom);
        self.pan = self.pan.minus(anchor_from_center).scaled(ratio).plus(anchor_from_center);
        self.zoom = new_zoom;
    }

    /// Show the whole document in the middle of the viewport. A document without
    /// pixels changes nothing.
    pub fn fit(&mut self, viewport: Rect, size: Size)
        ensures
            size.width == 0 || size.height == 0 ==> *final(self) == *old(self),
            size.width > 0 && size.height > 0 ==> {
                &&& final(self).pan == (Point {
                    x: Scalar { bits: 0 },
                    y: Scalar { bits: 0 },
                })
                &&& final(self).zoom == fit_zoom(viewport, size)
            },
    {
        if size.width == 0 || size.height == 0 {
            return;
        }
        let across: Scalar = viewport.width().over(Scalar::from_u32(size.width));
        let down: Scalar = viewport.height().over(Scalar::from_u32(size.height));
        let scale: Scalar = across.min(down).times(Scalar { bits: FIT_MARGIN });
        self.pan = Point::zero();
        self.zoom = scale.clamp(Scalar { bits: LEAST_ZOOM }, Scalar { bits: LARGEST_ZOOM });
    }

    /// Move what is shown by a drag.
    pub fn pan_by(&mut self, delta: Point)
        ensures
            final(self).pan == old(self).pan.spec_plus(delta),
            final(self).zoom == old(self).zoom,
    {
        self.pan = self.pan.plus(delta);
    }

    /// The zoom in percent, to the nearest.
    pub fn percent(&self) -> (r: i32)
        ensures
            r == zoom_percent(self.zoom),
    {
        let p: i64 = self.zoom.times(Scalar { bits: HUNDRED }).round_i64();
        if p < i32::MIN as i64 {
            i32::MIN
        } else if p > i32::MAX as i64 {
            i32::MAX
        } else {
            p as i32
        }
    }

    /// The box in which the document is shown, in a viewport about `center`.
    pub fn doc_rect(&self, center: Point, size: Size) -> (r: Rect)
        ensures
            ({
                let c = center.spec_plus(self.pan);
                let half = (Point {
                    x: Scalar::whole(size.width as int),
                    y: Scalar::whole(size.height as int),
                }).spec_scaled(self.zoom).spec_scaled(Scalar { bits: HALF });
                r.min == c.spec_minus(half) && r.max == c.spec_plus(half)
            }),
    {
        let img: Point = Point {
            x: Scalar::from_u32(size.width),
            y: Scalar::from_u32(size.height),
        };
        let c: Point = center.plus(self.pan);
        let half: Point = img.scaled(self.zoom).scaled(Scalar { bits: HALF });
        Rect { min: c.minus(half), max: c.plus(half) }
    }
}

/// Whether a zoom is within its limits.
pub open spec fn is_zoom(z: Scalar) -> bool {
    (Scalar { bits: LEAST_ZOOM }).at_most(z) && z.at_most(Scalar { bits: LARGEST_ZOOM })
}

/// A view stays within the limits of the zoom.
pub proof fn law_zoom_stays_in_range(view: ViewTransform, factor: Scalar, anchor: Point)
    requires
        is_zoom(view.zoom),
        !view.zoom.product(factor).is_nan(),
    ensures
        is_zoom(view.zoomed(factor, anchor).zoom),
{
}

/// One axis of a pan that is zoomed about an anchor.
pub open spec fn zoomed_pan(pan: Scalar, anchor: Scalar, ratio: Scalar) -> Scalar {
    pan.difference(anchor).product(ratio).sum(anchor)
}

/// Where the middle of the document is from the anchor is scaled as the zoom is, from
/// `before` to `after`, up to rounding: the two distances times the other zoom differ
/// by at most 2^-24 of the anchor's and six times that of the distance's, and a few of
/// the smallest steps.
pub open spec fn stays_under(
    anchor: Scalar,
    pan: Scalar,
    before: Scalar,
    now: Scalar,
    after: Scalar,
) -> bool {
    let (u, z, y) = (unit(), before.scaled(), after.scaled());
    let (from, to) = (pan.scaled() - anchor.scaled(), now.scaled() - anchor.scaled());
    let far = gap(pan.scaled(), anchor.scaled());
    0x100_0000 * gap((u * z) * to, (u * y) * from) <= (u * z) * anchor.abs_scaled() + 6 * ((u * y)
        * far) + 0x200_0000 * (z * far + u * z + u * y)
}

/// The roundings of a distance `far` from an anchor `ca` that is scaled from `z` to `y`:
/// it is rounded to `da`, scaled to `ma` and put back to the anchor at `to`.
proof fn lemma_anchored_distance(
    u: int,
    z: int,
    y: int,
    ca: int,
    far: int,
    da: int,
    ma: int,
    to: int,
)
    requires
        u >= 0x100_0000 && z > 0 && y > 0,
        ca >= 0 && far >= 0 && da >= 0 && ma >= 0,
        near(da, far, 1),
        0x100_0000 * gap((u * z) * ma, (u * da) * y) <= 3 * ((u * da) * y) + 0x100_0000 * (z * da
            + u * z),
        0x100_0000 * gap(to, ma) <= ma + ca + 0x80_0000,
    ensures
        0x100_0000 * gap((u * z) * to, (u * y) * far) <= (u * z) * ca + 6 * ((u * y) * far)
            + 0x200_0000 * (z * far + u * z + u * y),
{
    let (uz, uy) = (u * z, u * y);
    let (xa, xd, mm, tt) = (uy * far, uy * da, uz * ma, uz * to);
    assert(uy > 0 && 0x100_0000 * z <= uz) by (nonlinear_arith)
        requires
            uz == u * z,
            uy == u * y,
            u >= 0x100_0000,
            z > 0,
            y > 0,
    ;
    assert((u * da) * y == xd) by (nonlinear_arith)
        requires
            xd == uy * da,
            uy == u * y,
    ;
    assert(0x100_0000 * gap(xd, xa) <= xa + 0x80_0000 * uy && xa >= 0) by (nonlinear_arith)
        requires
            near(da, far, 1),
            xd == uy * da,
            xa == uy * far,
            uy > 0,
            far >= 0,
            gap(xd, xa) == (if xd < xa {
                xa - xd
            } else {
                xd - xa
            }),
    ;
    let (zd, zf) = (z * da, z * far);
    assert(0x100_0000 * zd <= 0x100_0000 * zf + zf + 0x80_0000 * z && zf >= 0) by (nonlinear_arith)
        requires
            near(da, far, 1),
            zd == z * da,
            zf == z * far,
            z > 0,
            far >= 0,
    ;
    let zc = uz * ca;
    assert(0x100_0000 * gap(tt, mm) <= mm + zc + 0x80_0000 * uz && zc >= 0) by (nonlinear_arith)
        requires
            0x100_0000 * gap(to, ma) <= ma + ca + 0x80_0000,
            gap(to, ma) == (if to < ma {
                ma - to
            } else {
                to - ma
            }),
            tt == uz * to,
            mm == uz * ma,
            zc == uz * ca,
            uz > 0,
            ca >= 0,
            gap(tt, mm) == (if tt < mm {
                mm - tt
            } else {
                tt - mm
            }),
    ;
}

proof fn lemma_anchored(pan: Scalar, anchor: Scalar, before: Scalar, after: Scalar)
    requires
        pan.is_finite(),
        anchor.is_finite(),
        is_zoom(before),
        is_zoom(after),
        zoomed_pan(pan, anchor, after.quotient(before)).is_finite(),
    ensures
        stays_under(
            anchor,
            pan,
            before,
            zoomed_pan(pan, anchor, after.quotient(before)),
            after,
        ),
{
    let ratio = after.quotient(before);
    let d = pan.difference(anchor);
    let m = d.product(ratio);
    let now = m.sum(anchor);
    lemma_one();
    law_quotient_is_bounded(after, before);
    assert(anchor.negation().abs_scaled() == anchor.abs_scaled());
    assert(anchor.negation().scaled() == -anchor.scaled());
    assert(m.is_finite());
    assert(d.is_finite());
    law_sum_is_near(pan, anchor.negation());
    law_quotient_is_near(after, before);
    law_product_is_near(d, ratio);
    law_sum_is_near(m, anchor);
    lemma_scaled_sign(anchor);
    lemma_scaled_sign(before);
    lemma_scaled_sign(after);
    lemma_scaled_sign(d);
    let (u, z, y) = (unit(), before.abs_scaled(), after.abs_scaled());
    let (ca, da, ma) = (anchor.abs_scaled(), d.abs_scaled(), m.abs_scaled());
    lemma_mul_is_commutative(da, ratio.abs_scaled());
    lemma_two_roundings(y, z, da, u, ratio.abs_scaled(), ma);
    lemma2_to64();
    lemma_pow2_strictly_increases(24, 149);
    let (from, to) = (pan.scaled() - anchor.scaled(), now.scaled() - anchor.scaled());
    let far = gap(pan.scaled(), anchor.scaled());
    if !d.negative() {
        assert(from >= 0);
        assert(0x100_0000 * gap(to, ma) <= ma + ca + 0x80_0000);
        lemma_anchored_distance(u, z, y, ca, far, da, ma, to);
    } else {
        assert(0x100_0000 * gap(-to, ma) <= ma + ca + 0x80_0000);
        lemma_anchored_distance(u, z, y, ca, far, da, ma, -to);
        lemma_mul_unary_negation(u * z, to);
        lemma_mul_unary_negation(u * y, far);
    }
}

/// What is under the cursor stays there when the view is zoomed about it, up to
/// rounding.
pub proof fn law_zoom_keeps_the_anchor(view: ViewTransform, factor: Scalar, anchor: Point)
    requires
        is_zoom(view.zoom),
        !view.zoom.product(factor).is_nan(),
        view.pan.x.is_finite() && view.pan.y.is_finite(),
        anchor.x.is_finite() && anchor.y.is_finite(),
        view.zoomed(factor, anchor).pan.x.is_finite(),
        view.zoomed(factor, anchor).pan.y.is_finite(),
    ensures
        ({
            let now = view.zoomed(factor, anchor);
            &&& stays_under(anchor.x, view.pan.x, view.zoom, now.pan.x, now.zoom)
            &&& stays_under(anchor.y, view.pan.y, view.zoom, now.pan.y, now.zoom)
        }),
{
    let now = view.zoomed(factor, anchor);
    law_zoom_stays_in_range(view, factor, anchor);
    lemma_anchored(view.pan.x, anchor.x, view.zoom, now.zoom);
    lemma_anchored(view.pan.y, anchor.y, view.zoom, now.zoom);
}

/// Zooming about the middle of the document leaves it where it is.
pub proof fn law_zoom_about_the_middle(view: ViewTransform, factor: Scalar)
    requires
        is_zoom(view.zoom),
        !view.zoom.product(factor).is_nan(),
        view.pan.x.is_finite(),
        view.pan.y.is_finite(),
    ensures
        view.zoomed(factor, view.pan).pan.x.same(view.pan.x),
        view.zoomed(factor, view.pan).pan.y.same(view.pan.y),
{
    let zero = Scalar { bits: 0 };
    let zoom = view.zoomed(factor, view.pan).zoom;
    let ratio = zoom.quotient(view.zoom);
    law_zoom_stays_in_range(view, factor, view.pan);
    law_quotient_is_bounded(zoom, view.zoom);
    law_minus_itself(view.pan.x);
    law_minus_itself(view.pan.y);
    law_times_zero(ratio, zero);
    law_adding_zero(view.pan.x, zero.product(ratio));
    law_adding_zero(view.pan.y, zero.product(ratio));
}

/// The box that a stroke has touched so far, if any: its least and its largest
/// corner.
#[derive(Clone, Copy, PartialEq, Eq, Structural, Debug)]
pub struct DirtyBox {
    pub lo: Point,
    pub hi: Point,
}

/// The box about a dab.
pub open spec fn dab_box(p: Point, r: Scalar) -> DirtyBox {
    DirtyBox {
        lo: Point { x: p.x.difference(r), y: p.y.difference(r) },
        hi: Point { x: p.x.sum(r), y: p.y.sum(r) },
    }
}

/// The box about two boxes.
pub open spec fn joined(a: DirtyBox, b: DirtyBox) -> DirtyBox {
    DirtyBox {
        lo: Point { x: a.lo.x.lesser(b.lo.x), y: a.lo.y.lesser(b.lo.y) },
        hi: Point { x: a.hi.x.greater(b.hi.x), y: a.hi.y.greater(b.hi.y) },
    }
}

/// Grow the touched box by a dab at `p` with radius `r`.
pub fn expand_dirty(dirty: Option<DirtyBox>, p: Point, r: Scalar) -> (b: DirtyBox)
    ensures
        b == (match dirty {
            Some(d) => joined(d, dab_box(p, r)),
            None => dab_box(p, r),
        }),
{
    let lo: Point = Point { x: p.x.minus(r), y: p.y.minus(r) };
    let hi: Point = Point { x: p.x.plus(r), y: p.y.plus(r) };
    match dirty {
        None => DirtyBox { lo, hi },
        Some(d) => DirtyBox {
            lo: Point { x: d.lo.x.min(lo.x), y: d.lo.y.min(lo.y) },
            hi: Point { x: d.hi.x.max(hi.x), y: d.hi.y.max(hi.y) },
        },
    }
}

/// The first pixel at or before a coordinate, on an axis of `extent` pixels.
pub open spec fn first_pixel(v: Scalar, extent: int) -> int {
    let last = if extent > 0 {
        extent - 1
    } else {
        0
    };
    clip(v.cast(v.floor_int(), i64::MIN as int, i64::MAX as int), 0, last)
}

/// The end of the pixels before a coordinate, on an axis of `extent` pixels.
pub open spec fn end_pixel(v: Scalar, extent: int) -> int {
    clip(v.cast(v.ceil_int(), i64::MIN as int, i64::MAX as int), 0, extent)
}

/// How many pixels lie from `from` to `to`, at least one.
pub open spec fn span(from: int, to: int) -> int {
    if to - from > 1 {
        to - from
    } else {
        1
    }
}

fn limit_to(v: i64, end: u32) -> (r: u32)
    ensures
        r == clip(v as int, 0, end as int),
{
    if v < 0 {
        0
    } else if v > end as i64 {
        end
    } else {
        v as u32
    }
}

/// The first pixel and the number of pixels that an interval touches on an axis of
/// `extent` pixels.
fn axis_span(lo: Scalar, hi: Scalar, extent: u32) -> (r: (u32, u32))
    ensures
        r.0 == first_pixel(lo, extent as int),
        r.1 == span(r.0 as int, end_pixel(hi, extent as int)),
{
    let last: u32 = if extent > 0 {
        extent - 1
    } else {
        0
    };
    let from: u32 = limit_to(lo.floor_i64(), last);
    let to: u32 = limit_to(hi.ceil_i64(), extent);
    if to > from && to - from > 1 {
        (from, to - from)
    } else {
        (from, 1)
    }
}

/// `r` is the touched box as left, top, width and height, clamped to the canvas; the
/// whole canvas where nothing was touched.
pub open spec fn is_dirty_rect(dirty: Option<DirtyBox>, size: Size, r: Seq<u32>) -> bool {
    match dirty {
        Some(d) => {
            let (w, h) = (size.width as int, size.height as int);
            let (x, y) = (first_pixel(d.lo.x, w), first_pixel(d.lo.y, h));
            &&& r.len() == 4
            &&& r[0] == x
            &&& r[1] == y
            &&& r[2] == span(x, end_pixel(d.hi.x, w))
            &&& r[3] == span(y, end_pixel(d.hi.y, h))
        },
        None => r == seq![0u32, 0u32, size.width, size.height],
    }
}

/// `r` is a box of pixels on a canvas, with at least one of them.
pub open spec fn lies_on_canvas(size: Size, r: Seq<u32>) -> bool {
    &&& r[2] >= 1 && r[3] >= 1
    &&& r[0] + r[2] <= size.width
    &&& r[1] + r[3] <= size.height
}

/// The touched box as left, top, width and height, clamped to the canvas.
pub fn dirty_rect(dirty: Option<DirtyBox>, size: Size) -> (r: [u32; 4])
    ensures
        is_dirty_rect(dirty, size, r@),
        size.width >= 1 && size.height >= 1 ==> lies_on_canvas(size, r@),
{
    match dirty {
        Some(d) => {
            let (x, rw): (u32, u32) = axis_span(d.lo.x, d.hi.x, size.width);
            let (y, rh): (u32, u32) = axis_span(d.lo.y, d.hi.y, size.height);
            [x, y, rw, rh]
        },
        None => [0, 0, size.width, size.height],
    }
}

/// The touched rectangle is on the canvas, wherever the touched box is.
pub proof fn law_dirty_rect_is_on_the_canvas(dirty: Option<DirtyBox>, size: Size, r: Seq<u32>)
    requires
        size.width >= 1,
        size.height >= 1,
        is_dirty_rect(dirty, size, r),
    ensures
        lies_on_canvas(size, r),
{
}

/// Whether an interval overlaps the pixel `i` of an axis, which goes from `i` to
/// `i + 1`.
pub open spec fn overlaps(lo: Scalar, hi: Scalar, i: int) -> bool {
    lo.scaled() < (i + 1) * unit() && i * unit() < hi.scaled()
}

proof fn lemma_overlapped_pixel(lo: Scalar, hi: Scalar, extent: int, i: int)
    requires
        lo.is_finite(),
        hi.is_finite(),
        0 <= i < extent <= u32::MAX,
        overlaps(lo, hi, i),
    ensures
        ({
            let x = first_pixel(lo, extent);
            x <= i < x + span(x, end_pixel(hi, extent))
        }),
{
    let u = unit();
    lemma_pow2_pos(149);
    let (a, b) = (lo.scaled(), hi.scaled());
    let (f, g) = (a / u, (-b) / u);
    lemma_fundamental_div_mod(a, u);
    lemma_fundamental_div_mod(-b, u);
    assert(0 <= a % u < u && 0 <= (-b) % u < u) by (nonlinear_arith)
        requires
            u > 0,
    ;
    assert(f < i + 1) by (nonlinear_arith)
        requires
            a == u * f + a % u,
            a % u >= 0,
            a < (i + 1) * u,
            u > 0,
    ;
    assert(g < -i) by (nonlinear_arith)
        requires
            -b == u * g + (-b) % u,
            (-b) % u >= 0,
            i * u < b,
            u > 0,
    ;
}

/// The touched rectangle has every pixel of the canvas that the touched box overlaps.
pub proof fn law_dirty_rect_has_every_touched_pixel(
    d: DirtyBox,
    size: Size,
    r: Seq<u32>,
    x: int,
    y: int,
)
    requires
        d.lo.x.is_finite() && d.lo.y.is_finite(),
        d.hi.x.is_finite() && d.hi.y.is_finite(),
        is_dirty_rect(Some(d), size, r),
        0 <= x < size.width,
        0 <= y < size.height,
        overlaps(d.lo.x, d.hi.x, x),
        overlaps(d.lo.y, d.hi.y, y),
    ensures
        r[0] <= x < r[0] + r[2],
        r[1] <= y < r[1] + r[3],
{
    lemma_overlapped_pixel(d.lo.x, d.hi.x, size.width as int, x);
    lemma_overlapped_pixel(d.lo.y, d.hi.y, size.height as int, y);
}

impl DirtyBox {
    /// Whether a point lies in the box.
    pub open spec fn holds(self, p: Point) -> bool {
        &&& self.lo.x.at_most(p.x) && p.x.at_most(self.hi.x)
        &&& self.lo.y.at_most(p.y) && p.y.at_most(self.hi.y)
    }
}

/// The box about two boxes holds what either holds.
pub proof fn law_dirty_box_only_grows(a: DirtyBox, b: DirtyBox, p: Point)
    requires
        a.holds(p) || b.holds(p),
    ensures
        joined(a, b).holds(p),
{
}

/// The scale that a layer is drawn with, a thousandth at least.
pub open spec fn drawn_scale(scale: Scalar) -> real {
    value(scale.greater(Scalar { bits: LEAST_EXTENT }))
}

/// The size of what the offset is made of, which its rounding grows with: one over the
/// scale `s`, times one and twice the part `q` of the canvas that the layer is moved by.
pub open spec fn xform_weight(q: real, s: real) -> real {
    (1real + 2real * size(q)) / s
}

proof fn lemma_drawn_scale(scale: Scalar)
    requires
        scale.is_finite(),
        value(scale) <= 0x10_0000real,
    ensures
        scale.greater(Scalar { bits: LEAST_EXTENT }).is_finite(),
        1real <= 0x400real * drawn_scale(scale),
        drawn_scale(scale) <= 0x10_0000real,
        value(scale) <= drawn_scale(scale),
        0x400real * value(scale) >= 1real && 0x83_126freal <= 0x2_0000_0000real * value(scale)
            ==> drawn_scale(scale) == value(scale),
{
    let least = Scalar { bits: LEAST_EXTENT };
    lemma2_to64();
    lemma2_to64_rest();
    lemma_pattern(least, 33, 0x83_126f, 0x2_0000_0000);
    law_order_of_values(scale, least);
}

proof fn lemma_inverse(scale: Scalar)
    requires
        scale.is_finite(),
        value(scale) <= 0x10_0000real,
    ensures
        ({
            let k = 1real / drawn_scale(scale);
            &&& inverse_scale(scale).is_finite()
            &&& 1real <= 0x10_0000real * k
            &&& k <= 0x400real
            &&& k * drawn_scale(scale) == 1real
            &&& within(value(inverse_scale(scale)), k, parts(2real * k))
        }),
{
    lemma_drawn_scale(scale);
    lemma_constants();
    lemma_unit();
    let s = drawn_scale(scale);
    let k = 1real / s;
    assert(k * s == 1real && k <= 0x400real && 1real <= 0x10_0000real * k) by (nonlinear_arith)
        requires
            k == 1real / s,
            1real <= 0x400real * s,
            s <= 0x10_0000real,
    ;
    law_quotient(Scalar { bits: ONE }, scale.greater(Scalar { bits: LEAST_EXTENT }));
}

/// The sizes that the rounding of an offset is measured by.
proof fn lemma_weights(q: real, k: real, b: real)
    requires
        0real <= k,
        b == (1real + 2real * size(q)) * k,
    ensures
        k <= b,
        2real * (size(q) * k) <= b,
        2real * size((1real / 2real + q) * k) <= b,
{
    let t = size(q);
    assert(k <= b && 2real * (t * k) <= b) by (nonlinear_arith)
        requires
            0real <= k,
            0real <= t,
            b == (1real + 2real * t) * k,
    ;
    let h = 1real / 2real + q;
    assert(2real * (h * k) <= b && -(2real * (h * k)) <= b) by (nonlinear_arith)
        requires
            0real <= k,
            2real * h <= 1real + 2real * t,
            -(2real * h) <= 1real + 2real * t,
            b == (1real + 2real * t) * k,
    ;
}

/// What is left of `(1/2 + q) * k` when both factors are off.
proof fn lemma_offset_product(q: real, k: real, b: real, h: real, inv: real)
    requires
        0real <= k,
        b == (1real + 2real * size(q)) * k,
        within(h, 1real / 2real + q, parts(1real + 2real * size(q))),
        within(inv, k, parts(2real * k)),
    ensures
        within(h * inv, (1real / 2real + q) * k, parts(3real * b)),
{
    let (t, g) = (1real + 2real * size(q), 1real / 2real + q);
    let (e, f) = (h - g, inv - k);
    let n = 0x100_0000real;
    assert(h * inv - g * k == g * f + e * k + e * f) by (nonlinear_arith)
        requires
            e == h - g,
            f == inv - k,
    ;
    assert(n * (g * f) <= t * k && -(n * (g * f)) <= t * k) by (nonlinear_arith)
        requires
            n == 0x100_0000real,
            -t <= 2real * g <= t,
            -(2real * k) <= n * f <= 2real * k,
    ;
    assert(n * (e * k) <= t * k && -(n * (e * k)) <= t * k) by (nonlinear_arith)
        requires
            n == 0x100_0000real,
            0real <= k,
            -t <= n * e <= t,
    ;
    assert(n * (e * f) <= t * k && -(n * (e * f)) <= t * k) by (nonlinear_arith)
        requires
            n == 0x100_0000real,
            0real <= t,
            0real <= k,
            -t <= n * e <= t,
            -k <= f <= k,
    ;
}

/// The offset on one axis, in exact numbers.
proof fn lemma_offset(translate: Scalar, extent: int, scale: Scalar)
    requires
        scale.is_finite(),
        value(scale) <= 0x10_0000real,
        1 <= extent <= 0x100_0000,
        translate.is_finite(),
        size(value(translate)) <= 0x10_0000real,
    ensures
        ({
            let q = value(translate) / (extent as real);
            let k = 1real / drawn_scale(scale);
            let b = (1real + 2real * size(q)) * k;
            let off = xform_offset(translate, extent, inverse_scale(scale));
            &&& off.is_finite()
            &&& within(
                value(off),
                1real / 2real - (1real / 2real + q) * k,
                parts(5real * b + 1real),
            )
        }),
{
    let (half, inv) = (Scalar { bits: HALF }, inverse_scale(scale));
    let (w, tv) = (extent as real, value(translate));
    lemma_constants();
    lemma_unit();
    lemma_inverse(scale);
    law_whole(extent);
    let q = tv / w;
    assert(-0x10_0000real <= q <= 0x10_0000real) by (nonlinear_arith)
        requires
            q == tv / w,
            w >= 1real,
            -0x10_0000real <= tv <= 0x10_0000real,
    ;
    let k = 1real / drawn_scale(scale);
    let b = (1real + 2real * size(q)) * k;
    lemma_weights(q, k, b);
    assert(b <= 0x1_0000_0000real) by (nonlinear_arith)
        requires
            b == (1real + 2real * size(q)) * k,
            0real <= size(q) <= 0x10_0000real,
            0real <= k <= 0x400real,
    ;
    let tq = translate.quotient(Scalar::whole(extent));
    law_quotient(translate, Scalar::whole(extent));
    let h = half.sum(tq);
    law_sum(half, tq);
    let goal = (1real / 2real + q) * k;
    assert(within(value(h), 1real / 2real + q, parts(1real + 2real * size(q))));
    lemma_offset_product(q, k, b, value(h), value(inv));
    lemma_offset_end(half, h, inv, goal, k, b);
}

proof fn lemma_offset_end(half: Scalar, h: Scalar, inv: Scalar, goal: real, k: real, b: real)
    requires
        half.is_finite() && h.is_finite() && inv.is_finite(),
        value(half) == 1real / 2real,
        within(value(h) * value(inv), goal, parts(3real * b)),
        1real <= 0x10_0000real * k,
        k <= b <= 0x1_0000_0000real,
        2real * size(goal) <= b,
    ensures
        half.difference(h.product(inv)).is_finite(),
        within(
            value(half.difference(h.product(inv))),
            1real / 2real - goal,
            parts(5real * b + 1real),
        ),
{
    lemma_unit();
    law_product(h, inv);
    law_difference(half, h.product(inv));
}

/// Whether the affine shows the place `w` of a layer's axis, which runs from 0 to 1, at
/// the place of the canvas that it was moved and scaled to: from the middle by the part
/// `q` of the canvas, and by its distance from the layer's own middle times the scale
/// `s`.
pub open spec fn shows(m: Scalar, off: Scalar, q: real, s: real, w: real) -> bool {
    let at = 1real / 2real + q + s * (w - 1real / 2real);
    &&& m.is_finite() && off.is_finite()
    &&& within(value(m) * at + value(off), w, parts(8real * (xform_weight(q, s) + 1real)))
}

proof fn lemma_shown_at(m: real, off: real, q: real, s: real, k: real, b: real, w: real)
    requires
        0real <= w <= 1real,
        s > 0real,
        k * s == 1real,
        k > 0real,
        b == (1real + 2real * size(q)) * k,
        within(m, k, parts(2real * k)),
        within(off, 1real / 2real - (1real / 2real + q) * k, parts(5real * b + 1real)),
    ensures
        within(
            m * (1real / 2real + q + s * (w - 1real / 2real)) + off,
            w,
            parts(8real * (b + 1real)),
        ),
{
    let (c, g) = (w - 1real / 2real, 1real / 2real + q);
    let at = g + s * c;
    let (f, n) = (m - k, 0x100_0000real);
    lemma_weights(q, k, b);
    let gk = g * k;
    assert(m * at == gk + c + f * at) by (nonlinear_arith)
        requires
            at == g + s * c,
            f == m - k,
            k * s == 1real,
            gk == g * k,
    ;
    let (p, r) = (f * g, f * (s * c));
    assert(f * at == p + r) by (nonlinear_arith)
        requires
            at == g + s * c,
            p == f * g,
            r == f * (s * c),
    ;
    let t = 1real + 2real * size(q);
    assert(n * p <= t * k && -(n * p) <= t * k) by (nonlinear_arith)
        requires
            n == 0x100_0000real,
            p == f * g,
            -t <= 2real * g <= t,
            -(2real * k) <= n * f <= 2real * k,
    ;
    let fs = f * s;
    assert(-2real <= n * fs <= 2real) by (nonlinear_arith)
        requires
            n == 0x100_0000real,
            fs == f * s,
            s > 0real,
            k * s == 1real,
            -(2real * k) <= n * f <= 2real * k,
    ;
    assert(n * r <= 1real && -(n * r) <= 1real) by (nonlinear_arith)
        requires
            n == 0x100_0000real,
            r == f * (s * c),
            fs == f * s,
            -2real <= n * fs <= 2real,
            -1real <= 2real * c <= 1real,
    ;
}

/// A layer that was moved and scaled is drawn about its own middle: what is at the place
/// (`w`, `w`) of it shows at the middle of the canvas, moved by the translation and by
/// the scaled distance of that place from the layer's middle. So a layer that is scaled
/// and not moved keeps its centre, and a moved one shows it at one half and the part of
/// the canvas that it was moved by. Nothing is sheared.
pub proof fn law_layer_is_scaled_about_its_centre(
    translate: Point,
    scale: Scalar,
    size: Size,
    w: real,
)
    requires
        scale.is_finite(),
        value(scale) <= 0x10_0000real,
        1 <= size.width <= 0x100_0000 && 1 <= size.height <= 0x100_0000,
        translate.x.is_finite() && translate.y.is_finite(),
        -0x10_0000real <= value(translate.x) <= 0x10_0000real,
        -0x10_0000real <= value(translate.y) <= 0x10_0000real,
        0real <= w <= 1real,
    ensures
        ({
            let (m, off) = layer_xform(translate, scale, size);
            let (x, y) = (value(translate.x), value(translate.y));
            &&& m.len() == 4 && off.len() == 2
            &&& shows(m[0], off[0], x / (size.width as real), drawn_scale(scale), w)
            &&& shows(m[3], off[1], y / (size.height as real), drawn_scale(scale), w)
            &&& value(m[1]) == 0real && value(m[2]) == 0real
        }),
{
    lemma_constants();
    lemma_drawn_scale(scale);
    lemma_inverse(scale);
    lemma_offset(translate.x, size.width as int, scale);
    lemma_offset(translate.y, size.height as int, scale);
    let (s, inv) = (drawn_scale(scale), inverse_scale(scale));
    let k = 1real / s;
    let (qx, qy) = (
        value(translate.x) / (size.width as real),
        value(translate.y) / (size.height as real),
    );
    lemma_weight_of(qx, s, k);
    lemma_weight_of(qy, s, k);
    lemma_shown_at(
        value(inv),
        value(xform_offset(translate.x, size.width as int, inv)),
        qx,
        s,
        k,
        xform_weight(qx, s),
        w,
    );
    lemma_shown_at(
        value(inv),
        value(xform_offset(translate.y, size.height as int, inv)),
        qy,
        s,
        k,
        xform_weight(qy, s),
        w,
    );
}

proof fn lemma_weight_of(q: real, s: real, k: real)
    requires
        s > 0real,
        k == 1real / s,
    ensures
        xform_weight(q, s) == (1real + 2real * size(q)) * k,
        k > 0real,
{
    let t = 1real + 2real * size(q);
    assert(t / s == t * k && k > 0real) by (nonlinear_arith)
        requires
            s > 0real,
            k == 1real / s,
    ;
}

/// The smaller of two numbers.
pub open spec fn smaller(a: real, b: real) -> real {
    if a < b {
        a
    } else {
        b
    }
}

/// A number limited to the range of zooms.
pub open spec fn zoom_held(x: real) -> real {
    let (lo, hi) = (value(Scalar { bits: LEAST_ZOOM }), value(Scalar { bits: LARGEST_ZOOM }));
    if x < lo {
        lo
    } else if x > hi {
        hi
    } else {
        x
    }
}

/// How many times an extent fits into a span of the viewport.
pub proof fn lemma_fits_into(span: Scalar, extent: int)
    requires
        span.is_finite() && 1real <= value(span) <= 0x1_0000real,
        1 <= extent <= 0x1_0000,
    ensures
        ({
            let q = span.quotient(Scalar::whole(extent));
            let z = value(span) / (extent as real);
            &&& q.is_finite()
            &&& 1real <= 0x1_0000real * z
            &&& z <= 0x1_0000real
            &&& within(value(q), z, parts(2real * z))
        }),
{
    lemma_unit();
    law_whole(extent);
    let (s, e) = (value(span), extent as real);
    let z = s / e;
    assert(1real <= 0x1_0000real * z && z <= 0x1_0000real) by (nonlinear_arith)
        requires
            z == s / e,
            1real <= s <= 0x1_0000real,
            1real <= e <= 0x1_0000real,
    ;
    law_quotient(span, Scalar::whole(extent));
}

/// A fitted document fills the viewport up to a margin of five hundredths along the axis
/// that it is longer on, and no more than that along the other one, unless the zoom
/// that this takes is out of range.
pub proof fn law_fit_fills_the_viewport(viewport: Rect, size: Size)
    requires
        viewport.spec_width().is_finite() && viewport.spec_height().is_finite(),
        1real <= value(viewport.spec_width()) <= 0x1_0000real,
        1real <= value(viewport.spec_height()) <= 0x1_0000real,
        1 <= size.width <= 0x1_0000 && 1 <= size.height <= 0x1_0000,
    ensures
        ({
            let z = fit_zoom(viewport, size);
            let m = smaller(
                value(viewport.spec_width()) / (size.width as real),
                value(viewport.spec_height()) / (size.height as real),
            );
            &&& z.is_finite()
            &&& within(value(z), zoom_held((95real / 100real) * m), parts(8real * m))
        }),
{
    let (w, h) = (viewport.spec_width(), viewport.spec_height());
    lemma_unit();
    lemma2_to64();
    let (margin, lo, hi) = (
        Scalar { bits: FIT_MARGIN },
        Scalar { bits: LEAST_ZOOM },
        Scalar { bits: LARGEST_ZOOM },
    );
    lemma_pattern(margin, 24, 0xf3_3333, 0x100_0000);
    lemma_pattern(lo, 29, 0xa3_d70a, 0x2000_0000);
    lemma_pattern(hi, 17, 0x80_0000, 0x2_0000);
    lemma_fits_into(w, size.width as int);
    lemma_fits_into(h, size.height as int);
    let (a, b) = (
        w.quotient(Scalar::whole(size.width as int)),
        h.quotient(Scalar::whole(size.height as int)),
    );
    let m = smaller(value(w) / (size.width as real), value(h) / (size.height as real));
    law_order_of_values(b, a);
    let s = a.lesser(b);
    assert(within(value(s), m, parts(2real * m)));
    let (sv, k) = (value(s), value(margin));
    let p = sv * k;
    assert(p <= (95real / 100real) * m + parts(3real * m) && p >= (95real / 100real) * m - parts(
        3real * m,
    ));
    law_product(s, margin);
    let r = s.product(margin);
    assert(within(value(r), (95real / 100real) * m, parts(6real * m)));
    law_order_of_values(r, lo);
    law_order_of_values(hi, r);
}

/// The zoom in percent is within a half of a hundred times the zoom.
pub proof fn law_percent_is_the_zoom(zoom: Scalar)
    requires
        zoom.is_finite() && 0real <= value(zoom) <= 64real,
    ensures
        2real * size(zoom_percent(zoom) as real - 100real * value(zoom)) <= 1real + 1real
            / 512real,
{
    let hundred = Scalar { bits: HUNDRED };
    lemma_constants();
    lemma_unit();
    let p = zoom.product(hundred);
    law_product(zoom, hundred);
    law_product_stays_within(zoom, hundred, Scalar { bits: 0 });
    law_order_of_values(Scalar { bits: 0 }, p);
    law_round(p);
    let r = p.round_int();
    assert(-1 <= r <= 0x8000);
}

} // verus!
