//! Scalars as the real numbers they stand for, and how far the result of each
//! operation lies from the exact one.

use crate::arith::{
    law_counts_are_finite, law_product_is_near, law_quotient_is_near, law_rounding_stays_within,
    law_small_numbers_are_exact, law_sum_is_near, lemma_scaled_sign, lemma_step_of, near,
    rounded,
};
use crate::scalar::{law_order_is_numeric, unit, Scalar};
use vstd::arithmetic::div_mod::*;
use vstd::arithmetic::mul::*;
use vstd::arithmetic::power2::*;
use vstd::prelude::*;

verus! {

/// The number that a finite scalar stands for.
#[verifier::opaque]
pub open spec fn value(s: Scalar) -> real {
    s.scaled() as real / unit() as real
}

/// The size of a number, without its sign.
pub open spec fn size(x: real) -> real {
    if x < 0real {
        -x
    } else {
        x
    }
}

/// A number far smaller than any that a picture is made of.
#[verifier::opaque]
pub open spec fn least() -> real {
    0x80_0000real / unit() as real
}

/// Whether `r` is as near to `x` as rounding brings it: within one part in 2^24 of
/// it, or half a step of the smallest numbers.
pub open spec fn close(r: real, x: real) -> bool {
    0x100_0000real * size(r - x) <= size(x) + least()
}

pub proof fn lemma_unit()
    ensures
        unit() >= 0x1_0000_0000_0000_0000,
        unit() as real >= 0x1_0000_0000_0000_0000real,
        0real < least(),
        0x100_0000_0000real * least() <= 1real,
{
    reveal(least);
    lemma2_to64();
    lemma_pow2_strictly_increases(64, 149);
    assert(pow2(64) == 0x1_0000_0000_0000_0000) by {
        lemma2_to64_rest();
    }
    let u = unit() as real;
    assert(0real < 0x80_0000real / u && 0x100_0000_0000real * (0x80_0000real / u) <= 1real)
        by (nonlinear_arith)
        requires
            u >= 0x1_0000_0000_0000_0000real,
    ;
}

/// The product of two whole numbers, as real ones.
pub proof fn lemma_real_product(a: int, b: int)
    by (nonlinear_arith)
    ensures
        (a * b) as real == a as real * b as real,
{
}

/// Dividing both sides by the scale.
proof fn lemma_near_is_close(y: int, num: int, den: int, r: real, x: real)
    requires
        near(y, num, den),
        num >= 0,
        y >= 0,
        den > 0,
        r * unit() as real == y as real,
        x * (unit() as real * den as real) == num as real,
    ensures
        r >= 0real,
        x >= 0real,
        close(r, x),
{
    lemma_unit();
    let (u, d) = (unit() as real, den as real);
    let (yr, n) = (y as real, num as real);
    lemma_real_product(den, y);
    let c = 0x100_0000real;
    assert(c * (d * yr - n) <= n + 0x80_0000real * d) by {
        assert((0x100_0000 * (den * y - num)) as real == c * (d * yr - n));
        assert((num + 0x80_0000 * den) as real == n + 0x80_0000real * d);
    }
    assert(c * (n - d * yr) <= n + 0x80_0000real * d) by {
        assert((0x100_0000 * (num - den * y)) as real == c * (n - d * yr));
        assert((num + 0x80_0000 * den) as real == n + 0x80_0000real * d);
    }
    reveal(least);
    let l = least();
    assert(l * u == 0x80_0000real) by (nonlinear_arith)
        requires
            l == 0x80_0000real / u,
            u > 0real,
    ;
    assert(r >= 0real) by (nonlinear_arith)
        requires
            r * u == yr,
            yr >= 0real,
            u > 0real,
    ;
    let w = u * d;
    assert(w > 0real) by (nonlinear_arith)
        requires
            u > 0real,
            d > 0real,
            w == u * d,
    ;
    assert(x >= 0real) by (nonlinear_arith)
        requires
            x * w == n,
            n >= 0real,
            w > 0real,
    ;
    assert(r * w == d * yr) by (nonlinear_arith)
        requires
            r * u == yr,
            w == u * d,
    ;
    assert(l * w == 0x80_0000real * d) by (nonlinear_arith)
        requires
            l * u == 0x80_0000real,
            w == u * d,
    ;
    assert((c * (r - x)) * w == c * (d * yr - n) && (c * (x - r)) * w == c * (n - d * yr) && (x
        + l) * w == n + 0x80_0000real * d) by (nonlinear_arith)
        requires
            r * w == d * yr,
            x * w == n,
            l * w == 0x80_0000real * d,
            c == 0x100_0000real,
    ;
    lemma_scale_down(c * (r - x), x + l, w, c * (d * yr - n), n + 0x80_0000real * d);
    lemma_scale_down(c * (x - r), x + l, w, c * (n - d * yr), n + 0x80_0000real * d);
}

proof fn lemma_scale_down(a: real, b: real, w: real, aw: real, bw: real)
    by (nonlinear_arith)
    requires
        w > 0real,
        a * w == aw,
        b * w == bw,
        aw <= bw,
    ensures
        a <= b,
{
}

/// What a scalar stands for, on the scale of its smallest step.
pub proof fn lemma_value(s: Scalar)
    ensures
        value(s) * unit() as real == s.scaled() as real,
        size(value(s)) * unit() as real == size(s.scaled() as real),
{
    reveal(value);
    lemma_unit();
    let (u, n, v) = (unit() as real, s.scaled() as real, value(s));
    assert(v * u == n && (v < 0real <==> n < 0real)) by (nonlinear_arith)
        requires
            v == n / u,
            u > 0real,
    ;
    assert(-v * u == -n) by (nonlinear_arith)
        requires
            v * u == n,
    ;
}

/// A sum that is finite is close to the exact one.
pub proof fn law_sum_is_close(a: Scalar, b: Scalar)
    requires
        a.is_finite(),
        b.is_finite(),
        a.sum(b).is_finite(),
    ensures
        close(value(a.sum(b)), value(a) + value(b)),
{
    lemma_unit();
    law_sum_is_near(a, b);
    lemma_value(a);
    lemma_value(b);
    lemma_value(a.sum(b));
    let u = unit() as real;
    let (x, r) = (value(a) + value(b), value(a.sum(b)));
    let (n, y) = (a.scaled() + b.scaled(), a.sum(b).scaled());
    assert(n as real == a.scaled() as real + b.scaled() as real);
    assert(x * u == n as real) by (nonlinear_arith)
        requires
            x == value(a) + value(b),
            value(a) * u == a.scaled() as real,
            value(b) * u == b.scaled() as real,
            n as real == a.scaled() as real + b.scaled() as real,
    ;
    assert(u * 1real == u);
    if n >= 0 {
        lemma_near_is_close(y, n, 1, r, x);
    } else {
        assert(-r * u == (-y) as real && -x * u == (-n) as real) by (nonlinear_arith)
            requires
                r * u == y as real,
                x * u == n as real,
        ;
        lemma_near_is_close(-y, -n, 1, -r, -x);
    }
}

/// The negation stands for the opposite number.
pub proof fn lemma_negation(a: Scalar)
    ensures
        a.negation().magnitude() == a.magnitude(),
        a.negation().scaled() == -a.scaled(),
        value(a.negation()) == -value(a),
{
    lemma_value(a);
    lemma_value(a.negation());
    lemma_unit();
    let (u, v, w) = (unit() as real, value(a), value(a.negation()));
    assert(a.negation().abs_scaled() == a.abs_scaled());
    assert((-a.scaled()) as real == -(a.scaled() as real));
    assert(w == -v) by (nonlinear_arith)
        requires
            u > 0real,
            w * u == -(v * u),
    ;
}

proof fn lemma_sizes(s: Scalar)
    requires
        s.is_finite(),
    ensures
        size(value(s)) * unit() as real == s.abs_scaled() as real,
        value(s) == (if s.negative() {
            -size(value(s))
        } else {
            size(value(s))
        }),
        value(s) == 0real <==> s.magnitude() == 0,
        s.abs_scaled() >= 0,
{
    lemma_value(s);
    lemma_scaled_sign(s);
    lemma_unit();
    let (u, v, n) = (unit() as real, value(s), s.scaled() as real);
    assert((v < 0real <==> n < 0real) && (v == 0real <==> n == 0real)) by (nonlinear_arith)
        requires
            v * u == n,
            u > 0real,
    ;
}

/// A product that is finite is close to the exact one.
pub proof fn law_product_is_close(a: Scalar, b: Scalar)
    requires
        a.is_finite(),
        b.is_finite(),
        a.product(b).is_finite(),
    ensures
        close(value(a.product(b)), value(a) * value(b)),
{
    lemma_unit();
    law_product_is_near(a, b);
    let p = a.product(b);
    lemma_sizes(a);
    lemma_sizes(b);
    lemma_sizes(p);
    let (u, x, y) = (unit() as real, size(value(a)), size(value(b)));
    let (m, n) = (a.abs_scaled(), b.abs_scaled());
    lemma_real_product(m, n);
    assert((x * y) * (u * u) == m as real * n as real) by (nonlinear_arith)
        requires
            x * u == m as real,
            y * u == n as real,
    ;
    assert(m * n >= 0) by (nonlinear_arith)
        requires
            m >= 0,
            n >= 0,
    ;
    lemma_near_is_close(p.abs_scaled(), m * n, unit(), size(value(p)), x * y);
    lemma_signs(value(a), value(b));
}

proof fn lemma_signs(a: real, b: real)
    ensures
        (a < 0real) == (b < 0real) ==> a * b == size(a) * size(b),
        (a < 0real) != (b < 0real) ==> a * b == -(size(a) * size(b)),
        size(a * b) == size(a) * size(b),
{
    assert((-a) * b == -(a * b) && a * (-b) == -(a * b) && (-a) * (-b) == a * b)
        by (nonlinear_arith);
    let (x, y) = (size(a), size(b));
    assert(x * y >= 0real) by (nonlinear_arith)
        requires
            x >= 0real,
            y >= 0real,
    ;
}

/// A quotient that is finite is close to the exact one.
pub proof fn law_quotient_is_close(a: Scalar, b: Scalar)
    requires
        a.is_finite(),
        b.is_finite(),
        b.magnitude() > 0,
        a.quotient(b).is_finite(),
    ensures
        close(value(a.quotient(b)), value(a) / value(b)),
{
    lemma_unit();
    law_quotient_is_near(a, b);
    let q = a.quotient(b);
    lemma_sizes(a);
    lemma_sizes(b);
    lemma_sizes(q);
    let (u, x, y) = (unit() as real, size(value(a)), size(value(b)));
    let (m, n) = (a.abs_scaled(), b.abs_scaled());
    lemma_real_product(m, unit());
    assert(y > 0real);
    assert((x / y) * (u * n as real) == m as real * u) by (nonlinear_arith)
        requires
            x * u == m as real,
            y * u == n as real,
            y > 0real,
    ;
    assert(m * unit() >= 0) by (nonlinear_arith)
        requires
            m >= 0,
            unit() > 0,
    ;
    assert(n > 0) by {
        lemma_scaled_sign(b);
    }
    lemma_near_is_close(q.abs_scaled(), m * unit(), n, size(value(q)), x / y);
    let (va, vb, e) = (value(a), value(b), x / y);
    assert(va / vb == (if a.negative() == b.negative() {
        e
    } else {
        -e
    })) by {
        if a.negative() {
            assert(va == -x);
        }
        assert(e * y == x) by (nonlinear_arith)
            requires
                e == x / y,
                y > 0real,
        ;
        assert(va / vb == (if a.negative() == b.negative() { e } else { -e })) by (nonlinear_arith)
            requires
                e * y == x,
                y > 0real,
                va == (if a.negative() { -x } else { x }),
                vb == (if b.negative() { -y } else { y }),
        ;
    }
}

/// The order of scalars is that of the numbers they stand for.
pub proof fn law_order_of_values(a: Scalar, b: Scalar)
    requires
        a.is_finite(),
        b.is_finite(),
    ensures
        a.less(b) <==> value(a) < value(b),
        a.at_most(b) <==> value(a) <= value(b),
        a.same(b) <==> value(a) == value(b),
{
    law_order_is_numeric(a, b);
    lemma_value(a);
    lemma_value(b);
    lemma_unit();
    let (u, x, y) = (unit() as real, value(a), value(b));
    let (m, n) = (a.scaled() as real, b.scaled() as real);
    assert((x < y <==> m < n) && (x <= y <==> m <= n) && (x == y <==> m == n)) by (nonlinear_arith)
        requires
            x * u == m,
            y * u == n,
            u > 0real,
    ;
}

/// Rounding does not carry a number past a scalar.
proof fn lemma_rounded_stays_within(negative: bool, num: int, den: int, s: Scalar, x: real)
    requires
        num >= 0,
        den > 0,
        s.is_finite(),
        x * (unit() as real * den as real) == (if negative {
            -num as real
        } else {
            num as real
        }),
    ensures
        !rounded(negative, num, den).is_nan(),
        x <= value(s) ==> rounded(negative, num, den).at_most(s),
        value(s) <= x ==> s.at_most(rounded(negative, num, den)),
{
    lemma_unit();
    lemma_step_of(s);
    lemma_value(s);
    law_rounding_stays_within(negative, num, den, s.magnitude());
    let (u, d, v) = (unit() as real, den as real, value(s));
    let n = if negative {
        -num
    } else {
        num
    };
    let m = s.scaled();
    lemma_real_product(den, m);
    assert((x <= v ==> n as real <= d * m as real) && (v <= x ==> d * m as real <= n as real))
        by (nonlinear_arith)
        requires
            u > 0real,
            d > 0real,
            x * (u * d) == n as real,
            v * u == m as real,
    ;
    lemma_mul_unary_negation(den, s.abs_scaled());
    if s.abs_scaled() > 0 {
        lemma_mul_strictly_positive(den, s.abs_scaled());
    }
    if s.abs_scaled() == 0 {
        lemma_mul_by_zero_is_zero(den);
    }
}

/// A sum is on the same side of every scalar as the exact one.
pub proof fn law_sum_stays_within(a: Scalar, b: Scalar, s: Scalar)
    requires
        a.is_finite(),
        b.is_finite(),
        s.is_finite(),
    ensures
        !a.sum(b).is_nan(),
        value(a) + value(b) <= value(s) ==> a.sum(b).at_most(s),
        value(s) <= value(a) + value(b) ==> s.at_most(a.sum(b)),
{
    lemma_unit();
    lemma_value(a);
    lemma_value(b);
    lemma_value(s);
    let (u, x) = (unit() as real, value(a) + value(b));
    let n = a.scaled() + b.scaled();
    assert(x * (u * 1real) == n as real) by (nonlinear_arith)
        requires
            x == value(a) + value(b),
            value(a) * u == a.scaled() as real,
            value(b) * u == b.scaled() as real,
            n as real == a.scaled() as real + b.scaled() as real,
    ;
    if n == 0 {
        let zero = a.sum(b);
        assert(zero.magnitude() == 0);
        assert(zero.is_finite());
        lemma_scaled_sign(zero);
        lemma_sizes(zero);
        assert(x == 0real) by (nonlinear_arith)
            requires
                x * (u * 1real) == 0real,
                u > 0real,
        ;
        law_order_of_values(zero, s);
        law_order_of_values(s, zero);
    } else {
        lemma_rounded_stays_within(
            n < 0,
            if n < 0 {
                -n
            } else {
                n
            },
            1,
            s,
            x,
        );
    }
}

/// A difference is on the same side of every scalar as the exact one.
pub proof fn law_difference_stays_within(a: Scalar, b: Scalar, s: Scalar)
    requires
        a.is_finite(),
        b.is_finite(),
        s.is_finite(),
    ensures
        !a.difference(b).is_nan(),
        value(a) - value(b) <= value(s) ==> a.difference(b).at_most(s),
        value(s) <= value(a) - value(b) ==> s.at_most(a.difference(b)),
{
    lemma_negation(b);
    law_sum_stays_within(a, b.negation(), s);
}

/// A product is on the same side of every scalar as the exact one.
pub proof fn law_product_stays_within(a: Scalar, b: Scalar, s: Scalar)
    requires
        a.is_finite(),
        b.is_finite(),
        s.is_finite(),
    ensures
        !a.product(b).is_nan(),
        value(a) * value(b) <= value(s) ==> a.product(b).at_most(s),
        value(s) <= value(a) * value(b) ==> s.at_most(a.product(b)),
{
    lemma_unit();
    lemma_sizes(a);
    lemma_sizes(b);
    let (u, x, y) = (unit() as real, size(value(a)), size(value(b)));
    let (m, n) = (a.abs_scaled(), b.abs_scaled());
    lemma_real_product(m, n);
    lemma_signs(value(a), value(b));
    assert((x * y) * (u * u) == m as real * n as real && (-(x * y)) * (u * u) == -(m as real
        * n as real)) by (nonlinear_arith)
        requires
            x * u == m as real,
            y * u == n as real,
    ;
    assert(m * n >= 0) by (nonlinear_arith)
        requires
            m >= 0,
            n >= 0,
    ;
    let negative = a.negative() != b.negative();
    let signed_product = if negative {
        -(x * y)
    } else {
        x * y
    };
    assert(x * y == 0real || value(a) * value(b) == signed_product) by {
        if x == 0real || y == 0real {
            assert(x * y == 0real) by (nonlinear_arith)
                requires
                    x == 0real || y == 0real,
            ;
        }
    }
    lemma_rounded_stays_within(negative, m * n, unit(), s, value(a) * value(b));
}

/// A quotient is on the same side of every scalar as the exact one.
pub proof fn law_quotient_stays_within(a: Scalar, b: Scalar, s: Scalar)
    requires
        a.is_finite(),
        b.is_finite(),
        b.magnitude() > 0,
        s.is_finite(),
    ensures
        !a.quotient(b).is_nan(),
        value(a) / value(b) <= value(s) ==> a.quotient(b).at_most(s),
        value(s) <= value(a) / value(b) ==> s.at_most(a.quotient(b)),
{
    lemma_unit();
    lemma_sizes(a);
    lemma_sizes(b);
    lemma_scaled_sign(b);
    let (u, x, y) = (unit() as real, size(value(a)), size(value(b)));
    let (m, n) = (a.abs_scaled(), b.abs_scaled());
    lemma_real_product(m, unit());
    let negative = a.negative() != b.negative();
    let q = value(a) / value(b);
    assert(m * unit() >= 0) by (nonlinear_arith)
        requires
            m >= 0,
            unit() > 0,
    ;
    assert(q * value(b) == value(a)) by (nonlinear_arith)
        requires
            q == value(a) / value(b),
            value(b) != 0real,
    ;
    assert(q * (u * n as real) == (if negative { -(m as real * u) } else { m as real * u }))
        by (nonlinear_arith)
        requires
            q * value(b) == value(a),
            value(a) == (if a.negative() { -x } else { x }),
            value(b) == (if b.negative() { -y } else { y }),
            negative == (a.negative() != b.negative()),
            x * u == m as real,
            y * u == n as real,
    ;
    lemma_rounded_stays_within(negative, m * unit(), n, s, q);
}

/// The number that a pattern stands for, where its last bit weighs `1 / p`, which is
/// `1 / 2^k`.
pub proof fn lemma_pattern(s: Scalar, k: nat, g: int, p: int)
    requires
        !s.negative(),
        s.is_finite(),
        s.shift() + k == 149,
        s.significand() == g,
        pow2(k) == p,
    ensures
        value(s) == g as real / p as real,
{
    lemma_unit();
    lemma_value(s);
    let sh = s.shift() as nat;
    lemma_pow2_adds(sh, k);
    lemma_pow2_pos(sh);
    lemma_pow2_pos(k);
    let (v, u, w, q, n) = (value(s), unit() as real, pow2(sh) as real, p as real, g as real);
    lemma_real_product(pow2(sh) as int, p);
    lemma_real_product(g, pow2(sh) as int);
    assert(v == n / q) by (nonlinear_arith)
        requires
            v * u == n * w,
            u == w * q,
            w > 0real,
            q > 0real,
    ;
}

/// 2^64, an upper bound on what is computed with.
pub open spec fn bound() -> real {
    0x1_0000_0000_0000_0000real
}

proof fn lemma_bound()
    ensures
        (Scalar { bits: 0x5f80_0000 }).is_finite(),
        (Scalar { bits: 0xdf80_0000 }).is_finite(),
        value(Scalar { bits: 0x5f80_0000 }) == bound(),
        value(Scalar { bits: 0xdf80_0000 }) == -bound(),
{
    let b = Scalar { bits: 0x5f80_0000 };
    lemma_unit();
    lemma_value(b);
    lemma2_to64();
    lemma2_to64_rest();
    lemma_pow2_adds(149, 41);
    assert(b.shift() == 190 && b.significand() == 0x80_0000);
    lemma_real_product(pow2(149) as int, pow2(41) as int);
    lemma_real_product(0x80_0000, pow2(190) as int);
    let (v, u) = (value(b), unit() as real);
    assert(v == bound()) by (nonlinear_arith)
        requires
            v * u == 0x80_0000real * (u * 0x200_0000_0000real),
            u > 0real,
            bound() == 0x1_0000_0000_0000_0000real,
    ;
    lemma_negation(b);
    assert(b.negation() == (Scalar { bits: 0xdf80_0000 }));
}

/// A scalar between two finite ones is finite.
proof fn lemma_between(s: Scalar)
    requires
        s.at_most(Scalar { bits: 0x5f80_0000 }),
        (Scalar { bits: 0xdf80_0000 }).at_most(s),
    ensures
        s.is_finite(),
{
}

/// A sum within bounds is finite and close to the exact one.
pub proof fn law_sum(a: Scalar, b: Scalar)
    requires
        a.is_finite(),
        b.is_finite(),
        size(value(a) + value(b)) <= bound(),
    ensures
        a.sum(b).is_finite(),
        close(value(a.sum(b)), value(a) + value(b)),
{
    lemma_bound();
    law_sum_stays_within(a, b, Scalar { bits: 0x5f80_0000 });
    law_sum_stays_within(a, b, Scalar { bits: 0xdf80_0000 });
    lemma_between(a.sum(b));
    law_sum_is_close(a, b);
}

/// A difference within bounds is finite and close to the exact one.
pub proof fn law_difference(a: Scalar, b: Scalar)
    requires
        a.is_finite(),
        b.is_finite(),
        size(value(a) - value(b)) <= bound(),
    ensures
        a.difference(b).is_finite(),
        close(value(a.difference(b)), value(a) - value(b)),
{
    lemma_negation(b);
    law_sum(a, b.negation());
}

/// A product within bounds is finite and close to the exact one.
pub proof fn law_product(a: Scalar, b: Scalar)
    requires
        a.is_finite(),
        b.is_finite(),
        size(value(a) * value(b)) <= bound(),
    ensures
        a.product(b).is_finite(),
        close(value(a.product(b)), value(a) * value(b)),
{
    lemma_bound();
    law_product_stays_within(a, b, Scalar { bits: 0x5f80_0000 });
    law_product_stays_within(a, b, Scalar { bits: 0xdf80_0000 });
    lemma_between(a.product(b));
    law_product_is_close(a, b);
}

/// A quotient within bounds is finite and close to the exact one.
pub proof fn law_quotient(a: Scalar, b: Scalar)
    requires
        a.is_finite(),
        b.is_finite(),
        value(b) != 0real,
        size(value(a) / value(b)) <= bound(),
    ensures
        a.quotient(b).is_finite(),
        close(value(a.quotient(b)), value(a) / value(b)),
{
    lemma_bound();
    lemma_sizes(b);
    law_quotient_stays_within(a, b, Scalar { bits: 0x5f80_0000 });
    law_quotient_stays_within(a, b, Scalar { bits: 0xdf80_0000 });
    lemma_between(a.quotient(b));
    law_quotient_is_close(a, b);
}

/// A whole number up to 2^24 stands for itself.
pub proof fn law_whole(n: int)
    requires
        0 <= n <= 0x100_0000,
    ensures
        Scalar::whole(n).is_finite(),
        value(Scalar::whole(n)) == n as real,
{
    lemma_unit();
    law_small_numbers_are_exact(n);
    let w = Scalar::whole(n);
    lemma_value(w);
    lemma_real_product(n, unit());
    let (v, u) = (value(w), unit() as real);
    assert(v == n as real) by (nonlinear_arith)
        requires
            v * u == n as real * u,
            u > 0real,
    ;
}

/// The numbers that common patterns stand for.
pub proof fn lemma_constants()
    ensures
        value(Scalar { bits: 0 }) == 0real,
        value(Scalar { bits: 0x3f00_0000 }) == 1real / 2real,
        value(Scalar { bits: 0x3f80_0000 }) == 1real,
        value(Scalar { bits: 0x4000_0000 }) == 2real,
        value(Scalar { bits: 0x42c8_0000 }) == 100real,
        value(Scalar { bits: 0x437f_0000 }) == 255real,
{
    lemma2_to64();
    lemma_sizes(Scalar { bits: 0 });
    lemma_pattern(Scalar { bits: 0x3f00_0000 }, 24, 0x80_0000, 0x100_0000);
    lemma_pattern(Scalar { bits: 0x3f80_0000 }, 23, 0x80_0000, 0x80_0000);
    lemma_pattern(Scalar { bits: 0x4000_0000 }, 22, 0x80_0000, 0x40_0000);
    lemma_pattern(Scalar { bits: 0x42c8_0000 }, 17, 0xc8_0000, 0x2_0000);
    lemma_pattern(Scalar { bits: 0x437f_0000 }, 16, 0xff_0000, 0x1_0000);
}

/// Whether `r` lies no farther than `e` from `x`.
pub open spec fn within(r: real, x: real, e: real) -> bool {
    size(r - x) <= e
}

/// `n` parts in 2^24.
pub open spec fn parts(n: real) -> real {
    n / 0x100_0000real
}

/// A number limited to 0..=1.
pub open spec fn held(x: real) -> real {
    if x < 0real {
        0real
    } else if x > 1real {
        1real
    } else {
        x
    }
}

/// A result that is close to `exact`, which is no farther than `err` from `x`.
proof fn lemma_settled(r: real, exact: real, x: real, err: real, m: real, e: real)
    requires
        close(r, exact),
        within(exact, x, err),
        size(x) <= m,
        2real * err <= 1real,
        m + 1real <= 0x100_0000real * (e - err),
    ensures
        within(r, x, e),
{
    lemma_unit();
}

proof fn lemma_in_bounds(exact: real, x: real, err: real, m: real)
    requires
        within(exact, x, err),
        size(x) <= m,
        2real * err <= 1real,
        m <= 0x1_0000_0000real,
    ensures
        size(exact) <= bound(),
{
}

/// Two numbers within bounds of what they stand in for, and their sum: it is off by as
/// much as they are together, and by its own rounding.
pub proof fn law_sum_tracks(
    a: Scalar,
    b: Scalar,
    x: real,
    y: real,
    ea: real,
    eb: real,
    m: real,
    e: real,
)
    requires
        a.is_finite(),
        b.is_finite(),
        within(value(a), x, ea),
        within(value(b), y, eb),
        2real * (ea + eb) <= 1real,
        size(x + y) <= m <= 0x1_0000_0000real,
        m + 1real <= 0x100_0000real * (e - ea - eb),
    ensures
        a.sum(b).is_finite(),
        within(value(a.sum(b)), x + y, e),
{
    let exact = value(a) + value(b);
    lemma_in_bounds(exact, x + y, ea + eb, m);
    law_sum(a, b);
    lemma_settled(value(a.sum(b)), exact, x + y, ea + eb, m, e);
}

/// Two numbers within bounds of what they stand in for, and their difference.
pub proof fn law_difference_tracks(
    a: Scalar,
    b: Scalar,
    x: real,
    y: real,
    ea: real,
    eb: real,
    m: real,
    e: real,
)
    requires
        a.is_finite(),
        b.is_finite(),
        within(value(a), x, ea),
        within(value(b), y, eb),
        2real * (ea + eb) <= 1real,
        size(x - y) <= m <= 0x1_0000_0000real,
        m + 1real <= 0x100_0000real * (e - ea - eb),
    ensures
        a.difference(b).is_finite(),
        within(value(a.difference(b)), x - y, e),
{
    lemma_negation(b);
    law_sum_tracks(a, b.negation(), x, -y, ea, eb, m, e);
}

proof fn lemma_part_of_product(x: real, y: real, mx: real, my: real)
    requires
        size(x) <= mx,
        size(y) <= my,
    ensures
        size(x * y) <= mx * my,
{
    lemma_signs(x, y);
    let (a, b) = (size(x), size(y));
    assert(a * b <= mx * my) by (nonlinear_arith)
        requires
            0real <= a <= mx,
            0real <= b <= my,
    ;
}

proof fn lemma_expand(p: real, q: real, x: real, y: real, d: real, f: real)
    by (nonlinear_arith)
    requires
        d == p - x,
        f == q - y,
    ensures
        p * q - x * y == x * f + y * d + d * f,
{
}

proof fn lemma_three_parts(d: real, s: real, t: real, u: real, es: real, et: real, eu: real)
    requires
        d == s + t + u,
        size(s) <= es,
        size(t) <= et,
        size(u) <= eu,
    ensures
        size(d) <= es + et + eu,
{
}

/// The exact product of two numbers, each off by a little.
pub proof fn lemma_product_of_near(
    p: real,
    q: real,
    x: real,
    y: real,
    ea: real,
    eb: real,
    mx: real,
    my: real,
    err: real,
    m: real,
)
    requires
        within(p, x, ea),
        within(q, y, eb),
        size(x) <= mx,
        size(y) <= my,
        mx * eb + my * ea + ea * eb <= err,
        mx * my <= m,
    ensures
        within(p * q, x * y, err),
        size(x * y) <= m,
{
    let (d, f) = (p - x, q - y);
    lemma_expand(p, q, x, y, d, f);
    lemma_part_of_product(x, f, mx, eb);
    lemma_part_of_product(y, d, my, ea);
    lemma_part_of_product(d, f, ea, eb);
    lemma_part_of_product(x, y, mx, my);
    lemma_three_parts(p * q - x * y, x * f, y * d, d * f, mx * eb, my * ea, ea * eb);
}

/// Two numbers within bounds of what they stand in for, and their product.
pub proof fn law_product_tracks(
    a: Scalar,
    b: Scalar,
    x: real,
    y: real,
    ea: real,
    eb: real,
    mx: real,
    my: real,
    err: real,
    m: real,
    e: real,
)
    requires
        a.is_finite(),
        b.is_finite(),
        within(value(a), x, ea),
        within(value(b), y, eb),
        size(x) <= mx,
        size(y) <= my,
        mx * eb + my * ea + ea * eb <= err,
        mx * my <= m,
        m <= 0x1_0000_0000real,
        2real * err <= 1real,
        m + 1real <= 0x100_0000real * (e - err),
    ensures
        a.product(b).is_finite(),
        within(value(a.product(b)), x * y, e),
        size(x * y) <= m,
{
    lemma_product_of_near(value(a), value(b), x, y, ea, eb, mx, my, err, m);
    lemma_in_bounds(value(a) * value(b), x * y, err, m);
    law_product(a, b);
    lemma_settled(value(a.product(b)), value(a) * value(b), x * y, err, m, e);
}

/// Limiting a number to 0..=1 brings it no farther from another limited one.
pub proof fn law_limit_tracks(a: Scalar, x: real, e: real)
    requires
        a.is_finite(),
        within(value(a), x, e),
    ensures
        a.limited(Scalar { bits: 0 }, Scalar { bits: 0x3f80_0000 }).is_finite(),
        value(a.limited(Scalar { bits: 0 }, Scalar { bits: 0x3f80_0000 })) == held(value(a)),
        within(
            value(a.limited(Scalar { bits: 0 }, Scalar { bits: 0x3f80_0000 })),
            held(x),
            e,
        ),
{
    lemma_constants();
    law_order_of_values(a, Scalar { bits: 0 });
    law_order_of_values(Scalar { bits: 0x3f80_0000 }, a);
}

/// A result that is on no side of a scalar stands for the same number.
proof fn lemma_pinned(r: Scalar, t: Scalar)
    requires
        t.is_finite(),
        r.at_most(t),
        t.at_most(r),
    ensures
        r.is_finite(),
        value(r) == value(t),
{
    law_order_of_values(r, t);
}

/// A sum that a scalar stands for is exact.
pub proof fn law_sum_is_exact(a: Scalar, b: Scalar, t: Scalar)
    requires
        a.is_finite(),
        b.is_finite(),
        t.is_finite(),
        value(a) + value(b) == value(t),
    ensures
        a.sum(b).is_finite(),
        value(a.sum(b)) == value(t),
{
    law_sum_stays_within(a, b, t);
    lemma_pinned(a.sum(b), t);
}

/// A difference that a scalar stands for is exact.
pub proof fn law_difference_is_exact(a: Scalar, b: Scalar, t: Scalar)
    requires
        a.is_finite(),
        b.is_finite(),
        t.is_finite(),
        value(a) - value(b) == value(t),
    ensures
        a.difference(b).is_finite(),
        value(a.difference(b)) == value(t),
{
    law_difference_stays_within(a, b, t);
    lemma_pinned(a.difference(b), t);
}

/// A product that a scalar stands for is exact.
pub proof fn law_product_is_exact(a: Scalar, b: Scalar, t: Scalar)
    requires
        a.is_finite(),
        b.is_finite(),
        t.is_finite(),
        value(a) * value(b) == value(t),
    ensures
        a.product(b).is_finite(),
        value(a.product(b)) == value(t),
{
    law_product_stays_within(a, b, t);
    lemma_pinned(a.product(b), t);
}

/// A quotient that a scalar stands for is exact.
pub proof fn law_quotient_is_exact(a: Scalar, b: Scalar, t: Scalar)
    requires
        a.is_finite(),
        b.is_finite(),
        b.magnitude() > 0,
        t.is_finite(),
        value(a) / value(b) == value(t),
    ensures
        a.quotient(b).is_finite(),
        value(a.quotient(b)) == value(t),
{
    law_quotient_stays_within(a, b, t);
    lemma_pinned(a.quotient(b), t);
}

/// The scalar that stands for a whole number of either sign.
pub open spec fn signed_whole(n: int) -> Scalar {
    if n < 0 {
        Scalar::whole(-n).negation()
    } else {
        Scalar::whole(n)
    }
}

pub proof fn lemma_signed_whole(n: int)
    requires
        -0x100_0000 <= n <= 0x100_0000,
    ensures
        signed_whole(n).is_finite(),
        value(signed_whole(n)) == n as real,
{
    if n < 0 {
        law_whole(-n);
        lemma_negation(Scalar::whole(-n));
    } else {
        law_whole(n);
    }
}

/// The scalar that stands for half of a whole number.
pub open spec fn half_whole(n: int) -> Scalar {
    if n < 0 {
        Scalar { bits: (Scalar::whole(-n).bits - 0x80_0000) as u32 }.negation()
    } else {
        Scalar { bits: (Scalar::whole(n).bits - 0x80_0000) as u32 }
    }
}

proof fn lemma_halved(s: Scalar)
    requires
        s.is_finite(),
        !s.negative(),
        s.magnitude() >= 0x100_0000,
    ensures
        ({
            let t = Scalar { bits: (s.bits - 0x80_0000) as u32 };
            t.is_finite() && !t.negative() && 2real * value(t) == value(s)
        }),
{
    let t = Scalar { bits: (s.bits - 0x80_0000) as u32 };
    lemma_unit();
    lemma_value(s);
    lemma_value(t);
    let m = s.magnitude();
    assert(t.magnitude() == m - 0x80_0000);
    assert(t.exponent() == s.exponent() - 1 && t.significand() == s.significand());
    let k = t.shift();
    assert(s.shift() == k + 1);
    lemma_pow2_unfold((k + 1) as nat);
    assert(s.abs_scaled() == 2 * t.abs_scaled()) by (nonlinear_arith)
        requires
            s.abs_scaled() == s.significand() * pow2((k + 1) as nat),
            t.abs_scaled() == s.significand() * pow2(k as nat),
            pow2((k + 1) as nat) == 2 * pow2(k as nat),
    ;
    let (u, v, w) = (unit() as real, value(s), value(t));
    assert(2real * w == v) by (nonlinear_arith)
        requires
            u > 0real,
            v * u == 2real * (w * u),
    ;
}

/// An odd number up to 2^24 has a half that a scalar stands for.
pub proof fn lemma_half_whole(n: int)
    requires
        -0x100_0000 <= n <= 0x100_0000,
        n != 0,
    ensures
        half_whole(n).is_finite(),
        2real * value(half_whole(n)) == n as real,
{
    let m = if n < 0 {
        -n
    } else {
        n
    };
    law_whole(m);
    law_counts_are_finite(m);
    lemma_halved(Scalar::whole(m));
    lemma_negation(Scalar { bits: (Scalar::whole(m).bits - 0x80_0000) as u32 });
}

/// From the order of real numbers to that of multiples of the smallest step.
proof fn lemma_scaled_order(s: Scalar, n: int)
    ensures
        n as real <= value(s) <==> n * unit() <= s.scaled(),
        value(s) < n as real <==> s.scaled() < n * unit(),
        value(s) <= n as real <==> s.scaled() <= n * unit(),
{
    lemma_unit();
    lemma_value(s);
    lemma_real_product(n, unit());
    let (u, v, x, y) = (unit() as real, value(s), s.scaled() as real, n as real);
    assert((y <= v <==> y * u <= x) && (v <= y <==> x <= y * u)) by (nonlinear_arith)
        requires
            u > 0real,
            v * u == x,
    ;
}

/// The whole part of a number, downwards.
pub proof fn law_floor(s: Scalar, n: int)
    requires
        n as real <= value(s) < (n + 1) as real,
    ensures
        s.floor_int() == n,
{
    lemma_unit();
    lemma_scaled_order(s, n);
    lemma_scaled_order(s, n + 1);
    lemma_mul_is_distributive_add_other_way(unit(), n, 1);
    lemma_fundamental_div_mod_converse(s.scaled(), unit(), n, s.scaled() - n * unit());
}

/// The whole part of a number, upwards.
pub proof fn law_ceil(s: Scalar, n: int)
    requires
        value(s) > (n - 1) as real,
        value(s) <= n as real,
    ensures
        s.ceil_int() == n,
{
    lemma_unit();
    lemma_scaled_order(s, n);
    lemma_scaled_order(s, n - 1);
    lemma_mul_is_distributive_sub_other_way(unit(), n, 1);
    lemma_mul_unary_negation(n, unit());
    lemma_fundamental_div_mod_converse(-s.scaled(), unit(), -n, n * unit() - s.scaled());
}

/// The nearest whole number lies within a half.
pub proof fn law_round(s: Scalar)
    requires
        s.is_finite(),
        value(s) >= 0real,
    ensures
        2real * size(s.round_int() as real - value(s)) <= 1real,
{
    lemma_unit();
    lemma_sizes(s);
    lemma_value(s);
    let (a, u) = (s.abs_scaled(), unit());
    let m = (2 * a + u) / (2 * u);
    lemma_fundamental_div_mod(2 * a + u, 2 * u);
    lemma_mod_bound(2 * a + u, 2 * u);
    let r = (2 * a + u) % (2 * u);
    assert(2 * a + u == 2 * (u * m) + r) by (nonlinear_arith)
        requires
            2 * a + u == (2 * u) * m + r,
    ;
    lemma_real_product(u, m);
    if s.negative() {
        assert(a == 0);
        assert(m == 0) by (nonlinear_arith)
            requires
                0 <= r < 2 * u,
                u == 2 * (u * m) + r,
                u > 0,
        ;
    }
    let (v, ur, mr, rr) = (value(s), u as real, m as real, r as real);
    assert(2real * (v * ur) + ur == 2real * (ur * mr) + rr);
    assert(2real * (mr - v) <= 1real && 2real * (v - mr) <= 1real) by (nonlinear_arith)
        requires
            2real * (v * ur) + ur == 2real * (ur * mr) + rr,
            0real <= rr < 2real * ur,
            ur > 0real,
    ;
}

} // verus!
