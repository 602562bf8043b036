//! Single-precision numbers carried by their bit patterns.
//!
//! Pixel channels, opacities and filter parameters are IEEE 754 binary32
//! values. A bit pattern is all they are made of, so what is known of a pattern
//! is known of the number on every machine.

use vstd::arithmetic::div_mod::*;
use vstd::arithmetic::mul::*;
use vstd::arithmetic::power2::*;
use vstd::prelude::*;

verus! {

/// A binary32 value, held as its bit pattern. `==` compares patterns; the
/// numeric comparisons are [`Scalar::lt`] and its companions.
#[derive(Clone, Copy, PartialEq, Eq, Structural, Debug, Hash)]
pub struct Scalar {
    pub bits: u32,
}

/// `v` limited to `lo..=hi`.
pub open spec fn clip(v: int, lo: int, hi: int) -> int {
    if v < lo {
        lo
    } else if v > hi {
        hi
    } else {
        v
    }
}

/// The weight of one unit on the scale of [`Scalar::scaled`]: the smallest
/// positive binary32 value is `1 / unit()`.
pub open spec fn unit() -> int {
    pow2(149) as int
}

impl Scalar {
    /// The sign bit.
    pub open spec fn negative(self) -> bool {
        self.bits >= 0x8000_0000
    }

    /// The pattern without its sign bit.
    pub open spec fn magnitude(self) -> int {
        if self.bits >= 0x8000_0000 {
            self.bits - 0x8000_0000
        } else {
            self.bits as int
        }
    }

    pub open spec fn is_nan(self) -> bool {
        self.magnitude() > 0x7f80_0000
    }

    pub open spec fn is_infinite(self) -> bool {
        self.magnitude() == 0x7f80_0000
    }

    pub open spec fn is_finite(self) -> bool {
        self.magnitude() < 0x7f80_0000
    }

    /// The biased exponent field.
    pub open spec fn exponent(self) -> int {
        self.magnitude() / 0x80_0000
    }

    /// The significand, with the implied leading bit of a normal value.
    pub open spec fn significand(self) -> int {
        if self.exponent() == 0 {
            self.magnitude()
        } else {
            self.magnitude() % 0x80_0000 + 0x80_0000
        }
    }

    /// The power of two that weighs the significand on the scaled value.
    pub open spec fn shift(self) -> int {
        if self.exponent() == 0 {
            0
        } else {
            self.exponent() - 1
        }
    }

    /// The absolute value of a finite scalar, as a multiple of `1 / unit()`.
    pub open spec fn abs_scaled(self) -> int {
        self.significand() * pow2(self.shift() as nat)
    }

    /// The exact value of a finite scalar, as a multiple of `1 / unit()`.
    pub open spec fn scaled(self) -> int {
        if self.negative() {
            -self.abs_scaled()
        } else {
            self.abs_scaled()
        }
    }

    /// Position on the number line: numbers compare as their keys do, and the
    /// two zeros share one key.
    pub open spec fn key(self) -> int {
        if self.negative() {
            -self.magnitude()
        } else {
            self.magnitude()
        }
    }

    /// Numeric `<`, which is false for anything compared with a NaN.
    pub open spec fn less(self, other: Scalar) -> bool {
        !self.is_nan() && !other.is_nan() && self.key() < other.key()
    }

    /// Numeric `<=`, which is false for anything compared with a NaN.
    pub open spec fn at_most(self, other: Scalar) -> bool {
        !self.is_nan() && !other.is_nan() && self.key() <= other.key()
    }

    /// Numeric `==`: the two zeros are equal and a NaN equals nothing.
    pub open spec fn same(self, other: Scalar) -> bool {
        !self.is_nan() && !other.is_nan() && self.key() == other.key()
    }

    /// The largest integer not above the value.
    pub open spec fn floor_int(self) -> int {
        self.scaled() / unit()
    }

    /// The smallest integer not below the value.
    pub open spec fn ceil_int(self) -> int {
        -((-self.scaled()) / unit())
    }

    /// The nearest integer, halves going away from zero.
    pub open spec fn round_int(self) -> int {
        let m = (2 * self.abs_scaled() + unit()) / (2 * unit());
        if self.negative() {
            -m
        } else {
            m
        }
    }

    /// The integer part, towards zero.
    pub open spec fn trunc_int(self) -> int {
        let m = self.abs_scaled() / unit();
        if self.negative() {
            -m
        } else {
            m
        }
    }

    /// What a cast to an integer type of range `lo..=hi` makes of this scalar
    /// once it was rounded to the integer `v`: out-of-range values go to the
    /// nearest end, and a NaN goes to 0.
    pub open spec fn cast(self, v: int, lo: int, hi: int) -> int {
        if self.is_nan() {
            0
        } else if self.is_infinite() {
            if self.negative() {
                lo
            } else {
                hi
            }
        } else {
            clip(v, lo, hi)
        }
    }

    /// The scalar with the given bit pattern.
    pub fn from_bits(bits: u32) -> (r: Scalar)
        ensures
            r.bits == bits,
    {
        Scalar { bits }
    }

    /// Positive zero.
    pub fn zero() -> (r: Scalar)
        ensures
            r.bits == 0,
    {
        Scalar { bits: 0 }
    }

    /// The pattern without its sign bit.
    pub(crate) fn abs_bits(self) -> (r: u32)
        ensures
            r == self.magnitude(),
    {
        if self.bits >= 0x8000_0000 {
            self.bits - 0x8000_0000
        } else {
            self.bits
        }
    }

    fn key_of(self) -> (r: i64)
        ensures
            r == self.key(),
    {
        let m: i64 = self.abs_bits() as i64;
        if self.bits >= 0x8000_0000 {
            -m
        } else {
            m
        }
    }

    /// Numeric `<`.
    pub fn lt(self, other: Scalar) -> (r: bool)
        ensures
            r == self.less(other),
    {
        self.abs_bits() <= 0x7f80_0000 && other.abs_bits() <= 0x7f80_0000 && self.key_of()
            < other.key_of()
    }

    /// Numeric `<=`.
    pub fn le(self, other: Scalar) -> (r: bool)
        ensures
            r == self.at_most(other),
    {
        self.abs_bits() <= 0x7f80_0000 && other.abs_bits() <= 0x7f80_0000 && self.key_of()
            <= other.key_of()
    }

    /// Numeric `>`.
    pub fn gt(self, other: Scalar) -> (r: bool)
        ensures
            r == other.less(self),
    {
        other.lt(self)
    }

    /// Numeric `>=`.
    pub fn ge(self, other: Scalar) -> (r: bool)
        ensures
            r == other.at_most(self),
    {
        other.le(self)
    }

    /// Numeric `==`.
    pub fn equals(self, other: Scalar) -> (r: bool)
        ensures
            r == self.same(other),
    {
        self.abs_bits() <= 0x7f80_0000 && other.abs_bits() <= 0x7f80_0000 && self.key_of()
            == other.key_of()
    }
}

/// A magnitude cut into its whole part and what the fraction is like.
struct Split {
    whole: u64,
    half: bool,
    inexact: bool,
}

/// The whole part from which on [`Split`] no longer tells magnitudes apart.
pub open spec fn huge() -> int {
    0x8000_0000_0000_0000
}

impl Split {
    spec fn cuts(self, s: Scalar) -> bool {
        let q = s.abs_scaled() / unit();
        let r = s.abs_scaled() % unit();
        &&& self.whole == (if q < huge() { q } else { huge() })
        &&& q < huge() ==> self.half == (2 * r >= unit())
        &&& q < huge() ==> self.inexact == (r != 0)
        &&& q >= huge() ==> !self.half && !self.inexact
    }
}

impl Scalar {
    fn split(self) -> (r: Split)
        requires
            self.is_finite(),
        ensures
            r.cuts(self),
    {
        let m: u32 = self.abs_bits();
        let e: u32 = m / 0x80_0000;
        let sig: u64 = if e == 0 {
            m as u64
        } else {
            (m % 0x80_0000) as u64 + 0x80_0000
        };
        let s: u32 = if e == 0 {
            0
        } else {
            e - 1
        };
        proof {
            lemma_pow2_pos(149);
            lemma2_to64();
            lemma2_to64_rest();
            assert(self.abs_scaled() == sig * pow2(s as nat));
        }
        if s >= 149 {
            let k: u32 = s - 149;
            proof {
                lemma_whole_when_large(sig as int, s as nat);
            }
            if k >= 40 {
                proof {
                    if 40 < k {
                        lemma_pow2_strictly_increases(40, k as nat);
                    }
                    lemma_mul_inequality(0x80_0000, sig as int, pow2(k as nat) as int);
                    lemma_mul_inequality(pow2(40) as int, pow2(k as nat) as int, 0x80_0000);
                }
                Split { whole: 0x8000_0000_0000_0000, half: false, inexact: false }
            } else {
                let p: u64 = shifted_one(k);
                proof {
                    if k < 39 {
                        lemma_pow2_strictly_increases(k as nat, 39);
                    }
                    assert(sig * p < huge()) by (nonlinear_arith)
                        requires
                            sig < 0x100_0000,
                            0 < p <= 0x80_0000_0000,
                    ;
                }
                Split { whole: sig * p, half: false, inexact: false }
            }
        } else {
            let k: u32 = 149 - s;
            proof {
                lemma_whole_when_small(sig as int, s as nat);
            }
            if k > 24 {
                proof {
                    if 24 < k - 1 {
                        lemma_pow2_strictly_increases(24, (k - 1) as nat);
                    }
                    lemma_pow2_unfold(k as nat);
                    lemma_small_mod(sig as nat, pow2(k as nat));
                    lemma_basic_div(sig as int, pow2(k as nat) as int);
                    lemma_pow2_pos(s as nat);
                    assert(sig * pow2(s as nat) == 0 <==> sig == 0) by (nonlinear_arith)
                        requires
                            pow2(s as nat) > 0,
                    ;
                }
                Split { whole: 0, half: false, inexact: sig != 0 }
            } else {
                let p: u64 = shifted_one(k);
                let rest: u64 = sig % p;
                proof {
                    lemma_div_nonincreasing(sig as int, p as int);
                }
                Split { whole: sig / p, half: 2 * rest >= p, inexact: rest != 0 }
            }
        }
    }

    /// `floor` and a cast to `i64`.
    pub fn floor_i64(self) -> (r: i64)
        ensures
            r == self.cast(self.floor_int(), i64::MIN as int, i64::MAX as int),
    {
        let m: u32 = self.abs_bits();
        if m > 0x7f80_0000 {
            0
        } else if m == 0x7f80_0000 {
            if self.bits >= 0x8000_0000 {
                i64::MIN
            } else {
                i64::MAX
            }
        } else {
            let c = self.split();
            proof {
                lemma_floor_cases(self);
            }
            if self.bits >= 0x8000_0000 {
                c.negated_up()
            } else {
                c.kept()
            }
        }
    }

    /// `ceil` and a cast to `i64`.
    pub fn ceil_i64(self) -> (r: i64)
        ensures
            r == self.cast(self.ceil_int(), i64::MIN as int, i64::MAX as int),
    {
        let m: u32 = self.abs_bits();
        if m > 0x7f80_0000 {
            0
        } else if m == 0x7f80_0000 {
            if self.bits >= 0x8000_0000 {
                i64::MIN
            } else {
                i64::MAX
            }
        } else {
            let c = self.split();
            proof {
                lemma_floor_cases(self);
            }
            if self.bits >= 0x8000_0000 {
                c.negated()
            } else {
                c.kept_up()
            }
        }
    }

    /// `round` and a cast to `i64`.
    pub fn round_i64(self) -> (r: i64)
        ensures
            r == self.cast(self.round_int(), i64::MIN as int, i64::MAX as int),
    {
        let m: u32 = self.abs_bits();
        if m > 0x7f80_0000 {
            0
        } else if m == 0x7f80_0000 {
            if self.bits >= 0x8000_0000 {
                i64::MIN
            } else {
                i64::MAX
            }
        } else {
            let c = self.split();
            proof {
                lemma_floor_cases(self);
            }
            let n = Split { whole: c.whole, half: false, inexact: c.half };
            if self.bits >= 0x8000_0000 {
                n.negated_up()
            } else {
                n.kept_up()
            }
        }
    }

    /// A cast to `i64`, towards zero.
    pub fn trunc_i64(self) -> (r: i64)
        ensures
            r == self.cast(self.trunc_int(), i64::MIN as int, i64::MAX as int),
    {
        let m: u32 = self.abs_bits();
        if m > 0x7f80_0000 {
            0
        } else if m == 0x7f80_0000 {
            if self.bits >= 0x8000_0000 {
                i64::MIN
            } else {
                i64::MAX
            }
        } else {
            let c = self.split();
            proof {
                lemma_floor_cases(self);
            }
            if self.bits >= 0x8000_0000 {
                c.negated()
            } else {
                c.kept()
            }
        }
    }

    /// A cast to `u32`, towards zero.
    pub fn trunc_u32(self) -> (r: u32)
        ensures
            r == self.cast(self.trunc_int(), 0, u32::MAX as int),
    {
        let v: i64 = self.trunc_i64();
        if v < 0 {
            0
        } else if v > 0xffff_ffff {
            0xffff_ffff
        } else {
            v as u32
        }
    }

    /// `round` and a cast to `u32`.
    pub fn round_u32(self) -> (r: u32)
        ensures
            r == self.cast(self.round_int(), 0, u32::MAX as int),
    {
        let v: i64 = self.round_i64();
        if v < 0 {
            0
        } else if v > 0xffff_ffff {
            0xffff_ffff
        } else {
            v as u32
        }
    }
}

impl Scalar {
    /// The positive scalar whose scaled value is `sig` shifted left by `shift`.
    pub(crate) fn assemble(sig: u32, shift: u32) -> (r: Scalar)
        requires
            0 < sig <= 0x100_0000,
            23 < shift < 250,
        ensures
            r.is_finite(),
            !r.negative(),
            r.scaled() == sig * pow2(shift as nat),
    {
        let mut m: u32 = sig;
        let mut s: u32 = shift;
        if m == 0x100_0000 {
            proof {
                lemma_pow2_unfold((s + 1) as nat);
                assert(0x100_0000 * pow2(s as nat) == 0x80_0000 * (2 * pow2(s as nat)));
            }
            m = 0x80_0000;
            s = s + 1;
        }
        let ghost mut j: nat = 0;
        proof {
            lemma2_to64();
        }
        while m < 0x80_0000
            invariant
                0 < m < 0x100_0000,
                m >= pow2(j),
                j <= 23,
                23 < s + j <= 250,
                m * pow2(s as nat) == sig * pow2(shift as nat),
            decreases 0x100_0000 - m,
        {
            proof {
                lemma2_to64();
                if j > 23 {
                    lemma_pow2_strictly_increases(23, j);
                }
                assert(j < 23);
                lemma_pow2_unfold(j + 1);
                lemma_pow2_unfold(s as nat);
                let half = pow2((s - 1) as nat) as int;
                assert(m * (2 * half) == (m * 2) * half) by (nonlinear_arith);
                j = j + 1;
            }
            m = m * 2;
            s = s - 1;
        }
        Scalar { bits: (s + 1) * 0x80_0000 + (m - 0x80_0000) }
    }

    /// The same value with the sign bit set.
    pub(crate) fn with_sign(self) -> (r: Scalar)
        requires
            !self.negative(),
        ensures
            r.negative(),
            r.magnitude() == self.magnitude(),
    {
        Scalar { bits: self.bits + 0x8000_0000 }
    }
}

impl Split {
    fn kept(&self) -> (r: i64)
        requires
            self.whole <= huge(),
        ensures
            r == clip(self.whole as int, i64::MIN as int, i64::MAX as int),
    {
        if self.whole > 0x7fff_ffff_ffff_ffff {
            i64::MAX
        } else {
            self.whole as i64
        }
    }

    fn kept_up(&self) -> (r: i64)
        requires
            self.whole <= huge(),
        ensures
            r == clip(
                self.whole + (if self.inexact { 1int } else { 0 }),
                i64::MIN as int,
                i64::MAX as int,
            ),
    {
        if self.whole >= 0x7fff_ffff_ffff_ffff {
            i64::MAX
        } else if self.inexact {
            self.whole as i64 + 1
        } else {
            self.whole as i64
        }
    }

    fn negated(&self) -> (r: i64)
        requires
            self.whole <= huge(),
        ensures
            r == clip(-(self.whole as int), i64::MIN as int, i64::MAX as int),
    {
        if self.whole > 0x7fff_ffff_ffff_ffff {
            i64::MIN
        } else {
            -(self.whole as i64)
        }
    }

    fn negated_up(&self) -> (r: i64)
        requires
            self.whole <= huge(),
        ensures
            r == clip(
                -(self.whole + (if self.inexact { 1int } else { 0 })),
                i64::MIN as int,
                i64::MAX as int,
            ),
    {
        if self.whole > 0x7fff_ffff_ffff_ffff {
            i64::MIN
        } else if self.inexact {
            -(self.whole as i64) - 1
        } else {
            -(self.whole as i64)
        }
    }
}

/// A power of two.
pub(crate) fn shifted_one(k: u32) -> (p: u64)
    requires
        k < 64,
    ensures
        p == pow2(k as nat),
        p > 0,
{
    let mut p: u64 = 1;
    let mut i: u32 = 0;
    proof {
        lemma2_to64();
    }
    while i < k
        invariant
            i <= k < 64,
            p == pow2(i as nat),
            p > 0,
        decreases k - i,
    {
        proof {
            lemma_pow2_unfold((i + 1) as nat);
            lemma2_to64_rest();
            if i + 1 < 63 {
                lemma_pow2_strictly_increases((i + 1) as nat, 63);
            }
        }
        p = p * 2;
        i = i + 1;
    }
    p
}

proof fn lemma_whole_when_large(sig: int, s: nat)
    requires
        sig >= 0,
        s >= 149,
    ensures
        (sig * pow2(s)) / unit() == sig * pow2((s - 149) as nat),
        (sig * pow2(s)) % unit() == 0,
{
    lemma_pow2_adds((s - 149) as nat, 149);
    lemma_pow2_pos(149);
    let w = sig * pow2((s - 149) as nat);
    lemma_mul_is_associative(sig, pow2((s - 149) as nat) as int, unit());
    lemma_fundamental_div_mod_converse(sig * pow2(s), unit(), w, 0);
}

proof fn lemma_whole_when_small(sig: int, s: nat)
    requires
        sig >= 0,
        s < 149,
    ensures
        ({
            let p = pow2((149 - s) as nat) as int;
            let a = sig * pow2(s);
            &&& a / unit() == sig / p
            &&& (2 * (a % unit()) >= unit()) <==> (2 * (sig % p) >= p)
            &&& a % unit() == 0 <==> sig % p == 0
        }),
{
    let p = pow2((149 - s) as nat) as int;
    let w = pow2(s) as int;
    let a = sig * w;
    lemma_pow2_adds((149 - s) as nat, s);
    lemma_pow2_pos((149 - s) as nat);
    lemma_pow2_pos(s);
    assert(unit() == p * w);
    let (q, r) = (sig / p, sig % p);
    lemma_fundamental_div_mod(sig, p);
    lemma_mod_bound(sig, p);
    assert(a == q * (p * w) + r * w) by (nonlinear_arith)
        requires
            a == sig * w,
            sig == p * q + r,
    ;
    assert(0 <= r * w < p * w) by (nonlinear_arith)
        requires
            0 <= r < p,
            w > 0,
    ;
    lemma_fundamental_div_mod_converse(a, unit(), q, r * w);
    assert((2 * (r * w) >= p * w) <==> (2 * r >= p)) by (nonlinear_arith)
        requires
            w > 0,
    ;
    assert(r * w == 0 <==> r == 0) by (nonlinear_arith)
        requires
            w > 0,
    ;
}

proof fn lemma_floor_cases(a: Scalar)
    requires
        a.is_finite(),
    ensures
        ({
            let q = a.abs_scaled() / unit();
            let r = a.abs_scaled() % unit();
            let up = q + (if r != 0 { 1int } else { 0 });
            let near = q + (if 2 * r >= unit() { 1int } else { 0 });
            &&& a.floor_int() == (if a.negative() { -up } else { q })
            &&& a.ceil_int() == (if a.negative() { -q } else { up })
            &&& a.round_int() == (if a.negative() { -near } else { near })
            &&& q >= 0
        }),
{
    let u = unit();
    let v = a.abs_scaled();
    lemma_pow2_pos(149);
    lemma_abs_scaled_zero(a);
    let q = v / u;
    let r = v % u;
    lemma_fundamental_div_mod(v, u);
    lemma_mod_bound(v, u);
    lemma_div_pos_is_pos(v, u);
    let up = q + (if r != 0 { 1int } else { 0 });
    let rest = if r != 0 { u - r } else { 0 };
    assert(-v == (-up) * u + rest) by (nonlinear_arith)
        requires
            v == u * q + r,
            up == q + (if r != 0 { 1int } else { 0 }),
            rest == (if r != 0 { u - r } else { 0 }),
    ;
    lemma_fundamental_div_mod_converse(-v, u, -up, rest);
    let near = q + (if 2 * r >= u { 1int } else { 0 });
    let left = if 2 * r >= u { 2 * r - u } else { 2 * r + u };
    assert(2 * v + u == near * (2 * u) + left) by (nonlinear_arith)
        requires
            v == u * q + r,
            near == q + (if 2 * r >= u { 1int } else { 0 }),
            left == (if 2 * r >= u { 2 * r - u } else { 2 * r + u }),
    ;
    lemma_fundamental_div_mod_converse(2 * v + u, 2 * u, near, left);
}

/// Numbers are ordered as their exact values are.
pub proof fn law_order_is_numeric(a: Scalar, b: Scalar)
    requires
        a.is_finite(),
        b.is_finite(),
    ensures
        a.less(b) <==> a.scaled() < b.scaled(),
        a.at_most(b) <==> a.scaled() <= b.scaled(),
        a.same(b) <==> a.scaled() == b.scaled(),
{
    lemma_abs_scaled_monotone(a, b);
    lemma_abs_scaled_monotone(b, a);
    lemma_abs_scaled_zero(a);
    lemma_abs_scaled_zero(b);
}

/// A scalar that holds a whole number gives that number back, however it is
/// turned into an integer.
pub proof fn law_whole_numbers_survive(s: Scalar, n: int)
    requires
        s.is_finite(),
        s.scaled() == n * unit(),
    ensures
        s.floor_int() == n,
        s.ceil_int() == n,
        s.round_int() == n,
        s.trunc_int() == n,
{
    let u = unit();
    lemma_pow2_pos(149);
    lemma_abs_scaled_zero(s);
    let m = if s.negative() { -n } else { n };
    assert(s.abs_scaled() == m * u) by (nonlinear_arith)
        requires
            s.scaled() == n * u,
            s.scaled() == (if s.negative() { -s.abs_scaled() } else { s.abs_scaled() }),
            m == (if s.negative() { -n } else { n }),
    ;
    lemma_fundamental_div_mod_converse(n * u, u, n, 0);
    lemma_fundamental_div_mod_converse(m * u, u, m, 0);
    assert(-(n * u) == (-n) * u) by (nonlinear_arith);
    lemma_fundamental_div_mod_converse(-(n * u), u, -n, 0);
    assert(2 * (m * u) + u == m * (2 * u) + u) by (nonlinear_arith);
    lemma_fundamental_div_mod_converse(2 * (m * u) + u, 2 * u, m, u);
}

proof fn lemma_abs_scaled_zero(a: Scalar)
    requires
        a.is_finite(),
    ensures
        a.abs_scaled() >= 0,
        a.abs_scaled() == 0 <==> a.magnitude() == 0,
{
    lemma_pow2_pos(a.shift() as nat);
    let p = pow2(a.shift() as nat) as int;
    let m = a.significand();
    assert(m >= 0);
    assert(m > 0 ==> m * p > 0) by (nonlinear_arith)
        requires
            p > 0,
            m >= 0,
    ;
    assert(m == 0 ==> m * p == 0) by (nonlinear_arith);
}

/// Absolute values are ordered as the patterns without their sign bits are.
pub proof fn lemma_abs_scaled_monotone(a: Scalar, b: Scalar)
    requires
        a.is_finite(),
        b.is_finite(),
    ensures
        a.magnitude() < b.magnitude() ==> a.abs_scaled() < b.abs_scaled(),
        a.magnitude() == b.magnitude() ==> a.abs_scaled() == b.abs_scaled(),
{
    let (pa, pb) = (pow2(a.shift() as nat) as int, pow2(b.shift() as nat) as int);
    lemma_pow2_pos(a.shift() as nat);
    lemma_pow2_pos(b.shift() as nat);
    let (ma, mb) = (a.significand(), b.significand());
    if a.magnitude() < b.magnitude() {
        if a.exponent() == b.exponent() {
            assert(ma < mb);
            assert(ma * pa < mb * pa) by (nonlinear_arith)
                requires
                    ma < mb,
                    pa > 0,
            ;
        } else if a.exponent() == 0 {
            assert(pow2(0) == 1) by {
                lemma2_to64();
            }
            assert(ma * pa == ma) by (nonlinear_arith)
                requires
                    pa == 1,
            ;
            assert(mb * pb >= 0x80_0000) by (nonlinear_arith)
                requires
                    mb >= 0x80_0000,
                    pb >= 1,
            ;
        } else {
            assert(a.shift() < b.shift());
            let one = (a.shift() + 1) as nat;
            lemma_pow2_unfold(one);
            if one < b.shift() {
                lemma_pow2_strictly_increases(one, b.shift() as nat);
            }
            assert(pb >= 2 * pa);
            assert(ma * pa < mb * pb) by (nonlinear_arith)
                requires
                    0 <= ma < 0x100_0000,
                    mb >= 0x80_0000,
                    pb >= 2 * pa,
                    pa > 0,
            ;
        }
    }
}

} // verus!
