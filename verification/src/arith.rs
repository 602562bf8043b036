//! Single-precision arithmetic on bit patterns.
//!
//! Each operation returns the binary32 value nearest to the exact result, the
//! one with an even pattern where two are equally near. Every invalid operation
//! returns the same quiet NaN, so a result depends on the operands alone.

use crate::scalar::{unit, Scalar};
use vstd::arithmetic::div_mod::*;
use vstd::arithmetic::mul::*;
use vstd::arithmetic::power2::*;
use vstd::prelude::*;

verus! {

/// The pattern of infinity.
pub open spec fn top() -> int {
    0x7f80_0000
}

/// The absolute value that the pattern `m` stands for, as a multiple of
/// `1 / unit()`. For the pattern of infinity it is the value that would come
/// after the largest finite one.
pub open spec fn step(m: int) -> int {
    (Scalar { bits: m as u32 }).abs_scaled()
}

/// `m` is the pattern nearest to the fraction `num / den`, which counts
/// multiples of `1 / unit()`: the fraction lies between the midpoints to the
/// neighbouring patterns, and on a midpoint only if `m` is even.
pub open spec fn rounds_to(num: int, den: int, m: int) -> bool {
    &&& 0 <= m <= top()
    &&& m > 0 ==> den * (step(m - 1) + step(m)) <= 2 * num
    &&& m > 0 && m % 2 == 1 ==> den * (step(m - 1) + step(m)) < 2 * num
    &&& m < top() ==> 2 * num <= den * (step(m) + step(m + 1))
    &&& m < top() && m % 2 == 1 ==> 2 * num < den * (step(m) + step(m + 1))
}

/// The scalar with sign `negative` and magnitude pattern `m`.
pub open spec fn signed(negative: bool, m: int) -> Scalar {
    if negative {
        Scalar { bits: (0x8000_0000 + m) as u32 }
    } else {
        Scalar { bits: m as u32 }
    }
}

/// The fraction `num / den`, which counts multiples of `1 / unit()`, rounded and
/// given a sign.
pub open spec fn rounded(negative: bool, num: int, den: int) -> Scalar {
    signed(negative, choose|m: int| rounds_to(num, den, m))
}

/// `m` is the pattern nearest to the square root of `n`, on the scale of
/// [`rounds_to`].
pub open spec fn root_rounds_to(n: int, m: int) -> bool {
    let (below, above) = (step(m - 1) + step(m), step(m) + step(m + 1));
    &&& 0 <= m <= top()
    &&& m > 0 ==> below * below <= 4 * n
    &&& m > 0 && m % 2 == 1 ==> below * below < 4 * n
    &&& m < top() ==> 4 * n <= above * above
    &&& m < top() && m % 2 == 1 ==> 4 * n < above * above
}

/// The square root of `n`, rounded.
pub open spec fn rounded_root(n: int) -> Scalar {
    signed(false, choose|m: int| root_rounds_to(n, m))
}

/// The quiet NaN that invalid operations return.
pub open spec fn invalid() -> Scalar {
    Scalar { bits: 0x7fc0_0000 }
}

impl Scalar {
    /// The whole number `n`, rounded.
    pub open spec fn whole(n: int) -> Scalar {
        rounded(false, n * unit(), 1)
    }

    /// `-self`.
    pub open spec fn negation(self) -> Scalar {
        signed(!self.negative(), self.magnitude())
    }

    /// `self + other`.
    pub open spec fn sum(self, other: Scalar) -> Scalar {
        let v = self.scaled() + other.scaled();
        if self.is_nan() || other.is_nan() {
            invalid()
        } else if self.is_infinite() {
            if other.is_infinite() && self.negative() != other.negative() {
                invalid()
            } else {
                self
            }
        } else if other.is_infinite() {
            other
        } else if v == 0 {
            signed(self.negative() && other.negative(), 0)
        } else {
            rounded(v < 0, if v < 0 { -v } else { v }, 1)
        }
    }

    /// `self - other`.
    pub open spec fn difference(self, other: Scalar) -> Scalar {
        self.sum(other.negation())
    }

    /// `self * other`.
    pub open spec fn product(self, other: Scalar) -> Scalar {
        let negative = self.negative() != other.negative();
        if self.is_nan() || other.is_nan() {
            invalid()
        } else if self.is_infinite() || other.is_infinite() {
            if self.magnitude() == 0 || other.magnitude() == 0 {
                invalid()
            } else {
                signed(negative, top())
            }
        } else {
            rounded(negative, self.abs_scaled() * other.abs_scaled(), unit())
        }
    }

    /// `self / other`.
    pub open spec fn quotient(self, other: Scalar) -> Scalar {
        let negative = self.negative() != other.negative();
        if self.is_nan() || other.is_nan() {
            invalid()
        } else if self.is_infinite() {
            if other.is_infinite() {
                invalid()
            } else {
                signed(negative, top())
            }
        } else if other.is_infinite() {
            signed(negative, 0)
        } else if other.magnitude() == 0 {
            if self.magnitude() == 0 {
                invalid()
            } else {
                signed(negative, top())
            }
        } else {
            rounded(negative, self.abs_scaled() * unit(), other.abs_scaled())
        }
    }

    /// The square root.
    pub open spec fn root(self) -> Scalar {
        if self.is_nan() {
            invalid()
        } else if self.magnitude() == 0 {
            self
        } else if self.negative() {
            invalid()
        } else if self.is_infinite() {
            self
        } else {
            rounded_root(self.abs_scaled() * unit())
        }
    }

    /// The whole part of a number, towards zero. From 2^24 on every number is
    /// whole.
    pub open spec fn whole_part(self) -> Scalar {
        if self.magnitude() >= 0x4b80_0000 {
            self
        } else {
            signed(
                self.negative(),
                Scalar::whole(self.abs_scaled() / unit()).magnitude(),
            )
        }
    }

    /// What is left of a number without its whole part.
    pub open spec fn fraction_part(self) -> Scalar {
        self.difference(self.whole_part())
    }

    /// The smaller of two numbers. A NaN gives way to the other one.
    pub open spec fn lesser(self, other: Scalar) -> Scalar {
        if self.is_nan() || other.less(self) {
            other
        } else {
            self
        }
    }

    /// The larger of two numbers. A NaN gives way to the other one.
    pub open spec fn greater(self, other: Scalar) -> Scalar {
        if self.is_nan() || self.less(other) {
            other
        } else {
            self
        }
    }

    /// The number limited to the range from `lo` to `hi`. A NaN stays one.
    pub open spec fn limited(self, lo: Scalar, hi: Scalar) -> Scalar {
        if self.less(lo) {
            lo
        } else if hi.less(self) {
            hi
        } else {
            self
        }
    }
}

/// Where the fraction `num / den` lies on a scale of steps of two to the power
/// `x`: at `sig`, or between `sig` and the next step if `sticky`.
pub open spec fn located(num: int, den: int, sig: int, x: int, sticky: bool) -> bool {
    let p = weight(x) * den;
    let n = num * weight(-x);
    &&& sig * p <= n < (sig + 1) * p
    &&& sticky == (sig * p != n)
}

/// Two to the power `x`, or 1 where `x` is negative.
pub open spec fn weight(x: int) -> int {
    if x >= 0 {
        pow2(x as nat) as int
    } else {
        1
    }
}

proof fn lemma_weight_pos(x: int)
    ensures
        weight(x) > 0,
{
    if x >= 0 {
        lemma_pow2_pos(x as nat);
    }
}

/// A 24-bit count of steps of two to the power `t` is what the pattern `t * 2^23
/// + q` stands for.
proof fn lemma_step(t: int, q: int)
    requires
        0 <= t <= 254,
        0 <= q <= 0x100_0000,
        t == 0 || q >= 0x80_0000,
        t * 0x80_0000 + q <= top() + 1,
    ensures
        step(t * 0x80_0000 + q) == q * pow2(t as nat),
{
    let m = t * 0x80_0000 + q;
    let s = Scalar { bits: m as u32 };
    lemma2_to64();
    if q < 0x80_0000 {
        assert(q * pow2(0) == q);
    } else if q < 0x100_0000 {
        assert(s.exponent() == t + 1);
        assert(s.significand() == q);
    } else {
        assert(s.exponent() == t + 2);
        assert(s.significand() == 0x80_0000);
        lemma_pow2_unfold((t + 1) as nat);
        assert(0x80_0000 * (2 * pow2(t as nat)) == 0x100_0000 * pow2(t as nat));
    }
}

/// Larger patterns stand for larger values.
proof fn lemma_step_increases(m: int)
    requires
        0 <= m < top(),
    ensures
        0 <= step(m) < step(m + 1),
{
    lemma2_to64();
    if m < 0x80_0000 {
        lemma_step(0, m);
        lemma_step(0, m + 1);
        assert(m * pow2(0) == m && (m + 1) * pow2(0) == m + 1);
    } else {
        let t = m / 0x80_0000 - 1;
        let q = m % 0x80_0000 + 0x80_0000;
        assert(m == t * 0x80_0000 + q);
        lemma_step(t, q);
        lemma_step(t, q + 1);
        lemma_pow2_pos(t as nat);
        let p = pow2(t as nat) as int;
        assert(0 <= q * p < (q + 1) * p) by (nonlinear_arith)
            requires
                p > 0,
                q >= 0,
        ;
    }
}

proof fn lemma_step_monotone(a: int, b: int)
    requires
        0 <= a <= b <= top(),
    ensures
        0 <= step(a) <= step(b),
        a < b ==> step(a) < step(b),
    decreases b - a,
{
    if a < b {
        lemma_step_monotone(a, b - 1);
        lemma_step_increases(b - 1);
    } else if a < top() {
        lemma_step_increases(a);
    } else {
        lemma_step_increases(a - 1);
    }
}

/// A fraction has one nearest pattern.
pub proof fn law_rounding_is_unique(num: int, den: int, a: int, b: int)
    requires
        den > 0,
        rounds_to(num, den, a),
        rounds_to(num, den, b),
    ensures
        a == b,
{
    if a <= b {
        lemma_two_roundings(num, den, a, b);
    } else {
        lemma_two_roundings(num, den, b, a);
    }
}

proof fn lemma_two_roundings(num: int, den: int, a: int, b: int)
    requires
        den > 0,
        a <= b,
        rounds_to(num, den, a),
        rounds_to(num, den, b),
    ensures
        a == b,
{
    if a < b {
        lemma_step_monotone(a, b - 1);
        lemma_step_monotone(a + 1, b);
        let (lo, hi) = (step(a) + step(a + 1), step(b - 1) + step(b));
        if lo < hi {
            assert(den * lo < den * hi) by (nonlinear_arith)
                requires
                    den > 0,
                    lo < hi,
            ;
        } else {
            assert(a == b - 1);
        }
    }
}

/// A value that has a pattern of its own is not changed by rounding.
pub proof fn law_exact_values_are_kept(m: int, den: int)
    requires
        0 <= m < top(),
        den > 0,
    ensures
        rounds_to(den * step(m), den, m),
{
    lemma_step_increases(m);
    if m > 0 {
        lemma_step_increases(m - 1);
        let (a, b) = (step(m - 1), step(m));
        assert(den * (a + b) < 2 * (den * b)) by (nonlinear_arith)
            requires
                den > 0,
                a < b,
        ;
    }
    let (b, c) = (step(m), step(m + 1));
    assert(2 * (den * b) < den * (b + c)) by (nonlinear_arith)
        requires
            den > 0,
            b < c,
    ;
}

/// From the place of a fraction among steps of two to the power `t` to the
/// pattern it rounds to.
proof fn lemma_near_step(num: int, den: int, t: int, q: int)
    requires
        den > 0,
        0 <= t <= 253,
        0 <= q <= 0x100_0000,
        t == 0 || q >= 0x80_0000,
        (2 * q - 1) * (den * pow2(t as nat)) <= 2 * num <= (2 * q + 1) * (den * pow2(t as nat)),
        q % 2 == 1 ==> (2 * q - 1) * (den * pow2(t as nat)) < 2 * num < (2 * q + 1) * (den * pow2(
            t as nat,
        )),
        t > 0 && q == 0x80_0000 ==> q * (den * pow2(t as nat)) <= num,
        q == 0x100_0000 ==> num <= q * (den * pow2(t as nat)),
    ensures
        rounds_to(num, den, t * 0x80_0000 + q),
{
    let m = t * 0x80_0000 + q;
    let p = pow2(t as nat) as int;
    let w = den * p;
    lemma_pow2_pos(t as nat);
    assert(w > 0) by (nonlinear_arith)
        requires
            den > 0,
            p > 0,
            w == den * p,
    ;
    lemma_step(t, q);
    assert(m % 2 == q % 2);
    if m < top() {
        if q < 0x100_0000 {
            lemma_step(t, q + 1);
            assert(den * (q * p + (q + 1) * p) == (2 * q + 1) * w) by (nonlinear_arith)
                requires
                    w == den * p,
            ;
        } else {
            lemma_step(t + 1, 0x80_0001);
            lemma_pow2_unfold((t + 1) as nat);
            assert(den * (q * p + 0x80_0001 * (2 * p)) >= 2 * (q * w)) by (nonlinear_arith)
                requires
                    w == den * p,
                    w > 0,
                    q == 0x100_0000,
            ;
        }
    }
    if m > 0 {
        if t == 0 || q > 0x80_0000 {
            lemma_step(t, q - 1);
            assert(den * ((q - 1) * p + q * p) == (2 * q - 1) * w) by (nonlinear_arith)
                requires
                    w == den * p,
            ;
        } else {
            lemma_step(t - 1, 0xff_ffff);
            lemma_pow2_unfold(t as nat);
            let h = pow2((t - 1) as nat) as int;
            assert(den * (0xff_ffff * h + q * p) < 2 * (q * w)) by (nonlinear_arith)
                requires
                    w == den * p,
                    p == 2 * h,
                    q == 0x80_0000,
                    den > 0,
                    p > 0,
            ;
        }
    }
}

/// The fraction lies half a step at most from the count `q` that its place among
/// the finer steps of two to the power `x` rounds to.
proof fn lemma_round_steps(
    num: int,
    den: int,
    sig: int,
    x: int,
    sticky: bool,
    t: int,
    q: int,
)
    requires
        den > 0,
        sig >= 0,
        t >= 0,
        x < t,
        located(num, den, sig, x, sticky),
        ({
            let p = pow2((t - x) as nat) as int;
            let r = sig % p;
            q == sig / p + (if 2 * r > p || (2 * r == p && (sticky || (sig / p) % 2 == 1)) {
                1int
            } else {
                0
            })
        }),
    ensures
        (2 * q - 1) * (den * pow2(t as nat)) <= 2 * num <= (2 * q + 1) * (den * pow2(t as nat)),
        q % 2 == 1 ==> (2 * q - 1) * (den * pow2(t as nat)) < 2 * num < (2 * q + 1) * (den * pow2(
            t as nat,
        )),
        q == sig / (pow2((t - x) as nat) as int) ==> q * (den * pow2(t as nat)) <= num,
        q > sig / (pow2((t - x) as nat) as int) ==> num <= q * (den * pow2(t as nat)),
{
    let k = (t - x) as nat;
    let p = pow2(k) as int;
    lemma_pow2_pos(k);
    lemma_fundamental_div_mod(sig, p);
    lemma_mod_bound(sig, p);
    let (q0, r) = (sig / p, sig % p);
    let (a, b) = (weight(x), weight(-x));
    lemma_weight_pos(x);
    lemma_weight_pos(-x);
    let w = den * pow2(t as nat);
    let (c, n) = (a * den, num * b);
    // One coarse step is `p` fine ones.
    assert(pow2(t as nat) * b == p * a) by {
        lemma2_to64();
        if x >= 0 {
            lemma_pow2_adds(k, x as nat);
            assert(b == 1 && pow2(t as nat) == p * a);
            lemma_mul_basics(pow2(t as nat) as int);
        } else {
            lemma_pow2_adds(t as nat, (-x) as nat);
            assert(a == 1 && pow2(t as nat) * b == p);
            lemma_mul_basics(p);
        }
    }
    assert(w * b == p * c) by (nonlinear_arith)
        requires
            w == den * pow2(t as nat),
            c == a * den,
            pow2(t as nat) * b == p * a,
    ;
    assert(p % 2 == 0) by {
        lemma_pow2_unfold(k);
    }
    assert(c > 0) by (nonlinear_arith)
        requires
            c == a * den,
            a > 0,
            den > 0,
    ;
    assert(p * q0 == q0 * p) by (nonlinear_arith);
    // On the fine scale.
    let (lo, hi) = ((2 * q - 1) * p, (2 * q + 1) * p);
    assert(lo == 2 * (q * p) - p && hi == 2 * (q * p) + p) by (nonlinear_arith)
        requires
            lo == (2 * q - 1) * p,
            hi == (2 * q + 1) * p,
    ;
    assert(q == q0 + 1 ==> q * p == q0 * p + p) by (nonlinear_arith);
    assert(lo <= 2 * sig);
    assert(lo == 2 * sig ==> sticky || q % 2 == 0);
    assert(2 * sig <= hi);
    assert(sticky ==> 2 * (sig + 1) <= hi);
    assert(2 * sig == hi ==> q % 2 == 0);
    // Scaled up by the size of a fine step.
    assert(lo * c <= (2 * sig) * c && (2 * sig) * c <= hi * c) by (nonlinear_arith)
        requires
            lo <= 2 * sig <= hi,
            c > 0,
    ;
    assert(lo < 2 * sig ==> lo * c < (2 * sig) * c) by (nonlinear_arith)
        requires
            c > 0,
    ;
    assert(2 * sig < hi ==> (2 * sig) * c < hi * c) by (nonlinear_arith)
        requires
            c > 0,
    ;
    assert(2 * (sig + 1) <= hi ==> (2 * (sig + 1)) * c <= hi * c) by (nonlinear_arith)
        requires
            c > 0,
    ;
    assert((2 * sig) * c == 2 * (sig * c) && (2 * (sig + 1)) * c == 2 * ((sig + 1) * c))
        by (nonlinear_arith);
    assert(lo * c == ((2 * q - 1) * w) * b && hi * c == ((2 * q + 1) * w) * b)
        by (nonlinear_arith)
        requires
            lo == (2 * q - 1) * p,
            hi == (2 * q + 1) * p,
            w * b == p * c,
    ;
    lemma_cancel((2 * q - 1) * w, 2 * num, b);
    lemma_cancel(2 * num, (2 * q + 1) * w, b);
    assert((2 * num) * b == 2 * n) by (nonlinear_arith)
        requires
            n == num * b,
    ;
    assert((q * w) * b == (q * p) * c) by (nonlinear_arith)
        requires
            w * b == p * c,
    ;
    lemma_cancel(q * w, num, b);
    lemma_cancel(num, q * w, b);
    if q == q0 {
        assert((q * p) * c <= sig * c) by (nonlinear_arith)
            requires
                q * p <= sig,
                c > 0,
        ;
    } else {
        assert((sig + 1) * c <= (q * p) * c) by (nonlinear_arith)
            requires
                sig + 1 <= q * p,
                c > 0,
        ;
    }
}

proof fn lemma_cancel(a: int, b: int, c: int)
    by (nonlinear_arith)
    requires
        c > 0,
    ensures
        a * c <= b * c ==> a <= b,
        a * c < b * c ==> a < b,
{
}

/// A power of two.
fn pow2_wide(k: u32) -> (p: u128)
    requires
        k <= 100,
    ensures
        p == pow2(k as nat),
        p > 0,
{
    let mut p: u128 = 1;
    let mut i: u32 = 0;
    proof {
        lemma2_to64();
    }
    while i < k
        invariant
            i <= k <= 100,
            p == pow2(i as nat),
            p > 0,
        decreases k - i,
    {
        proof {
            lemma_pow2_unfold((i + 1) as nat);
            lemma_wide_bound((i + 1) as nat);
        }
        p = p * 2;
        i = i + 1;
    }
    p
}

proof fn lemma_wide_bound(k: nat)
    requires
        k <= 101,
    ensures
        0 < pow2(k) <= 0x20_0000_0000_0000_0000_0000_0000,
{
    lemma2_to64();
    lemma2_to64_rest();
    lemma_pow2_adds(64, 37);
    lemma_pow2_pos(k);
    if k < 101 {
        lemma_pow2_strictly_increases(k, 101);
    }
}

/// The number of bits that `sig` takes.
fn bit_length(sig: u128) -> (n: u32)
    requires
        0 < sig < pow2(100),
    ensures
        1 <= n <= 100,
        pow2((n - 1) as nat) <= sig < pow2(n as nat),
{
    let mut n: u32 = 1;
    let mut p: u128 = 2;
    proof {
        lemma2_to64();
    }
    while p <= sig
        invariant
            1 <= n <= 100,
            p == pow2(n as nat),
            pow2((n - 1) as nat) <= sig < pow2(100),
        decreases 100 - n,
    {
        proof {
            if n >= 100 {
                assert(false);
            }
            lemma_pow2_unfold((n + 1) as nat);
            lemma_wide_bound((n + 1) as nat);
        }
        p = p * 2;
        n = n + 1;
    }
    n
}

proof fn lemma_round_zero(num: int, den: int, sig: int, x: int, sticky: bool, n: int)
    requires
        den > 0,
        located(num, den, sig, x, sticky),
        (sig == 0 && !sticky) || (0 <= sig < pow2(n as nat) && 0 <= n < -x),
    ensures
        rounds_to(num, den, 0),
{
    lemma2_to64();
    lemma_step(0, 0);
    lemma_step(0, 1);
    let b = weight(-x);
    lemma_weight_pos(-x);
    if sig == 0 && !sticky {
        assert(0 * (weight(x) * den) == 0);
        assert(num == 0) by (nonlinear_arith)
            requires
                num * b == 0,
                b > 0,
        ;
    } else {
        let h = pow2((-x - 1) as nat) as int;
        lemma_pow2_unfold((-x) as nat);
        if n < -x - 1 {
            lemma_pow2_strictly_increases(n as nat, (-x - 1) as nat);
        }
        assert(2 * num < den) by (nonlinear_arith)
            requires
                num * (2 * h) < (sig + 1) * (1 * den),
                sig + 1 <= h,
                den > 0,
                h > 0,
        ;
    }
    assert(den * (0 + 1) == den) by (nonlinear_arith);
}

proof fn lemma_round_top(num: int, den: int, sig: int, x: int, sticky: bool, n: int)
    requires
        den > 0,
        located(num, den, sig, x, sticky),
        1 <= n <= 100,
        pow2((n - 1) as nat) <= sig,
        x + n - 24 >= 254,
    ensures
        rounds_to(num, den, top()),
{
    lemma2_to64();
    assert(step(top()) == pow2(277)) by {
        lemma_step(253, 0x100_0000);
        lemma_pow2_adds(24, 253);
    }
    lemma_step_increases(top() - 1);
    let p = pow2(x as nat) as int;
    lemma_pow2_adds((n - 1) as nat, x as nat);
    if n - 1 + x > 277 {
        lemma_pow2_strictly_increases(277, (n - 1 + x) as nat);
    }
    lemma_pow2_pos(x as nat);
    let f = pow2((n - 1) as nat) as int;
    let (a, z) = (step(top() - 1), step(top()));
    assert(den * (a + z) <= 2 * num) by (nonlinear_arith)
        requires
            sig * (p * den) <= num * 1,
            f <= sig,
            f * p >= z,
            a < z,
            den > 0,
            p > 0,
    {
        assert(sig * (p * den) >= f * (p * den));
        assert(f * (p * den) == (f * p) * den);
        assert((f * p) * den >= z * den);
    }
}

proof fn lemma_round_exact(
    num: int,
    den: int,
    sig: int,
    x: int,
    t: int,
    q: int,
    sticky: bool,
)
    requires
        den > 0,
        located(num, den, sig, x, sticky),
        !sticky,
        0 <= t <= x,
        t <= 253,
        q == sig * pow2((x - t) as nat),
        0 <= q <= 0x100_0000,
        t == 0 || q >= 0x80_0000,
    ensures
        rounds_to(num, den, t * 0x80_0000 + q),
{
    lemma2_to64();
    lemma_pow2_pos(t as nat);
    let (d, p) = (pow2((x - t) as nat) as int, pow2(t as nat) as int);
    let w = den * p;
    lemma_pow2_adds((x - t) as nat, t as nat);
    assert(weight(-x) == 1);
    assert(num == q * w) by (nonlinear_arith)
        requires
            sig * (weight(x) * den) == num * 1,
            weight(x) == d * p,
            q == sig * d,
            w == den * p,
    ;
    assert((2 * q - 1) * w < 2 * (q * w) < (2 * q + 1) * w) by (nonlinear_arith)
        requires
            w == den * p,
            den > 0,
            p > 0,
    ;
    lemma_near_step(num, den, t, q);
}

proof fn lemma_fits(sig: int, n: int, d: int)
    requires
        1 <= n,
        pow2((n - 1) as nat) <= sig < pow2(n as nat),
        0 <= d,
        n + d <= 24,
    ensures
        0 <= sig * pow2(d as nat) < 0x100_0000,
        n + d == 24 ==> sig * pow2(d as nat) >= 0x80_0000,
{
    lemma2_to64();
    let p = pow2(d as nat) as int;
    lemma_pow2_pos(d as nat);
    lemma_pow2_pos((n - 1) as nat);
    lemma_pow2_adds(n as nat, d as nat);
    lemma_pow2_adds((n - 1) as nat, d as nat);
    if n + d < 24 {
        lemma_pow2_strictly_increases((n + d) as nat, 24);
    }
    let (lo, hi) = (pow2((n - 1) as nat) as int, pow2(n as nat) as int);
    assert(lo * p <= sig * p < hi * p) by (nonlinear_arith)
        requires
            lo <= sig < hi,
            p > 0,
    ;
    assert(0 <= sig * p) by (nonlinear_arith)
        requires
            sig >= 0,
            p > 0,
    ;
}

proof fn lemma_quotient_range(sig: int, n: int, k: int)
    requires
        1 <= k <= n,
        n - k <= 24,
        pow2((n - 1) as nat) <= sig < pow2(n as nat),
    ensures
        0 <= sig / pow2(k as nat) as int <= 0xff_ffff,
        n - k == 24 ==> sig / pow2(k as nat) as int >= 0x80_0000,
{
    lemma2_to64();
    let p = pow2(k as nat) as int;
    lemma_pow2_pos(k as nat);
    lemma_pow2_adds((n - k) as nat, k as nat);
    if n - k < 24 {
        lemma_pow2_strictly_increases((n - k) as nat, 24);
    }
    lemma_div_pos_is_pos(sig, p);
    lemma_fundamental_div_mod(sig, p);
    lemma_mod_bound(sig, p);
    let q = sig / p;
    let c = pow2((n - k) as nat) as int;
    assert(q < c) by (nonlinear_arith)
        requires
            p * q + sig % p == sig,
            0 <= sig % p,
            sig < c * p,
            p > 0,
    ;
    if n - k == 24 {
        lemma_pow2_adds(23, k as nat);
        assert(q >= 0x80_0000) by (nonlinear_arith)
            requires
                p * q + sig % p == sig,
                sig % p < p,
                sig >= 0x80_0000 * p,
                p > 0,
        ;
    }
}

/// A large number takes many bits.
proof fn lemma_long(sig: int, n: int)
    requires
        1 <= n,
        sig < pow2(n as nat),
        sig >= 0x200_0000,
    ensures
        n >= 26,
{
    lemma2_to64();
    if n < 25 {
        lemma_pow2_strictly_increases(n as nat, 25);
    }
}

/// The pattern nearest to a number that lies at `sig` on a scale of steps of two
/// to the power `x`, or between `sig` and the next step if `sticky`.
fn round_magnitude(sig: u128, x: i32, sticky: bool) -> (m: u32)
    requires
        sig < pow2(100),
        -1000 <= x <= 1000,
        sticky ==> sig >= 0x200_0000,
    ensures
        forall|num: int, den: int|
            den > 0 && #[trigger] located(num, den, sig as int, x as int, sticky) ==> rounds_to(
                num,
                den,
                m as int,
            ),
{
    if sig == 0 {
        proof {
            assert forall|num: int, den: int|
                den > 0 && #[trigger] located(num, den, sig as int, x as int, sticky) implies rounds_to(
                num,
                den,
                0,
            ) by {
                lemma_round_zero(num, den, 0, x as int, sticky, 0);
            }
        }
        return 0;
    }
    let n: u32 = bit_length(sig);
    proof {
        if sticky {
            lemma_long(sig as int, n as int);
        }
    }
    let t: i32 = if x + n as i32 > 24 {
        x + n as i32 - 24
    } else {
        0
    };
    if t >= 254 {
        proof {
            assert forall|num: int, den: int|
                den > 0 && #[trigger] located(num, den, sig as int, x as int, sticky) implies rounds_to(
                num,
                den,
                top(),
            ) by {
                lemma_round_top(num, den, sig as int, x as int, sticky, n as int);
            }
        }
        return 0x7f80_0000;
    }
    if t <= x {
        let d: u32 = (x - t) as u32;
        proof {
            lemma_fits(sig as int, n as int, d as int);
        }
        let q: u128 = sig * pow2_wide(d);
        let m: u32 = t as u32 * 0x80_0000 + q as u32;
        proof {
            assert forall|num: int, den: int|
                den > 0 && #[trigger] located(num, den, sig as int, x as int, sticky) implies rounds_to(
                num,
                den,
                m as int,
            ) by {
                lemma_round_exact(num, den, sig as int, x as int, t as int, q as int, sticky);
            }
        }
        return m;
    }
    let k: u32 = (t - x) as u32;
    if k > n {
        proof {
            assert forall|num: int, den: int|
                den > 0 && #[trigger] located(num, den, sig as int, x as int, sticky) implies rounds_to(
                num,
                den,
                0,
            ) by {
                lemma_round_zero(num, den, sig as int, x as int, sticky, n as int);
            }
        }
        return 0;
    }
    let p: u128 = pow2_wide(k);
    let q0: u128 = sig / p;
    let r: u128 = sig % p;
    proof {
        lemma_wide_bound(k as nat);
        lemma_quotient_range(sig as int, n as int, k as int);
    }
    let up: bool = 2 * r > p || (2 * r == p && (sticky || q0 % 2 == 1));
    let q: u128 = if up {
        q0 + 1
    } else {
        q0
    };
    let m: u32 = t as u32 * 0x80_0000 + q as u32;
    proof {
        assert forall|num: int, den: int|
            den > 0 && #[trigger] located(num, den, sig as int, x as int, sticky) implies rounds_to(
            num,
            den,
            m as int,
        ) by {
            lemma_round_steps(num, den, sig as int, x as int, sticky, t as int, q as int);
            lemma_near_step(num, den, t as int, q as int);
        }
    }
    m
}

proof fn lemma_rounded(negative: bool, num: int, den: int, m: int)
    requires
        den > 0,
        rounds_to(num, den, m),
    ensures
        rounded(negative, num, den) == signed(negative, m),
{
    law_rounding_is_unique(num, den, m, choose|c: int| rounds_to(num, den, c));
}

fn with_sign(negative: bool, m: u32) -> (r: Scalar)
    requires
        m <= 0x7fff_ffff,
    ensures
        r == signed(negative, m as int),
{
    if negative {
        Scalar { bits: 0x8000_0000 + m }
    } else {
        Scalar { bits: m }
    }
}

impl Scalar {
    /// The significand and its shift.
    fn parts(self) -> (r: (u32, i32))
        requires
            self.is_finite(),
        ensures
            r.0 == self.significand(),
            r.1 == self.shift(),
            0 <= r.0 < 0x100_0000,
            0 <= r.1 <= 253,
            r.1 > 0 ==> r.0 >= 0x80_0000,
            r.0 == 0 <==> self.magnitude() == 0,
    {
        let m: u32 = self.abs_bits();
        let e: u32 = m / 0x80_0000;
        if e == 0 {
            (m, 0)
        } else {
            (m % 0x80_0000 + 0x80_0000, e as i32 - 1)
        }
    }

    /// The scalar nearest to `n`.
    pub fn from_u32(n: u32) -> (r: Scalar)
        ensures
            r == Scalar::whole(n as int),
    {
        proof {
            lemma_wide_bound(100);
            lemma2_to64();
            lemma_pow2_adds(64, 36);
        }
        let m: u32 = round_magnitude(n as u128, 149, false);
        proof {
            lemma_pow2_pos(149);
            assert(weight(149) * 1 == unit());
            assert((n + 1) * unit() > n * unit()) by (nonlinear_arith)
                requires
                    unit() > 0,
            ;
            assert(located(n * unit(), 1, n as int, 149, false));
            lemma_rounded(false, n * unit(), 1, m as int);
        }
        with_sign(false, m)
    }

    /// `-self`.
    pub fn neg(self) -> (r: Scalar)
        ensures
            r == self.negation(),
    {
        with_sign(self.bits < 0x8000_0000, self.abs_bits())
    }

    /// `self * other`.
    pub fn times(self, other: Scalar) -> (r: Scalar)
        ensures
            r == self.product(other),
    {
        let negative: bool = (self.bits >= 0x8000_0000) != (other.bits >= 0x8000_0000);
        let (a, b): (u32, u32) = (self.abs_bits(), other.abs_bits());
        if a > 0x7f80_0000 || b > 0x7f80_0000 {
            return Scalar { bits: 0x7fc0_0000 };
        }
        if a == 0x7f80_0000 || b == 0x7f80_0000 {
            if a == 0 || b == 0 {
                return Scalar { bits: 0x7fc0_0000 };
            }
            return with_sign(negative, 0x7f80_0000);
        }
        let (sa, ha): (u32, i32) = self.parts();
        let (sb, hb): (u32, i32) = other.parts();
        proof {
            lemma_product_place(sa as int, ha as int, sb as int, hb as int);
            lemma_wide_bound(100);
        }
        let sig: u128 = sa as u128 * sb as u128;
        let x: i32 = ha + hb - 149;
        let m: u32 = round_magnitude(sig, x, false);
        proof {
            lemma_pow2_pos(149);
            lemma_rounded(
                negative,
                self.abs_scaled() * other.abs_scaled(),
                unit(),
                m as int,
            );
        }
        with_sign(negative, m)
    }
}

proof fn lemma_product_place(sa: int, ha: int, sb: int, hb: int)
    requires
        0 <= sa < 0x100_0000,
        0 <= sb < 0x100_0000,
        0 <= ha <= 253,
        0 <= hb <= 253,
    ensures
        0 <= sa * sb < pow2(100),
        located(
            (sa * pow2(ha as nat)) * (sb * pow2(hb as nat)),
            unit(),
            sa * sb,
            ha + hb - 149,
            false,
        ),
{
    let x = ha + hb - 149;
    let (a, b, u) = (pow2(ha as nat) as int, pow2(hb as nat) as int, unit());
    let num = (sa * a) * (sb * b);
    let sig = sa * sb;
    lemma2_to64();
    lemma_pow2_adds(64, 36);
    lemma2_to64_rest();
    lemma_pow2_pos(149);
    lemma_weight_pos(x);
    assert(0 <= sa * sb <= 0x100_0000 * 0x100_0000) by (nonlinear_arith)
        requires
            0 <= sa < 0x100_0000,
            0 <= sb < 0x100_0000,
    ;
    lemma_pow2_adds(ha as nat, hb as nat);
    assert(num == sig * (a * b)) by (nonlinear_arith)
        requires
            num == (sa * a) * (sb * b),
            sig == sa * sb,
    ;
    assert(weight(x) * u == (a * b) * weight(-x)) by {
        if x >= 0 {
            lemma_pow2_adds(x as nat, 149);
        } else {
            lemma_pow2_adds((ha + hb) as nat, (-x) as nat);
        }
    }
    let p = weight(x) * u;
    assert(sig * p == num * weight(-x)) by (nonlinear_arith)
        requires
            p == (a * b) * weight(-x),
            num == sig * (a * b),
    ;
    assert(p > 0) by (nonlinear_arith)
        requires
            p == weight(x) * u,
            u > 0,
            weight(x) > 0,
    ;
    assert(sig * p < (sig + 1) * p) by (nonlinear_arith)
        requires
            p > 0,
    ;
}

impl Scalar {
    /// `self / other`.
    pub fn over(self, other: Scalar) -> (r: Scalar)
        ensures
            r == self.quotient(other),
    {
        let negative: bool = (self.bits >= 0x8000_0000) != (other.bits >= 0x8000_0000);
        let (a, b): (u32, u32) = (self.abs_bits(), other.abs_bits());
        if a > 0x7f80_0000 || b > 0x7f80_0000 {
            return Scalar { bits: 0x7fc0_0000 };
        }
        if a == 0x7f80_0000 {
            if b == 0x7f80_0000 {
                return Scalar { bits: 0x7fc0_0000 };
            }
            return with_sign(negative, 0x7f80_0000);
        }
        if b == 0x7f80_0000 {
            return with_sign(negative, 0);
        }
        if b == 0 {
            if a == 0 {
                return Scalar { bits: 0x7fc0_0000 };
            }
            return with_sign(negative, 0x7f80_0000);
        }
        let (sa, ha): (u32, i32) = self.parts();
        let (sb, hb): (u32, i32) = other.parts();
        let wide: u128 = sa as u128 * 0x4_0000_0000_0000;
        let sig: u128 = wide / sb as u128;
        let sticky: bool = wide % sb as u128 != 0;
        let x: i32 = ha - hb + 99;
        proof {
            lemma_quotient_place(sa as int, ha as int, sb as int, hb as int);
        }
        let m: u32 = round_magnitude(sig, x, sticky);
        proof {
            lemma_rounded(
                negative,
                self.abs_scaled() * unit(),
                other.abs_scaled(),
                m as int,
            );
        }
        with_sign(negative, m)
    }
}

proof fn lemma_quotient_place(sa: int, ha: int, sb: int, hb: int)
    requires
        0 <= sa < 0x100_0000,
        0 < sb < 0x100_0000,
        0 <= ha <= 253,
        0 <= hb <= 253,
    ensures
        sb * pow2(hb as nat) > 0,
        0 <= (sa * 0x4_0000_0000_0000) / sb < pow2(100),
        sa > 0 ==> (sa * 0x4_0000_0000_0000) / sb >= 0x200_0000,
        sa == 0 ==> (sa * 0x4_0000_0000_0000) % sb == 0,
        located(
            (sa * pow2(ha as nat)) * unit(),
            sb * pow2(hb as nat),
            (sa * 0x4_0000_0000_0000) / sb,
            ha - hb + 99,
            (sa * 0x4_0000_0000_0000) % sb != 0,
        ),
{
    let x = ha - hb + 99;
    let wide = sa * 0x4_0000_0000_0000;
    let (q, r) = (wide / sb, wide % sb);
    lemma_fundamental_div_mod(wide, sb);
    lemma_mod_bound(wide, sb);
    lemma_div_pos_is_pos(wide, sb);
    lemma2_to64();
    lemma2_to64_rest();
    lemma_pow2_adds(64, 36);
    assert(q <= wide) by (nonlinear_arith)
        requires
            wide == sb * q + r,
            r >= 0,
            sb >= 1,
            q >= 0,
    ;
    if sa > 0 {
        assert(q >= 0x200_0000) by (nonlinear_arith)
            requires
                wide == sb * q + r,
                r < sb,
                0 < sb < 0x100_0000,
                wide >= 0x4_0000_0000_0000,
        ;
    } else {
        lemma_small_mod(0, sb as nat);
    }
    let (a, b, u) = (pow2(ha as nat) as int, pow2(hb as nat) as int, unit());
    let (num, den) = ((sa * a) * u, sb * b);
    lemma_pow2_pos(hb as nat);
    assert(den > 0) by (nonlinear_arith)
        requires
            den == sb * b,
            sb > 0,
            b > 0,
    ;
    // One step is as large against the divisor as the widened dividend.
    let c = weight(x) * b;
    assert(c > 0 && (a * u) * weight(-x) == 0x4_0000_0000_0000 * c) by {
        lemma_pow2_adds(ha as nat, 149);
        if x >= 0 {
            lemma_pow2_adds(x as nat, hb as nat);
            lemma_pow2_adds(50, (ha + 99) as nat);
            lemma_pow2_pos((ha + 99) as nat);
        } else {
            lemma_pow2_adds((ha + 149) as nat, (-x) as nat);
            lemma_pow2_adds(50, hb as nat);
        }
    }
    let (p, n) = (weight(x) * den, num * weight(-x));
    assert(p == sb * c) by (nonlinear_arith)
        requires
            p == weight(x) * den,
            den == sb * b,
            c == weight(x) * b,
    ;
    assert(n == wide * c) by (nonlinear_arith)
        requires
            n == num * weight(-x),
            num == (sa * a) * u,
            (a * u) * weight(-x) == 0x4_0000_0000_0000 * c,
            wide == sa * 0x4_0000_0000_0000,
    ;
    assert(q * p <= n < (q + 1) * p && ((r != 0) == (q * p != n))) by (nonlinear_arith)
        requires
            p == sb * c,
            n == wide * c,
            wide == sb * q + r,
            0 <= r < sb,
            c > 0,
    {
        assert(q * p == (sb * q) * c);
        assert((q + 1) * p == (sb * q + sb) * c);
        assert(n == (sb * q) * c + r * c);
        assert(r * c < sb * c);
        assert(r > 0 ==> r * c > 0);
        assert(r == 0 ==> r * c == 0);
    }
}

impl Scalar {
    /// `self + other`.
    pub fn plus(self, other: Scalar) -> (r: Scalar)
        ensures
            r == self.sum(other),
    {
        let (na, nb): (bool, bool) = (self.bits >= 0x8000_0000, other.bits >= 0x8000_0000);
        let (a, b): (u32, u32) = (self.abs_bits(), other.abs_bits());
        if a > 0x7f80_0000 || b > 0x7f80_0000 {
            return Scalar { bits: 0x7fc0_0000 };
        }
        if a == 0x7f80_0000 {
            if b == 0x7f80_0000 && na != nb {
                return Scalar { bits: 0x7fc0_0000 };
            }
            return self;
        }
        if b == 0x7f80_0000 {
            return other;
        }
        let (sa, ha): (u32, i32) = self.parts();
        let (sb, hb): (u32, i32) = other.parts();
        if ha >= hb {
            add_aligned(na, sa, ha, nb, sb, hb)
        } else {
            add_aligned(nb, sb, hb, na, sa, ha)
        }
    }

    /// `self - other`.
    pub fn minus(self, other: Scalar) -> (r: Scalar)
        ensures
            r == self.difference(other),
    {
        self.plus(other.neg())
    }

    /// The smaller of two numbers.
    pub fn min(self, other: Scalar) -> (r: Scalar)
        ensures
            r == self.lesser(other),
    {
        if self.abs_bits() > 0x7f80_0000 || other.lt(self) {
            other
        } else {
            self
        }
    }

    /// The larger of two numbers.
    pub fn max(self, other: Scalar) -> (r: Scalar)
        ensures
            r == self.greater(other),
    {
        if self.abs_bits() > 0x7f80_0000 || self.lt(other) {
            other
        } else {
            self
        }
    }

    /// The number limited to the range from `lo` to `hi`.
    pub fn clamp(self, lo: Scalar, hi: Scalar) -> (r: Scalar)
        ensures
            r == self.limited(lo, hi),
    {
        if self.lt(lo) {
            lo
        } else if hi.lt(self) {
            hi
        } else {
            self
        }
    }
}

/// A signed significand, weighed by a power of two.
spec fn term(negative: bool, s: int, h: int) -> int {
    if negative {
        -(s * pow2(h as nat))
    } else {
        s * pow2(h as nat)
    }
}

/// The sum of two signed significands, the first of which weighs at least as
/// much as the second.
fn add_aligned(na: bool, sa: u32, ha: i32, nb: bool, sb: u32, hb: i32) -> (r: Scalar)
    requires
        0 <= sa < 0x100_0000,
        0 <= sb < 0x100_0000,
        0 <= hb <= ha <= 253,
        ha > 0 ==> sa >= 0x80_0000,
    ensures
        ({
            let v = term(na, sa as int, ha as int) + term(nb, sb as int, hb as int);
            r == if v == 0 {
                signed(na && nb, 0)
            } else {
                rounded(v < 0, if v < 0 { -v } else { v }, 1)
            }
        }),
{
    let d: u32 = (ha - hb) as u32;
    proof {
        lemma2_to64();
        lemma2_to64_rest();
        lemma_pow2_adds(64, 36);
    }
    if d < 50 {
        let p: u128 = pow2_wide(d);
        proof {
            lemma_aligned(na, sa as int, ha as int, nb, sb as int, hb as int);
            assert(p <= 0x2_0000_0000_0000) by {
                if d < 49 {
                    lemma_pow2_strictly_increases(d as nat, 49);
                }
            }
            assert(sa * p <= 0x100_0000 * 0x2_0000_0000_0000) by (nonlinear_arith)
                requires
                    0 <= sa < 0x100_0000,
                    0 <= p <= 0x2_0000_0000_0000,
            ;
        }
        let wide: u128 = sa as u128 * p;
        let low: u128 = sb as u128;
        let (negative, sig): (bool, u128) = if na == nb {
            (na, wide + low)
        } else if wide >= low {
            (na, wide - low)
        } else {
            (nb, low - wide)
        };
        if sig == 0 {
            return with_sign(na && nb, 0);
        }
        let m: u32 = round_magnitude(sig, hb, false);
        proof {
            let v = term(na, sa as int, ha as int) + term(nb, sb as int, hb as int);
            let n = if v < 0 { -v } else { v };
            lemma_exact_place(sig as int, hb as int);
            assert(n == sig * pow2(hb as nat));
            lemma_rounded(negative, n, 1, m as int);
        }
        return with_sign(negative, m);
    }
    let sticky: bool = sb != 0;
    let whole: u128 = sa as u128 * 0x400_0000;
    let sig: u128 = if sticky && na != nb {
        whole - 1
    } else {
        whole
    };
    let m: u32 = round_magnitude(sig, ha - 26, sticky);
    proof {
        let v = term(na, sa as int, ha as int) + term(nb, sb as int, hb as int);
        let n = if v < 0 { -v } else { v };
        lemma_far_apart(na, sa as int, ha as int, nb, sb as int, hb as int);
        assert(located(n, 1, sig as int, ha - 26, sticky));
        lemma_rounded(na, n, 1, m as int);
    }
    with_sign(na, m)
}

/// Both terms on the finer of their two scales.
proof fn lemma_aligned(na: bool, sa: int, ha: int, nb: bool, sb: int, hb: int)
    requires
        0 <= sa,
        0 <= sb,
        0 <= hb <= ha,
    ensures
        ({
            let w = pow2(hb as nat) as int;
            let wide = sa * pow2((ha - hb) as nat);
            &&& term(na, sa, ha) == (if na { -(wide * w) } else { wide * w })
            &&& (wide + sb) * w == wide * w + sb * w
            &&& (wide - sb) * w == wide * w - sb * w
            &&& (sb - wide) * w == sb * w - wide * w
            &&& wide >= 0
        }),
{
    let (w, p) = (pow2(hb as nat) as int, pow2((ha - hb) as nat) as int);
    lemma_pow2_adds((ha - hb) as nat, hb as nat);
    let wide = sa * p;
    assert(sa * (p * w) == wide * w) by (nonlinear_arith)
        requires
            wide == sa * p,
    ;
    lemma_mul_nonnegative(sa, p);
    assert((wide + sb) * w == wide * w + sb * w && (wide - sb) * w == wide * w - sb * w && (sb
        - wide) * w == sb * w - wide * w) by (nonlinear_arith);
}

proof fn lemma_exact_place(sig: int, h: int)
    requires
        0 <= h,
    ensures
        located(sig * pow2(h as nat), 1, sig, h, false),
        sig > 0 ==> sig * pow2(h as nat) > 0,
        sig == 0 ==> sig * pow2(h as nat) == 0,
{
    lemma2_to64();
    let p = pow2(h as nat) as int;
    lemma_pow2_pos(h as nat);
    assert(weight(h) * 1 == p && weight(-h) == 1);
    assert(sig * p < (sig + 1) * p && (sig > 0 ==> sig * p > 0)) by (nonlinear_arith)
        requires
            p > 0,
    ;
    assert(sig == 0 ==> sig * p == 0) by (nonlinear_arith);
}

/// A term that is so much smaller than the other only shows that the sum is not
/// exact.
proof fn lemma_far_apart(na: bool, sa: int, ha: int, nb: bool, sb: int, hb: int)
    requires
        0x80_0000 <= sa,
        0 <= sb < 0x100_0000,
        0 <= hb,
        hb + 50 <= ha,
    ensures
        ({
            let v = term(na, sa, ha) + term(nb, sb, hb);
            let sig = sa * 0x400_0000 - if sb != 0 && na != nb { 1int } else { 0 };
            &&& v != 0
            &&& v < 0 <==> na
            &&& located(if v < 0 { -v } else { v }, 1, sig, ha - 26, sb != 0)
        }),
{
    lemma2_to64();
    let x = ha - 26;
    let (p, e) = (pow2(x as nat) as int, sb * pow2(hb as nat));
    lemma_pow2_adds(26, x as nat);
    lemma_pow2_adds(24, hb as nat);
    lemma_pow2_pos(hb as nat);
    lemma_pow2_pos(x as nat);
    if hb + 24 < x {
        lemma_pow2_strictly_increases((hb + 24) as nat, x as nat);
    }
    let b = pow2(hb as nat) as int;
    assert(0 <= e < p && (sb > 0 ==> e > 0)) by (nonlinear_arith)
        requires
            e == sb * b,
            0 <= sb < 0x100_0000,
            b > 0,
            0x100_0000 * b <= p,
    ;
    assert(sb == 0 ==> e == 0) by (nonlinear_arith)
        requires
            e == sb * b,
    ;
    let wide = sa * 0x400_0000;
    assert(sa * (0x400_0000 * p) == wide * p) by (nonlinear_arith)
        requires
            wide == sa * 0x400_0000,
    ;
    assert(wide * p >= p) by (nonlinear_arith)
        requires
            wide >= 1,
            p > 0,
    ;
    assert((wide + 1) * p == wide * p + p && (wide - 1) * p == wide * p - p) by (nonlinear_arith);
    assert(weight(x) * 1 == p && weight(-x) == 1);
}

/// The whole part of a square root.
fn whole_root(n: u128) -> (r: u128)
    requires
        n < 0x1_0000_0000_0000_0000_0000,
    ensures
        r < 0x100_0000_0000,
        r * r <= n < (r + 1) * (r + 1),
{
    let mut r: u128 = 0;
    let mut b: u128 = 0x100_0000_0000;
    proof {
        lemma2_to64();
        lemma2_to64_rest();
    }
    let ghost mut k: nat = 40;
    while b > 1
        invariant
            b == pow2(k),
            k <= 40,
            1 <= b,
            r + b <= 0x100_0000_0000,
            r * r <= n < (r + b) * (r + b),
        decreases b,
    {
        proof {
            lemma2_to64();
            lemma_pow2_unfold(k);
            k = (k - 1) as nat;
            lemma_pow2_pos(k);
        }
        b = b / 2;
        let c: u128 = r + b;
        assert(c * c <= 0x100_0000_0000 * 0x100_0000_0000) by (nonlinear_arith)
            requires
                0 <= c <= 0x100_0000_0000,
        ;
        if c * c <= n {
            r = c;
        }
    }
    r
}

/// Facts that hold of every fraction strictly between two steps hold of the root
/// that lies there.
proof fn lemma_root_between(n: int, r: int, y: int, m: int)
    requires
        y >= 0,
        r >= 0,
        ({
            let p = pow2(y as nat) as int;
            (r * p) * (r * p) < n < ((r + 1) * p) * ((r + 1) * p)
        }),
        forall|num: int, den: int|
            den > 0 && #[trigger] located(num, den, r, y, true) ==> rounds_to(num, den, m),
    ensures
        root_rounds_to(n, m),
{
    lemma2_to64();
    let p = pow2(y as nat) as int;
    lemma_pow2_pos(y as nat);
    let (lo, hi) = (r * p, (r + 1) * p);
    assert(hi == lo + p && lo >= 0) by (nonlinear_arith)
        requires
            lo == r * p,
            hi == (r + 1) * p,
            r >= 0,
            p > 0,
    ;
    assert(r * (p * 2) == 2 * lo && (r + 1) * (p * 2) == 2 * hi) by (nonlinear_arith)
        requires
            lo == r * p,
            hi == (r + 1) * p,
    ;
    assert(r * (p * 4) == 4 * lo && (r + 1) * (p * 4) == 4 * hi) by (nonlinear_arith)
        requires
            lo == r * p,
            hi == (r + 1) * p,
    ;
    assert(located(lo + hi, 2, r, y, true));
    if m > 0 {
        lemma_step_monotone(m - 1, m);
        let c = step(m - 1) + step(m);
        assert(c <= lo + hi);
        if c > 2 * lo {
            assert(located(c, 2, r, y, true));
            assert(located(2 * c - 1, 4, r, y, true));
        }
        assert(c <= 2 * lo);
        assert(c * c < 4 * n) by (nonlinear_arith)
            requires
                0 <= c <= 2 * lo,
                lo * lo < n,
        ;
    }
    if m < top() {
        lemma_step_monotone(m, m + 1);
        let c = step(m) + step(m + 1);
        assert(lo + hi <= c);
        if c < 2 * hi {
            assert(located(c, 2, r, y, true));
            assert(located(2 * c + 1, 4, r, y, true));
        }
        assert(c >= 2 * hi);
        assert(4 * n < c * c) by (nonlinear_arith)
            requires
                c >= 2 * hi,
                hi >= 0,
                n < hi * hi,
        ;
    }
}

proof fn lemma_root_at(n: int, r: int, y: int, m: int)
    requires
        y >= 0,
        r >= 0,
        n == (r * pow2(y as nat)) * (r * pow2(y as nat)),
        rounds_to(r * pow2(y as nat), 1, m),
    ensures
        root_rounds_to(n, m),
{
    let v = r * pow2(y as nat);
    lemma_mul_nonnegative(r, pow2(y as nat) as int);
    if m > 0 {
        lemma_step_monotone(m - 1, m);
        let c = step(m - 1) + step(m);
        assert(1 * c == c) by (nonlinear_arith);
        assert(c * c <= 4 * (v * v) && (c < 2 * v ==> c * c < 4 * (v * v))) by (nonlinear_arith)
            requires
                0 <= c <= 2 * v,
        ;
    }
    if m < top() {
        lemma_step_monotone(m, m + 1);
        let c = step(m) + step(m + 1);
        assert(1 * c == c) by (nonlinear_arith);
        assert(4 * (v * v) <= c * c && (c > 2 * v ==> c * c > 4 * (v * v))) by (nonlinear_arith)
            requires
                0 <= 2 * v <= c,
        ;
    }
}

/// A square root has one nearest pattern.
pub proof fn law_root_is_unique(n: int, a: int, b: int)
    requires
        root_rounds_to(n, a),
        root_rounds_to(n, b),
    ensures
        a == b,
{
    if a <= b {
        lemma_two_roots(n, a, b);
    } else {
        lemma_two_roots(n, b, a);
    }
}

proof fn lemma_two_roots(n: int, a: int, b: int)
    requires
        a <= b,
        root_rounds_to(n, a),
        root_rounds_to(n, b),
    ensures
        a == b,
{
    if a < b {
        lemma_step_monotone(a, b - 1);
        lemma_step_monotone(a + 1, b);
        let (lo, hi) = (step(a) + step(a + 1), step(b - 1) + step(b));
        assert(lo < hi ==> lo * lo < hi * hi) by (nonlinear_arith)
            requires
                0 <= lo <= hi,
        ;
        assert(lo < hi || a == b - 1);
    }
}

impl Scalar {
    /// The square root.
    pub fn sqrt(self) -> (r: Scalar)
        ensures
            r == self.root(),
    {
        let a: u32 = self.abs_bits();
        if a > 0x7f80_0000 {
            return Scalar { bits: 0x7fc0_0000 };
        }
        if a == 0 {
            return self;
        }
        if self.bits >= 0x8000_0000 {
            return Scalar { bits: 0x7fc0_0000 };
        }
        if a == 0x7f80_0000 {
            return self;
        }
        let (s, h): (u32, i32) = self.parts();
        let odd: bool = h % 2 == 0;
        let wide: u128 = if odd {
            s as u128 * 0x8_0000_0000_0000
        } else {
            s as u128 * 0x4_0000_0000_0000
        };
        let y: i32 = if odd {
            (h + 98) / 2
        } else {
            (h + 99) / 2
        };
        let q: u128 = whole_root(wide);
        proof {
            lemma2_to64();
            lemma2_to64_rest();
            lemma_pow2_adds(64, 36);
            assert(q >= 0x200_0000) by (nonlinear_arith)
                requires
                    wide < (q + 1) * (q + 1),
                    wide >= 0x4_0000_0000_0000,
            ;
            assert(q * q < (q + 1) * (q + 1)) by (nonlinear_arith);
        }
        assert(q * q <= 0x100_0000_0000 * 0x100_0000_0000) by (nonlinear_arith)
            requires
                0 <= q < 0x100_0000_0000,
        ;
        let sticky: bool = q * q != wide;
        let m: u32 = round_magnitude(q, y, sticky);
        proof {
            let n = self.abs_scaled() * unit();
            let p = pow2(y as nat) as int;
            lemma_pow2_pos(y as nat);
            lemma_pow2_adds(y as nat, y as nat);
            lemma_pow2_adds(h as nat, 149);
            if odd {
                lemma_pow2_adds(51, (y + y) as nat);
            } else {
                lemma_pow2_adds(50, (y + y) as nat);
            }
            assert(n == wide * (p * p)) by (nonlinear_arith)
                requires
                    n == (s * pow2(h as nat)) * unit(),
                    pow2(h as nat) * unit() == (if odd {
                        0x8_0000_0000_0000int
                    } else {
                        0x4_0000_0000_0000
                    }) * (p * p),
                    wide == s * (if odd { 0x8_0000_0000_0000int } else { 0x4_0000_0000_0000 }),
            ;
            let (lo, hi) = (q * p, (q + 1) * p);
            assert(lo * lo == (q * q) * (p * p) && hi * hi == ((q + 1) * (q + 1)) * (p * p))
                by (nonlinear_arith)
                requires
                    lo == q * p,
                    hi == (q + 1) * p,
            ;
            assert(p * p > 0) by (nonlinear_arith)
                requires
                    p > 0,
            ;
            let (a, b, c) = (q * q, wide as int, (q + 1) * (q + 1));
            assert((a < b ==> a * (p * p) < b * (p * p)) && b * (p * p) < c * (p * p))
                by (nonlinear_arith)
                requires
                    p * p > 0,
                    b < c,
            ;
            if sticky {
                lemma_root_between(n, q as int, y as int, m as int);
            } else {
                lemma_exact_place(q as int, y as int);
                lemma_root_at(n, q as int, y as int, m as int);
            }
            law_root_is_unique(n, m as int, choose|c: int| root_rounds_to(n, c));
        }
        with_sign(false, m)
    }
}

/// A value kept by rounding, as a scalar.
proof fn lemma_kept(negative: bool, m: int, num: int, den: int)
    requires
        0 <= m < top(),
        den > 0,
        num == den * step(m),
    ensures
        rounded(negative, num, den) == signed(negative, m),
{
    law_exact_values_are_kept(m, den);
    lemma_rounded(negative, num, den, m);
}

/// A finite number is the pattern of its magnitude with its sign.
pub proof fn lemma_step_of(a: Scalar)
    requires
        a.is_finite(),
    ensures
        step(a.magnitude()) == a.abs_scaled(),
        signed(a.negative(), a.magnitude()) == a,
        a.abs_scaled() >= 0,
        a.abs_scaled() == 0 <==> a.magnitude() == 0,
{
    lemma2_to64();
    lemma_step(0, 0);
    assert(0 * pow2(0) == 0) by (nonlinear_arith);
    if a.magnitude() > 0 {
        lemma_step_monotone(0, a.magnitude());
    }
}

/// Only the zeros have the value 0.
pub proof fn lemma_scaled_sign(a: Scalar)
    requires
        a.is_finite(),
    ensures
        a.abs_scaled() >= 0,
        a.abs_scaled() == 0 <==> a.magnitude() == 0,
{
    lemma_step_of(a);
}

/// What the pattern of 1 stands for.
pub proof fn lemma_one()
    ensures
        (Scalar { bits: 0x3f80_0000 }).is_finite(),
        (Scalar { bits: 0x3f80_0000 }).abs_scaled() == unit(),
        (Scalar { bits: 0x3f80_0000 }).scaled() == unit(),
        unit() > 0,
{
    let one = Scalar { bits: 0x3f80_0000 };
    lemma2_to64();
    lemma_pow2_adds(23, 126);
    lemma_pow2_pos(149);
    assert(one.significand() == 0x80_0000 && one.shift() == 126);
}

/// Every whole number up to 2^24 is a scalar, so none of them is rounded.
pub proof fn law_small_numbers_are_exact(n: int)
    requires
        0 <= n <= 0x100_0000,
    ensures
        Scalar::whole(n).is_finite(),
        !Scalar::whole(n).negative(),
        Scalar::whole(n).scaled() == n * unit(),
        n > 0 ==> Scalar::whole(n).magnitude() > 0,
        n == 0 ==> Scalar::whole(n).magnitude() == 0,
{
    lemma2_to64();
    lemma_pow2_pos(149);
    if n == 0 {
        lemma_step(0, 0);
        assert(0 * pow2(0) == 0 && 0 * unit() == 0) by (nonlinear_arith);
        lemma_kept(false, 0, 0, 1);
    } else {
        assert(n * 0x100_0000 >= 0x100_0000);
        let (t, q) = lemma_normal(n, 149, 24);
        let m = t * 0x80_0000 + q;
        lemma_step(t, q);
        lemma_kept(false, m, n * unit(), 1);
        lemma_step_of(Scalar { bits: m as u32 });
    }
}

/// A number of up to 24 bits, shifted left until it takes 24 bits.
proof fn lemma_normal(n: int, x: int, room: int) -> (r: (int, int))
    requires
        0 < n <= 0x100_0000,
        0 <= room <= x,
        n * pow2(room as nat) >= 0x100_0000,
    ensures
        x - room <= r.0 <= x,
        0x80_0000 <= r.1 <= 0x100_0000,
        r.1 * pow2(r.0 as nat) == n * pow2(x as nat),
    decreases room,
{
    if n >= 0x80_0000 {
        (x, n)
    } else {
        lemma2_to64();
        if room == 0 {
            assert(n * pow2(0) == n) by (nonlinear_arith)
                requires
                    pow2(0) == 1,
            ;
        }
        lemma_pow2_unfold(x as nat);
        lemma_pow2_unfold(room as nat);
        let (a, b) = (pow2((x - 1) as nat) as int, pow2((room - 1) as nat) as int);
        assert(n * (2 * a) == (2 * n) * a && n * (2 * b) == (2 * n) * b) by (nonlinear_arith);
        lemma_normal(2 * n, x - 1, room - 1)
    }
}

/// Adding a zero to a number other than zero changes nothing.
pub proof fn law_adding_zero(a: Scalar, zero: Scalar)
    requires
        a.is_finite(),
        zero.magnitude() == 0,
    ensures
        a.sum(zero).same(a),
        zero.sum(a).same(a),
        a.magnitude() > 0 ==> a.sum(zero) == a && zero.sum(a) == a,
{
    lemma_step_of(a);
    lemma_step_of(zero);
    if a.magnitude() > 0 {
        lemma_kept(a.negative(), a.magnitude(), a.abs_scaled(), 1);
    }
}

/// Multiplying by one, or dividing by it, changes nothing.
pub proof fn law_times_one(a: Scalar)
    requires
        a.is_finite(),
    ensures
        a.product(Scalar { bits: 0x3f80_0000 }) == a,
        (Scalar { bits: 0x3f80_0000 }).product(a) == a,
        a.quotient(Scalar { bits: 0x3f80_0000 }) == a,
{
    lemma_one();
    lemma_step_of(a);
    lemma_mul_is_commutative(a.abs_scaled(), unit());
    lemma_kept(a.negative(), a.magnitude(), a.abs_scaled() * unit(), unit());
}

/// A finite number times zero is a zero.
pub proof fn law_times_zero(a: Scalar, zero: Scalar)
    requires
        a.is_finite(),
        zero.magnitude() == 0,
    ensures
        a.product(zero).magnitude() == 0,
        zero.product(a).magnitude() == 0,
{
    lemma2_to64();
    lemma_pow2_pos(149);
    lemma_step_of(zero);
    lemma_mul_by_zero_is_zero(a.abs_scaled());
    lemma_mul_by_zero_is_zero(unit());
    lemma_kept(a.negative() != zero.negative(), 0, 0, unit());
    lemma_kept(zero.negative() != a.negative(), 0, 0, unit());
}

/// A finite number minus itself is zero.
pub proof fn law_minus_itself(a: Scalar)
    requires
        a.is_finite(),
    ensures
        a.difference(a) == (Scalar { bits: 0 }),
{
    assert(a.negation().abs_scaled() == a.abs_scaled());
}

/// Sums and products do not depend on the order of their operands.
pub proof fn law_operands_commute(a: Scalar, b: Scalar)
    ensures
        a.sum(b) == b.sum(a),
        a.product(b) == b.product(a),
{
    lemma_mul_is_commutative(a.abs_scaled(), b.abs_scaled());
}

impl Scalar {
    /// The number without its sign.
    pub fn abs(self) -> (r: Scalar)
        ensures
            r == signed(false, self.magnitude()),
    {
        with_sign(false, self.abs_bits())
    }

    /// What is left of a number without its whole part.
    pub fn fract(self) -> (r: Scalar)
        ensures
            r == self.fraction_part(),
    {
        if self.abs_bits() >= 0x4b80_0000 {
            return self.minus(self);
        }
        let n: u32 = self.abs().trunc_u32();
        let whole: Scalar = Scalar::from_u32(n);
        proof {
            lemma_below_2_24(self);
            law_small_numbers_are_exact(n as int);
        }
        self.minus(with_sign(self.bits >= 0x8000_0000, whole.abs_bits()))
    }
}

proof fn lemma_below_2_24(a: Scalar)
    requires
        a.magnitude() < 0x4b80_0000,
    ensures
        0 <= a.abs_scaled() / unit() < 0x100_0000,
        signed(false, a.magnitude()).abs_scaled() == a.abs_scaled(),
        signed(false, a.magnitude()).is_finite(),
        !signed(false, a.magnitude()).negative(),
{
    lemma_step_of(a);
    lemma_step_monotone(a.magnitude(), 0x4b80_0000);
    lemma2_to64();
    lemma_step(149, 0x100_0000);
    lemma_pow2_pos(149);
    let v = a.abs_scaled();
    lemma_div_pos_is_pos(v, unit());
    lemma_fundamental_div_mod(v, unit());
    lemma_mod_bound(v, unit());
    let (q, u) = (v / unit(), unit());
    assert(q < 0x100_0000) by (nonlinear_arith)
        requires
            u * q + v % u == v,
            0 <= v % u,
            v < 0x100_0000 * u,
            u > 0,
    ;
}

/// The fraction is at or above the lower midpoint of `m`, or on it where `m` is
/// even.
spec fn reaches_pattern(num: int, den: int, m: int) -> bool {
    let mid = den * (step(m - 1) + step(m));
    m == 0 || mid < 2 * num || (mid == 2 * num && m % 2 == 0)
}

/// Every fraction has a nearest pattern.
pub proof fn law_rounding_exists(num: int, den: int)
    requires
        num >= 0,
        den > 0,
    ensures
        exists|m: int| rounds_to(num, den, m),
{
    lemma_rounding_below(num, den, top());
}

proof fn lemma_rounding_below(num: int, den: int, m: int)
    requires
        num >= 0,
        den > 0,
        0 <= m <= top(),
        m == top() || !reaches_pattern(num, den, m + 1),
    ensures
        exists|r: int| rounds_to(num, den, r),
    decreases m,
{
    if reaches_pattern(num, den, m) {
        assert(rounds_to(num, den, m));
    } else {
        lemma_rounding_below(num, den, m - 1);
    }
}

/// Larger numbers do not round to smaller patterns.
proof fn lemma_rounding_monotone(a: int, b: int, ma: int, mb: int)
    requires
        a <= b,
        rounds_to(a, 1, ma),
        rounds_to(b, 1, mb),
    ensures
        ma <= mb,
{
    if ma > mb {
        lemma_step_monotone(mb, ma - 1);
        lemma_step_monotone(mb + 1, ma);
        let (lo, hi) = (step(mb) + step(mb + 1), step(ma - 1) + step(ma));
        assert(1 * lo == lo && 1 * hi == hi) by (nonlinear_arith);
        assert(ma - 1 == mb);
    }
}

/// Adding a number that is not negative never makes a number smaller, and
/// subtracting it never makes one larger.
pub proof fn law_sums_are_monotone(a: Scalar, b: Scalar)
    requires
        a.is_finite(),
        b.is_finite(),
        !b.negative(),
    ensures
        a.at_most(a.sum(b)),
        a.difference(b).at_most(a),
{
    lemma_step_of(a);
    lemma_step_of(b);
    lemma_step_of(b.negation());
    lemma_kept(false, a.magnitude(), a.abs_scaled(), 1);
    law_exact_values_are_kept(a.magnitude(), 1);
    let n = a.abs_scaled();
    assert(1 * step(a.magnitude()) == n) by (nonlinear_arith)
        requires
            step(a.magnitude()) == n,
    ;
    let up = a.scaled() + b.scaled();
    let down = a.scaled() + b.negation().scaled();
    assert(a.negation().negation() == a);
    let nu = if up < 0 { -up } else { up };
    let nd = if down < 0 { -down } else { down };
    law_rounding_exists(nu, 1);
    law_rounding_exists(nd, 1);
    let mu = choose|m: int| rounds_to(nu, 1, m);
    let md = choose|m: int| rounds_to(nd, 1, m);
    if nu <= n {
        lemma_rounding_monotone(nu, n, mu, a.magnitude());
    } else {
        lemma_rounding_monotone(n, nu, a.magnitude(), mu);
    }
    if nd <= n {
        lemma_rounding_monotone(nd, n, md, a.magnitude());
    } else {
        lemma_rounding_monotone(n, nd, a.magnitude(), md);
    }
}

/// A larger fraction does not round to a smaller pattern.
proof fn lemma_fractions_monotone(a: int, b: int, den: int, ma: int, mb: int)
    requires
        a <= b,
        den > 0,
        rounds_to(a, den, ma),
        rounds_to(b, den, mb),
    ensures
        ma <= mb,
{
    if ma > mb {
        lemma_step_monotone(mb, ma - 1);
        lemma_step_monotone(mb + 1, ma);
        let (lo, hi) = (step(mb) + step(mb + 1), step(ma - 1) + step(ma));
        if lo < hi {
            assert(den * lo < den * hi) by (nonlinear_arith)
                requires
                    den > 0,
                    lo < hi,
            ;
        } else {
            assert(ma - 1 == mb);
        }
    }
}

/// A number times one between -1 and 1 is not larger than it was, and has the sign
/// that the two signs give.
pub proof fn law_times_a_part(a: Scalar, part: Scalar)
    requires
        a.is_finite(),
        part.magnitude() <= 0x3f80_0000,
    ensures
        a.product(part).magnitude() <= a.magnitude(),
        a.product(part).negative() == (a.negative() != part.negative()),
{
    lemma_one();
    lemma_step_of(a);
    lemma_step_of(part);
    lemma_step_of(Scalar { bits: 0x3f80_0000 });
    lemma_step_monotone(part.magnitude(), 0x3f80_0000);
    let (x, y, u) = (a.abs_scaled(), part.abs_scaled(), unit());
    assert(x * y <= u * x && x * y >= 0) by (nonlinear_arith)
        requires
            0 <= x,
            0 <= y <= u,
    ;
    let n = x * y;
    law_rounding_exists(n, u);
    law_exact_values_are_kept(a.magnitude(), u);
    let m = choose|m: int| rounds_to(n, u, m);
    lemma_fractions_monotone(n, u * x, u, m, a.magnitude());
}

/// A number times one of at least 1 or at most -1 is not smaller than it was, and
/// has the sign that the two signs give.
pub proof fn law_times_more(a: Scalar, more: Scalar)
    requires
        a.is_finite(),
        more.is_finite(),
        more.magnitude() >= 0x3f80_0000,
    ensures
        !a.product(more).is_nan(),
        a.product(more).magnitude() >= a.magnitude(),
        a.product(more).negative() == (a.negative() != more.negative()),
{
    lemma_one();
    lemma_step_of(a);
    lemma_step_of(more);
    lemma_step_of(Scalar { bits: 0x3f80_0000 });
    lemma_step_monotone(0x3f80_0000, more.magnitude());
    let (x, y, u) = (a.abs_scaled(), more.abs_scaled(), unit());
    assert(x * y >= u * x && u * x >= 0) by (nonlinear_arith)
        requires
            0 <= x,
            0 <= u <= y,
    ;
    let n = x * y;
    law_rounding_exists(n, u);
    law_exact_values_are_kept(a.magnitude(), u);
    let m = choose|m: int| rounds_to(n, u, m);
    lemma_fractions_monotone(u * x, n, u, a.magnitude(), m);
}

/// A quotient has the sign that the two signs give.
pub proof fn law_sign_of_quotient(a: Scalar, b: Scalar)
    requires
        !a.is_nan(),
        b.is_finite(),
        b.magnitude() > 0,
    ensures
        !a.quotient(b).is_nan(),
        a.quotient(b).negative() == (a.negative() != b.negative()),
{
    if a.is_finite() {
        lemma_step_of(a);
        lemma_step_of(b);
        lemma_pow2_pos(149);
        let (x, u) = (a.abs_scaled(), unit());
        assert(x * u >= 0) by (nonlinear_arith)
            requires
                x >= 0,
                u > 0,
        ;
        let (n, d) = (x * u, b.abs_scaled());
        law_rounding_exists(n, d);
        let m = choose|m: int| rounds_to(n, d, m);
        assert(0 <= m <= top());
    }
}

/// One and a part of it make at least 1 and at most 2, and what is left of one
/// without the part is between 0 and 1.
pub proof fn law_one_and_a_part(part: Scalar)
    requires
        part.magnitude() <= 0x3f80_0000,
        !part.negative(),
    ensures
        ({
            let one = Scalar { bits: 0x3f80_0000 };
            &&& 0x3f80_0000 <= one.sum(part).magnitude() <= 0x4000_0000
            &&& !one.sum(part).negative()
            &&& one.difference(part).magnitude() <= 0x3f80_0000
            &&& !one.difference(part).negative()
        }),
{
    let (one, two) = (Scalar { bits: 0x3f80_0000 }, Scalar { bits: 0x4000_0000 });
    lemma_one();
    lemma_step_of(one);
    lemma_step_of(two);
    lemma_step_of(part);
    lemma_step_of(part.negation());
    lemma_step_monotone(part.magnitude(), 0x3f80_0000);
    lemma2_to64();
    lemma_pow2_adds(23, 127);
    lemma_pow2_adds(149, 1);
    assert(two.significand() == 0x80_0000 && two.shift() == 127);
    let (up, down) = (one.scaled() + part.scaled(), one.scaled() + part.negation().scaled());
    law_exact_values_are_kept(0x3f80_0000, 1);
    law_exact_values_are_kept(0x4000_0000, 1);
    assert(1 * step(0x3f80_0000) == unit() && 1 * step(0x4000_0000) == 2 * unit())
        by (nonlinear_arith)
        requires
            step(0x3f80_0000) == unit(),
            step(0x4000_0000) == 2 * unit(),
    ;
    law_rounding_exists(up, 1);
    let mu = choose|m: int| rounds_to(up, 1, m);
    lemma_rounding_monotone(unit(), up, 0x3f80_0000, mu);
    lemma_rounding_monotone(up, 2 * unit(), mu, 0x4000_0000);
    if down > 0 {
        law_rounding_exists(down, 1);
        let md = choose|m: int| rounds_to(down, 1, m);
        lemma_rounding_monotone(down, unit(), md, 0x3f80_0000);
    }
}

/// A number divided by one that is not smaller is between -1 and 1, and zero is
/// still zero.
pub proof fn law_part_of_more(a: Scalar, whole: Scalar)
    requires
        whole.is_finite(),
        whole.magnitude() > 0,
        a.magnitude() <= whole.magnitude(),
    ensures
        a.quotient(whole).magnitude() <= 0x3f80_0000,
        a.quotient(whole).negative() == (a.negative() != whole.negative()),
        a.magnitude() == 0 ==> a.quotient(whole).magnitude() == 0,
{
    lemma_one();
    lemma_step_of(a);
    lemma_step_of(whole);
    lemma_step_of(Scalar { bits: 0x3f80_0000 });
    lemma_step_monotone(a.magnitude(), whole.magnitude());
    lemma_step(0, 0);
    lemma2_to64();
    let (x, d, u) = (a.abs_scaled(), whole.abs_scaled(), unit());
    let n = x * u;
    assert(0 <= n <= d * u) by (nonlinear_arith)
        requires
            n == x * u,
            0 <= x <= d,
            u > 0,
    ;
    assert(x == 0 ==> n == d * 0) by (nonlinear_arith)
        requires
            n == x * u,
    ;
    assert(0 * pow2(0) == 0) by (nonlinear_arith);
    law_rounding_exists(n, d);
    law_exact_values_are_kept(0x3f80_0000, d);
    law_exact_values_are_kept(0, d);
    let m = choose|m: int| rounds_to(n, d, m);
    lemma_fractions_monotone(n, d * u, d, m, 0x3f80_0000);
    if x == 0 {
        law_rounding_is_unique(n, d, m, 0);
    }
}

/// A number up to 64 divided by one from 1 / 64 on is not larger than 4096.
pub proof fn law_quotient_is_bounded(a: Scalar, b: Scalar)
    requires
        a.magnitude() <= 0x4280_0000,
        0x3c80_0000 <= b.magnitude(),
        b.is_finite(),
    ensures
        a.quotient(b).magnitude() <= 0x4580_0000,
{
    lemma_one();
    lemma_step_of(a);
    lemma_step_of(b);
    lemma_step_of(Scalar { bits: 0x3f80_0000 });
    lemma_step_monotone(a.magnitude(), 0x4280_0000);
    lemma_step_monotone(0x3c80_0000, b.magnitude());
    // 64, 1 / 64 and 4096 as multiples of 2^120.
    let p = pow2(120) as int;
    lemma_pow2_pos(120);
    lemma2_to64();
    lemma_step(132, 0x80_0000);
    lemma_step(120, 0x80_0000);
    lemma_step(126, 0x80_0000);
    lemma_step(138, 0x80_0000);
    lemma_pow2_adds(120, 12);
    lemma_pow2_adds(120, 6);
    lemma_pow2_adds(120, 18);
    let (x, d, u, w) = (a.abs_scaled(), b.abs_scaled(), unit(), step(0x4580_0000));
    assert(step(0x4280_0000) == 0x80_0000 * (p * 4096));
    assert(step(0x3c80_0000) == 0x80_0000 * p);
    assert(u == 0x80_0000 * (p * 64));
    assert(w == 0x80_0000 * (p * 262144));
    let n = x * u;
    let e = 0x80_0000 * p;
    assert(0 <= n <= d * w) by (nonlinear_arith)
        requires
            n == x * u,
            0 <= x <= 4096 * e,
            0 < e <= d,
            u == 64 * e,
            w == 262144 * e,
    ;
    law_rounding_exists(n, d);
    law_exact_values_are_kept(0x4580_0000, d);
    let m = choose|m: int| rounds_to(n, d, m);
    lemma_fractions_monotone(n, d * w, d, m, 0x4580_0000);
}

/// Whether `y` is as near to the fraction `num / den` as rounding brings it: within
/// one part in 2^24 of the fraction, or half a step of the smallest numbers.
pub open spec fn near(y: int, num: int, den: int) -> bool {
    &&& 0x100_0000 * (den * y - num) <= num + 0x80_0000 * den
    &&& 0x100_0000 * (num - den * y) <= num + 0x80_0000 * den
}

/// Rounding moves a fraction by one part in 2^24 of it at most, or by half a step of
/// the smallest numbers.
pub proof fn law_rounding_is_near(num: int, den: int, m: int)
    requires
        num >= 0,
        den > 0,
        rounds_to(num, den, m),
        m < top(),
    ensures
        near(step(m), num, den),
{
    lemma2_to64();
    if m < 0x80_0000 {
        lemma_step(0, m);
        lemma_step(0, m + 1);
        assert(m * pow2(0) == m && (m + 1) * pow2(0) == m + 1);
        assert(2 * num <= 2 * (den * m) + den) by (nonlinear_arith)
            requires
                2 * num <= den * (m + (m + 1)),
        ;
        assert(den * step(m) == den * m);
        if m > 0 {
            lemma_step(0, m - 1);
            assert((m - 1) * pow2(0) == m - 1);
            assert(2 * (den * m) - den <= 2 * num) by (nonlinear_arith)
                requires
                    den * ((m - 1) + m) <= 2 * num,
            ;
        } else {
            lemma_mul_by_zero_is_zero(den);
        }
    } else {
        let t = m / 0x80_0000 - 1;
        let q = m % 0x80_0000 + 0x80_0000;
        assert(m == t * 0x80_0000 + q);
        lemma_step(t, q);
        lemma_step(t, q + 1);
        lemma_pow2_pos(t as nat);
        let p = pow2(t as nat) as int;
        let (dp, x) = (den * p, den * (q * p));
        assert(x == q * dp && dp >= 1 && x >= 0x80_0000 * dp && 2 * num <= 2 * x + dp)
            by (nonlinear_arith)
            requires
                dp == den * p,
                x == den * (q * p),
                den > 0,
                p > 0,
                q >= 0x80_0000,
                2 * num <= den * (q * p + (q + 1) * p),
        ;
        assert(den * step(m) == x);
        if q > 0x80_0000 {
            lemma_step(t, q - 1);
            assert(m - 1 == t * 0x80_0000 + (q - 1));
            assert(2 * x - dp <= 2 * num && x - dp >= 0x80_0000 * dp) by (nonlinear_arith)
                requires
                    dp == den * p,
                    x == den * (q * p),
                    den > 0,
                    p > 0,
                    q >= 0x80_0001,
                    den * ((q - 1) * p + q * p) <= 2 * num,
            ;
        } else if t > 0 {
            lemma_step(t - 1, 0xff_ffff);
            assert(m - 1 == (t - 1) * 0x80_0000 + 0xff_ffff);
            lemma_pow2_unfold(t as nat);
            let h = pow2((t - 1) as nat) as int;
            let dh = den * h;
            assert(dp == 2 * dh && x == 0x100_0000 * dh && 0x1ff_ffff * dh <= 2 * num)
                by (nonlinear_arith)
                requires
                    p == 2 * h,
                    dh == den * h,
                    dp == den * p,
                    x == den * (0x80_0000 * p),
                    den * (0xff_ffff * h + 0x80_0000 * p) <= 2 * num,
            ;
        } else {
            lemma_step(0, 0x7f_ffff);
            assert(0x7f_ffff * pow2(0) == 0x7f_ffff && 0x80_0000 * pow2(0) == 0x80_0000);
            assert(x == 0x80_0000 * den && 0xff_ffff * den <= 2 * num) by (nonlinear_arith)
                requires
                    x == den * (q * p),
                    p == 1,
                    q == 0x80_0000,
                    den * (0x7f_ffff + 0x80_0000) <= 2 * num,
            ;
        }
    }
}

/// A rounded fraction that is finite is near it.
proof fn lemma_rounded_is_near(negative: bool, num: int, den: int)
    requires
        num >= 0,
        den > 0,
        rounded(negative, num, den).is_finite(),
    ensures
        rounded(negative, num, den).negative() == negative,
        rounded(negative, num, den).abs_scaled() >= 0,
        near(rounded(negative, num, den).abs_scaled(), num, den),
{
    law_rounding_exists(num, den);
    let m = choose|m: int| rounds_to(num, den, m);
    let r = rounded(negative, num, den);
    assert(r == signed(negative, m) && r.magnitude() == m);
    lemma_step_of(r);
    law_rounding_is_near(num, den, m);
}

/// The sum of two numbers is near the exact one, unless it is too large.
pub proof fn law_sum_is_near(a: Scalar, b: Scalar)
    requires
        a.is_finite(),
        b.is_finite(),
        a.sum(b).is_finite(),
    ensures
        ({
            let (v, r) = (a.scaled() + b.scaled(), a.sum(b).scaled());
            if v >= 0 {
                r >= 0 && near(r, v, 1)
            } else {
                r <= 0 && near(-r, -v, 1)
            }
        }),
{
    let v = a.scaled() + b.scaled();
    if v == 0 {
        lemma_step_of(a.sum(b));
    } else if v > 0 {
        lemma_rounded_is_near(false, v, 1);
    } else {
        lemma_rounded_is_near(true, -v, 1);
    }
}

/// The product of two numbers is near the exact one, unless it is too large.
pub proof fn law_product_is_near(a: Scalar, b: Scalar)
    requires
        a.is_finite(),
        b.is_finite(),
        a.product(b).is_finite(),
    ensures
        a.product(b).negative() == (a.negative() != b.negative()),
        a.product(b).abs_scaled() >= 0,
        near(a.product(b).abs_scaled(), a.abs_scaled() * b.abs_scaled(), unit()),
{
    lemma_one();
    lemma_step_of(a);
    lemma_step_of(b);
    lemma_mul_nonnegative(a.abs_scaled(), b.abs_scaled());
    lemma_rounded_is_near(
        a.negative() != b.negative(),
        a.abs_scaled() * b.abs_scaled(),
        unit(),
    );
}

/// The quotient of two numbers is near the exact one, unless it is too large.
pub proof fn law_quotient_is_near(a: Scalar, b: Scalar)
    requires
        a.is_finite(),
        b.is_finite(),
        b.magnitude() > 0,
        a.quotient(b).is_finite(),
    ensures
        a.quotient(b).negative() == (a.negative() != b.negative()),
        a.quotient(b).abs_scaled() >= 0,
        near(a.quotient(b).abs_scaled(), a.abs_scaled() * unit(), b.abs_scaled()),
{
    lemma_one();
    lemma_step_of(a);
    lemma_step_of(b);
    lemma_mul_nonnegative(a.abs_scaled(), unit());
    lemma_rounded_is_near(a.negative() != b.negative(), a.abs_scaled() * unit(), b.abs_scaled());
}

/// A number divided by itself is 1.
pub proof fn law_quotient_by_itself(a: Scalar)
    requires
        a.is_finite(),
        a.magnitude() > 0,
    ensures
        a.quotient(a) == (Scalar { bits: 0x3f80_0000 }),
{
    lemma_one();
    lemma_step_of(a);
    lemma_step_of(Scalar { bits: 0x3f80_0000 });
    lemma_kept(false, 0x3f80_0000, a.abs_scaled() * unit(), a.abs_scaled());
}

/// A whole number from 1 on that 32 bits hold is finite as a scalar, and at least 1.
pub proof fn law_counts_are_finite(n: int)
    requires
        1 <= n <= 0xffff_ffff,
    ensures
        Scalar::whole(n).is_finite(),
        !Scalar::whole(n).negative(),
        Scalar::whole(n).magnitude() >= 0x3f80_0000,
        Scalar::whole(n).abs_scaled() >= unit(),
{
    lemma_one();
    let one = Scalar { bits: 0x3f80_0000 };
    let most = Scalar { bits: 0x4f80_0000 };
    lemma_step_of(one);
    lemma_step_of(most);
    // 2^32, as the pattern `most`.
    lemma2_to64();
    lemma_pow2_pos(149);
    lemma_step(158, 0x80_0000);
    lemma_pow2_adds(149, 9);
    let u = unit();
    assert(step(0x4f80_0000) == 0x1_0000_0000 * u) by (nonlinear_arith)
        requires
            step(0x4f80_0000) == 0x80_0000 * pow2(158),
            pow2(158) == pow2(149) * 512,
            u == pow2(149),
    ;
    let v = n * u;
    assert(u <= v <= 0x1_0000_0000 * u) by (nonlinear_arith)
        requires
            v == n * u,
            1 <= n <= 0xffff_ffff,
            u > 0,
    ;
    law_exact_values_are_kept(0x3f80_0000, 1);
    law_exact_values_are_kept(0x4f80_0000, 1);
    law_rounding_exists(v, 1);
    let m = choose|m: int| rounds_to(v, 1, m);
    assert(1 * step(0x3f80_0000) == u && 1 * step(0x4f80_0000) == 0x1_0000_0000 * u);
    lemma_rounding_monotone(u, v, 0x3f80_0000, m);
    lemma_rounding_monotone(v, 0x1_0000_0000 * u, m, 0x4f80_0000);
    let r = Scalar::whole(n);
    assert(r == signed(false, m) && r.magnitude() == m);
    lemma_step_of(r);
    lemma_step_monotone(0x3f80_0000, m);
}

/// Rounding does not carry a fraction past a number that has a pattern of its own.
pub proof fn law_rounding_stays_within(negative: bool, num: int, den: int, m: int)
    requires
        num >= 0,
        den > 0,
        0 <= m < top(),
    ensures
        !rounded(negative, num, den).is_nan(),
        rounded(negative, num, den).negative() == negative,
        num <= den * step(m) ==> rounded(negative, num, den).magnitude() <= m,
        den * step(m) <= num ==> m <= rounded(negative, num, den).magnitude(),
{
    law_rounding_exists(num, den);
    law_exact_values_are_kept(m, den);
    let r = choose|r: int| rounds_to(num, den, r);
    if num <= den * step(m) {
        lemma_fractions_monotone(num, den * step(m), den, r, m);
    }
    if den * step(m) <= num {
        lemma_fractions_monotone(den * step(m), num, den, m, r);
    }
}

/// The square root of a square is what was squared.
pub proof fn law_root_of_a_square(s: Scalar, t: Scalar)
    requires
        s.is_finite() && !s.negative(),
        t.is_finite() && !t.negative(),
        s.magnitude() > 0 && t.magnitude() > 0,
        s.abs_scaled() * unit() == t.abs_scaled() * t.abs_scaled(),
    ensures
        s.root() == t,
{
    let m = t.magnitude();
    let (a, n) = (step(m), s.abs_scaled() * unit());
    lemma_step_of(t);
    lemma_step_of(s);
    lemma_step_increases(m - 1);
    lemma_step_increases(m);
    let (below, above) = (step(m - 1) + a, a + step(m + 1));
    assert(below * below < 4 * n && 4 * n < above * above) by (nonlinear_arith)
        requires
            n == a * a,
            0 <= below < 2 * a,
            2 * a < above,
    ;
    assert(root_rounds_to(n, m));
    let r = choose|r: int| root_rounds_to(n, r);
    law_root_is_unique(n, m, r);
}

} // verus!
