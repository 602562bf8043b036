//! Layer pixels as the GPU keeps them: binary16 channels, little-endian.

use crate::scalar::{lemma_abs_scaled_monotone, shifted_one, unit, Scalar};
use vstd::arithmetic::div_mod::*;
use vstd::arithmetic::mul::*;
use vstd::arithmetic::power2::*;
use vstd::prelude::*;

verus! {

/// The sign bit of a binary16 pattern.
pub open spec fn half_negative(h: u16) -> bool {
    h >= 0x8000
}

/// A binary16 pattern without its sign bit.
pub open spec fn half_magnitude(h: u16) -> int {
    if h >= 0x8000 {
        h - 0x8000
    } else {
        h as int
    }
}

pub open spec fn half_is_nan(h: u16) -> bool {
    half_magnitude(h) > 0x7c00
}

/// A NaN without the quiet bit.
pub open spec fn half_is_signalling(h: u16) -> bool {
    0x7c00 < half_magnitude(h) < 0x7e00
}

/// The absolute value of the finite binary16 pattern of magnitude `m`, as a
/// multiple of the smallest positive binary16 value, `2^-24`.
pub open spec fn half_steps(m: int) -> int {
    if m < 0x400 {
        m
    } else {
        (m % 0x400 + 0x400) * pow2((m / 0x400 - 1) as nat)
    }
}

/// What one step of [`half_steps`] weighs on the scale of [`Scalar::scaled`].
pub open spec fn step_weight() -> int {
    pow2(125) as int
}

/// `s` holds the value of `h` exactly: the same number with the same sign. A NaN keeps
/// its sign and its payload behind the quiet bit, which is set.
pub open spec fn widens(h: u16, s: Scalar) -> bool {
    if half_is_nan(h) {
        &&& s.negative() == half_negative(h)
        &&& s.magnitude() == 0x7fc0_0000 + half_magnitude(h) % 0x200 * 0x2000
    } else {
        &&& s.negative() == half_negative(h)
        &&& if half_magnitude(h) == 0x7c00 {
            s.is_infinite()
        } else {
            s.is_finite() && s.abs_scaled() == half_steps(half_magnitude(h)) * step_weight()
        }
    }
}

/// How far the finite binary16 magnitude `m` is from the finite scalar `s`, signs
/// aside.
pub open spec fn half_distance(s: Scalar, m: int) -> int {
    let d = half_steps(m) * step_weight() - s.abs_scaled();
    if d < 0 {
        -d
    } else {
        d
    }
}

/// `h` is the binary16 value nearest to `s`, the even one of two equally near
/// ones: infinite from 65520 on, with the sign of `s`. A NaN keeps its sign and the
/// leading nine bits of its payload behind the quiet bit, which is set.
pub open spec fn narrows(s: Scalar, h: u16) -> bool {
    if s.is_nan() {
        &&& half_negative(h) == s.negative()
        &&& half_magnitude(h) == 0x7e00 + s.magnitude() / 0x2000 % 0x200
    } else {
        &&& half_negative(h) == s.negative()
        &&& if s.is_infinite() || s.abs_scaled() >= 65520 * unit() {
            half_magnitude(h) == 0x7c00
        } else {
            &&& half_magnitude(h) < 0x7c00
            &&& forall|m: int|
                0 <= m < 0x7c00 && m != half_magnitude(h) ==> {
                    ||| half_distance(s, half_magnitude(h)) < #[trigger] half_distance(s, m)
                    ||| half_distance(s, half_magnitude(h)) == half_distance(s, m)
                        && half_magnitude(h) % 2 == 0
                }
        }
    }
}

/// The `i`-th little-endian binary16 pattern of a byte buffer.
pub open spec fn half_at(bytes: Seq<u8>, i: int) -> u16 {
    (bytes[2 * i] + 256 * bytes[2 * i + 1]) as u16
}

/// `px` are the channels that the bytes encode, a stray last byte aside.
pub open spec fn unpacks(bytes: Seq<u8>, px: Seq<Scalar>) -> bool {
    &&& px.len() == bytes.len() / 2
    &&& forall|i: int| 0 <= i < px.len() ==> widens(half_at(bytes, i), #[trigger] px[i])
}

/// The bytes encode the channels `px`, each rounded to binary16.
pub open spec fn packs(px: Seq<Scalar>, bytes: Seq<u8>) -> bool {
    &&& bytes.len() == 2 * px.len()
    &&& forall|i: int| 0 <= i < px.len() ==> narrows(#[trigger] px[i], half_at(bytes, i))
}

/// A binary16 pattern as a scalar, without loss.
pub fn widen(h: u16) -> (s: Scalar)
    ensures
        widens(h, s),
{
    let m: u32 = if h >= 0x8000 {
        (h - 0x8000) as u32
    } else {
        h as u32
    };
    let a: Scalar = if m >= 0x7c00 {
        // Infinity, or a quiet NaN with the payload kept.
        if m == 0x7c00 {
            Scalar::from_bits(0x7f80_0000)
        } else if m < 0x7e00 {
            Scalar::from_bits(0x7fc0_0000 + (m - 0x7c00) * 0x2000)
        } else {
            Scalar::from_bits(0x7fc0_0000 + (m - 0x7e00) * 0x2000)
        }
    } else if m == 0 {
        let z = Scalar::zero();
        assert(z.abs_scaled() == 0) by {
            assert(0 * pow2(0) == 0);
        }
        assert(0 * step_weight() == 0);
        z
    } else if m < 0x400 {
        Scalar::assemble(m, 125)
    } else {
        let e: u32 = m / 0x400 - 1;
        proof {
            lemma_pow2_adds(e as nat, 125);
            lemma_mul_is_associative(m as int % 0x400 + 0x400, pow2(e as nat) as int, step_weight());
        }
        Scalar::assemble(m % 0x400 + 0x400, e + 125)
    };
    if h >= 0x8000 {
        a.with_sign()
    } else {
        a
    }
}

/// `n / p` rounded to the nearest integer, ties to even.
fn divide_to_even(n: u32, p: u32) -> (q: u32)
    requires
        0 < p <= 0x200_0000,
        n <= 0x100_0000,
    ensures
        q <= n / p + 1,
        n / p <= q,
        forall|k: int|
            k != q ==> {
                ||| gap(n as int, p as int, q as int) < #[trigger] gap(n as int, p as int, k)
                ||| gap(n as int, p as int, q as int) == gap(n as int, p as int, k) && q % 2 == 0
            },
{
    let d: u32 = n / p;
    let r: u32 = n % p;
    let q: u32 = if 2 * r > p || (2 * r == p && d % 2 == 1) {
        d + 1
    } else {
        d
    };
    proof {
        lemma_fundamental_div_mod(n as int, p as int);
        assert forall|k: int| k != q implies {
            ||| gap(n as int, p as int, q as int) < #[trigger] gap(n as int, p as int, k)
            ||| gap(n as int, p as int, q as int) == gap(n as int, p as int, k) && q % 2 == 0
        } by {
            lemma_gap(d as int, r as int, p as int, k);
            lemma_gap(d as int, r as int, p as int, q as int);
        }
    }
    q
}

/// How far the `k`-th multiple of `p` is from `n`.
spec fn gap(n: int, p: int, k: int) -> int {
    if k * p < n {
        n - k * p
    } else {
        k * p - n
    }
}

proof fn lemma_gap(d: int, r: int, p: int, k: int)
    requires
        0 <= r < p,
    ensures
        ({
            let n = p * d + r;
            &&& k == d ==> gap(n, p, k) == r
            &&& k == d + 1 ==> gap(n, p, k) == p - r
            &&& k < d ==> gap(n, p, k) >= p + r
            &&& k > d + 1 ==> gap(n, p, k) >= 2 * p - r
        }),
{
    let n = p * d + r;
    assert(k == d ==> k * p == p * d) by (nonlinear_arith);
    assert(k == d + 1 ==> k * p == p * d + p) by (nonlinear_arith);
    assert(k < d ==> k * p <= p * d - p) by (nonlinear_arith)
        requires
            p > 0,
    ;
    assert(k > d + 1 ==> k * p >= p * d + 2 * p) by (nonlinear_arith)
        requires
            p > 0,
    ;
}

/// The binary16 pattern nearest to a scalar.
pub fn narrow(s: Scalar) -> (h: u16)
    ensures
        narrows(s, h),
{
    let m: u32 = s.abs_bits();
    let a: u16 = if m > 0x7f80_0000 {
        // A quiet NaN with the leading payload bits kept.
        (0x7e00 + (m - 0x7f80_0000) / 0x2000 % 0x200) as u16
    } else {
        // The bit pattern of 65520.
        let edge = Scalar { bits: 0x477f_f000 };
        proof {
            lemma_edge(edge);
            if s.is_finite() {
                lemma_abs(s, edge);
            }
        }
        if m >= 0x477f_f000 {
            0x7c00
        } else {
            narrow_magnitude(s)
        }
    };
    if s.bits >= 0x8000_0000 {
        a + 0x8000
    } else {
        a
    }
}

/// The magnitude of the binary16 value nearest to a scalar below 65520.
fn narrow_magnitude(s: Scalar) -> (h: u16)
    requires
        s.magnitude() < 0x477f_f000,
    ensures
        h < 0x7c00,
        forall|m: int|
            0 <= m < 0x7c00 && m != h ==> {
                ||| half_distance(s, h as int) < #[trigger] half_distance(s, m)
                ||| half_distance(s, h as int) == half_distance(s, m) && h % 2 == 0
            },
{
    let m: u32 = s.abs_bits();
    let e: u32 = m / 0x80_0000;
    let sig: u32 = if e == 0 {
        m
    } else {
        m % 0x80_0000 + 0x80_0000
    };
    let sh: u32 = if e == 0 {
        0
    } else {
        e - 1
    };
    proof {
        lemma2_to64();
    }
    // One step of the result weighs `2^(125 + j)`, and `2^k` significands.
    let j: u32 = if sh >= 112 {
        sh - 112
    } else {
        0
    };
    let k: u32 = 125 + j - sh;
    let q: u32 = if k > 25 {
        0
    } else {
        proof {
            if k < 25 {
                lemma_pow2_strictly_increases(k as nat, 25);
            }
        }
        let p: u32 = shifted_one(k) as u32;
        divide_to_even(sig, p)
    };
    proof {
        let pk = pow2(k as nat) as int;
        lemma_pow2_pos(k as nat);
        if k > 25 {
            lemma_pow2_strictly_increases(25, k as nat);
            assert forall|n: int| n != q && n >= 0 implies gap(sig as int, pk, q as int)
                < #[trigger] gap(sig as int, pk, n) by {
                assert(n * pk >= pk) by (nonlinear_arith)
                    requires
                        n >= 1,
                        pk > 0,
                ;
                assert(0 * pk == 0);
            }
        } else if k == 13 {
            assert(pk == 0x2000);
            assert(gap(sig as int, pk, 1023) >= sig - 1023 * 0x2000);
            assert(gap(sig as int, pk, 2047) == gap(sig as int, 0x2000, 2047));
            assert(gap(sig as int, pk, 2048) == gap(sig as int, 0x2000, 2048));
            assert(1024 <= q <= 2048);
            assert(j == 29 ==> sig < 0xff_f000);
            assert(j == 29 ==> q < 2048);
        } else {
            if 14 < k {
                lemma_pow2_strictly_increases(14, k as nat);
            }
            assert(sig as int / pk < 1024) by (nonlinear_arith)
                requires
                    0 <= sig < 0x100_0000,
                    pk >= 0x4000,
            ;
        }
        assert forall|n: int| 0 <= n < 0x7c00 && n != j * 0x400 + q implies {
            ||| half_distance(s, j * 0x400 + q) < #[trigger] half_distance(s, n)
            ||| half_distance(s, j * 0x400 + q) == half_distance(s, n) && (j * 0x400 + q) % 2 == 0
        } by {
            lemma_nearest(s, j as int, k as int, q as int, n);
        }
    }
    (j * 0x400 + q) as u16
}

/// A rounded quotient of the significand is the nearest binary16 value.
proof fn lemma_nearest(s: Scalar, j: int, k: int, q: int, m: int)
    requires
        s.is_finite(),
        0 <= j <= 29,
        s.shift() + k == 125 + j,
        13 <= k,
        j > 0 ==> s.significand() >= 0x80_0000 && k == 13,
        j > 0 ==> q >= 1024,
        0 <= q <= 2048,
        0 <= m < 0x7c00,
        m != j * 0x400 + q,
        forall|n: int|
            n >= 0 && n != q ==> {
                ||| gap(s.significand(), pow2(k as nat) as int, q) < #[trigger] gap(
                    s.significand(),
                    pow2(k as nat) as int,
                    n,
                )
                ||| gap(s.significand(), pow2(k as nat) as int, q) == gap(
                    s.significand(),
                    pow2(k as nat) as int,
                    n,
                ) && q % 2 == 0
            },
    ensures
        ({
            let h = j * 0x400 + q;
            ||| half_distance(s, h) < half_distance(s, m)
            ||| half_distance(s, h) == half_distance(s, m) && h % 2 == 0
        }),
{
    let sig = s.significand();
    let p = pow2(k as nat) as int;
    let w = pow2(s.shift() as nat) as int;
    lemma_pow2_pos(k as nat);
    lemma_pow2_pos(s.shift() as nat);
    lemma2_to64();
    if 13 < k {
        lemma_pow2_strictly_increases(13, k as nat);
    }
    let h = j * 0x400 + q;
    let n = m - j * 0x400;
    lemma_multiple(s, j, k, q);
    let g = gap(sig, p, q);
    if j == 0 && n <= 2048 || 1024 <= n <= 2048 {
        lemma_multiple(s, j, k, n);
        let g2 = gap(sig, p, n);
        assert(g < g2 ==> g * w < g2 * w) by (nonlinear_arith)
            requires
                w > 0,
        ;
    } else if n > 2048 {
        lemma_multiple(s, j, k, 2048);
        let g2 = gap(sig, p, 2048);
        assert(g <= g2);
        assert(g * w <= g2 * w) by (nonlinear_arith)
            requires
                w > 0,
                g <= g2,
        ;
        lemma_half_steps_increase(j * 0x400 + 2048, m);
        let (a, b) = (half_steps(j * 0x400 + 2048), half_steps(m));
        assert(a * step_weight() < b * step_weight()) by (nonlinear_arith)
            requires
                a < b,
                step_weight() > 0,
        ;
        assert(2048 * p >= sig) by (nonlinear_arith)
            requires
                p >= 0x2000,
                sig < 0x100_0000,
        ;
        assert((2048 * p) * w >= sig * w) by (nonlinear_arith)
            requires
                2048 * p >= sig,
                w > 0,
        ;
    } else {
        lemma_multiple(s, j, k, 1024);
        let g2 = gap(sig, p, 1024);
        assert(g <= g2);
        assert(g * w <= g2 * w) by (nonlinear_arith)
            requires
                w > 0,
                g <= g2,
        ;
        lemma_half_steps_increase(m, j * 0x400 + 1024);
        let (a, b) = (half_steps(j * 0x400 + 1024), half_steps(m));
        assert(b * step_weight() < a * step_weight()) by (nonlinear_arith)
            requires
                b < a,
                step_weight() > 0,
        ;
        assert((1024 * p) * w <= sig * w) by (nonlinear_arith)
            requires
                1024 * p <= sig,
                w > 0,
        ;
    }
}

/// Distances to the binary16 values of one binade are gaps between multiples.
proof fn lemma_multiple(s: Scalar, j: int, k: int, n: int)
    requires
        s.is_finite(),
        0 <= j <= 29,
        k >= 0,
        s.shift() + k == 125 + j,
        j == 0 ==> 0 <= n <= 2048,
        j > 0 ==> 1024 <= n <= 2048,
    ensures
        half_steps(j * 0x400 + n) * step_weight() == (n * pow2(k as nat)) * pow2(
            s.shift() as nat,
        ),
        half_distance(s, j * 0x400 + n) == gap(s.significand(), pow2(k as nat) as int, n) * pow2(
            s.shift() as nat,
        ),
        step_weight() > 0,
{
    let p = pow2(k as nat) as int;
    let w = pow2(s.shift() as nat) as int;
    let sig = s.significand();
    lemma_pow2_pos(125);
    lemma_pow2_pos(s.shift() as nat);
    lemma_pow2_adds(k as nat, s.shift() as nat);
    lemma_pow2_adds(j as nat, 125);
    lemma2_to64();
    let pj = pow2(j as nat) as int;
    let steps = half_steps(j * 0x400 + n);
    assert(steps == n * pj) by {
        let m = j * 0x400 + n;
        if n == 2048 {
            lemma_pow2_unfold((j + 1) as nat);
            assert(m / 0x400 == j + 2 && m % 0x400 == 0);
            assert(0x400 * (2 * pj) == 2048 * pj);
        } else if n >= 1024 {
            assert(m / 0x400 == j + 1 && m % 0x400 == n - 1024);
        } else {
            assert(n * pj == n) by (nonlinear_arith)
                requires
                    pj == 1,
            ;
        }
    }
    assert((n * pj) * step_weight() == n * (pj * step_weight())) by (nonlinear_arith);
    assert((n * p) * w == n * (p * w)) by (nonlinear_arith);
    assert((n * p - sig) * w == (n * p) * w - sig * w) by (nonlinear_arith);
    assert((sig - n * p) * w == sig * w - (n * p) * w) by (nonlinear_arith);
    assert(n * p >= sig ==> (n * p - sig) * w >= 0) by (nonlinear_arith)
        requires
            w > 0,
    ;
    assert(n * p < sig ==> (sig - n * p) * w >= 0) by (nonlinear_arith)
        requires
            w > 0,
    ;
}

/// 65520 and its bit pattern.
proof fn lemma_edge(edge: Scalar)
    requires
        edge.bits == 0x477f_f000,
    ensures
        edge.is_finite(),
        edge.abs_scaled() == 65520 * unit(),
{
    assert(edge.exponent() == 142);
    assert(edge.significand() == 0xff_f000);
    lemma_pow2_adds(8, 141);
    lemma2_to64();
    assert(0xff_f000 * pow2(141) == 65520 * (0x100 * pow2(141)));
}

proof fn lemma_abs(a: Scalar, b: Scalar)
    requires
        a.is_finite(),
        b.is_finite(),
    ensures
        a.abs_scaled() >= b.abs_scaled() <==> a.magnitude() >= b.magnitude(),
{
    lemma_abs_scaled_monotone(a, b);
    lemma_abs_scaled_monotone(b, a);
}

/// Read the channels of a layer buffer.
pub fn f16_bytes_to_f32(bytes: &[u8]) -> (px: Vec<Scalar>)
    ensures
        unpacks(bytes@, px@),
{
    let len: usize = bytes.len();
    let n: usize = len / 2;
    let mut px: Vec<Scalar> = Vec::new();
    let mut i: usize = 0;
    while i < n
        invariant
            len == bytes@.len(),
            n == len / 2,
            i <= n,
            px@.len() == i,
            forall|k: int| 0 <= k < i ==> widens(half_at(bytes@, k), #[trigger] px@[k]),
        decreases n - i,
    {
        px.push(widen(bytes[2 * i] as u16 + 256 * bytes[2 * i + 1] as u16));
        i = i + 1;
    }
    px
}

/// Write channels as a layer buffer.
pub fn f32_to_f16_bytes(px: &[Scalar]) -> (bytes: Vec<u8>)
    ensures
        packs(px@, bytes@),
{
    let mut bytes: Vec<u8> = Vec::new();
    let mut i: usize = 0;
    while i < px.len()
        invariant
            i <= px@.len(),
            bytes@.len() == 2 * i,
            forall|k: int| 0 <= k < i ==> narrows(#[trigger] px@[k], half_at(bytes@, k)),
        decreases px@.len() - i,
    {
        let h: u16 = narrow(px[i]);
        let ghost before = bytes@;
        bytes.push((h % 256) as u8);
        bytes.push((h / 256) as u8);
        proof {
            assert forall|k: int| 0 <= k < i + 1 implies narrows(
                #[trigger] px@[k],
                half_at(bytes@, k),
            ) by {
                if k < i {
                    assert(half_at(bytes@, k) == half_at(before, k));
                }
            }
        }
        i = i + 1;
    }
    bytes
}

/// Decode the whole of a layer buffer and write it back: the buffer is the same,
/// byte for byte, so an edit leaves the pixels that it does not touch alone.
/// A NaN comes back quiet, so the buffer holds no other.
pub proof fn law_layer_bytes_survive(bytes: Seq<u8>, px: Seq<Scalar>, back: Seq<u8>)
    requires
        bytes.len() % 2 == 0,
        forall|i: int|
            0 <= i < bytes.len() / 2 ==> !half_is_signalling(#[trigger] half_at(bytes, i)),
        unpacks(bytes, px),
        packs(px, back),
    ensures
        back == bytes,
{
    assert forall|k: int| 0 <= k < bytes.len() implies back[k] == bytes[k] by {
        let i = k / 2;
        assert(widens(half_at(bytes, i), px[i]));
        assert(narrows(px[i], half_at(back, i)));
        lemma_narrow_widened(half_at(bytes, i), px[i], half_at(back, i));
        assert(k == 2 * i || k == 2 * i + 1);
    }
    assert(back =~= bytes);
}

proof fn lemma_narrow_widened(h: u16, s: Scalar, g: u16)
    requires
        !half_is_signalling(h),
        widens(h, s),
        narrows(s, g),
    ensures
        g == h,
{
    let m = half_magnitude(h);
    if m < 0x7c00 {
        lemma_half_steps_bound(m);
        lemma_pow2_adds(24, 125);
        lemma2_to64();
        lemma_pow2_pos(125);
        assert(half_steps(m) * step_weight() < 65520 * (0x100_0000 * step_weight()))
            by (nonlinear_arith)
            requires
                half_steps(m) <= 65504 * 0x100_0000,
                step_weight() > 0,
        ;
        assert(half_distance(s, m) == 0);
        if half_magnitude(g) != m {
            let n = half_magnitude(g);
            assert(half_distance(s, n) == 0);
            assert(half_steps(n) == half_steps(m)) by (nonlinear_arith)
                requires
                    half_steps(n) * step_weight() == half_steps(m) * step_weight(),
                    step_weight() > 0,
            ;
            if n < m {
                lemma_half_steps_increase(n, m);
            } else {
                lemma_half_steps_increase(m, n);
            }
        }
    }
}

proof fn lemma_half_steps_bound(m: int)
    requires
        0 <= m < 0x7c00,
    ensures
        0 <= half_steps(m) <= 65504 * 0x100_0000,
{
    if m >= 0x400 {
        let e = (m / 0x400 - 1) as nat;
        lemma2_to64();
        if e < 29 {
            lemma_pow2_strictly_increases(e, 29);
        }
        lemma_pow2_pos(e);
        assert((m % 0x400 + 0x400) * pow2(e) <= 2047 * 0x2000_0000) by (nonlinear_arith)
            requires
                0 <= m % 0x400 + 0x400 <= 2047,
                0 < pow2(e) <= 0x2000_0000,
        ;
        assert((m % 0x400 + 0x400) * pow2(e) >= 0) by (nonlinear_arith)
            requires
                0 <= m % 0x400 + 0x400,
                0 < pow2(e),
        ;
    }
}

proof fn lemma_half_steps_increase(a: int, b: int)
    requires
        0 <= a < b,
    ensures
        half_steps(a) < half_steps(b),
{
    if b >= 0x400 {
        let eb = (b / 0x400 - 1) as nat;
        let (mb, pb) = (b % 0x400 + 0x400, pow2(eb) as int);
        lemma_pow2_pos(eb);
        if a < 0x400 {
            assert(mb * pb >= 0x400) by (nonlinear_arith)
                requires
                    mb >= 0x400,
                    pb >= 1,
            ;
        } else {
            let ea = (a / 0x400 - 1) as nat;
            let (ma, pa) = (a % 0x400 + 0x400, pow2(ea) as int);
            lemma_pow2_pos(ea);
            if ea == eb {
                assert(ma * pa < mb * pa) by (nonlinear_arith)
                    requires
                        ma < mb,
                        pa > 0,
                ;
            } else {
                lemma_pow2_unfold(ea + 1);
                if ea + 1 < eb {
                    lemma_pow2_strictly_increases(ea + 1, eb);
                }
                assert(ma * pa < mb * pb) by (nonlinear_arith)
                    requires
                        0 <= ma < 0x800,
                        mb >= 0x400,
                        pb >= 2 * pa,
                        pa > 0,
                ;
            }
        }
    }
}

} // verus!
