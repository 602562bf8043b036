use half::f16;
use pigment::half_float::{f16_bytes_to_f32, f32_to_f16_bytes, narrow, widen};
use pigment::scalar::Scalar;

fn s(x: f32) -> Scalar {
    Scalar::from_bits(x.to_bits())
}

/// Bit patterns that are hard to get right, and a great many others.
fn patterns() -> Vec<u32> {
    let mut v = vec![
        0x0000_0000, 0x8000_0000, 0x0000_0001, 0x8000_0001, 0x007f_ffff, 0x0080_0000, 0x0080_0001,
        0x3f80_0000, 0xbf80_0000, 0x3f7f_ffff, 0x3f80_0001, 0x4b00_0000, 0x4b80_0000, 0x4b7f_ffff,
        0x7f7f_ffff, 0xff7f_ffff, 0x7f80_0000, 0xff80_0000, 0x7fc0_0000, 0x7f80_0001, 0x4f00_0000,
        0x4effffff, 0x5f00_0000, 0xdf00_0000, 0x3f00_0000, 0xbf00_0000, 0x3fc0_0000, 0x4020_0000,
        0x3eff_ffff, 0x3f00_0001, 0x4f80_0000, 0x477f_e000, 0x477f_f000, 0x3880_0000, 0x3300_0000,
        0x3300_0001, 0x387f_c000,
    ];
    let mut x: u32 = 0x1234_5678;
    for _ in 0..160 {
        x = x.wrapping_mul(1_664_525).wrapping_add(1_013_904_223);
        v.push(x);
        // Near one another, so that sums cancel.
        v.push((x & 0x007f_ffff) | 0x3f80_0000);
        v.push((x & 0x807f_ffff) | 0x4000_0000);
    }
    v
}

/// The same number, or both not a number.
fn same(got: Scalar, want: f32) -> bool {
    if want.is_nan() {
        f32::from_bits(got.bits).is_nan()
    } else {
        got.bits == want.to_bits()
    }
}

#[test]
fn sums_and_products_are_those_of_the_machine() {
    let v = patterns();
    for &a in &v {
        for &b in &v {
            let (x, y) = (f32::from_bits(a), f32::from_bits(b));
            assert!(same(s(x).plus(s(y)), x + y), "{a:#x} + {b:#x}");
            assert!(same(s(x).minus(s(y)), x - y), "{a:#x} - {b:#x}");
            assert!(same(s(x).times(s(y)), x * y), "{a:#x} * {b:#x}");
        }
    }
}

#[test]
fn quotients_are_those_of_the_machine() {
    let v = patterns();
    for &a in &v {
        for &b in &v {
            let (x, y) = (f32::from_bits(a), f32::from_bits(b));
            assert!(same(s(x).over(s(y)), x / y), "{a:#x} / {b:#x}");
        }
    }
}

#[test]
fn comparisons_are_those_of_the_machine() {
    let v = patterns();
    for &a in &v {
        for &b in &v {
            let (x, y) = (f32::from_bits(a), f32::from_bits(b));
            assert_eq!(s(x).lt(s(y)), x < y);
            assert_eq!(s(x).le(s(y)), x <= y);
            assert_eq!(s(x).gt(s(y)), x > y);
            assert_eq!(s(x).ge(s(y)), x >= y);
            assert_eq!(s(x).equals(s(y)), x == y);
            // Which of two equal zeros is taken is open.
            if x != y {
                assert!(same(s(x).min(s(y)), x.min(y)), "{a:#x} min {b:#x}");
                assert!(same(s(x).max(s(y)), x.max(y)), "{a:#x} max {b:#x}");
            }
        }
    }
}

#[test]
fn roots_and_parts_are_those_of_the_machine() {
    for a in patterns() {
        let x = f32::from_bits(a);
        assert!(same(s(x).sqrt(), x.sqrt()), "sqrt {a:#x}");
        assert!(same(s(x).neg(), -x), "neg {a:#x}");
        assert!(same(s(x).abs(), x.abs()), "abs {a:#x}");
        assert!(
            same(s(x).fract(), x.fract()) || (x.fract() == 0.0 && f32::from_bits(s(x).fract().bits) == 0.0),
            "fract {a:#x}"
        );
        if !x.is_nan() {
            assert!(same(s(x).clamp(s(-2.0), s(3.5)), x.clamp(-2.0, 3.5)), "clamp {a:#x}");
        }
    }
}

#[test]
fn casts_are_those_of_the_machine() {
    for a in patterns() {
        let x = f32::from_bits(a);
        assert_eq!(s(x).floor_i64(), x.floor() as i64, "floor {a:#x}");
        assert_eq!(s(x).ceil_i64(), x.ceil() as i64, "ceil {a:#x}");
        assert_eq!(s(x).round_i64(), x.round() as i64, "round {a:#x}");
        assert_eq!(s(x).trunc_i64(), x as i64, "trunc {a:#x}");
        assert_eq!(s(x).trunc_u32(), x as u32, "trunc {a:#x}");
        assert_eq!(s(x).round_u32(), x.round() as u32, "round {a:#x}");
    }
}

#[test]
fn whole_numbers_are_those_of_the_machine() {
    for a in patterns() {
        assert_eq!(Scalar::from_u32(a).bits, (a as f32).to_bits(), "{a}");
        assert_eq!(Scalar::from_u32(a >> 9).bits, ((a >> 9) as f32).to_bits());
    }
    for n in 0..2000u32 {
        assert_eq!(Scalar::from_u32(n).bits, (n as f32).to_bits());
    }
}

#[test]
fn every_half_widens_and_narrows_back() {
    for h in 0..=u16::MAX {
        let x = f16::from_bits(h);
        let wide = widen(h);
        assert_eq!(wide.bits, x.to_f32().to_bits(), "{h:#x}");
        // A NaN comes back quiet.
        let quiet = if x.is_nan() { h | 0x200 } else { h };
        assert_eq!(narrow(wide), quiet);
    }
}

#[test]
fn narrowing_rounds_as_the_half_crate_does() {
    for a in patterns() {
        for d in [0u32, 1, 0x0fff, 0x1000, 0x1001, 0x1fff, 0x3000] {
            let x = f32::from_bits(a ^ d);
            let want = f16::from_f32(x);
            assert_eq!(narrow(Scalar::from_bits(a ^ d)), want.to_bits(), "{:#x}", a ^ d);
        }
    }
}

#[test]
fn layer_bytes_survive() {
    let bytes: Vec<u8> = (0..64u16).flat_map(|i| (i * 431 % 0x7c00).to_le_bytes()).collect();
    let px = f16_bytes_to_f32(&bytes);
    assert_eq!(px.len(), 64);
    assert_eq!(f32_to_f16_bytes(&px), bytes);
    let quiet = [0x01, 0x7e, 0xff, 0xff];
    assert_eq!(f32_to_f16_bytes(&f16_bytes_to_f32(&quiet)), quiet);
    // An odd byte at the end is dropped.
    assert_eq!(f16_bytes_to_f32(&[0, 0x3c, 7]), vec![s(1.0)]);
}
