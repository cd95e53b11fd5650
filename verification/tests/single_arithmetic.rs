use piet_gpu::single::Single;

fn s(x: f32) -> Single {
    Single::from_bits(x.to_bits())
}

fn f(x: Single) -> f32 {
    f32::from_bits(x.to_bits())
}

/// Same value: both NaN, or the same pattern.
fn same(got: Single, want: f32) -> bool {
    if want.is_nan() {
        f(got).is_nan()
    } else {
        got.to_bits() == want.to_bits()
    }
}

struct Lcg(u64);

impl Lcg {
    fn next(&mut self) -> u32 {
        self.0 = self.0.wrapping_mul(6364136223846793005).wrapping_add(1442695040888963407);
        (self.0 >> 32) as u32
    }
}

fn samples() -> Vec<f32> {
    let mut v = vec![
        0.0,
        -0.0,
        1.0,
        -1.0,
        0.5,
        1.5,
        2.5,
        16.0,
        -16.0,
        15.999999,
        16.000002,
        1e-45,
        -1e-45,
        1.1754942e-38,
        1.1754944e-38,
        -1.1754944e-38,
        2.3509887e-38,
        3.4028235e38,
        -3.4028235e38,
        1.7014118e38,
        8388608.0,
        8388607.5,
        16777216.0,
        16777215.0,
        33554432.0,
        0.1,
        0.2,
        0.3,
        1e10,
        1e-10,
        -7.25,
        123456.79,
        f32::INFINITY,
        f32::NEG_INFINITY,
        f32::NAN,
    ];
    for k in 1..12 {
        v.push(f32::from_bits(k));
        v.push(f32::from_bits(0x8000_0000 | k));
        v.push(f32::from_bits(0x0080_0000 - k));
        v.push(f32::from_bits(0x0080_0000 + k));
        v.push(f32::from_bits(0x7f7f_ffff - k));
    }
    v
}

#[test]
fn add_matches_hardware_on_samples() {
    let v = samples();
    for &a in &v {
        for &b in &v {
            assert!(same(s(a).add(s(b)), a + b), "{:e} + {:e}", a, b);
        }
    }
}

#[test]
fn sub_matches_hardware_on_samples() {
    let v = samples();
    for &a in &v {
        for &b in &v {
            assert!(same(s(a).sub(s(b)), a - b), "{:e} - {:e}", a, b);
        }
    }
}

#[test]
fn add_matches_hardware_on_random_patterns() {
    let mut rng = Lcg(0x9e3779b97f4a7c15);
    for _ in 0..200000 {
        let a = f32::from_bits(rng.next());
        let b = f32::from_bits(rng.next());
        assert!(same(s(a).add(s(b)), a + b), "{:e} + {:e}", a, b);
    }
}

#[test]
fn add_matches_hardware_on_near_exponents() {
    let mut rng = Lcg(42);
    for _ in 0..200000 {
        let a_bits = rng.next();
        let shift = (rng.next() % 60) as i32 - 30;
        let exp = ((a_bits >> 23) & 0xff) as i32;
        let b_exp = (exp + shift).clamp(0, 254) as u32;
        let b_bits = (rng.next() & 0x807f_ffff) | (b_exp << 23);
        let a = f32::from_bits(a_bits);
        let b = f32::from_bits(b_bits);
        assert!(same(s(a).add(s(b)), a + b), "{:e} + {:e}", a, b);
        assert!(same(s(a).sub(s(b)), a - b), "{:e} - {:e}", a, b);
    }
}

#[test]
fn far_apart_terms_keep_the_larger() {
    let big = 1.0e20f32;
    let small = 3.0f32;
    assert_eq!(s(big).add(s(small)).to_bits(), big.to_bits());
    assert_eq!(s(small).sub(s(big)).to_bits(), (-big).to_bits());
    let pow = f32::from_bits(0x5f00_0000);
    assert_eq!(s(pow).sub(s(1.0)).to_bits(), (pow - 1.0).to_bits());
}

#[test]
fn rounding_ties_go_to_even() {
    // 2^24 + 1 lies halfway between two values; the even one is 2^24.
    assert_eq!(f(s(16777216.0).add(s(1.0))), 16777216.0);
    // 2^24 + 3 lies halfway between 2^24 + 2 and 2^24 + 4; the even one is the latter.
    assert_eq!(f(s(16777218.0).add(s(1.0))), 16777220.0);
}

#[test]
fn sum_overflows_to_infinity() {
    let max = f32::MAX;
    assert_eq!(f(s(max).add(s(max))), f32::INFINITY);
    assert_eq!(f(s(-max).sub(s(max))), f32::NEG_INFINITY);
}

#[test]
fn zero_sums_have_the_ieee_sign() {
    assert_eq!(s(1.5).sub(s(1.5)).to_bits(), 0);
    assert_eq!(s(-0.0).add(s(-0.0)).to_bits(), 0x8000_0000);
    assert_eq!(s(0.0).add(s(-0.0)).to_bits(), 0);
    assert_eq!(s(-0.0).sub(s(0.0)).to_bits(), 0x8000_0000);
}

#[test]
fn infinities_and_nan_in_sums() {
    assert!(f(s(f32::INFINITY).sub(s(f32::INFINITY))).is_nan());
    assert_eq!(s(f32::INFINITY).sub(s(f32::INFINITY)).to_bits(), 0x7fc0_0000);
    assert_eq!(f(s(f32::INFINITY).add(s(f32::INFINITY))), f32::INFINITY);
    assert_eq!(f(s(1.0).add(s(f32::NEG_INFINITY))), f32::NEG_INFINITY);
    assert!(f(s(f32::NAN).add(s(1.0))).is_nan());
    assert!(f(s(1.0).sub(s(f32::NAN))).is_nan());
}

#[test]
fn neg_flips_the_sign_bit() {
    for &a in &samples() {
        assert_eq!(s(a).neg().to_bits(), (-a).to_bits());
    }
    assert_eq!(Single::from_bits(0x7fc0_0001).neg().to_bits(), 0xffc0_0001);
}

#[test]
fn equals_and_less_than_match_hardware() {
    let v = samples();
    for &a in &v {
        for &b in &v {
            assert_eq!(s(a).equals(s(b)), a == b, "{:e} == {:e}", a, b);
            assert_eq!(s(a).less_than(s(b)), a < b, "{:e} < {:e}", a, b);
        }
    }
    let mut rng = Lcg(7);
    for _ in 0..100000 {
        let a = f32::from_bits(rng.next());
        let b = f32::from_bits(rng.next());
        assert_eq!(s(a).equals(s(b)), a == b);
        assert_eq!(s(a).less_than(s(b)), a < b);
    }
}

#[test]
fn nan_differs_from_itself_and_zeros_are_equal() {
    let nan = s(f32::NAN);
    assert!(!nan.equals(nan));
    assert!(nan.is_nan_value());
    assert!(!s(1.0).is_nan_value());
    assert!(s(0.0).equals(s(-0.0)));
    assert_ne!(s(0.0), s(-0.0));
}

#[test]
fn min_and_max_match_hardware_values() {
    let v = samples();
    for &a in &v {
        for &b in &v {
            let lo = f(s(a).min(s(b)));
            let hi = f(s(a).max(s(b)));
            let want_lo = a.min(b);
            let want_hi = a.max(b);
            assert!(lo == want_lo || (lo.is_nan() && want_lo.is_nan()), "min {:e} {:e}", a, b);
            assert!(hi == want_hi || (hi.is_nan() && want_hi.is_nan()), "max {:e} {:e}", a, b);
        }
    }
}

#[test]
fn min_keeps_the_first_of_equal_values() {
    assert_eq!(s(0.0).min(s(-0.0)).to_bits(), 0);
    assert_eq!(s(-0.0).max(s(0.0)).to_bits(), 0x8000_0000);
    assert_eq!(f(s(f32::NAN).min(s(2.0))), 2.0);
    assert_eq!(f(s(2.0).max(s(f32::NAN))), 2.0);
}

#[test]
fn sixteenth_matches_hardware() {
    for &a in &samples() {
        assert!(same(s(a).sixteenth(), a / 16.0), "{:e} / 16", a);
    }
    let mut rng = Lcg(99);
    for _ in 0..200000 {
        let a = f32::from_bits(rng.next());
        assert!(same(s(a).sixteenth(), a / 16.0), "{:e} / 16", a);
    }
    for bits in 0..4096u32 {
        let a = f32::from_bits(bits);
        assert!(same(s(a).sixteenth(), a / 16.0), "{:e} / 16", a);
        let a = f32::from_bits(0x0280_0000 - bits);
        assert!(same(s(a).sixteenth(), a / 16.0), "{:e} / 16", a);
    }
}

#[test]
fn floor_and_ceil_match_hardware() {
    let mut v = samples();
    v.extend_from_slice(&[0.25, -0.25, 0.999, -0.999, 1.0001, -1.0001, 2.5, -2.5, 1e6, 4194304.5]);
    for &a in &v {
        assert!(same(s(a).floor(), a.floor()), "floor {:e}", a);
        assert!(same(s(a).ceil(), a.ceil()), "ceil {:e}", a);
    }
    let mut rng = Lcg(1234);
    for _ in 0..200000 {
        let a = f32::from_bits(rng.next());
        assert!(same(s(a).floor(), a.floor()), "floor {:e}", a);
        assert!(same(s(a).ceil(), a.ceil()), "ceil {:e}", a);
    }
    for _ in 0..200000 {
        let bits = (rng.next() & 0x807f_ffff) | ((100 + rng.next() % 60) << 23);
        let a = f32::from_bits(bits);
        assert!(same(s(a).floor(), a.floor()), "floor {:e}", a);
        assert!(same(s(a).ceil(), a.ceil()), "ceil {:e}", a);
    }
}

#[test]
fn floor_and_ceil_keep_the_sign_of_zero() {
    assert_eq!(s(-0.5).ceil().to_bits(), 0x8000_0000);
    assert_eq!(s(0.5).floor().to_bits(), 0);
    assert_eq!(f(s(-0.5).floor()), -1.0);
    assert_eq!(f(s(0.5).ceil()), 1.0);
}

#[test]
fn constants_are_zero_and_one() {
    assert_eq!(f(Single::zero()), 0.0);
    assert_eq!(f(Single::one()), 1.0);
}

#[test]
fn adding_zero_keeps_a_value() {
    let mut rng = Lcg(5);
    for _ in 0..100000 {
        let bits = rng.next();
        let x = f32::from_bits(bits);
        if x.is_finite() && bits != 0x8000_0000 {
            assert_eq!(s(x).add(s(0.0)).to_bits(), bits);
            assert_eq!(s(0.0).add(s(x)).to_bits(), bits);
        }
    }
    assert_eq!(s(-0.0).add(s(0.0)).to_bits(), 0);
}
