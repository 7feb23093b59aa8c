use anise_orbit::binary64::Binary64;

fn b(x: f64) -> Binary64 {
    Binary64 { bits: x.to_bits() }
}

/// A small deterministic generator of 64-bit patterns.
struct Gen(u64);

impl Gen {
    fn next(&mut self) -> u64 {
        self.0 ^= self.0 << 13;
        self.0 ^= self.0 >> 7;
        self.0 ^= self.0 << 17;
        self.0
    }

    /// A pattern whose exponent field is drawn near `center` (or anywhere).
    fn pattern(&mut self, center: Option<u64>) -> u64 {
        let r = self.next();
        match center {
            None => r,
            Some(c) => {
                let spread = (self.next() % 120) as i64 - 60;
                let e = (c as i64 + spread).clamp(0, 2047) as u64;
                (r & 0x800f_ffff_ffff_ffff) | (e << 52)
            }
        }
    }
}

fn same(actual: Binary64, expected: f64) -> bool {
    if expected.is_nan() {
        actual.is_nan()
    } else {
        actual.bits == expected.to_bits()
    }
}

fn compare_with_hardware(a: u64, x: u64) {
    let fa = f64::from_bits(a);
    let fx = f64::from_bits(x);
    let ba = Binary64 { bits: a };
    let bx = Binary64 { bits: x };
    assert!(same(ba.mul(bx), fa * fx), "mul {:#x} {:#x}", a, x);
    assert!(same(ba.add(bx), fa + fx), "add {:#x} {:#x}", a, x);
    assert!(same(ba.sub(bx), fa - fx), "sub {:#x} {:#x}", a, x);
    assert!(same(ba.div(bx), fa / fx), "div {:#x} {:#x}", a, x);
    assert_eq!(ba.lt(bx), fa < fx, "lt {:#x} {:#x}", a, x);
    assert_eq!(ba.le(bx), fa <= fx, "le {:#x} {:#x}", a, x);
    assert_eq!(ba.gt(bx), fa > fx, "gt {:#x} {:#x}", a, x);
    assert_eq!(ba.ge(bx), fa >= fx, "ge {:#x} {:#x}", a, x);
    assert_eq!(ba.eq(bx), fa == fx, "eq {:#x} {:#x}", a, x);
}

#[test]
fn arithmetic_matches_hardware_on_random_patterns() {
    let mut g = Gen(0x9e37_79b9_7f4a_7c15);
    for _ in 0..20000 {
        let a = g.pattern(None);
        let x = g.pattern(None);
        compare_with_hardware(a, x);
    }
}

#[test]
fn arithmetic_matches_hardware_near_equal_exponents() {
    let mut g = Gen(0x1234_5678_9abc_def1);
    for i in 0..20000u64 {
        let center = [1u64, 30, 1023, 1500, 2000, 2046][(i % 6) as usize];
        let a = g.pattern(Some(center));
        let x = g.pattern(Some(center));
        compare_with_hardware(a, x);
    }
}

#[test]
fn arithmetic_matches_hardware_on_special_values() {
    let specials = [
        0.0, -0.0, 1.0, -1.0, 0.5, 2.0, 3.0, f64::MAX, -f64::MAX, f64::MIN_POSITIVE,
        -f64::MIN_POSITIVE, 5e-324, -5e-324, 1e-310, f64::INFINITY, f64::NEG_INFINITY, f64::NAN,
        1.0 + f64::EPSILON, 1.0 - f64::EPSILON / 2.0, 1e308, 1e-11, 180.0, 3000.0, 0.1, 0.3,
    ];
    for &a in specials.iter() {
        for &x in specials.iter() {
            compare_with_hardware(a.to_bits(), x.to_bits());
        }
    }
}

#[test]
fn exact_products_and_sums() {
    assert_eq!(b(3.0).mul(b(4.0)).bits, 12.0f64.to_bits());
    assert_eq!(b(0.1).add(b(0.2)).bits, (0.1f64 + 0.2f64).to_bits());
    assert_eq!(b(0.1).add(b(0.2)).bits, 0x3fd3_3333_3333_3334);
    assert_eq!(b(1.0).sub(b(1.0)).bits, 0);
    assert_eq!(b(-0.0).sub(b(0.0)).bits, (-0.0f64).to_bits());
    assert_eq!(b(f64::MAX).mul(b(2.0)).bits, f64::INFINITY.to_bits());
    assert_eq!(b(5e-324).mul(b(0.5)).bits, 0);
    assert!(b(f64::INFINITY).mul(b(0.0)).is_nan());
    assert!(b(f64::INFINITY).sub(b(f64::INFINITY)).is_nan());
}

#[test]
fn exact_and_rounded_quotients() {
    assert_eq!(b(1.0).div(b(3.0)).bits, (1.0f64 / 3.0).to_bits());
    assert_eq!(b(1.0).div(b(3.0)).bits, 0x3fd5_5555_5555_5555);
    assert_eq!(b(10.0).div(b(4.0)).bits, 2.5f64.to_bits());
    assert_eq!(b(-7.0).div(b(2.0)).bits, (-3.5f64).to_bits());
    assert_eq!(b(1.0).div(b(0.0)).bits, f64::INFINITY.to_bits());
    assert_eq!(b(-1.0).div(b(0.0)).bits, f64::NEG_INFINITY.to_bits());
    assert_eq!(b(1.0).div(b(f64::INFINITY)).bits, 0);
    assert_eq!(b(0.0).div(b(-5.0)).bits, (-0.0f64).to_bits());
    assert!(b(0.0).div(b(0.0)).is_nan());
    assert_eq!(b(f64::MAX).div(b(0.5)).bits, f64::INFINITY.to_bits());
    assert_eq!(b(5e-324).div(b(2.0)).bits, 0);
    assert_eq!(b(1.5e-323).div(b(2.0)).bits, (1.5e-323f64 / 2.0).to_bits());
    assert_eq!(b(f64::MIN_POSITIVE).div(b(3.0)).bits, (f64::MIN_POSITIVE / 3.0).to_bits());
}

#[test]
fn ties_round_to_even() {
    // 1 + 2^-53 lies halfway between 1 and its successor: it rounds to 1.
    let half_ulp = f64::EPSILON / 2.0;
    assert_eq!(b(1.0).add(b(half_ulp)).bits, 1.0f64.to_bits());
    // (1 + 2^-52) + 2^-53 is halfway too, and rounds up to the even neighbour.
    let odd = 1.0 + f64::EPSILON;
    assert_eq!(b(odd).add(b(half_ulp)).bits, (odd + half_ulp).to_bits());
    assert_eq!(b(odd).add(b(half_ulp)).bits, (1.0 + 2.0 * f64::EPSILON).to_bits());
}

#[test]
fn negation_and_absolute_value() {
    assert_eq!(b(2.5).neg().bits, (-2.5f64).to_bits());
    assert_eq!(b(0.0).neg().bits, (-0.0f64).to_bits());
    assert_eq!(b(-7.0).abs().bits, 7.0f64.to_bits());
    assert!(b(f64::NAN).is_nan());
    assert!(b(f64::NEG_INFINITY).is_infinite());
    assert!(b(1e300).is_finite());
    assert!(b(-1.0).is_sign_negative());
}

#[test]
fn nan_is_unordered() {
    let nan = b(f64::NAN);
    assert!(!nan.lt(b(1.0)));
    assert!(!b(1.0).lt(nan));
    assert!(!nan.eq(nan));
    assert!(b(0.0).eq(b(-0.0)));
    assert!(b(f64::NEG_INFINITY).lt(b(-f64::MAX)));
}
