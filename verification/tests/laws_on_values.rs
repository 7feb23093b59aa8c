use anise_orbit::binary64::Binary64;
use anise_orbit::orbit::Cartesian;

fn b(x: f64) -> Binary64 {
    Binary64 { bits: x.to_bits() }
}

fn f(x: Binary64) -> f64 {
    f64::from_bits(x.bits)
}

#[test]
fn apsides_bracket_the_semi_major_axis() {
    for &(sma, ecc) in [(7000.0, 0.0), (7000.0, 0.1), (42164.0, 0.7), (1e6, 0.999), (6378.1, 1e-16)].iter() {
        let p = f(Cartesian::periapsis_km(b(sma), b(ecc)));
        let a = f(Cartesian::apoapsis_km(b(sma), b(ecc)));
        assert!(p <= sma && sma <= a, "{} {} {} {}", sma, ecc, p, a);
    }
    // a circular orbit has both apsides at its semi-major axis
    assert_eq!(f(Cartesian::periapsis_km(b(7000.0), b(0.0))), 7000.0);
    assert_eq!(f(Cartesian::apoapsis_km(b(7000.0), b(0.0))), 7000.0);
}

#[test]
fn corrected_signs_agree_with_the_shape() {
    for &(sma, ecc) in [(7000.0, -0.3), (-7000.0, 0.3), (7000.0, -2.0), (-7000.0, 2.0), (0.0, -0.5)].iter() {
        match Cartesian::validate_keplerian(b(sma), b(ecc)) {
            Ok((a, e)) => {
                assert!(f(e) >= 0.0);
                if f(e) > 1.0 {
                    assert!(!(f(a) > 0.0));
                }
                if f(e) < 1.0 {
                    assert!(!(f(a) < 0.0));
                }
            }
            Err(err) => panic!("unexpected {:?}", err),
        }
    }
}

#[test]
fn multiplying_by_minus_one_negates() {
    for &x in [0.0, -0.0, 1.5, -1e-320, f64::MAX, f64::NEG_INFINITY].iter() {
        assert_eq!(b(x).mul(b(-1.0)).bits, (-x).to_bits());
        assert_eq!(b(x).mul(b(1.0)).bits, x.to_bits());
    }
    assert!(b(f64::NAN).mul(b(-1.0)).is_nan());
}

#[test]
fn sums_and_products_are_monotone() {
    let xs = [-3.0, -1e-300, 0.0, 1e-310, 0.1, 0.3, 1.0, 2.5, 1e300];
    for &x in xs.iter() {
        for &y in xs.iter() {
            for &z in xs.iter() {
                if y <= z {
                    assert!(f(b(x).add(b(y))) <= f(b(x).add(b(z))));
                    assert!(f(b(x).sub(b(z))) <= f(b(x).sub(b(y))));
                    if x >= 0.0 {
                        assert!(f(b(x).mul(b(y))) <= f(b(x).mul(b(z))));
                    }
                }
            }
        }
    }
}

#[test]
fn order_laws() {
    let xs = [f64::NEG_INFINITY, -1.0, -0.0, 0.0, 5e-324, 1.0, f64::INFINITY];
    for &x in xs.iter() {
        assert!(!b(x).lt(b(x)));
        for &y in xs.iter() {
            assert_eq!(b(x).lt(b(y)), b(y).neg().lt(b(x).neg()));
            let n = [b(x).lt(b(y)), b(x).eq(b(y)), b(y).lt(b(x))].iter().filter(|t| **t).count();
            assert_eq!(n, 1);
        }
    }
}

#[test]
fn bound_orbit_apsides() {
    for &(a, e) in &[(7000.0, 0.0), (7000.0, 0.3), (1.0e300, 0.999), (1.7e308, 0.9), (5e-324, 0.5)] {
        let peri = f(Cartesian::periapsis_km(b(a), b(e)));
        let apo = f(Cartesian::apoapsis_km(b(a), b(e)));
        assert!(peri.is_finite() && peri >= 0.0 && peri <= a && peri <= apo);
    }
}

#[test]
fn c3_sign_follows_the_semi_major_axis() {
    let mu = 398600.4418;
    assert!(f(Cartesian::c3_km2_s2(b(mu), b(7000.0))) <= 0.0);
    assert!(f(Cartesian::c3_km2_s2(b(mu), b(-7000.0))) >= 0.0);
    assert_eq!(f(Cartesian::c3_km2_s2(b(mu), b(7000.0))), -mu / 7000.0);
}

#[test]
fn strict_signs_away_from_underflow() {
    assert!(f(Cartesian::periapsis_km(b(7000.0), b(0.3))) > 0.0);
    // below half the smallest subnormal the periapsis rounds to zero
    assert_eq!(f(Cartesian::periapsis_km(b(5e-324), b(0.5))), 0.0);
    let mu = 398600.4418;
    assert!(f(Cartesian::c3_km2_s2(b(mu), b(7000.0))) < 0.0);
    assert!(f(Cartesian::c3_km2_s2(b(mu), b(-7000.0))) > 0.0);
    // a quotient that underflows gives a signed zero
    assert_eq!(f(Cartesian::c3_km2_s2(b(5e-324), b(1.0e300))), -0.0);
}
