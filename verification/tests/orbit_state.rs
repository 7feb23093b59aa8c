use anise_orbit::binary64::Binary64;
use anise_orbit::orbit::{cross, AngleBranch, AnomalyRegime, Cartesian, PhysicsErrorKind};

fn b(x: f64) -> Binary64 {
    Binary64 { bits: x.to_bits() }
}

fn f(x: Binary64) -> f64 {
    f64::from_bits(x.bits)
}

fn state(r: [f64; 3], v: [f64; 3]) -> Cartesian {
    Cartesian {
        radius_km: [b(r[0]), b(r[1]), b(r[2])],
        velocity_km_s: [b(v[0]), b(v[1]), b(v[2])],
    }
}

fn cross_f64(a: [f64; 3], c: [f64; 3]) -> [f64; 3] {
    [
        a[1] * c[2] - a[2] * c[1],
        a[2] * c[0] - a[0] * c[2],
        a[0] * c[1] - a[1] * c[0],
    ]
}

#[test]
fn hvec_of_a_low_earth_orbit() {
    let r = [-2436.45, -2436.45, 6891.037];
    let v = [5.088611, -5.088611, 0.0];
    let h = state(r, v).hvec();
    let expected = cross_f64(r, v);
    for i in 0..3 {
        assert_eq!(h[i].bits, expected[i].to_bits());
    }
    // hz = rx*vy - ry*vx
    assert_eq!(f(h[2]), -2436.45 * -5.088611 - (-2436.45 * 5.088611));
    assert_eq!(state(r, v).hx().bits, h[0].bits);
    assert_eq!(state(r, v).hy().bits, h[1].bits);
    assert_eq!(state(r, v).hz().bits, h[2].bits);
}

#[test]
fn hvec_matches_f64_cross_product() {
    let mut seed: u64 = 0x2545_f491_4f6c_dd1d;
    let mut next = || {
        seed ^= seed << 13;
        seed ^= seed >> 7;
        seed ^= seed << 17;
        (seed % 2_000_000) as f64 / 97.0 - 10_000.0
    };
    for _ in 0..2000 {
        let r = [next(), next(), next()];
        let v = [next() / 1000.0, next() / 1000.0, next() / 1000.0];
        let h = state(r, v).hvec();
        let expected = cross_f64(r, v);
        for i in 0..3 {
            assert_eq!(h[i].bits, expected[i].to_bits());
        }
    }
}

#[test]
fn hvec_reverses_when_position_and_velocity_swap() {
    let r = [7000.0, 1.5, -300.25];
    let v = [0.01, 7.5, 1.125];
    let h = state(r, v).hvec();
    let h_swapped = state(v, r).hvec();
    for i in 0..3 {
        assert_eq!(f(h_swapped[i]), -f(h[i]));
    }
}

#[test]
fn cross_of_the_z_axis_with_a_vector() {
    let n = cross([b(0.0), b(0.0), b(1.0)], [b(3.0), b(-4.0), b(5.0)]);
    assert_eq!(f(n[0]), 4.0);
    assert_eq!(f(n[1]), 3.0);
    assert_eq!(f(n[2]), 0.0);
}

#[test]
fn brouwer_short_validity() {
    assert!(Cartesian::is_brouwer_short_valid(b(28.5), b(0.01), b(6700.0)));
    assert!(Cartesian::is_brouwer_short_valid(b(180.0), b(0.0), b(3000.0)));
    assert!(!Cartesian::is_brouwer_short_valid(b(180.00000001), b(0.01), b(6700.0)));
    assert!(!Cartesian::is_brouwer_short_valid(b(28.5), b(1.0), b(6700.0)));
    assert!(!Cartesian::is_brouwer_short_valid(b(28.5), b(-0.01), b(6700.0)));
    assert!(!Cartesian::is_brouwer_short_valid(b(28.5), b(0.01), b(2999.9)));
    // comparisons with a NaN are false, so a NaN inclination fails no test
    assert!(Cartesian::is_brouwer_short_valid(b(f64::NAN), b(0.01), b(6700.0)));
}

#[test]
fn angle_branches() {
    assert_eq!(Cartesian::angle_branch(b(f64::NAN), b(1.0000001), b(1.0)), AngleBranch::Half);
    assert_eq!(Cartesian::angle_branch(b(f64::NAN), b(-1.0000001), b(1.0)), AngleBranch::Zero);
    assert_eq!(Cartesian::angle_branch(b(1.0), b(0.54), b(-2.0)), AngleBranch::Reflex);
    assert_eq!(Cartesian::angle_branch(b(1.0), b(0.54), b(2.0)), AngleBranch::Direct);
    assert_eq!(Cartesian::angle_branch(b(1.0), b(0.54), b(-0.0)), AngleBranch::Direct);
}

#[test]
fn anomaly_regimes() {
    assert_eq!(Cartesian::anomaly_regime(b(0.0)), AnomalyRegime::Circular);
    assert_eq!(Cartesian::anomaly_regime(b(-1e-12)), AnomalyRegime::Circular);
    assert_eq!(Cartesian::anomaly_regime(b(1e-11)), AnomalyRegime::Elliptical);
    assert_eq!(Cartesian::anomaly_regime(b(0.5)), AnomalyRegime::Elliptical);
    assert_eq!(Cartesian::anomaly_regime(b(1.0)), AnomalyRegime::Hyperbolic);
    assert_eq!(Cartesian::anomaly_regime(b(2.5)), AnomalyRegime::Hyperbolic);
    assert_eq!(Cartesian::anomaly_regime(b(f64::NAN)), AnomalyRegime::Hyperbolic);
}

#[test]
fn keplerian_sign_corrections() {
    match Cartesian::validate_keplerian(b(-7000.0), b(-0.5)) {
        Ok((sma, ecc)) => {
            assert_eq!(f(sma), 7000.0);
            assert_eq!(f(ecc), 0.5);
        }
        Err(e) => panic!("unexpected {:?}", e),
    }
    match Cartesian::validate_keplerian(b(7000.0), b(2.0)) {
        Ok((sma, ecc)) => {
            assert_eq!(f(sma), -7000.0);
            assert_eq!(f(ecc), 2.0);
        }
        Err(e) => panic!("unexpected {:?}", e),
    }
    match Cartesian::validate_keplerian(b(-7000.0), b(3.0)) {
        Ok((sma, ecc)) => {
            assert_eq!(f(sma), -7000.0);
            assert_eq!(f(ecc), 3.0);
        }
        Err(e) => panic!("unexpected {:?}", e),
    }
}

#[test]
fn keplerian_refuses_parabolic_orbits() {
    assert!(matches!(
        Cartesian::validate_keplerian(b(7000.0), b(1.0)),
        Err(PhysicsErrorKind::ParabolicOrbit)
    ));
    assert!(matches!(
        Cartesian::validate_keplerian(b(7000.0), b(1.0 + 1e-12)),
        Err(PhysicsErrorKind::ParabolicOrbit)
    ));
    assert!(matches!(
        Cartesian::validate_keplerian(b(7000.0), b(-1.0)),
        Err(PhysicsErrorKind::ParabolicOrbit)
    ));
    assert!(Cartesian::validate_keplerian(b(7000.0), b(1.0 + 1e-10)).is_ok());
}

#[test]
fn apsis_radii() {
    let sma = 8000.0;
    let ecc = 0.125;
    assert_eq!(f(Cartesian::periapsis_km(b(sma), b(ecc))), sma * (1.0 - ecc));
    assert_eq!(f(Cartesian::apoapsis_km(b(sma), b(ecc))), sma * (1.0 + ecc));
    assert_eq!(f(Cartesian::periapsis_km(b(sma), b(ecc))), 7000.0);
    assert_eq!(f(Cartesian::apoapsis_km(b(sma), b(ecc))), 9000.0);
    let (sma, ecc) = (7000.0, 0.1);
    assert_eq!(Cartesian::periapsis_km(b(sma), b(ecc)).bits, (sma * (1.0 - ecc)).to_bits());
    assert_eq!(Cartesian::apoapsis_km(b(sma), b(ecc)).bits, (sma * (1.0 + ecc)).to_bits());
}

#[test]
fn eccentricity_vector_from_its_terms() {
    let r = [7000.0, -1200.5, 300.25];
    let v = [1.25, 7.5, -0.75];
    let mu = 398600.4415;
    let k = 12.5;
    let rv = 3.0;
    let e = state(r, v).evec(b(k), b(rv), b(mu));
    for i in 0..3 {
        assert_eq!(e[i].bits, ((k * r[i] - rv * v[i]) / mu).to_bits());
    }
}

#[test]
fn semi_major_axis_and_c3() {
    let mu = 398600.4415;
    let energy = -28.4;
    assert_eq!(Cartesian::sma_km(b(mu), b(energy)).bits, (-mu / (2.0 * energy)).to_bits());
    let sma = 7000.0;
    assert_eq!(Cartesian::c3_km2_s2(b(mu), b(sma)).bits, (-mu / sma).to_bits());
    // a parabolic energy gives an infinite semi-major axis
    assert_eq!(f(Cartesian::sma_km(b(mu), b(0.0))), f64::NEG_INFINITY);
}

#[test]
fn elements_from_apsis_radii() {
    let (sma, ecc) = Cartesian::sma_ecc_from_apsis_radii(b(9000.0), b(7000.0));
    assert_eq!(f(sma), 8000.0);
    assert_eq!(f(ecc), 0.125);
    let (ra, rp) = (42164.0, 6678.0);
    let (sma, ecc) = Cartesian::sma_ecc_from_apsis_radii(b(ra), b(rp));
    let sma_f = (ra + rp) / 2.0;
    assert_eq!(sma.bits, sma_f.to_bits());
    assert_eq!(ecc.bits, (ra / sma_f - 1.0).to_bits());
}

#[test]
fn equal_apsis_radii_give_a_circular_orbit() {
    for &r in [6778.0, 1.0, 5e-324, 1e300].iter() {
        let (sma, ecc) = Cartesian::sma_ecc_from_apsis_radii(b(r), b(r));
        assert_eq!(f(sma), r);
        assert_eq!(ecc.bits, 0);
    }
}

#[test]
fn true_anomaly_branches_follow_the_sign_of_the_cosine() {
    assert_eq!(Cartesian::true_anomaly_branch(b(f64::NAN), b(1.0000001), b(1.0)), AngleBranch::Zero);
    assert_eq!(Cartesian::true_anomaly_branch(b(f64::NAN), b(-1.0000001), b(1.0)), AngleBranch::Half);
    assert_eq!(Cartesian::true_anomaly_branch(b(f64::NAN), b(f64::NAN), b(1.0)), AngleBranch::Zero);
    assert_eq!(Cartesian::true_anomaly_branch(b(1.0), b(0.54), b(-2.0)), AngleBranch::Reflex);
    assert_eq!(Cartesian::true_anomaly_branch(b(1.0), b(0.54), b(2.0)), AngleBranch::Direct);
    // the other angles keep their own mapping
    assert_eq!(Cartesian::angle_branch(b(f64::NAN), b(1.0000001), b(1.0)), AngleBranch::Half);
}

#[test]
fn keplerian_checks_refuse_in_order() {
    let ok = Cartesian::keplerian_checks(b(0.5), b(120.0), b(f64::NAN), b(1.2), b(7000.0));
    assert!(matches!(ok, Ok(())));
    // a hyperbolic orbit past its asymptote
    let limit = (std::f64::consts::PI - (1.0f64 / 2.0).acos()).to_degrees();
    match Cartesian::keplerian_checks(b(2.0), b(150.0), b(limit), b(f64::INFINITY), b(1e-20)) {
        Err(PhysicsErrorKind::InvalidHyperbolicTrueAnomaly(ta)) => assert_eq!(f(ta), 150.0),
        _ => panic!("expected an invalid hyperbolic true anomaly"),
    }
    // below the asymptote, an infinite radius comes next
    assert!(matches!(
        Cartesian::keplerian_checks(b(2.0), b(90.0), b(limit), b(f64::INFINITY), b(1e-20)),
        Err(PhysicsErrorKind::InfiniteValue)
    ));
    // then a vanishing semilatus rectum
    assert!(matches!(
        Cartesian::keplerian_checks(b(0.5), b(90.0), b(limit), b(1.0), b(-1e-17)),
        Err(PhysicsErrorKind::ParabolicOrbit)
    ));
    assert!(matches!(
        Cartesian::keplerian_checks(b(0.5), b(90.0), b(limit), b(1.0), b(f64::EPSILON)),
        Ok(())
    ));
}

#[test]
fn dot_products_round_in_order() {
    let a = [1.0e16, 1.0, -1.0e16];
    let c = [1.0, 1.0, 1.0];
    let d = anise_orbit::orbit::dot([b(a[0]), b(a[1]), b(a[2])], [b(c[0]), b(c[1]), b(c[2])]);
    assert_eq!(f(d), a[0] * c[0] + a[1] * c[1] + a[2] * c[2]);
    assert_eq!(f(d), 0.0);
    let d = anise_orbit::orbit::dot([b(1.5), b(-2.0), b(0.25)], [b(4.0), b(3.0), b(8.0)]);
    assert_eq!(f(d), 2.0);
}

#[test]
fn formula_choices_for_latitude_and_semi_minor_axis() {
    assert!(Cartesian::is_near_circular(b(0.0)));
    assert!(Cartesian::is_near_circular(b(9e-12)));
    assert!(!Cartesian::is_near_circular(b(1e-11)));
    assert!(!Cartesian::is_near_circular(b(f64::NAN)));
    assert!(Cartesian::semi_minor_is_closed(b(0.3)));
    assert!(Cartesian::semi_minor_is_closed(b(1.0)));
    assert!(!Cartesian::semi_minor_is_closed(b(1.5)));
    assert!(!Cartesian::semi_minor_is_closed(b(f64::NAN)));
}
