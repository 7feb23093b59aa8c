//! The orbital state and the parts of its element computations that IEEE 754
//! specifies exactly: the angular momentum and node vectors, the apsides, the
//! semi-major axis from the energy, the eccentricity vector from its terms,
//! the validation of the Keplerian elements, and the decisions between formulas.
use vstd::prelude::*;
use vstd::arithmetic::power2::*;
use crate::quotient::{
    div_spec, rounded_ratio, lemma_double_then_halve, lemma_div_self, lemma_div_no_underflow,
};
use crate::rounding::rounded_magnitude;
use crate::binary64::{Binary64, lemma_neg_parts, lemma_trichotomy};
use crate::arith::{
    mul_spec, sub_spec, add_spec, lemma_mul_commutative, lemma_sub_antisymmetric,
    lemma_mul_minus_one, lemma_mul_one, lemma_rounded_representable, lemma_from_magnitude_roundtrip,
    lemma_add_monotone, lemma_sub_monotone, lemma_mul_monotone, lemma_add_positive_between,
    lemma_mul_below, lemma_from_magnitude_fields, lemma_mul_no_underflow, lemma_mul_by_zero,
    lemma_sub_of_zeros,
};

verus! {

/// Below this eccentricity an orbit counts as circular: 1e-11 as a binary64.
pub const ECC_EPSILON_BITS: u64 = 0x3da5_fd7f_e179_6495;

/// 0.0
pub const ZERO_BITS: u64 = 0;

/// 1.0
pub const ONE_BITS: u64 = 0x3ff0_0000_0000_0000;

/// -1.0
pub const MINUS_ONE_BITS: u64 = 0xbff0_0000_0000_0000;

/// 2.0
pub const TWO_BITS: u64 = 0x4000_0000_0000_0000;

/// 180.0
pub const DEG_180_BITS: u64 = 0x4066_8000_0000_0000;

/// 3000.0
pub const KM_3000_BITS: u64 = 0x40a7_7000_0000_0000;

/// The machine epsilon of binary64, 2^-52.
pub const MACHINE_EPSILON_BITS: u64 = 0x3cb0_0000_0000_0000;

/// Errors of the conversions between Cartesian and Keplerian states.
#[derive(Clone, Copy, Debug)]
pub enum PhysicsErrorKind {
    /// The eccentricity is (too close to) one.
    ParabolicOrbit,
    /// A true anomaly, in degrees, that a hyperbolic orbit cannot reach.
    InvalidHyperbolicTrueAnomaly(Binary64),
    /// A radius that is infinite.
    InfiniteValue,
}

/// The orbital state vector: position (km) and velocity (km/s).
#[derive(Clone, Copy, Debug)]
pub struct Cartesian {
    pub radius_km: [Binary64; 3],
    pub velocity_km_s: [Binary64; 3],
}

/// The cross product `a x b`, each component computed as
/// `a[i] * b[j] - a[j] * b[i]` in binary64.
pub open spec fn cross_spec(a: [Binary64; 3], b: [Binary64; 3]) -> Seq<Binary64> {
    seq![
        sub_spec(mul_spec(a[1], b[2]), mul_spec(a[2], b[1])),
        sub_spec(mul_spec(a[2], b[0]), mul_spec(a[0], b[2])),
        sub_spec(mul_spec(a[0], b[1]), mul_spec(a[1], b[0])),
    ]
}

/// The cross product `a x b` of binary64 vectors, each component computed
/// as `a[i] * b[j] - a[j] * b[i]` with one rounding per operation.
pub fn cross(a: [Binary64; 3], b: [Binary64; 3]) -> (c: [Binary64; 3])
    ensures
        c@ == cross_spec(a, b),
        c[0] == sub_spec(mul_spec(a[1], b[2]), mul_spec(a[2], b[1])),
        c[1] == sub_spec(mul_spec(a[2], b[0]), mul_spec(a[0], b[2])),
        c[2] == sub_spec(mul_spec(a[0], b[1]), mul_spec(a[1], b[0])),
{
    let x = a[1].mul(b[2]).sub(a[2].mul(b[1]));
    let y = a[2].mul(b[0]).sub(a[0].mul(b[2]));
    let z = a[0].mul(b[1]).sub(a[1].mul(b[0]));
    let c = [x, y, z];
    assert(c@ =~= cross_spec(a, b));
    c
}

/// Swapping the factors of a cross product negates each component: both
/// are NaN, or they are equal in value with opposite signs.
pub proof fn lemma_cross_anticommutative(a: [Binary64; 3], b: [Binary64; 3])
    ensures
        forall|i: int|
            0 <= i < 3 ==> {
                let u = #[trigger] cross_spec(a, b)[i];
                let w = cross_spec(b, a)[i];
                (u.is_nan_spec() && w.is_nan_spec()) || w.eq_spec(u.neg_spec())
            },
{
    lemma_mul_commutative(a[1], b[2]);
    lemma_mul_commutative(a[2], b[1]);
    lemma_mul_commutative(a[2], b[0]);
    lemma_mul_commutative(a[0], b[2]);
    lemma_mul_commutative(a[0], b[1]);
    lemma_mul_commutative(a[1], b[0]);
    lemma_sub_antisymmetric(mul_spec(a[1], b[2]), mul_spec(a[2], b[1]));
    lemma_sub_antisymmetric(mul_spec(a[2], b[0]), mul_spec(a[0], b[2]));
    lemma_sub_antisymmetric(mul_spec(a[0], b[1]), mul_spec(a[1], b[0]));
}

/// The dot product `a . b`, computed as `(a[0] b[0] + a[1] b[1]) + a[2] b[2]`
/// in binary64.
pub open spec fn dot_spec(a: [Binary64; 3], b: [Binary64; 3]) -> Binary64 {
    add_spec(add_spec(mul_spec(a[0], b[0]), mul_spec(a[1], b[1])), mul_spec(a[2], b[2]))
}

/// The dot product of binary64 vectors, summed from the first component on,
/// with one rounding per operation.
pub fn dot(a: [Binary64; 3], b: [Binary64; 3]) -> (d: Binary64)
    ensures
        d == dot_spec(a, b),
        d == add_spec(add_spec(mul_spec(a[0], b[0]), mul_spec(a[1], b[1])), mul_spec(a[2], b[2])),
{
    a[0].mul(b[0]).add(a[1].mul(b[1])).add(a[2].mul(b[2]))
}

impl Cartesian {
    /// The orbital momentum vector `r x v`.
    pub fn hvec(&self) -> (h: [Binary64; 3])
        ensures
            h@ == cross_spec(self.radius_km, self.velocity_km_s),
    {
        cross(self.radius_km, self.velocity_km_s)
    }

    /// The radius of periapsis (km), `sma * (1 - ecc)` in binary64, from the
    /// semi-major axis (km) and the eccentricity.
    pub fn periapsis_km(sma_km: Binary64, ecc: Binary64) -> (r: Binary64)
        ensures
            r == mul_spec(sma_km, sub_spec(one(), ecc)),
    {
        sma_km.mul(Binary64 { bits: ONE_BITS }.sub(ecc))
    }

    /// The radius of apoapsis (km), `sma * (1 + ecc)` in binary64, from the
    /// semi-major axis (km) and the eccentricity.
    pub fn apoapsis_km(sma_km: Binary64, ecc: Binary64) -> (r: Binary64)
        ensures
            r == mul_spec(sma_km, add_spec(one(), ecc)),
    {
        sma_km.mul(Binary64 { bits: ONE_BITS }.add(ecc))
    }

    /// The eccentricity vector `(k r - (r . v) v) / mu`, from the state and
    /// the quantities that the caller computes in floating point: `k`, the
    /// squared speed less `mu / |r|`; `r_dot_v`; and `mu` (km^3/s^2).
    pub fn evec(&self, k: Binary64, r_dot_v: Binary64, mu_km3_s2: Binary64) -> (e: [Binary64; 3])
        ensures
            forall|i: int|
                0 <= i < 3 ==> #[trigger] e[i] == div_spec(
                    sub_spec(mul_spec(k, self.radius_km[i]), mul_spec(r_dot_v, self.velocity_km_s[i])),
                    mu_km3_s2,
                ),
    {
        let r = self.radius_km;
        let v = self.velocity_km_s;
        let ex = k.mul(r[0]).sub(r_dot_v.mul(v[0])).div(mu_km3_s2);
        let ey = k.mul(r[1]).sub(r_dot_v.mul(v[1])).div(mu_km3_s2);
        let ez = k.mul(r[2]).sub(r_dot_v.mul(v[2])).div(mu_km3_s2);
        [ex, ey, ez]
    }

    /// The semi-major axis (km), `-mu / (2 energy)`, from the gravitational
    /// parameter (km^3/s^2) and the specific energy (km^2/s^2).
    pub fn sma_km(mu_km3_s2: Binary64, energy_km2_s2: Binary64) -> (r: Binary64)
        ensures
            r == div_spec(mu_km3_s2.neg_spec(), mul_spec(two(), energy_km2_s2)),
    {
        mu_km3_s2.neg().div(Binary64 { bits: TWO_BITS }.mul(energy_km2_s2))
    }

    /// The characteristic energy C3 (km^2/s^2), `-mu / sma`.
    pub fn c3_km2_s2(mu_km3_s2: Binary64, sma_km: Binary64) -> (r: Binary64)
        ensures
            r == div_spec(mu_km3_s2.neg_spec(), sma_km),
    {
        mu_km3_s2.neg().div(sma_km)
    }

    /// The semi-major axis and eccentricity of the orbit with the given radii
    /// of apoapsis and periapsis (km): `(r_a + r_p) / 2` and `r_a / sma - 1`.
    pub fn sma_ecc_from_apsis_radii(r_a: Binary64, r_p: Binary64) -> (r: (Binary64, Binary64))
        ensures
            r.0 == div_spec(add_spec(r_a, r_p), two()),
            r.1 == sub_spec(div_spec(r_a, r.0), one()),
    {
        let sma = r_a.add(r_p).div(Binary64 { bits: TWO_BITS });
        let ecc = r_a.div(sma).sub(Binary64 { bits: ONE_BITS });
        (sma, ecc)
    }

    /// The orbital momentum along X.
    pub fn hx(&self) -> (r: Binary64)
        ensures
            r == cross_spec(self.radius_km, self.velocity_km_s)[0],
            r == sub_spec(
                mul_spec(self.radius_km[1], self.velocity_km_s[2]),
                mul_spec(self.radius_km[2], self.velocity_km_s[1]),
            ),
    {
        self.hvec()[0]
    }

    /// The orbital momentum along Y.
    pub fn hy(&self) -> (r: Binary64)
        ensures
            r == cross_spec(self.radius_km, self.velocity_km_s)[1],
            r == sub_spec(
                mul_spec(self.radius_km[2], self.velocity_km_s[0]),
                mul_spec(self.radius_km[0], self.velocity_km_s[2]),
            ),
    {
        self.hvec()[1]
    }

    /// The orbital momentum along Z.
    pub fn hz(&self) -> (r: Binary64)
        ensures
            r == cross_spec(self.radius_km, self.velocity_km_s)[2],
            r == sub_spec(
                mul_spec(self.radius_km[0], self.velocity_km_s[1]),
                mul_spec(self.radius_km[1], self.velocity_km_s[0]),
            ),
    {
        self.hvec()[2]
    }
}

/// The binary64 constants that the decisions below compare against.
pub open spec fn ecc_epsilon() -> Binary64 {
    Binary64 { bits: ECC_EPSILON_BITS }
}

pub open spec fn zero() -> Binary64 {
    Binary64 { bits: ZERO_BITS }
}

pub open spec fn one() -> Binary64 {
    Binary64 { bits: ONE_BITS }
}

pub open spec fn minus_one() -> Binary64 {
    Binary64 { bits: MINUS_ONE_BITS }
}

pub open spec fn two() -> Binary64 {
    Binary64 { bits: TWO_BITS }
}

pub open spec fn deg_180() -> Binary64 {
    Binary64 { bits: DEG_180_BITS }
}

pub open spec fn km_3000() -> Binary64 {
    Binary64 { bits: KM_3000_BITS }
}

pub open spec fn machine_epsilon() -> Binary64 {
    Binary64 { bits: MACHINE_EPSILON_BITS }
}

/// The values of the constants, in units of 2^-1074.
pub proof fn lemma_constant_values()
    ensures
        zero().value() == 0,
        one().value() == pow2(1074),
        minus_one().value() == -pow2(1074),
        two().value() == 2 * pow2(1074),
        two().is_finite_spec(),
        deg_180().value() == 180 * pow2(1074),
        km_3000().value() == 3000 * pow2(1074),
        ecc_epsilon().value() == 6189700196426901 * pow2(985),
        zero().is_finite_spec() && one().is_finite_spec() && minus_one().is_finite_spec(),
        deg_180().is_finite_spec() && km_3000().is_finite_spec() && ecc_epsilon().is_finite_spec(),
{
    lemma2_to64();
    lemma2_to64_rest();
    lemma_pow2_adds(1022, 52);
    lemma_pow2_adds(1023, 52);
    lemma_pow2_unfold(1075);

    lemma_pow2_adds(1029, 45);
    lemma_pow2_adds(1033, 41);
    assert(0x10_0000_0000_0000 * pow2(1022) == pow2(1022) * pow2(52)) by {
        vstd::arithmetic::mul::lemma_mul_is_commutative(0x10_0000_0000_0000, pow2(1022) as int);
    }
    assert(6333186975989760 * pow2(1029) == 180 * (pow2(1029) * pow2(45))) by (nonlinear_arith)
        requires
            pow2(45) == 0x2000_0000_0000,
    ;
    assert(6597069766656000 * pow2(1033) == 3000 * (pow2(1033) * pow2(41))) by (nonlinear_arith)
        requires
            pow2(41) == 0x200_0000_0000,
    ;
}

/// The formula that an angle computed through an arccosine takes.
#[derive(Clone, Copy, Debug, PartialEq, Eq, Structural)]
pub enum AngleBranch {
    /// The arccosine failed with a cosine above one: 180 degrees.
    Half,
    /// The arccosine failed otherwise: 0 degrees.
    Zero,
    /// The angle lies past half a turn: 360 degrees minus the arccosine.
    Reflex,
    /// The arccosine itself.
    Direct,
}

/// The formula that the mean anomaly takes.
#[derive(Clone, Copy, Debug, PartialEq, Eq, Structural)]
pub enum AnomalyRegime {
    /// A circular orbit: the mean anomaly is 0.
    Circular,
    /// An elliptical orbit: Kepler's equation from the eccentric anomaly.
    Elliptical,
    /// Every other case: the hyperbolic anomaly.
    Hyperbolic,
}

/// The sign corrections of `try_keplerian`: a negative eccentricity is
/// negated, then the semi-major axis is negated when its sign disagrees with
/// the orbit's shape (negative for hyperbolic, positive for elliptical).
pub open spec fn keplerian_signs(sma: Binary64, ecc: Binary64) -> (Binary64, Binary64) {
    let e = if ecc.lt_spec(zero()) {
        mul_spec(ecc, minus_one())
    } else {
        ecc
    };
    let a = if one().lt_spec(e) && zero().lt_spec(sma) {
        mul_spec(sma, minus_one())
    } else if e.lt_spec(one()) && sma.lt_spec(zero()) {
        mul_spec(sma, minus_one())
    } else {
        sma
    };
    (a, e)
}

impl Cartesian {
    /// Whether a state with these elements admits the Brouwer mean short
    /// element set: inclination at most 180 degrees, eccentricity in [0, 1),
    /// periapsis at least 3000 km (comparisons as IEEE 754 makes them, so a
    /// NaN fails no test).
    pub fn is_brouwer_short_valid(inc_deg: Binary64, ecc: Binary64, periapsis_km: Binary64) -> (r: bool)
        ensures
            r == (!deg_180().lt_spec(inc_deg) && !(one().le_spec(ecc) || ecc.lt_spec(zero()))
                && !periapsis_km.lt_spec(km_3000())),
    {
        if inc_deg.gt(Binary64 { bits: DEG_180_BITS }) {
            false
        } else if ecc.ge(Binary64 { bits: ONE_BITS }) || ecc.lt(Binary64 { bits: ZERO_BITS }) {
            false
        } else if periapsis_km.lt(Binary64 { bits: KM_3000_BITS }) {
            false
        } else {
            true
        }
    }

    /// Which formula the argument of periapsis or the right ascension of the
    /// ascending node takes, given the arccosine `angle` of `cosine` and the
    /// quantity whose sign tells the half turn.
    pub fn angle_branch(angle: Binary64, cosine: Binary64, side: Binary64) -> (b: AngleBranch)
        ensures
            angle.is_nan_spec() && one().lt_spec(cosine) ==> b == AngleBranch::Half,
            angle.is_nan_spec() && !one().lt_spec(cosine) ==> b == AngleBranch::Zero,
            !angle.is_nan_spec() && side.lt_spec(zero()) ==> b == AngleBranch::Reflex,
            !angle.is_nan_spec() && !side.lt_spec(zero()) ==> b == AngleBranch::Direct,
    {
        if angle.is_nan() {
            if cosine.gt(Binary64 { bits: ONE_BITS }) {
                AngleBranch::Half
            } else {
                AngleBranch::Zero
            }
        } else if side.lt(Binary64 { bits: ZERO_BITS }) {
            AngleBranch::Reflex
        } else {
            AngleBranch::Direct
        }
    }

    /// Which formula the true anomaly takes, given the arccosine `angle` of
    /// `cosine` and the radial velocity `r . v`. Where the arccosine fails,
    /// the sign of the cosine picks the end of the half turn: 0 degrees for
    /// a cosine above one, 180 degrees for one below minus one (and 0 for a
    /// NaN cosine).
    pub fn true_anomaly_branch(angle: Binary64, cosine: Binary64, r_dot_v: Binary64) -> (b: AngleBranch)
        ensures
            angle.is_nan_spec() && cosine.lt_spec(minus_one()) ==> b == AngleBranch::Half,
            angle.is_nan_spec() && !cosine.lt_spec(minus_one()) ==> b == AngleBranch::Zero,
            !angle.is_nan_spec() && r_dot_v.lt_spec(zero()) ==> b == AngleBranch::Reflex,
            !angle.is_nan_spec() && !r_dot_v.lt_spec(zero()) ==> b == AngleBranch::Direct,
    {
        if angle.is_nan() {
            if cosine.lt(Binary64 { bits: MINUS_ONE_BITS }) {
                AngleBranch::Half
            } else {
                AngleBranch::Zero
            }
        } else if r_dot_v.lt(Binary64 { bits: ZERO_BITS }) {
            AngleBranch::Reflex
        } else {
            AngleBranch::Direct
        }
    }

    /// Whether an orbit of this eccentricity counts as circular (below
    /// `ECC_EPSILON`), so that its argument of latitude is taken from the true
    /// longitude rather than from the argument of periapsis.
    pub fn is_near_circular(ecc: Binary64) -> (r: bool)
        ensures
            r == ecc.lt_spec(ecc_epsilon()),
    {
        ecc.lt(Binary64 { bits: ECC_EPSILON_BITS })
    }

    /// Whether the semi-minor axis takes the formula of a closed orbit
    /// (eccentricity at most one) rather than that of a hyperbola.
    pub fn semi_minor_is_closed(ecc: Binary64) -> (r: bool)
        ensures
            r == ecc.le_spec(one()),
    {
        ecc.le(Binary64 { bits: ONE_BITS })
    }

    /// Which formula the mean anomaly takes for this eccentricity.
    pub fn anomaly_regime(ecc: Binary64) -> (r: AnomalyRegime)
        ensures
            ecc.abs_spec().lt_spec(ecc_epsilon()) ==> r == AnomalyRegime::Circular,
            !ecc.abs_spec().lt_spec(ecc_epsilon()) && ecc.lt_spec(one()) ==> r == AnomalyRegime::Elliptical,
            !ecc.abs_spec().lt_spec(ecc_epsilon()) && !ecc.lt_spec(one()) ==> r == AnomalyRegime::Hyperbolic,
    {
        if ecc.abs().lt(Binary64 { bits: ECC_EPSILON_BITS }) {
            AnomalyRegime::Circular
        } else if ecc.lt(Binary64 { bits: ONE_BITS }) {
            AnomalyRegime::Elliptical
        } else {
            AnomalyRegime::Hyperbolic
        }
    }

    /// The validation that `try_keplerian` makes before its trigonometry: the sign
    /// corrections of `keplerian_signs`, then the refusal of a parabolic
    /// orbit, one whose `|1 - ecc|` (in binary64) is below `ECC_EPSILON`.
    /// On success, the corrected semi-major axis and eccentricity.
    pub fn validate_keplerian(sma: Binary64, ecc: Binary64) -> (r: Result<(Binary64, Binary64), PhysicsErrorKind>)
        ensures
            ({
                let (a, e) = keplerian_signs(sma, ecc);
                if sub_spec(one(), e).abs_spec().lt_spec(ecc_epsilon()) {
                    r == Err::<(Binary64, Binary64), PhysicsErrorKind>(PhysicsErrorKind::ParabolicOrbit)
                } else {
                    r == Ok::<(Binary64, Binary64), PhysicsErrorKind>((a, e))
                }
            }),
    {
        let zero = Binary64 { bits: ZERO_BITS };
        let one = Binary64 { bits: ONE_BITS };
        let minus_one = Binary64 { bits: MINUS_ONE_BITS };
        let e = if ecc.lt(zero) {
            ecc.mul(minus_one)
        } else {
            ecc
        };
        let a = if e.gt(one) && sma.gt(zero) {
            sma.mul(minus_one)
        } else if e.lt(one) && sma.lt(zero) {
            sma.mul(minus_one)
        } else {
            sma
        };
        if one.sub(e).abs().lt(Binary64 { bits: ECC_EPSILON_BITS }) {
            Err(PhysicsErrorKind::ParabolicOrbit)
        } else {
            Ok((a, e))
        }
    }
}

/// The refusals that `try_keplerian` makes after `validate_keplerian`, in
/// order: a true anomaly beyond what a hyperbolic orbit reaches, an
/// infinite radius, a semilatus rectum below the machine epsilon.
pub open spec fn keplerian_checks_spec(
    ecc: Binary64,
    ta_deg: Binary64,
    limit_deg: Binary64,
    denom: Binary64,
    p: Binary64,
) -> Result<(), PhysicsErrorKind> {
    if one().lt_spec(ecc) && limit_deg.lt_spec(ta_deg) {
        Err(PhysicsErrorKind::InvalidHyperbolicTrueAnomaly(ta_deg))
    } else if denom.is_inf_spec() {
        Err(PhysicsErrorKind::InfiniteValue)
    } else if p.abs_spec().lt_spec(machine_epsilon()) {
        Err(PhysicsErrorKind::ParabolicOrbit)
    } else {
        Ok(())
    }
}

impl Cartesian {
    /// The checks of `try_keplerian` that follow `validate_keplerian`, on the
    /// values that the caller computes in floating point: the corrected
    /// eccentricity `ecc`, the true anomaly `ta_deg` brought into [0, 360),
    /// the largest true anomaly `limit_deg` that a hyperbolic orbit of this
    /// eccentricity reaches, the radius denominator `1 + ecc cos(ta)`, and
    /// the semilatus rectum `p` (km).
    pub fn keplerian_checks(
        ecc: Binary64,
        ta_deg: Binary64,
        limit_deg: Binary64,
        denom: Binary64,
        p: Binary64,
    ) -> (r: Result<(), PhysicsErrorKind>)
        ensures
            r == keplerian_checks_spec(ecc, ta_deg, limit_deg, denom, p),
    {
        if ecc.gt(Binary64 { bits: ONE_BITS }) && ta_deg.gt(limit_deg) {
            Err(PhysicsErrorKind::InvalidHyperbolicTrueAnomaly(ta_deg))
        } else if denom.is_infinite() {
            Err(PhysicsErrorKind::InfiniteValue)
        } else if p.abs().lt(Binary64 { bits: MACHINE_EPSILON_BITS }) {
            Err(PhysicsErrorKind::ParabolicOrbit)
        } else {
            Ok(())
        }
    }
}

/// The orbital momentum reverses when position and velocity trade places.
pub proof fn lemma_hvec_swap(state: Cartesian)
    ensures
        ({
            let swapped = Cartesian { radius_km: state.velocity_km_s, velocity_km_s: state.radius_km };
            forall|i: int|
                0 <= i < 3 ==> {
                    let u = #[trigger] cross_spec(state.radius_km, state.velocity_km_s)[i];
                    let w = cross_spec(swapped.radius_km, swapped.velocity_km_s)[i];
                    (u.is_nan_spec() && w.is_nan_spec()) || w.eq_spec(u.neg_spec())
                }
        }),
{
    lemma_cross_anticommutative(state.radius_km, state.velocity_km_s);
}

/// The corrections of `try_keplerian` leave an eccentricity that is not
/// negative, and a semi-major axis whose sign agrees with the orbit's shape:
/// not positive for a hyperbolic orbit, not negative for an elliptical one.
pub proof fn lemma_keplerian_signs(sma: Binary64, ecc: Binary64)
    ensures
        ({
            let (a, e) = keplerian_signs(sma, ecc);
            &&& !e.lt_spec(zero())
            &&& one().lt_spec(e) ==> !zero().lt_spec(a)
            &&& e.lt_spec(one()) ==> !a.lt_spec(zero())
        }),
{
    lemma_constant_values();
    lemma_mul_minus_one(ecc);
    lemma_mul_minus_one(sma);
    lemma_neg_parts(ecc);
    lemma_neg_parts(sma);
    let (a, e) = keplerian_signs(sma, ecc);
    if !e.is_nan_spec() {
        lemma_trichotomy(one(), e);
    }
}

/// `1 - 0` and `1 + 0` are exactly one.
proof fn lemma_one_plus_minus_zero()
    ensures
        sub_spec(one(), zero()) == one(),
        add_spec(one(), zero()) == one(),
{
    lemma_constant_values();
    lemma_neg_parts(zero());
    lemma_rounded_representable(one());
    lemma_from_magnitude_roundtrip(one());
}

/// For an orbit with a semi-major axis and an eccentricity that are not
/// negative, the periapsis radius is at most the semi-major axis and the
/// apoapsis radius at least, whenever both radii are finite.
#[verifier::spinoff_prover]
#[verifier::rlimit(40)]
pub proof fn lemma_apsides_bracket_sma(sma_km: Binary64, ecc: Binary64)
    requires
        sma_km.is_finite_spec(),
        ecc.is_finite_spec(),
        !sma_km.lt_spec(zero()),
        !ecc.lt_spec(zero()),
        mul_spec(sma_km, sub_spec(one(), ecc)).is_finite_spec(),
        mul_spec(sma_km, add_spec(one(), ecc)).is_finite_spec(),
    ensures
        mul_spec(sma_km, sub_spec(one(), ecc)).value() <= sma_km.value(),
        sma_km.value() <= mul_spec(sma_km, add_spec(one(), ecc)).value(),
{
    lemma_constant_values();
    lemma_one_plus_minus_zero();
    let t1 = sub_spec(one(), ecc);
    let t2 = add_spec(one(), ecc);
    assert(t1.is_finite_spec() && t2.is_finite_spec());
    lemma_sub_monotone(one(), ecc, one(), zero());
    lemma_add_monotone(one(), zero(), one(), ecc);
    lemma_mul_one(sma_km);
    assert(mul_spec(sma_km, one()) == sma_km);
    vstd::arithmetic::mul::lemma_mul_inequality(t1.value(), one().value(), sma_km.value());
    vstd::arithmetic::mul::lemma_mul_inequality(one().value(), t2.value(), sma_km.value());
    vstd::arithmetic::mul::lemma_mul_is_commutative(t1.value(), sma_km.value());
    vstd::arithmetic::mul::lemma_mul_is_commutative(t2.value(), sma_km.value());
    vstd::arithmetic::mul::lemma_mul_is_commutative(one().value(), sma_km.value());
    lemma_mul_monotone(sma_km, t1, sma_km, one());
    lemma_mul_monotone(sma_km, one(), sma_km, t2);
}

/// For a bound orbit (a finite positive semi-major axis and an eccentricity
/// in [0, 1)), the periapsis radius is finite, not negative and at most the
/// semi-major axis, and the apoapsis radius is not below it.
pub proof fn lemma_bound_orbit_apsides(sma_km: Binary64, ecc: Binary64)
    requires
        sma_km.is_finite_spec(),
        zero().lt_spec(sma_km),
        !ecc.lt_spec(zero()),
        ecc.lt_spec(one()),
    ensures
        ({
            let peri = mul_spec(sma_km, sub_spec(one(), ecc));
            let apo = mul_spec(sma_km, add_spec(one(), ecc));
            &&& peri.is_finite_spec()
            &&& !peri.lt_spec(zero())
            &&& peri.value() <= sma_km.value()
            &&& peri.le_spec(apo)
        }),
{
    lemma_constant_values();
    lemma_neg_parts(ecc);
    let t1 = sub_spec(one(), ecc);
    let t2 = add_spec(one(), ecc);
    assert(ecc.is_finite_spec());
    lemma_add_positive_between(one(), ecc.neg_spec(), zero(), one());
    lemma_add_positive_between(one(), ecc, one(), two());
    assert(t1.magnitude() <= pow2(1074));
    vstd::arithmetic::mul::lemma_mul_inequality(t1.magnitude() as int, pow2(1074) as int, sma_km.magnitude() as int);
    vstd::arithmetic::mul::lemma_mul_is_commutative(t1.magnitude() as int, sma_km.magnitude() as int);
    vstd::arithmetic::mul::lemma_mul_is_commutative(pow2(1074) as int, sma_km.magnitude() as int);
    lemma_mul_below(sma_km, t1, sma_km);
    let peri = mul_spec(sma_km, t1);
    let apo = mul_spec(sma_km, t2);
    lemma_from_magnitude_fields(false, rounded_magnitude(sma_km.magnitude() * t2.magnitude(), 1074));
    if apo.is_finite_spec() {
        vstd::arithmetic::mul::lemma_mul_inequality(t1.value(), t2.value(), sma_km.value());
        vstd::arithmetic::mul::lemma_mul_is_commutative(t1.value(), sma_km.value());
        vstd::arithmetic::mul::lemma_mul_is_commutative(t2.value(), sma_km.value());
        lemma_mul_monotone(sma_km, t1, sma_km, t2);
    }
}

/// With a positive gravitational parameter, the characteristic energy
/// `-mu / sma` is not positive for a positive semi-major axis (a bound
/// orbit) and not negative for a negative one.
pub proof fn lemma_c3_sign(mu_km3_s2: Binary64, sma_km: Binary64)
    requires
        zero().lt_spec(mu_km3_s2),
    ensures
        zero().lt_spec(sma_km) ==> !zero().lt_spec(div_spec(mu_km3_s2.neg_spec(), sma_km)),
        sma_km.lt_spec(zero()) ==> !div_spec(mu_km3_s2.neg_spec(), sma_km).lt_spec(zero()),
{
    lemma_constant_values();
    lemma_neg_parts(mu_km3_s2);
    let a = mu_km3_s2.neg_spec();
    let neg = a.sign() != sma_km.sign();
    lemma_from_magnitude_fields(neg, rounded_ratio(a.magnitude() * pow2(1074), sma_km.magnitude()));
}

/// For a bound orbit whose periapsis product `sma * (1 - ecc)` (with `1 - ecc`
/// as rounded) exceeds half the smallest subnormal, the periapsis radius is
/// strictly positive.
pub proof fn lemma_bound_orbit_periapsis_positive(sma_km: Binary64, ecc: Binary64)
    requires
        sma_km.is_finite_spec(),
        zero().lt_spec(sma_km),
        !ecc.lt_spec(zero()),
        ecc.lt_spec(one()),
        2 * (sma_km.value() * sub_spec(one(), ecc).value()) > pow2(1074),
    ensures
        zero().lt_spec(mul_spec(sma_km, sub_spec(one(), ecc))),
{
    lemma_constant_values();
    lemma_neg_parts(ecc);
    lemma_bound_orbit_apsides(sma_km, ecc);
    let t1 = sub_spec(one(), ecc);
    lemma_add_positive_between(one(), ecc.neg_spec(), zero(), one());
    assert(sma_km.value() * t1.value() == sma_km.magnitude() * t1.magnitude());
    lemma_mul_no_underflow(sma_km, t1);
    let peri = mul_spec(sma_km, t1);
    crate::binary64::lemma_magnitude_zero(peri);
}

/// With a positive gravitational parameter and a finite semi-major axis
/// for which `mu / |sma|` exceeds half the smallest subnormal, the
/// characteristic energy `-mu / sma` is negative for a positive semi-major
/// axis (a bound orbit) and positive for a negative one.
pub proof fn lemma_c3_strict_sign(mu_km3_s2: Binary64, sma_km: Binary64)
    requires
        mu_km3_s2.is_finite_spec(),
        zero().lt_spec(mu_km3_s2),
        sma_km.is_finite_spec(),
        2 * (mu_km3_s2.magnitude() * pow2(1074)) > sma_km.magnitude(),
    ensures
        zero().lt_spec(sma_km) ==> div_spec(mu_km3_s2.neg_spec(), sma_km).lt_spec(zero()),
        sma_km.lt_spec(zero()) ==> zero().lt_spec(div_spec(mu_km3_s2.neg_spec(), sma_km)),
{
    lemma_constant_values();
    lemma_neg_parts(mu_km3_s2);
    lemma_c3_sign(mu_km3_s2, sma_km);
    let c3 = div_spec(mu_km3_s2.neg_spec(), sma_km);
    if sma_km.abs_bits() != 0 {
        assert(mu_km3_s2.neg_spec().magnitude() == mu_km3_s2.magnitude());
        lemma_div_no_underflow(mu_km3_s2.neg_spec(), sma_km);
        let a = mu_km3_s2.neg_spec();
        let neg = a.sign() != sma_km.sign();
        lemma_from_magnitude_fields(neg, rounded_ratio(a.magnitude() * pow2(1074), sma_km.magnitude()));
        assert(!c3.is_nan_spec());
        if c3.is_finite_spec() {
            crate::binary64::lemma_magnitude_zero(c3);
            assert(c3.value() != 0);
        }
    } else {
        crate::binary64::lemma_magnitude_zero(sma_km);
    }
}

/// Each component of a cross product is the rounded difference of the
/// rounded products of the other two components, for every pair of vectors.
pub proof fn lemma_cross_components(a: [Binary64; 3], b: [Binary64; 3])
    ensures
        cross_spec(a, b).len() == 3,
        cross_spec(a, b)[0] == sub_spec(mul_spec(a[1], b[2]), mul_spec(a[2], b[1])),
        cross_spec(a, b)[1] == sub_spec(mul_spec(a[2], b[0]), mul_spec(a[0], b[2])),
        cross_spec(a, b)[2] == sub_spec(mul_spec(a[0], b[1]), mul_spec(a[1], b[0])),
{
}

/// The momentum of a planar state (finite, with zero z components) lies
/// along the z axis: its x and y components are zeros.
pub proof fn lemma_planar_momentum(state: Cartesian)
    requires
        forall|i: int| 0 <= i < 3 ==> (#[trigger] state.radius_km[i]).is_finite_spec(),
        forall|i: int| 0 <= i < 3 ==> (#[trigger] state.velocity_km_s[i]).is_finite_spec(),
        state.radius_km[2].abs_bits() == 0,
        state.velocity_km_s[2].abs_bits() == 0,
    ensures
        cross_spec(state.radius_km, state.velocity_km_s)[0].abs_bits() == 0,
        cross_spec(state.radius_km, state.velocity_km_s)[1].abs_bits() == 0,
{
    let r = state.radius_km;
    let v = state.velocity_km_s;
    assert(r[0].is_finite_spec() && r[1].is_finite_spec() && r[2].is_finite_spec());
    assert(v[0].is_finite_spec() && v[1].is_finite_spec() && v[2].is_finite_spec());
    lemma_mul_by_zero(r[1], v[2]);
    lemma_mul_by_zero(v[1], r[2]);
    lemma_mul_commutative(r[2], v[1]);
    lemma_mul_by_zero(v[0], r[2]);
    lemma_mul_commutative(r[2], v[0]);
    lemma_mul_by_zero(r[0], v[2]);
    lemma_sub_of_zeros(mul_spec(r[1], v[2]), mul_spec(r[2], v[1]));
    lemma_sub_of_zeros(mul_spec(r[2], v[0]), mul_spec(r[0], v[2]));
}

/// A dot product is the rounded sum, from the first component on, of the
/// rounded products of the components, for every pair of vectors (a vector
/// with itself included).
pub proof fn lemma_dot_components(a: [Binary64; 3], b: [Binary64; 3])
    ensures
        dot_spec(a, b) == add_spec(add_spec(mul_spec(a[0], b[0]), mul_spec(a[1], b[1])), mul_spec(a[2], b[2])),
        dot_spec(a, a) == add_spec(add_spec(mul_spec(a[0], a[0]), mul_spec(a[1], a[1])), mul_spec(a[2], a[2])),
{
}

/// Elements that are not hyperbolic, with a finite radius denominator and a
/// semilatus rectum not below the machine epsilon in size, pass the checks
/// whatever the true anomaly, its limit and the sign of the denominator.
pub proof fn lemma_checks_accept_closed_orbits(
    ecc: Binary64,
    ta_deg: Binary64,
    limit_deg: Binary64,
    denom: Binary64,
    p: Binary64,
)
    requires
        !one().lt_spec(ecc),
        !denom.is_inf_spec(),
        !p.abs_spec().lt_spec(machine_epsilon()),
    ensures
        keplerian_checks_spec(ecc, ta_deg, limit_deg, denom, p) == Ok::<(), PhysicsErrorKind>(()),
{
}

/// A hyperbolic orbit refuses every true anomaly beyond its limit, on either
/// side of 180 degrees, and reports that true anomaly.
pub proof fn lemma_checks_refuse_past_asymptote(
    ecc: Binary64,
    ta_deg: Binary64,
    limit_deg: Binary64,
    denom: Binary64,
    p: Binary64,
)
    requires
        one().lt_spec(ecc),
        limit_deg.lt_spec(ta_deg),
    ensures
        keplerian_checks_spec(ecc, ta_deg, limit_deg, denom, p)
            == Err::<(), PhysicsErrorKind>(PhysicsErrorKind::InvalidHyperbolicTrueAnomaly(ta_deg)),
{
}

/// The infinite-radius refusal comes exactly from an infinite denominator
/// (when the true anomaly was not refused first), and the parabolic refusal
/// exactly from a semilatus rectum below the machine epsilon in size (when
/// nothing was refused before).
pub proof fn lemma_checks_refusal_causes(
    ecc: Binary64,
    ta_deg: Binary64,
    limit_deg: Binary64,
    denom: Binary64,
    p: Binary64,
)
    ensures
        ({
            let r = keplerian_checks_spec(ecc, ta_deg, limit_deg, denom, p);
            let past = one().lt_spec(ecc) && limit_deg.lt_spec(ta_deg);
            &&& (r == Err::<(), PhysicsErrorKind>(PhysicsErrorKind::InfiniteValue)) <==> (!past && denom.is_inf_spec())
            &&& (r == Err::<(), PhysicsErrorKind>(PhysicsErrorKind::ParabolicOrbit)) <==> (!past
                && !denom.is_inf_spec() && p.abs_spec().lt_spec(machine_epsilon()))
            &&& r is Ok <==> (!past && !denom.is_inf_spec() && !p.abs_spec().lt_spec(machine_epsilon()))
        }),
{
}

/// Equal radii of apoapsis and periapsis give a circular orbit: the
/// semi-major axis is that radius and the eccentricity is exactly zero
/// (for a nonzero radius whose double is finite).
pub proof fn lemma_equal_apsis_radii_circular(r: Binary64)
    requires
        r.is_finite_spec(),
        r.abs_bits() != 0,
        r.exponent() < 2046,
    ensures
        div_spec(add_spec(r, r), two()) == r,
        sub_spec(div_spec(r, div_spec(add_spec(r, r), two())), one()) == zero(),
{
    lemma_double_then_halve(r);
    lemma_div_self(r);
    lemma_constant_values();
    lemma_neg_parts(one());
}

} // verus!
