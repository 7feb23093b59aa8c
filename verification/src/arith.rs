//! Correctly rounded binary64 addition, subtraction and multiplication
//! (round to nearest, ties to even), as IEEE 754 defines them.
use vstd::prelude::*;
use vstd::arithmetic::power2::*;
use vstd::arithmetic::logarithm::*;
use vstd::arithmetic::mul::*;
use vstd::arithmetic::div_mod::*;
use crate::binary64::{
    Binary64, two52, lemma_magnitude_bounds, lemma_magnitude_zero, SIGN_MASK, NAN_BITS,
};
use crate::rounding::{
    round_spec, round_scaled, rounded_magnitude, from_magnitude, ulp_exponent, round_half_even,
    overflow_threshold, round_pack, pow2_u128, lemma_log2_of_bounds, lemma_round_half_even_scale,
    lemma_round_half_even_exact,
    lemma_pow2_126,
};

verus! {

/// The quiet NaN that this arithmetic returns for every invalid operation.
pub open spec fn nan() -> Binary64 {
    Binary64 { bits: 0x7ff8_0000_0000_0000 }
}

/// A signed zero.
pub open spec fn zero(neg: bool) -> Binary64 {
    Binary64 { bits: if neg { 0x8000_0000_0000_0000 } else { 0 } }
}

/// A signed infinity.
pub open spec fn infinity(neg: bool) -> Binary64 {
    Binary64 { bits: if neg { 0xfff0_0000_0000_0000 } else { 0x7ff0_0000_0000_0000 } }
}

/// Two results agree as IEEE 754 results: both NaN (whose payload IEEE 754
/// leaves open), or the same pattern.
pub open spec fn same_result(x: Binary64, y: Binary64) -> bool {
    (x.is_nan_spec() && y.is_nan_spec()) || x == y
}

/// IEEE 754 multiplication, rounded to nearest, ties to even.
pub open spec fn mul_spec(a: Binary64, b: Binary64) -> Binary64 {
    let neg = a.sign() != b.sign();
    if a.is_nan_spec() || b.is_nan_spec() {
        nan()
    } else if a.is_inf_spec() || b.is_inf_spec() {
        if a.abs_bits() == 0 || b.abs_bits() == 0 {
            nan()
        } else {
            infinity(neg)
        }
    } else {
        round_spec(neg, a.magnitude() * b.magnitude(), 1074)
    }
}

/// IEEE 754 addition, rounded to nearest, ties to even.
pub open spec fn add_spec(a: Binary64, b: Binary64) -> Binary64 {
    if a.is_nan_spec() || b.is_nan_spec() {
        nan()
    } else if a.is_inf_spec() && b.is_inf_spec() {
        if a.sign() == b.sign() {
            a
        } else {
            nan()
        }
    } else if a.is_inf_spec() {
        a
    } else if b.is_inf_spec() {
        b
    } else {
        let s = a.value() + b.value();
        if s == 0 {
            zero(a.sign() && b.sign())
        } else if s < 0 {
            round_spec(true, (-s) as nat, 0)
        } else {
            round_spec(false, s as nat, 0)
        }
    }
}

/// IEEE 754 subtraction: `a - b` is `a + (-b)`.
pub open spec fn sub_spec(a: Binary64, b: Binary64) -> Binary64 {
    add_spec(a, b.neg_spec())
}

/// The sign bit and non-sign bits make up the pattern.
pub proof fn lemma_bits_parts(x: Binary64)
    ensures
        x.bits == (if x.sign() { 0x8000_0000_0000_0000nat } else { 0nat }) + x.abs_bits(),
{
}

/// Encoding the magnitude of a finite value gives the value back.
pub proof fn lemma_from_magnitude_roundtrip(x: Binary64)
    requires
        x.is_finite_spec(),
    ensures
        from_magnitude(x.sign(), x.magnitude()) == x,
{
    lemma_magnitude_bounds(x);
    lemma2_to64();
    lemma2_to64_rest();
    let e = x.exponent();
    let m = x.magnitude();
    if e > 0 {
        let p = pow2((e - 1) as nat);
        lemma_pow2_pos((e - 1) as nat);
        lemma_pow2_adds(52, (e - 1) as nat);
        lemma_pow2_adds(52, e);
        lemma_pow2_unfold(e);
        lemma_mul_is_commutative(two52() as int, p as int);
        lemma_log2_of_bounds(m as int, (51 + e) as nat);
        if 52 + e < 2098 {
            lemma_pow2_strictly_increases((52 + e) as nat, 2098);
        }
        if e > 1 {
            lemma_pow2_strictly_increases(52, (51 + e) as nat);
        }
        lemma_div_multiples_vanish((two52() + x.fraction()) as int, p as int);
        lemma_mul_is_commutative((two52() + x.fraction()) as int, p as int);
    } else {
        lemma_pow2_strictly_increases(52, 2098);
    }
    lemma_bits_parts(x);
}

/// Scaling the magnitude and the scale together leaves the rounding unchanged.
pub proof fn lemma_rounded_magnitude_scale(m: nat, s: nat, j: nat)
    ensures
        rounded_magnitude(m * pow2(j), s + j) == rounded_magnitude(m, s),
{
    lemma_pow2_pos(j);
    lemma_pow2_pos(s);
    lemma_pow2_adds(j, s);
    lemma_mul_is_commutative(pow2(j) as int, pow2(s) as int);
    lemma_div_denominator((m * pow2(j)) as int, pow2(j) as int, pow2(s) as int);
    lemma_mul_is_commutative(m as int, pow2(j) as int);
    lemma_div_multiples_vanish(m as int, pow2(j) as int);
    let q = ulp_exponent(m / pow2(s));
    lemma_round_half_even_scale(m, q + s, j);
}

/// A finite value as `m * 2^e` units.
pub(crate) fn unpack(x: Binary64) -> (r: (u64, u32))
    requires
        x.is_finite_spec(),
    ensures
        r.0 * pow2(r.1 as nat) == x.magnitude(),
        r.0 < pow2(53),
        r.1 <= 2045,
        r.1 > 0 ==> r.0 >= two52(),
        x.exponent() > 0 ==> r.0 >= two52() && r.1 == x.exponent() - 1,
        r.0 == 0 <==> x.abs_bits() == 0,
{
    proof {
        lemma2_to64();
        lemma2_to64_rest();
        lemma_magnitude_bounds(x);
    }
    let abs = x.bits % SIGN_MASK;
    let exp = abs / 0x10_0000_0000_0000;
    let frac = abs % 0x10_0000_0000_0000;
    assert(abs == x.abs_bits());
    assert(exp == x.exponent());
    assert(frac == x.fraction());
    if exp == 0 {
        assert(frac * pow2(0) == frac);
        (frac, 0)
    } else {
        let m = 0x10_0000_0000_0000 + frac;
        let e = (exp - 1) as u32;
        assert(m * pow2(e as nat) == x.magnitude());
        (m, e)
    }
}

impl Binary64 {
    /// IEEE 754 multiplication, rounded to nearest, ties to even.
    pub fn mul(self, other: Binary64) -> (r: Binary64)
        ensures
            r == mul_spec(self, other),
    {
        let neg = self.is_sign_negative() != other.is_sign_negative();
        if self.is_nan() || other.is_nan() {
            return Binary64 { bits: NAN_BITS };
        }
        if self.is_infinite() || other.is_infinite() {
            if self.bits % SIGN_MASK == 0 || other.bits % SIGN_MASK == 0 {
                return Binary64 { bits: NAN_BITS };
            }
            return Binary64 { bits: if neg { 0xfff0_0000_0000_0000 } else { 0x7ff0_0000_0000_0000 } };
        }
        let (ma, ea) = unpack(self);
        let (mb, eb) = unpack(other);
        proof {
            lemma2_to64();
            lemma2_to64_rest();
            lemma_pow2_adds(53, 53);
            assert(ma * mb < pow2(53) * pow2(53)) by (nonlinear_arith)
                requires
                    ma < pow2(53),
                    mb < pow2(53),
            ;
            lemma_pow2_strictly_increases(106, 126);
        }
        let p: u128 = ma as u128 * mb as u128;
        let t: i32 = ea as i32 + eb as i32;
        let e: i32 = t - 1074;
        proof {
            let pa = pow2(ea as nat) as int;
            let pb = pow2(eb as nat) as int;
            lemma_pow2_adds(ea as nat, eb as nat);
            assert(self.magnitude() * other.magnitude() == p * pow2(t as nat)) by (nonlinear_arith)
                requires
                    self.magnitude() == ma * pa,
                    other.magnitude() == mb * pb,
                    p == ma * mb,
                    pow2(t as nat) == pa * pb,
            ;
            if e >= 0 {
                lemma_pow2_adds(e as nat, 1074);
                lemma_mul_is_associative(p as int, pow2(e as nat) as int, pow2(1074) as int);
                lemma_rounded_magnitude_scale((p * pow2(e as nat)) as nat, 0, 1074);
            } else {
                lemma_rounded_magnitude_scale(p as nat, (1074 - t) as nat, t as nat);
            }
        }
        round_pack(neg, p, e)
    }
}


/// Addition does not depend on the order of its operands.
pub proof fn lemma_add_commutative(a: Binary64, b: Binary64)
    ensures
        add_spec(a, b) == add_spec(b, a),
{
}

/// A magnitude within a quarter step of `ma * 2^ea` (a normal significand
/// `ma`) rounds to `ma * 2^ea`.
pub proof fn lemma_rounds_to_grid_point(ma: nat, ea: nat, x: nat)
    requires
        two52() <= ma < pow2(53),
        ea >= 2,
        ma * pow2(ea) - pow2((ea - 2) as nat) < x < ma * pow2(ea) + pow2((ea - 2) as nat),
    ensures
        rounded_magnitude(x, 0) == ma * pow2(ea),
{
    lemma2_to64();
    lemma2_to64_rest();
    let p = pow2(ea) as int;
    let h = pow2((ea - 1) as nat) as int;
    let q = pow2((ea - 2) as nat) as int;
    lemma_pow2_unfold(ea);
    lemma_pow2_unfold((ea - 1) as nat);
    lemma_pow2_pos((ea - 2) as nat);
    lemma_pow2_adds(52, ea);
    lemma_pow2_adds(53, ea);
    lemma_pow2_adds(52, (ea - 1) as nat);
    lemma_pow2_adds(53, (ea - 1) as nat);
    let t52 = two52() as int;
    assert(x / pow2(0) == x);
    let m = ma as int;
    if x >= m * p {
        let delta = x - m * p;
        assert(t52 * p <= x < pow2(53) * p) by (nonlinear_arith)
            requires
                t52 <= m,
                m + 1 <= pow2(53),
                x == m * p + delta,
                0 <= delta < q,
                p == 2 * h,
                h == 2 * q,
                q > 0,
        ;
        lemma_mul_is_commutative(t52, p);
        lemma_mul_is_commutative(pow2(53) as int, p);
        lemma_log2_of_bounds(x as int, 52 + ea);
        lemma_pow2_strictly_increases(53, 52 + ea);
        assert(ulp_exponent(x) == ea);
        lemma_fundamental_div_mod_converse(x as int, p, m, delta);
    } else if ma > two52() {
        let r = x - (m - 1) * p;
        assert(0 < r < p && 2 * r > p && x == (m - 1) * p + r && t52 * p <= x) by (nonlinear_arith)
            requires
                t52 < m,
                x < m * p,
                x > m * p - q,
                r == x - (m - 1) * p,
                p == 2 * h,
                h == 2 * q,
                q > 0,
        ;
        assert(x < pow2(53) * p) by (nonlinear_arith)
            requires
                x < m * p,
                m < pow2(53),
                p > 0,
        ;
        lemma_mul_is_commutative(t52, p);
        lemma_mul_is_commutative(pow2(53) as int, p);
        lemma_log2_of_bounds(x as int, 52 + ea);
        lemma_pow2_strictly_increases(53, 52 + ea);
        lemma_fundamental_div_mod_converse(x as int, p, m - 1, r);
    } else {
        // just below a power of two: the grid is twice as fine there
        let d = pow2(53) - 1;
        let r = x - d * h;
        assert(0 < r < h && 2 * r > h && x == d * h + r && t52 * h <= x && x < pow2(53) * h)
            by (nonlinear_arith)
            requires
                m == t52,
                pow2(53) == 2 * t52,
                d == pow2(53) - 1,
                x < m * p,
                x > m * p - q,
                r == x - d * h,
                p == 2 * h,
                h == 2 * q,
                q > 0,
                t52 > 1,
        ;
        lemma_mul_is_commutative(t52, h);
        lemma_mul_is_commutative(pow2(53) as int, h);
        lemma_log2_of_bounds(x as int, (52 + ea - 1) as nat);
        lemma_pow2_strictly_increases(53, (52 + ea - 1) as nat);
        assert(ulp_exponent(x) == ea - 1);
        lemma_fundamental_div_mod_converse(x as int, h, d, r);
        assert(d % 2 == 1);
        assert(round_half_even(x, (ea - 1) as nat) == pow2(53));
        assert(pow2(53) * h == m * p) by (nonlinear_arith)
            requires
                m == t52,
                pow2(53) == 2 * t52,
                p == 2 * h,
        ;
    }
}

/// With exponents more than 70 apart, the smaller operand is absorbed.
pub proof fn lemma_absorb(a: Binary64, b: Binary64, ma: nat, ea: nat, mb: nat, eb: nat)
    requires
        a.is_finite_spec(),
        b.is_finite_spec(),
        ma * pow2(ea) == a.magnitude(),
        mb * pow2(eb) == b.magnitude(),
        two52() <= ma < pow2(53),
        mb < pow2(53),
        ea > eb + 70,
    ensures
        add_spec(a, b) == a,
{
    lemma2_to64();
    lemma2_to64_rest();
    // the smaller magnitude is below 2^(53 + eb) <= 2^(ea - 2)
    lemma_pow2_adds(53, eb);
    lemma_pow2_pos(eb);
    lemma_mul_strict_inequality(mb as int, pow2(53) as int, pow2(eb) as int);
    lemma_pow2_strictly_increases(53 + eb, (ea - 2) as nat);
    lemma_pow2_pos(ea);
    lemma_pow2_pos((ea - 2) as nat);
    lemma_pow2_strictly_increases((ea - 2) as nat, ea);
    lemma_mul_inequality(1, ma as int, pow2(ea) as int);
    let big = a.magnitude() as int;
    let small = b.magnitude() as int;
    assert(small < pow2((ea - 2) as nat));
    assert(big >= pow2(ea));
    let s = a.value() + b.value();
    let x: nat = if s < 0 { (-s) as nat } else { s as nat };
    assert(x == big + small || x == big - small);
    lemma_rounds_to_grid_point(ma, ea, x);
    lemma_from_magnitude_roundtrip(a);
}

/// `a + b` for finite operands whose exponents are ordered.
fn add_ordered(a: Binary64, b: Binary64, ma: u64, ea: u32, mb: u64, eb: u32) -> (r: Binary64)
    requires
        a.is_finite_spec(),
        b.is_finite_spec(),
        ma * pow2(ea as nat) == a.magnitude(),
        mb * pow2(eb as nat) == b.magnitude(),
        ma < pow2(53),
        mb < pow2(53),
        ea <= 2045,
        eb <= ea,
        ea > 0 ==> ma >= two52(),
    ensures
        r == add_spec(a, b),
{
    let d = ea - eb;
    if d > 70 {
        proof {
            lemma_absorb(a, b, ma as nat, ea as nat, mb as nat, eb as nat);
        }
        return a;
    }
    proof {
        lemma2_to64();
        lemma2_to64_rest();
        lemma_pow2_126();
        lemma_pow2_strictly_increases(d as nat, 126);
    }
    let pd = pow2_u128(d);
    proof {
        lemma_pow2_pos(d as nat);
        lemma_pow2_adds(53, d as nat);
        if d < 70 {
            lemma_pow2_strictly_increases(d as nat, 70);
        }
        lemma_pow2_adds(53, 70);
        lemma_pow2_strictly_increases(123, 125);
        lemma_pow2_strictly_increases(125, 126);
        lemma_pow2_unfold(124);
        lemma_pow2_unfold(125);
        assert(ma * pd < pow2(53) * pow2(70)) by (nonlinear_arith)
            requires
                ma < pow2(53),
                pd <= pow2(70),
                pd > 0,
        ;
    }
    let big: u128 = ma as u128 * pd;
    let small: u128 = mb as u128;
    let sa = a.is_sign_negative();
    let sb = b.is_sign_negative();
    let p: u128;
    let neg: bool;
    if sa == sb {
        p = big + small;
        neg = sa;
    } else if big >= small {
        p = big - small;
        neg = sa;
    } else {
        p = small - big;
        neg = sb;
    }
    proof {
        let pe = pow2(eb as nat) as int;
        lemma_pow2_adds(d as nat, eb as nat);
        assert(a.magnitude() == big * pe) by (nonlinear_arith)
            requires
                a.magnitude() == ma * pow2(ea as nat),
                pow2(ea as nat) == pd * pe,
                big == ma * pd,
        ;
        lemma_pow2_pos(eb as nat);
        let s = a.value() + b.value();
        let bb = big * pe;
        let ss = small * pe;
        assert(b.magnitude() == ss);
        if sa == sb {
            lemma_mul_is_distributive_add_other_way(pe, big as int, small as int);
            assert(p * pe == bb + ss);
        } else if big >= small {
            lemma_mul_is_distributive_sub_other_way(pe, big as int, small as int);
            assert(p * pe == bb - ss);
        } else {
            lemma_mul_is_distributive_sub_other_way(pe, small as int, big as int);
            assert(p * pe == ss - bb);
        }
        assert(s == (if neg { -(p * pe) } else { p * pe }));
        lemma_mul_nonnegative(p as int, pe);
        if p > 0 {
            lemma_mul_strictly_positive(p as int, pe);
        }
        if p == 0 && sa == sb {
            lemma_magnitude_zero(a);
            lemma_magnitude_zero(b);
        }
    }
    if p == 0 {
        return Binary64 { bits: if sa && sb { SIGN_MASK } else { 0 } };
    }
    round_pack(neg, p, eb as i32)
}

impl Binary64 {
    /// IEEE 754 addition, rounded to nearest, ties to even.
    pub fn add(self, other: Binary64) -> (r: Binary64)
        ensures
            r == add_spec(self, other),
    {
        if self.is_nan() || other.is_nan() {
            return Binary64 { bits: NAN_BITS };
        }
        if self.is_infinite() {
            if other.is_infinite() && self.is_sign_negative() != other.is_sign_negative() {
                return Binary64 { bits: NAN_BITS };
            }
            return self;
        }
        if other.is_infinite() {
            return other;
        }
        let (ma, ea) = unpack(self);
        let (mb, eb) = unpack(other);
        if ea >= eb {
            add_ordered(self, other, ma, ea, mb, eb)
        } else {
            proof {
                lemma_add_commutative(self, other);
            }
            add_ordered(other, self, mb, eb, ma, ea)
        }
    }

    /// IEEE 754 subtraction, rounded to nearest, ties to even.
    pub fn sub(self, other: Binary64) -> (r: Binary64)
        ensures
            r == sub_spec(self, other),
    {
        self.add(other.neg())
    }
}

/// floor(log2 x) brackets x between powers of two.
pub proof fn lemma_log2_bounds(x: int)
    requires
        x >= 1,
    ensures
        log(2, x) >= 0,
        pow2(log(2, x) as nat) <= x < pow2((log(2, x) + 1) as nat),
    decreases x,
{
    lemma2_to64();
    if x < 2 {
        lemma_log0(2, x);
    } else {
        lemma_log_s(2, x);
        lemma_log2_bounds(x / 2);
        let l = log(2, x / 2);
        lemma_pow2_unfold((l + 1) as nat);
        lemma_pow2_unfold((l + 2) as nat);
    }
}

/// The fields of an encoded magnitude below the overflow threshold, and the
/// infinity above it.
pub proof fn lemma_from_magnitude_fields(neg: bool, mag: nat)
    ensures
        from_magnitude(neg, mag).sign() == neg,
        mag >= overflow_threshold() ==> from_magnitude(neg, mag).is_inf_spec(),
        mag < overflow_threshold() ==> from_magnitude(neg, mag).is_finite_spec(),
        mag < two52() ==> from_magnitude(neg, mag).exponent() == 0
            && from_magnitude(neg, mag).fraction() == mag,
        two52() <= mag < overflow_threshold() ==> ({
            let e = (log(2, mag as int) - 51) as nat;
            &&& 1 <= e <= 2046
            &&& from_magnitude(neg, mag).exponent() == e
            &&& from_magnitude(neg, mag).fraction() + two52() == mag / pow2((e - 1) as nat)
            &&& two52() * pow2((e - 1) as nat) <= mag < 2 * two52() * pow2((e - 1) as nat)
        }),
        from_magnitude(!neg, mag).abs_bits() == from_magnitude(neg, mag).abs_bits(),
{
    lemma2_to64();
    lemma2_to64_rest();
    lemma_pow2_strictly_increases(52, 2098);
    if two52() <= mag < overflow_threshold() {
        lemma_log2_bounds(mag as int);
        let l = log(2, mag as int);
        if l < 52 {
            lemma_pow2_strictly_increases((l + 1) as nat, 52);
        }
        if l > 2098 {
            lemma_pow2_strictly_increases(2098, l as nat);
        }
        let e = (l - 51) as nat;
        lemma_pow2_adds(52, (e - 1) as nat);
        lemma_pow2_adds(53, (e - 1) as nat);
        lemma_pow2_unfold(53);
        lemma_div_pow2_range(mag, (e - 1) as nat);
    }
}

/// Dividing a magnitude of the binade [2^(52+k), 2^(53+k)) by 2^k leaves a
/// 53-bit significand.
pub(crate) proof fn lemma_div_pow2_range(mag: nat, k: nat)
    requires
        pow2(52 + k) <= mag < pow2(53 + k),
    ensures
        two52() <= mag / pow2(k) < 2 * two52(),
        two52() * pow2(k) <= mag < 2 * two52() * pow2(k),
{
    lemma2_to64();
    lemma2_to64_rest();
    lemma_pow2_adds(52, k);
    lemma_pow2_adds(53, k);
    lemma_pow2_pos(k);
    lemma_mul_is_commutative(two52() as int, pow2(k) as int);
    lemma_mul_is_commutative(pow2(53) as int, pow2(k) as int);
    lemma_multiply_divide_lt(mag as int, pow2(k) as int, pow2(53) as int);
    lemma_div_multiples_vanish(two52() as int, pow2(k) as int);
    lemma_div_is_ordered((pow2(k) * two52()) as int, mag as int, pow2(k) as int);
}

/// Encoding with the opposite sign negates.
pub proof fn lemma_from_magnitude_neg(neg: bool, mag: nat)
    ensures
        from_magnitude(!neg, mag) == from_magnitude(neg, mag).neg_spec(),
{
    lemma_from_magnitude_fields(neg, mag);
    lemma_from_magnitude_fields(!neg, mag);
    let x = from_magnitude(neg, mag);
    lemma_bits_parts(x);
    lemma_bits_parts(from_magnitude(!neg, mag));
    lemma_bits_parts(x.neg_spec());
    crate::binary64::lemma_neg_parts(x);
}

/// Multiplication does not depend on the order of its operands.
pub proof fn lemma_mul_commutative(a: Binary64, b: Binary64)
    ensures
        mul_spec(a, b) == mul_spec(b, a),
{
    lemma_mul_is_commutative(a.magnitude() as int, b.magnitude() as int);
}

/// Swapping the operands of a subtraction negates its result: the two are
/// both NaN, or equal in value with opposite signs (only a zero result may
/// keep its sign).
pub proof fn lemma_sub_antisymmetric(x: Binary64, y: Binary64)
    ensures
        (sub_spec(x, y).is_nan_spec() && sub_spec(y, x).is_nan_spec())
            || sub_spec(y, x).eq_spec(sub_spec(x, y).neg_spec()),
        !sub_spec(x, y).is_nan_spec() && (sub_spec(x, y).abs_bits() != 0) ==> sub_spec(y, x) == sub_spec(x, y).neg_spec(),
{
    crate::binary64::lemma_neg_parts(x);
    crate::binary64::lemma_neg_parts(y);
    let d = sub_spec(x, y);
    crate::binary64::lemma_neg_parts(d);
    if !x.is_nan_spec() && !y.is_nan_spec() && x.is_finite_spec() && y.is_finite_spec() {
        let s = x.value() - y.value();
        if s < 0 {
            lemma_from_magnitude_neg(true, rounded_magnitude((-s) as nat, 0));
        } else if s > 0 {
            lemma_from_magnitude_neg(false, rounded_magnitude(s as nat, 0));
        }
    }
}

/// A grid magnitude rounds to itself.
pub proof fn lemma_rounded_representable(x: Binary64)
    requires
        x.is_finite_spec(),
    ensures
        rounded_magnitude(x.magnitude(), 0) == x.magnitude(),
{
    lemma2_to64();
    lemma2_to64_rest();
    lemma_magnitude_bounds(x);
    let m = x.magnitude();
    let e = x.exponent();
    assert(m / pow2(0) == m);
    if m < pow2(53) {
        lemma_round_half_even_exact(m, 0);
        assert(m * pow2(0) == m);
    } else {
        // m = (2^52 + f) * 2^(e - 1) with e >= 2
        if e < 2 {
            assert(e == 1);
            assert(m < two52() * pow2(1));
        }
        lemma_pow2_adds(52, (e - 1) as nat);
        lemma_pow2_adds(53, (e - 1) as nat);
        lemma_pow2_unfold(e);
        lemma_mul_is_commutative(two52() as int, pow2((e - 1) as nat) as int);
        assert(m < pow2(53) * pow2((e - 1) as nat));
        lemma_mul_is_commutative(pow2(53) as int, pow2((e - 1) as nat) as int);
        lemma_log2_of_bounds(m as int, (51 + e) as nat);
        assert(ulp_exponent(m) == e - 1);
        lemma_round_half_even_exact(two52() + x.fraction(), (e - 1) as nat);
    }
}

/// Multiplying by one changes nothing but a NaN's payload.
pub proof fn lemma_mul_one(x: Binary64)
    ensures
        same_result(mul_spec(x, Binary64 { bits: 0x3ff0_0000_0000_0000 }), x),
{
    let one = Binary64 { bits: 0x3ff0_0000_0000_0000 };
    lemma_exact_unit_product(x, one, false);
}

/// Multiplying by minus one negates, as the sign flip does (but for a
/// NaN's payload).
pub proof fn lemma_mul_minus_one(x: Binary64)
    ensures
        same_result(mul_spec(x, Binary64 { bits: 0xbff0_0000_0000_0000 }), x.neg_spec()),
{
    let minus_one = Binary64 { bits: 0xbff0_0000_0000_0000 };
    lemma_exact_unit_product(x, minus_one, true);
    crate::binary64::lemma_neg_parts(x);
}

/// A product with plus or minus one is exact.
proof fn lemma_exact_unit_product(x: Binary64, u: Binary64, flips: bool)
    requires
        u.bits == (if flips { 0xbff0_0000_0000_0000u64 } else { 0x3ff0_0000_0000_0000u64 }),
    ensures
        !x.is_nan_spec() ==> mul_spec(x, u) == (if flips { x.neg_spec() } else { x }),
        x.is_nan_spec() ==> mul_spec(x, u).is_nan_spec(),
{
    lemma2_to64();
    lemma2_to64_rest();
    crate::binary64::lemma_neg_parts(x);
    lemma_bits_parts(x);
    lemma_bits_parts(x.neg_spec());
    assert(u.magnitude() == two52() * pow2(1022));
    lemma_pow2_adds(1022, 52);
    lemma_mul_is_commutative(two52() as int, pow2(1022) as int);
    if x.is_finite_spec() {
        lemma_rounded_magnitude_scale(x.magnitude(), 0, 1074);
        lemma_rounded_representable(x);
        lemma_from_magnitude_roundtrip(x);
        lemma_from_magnitude_neg(x.sign(), x.magnitude());
        assert(x.magnitude() * u.magnitude() == x.magnitude() * pow2(1074));
    }
}

/// The distance between two integers.
pub open spec fn dist(a: int, b: int) -> int {
    if a >= b {
        a - b
    } else {
        b - a
    }
}

/// The rounded magnitude is a count of grid steps: `c * 2^q` with a
/// significand of at most 53 bits, and of exactly 53 bits above the
/// subnormal range.
proof fn lemma_rounded_grid(m: nat, s: nat)
    ensures
        ({
            let x = m / pow2(s);
            let q = ulp_exponent(x);
            let d = m / pow2(q + s);
            let c = round_half_even(m, q + s);
            &&& rounded_magnitude(m, s) == c * pow2(q)
            &&& c == d || c == d + 1
            &&& d < pow2(53)
            &&& c <= pow2(53)
            &&& q > 0 ==> two52() <= d && pow2(52 + q) <= x
        }),
{
    lemma2_to64();
    lemma2_to64_rest();
    let x = m / pow2(s);
    let q = ulp_exponent(x);
    let d = m / pow2(q + s);
    lemma_pow2_pos(s);
    lemma_pow2_pos(q);
    lemma_pow2_adds(q, s);
    lemma_mul_is_commutative(pow2(q) as int, pow2(s) as int);
    lemma_div_denominator(m as int, pow2(s) as int, pow2(q) as int);
    assert(d == x / pow2(q));
    if x < pow2(53) {
        assert(pow2(0) == 1);
    } else {
        lemma_log2_bounds(x as int);
        let l = log(2, x as int);
        assert(l >= 53) by {
            if l < 53 {
                if l + 1 < 53 {
                    lemma_pow2_strictly_increases((l + 1) as nat, 53);
                }
            }
        }
        lemma_div_pow2_range(x, q);
    }
}

/// Encoding a rounded magnitude below the overflow threshold loses nothing.
proof fn lemma_encode_rounded_exact(neg: bool, m: nat, s: nat)
    requires
        rounded_magnitude(m, s) < overflow_threshold(),
    ensures
        from_magnitude(neg, rounded_magnitude(m, s)).is_finite_spec(),
        from_magnitude(neg, rounded_magnitude(m, s)).sign() == neg,
        from_magnitude(neg, rounded_magnitude(m, s)).magnitude() == rounded_magnitude(m, s),
{
    lemma_rounded_grid(m, s);
    let q = ulp_exponent(m / pow2(s));
    let c = round_half_even(m, q + s);
    lemma_encode_grid_exact(neg, c, q);
}

/// Encoding `c * 2^q` units, a significand of at most 53 bits (exactly 53
/// above the subnormal range), below the overflow threshold loses nothing.
pub proof fn lemma_encode_grid_exact(neg: bool, c: nat, q: nat)
    requires
        c <= pow2(53),
        q > 0 ==> c >= two52(),
        c * pow2(q) < overflow_threshold(),
    ensures
        from_magnitude(neg, c * pow2(q)).is_finite_spec(),
        from_magnitude(neg, c * pow2(q)).sign() == neg,
        from_magnitude(neg, c * pow2(q)).magnitude() == c * pow2(q),
{
    lemma2_to64();
    lemma2_to64_rest();
    let r = c * pow2(q);
    lemma_from_magnitude_fields(neg, r);
    let y = from_magnitude(neg, r);
    lemma_pow2_pos(q);
    if r >= two52() {
        // the binade of r fixes the exponent field
        let k: nat = if c == pow2(53) { q + 1 } else { q };
        let c2: nat = if c == pow2(53) { two52() } else { c };
        assert(c2 * pow2(k) == r) by {
            if c == pow2(53) {
                lemma_pow2_unfold(q + 1);
                lemma_mul_is_associative(two52() as int, 2, pow2(q) as int);
            }
        }
        assert(c2 >= two52()) by {
            if c2 < two52() {
                assert(c != pow2(53));
                assert(q == 0);
                assert(r == c * 1);
            }
        }
        lemma_pow2_adds(52, k);
        lemma_pow2_adds(53, k);
        lemma_pow2_pos(k);
        lemma_mul_inequality(two52() as int, c2 as int, pow2(k) as int);
        lemma_mul_strict_inequality(c2 as int, pow2(53) as int, pow2(k) as int);
        lemma_mul_is_commutative(two52() as int, pow2(k) as int);
        lemma_mul_is_commutative(pow2(53) as int, pow2(k) as int);
        lemma_log2_of_bounds(r as int, 52 + k);
        lemma_div_multiples_vanish(c2 as int, pow2(k) as int);
        lemma_mul_is_commutative(c2 as int, pow2(k) as int);
        assert(y.exponent() == k + 1);
        assert(y.fraction() + two52() == c2);
    } else {
        assert(y.magnitude() == r);
    }
}

/// The rounded magnitude is nearest: no finite binary64 magnitude lies
/// closer to `m / 2^s` (distances scaled by 2^s).
proof fn lemma_rounded_nearest(m: nat, s: nat, y: Binary64)
    requires
        y.is_finite_spec(),
    ensures
        dist(m as int, (rounded_magnitude(m, s) * pow2(s)) as int) <= dist(m as int, (y.magnitude() * pow2(s)) as int),
{
    lemma2_to64();
    lemma2_to64_rest();
    lemma_rounded_grid(m, s);
    let x = m / pow2(s);
    let q = ulp_exponent(x);
    let big_q = pow2(q + s) as int;
    let d = (m / pow2(q + s)) as int;
    let c = round_half_even(m, q + s) as int;
    let r = (m % pow2(q + s)) as int;
    let ys = (y.magnitude() * pow2(s)) as int;
    lemma_pow2_pos(q + s);
    lemma_pow2_pos(s);
    lemma_pow2_pos(q);
    lemma_fundamental_div_mod(m as int, big_q);
    lemma_pow2_adds(q, s);
    assert(rounded_magnitude(m, s) * pow2(s) == c * big_q) by {
        lemma_mul_is_associative(c, pow2(q) as int, pow2(s) as int);
    }
    assert(m == d * big_q + r) by {
        lemma_mul_is_commutative(d, big_q);
    }
    // the rounded point is at most r and at most big_q - r away
    assert(dist(m as int, c * big_q) <= r && dist(m as int, c * big_q) <= big_q - r) by {
        if c == d + 1 {
            lemma_mul_is_distributive_add_other_way(big_q, d, 1);
        }
    }
    if d * big_q < ys < (d + 1) * big_q {
        // no binary64 lies strictly between two neighbouring grid points
        if q > 0 {
            lemma_mul_inequality(two52() as int, d, big_q);
            lemma_pow2_adds(52, q);
            lemma_mul_is_associative(two52() as int, pow2(q) as int, pow2(s) as int);
            assert(pow2(52 + q) * pow2(s) <= d * big_q);
        }
        let k = y_steps(y, q, s);
        assert(ys == k * big_q);
        lemma_mul_is_distributive_add_other_way(big_q, d, 1);
        lemma_mul_strict_inequality_converse(d, k, big_q);
        lemma_mul_strict_inequality_converse(k, d + 1, big_q);
        assert(false);
    }
    lemma_mul_is_distributive_add_other_way(big_q, d, 1);
}

/// A finite magnitude above `d * 2^(q + s)` (with `d` at least 2^52 when
/// `q > 0`) is a whole number of steps 2^q.
pub(crate) proof fn y_steps(y: Binary64, q: nat, s: nat) -> (k: int)
    requires
        y.is_finite_spec(),
        q > 0 ==> pow2(52 + q) * pow2(s) < y.magnitude() * pow2(s),
    ensures
        y.magnitude() * pow2(s) == k * pow2(q + s),
{
    lemma2_to64();
    lemma2_to64_rest();
    lemma_pow2_pos(s);
    lemma_pow2_adds(q, s);
    lemma_magnitude_bounds(y);
    if q == 0 {
        y.magnitude() as int
    } else {
        lemma_mul_strict_inequality_converse(pow2(52 + q) as int, y.magnitude() as int, pow2(s) as int);
        let e = y.exponent();
        assert(e >= 1) by {
            if e == 0 {
                lemma_pow2_strictly_increases(52, 52 + q);
            }
        }
        lemma_pow2_adds(52, e);
        lemma_mul_is_commutative(two52() as int, pow2(e) as int);
        assert(q <= e - 1) by {
            if q > e - 1 {
                if e < q {
                    lemma_pow2_strictly_increases(52 + e, 52 + q);
                }
            }
        }
        let j = (e - 1 - q) as nat;
        lemma_pow2_adds(j, q);
        let k = ((two52() + y.fraction()) * pow2(j)) as int;
        assert(y.magnitude() * pow2(s) == k * pow2(q + s)) by {
            lemma_mul_is_associative((two52() + y.fraction()) as int, pow2(j) as int, pow2(q) as int);
            lemma_mul_is_associative(k, pow2(q) as int, pow2(s) as int);
        }
        k
    }
}

/// A finite rounded result is nearest to the signed exact value `±m / 2^s`
/// among all finite binary64 values (distances scaled by 2^s).
proof fn lemma_signed_nearest(neg: bool, m: nat, s: nat, y: Binary64)
    requires
        round_spec(neg, m, s).is_finite_spec(),
        y.is_finite_spec(),
    ensures
        ({
            let x = if neg { -m } else { m as int };
            dist(x, round_spec(neg, m, s).value() * pow2(s)) <= dist(x, y.value() * pow2(s))
        }),
{
    let rm = rounded_magnitude(m, s);
    lemma_from_magnitude_fields(neg, rm);
    lemma_encode_rounded_exact(neg, m, s);
    let r = round_spec(neg, m, s);
    let p = pow2(s) as int;
    lemma_pow2_pos(s);
    lemma_rounded_nearest(m, s, y);
    let zero = Binary64 { bits: 0 };
    lemma_rounded_nearest(m, s, zero);
    assert(zero.magnitude() == 0);
    lemma_mul_unary_negation(rm as int, p);
    lemma_mul_unary_negation(y.magnitude() as int, p);
    lemma_mul_nonnegative(rm as int, p);
    lemma_mul_nonnegative(y.magnitude() as int, p);
}

/// Multiplication is correctly rounded: a finite product of finite operands
/// lies at least as close to the exact product as every finite binary64
/// (values in units of 2^-1074, so the exact product in units of 2^-2148).
pub proof fn lemma_mul_nearest(a: Binary64, b: Binary64, y: Binary64)
    requires
        a.is_finite_spec(),
        b.is_finite_spec(),
        mul_spec(a, b).is_finite_spec(),
        y.is_finite_spec(),
    ensures
        dist(a.value() * b.value(), mul_spec(a, b).value() * pow2(1074))
            <= dist(a.value() * b.value(), y.value() * pow2(1074)),
{
    let neg = a.sign() != b.sign();
    let m = a.magnitude() * b.magnitude();
    lemma_signed_nearest(neg, m, 1074, y);
    assert(a.value() * b.value() == (if neg { -m } else { m as int })) by {
        lemma_mul_unary_negation(a.magnitude() as int, b.magnitude() as int);
        lemma_mul_unary_negation(b.magnitude() as int, a.magnitude() as int);
        lemma_mul_cancels_negatives(a.magnitude() as int, b.magnitude() as int);
        lemma_mul_is_commutative(a.magnitude() as int, -b.magnitude());
    }
}

/// Addition is correctly rounded: a finite sum of finite operands lies at
/// least as close to the exact sum as every finite binary64.
pub proof fn lemma_add_nearest(a: Binary64, b: Binary64, y: Binary64)
    requires
        a.is_finite_spec(),
        b.is_finite_spec(),
        add_spec(a, b).is_finite_spec(),
        y.is_finite_spec(),
    ensures
        dist(a.value() + b.value(), add_spec(a, b).value()) <= dist(a.value() + b.value(), y.value()),
{
    lemma2_to64();
    let s = a.value() + b.value();
    if s < 0 {
        lemma_signed_nearest(true, (-s) as nat, 0, y);
    } else if s > 0 {
        lemma_signed_nearest(false, s as nat, 0, y);
    }
}

/// Subtraction is correctly rounded: a finite difference of finite operands
/// lies at least as close to the exact difference as every finite binary64.
pub proof fn lemma_sub_nearest(a: Binary64, b: Binary64, y: Binary64)
    requires
        a.is_finite_spec(),
        b.is_finite_spec(),
        sub_spec(a, b).is_finite_spec(),
        y.is_finite_spec(),
    ensures
        dist(a.value() - b.value(), sub_spec(a, b).value()) <= dist(a.value() - b.value(), y.value()),
{
    crate::binary64::lemma_neg_parts(b);
    lemma_add_nearest(a, b.neg_spec(), y);
}

/// A NaN operand makes a NaN result.
pub proof fn lemma_nan_propagates(a: Binary64, b: Binary64)
    requires
        a.is_nan_spec() || b.is_nan_spec(),
    ensures
        mul_spec(a, b).is_nan_spec(),
        add_spec(a, b).is_nan_spec(),
        sub_spec(a, b).is_nan_spec(),
{
    crate::binary64::lemma_neg_parts(b);
}

/// Zero rounds to zero.
proof fn lemma_rounded_zero(s: nat)
    ensures
        rounded_magnitude(0, s) == 0,
{
    lemma_pow2_pos(s);
    lemma_pow2_pos(53);
    lemma_fundamental_div_mod_converse(0, pow2(s) as int, 0, 0);
    assert(ulp_exponent(0) == 0);
    assert(round_half_even(0, s) == 0);
    assert(0 * pow2(0) == 0);
}

/// Rounding preserves the order of magnitudes (below the overflow threshold).
proof fn lemma_rounded_monotone(m1: nat, m2: nat, s: nat)
    requires
        m1 <= m2,
        rounded_magnitude(m1, s) < overflow_threshold(),
        rounded_magnitude(m2, s) < overflow_threshold(),
    ensures
        rounded_magnitude(m1, s) <= rounded_magnitude(m2, s),
{
    let r1 = rounded_magnitude(m1, s);
    let r2 = rounded_magnitude(m2, s);
    if r1 > r2 {
        lemma_encode_rounded_exact(false, m1, s);
        lemma_encode_rounded_exact(false, m2, s);
        let y1 = from_magnitude(false, r1);
        let y2 = from_magnitude(false, r2);
        lemma_rounded_nearest(m1, s, y2);
        lemma_rounded_nearest(m2, s, y1);
        let p = pow2(s) as int;
        lemma_pow2_pos(s);
        lemma_mul_strict_inequality(r2 as int, r1 as int, p);
        assert(m1 == m2);
    }
}

/// The value of a finite rounded result is the signed rounded magnitude.
proof fn lemma_round_spec_value(neg: bool, m: nat, s: nat)
    requires
        round_spec(neg, m, s).is_finite_spec(),
    ensures
        rounded_magnitude(m, s) < overflow_threshold(),
        round_spec(neg, m, s).value() == (if neg { -rounded_magnitude(m, s) } else {
            rounded_magnitude(m, s) as int
        }),
{
    lemma_from_magnitude_fields(neg, rounded_magnitude(m, s));
    lemma_encode_rounded_exact(neg, m, s);
}

/// Rounding preserves the order of signed exact values, for finite results.
proof fn lemma_round_spec_monotone(n1: bool, m1: nat, n2: bool, m2: nat, s: nat)
    requires
        (if n1 { -m1 } else { m1 as int }) <= (if n2 { -m2 } else { m2 as int }),
        round_spec(n1, m1, s).is_finite_spec(),
        round_spec(n2, m2, s).is_finite_spec(),
    ensures
        round_spec(n1, m1, s).value() <= round_spec(n2, m2, s).value(),
{
    lemma_round_spec_value(n1, m1, s);
    lemma_round_spec_value(n2, m2, s);
    if !n1 && !n2 {
        lemma_rounded_monotone(m1, m2, s);
    } else if n1 && n2 {
        lemma_rounded_monotone(m2, m1, s);
    } else if !n1 && n2 {
        lemma_rounded_zero(s);
    }
}

/// Addition is monotone: a larger exact sum never rounds to a smaller
/// finite result.
pub proof fn lemma_add_monotone(a: Binary64, b: Binary64, c: Binary64, d: Binary64)
    requires
        a.is_finite_spec(),
        b.is_finite_spec(),
        c.is_finite_spec(),
        d.is_finite_spec(),
        add_spec(a, b).is_finite_spec(),
        add_spec(c, d).is_finite_spec(),
        a.value() + b.value() <= c.value() + d.value(),
    ensures
        add_spec(a, b).value() <= add_spec(c, d).value(),
{
    let s1 = a.value() + b.value();
    let s2 = c.value() + d.value();
    lemma_rounded_zero(0);
    lemma_from_magnitude_fields(false, 0);
    lemma2_to64();
    lemma_pow2_strictly_increases(0, 2098);
    let n1 = s1 < 0;
    let n2 = s2 < 0;
    let m1: nat = if s1 < 0 { (-s1) as nat } else { s1 as nat };
    let m2: nat = if s2 < 0 { (-s2) as nat } else { s2 as nat };
    assert(round_spec(n1, m1, 0).is_finite_spec()) by {
        if s1 == 0 {
            lemma_from_magnitude_fields(false, 0);
        }
    }
    assert(round_spec(n2, m2, 0).is_finite_spec()) by {
        if s2 == 0 {
            lemma_from_magnitude_fields(false, 0);
        }
    }
    lemma_round_spec_monotone(n1, m1, n2, m2, 0);
    lemma_round_spec_value(n1, m1, 0);
    lemma_round_spec_value(n2, m2, 0);
}

/// Subtraction is monotone: a larger exact difference never rounds to a
/// smaller finite result.
pub proof fn lemma_sub_monotone(a: Binary64, b: Binary64, c: Binary64, d: Binary64)
    requires
        a.is_finite_spec(),
        b.is_finite_spec(),
        c.is_finite_spec(),
        d.is_finite_spec(),
        sub_spec(a, b).is_finite_spec(),
        sub_spec(c, d).is_finite_spec(),
        a.value() - b.value() <= c.value() - d.value(),
    ensures
        sub_spec(a, b).value() <= sub_spec(c, d).value(),
{
    crate::binary64::lemma_neg_parts(b);
    crate::binary64::lemma_neg_parts(d);
    lemma_add_monotone(a, b.neg_spec(), c, d.neg_spec());
}

/// Multiplication is monotone: a larger exact product never rounds to a
/// smaller finite result.
pub proof fn lemma_mul_monotone(a: Binary64, b: Binary64, c: Binary64, d: Binary64)
    requires
        a.is_finite_spec(),
        b.is_finite_spec(),
        c.is_finite_spec(),
        d.is_finite_spec(),
        mul_spec(a, b).is_finite_spec(),
        mul_spec(c, d).is_finite_spec(),
        a.value() * b.value() <= c.value() * d.value(),
    ensures
        mul_spec(a, b).value() <= mul_spec(c, d).value(),
{
    lemma_signed_product(a, b);
    lemma_signed_product(c, d);
    lemma_round_spec_monotone(
        a.sign() != b.sign(),
        a.magnitude() * b.magnitude(),
        c.sign() != d.sign(),
        c.magnitude() * d.magnitude(),
        1074,
    );
}

/// The product of values is the signed product of magnitudes.
proof fn lemma_signed_product(a: Binary64, b: Binary64)
    ensures
        ({
            let m = a.magnitude() * b.magnitude();
            a.value() * b.value() == (if a.sign() != b.sign() { -m } else { m as int })
        }),
{
    lemma_mul_unary_negation(a.magnitude() as int, b.magnitude() as int);
    lemma_mul_unary_negation(b.magnitude() as int, a.magnitude() as int);
    lemma_mul_cancels_negatives(a.magnitude() as int, b.magnitude() as int);
    lemma_mul_is_commutative(a.magnitude() as int, -b.magnitude());
}


/// An exact result of `m / 2^s` units lying between the magnitudes of two
/// finite values rounds between them.
proof fn lemma_rounded_bracketed(m: nat, s: nat, lo: Binary64, hi: Binary64)
    requires
        lo.is_finite_spec(),
        hi.is_finite_spec(),
        lo.magnitude() * pow2(s) <= m <= hi.magnitude() * pow2(s),
    ensures
        lo.magnitude() <= rounded_magnitude(m, s) <= hi.magnitude(),
        rounded_magnitude(m, s) < overflow_threshold(),
{
    let r = rounded_magnitude(m, s);
    let p = pow2(s) as int;
    lemma_pow2_pos(s);
    lemma_rounded_nearest(m, s, hi);
    lemma_rounded_nearest(m, s, lo);
    assert(r * p <= hi.magnitude() * p);
    assert(lo.magnitude() * p <= r * p);
    if r > hi.magnitude() {
        lemma_mul_strict_inequality(hi.magnitude() as int, r as int, p);
    }
    if r < lo.magnitude() {
        lemma_mul_strict_inequality(r as int, lo.magnitude() as int, p);
    }
    lemma_magnitude_bounds(hi);
    lemma_pow2_adds(52, hi.exponent());
    lemma2_to64();
    lemma2_to64_rest();
    assert(two52() == pow2(52));
    assert(hi.magnitude() < pow2(52 + hi.exponent()));
    if hi.exponent() < 2046 {
        lemma_pow2_strictly_increases(52 + hi.exponent(), 2098);
    }
    assert(r <= hi.magnitude());
}

/// A positive exact sum between the magnitudes of two finite values rounds
/// to a positive finite value between them.
pub(crate) proof fn lemma_add_positive_between(a: Binary64, b: Binary64, lo: Binary64, hi: Binary64)
    requires
        a.is_finite_spec(),
        b.is_finite_spec(),
        lo.is_finite_spec(),
        hi.is_finite_spec(),
        0 < a.value() + b.value(),
        lo.magnitude() <= a.value() + b.value() <= hi.magnitude(),
    ensures
        add_spec(a, b).is_finite_spec(),
        !add_spec(a, b).sign(),
        lo.magnitude() <= add_spec(a, b).magnitude() <= hi.magnitude(),
{
    let m = (a.value() + b.value()) as nat;
    assert(pow2(0) == 1) by {
        lemma2_to64();
    }
    lemma_rounded_bracketed(m, 0, lo, hi);
    lemma_from_magnitude_fields(false, rounded_magnitude(m, 0));
    lemma_encode_rounded_exact(false, m, 0);
}

/// A product of finite operands whose exact value is at most the magnitude
/// of a finite value rounds to a finite value no larger, with the sign of
/// the product.
pub(crate) proof fn lemma_mul_below(a: Binary64, b: Binary64, hi: Binary64)
    requires
        a.is_finite_spec(),
        b.is_finite_spec(),
        hi.is_finite_spec(),
        a.magnitude() * b.magnitude() <= hi.magnitude() * pow2(1074),
    ensures
        mul_spec(a, b).is_finite_spec(),
        mul_spec(a, b).sign() == (a.sign() != b.sign()),
        mul_spec(a, b).magnitude() <= hi.magnitude(),
{
    let neg = a.sign() != b.sign();
    let m = a.magnitude() * b.magnitude();
    let zero = Binary64 { bits: 0 };
    assert(zero.magnitude() == 0);
    lemma_rounded_bracketed(m, 1074, zero, hi);
    lemma_from_magnitude_fields(neg, rounded_magnitude(m, 1074));
    lemma_encode_rounded_exact(neg, m, 1074);
}

/// A product of finite operands whose exact value is above half the
/// smallest subnormal does not round to zero.
pub(crate) proof fn lemma_mul_no_underflow(a: Binary64, b: Binary64)
    requires
        a.is_finite_spec(),
        b.is_finite_spec(),
        2 * (a.magnitude() * b.magnitude()) > pow2(1074),
    ensures
        mul_spec(a, b).abs_bits() != 0,
{
    let neg = a.sign() != b.sign();
    let m = a.magnitude() * b.magnitude();
    let r = rounded_magnitude(m, 1074);
    lemma_from_magnitude_fields(neg, r);
    if r < overflow_threshold() {
        lemma_encode_rounded_exact(neg, m, 1074);
        lemma_magnitude_zero(mul_spec(a, b));
        if r == 0 {
            let tiny = Binary64 { bits: 1 };
            assert(tiny.magnitude() == 1);
            lemma_rounded_nearest(m, 1074, tiny);
            assert(0 * pow2(1074) == 0);
            assert(1 * pow2(1074) == pow2(1074));
            assert(dist(m as int, 0) <= dist(m as int, pow2(1074) as int));
            lemma_pow2_pos(1074);
            assert(false);
        }
    }
}

/// A finite value times a zero is a zero.
pub(crate) proof fn lemma_mul_by_zero(a: Binary64, z: Binary64)
    requires
        a.is_finite_spec(),
        z.is_finite_spec(),
        z.abs_bits() == 0,
    ensures
        mul_spec(a, z).abs_bits() == 0,
        mul_spec(a, z).is_finite_spec(),
{
    lemma_magnitude_zero(z);
    assert(a.magnitude() * z.magnitude() == 0);
    lemma_rounded_zero(1074);
    lemma_from_magnitude_fields(a.sign() != z.sign(), 0);
}

/// The difference of two zeros is a zero.
pub(crate) proof fn lemma_sub_of_zeros(x: Binary64, y: Binary64)
    requires
        x.is_finite_spec(),
        y.is_finite_spec(),
        x.abs_bits() == 0,
        y.abs_bits() == 0,
    ensures
        sub_spec(x, y).abs_bits() == 0,
{
    lemma_magnitude_zero(x);
    lemma_magnitude_zero(y);
    crate::binary64::lemma_neg_parts(y);
    lemma_magnitude_zero(y.neg_spec());
}

} // verus!
