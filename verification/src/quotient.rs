//! Correctly rounded binary64 division (round to nearest, ties to even).
use vstd::prelude::*;
use vstd::arithmetic::power2::*;
use vstd::arithmetic::logarithm::*;
use vstd::arithmetic::mul::*;
use vstd::arithmetic::div_mod::*;
use crate::binary64::{Binary64, two52, SIGN_MASK, NAN_BITS, lemma_magnitude_zero};
use crate::rounding::{
    ulp_exponent, from_magnitude, encode, pow2_u128, lemma_log2_of_bounds, lemma_pow2_126,
};
use crate::arith::{
    nan, zero, infinity, unpack, dist, lemma_from_magnitude_fields, lemma_log2_bounds,
    lemma_div_pow2_range, lemma_encode_grid_exact, y_steps,
};
use crate::rounding::overflow_threshold;

verus! {

/// The number of steps `w` nearest to `n`, ties to an even number.
pub open spec fn round_half_even_div(n: nat, w: nat) -> nat {
    let k = n / w;
    let r = n % w;
    if 2 * r < w {
        k
    } else if 2 * r > w {
        k + 1
    } else if k % 2 == 0 {
        k
    } else {
        k + 1
    }
}

/// The magnitude `n / d` (in units of 2^-1074) rounded to nearest, ties to
/// even, onto the binary64 grid with an unbounded exponent; in units.
pub open spec fn rounded_ratio(n: nat, d: nat) -> nat {
    let q = ulp_exponent(n / d);
    round_half_even_div(n, d * pow2(q)) * pow2(q)
}

/// IEEE 754 division, rounded to nearest, ties to even.
pub open spec fn div_spec(a: Binary64, b: Binary64) -> Binary64 {
    let neg = a.sign() != b.sign();
    if a.is_nan_spec() || b.is_nan_spec() {
        nan()
    } else if a.is_inf_spec() {
        if b.is_inf_spec() {
            nan()
        } else {
            infinity(neg)
        }
    } else if b.is_inf_spec() {
        zero(neg)
    } else if b.abs_bits() == 0 {
        if a.abs_bits() == 0 {
            nan()
        } else {
            infinity(neg)
        }
    } else {
        from_magnitude(neg, rounded_ratio(a.magnitude() * pow2(1074), b.magnitude()))
    }
}

/// Scaling the dividend and the step together leaves the count unchanged.
pub proof fn lemma_round_half_even_div_scale(n: nat, w: nat, c: nat)
    requires
        w > 0,
        c > 0,
    ensures
        (n * c) / (w * c) == n / w,
        round_half_even_div(n * c, w * c) == round_half_even_div(n, w),
{
    let k = n as int / w as int;
    let r = n as int % w as int;
    lemma_fundamental_div_mod(n as int, w as int);
    assert(n * c == k * (w * c) + r * c) by (nonlinear_arith)
        requires
            n == w * k + r,
    ;
    assert(0 <= r * c < w * c) by (nonlinear_arith)
        requires
            0 <= r < w,
            c > 0,
    ;
    lemma_fundamental_div_mod_converse((n * c) as int, (w * c) as int, k, r * c);
    assert((2 * (r * c) < w * c) == (2 * r < w)) by (nonlinear_arith)
        requires
            c > 0,
    ;
    assert((2 * (r * c) > w * c) == (2 * r > w)) by (nonlinear_arith)
        requires
            c > 0,
    ;
}

/// Scaling the dividend and the divisor together leaves the rounding unchanged.
pub proof fn lemma_rounded_ratio_scale(n: nat, d: nat, c: nat)
    requires
        d > 0,
        c > 0,
    ensures
        rounded_ratio(n * c, d * c) == rounded_ratio(n, d),
{
    lemma_round_half_even_div_scale(n, d, c);
    let q = ulp_exponent(n / d);
    lemma_pow2_pos(q);
    lemma_mul_is_associative(d as int, c as int, pow2(q) as int);
    lemma_mul_is_associative(d as int, pow2(q) as int, c as int);
    lemma_mul_is_commutative(c as int, pow2(q) as int);
    lemma_mul_strictly_positive(d as int, pow2(q) as int);
    lemma_round_half_even_div_scale(n, d * pow2(q), c);
}

/// Zero divided by anything rounds to zero.
proof fn lemma_rounded_ratio_zero(d: nat)
    requires
        d > 0,
    ensures
        rounded_ratio(0, d) == 0,
{
    lemma_pow2_pos(53);
    lemma_fundamental_div_mod_converse(0, d as int, 0, 0);
    assert(ulp_exponent(0) == 0);
    assert(pow2(0) == 1) by {
        lemma2_to64();
    }
    lemma_fundamental_div_mod_converse(0, (d * pow2(0)) as int, 0, 0);
}

/// A nonzero significand shifted up to 53 bits.
fn normalize(m: u64) -> (r: (u64, u32))
    requires
        0 < m < pow2(53),
    ensures
        r.0 == m * pow2(r.1 as nat),
        two52() <= r.0 < pow2(53),
        r.1 <= 52,
{
    proof {
        lemma2_to64();
        lemma2_to64_rest();
    }
    let mut n: u64 = m;
    let mut l: u32 = 0;
    while n < 0x10_0000_0000_0000
        invariant
            0 < m < pow2(53),
            n == m * pow2(l as nat),
            0 < n < pow2(53),
            pow2(l as nat) <= n,
            l <= 52,
        decreases 52 - l,
    {
        proof {
            lemma_pow2_unfold((l + 1) as nat);
            lemma_mul_is_associative(m as int, 2, pow2(l as nat) as int);
            lemma_mul_is_commutative(2, pow2(l as nat) as int);
            lemma_mul_is_associative(m as int, pow2(l as nat) as int, 2);
            lemma2_to64();
            lemma2_to64_rest();
            if l > 52 {
                lemma_pow2_strictly_increases(52, l as nat);
            }
        }
        n = n * 2;
        l = l + 1;
    }
    (n, l)
}

/// The count of steps `den` nearest to `num`, ties to an even count.
fn round_half_even_exec(num: u128, den: u128) -> (c: u128)
    requires
        den > 0,
        num < pow2(126),
        den < pow2(126),
    ensures
        c == round_half_even_div(num as nat, den as nat),
{
    proof {
        lemma_pow2_126();
    }
    let k = num / den;
    let r = num % den;
    if 2 * r < den {
        k
    } else if 2 * r > den {
        k + 1
    } else if k % 2 == 0 {
        k
    } else {
        k + 1
    }
}

/// The grid exponent of `na * 2^ap / (nb * 2^bp)` for 53-bit `na`, `nb`.
pub open spec fn quotient_grid(na: nat, nb: nat, ap: nat, bp: nat) -> int {
    let l = ap - bp - (if na < nb { 1int } else { 0int });
    if l >= 53 {
        l - 52
    } else {
        0
    }
}

/// The dividend and divisor whose nearest step count `div` computes.
pub open spec fn quotient_terms(na: nat, nb: nat, ap: nat, bp: nat) -> (nat, nat) {
    let t = ap - bp - quotient_grid(na, nb, ap, bp);
    if t >= 0 {
        (na * pow2(t as nat), nb)
    } else {
        (na, nb * pow2((-t) as nat))
    }
}

/// The rounding of a quotient of 53-bit significands scaled by powers of two.
proof fn lemma_quotient_normalized(na: nat, nb: nat, ap: nat, bp: nat)
    requires
        two52() <= na < pow2(53),
        two52() <= nb < pow2(53),
    ensures
        ({
            let q = quotient_grid(na, nb, ap, bp);
            let (num, den) = quotient_terms(na, nb, ap, bp);
            let c = round_half_even_div(num, den);
            let t = ap - bp - q;
            &&& q >= 0
            &&& den > 0
            &&& rounded_ratio(na * pow2(ap), nb * pow2(bp)) == c * pow2(q as nat)
            &&& c <= pow2(53)
            &&& q > 0 ==> two52() <= c
            &&& t >= 0 ==> t <= 53
            &&& t < -70 ==> c == 0
        }),
{
    lemma2_to64();
    lemma2_to64_rest();
    let delta: int = if na < nb { 1 } else { 0 };
    let e0 = ap - bp;
    let l = e0 - delta;
    let q = quotient_grid(na, nb, ap, bp);
    let t = e0 - q;
    let (num, den) = quotient_terms(na, nb, ap, bp);
    let x = na * pow2(ap);
    let y = nb * pow2(bp);
    lemma_pow2_pos(ap);
    lemma_pow2_pos(bp);
    lemma_mul_strictly_positive(nb as int, pow2(bp) as int);
    // 2^delta * na lies in [nb, 2 nb)
    assert(nb <= na * pow2(delta as nat) < 2 * nb) by {
        if delta == 0 {
            assert(na * pow2(0) == na);
        } else {
            assert(na * pow2(1) == 2 * na);
        }
    }
    // the integer part of x / y
    if l >= 0 {
        let p = pow2((ap - delta) as nat) as int;
        lemma_pow2_adds((ap - delta) as nat, delta as nat);
        lemma_pow2_adds(l as nat, bp);
        lemma_pow2_adds((l + 1) as nat, bp);
        lemma_pow2_unfold((l + 1) as nat);
        assert(pow2(l as nat) * pow2(bp) == p);
        assert(x == (na * pow2(delta as nat)) * p) by {
            lemma_mul_is_associative(na as int, pow2(delta as nat) as int, p);
        }
        assert(pow2(l as nat) * y == nb * p) by {
            lemma_mul_is_associative(pow2(l as nat) as int, nb as int, pow2(bp) as int);
            lemma_mul_is_commutative(pow2(l as nat) as int, nb as int);
            lemma_mul_is_associative(nb as int, pow2(l as nat) as int, pow2(bp) as int);
        }
        assert(pow2((l + 1) as nat) * y == 2 * nb * p) by {
            lemma_mul_is_associative(pow2((l + 1) as nat) as int, nb as int, pow2(bp) as int);
            lemma_mul_is_commutative(pow2((l + 1) as nat) as int, nb as int);
            lemma_mul_is_associative(nb as int, pow2((l + 1) as nat) as int, pow2(bp) as int);
            lemma_mul_is_associative(nb as int, 2, pow2(l as nat) as int);
            lemma_mul_is_associative(nb as int, pow2(l as nat) as int, pow2(bp) as int);
            lemma_mul_is_associative(nb as int * 2, pow2(l as nat) as int, pow2(bp) as int);
        }
        lemma_pow2_pos((ap - delta) as nat);
        lemma_mul_inequality(nb as int, (na * pow2(delta as nat)) as int, p);
        lemma_mul_strict_inequality((na * pow2(delta as nat)) as int, 2 * nb as int, p);
        // floor(x / y) lies in [2^l, 2^(l + 1))
        lemma_div_multiples_vanish(pow2(l as nat) as int, y as int);
        lemma_mul_is_commutative(pow2(l as nat) as int, y as int);
        lemma_div_is_ordered((pow2(l as nat) * y) as int, x as int, y as int);
        lemma_mul_is_commutative(y as int, pow2((l + 1) as nat) as int);
        lemma_multiply_divide_lt(x as int, y as int, pow2((l + 1) as nat) as int);
        if l >= 53 {
            if l > 53 {
                lemma_pow2_strictly_increases(53, l as nat);
            }
            lemma_log2_of_bounds((x / y) as int, l as nat);
        } else if l + 1 < 53 {
            lemma_pow2_strictly_increases((l + 1) as nat, 53);
        }
    } else {
        // x < y: the integer part is zero
        assert(x < y) by {
            if delta == 0 {
                // ap < bp: x = na 2^ap < 2 nb 2^ap <= nb 2^bp
                lemma_pow2_unfold((ap + 1) as nat);
                if ap + 1 < bp {
                    lemma_pow2_strictly_increases((ap + 1) as nat, bp);
                }
                lemma_mul_strict_inequality(na as int, 2 * nb as int, pow2(ap) as int);
                lemma_mul_inequality(pow2((ap + 1) as nat) as int, pow2(bp) as int, nb as int);
                lemma_mul_is_associative(2, nb as int, pow2(ap) as int);
                lemma_mul_is_commutative(2 * nb as int, pow2(ap) as int);
                lemma_mul_is_associative(nb as int, 2, pow2(ap) as int);
                lemma_mul_is_commutative(nb as int, pow2((ap + 1) as nat) as int);
                lemma_mul_is_commutative(nb as int, pow2(bp) as int);
                lemma_mul_is_commutative(nb as int, 2 * pow2(ap) as int);
            } else {
                // ap <= bp and na < nb
                if ap < bp {
                    lemma_pow2_strictly_increases(ap, bp);
                }
                lemma_mul_strict_inequality(na as int, nb as int, pow2(ap) as int);
                lemma_mul_inequality(pow2(ap) as int, pow2(bp) as int, nb as int);
                lemma_mul_is_commutative(nb as int, pow2(ap) as int);
                lemma_mul_is_commutative(nb as int, pow2(bp) as int);
            }
        }
        lemma_fundamental_div_mod_converse(x as int, y as int, 0, x as int);
        lemma_pow2_pos(53);
    }
    assert(ulp_exponent(x / y) == q);
    let pq = pow2(q as nat);
    lemma_pow2_pos(q as nat);
    // the step count, in terms of the significands
    if t >= 0 {
        let c2 = pow2((bp + q) as nat);
        lemma_pow2_pos((bp + q) as nat);
        lemma_pow2_adds(t as nat, (bp + q) as nat);
        lemma_pow2_adds(bp, q as nat);
        lemma_mul_is_associative(na as int, pow2(t as nat) as int, c2 as int);
        lemma_mul_is_associative(nb as int, pow2(bp) as int, pq as int);
        lemma_round_half_even_div_scale(num, den, c2);
        assert(y * pq == den * c2);
        assert(x == num * c2);
        assert(t <= 53) by {
            if q == 0 {
                assert(l < 53);
            }
        }
        lemma_pow2_pos(t as nat);
        // num / den lies in [2^52, 2^53) when q > 0, below 2^53 otherwise
        let k = num / den;
        if q > 0 {
            assert(t == 52 + delta);
            lemma_pow2_adds(52, delta as nat);
            assert(num == two52() * (na * pow2(delta as nat))) by {
                lemma_mul_is_associative(na as int, two52() as int, pow2(delta as nat) as int);
                lemma_mul_is_commutative(na as int, two52() as int);
                lemma_mul_is_associative(two52() as int, na as int, pow2(delta as nat) as int);
            }
            lemma_mul_inequality(nb as int, (na * pow2(delta as nat)) as int, two52() as int);
            lemma_mul_strict_inequality((na * pow2(delta as nat)) as int, 2 * nb as int, two52() as int);
            lemma_mul_is_commutative(nb as int, two52() as int);
            lemma_mul_is_commutative(2 * nb as int, two52() as int);
            lemma_div_multiples_vanish(two52() as int, nb as int);
            lemma_div_is_ordered((nb * two52()) as int, num as int, nb as int);
            lemma_multiply_divide_lt(num as int, nb as int, pow2(53) as int);
        } else {
            // t = l + delta with l < 53, so num < 2^(l + 1) nb <= 2^53 nb
            lemma_pow2_adds((l + 1) as nat, 0);
            assert(num < pow2(53) * nb) by {
                if l + 1 < 53 && l + 1 >= 0 {
                    lemma_pow2_strictly_increases((l + 1) as nat, 53);
                }
                if delta == 0 {
                    lemma_mul_strict_inequality(na as int, 2 * nb as int, pow2(t as nat) as int);
                    lemma_pow2_unfold((t + 1) as nat);
                    if t + 1 < 53 {
                        lemma_pow2_strictly_increases((t + 1) as nat, 53);
                    }
                    lemma_mul_is_associative(2, nb as int, pow2(t as nat) as int);
                    lemma_mul_is_commutative(nb as int, pow2(t as nat) as int);
                    lemma_mul_is_associative(nb as int, pow2(t as nat) as int, 2);
                    lemma_mul_inequality(pow2((t + 1) as nat) as int, pow2(53) as int, nb as int);
                    lemma_mul_is_commutative(2 * pow2(t as nat) as int, nb as int);
                    lemma_mul_is_commutative(pow2(53) as int, nb as int);
                } else {
                    // t = l + 1 <= 53 and na < nb
                    if t < 53 {
                        lemma_pow2_strictly_increases(t as nat, 53);
                    }
                    lemma_mul_strict_inequality(na as int, nb as int, pow2(t as nat) as int);
                    lemma_mul_inequality(pow2(t as nat) as int, pow2(53) as int, nb as int);
                    lemma_mul_is_commutative(nb as int, pow2(t as nat) as int);
                    lemma_mul_is_commutative(pow2(53) as int, nb as int);
                }
            }
            lemma_mul_is_commutative(pow2(53) as int, nb as int);
            lemma_multiply_divide_lt(num as int, nb as int, pow2(53) as int);
        }
    } else {
        let nt = (-t) as nat;
        lemma_pow2_pos(nt);
        lemma_pow2_adds(nt, ap);
        lemma_pow2_adds(bp, q as nat);
        assert(bp + q == nt + ap);
        lemma_mul_is_associative(nb as int, pow2(bp) as int, pq as int);
        lemma_mul_is_associative(nb as int, pow2(nt) as int, pow2(ap) as int);
        lemma_mul_strictly_positive(nb as int, pow2(nt) as int);
        lemma_round_half_even_div_scale(num, den, pow2(ap));
        // den >= nb > na / 2: the count is at most 2
        lemma_mul_inequality(1, pow2(nt) as int, nb as int);
        lemma_mul_is_commutative(nb as int, pow2(nt) as int);
        lemma_multiply_divide_lt(num as int, den as int, 2);
        if t < -70 {
            if nt > 71 {
                lemma_pow2_strictly_increases(71, nt);
            }
            lemma_pow2_adds(52, 71);
            lemma_mul_inequality(two52() as int, nb as int, pow2(nt) as int);
            lemma_mul_inequality(pow2(71) as int, pow2(nt) as int, two52() as int);
            lemma_mul_is_commutative(pow2(71) as int, two52() as int);
            lemma_mul_is_commutative(pow2(nt) as int, two52() as int);
            lemma_pow2_strictly_increases(54, 123);
            assert(den >= pow2(123));
            assert(2 * num < den);
            lemma_fundamental_div_mod_converse(num as int, den as int, 0, num as int);
        }
    }
    let c = round_half_even_div(num, den);
    assert(q >= 0);
    assert(den > 0);
    assert(rounded_ratio(x, y) == c * pq);
    assert(c <= pow2(53));
    assert(q > 0 ==> two52() <= c);
}

impl Binary64 {
    /// IEEE 754 division, rounded to nearest, ties to even.
    pub fn div(self, other: Binary64) -> (r: Binary64)
        ensures
            r == div_spec(self, other),
    {
        let neg = self.is_sign_negative() != other.is_sign_negative();
        let sign: u64 = if neg { SIGN_MASK } else { 0 };
        if self.is_nan() || other.is_nan() {
            return Binary64 { bits: NAN_BITS };
        }
        if self.is_infinite() {
            if other.is_infinite() {
                return Binary64 { bits: NAN_BITS };
            }
            return Binary64 { bits: sign + 0x7ff0_0000_0000_0000 };
        }
        if other.is_infinite() {
            return Binary64 { bits: sign };
        }
        if other.bits % SIGN_MASK == 0 {
            if self.bits % SIGN_MASK == 0 {
                return Binary64 { bits: NAN_BITS };
            }
            return Binary64 { bits: sign + 0x7ff0_0000_0000_0000 };
        }
        proof {
            lemma_magnitude_zero(other);
            lemma_magnitude_zero(self);
        }
        if self.bits % SIGN_MASK == 0 {
            proof {
                assert(self.magnitude() == 0);
                lemma_mul_by_zero_is_zero(pow2(1074) as int);
                assert(self.magnitude() * pow2(1074) == 0);
                lemma_rounded_ratio_zero(other.magnitude());
                lemma_from_magnitude_fields(neg, 0);
            }
            return Binary64 { bits: sign };
        }
        let (ma, ea) = unpack(self);
        let (mb, eb) = unpack(other);
        let (na, la) = normalize(ma);
        let (nb, lb) = normalize(mb);
        let ap: i32 = ea as i32 + 1074 + lb as i32;
        let bp: i32 = eb as i32 + la as i32;
        let e0: i32 = ap - bp;
        let l: i32 = if na < nb { e0 - 1 } else { e0 };
        let q: i32 = if l >= 53 { l - 52 } else { 0 };
        let t: i32 = e0 - q;
        proof {
            lemma2_to64();
            lemma2_to64_rest();
            lemma_pow2_126();
            lemma_quotient_normalized(na as nat, nb as nat, ap as nat, bp as nat);
            lemma_quotient_scaling(self, other, ma as nat, ea as nat, na as nat, la as nat, mb as nat, eb as nat,
                nb as nat, lb as nat);
        }
        let c: u128;
        if t >= 0 {
            proof {
                if t < 53 {
                    lemma_pow2_strictly_increases(t as nat, 53);
                }
                lemma_pow2_adds(53, 53);
                lemma_pow2_strictly_increases(106, 126);
                lemma_mul_strict_inequality(na as int, pow2(53) as int, pow2(t as nat) as int);
                lemma_mul_inequality(pow2(t as nat) as int, pow2(53) as int, pow2(53) as int);
                lemma_mul_is_commutative(pow2(t as nat) as int, pow2(53) as int);
                lemma_pow2_strictly_increases(53, 126);
            }
            let num: u128 = na as u128 * pow2_u128(t as u32);
            c = round_half_even_exec(num, nb as u128);
        } else if t < -70 {
            c = 0;
        } else {
            proof {
                let nt = (-t) as nat;
                lemma_pow2_adds(53, nt);
                lemma_pow2_strictly_increases(53 + nt, 126);
                lemma_pow2_strictly_increases(nt, 126);
                lemma_pow2_pos(nt);
                lemma_mul_strict_inequality(nb as int, pow2(53) as int, pow2(nt) as int);
                lemma_pow2_strictly_increases(53, 126);
            }
            let den: u128 = nb as u128 * pow2_u128((-t) as u32);
            c = round_half_even_exec(na as u128, den);
        }
        encode(neg, c, q as u32)
    }
}

/// The quotient of the magnitudes, rescaled to the normalized significands.
proof fn lemma_quotient_scaling(
    a: Binary64,
    b: Binary64,
    ma: nat,
    ea: nat,
    na: nat,
    la: nat,
    mb: nat,
    eb: nat,
    nb: nat,
    lb: nat,
)
    requires
        ma * pow2(ea) == a.magnitude(),
        mb * pow2(eb) == b.magnitude(),
        na == ma * pow2(la),
        nb == mb * pow2(lb),
        b.magnitude() > 0,
    ensures
        rounded_ratio(a.magnitude() * pow2(1074), b.magnitude())
            == rounded_ratio(na * pow2(ea + 1074 + lb), nb * pow2(eb + la)),
{
    let c = pow2(la + lb);
    lemma_pow2_pos(la + lb);
    lemma_pow2_adds(la, lb);
    lemma_pow2_adds(ea, 1074);
    lemma_pow2_adds(ea + 1074, lb);
    lemma_pow2_adds(la, ea + 1074 + lb);
    lemma_pow2_adds(eb, la);
    lemma_pow2_adds(lb, eb + la);
    let n = a.magnitude() * pow2(1074);
    let d = b.magnitude();
    assert(n * c == na * pow2(ea + 1074 + lb)) by (nonlinear_arith)
        requires
            n == ma * pow2(ea) * pow2(1074),
            c == pow2(la) * pow2(lb),
            na == ma * pow2(la),
            pow2(ea + 1074) == pow2(ea) * pow2(1074),
            pow2(ea + 1074 + lb) == pow2(ea + 1074) * pow2(lb),
    ;
    assert(d * c == nb * pow2(eb + la)) by (nonlinear_arith)
        requires
            d == mb * pow2(eb),
            c == pow2(la) * pow2(lb),
            nb == mb * pow2(lb),
            pow2(eb + la) == pow2(eb) * pow2(la),
    ;
    lemma_rounded_ratio_scale(n, d, c);
}

/// The rounded quotient is a count of grid steps `c * 2^q` with a
/// significand of at most 53 bits, and of exactly 53 bits above the
/// subnormal range.
proof fn lemma_ratio_grid(n: nat, d: nat)
    requires
        d > 0,
    ensures
        ({
            let x = n / d;
            let q = ulp_exponent(x);
            let w = d * pow2(q);
            let k = n / w;
            let c = round_half_even_div(n, w);
            &&& w > 0
            &&& rounded_ratio(n, d) == c * pow2(q)
            &&& c == k || c == k + 1
            &&& k < pow2(53)
            &&& c <= pow2(53)
            &&& q > 0 ==> two52() <= k && pow2(52 + q) <= x
        }),
{
    lemma2_to64();
    lemma2_to64_rest();
    let x = n / d;
    let q = ulp_exponent(x);
    lemma_pow2_pos(q);
    lemma_mul_strictly_positive(d as int, pow2(q) as int);
    lemma_div_denominator(n as int, d as int, pow2(q) as int);
    if x < pow2(53) {
        assert(pow2(0) == 1);
        assert(d * 1 == d);
    } else {
        lemma_log2_bounds(x as int);
        let l = log(2, x as int);
        assert(l >= 53) by {
            if l < 53 {
                if l + 1 < 53 {
                    lemma_pow2_strictly_increases((l + 1) as nat, 53);
                }
            }
        }
        lemma_div_pow2_range(x, q);
    }
}

/// The rounded quotient is nearest: no finite binary64 magnitude `Y` has
/// `Y * d` closer to `n` than the rounded quotient has.
proof fn lemma_ratio_nearest(n: nat, d: nat, y: Binary64)
    requires
        d > 0,
        y.is_finite_spec(),
    ensures
        dist(n as int, (rounded_ratio(n, d) * d) as int) <= dist(n as int, (y.magnitude() * d) as int),
{
    lemma2_to64();
    lemma_ratio_grid(n, d);
    let x = n / d;
    let q = ulp_exponent(x);
    let w = (d * pow2(q)) as int;
    let k = (n / (d * pow2(q))) as int;
    let c = round_half_even_div(n, d * pow2(q)) as int;
    let r = (n % (d * pow2(q))) as int;
    let yd = (y.magnitude() * d) as int;
    lemma_pow2_pos(q);
    lemma_fundamental_div_mod(n as int, w);
    assert(rounded_ratio(n, d) * d == c * w) by {
        lemma_mul_is_associative(c, pow2(q) as int, d as int);
        lemma_mul_is_commutative(pow2(q) as int, d as int);
    }
    assert(n == k * w + r) by {
        lemma_mul_is_commutative(k, w);
    }
    assert(dist(n as int, c * w) <= r && dist(n as int, c * w) <= w - r) by {
        if c == k + 1 {
            lemma_mul_is_distributive_add_other_way(w, k, 1);
        }
    }
    if k * w < yd < (k + 1) * w {
        // no binary64 lies strictly between two neighbouring grid points
        let j: int = if q == 0 {
            y.magnitude() as int
        } else {
            lemma2_to64_rest();
            lemma_mul_inequality(two52() as int, k, w);
            lemma_mul_is_commutative(two52() as int, k);
            lemma_mul_is_commutative(k, w);
            lemma_pow2_adds(52, q);
            lemma_mul_is_associative(two52() as int, pow2(q) as int, d as int);
            lemma_mul_is_commutative(pow2(q) as int, d as int);
            lemma_mul_is_commutative(pow2(52 + q) as int, d as int);
            assert(two52() * w == pow2(52 + q) * d);
            assert(pow2(52 + q) * d < y.magnitude() * d);
            lemma_mul_strict_inequality_converse(pow2(52 + q) as int, y.magnitude() as int, d as int);
            y_steps(y, q, 0)
        };
        assert(yd == j * w) by {
            if q == 0 {
                assert(pow2(0) == 1);
                assert(d * pow2(0) == d * 1);
                assert(w == d);
            } else {
                assert(y.magnitude() == j * pow2(q));
                lemma_mul_is_associative(j, pow2(q) as int, d as int);
                lemma_mul_is_commutative(pow2(q) as int, d as int);
            }
        }
        lemma_mul_is_distributive_add_other_way(w, k, 1);
        lemma_mul_strict_inequality_converse(k, j, w);
        lemma_mul_strict_inequality_converse(j, k + 1, w);
        assert(false);
    }
    lemma_mul_is_distributive_add_other_way(w, k, 1);
}

/// Division is correctly rounded: a finite quotient of finite operands,
/// multiplied back by the divisor, lies at least as close to the dividend as
/// every finite binary64 does (values in units of 2^-1074, so the dividend
/// scaled by 2^1074).
pub proof fn lemma_div_nearest(a: Binary64, b: Binary64, y: Binary64)
    requires
        a.is_finite_spec(),
        b.is_finite_spec(),
        b.abs_bits() != 0,
        div_spec(a, b).is_finite_spec(),
        y.is_finite_spec(),
    ensures
        dist(a.value() * pow2(1074), div_spec(a, b).value() * b.value())
            <= dist(a.value() * pow2(1074), y.value() * b.value()),
{
    let neg = a.sign() != b.sign();
    let n = a.magnitude() * pow2(1074);
    let d = b.magnitude();
    lemma_magnitude_zero(b);
    lemma_ratio_grid(n, d);
    let q = ulp_exponent(n / d);
    let c = round_half_even_div(n, d * pow2(q));
    let rr = rounded_ratio(n, d);
    lemma_from_magnitude_fields(neg, rr);
    lemma_encode_grid_exact(neg, c, q);
    lemma_ratio_nearest(n, d, y);
    let zero_pattern = Binary64 { bits: 0 };
    lemma_ratio_nearest(n, d, zero_pattern);
    assert(zero_pattern.magnitude() == 0);
    let r = div_spec(a, b);
    let an = a.value() * pow2(1074);
    let ym = y.magnitude() as int;
    // an = ±n, r * b = ±(rr * d) with the sign of an, y * b = ±(ym * d)
    assert(an == (if a.sign() { -n } else { n as int })) by {
        lemma_mul_unary_negation(a.magnitude() as int, pow2(1074) as int);
    }
    assert(r.value() * b.value() == (if a.sign() { -(rr * d) } else { (rr * d) as int })) by {
        lemma_mul_unary_negation(rr as int, d as int);
        lemma_mul_is_commutative(rr as int, -d);
        lemma_mul_unary_negation(d as int, rr as int);
        lemma_mul_cancels_negatives(rr as int, d as int);
        lemma_mul_is_commutative(rr as int, d as int);
    }
    assert(y.value() * b.value() == (if y.sign() != b.sign() { -(ym * d) } else { ym * d })) by {
        lemma_mul_unary_negation(ym, d as int);
        lemma_mul_is_commutative(ym, -d);
        lemma_mul_unary_negation(d as int, ym);
        lemma_mul_cancels_negatives(ym, d as int);
        lemma_mul_is_commutative(ym, d as int);
    }
    lemma_mul_nonnegative(rr as int, d as int);
    lemma_mul_nonnegative(ym, d as int);
    assert(0 * d == 0);
}

/// Dividing by one rounds as the dyadic rounding does.
pub proof fn lemma_rounded_ratio_unit(m: nat)
    ensures
        rounded_ratio(m, 1) == crate::rounding::rounded_magnitude(m, 0),
{
    lemma2_to64();
    let q = ulp_exponent(m);
    assert(m / 1 == m);
    assert(m / pow2(0) == m);
    assert(1 * pow2(q) == pow2(q));
}

/// A finite value divided by itself is exactly one.
pub proof fn lemma_div_self(x: Binary64)
    requires
        x.is_finite_spec(),
        x.abs_bits() != 0,
    ensures
        div_spec(x, x) == (Binary64 { bits: 0x3ff0_0000_0000_0000 }),
{
    lemma2_to64();
    lemma2_to64_rest();
    lemma_magnitude_zero(x);
    let one = Binary64 { bits: 0x3ff0_0000_0000_0000 };
    let m = x.magnitude();
    lemma_rounded_ratio_scale(pow2(1074), 1, m);
    lemma_mul_is_commutative(pow2(1074) as int, m as int);
    assert(1 * m == m);
    lemma_rounded_ratio_unit(pow2(1074));
    assert(one.magnitude() == pow2(1074)) by {
        lemma_pow2_adds(1022, 52);
        lemma_mul_is_commutative(two52() as int, pow2(1022) as int);
    }
    crate::arith::lemma_rounded_representable(one);
    crate::arith::lemma_from_magnitude_roundtrip(one);
}

/// Dividing a finite value by two undoes doubling it: `(x + x) / 2 == x`
/// when `x + x` does not overflow.
pub proof fn lemma_double_then_halve(x: Binary64)
    requires
        x.is_finite_spec(),
        x.exponent() < 2046,
    ensures
        div_spec(crate::arith::add_spec(x, x), Binary64 { bits: 0x4000_0000_0000_0000 }) == x,
{
    lemma2_to64();
    lemma2_to64_rest();
    crate::binary64::lemma_magnitude_bounds(x);
    let m = x.magnitude();
    let two = Binary64 { bits: 0x4000_0000_0000_0000 };
    let d2 = crate::arith::add_spec(x, x);
    // x + x is exactly 2x
    let c: nat = if x.exponent() == 0 { 2 * x.fraction() } else { two52() + x.fraction() };
    let q: nat = if x.exponent() == 0 { 0 } else { x.exponent() };
    assert(c * pow2(q) == 2 * m) by {
        if x.exponent() > 0 {
            lemma_pow2_unfold(x.exponent());
            lemma_mul_is_associative(c as int, 2, pow2((x.exponent() - 1) as nat) as int);
            lemma_mul_is_commutative(c as int, 2);
            lemma_mul_is_associative(2, c as int, pow2((x.exponent() - 1) as nat) as int);
        }
    }
    assert(c * pow2(q) < overflow_threshold()) by {
        lemma_pow2_adds(53, q);
        if q + 53 < 2098 {
            lemma_pow2_strictly_increases(q + 53, 2098);
        }
        lemma_pow2_pos(q);
        lemma_mul_strict_inequality(c as int, pow2(53) as int, pow2(q) as int);
        lemma_mul_is_commutative(pow2(53) as int, pow2(q) as int);
    }
    lemma_encode_grid_exact(false, c, q);
    let w = from_magnitude(false, 2 * m);
    crate::arith::lemma_rounded_representable(w);
    lemma_magnitude_zero(x);
    lemma_encode_grid_exact(x.sign(), c, q);
    assert(d2.magnitude() == 2 * m && d2.sign() == x.sign() && d2.is_finite_spec()) by {
        if m == 0 {
            assert(d2 == crate::arith::zero(x.sign()));
        }
    }
    // (2x) / 2 = x
    assert(two.magnitude() == pow2(1074) * 2) by {
        lemma_pow2_adds(1023, 52);
        lemma_pow2_unfold(1075);
        lemma_pow2_adds(1074, 1);
        lemma_mul_is_commutative(two52() as int, pow2(1023) as int);
    }
    assert((2 * m) * pow2(1074) == (m * pow2(1074)) * 2) by {
        lemma_mul_is_associative(2, m as int, pow2(1074) as int);
        lemma_mul_is_commutative(2, (m * pow2(1074)) as int);
        lemma_mul_is_associative(m as int, pow2(1074) as int, 2);
        lemma_mul_is_commutative(2, m as int);
        lemma_mul_is_associative(m as int, 2, pow2(1074) as int);
        lemma_mul_is_commutative(2, pow2(1074) as int);
    }
    lemma_pow2_pos(1074);
    lemma_rounded_ratio_scale(m * pow2(1074), pow2(1074), 2);
    lemma_rounded_ratio_scale(m, 1, pow2(1074));
    assert(1 * pow2(1074) == pow2(1074));
    lemma_rounded_ratio_unit(m);
    crate::arith::lemma_rounded_representable(x);
    crate::arith::lemma_from_magnitude_roundtrip(x);
}

/// A quotient of finite operands whose exact value is above half the
/// smallest subnormal does not round to zero.
pub(crate) proof fn lemma_div_no_underflow(a: Binary64, b: Binary64)
    requires
        a.is_finite_spec(),
        b.is_finite_spec(),
        b.abs_bits() != 0,
        2 * (a.magnitude() * pow2(1074)) > b.magnitude(),
    ensures
        div_spec(a, b).abs_bits() != 0,
{
    let r = div_spec(a, b);
    if r.is_finite_spec() && r.abs_bits() == 0 {
        lemma_magnitude_zero(r);
        lemma_magnitude_zero(b);
        let neg = a.sign() != b.sign();
        let y = Binary64 { bits: if neg { 0x8000_0000_0000_0001u64 } else { 1u64 } };
        assert(y.magnitude() == 1);
        lemma_div_nearest(a, b, y);
        let n = a.magnitude() * pow2(1074);
        assert(a.value() * pow2(1074) == (if a.sign() { -n } else { n as int })) by {
            lemma_mul_unary_negation(a.magnitude() as int, pow2(1074) as int);
        }
        assert(r.value() == 0);
        assert(y.value() == (if neg { -1int } else { 1int }));
        assert(y.value() * b.value() == (if a.sign() { -b.magnitude() } else { b.magnitude() as int })) by {
            if neg {
                assert(-1int * b.value() == -b.value());
            } else {
                assert(1int * b.value() == b.value());
            }
        }
        assert(false);
    }
}

} // verus!
