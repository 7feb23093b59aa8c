//! Round-to-nearest-even onto the binary64 grid.
//!
//! Magnitudes are counted in units of 2^-1074, the spacing of the subnormals;
//! a value `m / 2^s` of such units is rounded with an unbounded exponent and
//! then either encoded or, past the largest finite value, made infinite.
use vstd::prelude::*;
use vstd::arithmetic::power2::*;
use vstd::arithmetic::logarithm::*;
use vstd::arithmetic::mul::*;
use vstd::arithmetic::div_mod::*;
use crate::binary64::{Binary64, two52, SIGN_MASK, INFINITY_BITS};

verus! {

/// The exponent of the grid spacing (in units) around a magnitude whose
/// integer part is `m`: spacing 1 below 2^53 units, else 2^(floor(log2 m) - 52).
pub open spec fn ulp_exponent(m: nat) -> nat {
    if m < pow2(53) {
        0
    } else {
        (log(2, m as int) - 52) as nat
    }
}

/// The number of steps of 2^q nearest to `m`, ties to an even number.
pub open spec fn round_half_even(m: nat, q: nat) -> nat {
    let d = m / pow2(q);
    let r = m % pow2(q);
    if 2 * r < pow2(q) {
        d
    } else if 2 * r > pow2(q) {
        d + 1
    } else if d % 2 == 0 {
        d
    } else {
        d + 1
    }
}

/// The magnitude `m / 2^s` (in units) rounded to nearest, ties to even,
/// onto the binary64 grid with an unbounded exponent; the result in units.
pub open spec fn rounded_magnitude(m: nat, s: nat) -> nat {
    let q = ulp_exponent(m / pow2(s));
    round_half_even(m, q + s) * pow2(q)
}

/// The first magnitude (in units) that lies beyond the largest finite binary64.
pub open spec fn overflow_threshold() -> nat {
    pow2(2098)
}

/// The binary64 of the given sign whose magnitude is `mag` units: `mag` is a
/// grid value; from the overflow threshold on, the result is infinite.
pub open spec fn from_magnitude(neg: bool, mag: nat) -> Binary64 {
    let sign: nat = if neg { 0x8000_0000_0000_0000 } else { 0 };
    if mag >= overflow_threshold() {
        Binary64 { bits: (sign + 0x7ff0_0000_0000_0000) as u64 }
    } else if mag < two52() {
        Binary64 { bits: (sign + mag) as u64 }
    } else {
        let e = (log(2, mag as int) - 51) as nat;
        Binary64 { bits: (sign + e * two52() + (mag / pow2((e - 1) as nat) - two52())) as u64 }
    }
}

/// The binary64 nearest (ties to even) to `m / 2^s` units, with the given sign.
pub open spec fn round_spec(neg: bool, m: nat, s: nat) -> Binary64 {
    from_magnitude(neg, rounded_magnitude(m, s))
}

/// The binary64 nearest (ties to even) to `p * 2^e` units, with the given sign.
pub open spec fn round_scaled(neg: bool, p: nat, e: int) -> Binary64 {
    if e >= 0 {
        round_spec(neg, p * pow2(e as nat), 0)
    } else {
        round_spec(neg, p, (-e) as nat)
    }
}

/// floor(log2 x) of a value bracketed by powers of two.
pub proof fn lemma_log2_of_bounds(x: int, k: nat)
    requires
        pow2(k) <= x < pow2(k + 1),
    ensures
        log(2, x) == k,
    decreases k,
{
    lemma2_to64();
    if k == 0 {
        lemma_log0(2, x);
    } else {
        lemma_pow2_unfold(k);
        lemma_pow2_unfold(k + 1);
        lemma_log_s(2, x);
        lemma_log2_of_bounds(x / 2, (k - 1) as nat);
    }
}

/// Bounds of `p / 2^s` for `p` of bit length `len`.
pub proof fn lemma_div_pow2_bounds(p: nat, len: nat, s: nat)
    requires
        len >= 1,
        pow2((len - 1) as nat) <= p < pow2(len),
        s <= len,
    ensures
        p / pow2(s) < pow2((len - s) as nat),
        s < len ==> pow2((len - 1 - s) as nat) <= p / pow2(s),
{
    lemma_pow2_pos(s);
    lemma_pow2_adds((len - s) as nat, s);
    lemma_mul_is_commutative(pow2((len - s) as nat) as int, pow2(s) as int);
    lemma_multiply_divide_lt(p as int, pow2(s) as int, pow2((len - s) as nat) as int);
    if s < len {
        lemma_pow2_adds((len - 1 - s) as nat, s);
        lemma_div_multiples_vanish(pow2((len - 1 - s) as nat) as int, pow2(s) as int);
        lemma_mul_is_commutative(pow2((len - 1 - s) as nat) as int, pow2(s) as int);
        lemma_div_is_ordered(pow2((len - 1) as nat) as int, p as int, pow2(s) as int);
    }
}

/// Rounding a multiple of the step is exact.
pub proof fn lemma_round_half_even_exact(a: nat, q: nat)
    ensures
        round_half_even(a * pow2(q), q) == a,
{
    lemma_pow2_pos(q);
    lemma_fundamental_div_mod_converse((a * pow2(q)) as int, pow2(q) as int, a as int, 0);
}

/// Scaling the magnitude and the step together leaves the count unchanged.
pub proof fn lemma_round_half_even_scale(m: nat, q: nat, j: nat)
    ensures
        round_half_even(m * pow2(j), q + j) == round_half_even(m, q),
{
    let pq = pow2(q) as int;
    let pj = pow2(j) as int;
    lemma_pow2_pos(q);
    lemma_pow2_pos(j);
    lemma_pow2_adds(q, j);
    let d = m as int / pq;
    let r = m as int % pq;
    lemma_fundamental_div_mod(m as int, pq);
    assert(m * pj == d * (pq * pj) + r * pj) by (nonlinear_arith)
        requires
            m == pq * d + r,
    ;
    assert(0 <= r * pj < pq * pj) by (nonlinear_arith)
        requires
            0 <= r < pq,
            pj > 0,
    ;
    lemma_fundamental_div_mod_converse((m * pj) as int, pq * pj, d, r * pj);
    assert((2 * (r * pj) < pq * pj) == (2 * r < pq)) by (nonlinear_arith)
        requires
            pj > 0,
    ;
    assert((2 * (r * pj) > pq * pj) == (2 * r > pq)) by (nonlinear_arith)
        requires
            pj > 0,
    ;
}

/// The value of 2^126.
pub proof fn lemma_pow2_126()
    ensures
        pow2(126) == 0x4000_0000_0000_0000_0000_0000_0000_0000,
{
    lemma2_to64_rest();
    lemma_pow2_adds(63, 63);
}

/// 2^n as a u128.
pub(crate) fn pow2_u128(n: u32) -> (r: u128)
    requires
        n <= 126,
    ensures
        r == pow2(n as nat),
{
    let mut r: u128 = 1;
    let mut i: u32 = 0;
    proof {
        lemma2_to64();
    }
    while i < n
        invariant
            i <= n <= 126,
            r == pow2(i as nat),
        decreases n - i,
    {
        proof {
            lemma_pow2_unfold((i + 1) as nat);
            if i + 1 < 126 {
                lemma_pow2_strictly_increases((i + 1) as nat, 126);
            }
            lemma_pow2_126();
        }
        r = r * 2;
        i = i + 1;
    }
    r
}

/// The number of bits of a positive `p`.
fn bit_length(p: u128) -> (len: u32)
    requires
        0 < p < pow2(126),
    ensures
        1 <= len <= 126,
        pow2((len - 1) as nat) <= p < pow2(len as nat),
{
    let mut len: u32 = 0;
    let mut pw: u128 = 1;
    proof {
        lemma2_to64();
    }
    while pw <= p
        invariant
            len <= 126,
            pw == pow2(len as nat),
            0 < p < pow2(126),
            len > 0 ==> pow2((len - 1) as nat) <= p,
        decreases 126 - len,
    {
        proof {
            lemma_pow2_unfold((len + 1) as nat);
            if len >= 126 {
                lemma_pow2_strictly_increases(126, len as nat);
            }
            if len < 126 {
                lemma_pow2_strictly_increases(len as nat, 126);
            }
            lemma_pow2_126();
        }
        pw = pw * 2;
        len = len + 1;
    }
    len
}


/// The grid exponent at `p * 2^e` units, for `p` of bit length `len`.
pub open spec fn grid_exponent(len: nat, e: int) -> int {
    if len - 1 + e >= 53 {
        len - 1 + e - 52
    } else {
        0
    }
}

/// The magnitude and scale that `round_scaled` rounds.
pub open spec fn scaled_parts(p: nat, e: int) -> (nat, nat) {
    if e >= 0 {
        (p * pow2(e as nat), 0)
    } else {
        (p, (-e) as nat)
    }
}

/// The integer part of `p * 2^e` lies in the binade of its leading bit.
pub proof fn lemma_scaled_floor_bounds(p: nat, len: nat, e: int)
    requires
        len >= 1,
        pow2((len - 1) as nat) <= p < pow2(len),
        len - 1 + e >= 0,
    ensures
        ({
            let (m, s) = scaled_parts(p, e);
            let lead = (len - 1 + e) as nat;
            pow2(lead) <= m / pow2(s) < pow2(lead + 1)
        }),
{
    let (m, s) = scaled_parts(p, e);
    let lead = (len - 1 + e) as nat;
    if e >= 0 {
        lemma2_to64();
        lemma_pow2_pos(e as nat);
        lemma_pow2_adds((len - 1) as nat, e as nat);
        lemma_pow2_adds(len, e as nat);
        lemma_mul_inequality(pow2((len - 1) as nat) as int, p as int, pow2(e as nat) as int);
        lemma_mul_strict_inequality(p as int, pow2(len) as int, pow2(e as nat) as int);
        assert(m / pow2(s) == m);
    } else {
        lemma_div_pow2_bounds(p, len, s);
    }
}

/// The spacing exponent that `round_scaled` uses is `grid_exponent`.
pub proof fn lemma_ulp_of_scaled(p: nat, len: nat, e: int)
    requires
        len >= 1,
        pow2((len - 1) as nat) <= p < pow2(len),
    ensures
        ({
            let (m, s) = scaled_parts(p, e);
            ulp_exponent(m / pow2(s)) == grid_exponent(len, e)
        }),
{
    let (m, s) = scaled_parts(p, e);
    let x = m / pow2(s);
    if len - 1 + e >= 0 {
        let lead = (len - 1 + e) as nat;
        lemma_scaled_floor_bounds(p, len, e);
        if lead >= 53 {
            if lead > 53 {
                lemma_pow2_strictly_increases(53, lead);
            }
            lemma_log2_of_bounds(x as int, lead);
        } else if lead + 1 < 53 {
            lemma_pow2_strictly_increases(lead + 1, 53);
        }
    } else {
        // every bit is below the unit: the integer part is zero
        lemma_pow2_pos(s);
        if len < s {
            lemma_pow2_strictly_increases(len, s);
        }
        lemma_fundamental_div_mod_converse(p as int, pow2(s) as int, 0, p as int);
        lemma_pow2_pos(53);
    }
}

/// The count of steps that `round_scaled` takes, in terms of `p`.
pub proof fn lemma_count_of_scaled(p: nat, e: int, q: nat)
    ensures
        ({
            let (m, s) = scaled_parts(p, e);
            let sh = q - e;
            &&& sh <= 0 ==> round_half_even(m, q + s) == p * pow2((-sh) as nat)
            &&& sh > 0 ==> round_half_even(m, q + s) == round_half_even(p, sh as nat)
        }),
{
    let (m, s) = scaled_parts(p, e);
    let sh = q - e;
    if e >= 0 {
        if sh <= 0 {
            let k = (e - q) as nat;
            lemma_pow2_adds(k, q);
            lemma_mul_is_associative(p as int, pow2(k) as int, pow2(q) as int);
            lemma_round_half_even_exact(p * pow2(k), q);
        } else {
            lemma_round_half_even_scale(p, sh as nat, e as nat);
        }
    }
}

/// A step count beyond every bit of `p` rounds to zero.
pub proof fn lemma_round_half_even_vanishes(p: nat, len: nat, sh: nat)
    requires
        p < pow2(len),
        sh > len,
    ensures
        round_half_even(p, sh) == 0,
{
    if len < sh - 1 {
        lemma_pow2_strictly_increases(len, (sh - 1) as nat);
    }
    lemma_pow2_unfold(sh);
    lemma_fundamental_div_mod_converse(p as int, pow2(sh) as int, 0, p as int);
}

/// Encodes the grid magnitude `c * 2^q` units with the given sign.
pub(crate) fn encode(neg: bool, c: u128, q: u32) -> (r: Binary64)
    requires
        c <= pow2(53),
        q > 0 ==> c >= two52(),
        q <= 5000,
    ensures
        r == from_magnitude(neg, (c * pow2(q as nat)) as nat),
{
    proof {
        lemma2_to64();
        lemma2_to64_rest();
    }
    let sign: u64 = if neg { SIGN_MASK } else { 0 };
    let c2: u64;
    let q2: u32;
    if c == 0x20_0000_0000_0000 {
        c2 = 0x10_0000_0000_0000;
        q2 = q + 1;
        proof {
            lemma_pow2_unfold(q2 as nat);
            lemma_mul_is_associative(two52() as int, 2, pow2(q as nat) as int);
        }
    } else {
        c2 = c as u64;
        q2 = q;
    }
    let ghost mag: nat = (c2 * pow2(q2 as nat)) as nat;
    assert(mag == c * pow2(q as nat));
    if c2 < 0x10_0000_0000_0000 {
        proof {
            assert(q2 == 0);
            lemma_pow2_strictly_increases(52, 2098);
        }
        Binary64 { bits: sign + c2 }
    } else if q2 >= 2046 {
        proof {
            lemma_pow2_adds(52, q2 as nat);
            if q2 > 2046 {
                lemma_pow2_strictly_increases(2046, q2 as nat);
            }
            lemma_pow2_pos(q2 as nat);
            lemma_mul_inequality(two52() as int, c2 as int, pow2(q2 as nat) as int);
            lemma_mul_inequality(pow2(2046) as int, pow2(q2 as nat) as int, two52() as int);
            lemma_mul_is_commutative(pow2(2046) as int, two52() as int);
            lemma_mul_is_commutative(pow2(q2 as nat) as int, two52() as int);
            lemma_pow2_adds(52, 2046);
        }
        Binary64 { bits: sign + INFINITY_BITS }
    } else {
        let e: u64 = (q2 + 1) as u64;
        proof {
            let p = pow2(q2 as nat);
            lemma_pow2_pos(q2 as nat);
            lemma_pow2_adds(52, q2 as nat);
            lemma_pow2_adds(53, q2 as nat);
            lemma_mul_inequality(two52() as int, c2 as int, p as int);
            lemma_mul_strict_inequality(c2 as int, pow2(53) as int, p as int);
            lemma_mul_is_commutative(two52() as int, p as int);
            lemma_mul_is_commutative(pow2(53) as int, p as int);
            lemma_log2_of_bounds(mag as int, (52 + q2) as nat);
            if 53 + q2 < 2098 {
                lemma_pow2_strictly_increases((53 + q2) as nat, 2098);
            }
            if q2 > 0 {
                lemma_pow2_strictly_increases(52, (52 + q2) as nat);
            }
            lemma_div_multiples_vanish(c2 as int, p as int);
            lemma_mul_is_commutative(c2 as int, p as int);
        }
        Binary64 { bits: sign + e * 0x10_0000_0000_0000 + (c2 - 0x10_0000_0000_0000) }
    }
}

/// Rounds `p * 2^e` units, with the given sign, to the nearest binary64
/// (ties to even).
pub(crate) fn round_pack(neg: bool, p: u128, e: i32) -> (r: Binary64)
    requires
        p < pow2(126),
        -2200 <= e <= 4200,
    ensures
        r == round_scaled(neg, p as nat, e as int),
{
    proof {
        lemma2_to64();
        lemma2_to64_rest();
    }
    if p == 0 {
        proof {
            let (m, s) = scaled_parts(0, e as int);
            lemma_pow2_pos(s);
            if e >= 0 {
                lemma_mul_by_zero_is_zero(pow2(e as nat) as int);
            }
            assert(m == 0);
            assert(m / pow2(s) == 0);
            lemma_fundamental_div_mod_converse(0, pow2(s) as int, 0, 0);
            assert(round_half_even(m, s) == 0);
        }
        return encode(neg, 0, 0);
    }
    let len = bit_length(p);
    let lead: i32 = len as i32 - 1 + e;
    let q: i32 = if lead >= 53 { lead - 52 } else { 0 };
    let sh: i32 = q - e;
    proof {
        lemma_ulp_of_scaled(p as nat, len as nat, e as int);
        lemma_count_of_scaled(p as nat, e as int, q as nat);
    }
    let c: u128;
    if sh <= 0 {
        let k = (-sh) as u32;
        proof {
            // p * 2^k < 2^(len + k) <= 2^53
            lemma_pow2_adds(len as nat, k as nat);
            lemma_pow2_pos(k as nat);
            lemma_mul_strict_inequality(p as int, pow2(len as nat) as int, pow2(k as nat) as int);
            lemma_mul_inequality(pow2((len - 1) as nat) as int, p as int, pow2(k as nat) as int);
            lemma_pow2_adds((len - 1) as nat, k as nat);
            if len + k < 53 {
                lemma_pow2_strictly_increases((len + k) as nat, 53);
            }
            if k > 52 {
                lemma_pow2_strictly_increases(53, k as nat);
                lemma_pow2_strictly_increases(k as nat, (len + k) as nat);
            }
        }
        c = p * pow2_u128(k);
    } else if sh > len as i32 {
        proof {
            lemma_round_half_even_vanishes(p as nat, len as nat, sh as nat);
        }
        c = 0;
    } else {
        let pw = pow2_u128(sh as u32);
        proof {
            lemma_pow2_126();
            lemma_pow2_pos(sh as nat);
            if sh < 126 {
                lemma_pow2_strictly_increases(sh as nat, 126);
            }
            lemma_div_pow2_bounds(p as nat, len as nat, sh as nat);
            if len - sh < 53 {
                lemma_pow2_strictly_increases((len - sh) as nat, 53);
            }
        }
        let d = p / pw;
        let rem = p % pw;
        if 2 * rem < pw {
            c = d;
        } else if 2 * rem > pw {
            c = d + 1;
        } else if d % 2 == 0 {
            c = d;
        } else {
            c = d + 1;
        }
    }
    encode(neg, c, q as u32)
}
} // verus!
