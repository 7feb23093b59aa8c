//! IEEE 754 binary64 numbers held as their 64-bit patterns, with exact
//! classification and ordering.
use vstd::prelude::*;
use vstd::arithmetic::power2::*;
use vstd::arithmetic::mul::*;

verus! {

/// The sign bit of a binary64 pattern.
pub const SIGN_MASK: u64 = 0x8000_0000_0000_0000;

/// The pattern of positive infinity; every NaN has a larger magnitude field.
pub const INFINITY_BITS: u64 = 0x7ff0_0000_0000_0000;

/// The quiet NaN that the arithmetic here produces.
pub const NAN_BITS: u64 = 0x7ff8_0000_0000_0000;

/// An IEEE 754 binary64 value, held as its bit pattern.
#[derive(Clone, Copy, Debug)]
pub struct Binary64 {
    pub bits: u64,
}

/// 2^52: the weight of the lowest exponent bit.
pub open spec fn two52() -> nat {
    0x10_0000_0000_0000
}

impl Binary64 {
    /// The sign bit.
    pub open spec fn sign(self) -> bool {
        self.bits >= 0x8000_0000_0000_0000
    }

    /// Every bit but the sign bit.
    pub open spec fn abs_bits(self) -> nat {
        (self.bits % 0x8000_0000_0000_0000) as nat
    }

    /// The biased exponent field.
    pub open spec fn exponent(self) -> nat {
        self.abs_bits() / two52()
    }

    /// The fraction field.
    pub open spec fn fraction(self) -> nat {
        self.abs_bits() % two52()
    }

    pub open spec fn is_nan_spec(self) -> bool {
        self.abs_bits() > 0x7ff0_0000_0000_0000
    }

    pub open spec fn is_inf_spec(self) -> bool {
        self.abs_bits() == 0x7ff0_0000_0000_0000
    }

    pub open spec fn is_finite_spec(self) -> bool {
        self.abs_bits() < 0x7ff0_0000_0000_0000
    }

    /// The magnitude of a finite value, counted in units of 2^-1074
    /// (the smallest positive subnormal).
    pub open spec fn magnitude(self) -> nat {
        if self.exponent() == 0 {
            self.fraction()
        } else {
            (two52() + self.fraction()) * pow2((self.exponent() - 1) as nat)
        }
    }

    /// The value of a finite number, in units of 2^-1074.
    pub open spec fn value(self) -> int {
        if self.sign() {
            -self.magnitude()
        } else {
            self.magnitude() as int
        }
    }

    /// `self < other` on the extended reals; false when either is NaN.
    pub open spec fn lt_spec(self, other: Binary64) -> bool {
        &&& !self.is_nan_spec()
        &&& !other.is_nan_spec()
        &&& if self.is_inf_spec() {
            self.sign() && !(other.is_inf_spec() && other.sign())
        } else if other.is_inf_spec() {
            !other.sign()
        } else {
            self.value() < other.value()
        }
    }

    /// `self == other` on the extended reals (so `-0 == +0`); false when either is NaN.
    pub open spec fn eq_spec(self, other: Binary64) -> bool {
        &&& !self.is_nan_spec()
        &&& !other.is_nan_spec()
        &&& if self.is_inf_spec() || other.is_inf_spec() {
            self.is_inf_spec() && other.is_inf_spec() && self.sign() == other.sign()
        } else {
            self.value() == other.value()
        }
    }

    pub open spec fn le_spec(self, other: Binary64) -> bool {
        self.lt_spec(other) || self.eq_spec(other)
    }

    /// The pattern with the sign bit flipped.
    pub open spec fn neg_spec(self) -> Binary64 {
        if self.sign() {
            Binary64 { bits: (self.bits - 0x8000_0000_0000_0000) as u64 }
        } else {
            Binary64 { bits: (self.bits + 0x8000_0000_0000_0000) as u64 }
        }
    }

    /// The pattern with the sign bit cleared.
    pub open spec fn abs_spec(self) -> Binary64 {
        Binary64 { bits: self.abs_bits() as u64 }
    }

    /// The integer that orders non-NaN patterns as their values are ordered.
    pub open spec fn order_key(self) -> int {
        if self.sign() {
            -self.abs_bits()
        } else {
            self.abs_bits() as int
        }
    }

    pub fn is_nan(self) -> (r: bool)
        ensures
            r == self.is_nan_spec(),
    {
        self.bits % SIGN_MASK > INFINITY_BITS
    }

    pub fn is_infinite(self) -> (r: bool)
        ensures
            r == self.is_inf_spec(),
    {
        self.bits % SIGN_MASK == INFINITY_BITS
    }

    pub fn is_finite(self) -> (r: bool)
        ensures
            r == self.is_finite_spec(),
    {
        self.bits % SIGN_MASK < INFINITY_BITS
    }

    pub fn is_sign_negative(self) -> (r: bool)
        ensures
            r == self.sign(),
    {
        self.bits >= SIGN_MASK
    }

    /// Negation: flips the sign bit, as IEEE 754 `negate` does.
    pub fn neg(self) -> (r: Binary64)
        ensures
            r == self.neg_spec(),
    {
        if self.bits >= SIGN_MASK {
            Binary64 { bits: self.bits - SIGN_MASK }
        } else {
            Binary64 { bits: self.bits + SIGN_MASK }
        }
    }

    /// Absolute value: clears the sign bit.
    pub fn abs(self) -> (r: Binary64)
        ensures
            r == self.abs_spec(),
    {
        Binary64 { bits: self.bits % SIGN_MASK }
    }

    fn order_key_exec(self) -> (k: i64)
        ensures
            k == self.order_key(),
    {
        let a = (self.bits % SIGN_MASK) as i64;
        if self.bits >= SIGN_MASK {
            -a
        } else {
            a
        }
    }

    /// IEEE 754 `<`.
    pub fn lt(self, other: Binary64) -> (r: bool)
        ensures
            r == self.lt_spec(other),
    {
        if self.is_nan() || other.is_nan() {
            false
        } else {
            proof {
                lemma_order_key(self, other);
            }
            self.order_key_exec() < other.order_key_exec()
        }
    }

    /// IEEE 754 `<=`.
    pub fn le(self, other: Binary64) -> (r: bool)
        ensures
            r == self.le_spec(other),
    {
        if self.is_nan() || other.is_nan() {
            false
        } else {
            proof {
                lemma_order_key(self, other);
            }
            self.order_key_exec() <= other.order_key_exec()
        }
    }

    /// IEEE 754 `>`.
    pub fn gt(self, other: Binary64) -> (r: bool)
        ensures
            r == other.lt_spec(self),
    {
        other.lt(self)
    }

    /// IEEE 754 `>=`.
    pub fn ge(self, other: Binary64) -> (r: bool)
        ensures
            r == other.le_spec(self),
    {
        other.le(self)
    }

    /// IEEE 754 `==`.
    pub fn eq(self, other: Binary64) -> (r: bool)
        ensures
            r == self.eq_spec(other),
    {
        if self.is_nan() || other.is_nan() {
            false
        } else {
            proof {
                lemma_order_key(self, other);
            }
            self.order_key_exec() == other.order_key_exec()
        }
    }
}

/// The bounds of a finite magnitude by its exponent field.
pub proof fn lemma_magnitude_bounds(x: Binary64)
    requires
        x.is_finite_spec(),
    ensures
        x.exponent() == 0 ==> x.magnitude() < two52(),
        x.exponent() > 0 ==> two52() * pow2((x.exponent() - 1) as nat) <= x.magnitude(),
        x.magnitude() < two52() * pow2(x.exponent()),
        x.abs_bits() == x.exponent() * two52() + x.fraction(),
        x.exponent() < 2047,
{
    let e = x.exponent();
    let f = x.fraction();
    lemma_pow2_pos(e);
    if e == 0 {
        assert(pow2(0) == 1) by { lemma2_to64(); }
    } else {
        let p = pow2((e - 1) as nat);
        lemma_pow2_pos((e - 1) as nat);
        lemma_pow2_unfold(e);
        lemma_mul_inequality(two52() as int, (two52() + f) as int, p as int);
        lemma_mul_strict_inequality((two52() + f) as int, (2 * two52()) as int, p as int);
        lemma_mul_is_associative(2, two52() as int, p as int);
        lemma_mul_is_commutative(2, two52() as int);
        lemma_mul_is_associative(two52() as int, 2, p as int);
    }
}

/// Magnitudes grow strictly with the non-sign bits.
pub proof fn lemma_magnitude_strictly_monotone(x: Binary64, y: Binary64)
    requires
        x.is_finite_spec(),
        y.is_finite_spec(),
        x.abs_bits() < y.abs_bits(),
    ensures
        x.magnitude() < y.magnitude(),
{
    lemma_magnitude_bounds(x);
    lemma_magnitude_bounds(y);
    let ex = x.exponent();
    let ey = y.exponent();
    if ex == ey {
        if ex > 0 {
            let p = pow2((ex - 1) as nat);
            lemma_pow2_pos((ex - 1) as nat);
            lemma_mul_strict_inequality((two52() + x.fraction()) as int, (two52() + y.fraction()) as int, p as int);
        }
    } else {
        assert(ex < ey);
        // x.magnitude() < 2^52 * 2^ex <= 2^52 * 2^(ey - 1) <= y.magnitude()
        if ex < (ey - 1) as nat {
            lemma_pow2_strictly_increases(ex, (ey - 1) as nat);
        }
        lemma_mul_inequality(pow2(ex) as int, pow2((ey - 1) as nat) as int, two52() as int);
        lemma_mul_is_commutative(pow2(ex) as int, two52() as int);
        lemma_mul_is_commutative(pow2((ey - 1) as nat) as int, two52() as int);
    }
}

/// On non-NaN values the order key orders as the values do.
pub proof fn lemma_order_key(x: Binary64, y: Binary64)
    requires
        !x.is_nan_spec(),
        !y.is_nan_spec(),
    ensures
        x.lt_spec(y) <==> x.order_key() < y.order_key(),
        x.eq_spec(y) <==> x.order_key() == y.order_key(),
{
    if x.is_finite_spec() && y.is_finite_spec() {
        if x.abs_bits() < y.abs_bits() {
            lemma_magnitude_strictly_monotone(x, y);
        } else if y.abs_bits() < x.abs_bits() {
            lemma_magnitude_strictly_monotone(y, x);
        }
        if x.abs_bits() == 0 || y.abs_bits() == 0 {
            lemma_magnitude_zero(x);
            lemma_magnitude_zero(y);
        }
        if x.abs_bits() > 0 {
            lemma_magnitude_zero(x);
        }
        if y.abs_bits() > 0 {
            lemma_magnitude_zero(y);
        }
    }
}

/// A finite magnitude is zero exactly when every non-sign bit is.
pub proof fn lemma_magnitude_zero(x: Binary64)
    requires
        x.is_finite_spec(),
    ensures
        x.magnitude() == 0 <==> x.abs_bits() == 0,
{
    lemma_magnitude_bounds(x);
    if x.exponent() > 0 {
        lemma_pow2_pos((x.exponent() - 1) as nat);
        lemma_mul_strictly_positive(two52() as int, pow2((x.exponent() - 1) as nat) as int);
    }
}

/// Negation flips the sign and keeps every other bit.
pub proof fn lemma_neg_parts(x: Binary64)
    ensures
        x.neg_spec().sign() == !x.sign(),
        x.neg_spec().abs_bits() == x.abs_bits(),
        x.neg_spec().neg_spec() == x,
        x.neg_spec().is_nan_spec() == x.is_nan_spec(),
        x.neg_spec().is_inf_spec() == x.is_inf_spec(),
        x.neg_spec().is_finite_spec() == x.is_finite_spec(),
        x.is_finite_spec() ==> x.neg_spec().value() == -x.value(),
{
}

/// `<` is irreflexive.
pub proof fn lemma_lt_irreflexive(x: Binary64)
    ensures
        !x.lt_spec(x),
{
}

/// `<` is transitive.
pub proof fn lemma_lt_transitive(x: Binary64, y: Binary64, z: Binary64)
    requires
        x.lt_spec(y),
        y.lt_spec(z),
    ensures
        x.lt_spec(z),
{
    lemma_order_key(x, y);
    lemma_order_key(y, z);
    lemma_order_key(x, z);
}

/// Two values that are not NaN are ordered one way, the other, or equal.
pub proof fn lemma_trichotomy(x: Binary64, y: Binary64)
    requires
        !x.is_nan_spec(),
        !y.is_nan_spec(),
    ensures
        x.lt_spec(y) || x.eq_spec(y) || y.lt_spec(x),
        !(x.lt_spec(y) && y.lt_spec(x)),
        !(x.lt_spec(y) && x.eq_spec(y)),
{
    lemma_order_key(x, y);
    lemma_order_key(y, x);
}

/// A NaN is neither below, above, nor equal to anything, itself included.
pub proof fn lemma_nan_unordered(x: Binary64, y: Binary64)
    requires
        x.is_nan_spec(),
    ensures
        !x.lt_spec(y),
        !y.lt_spec(x),
        !x.eq_spec(y),
        !y.eq_spec(x),
{
}

/// Negation reverses the order.
pub proof fn lemma_neg_reverses_order(x: Binary64, y: Binary64)
    ensures
        x.lt_spec(y) == y.neg_spec().lt_spec(x.neg_spec()),
{
    lemma_neg_parts(x);
    lemma_neg_parts(y);
}

} // verus!
