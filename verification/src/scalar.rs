//! Single-precision numbers held by their IEEE 754 bit patterns.
//!
//! The renderer computes on reals elsewhere; this module only *orders* them.
//! A pattern is read as sign and magnitude: the magnitude field of two
//! numbers of equal sign compares exactly as the numbers do, so the signed
//! magnitude is a faithful position on the number line.
use vstd::prelude::*;
use vstd::arithmetic::mul::{lemma_mul_inequality, lemma_mul_strict_inequality};
use vstd::arithmetic::power2::{
    lemma_pow2_pos,
    lemma_pow2_strictly_increases,
    lemma_pow2_unfold,
    pow2,
};

verus! {

/// The sign bit of a single-precision pattern.
pub const SIGN_BIT: u32 = 0x8000_0000;

/// Exponent and fraction: everything but the sign.
pub const MAGNITUDE_MASK: u32 = 0x7fff_ffff;

/// The magnitude of infinity; any larger magnitude is a NaN.
pub const INFINITY_BITS: u32 = 0x7f80_0000;

/// A single-precision number, or a NaN, by its bit pattern.
#[derive(Clone, Copy, Debug, PartialEq, Eq, Structural)]
pub struct Scalar {
    pub bits: u32,
}

impl View for Scalar {
    type V = Option<int>;

    /// The number's position on the number line, or `None` for a NaN.
    open spec fn view(&self) -> Option<int> {
        if self.nan() {
            None
        } else {
            Some(self.rank())
        }
    }
}

impl Scalar {
    /// Exponent and fraction fields read as one unsigned number.
    pub open spec fn magnitude(self) -> int {
        (self.bits & MAGNITUDE_MASK) as int
    }

    /// Whether the sign bit is set.
    pub open spec fn sign_set(self) -> bool {
        self.bits & SIGN_BIT != 0
    }

    /// Whether the pattern is a NaN.
    pub open spec fn nan(self) -> bool {
        self.magnitude() > INFINITY_BITS
    }

    /// Whether the pattern is a number other than an infinity.
    pub open spec fn finite(self) -> bool {
        self.magnitude() < INFINITY_BITS
    }

    /// The exponent field: 8 bits.
    pub open spec fn exponent(self) -> int {
        ((self.bits >> 23) & 0xff) as int
    }

    /// The fraction field: 23 bits.
    pub open spec fn fraction(self) -> int {
        (self.bits & 0x7f_ffff) as int
    }

    /// The absolute value of a finite number, counted in units of `2^-149`,
    /// the smallest positive single-precision number. With a zero exponent
    /// field the number is `fraction * 2^-149`; otherwise it is
    /// `(1 + fraction / 2^23) * 2^(exponent - 127)`.
    pub open spec fn units(self) -> int {
        if self.exponent() == 0 {
            self.fraction()
        } else {
            (0x80_0000 + self.fraction()) * pow2((self.exponent() - 1) as nat)
        }
    }

    /// The finite number that the pattern stands for, in units of `2^-149`.
    pub open spec fn value(self) -> int {
        if self.sign_set() {
            -self.units()
        } else {
            self.units()
        }
    }

    /// Position on the number line: the magnitude, negated under a set sign.
    /// Both zeros have rank 0 and the infinities are the extremes.
    pub open spec fn rank(self) -> int {
        if self.sign_set() {
            -self.magnitude()
        } else {
            self.magnitude()
        }
    }

    /// `self < other` as the numbers compare: false whenever either is a NaN.
    pub open spec fn below(self, other: Scalar) -> bool {
        match (self@, other@) {
            (Some(a), Some(b)) => a < b,
            _ => false,
        }
    }

    /// `self == 0` as the numbers compare: true for both zeros, false for a
    /// NaN.
    pub open spec fn vanishes(self) -> bool {
        !self.nan() && self.rank() == 0
    }

    /// `self > 0` as the numbers compare: false for both zeros and for a NaN.
    pub open spec fn positive(self) -> bool {
        !self.nan() && self.rank() > 0
    }

    /// `self < 0` as the numbers compare: false for both zeros and for a NaN.
    pub open spec fn negative(self) -> bool {
        !self.nan() && self.rank() < 0
    }

    /// `lo < self < hi`, both strict.
    pub open spec fn inside(self, lo: Scalar, hi: Scalar) -> bool {
        lo.below(self) && self.below(hi)
    }

    /// Wraps a bit pattern.
    pub fn from_bits(bits: u32) -> (s: Scalar)
        ensures
            s.bits == bits,
    {
        Scalar { bits }
    }

    /// The bit pattern.
    pub fn to_bits(self) -> (bits: u32)
        ensures
            bits == self.bits,
    {
        self.bits
    }

    /// Positive zero.
    pub fn zero() -> (s: Scalar)
        ensures
            s.bits == 0,
            !s.nan(),
            s.rank() == 0,
    {
        assert(0u32 & 0x7fff_ffff == 0) by (bit_vector);
        assert(0u32 & 0x8000_0000 == 0) by (bit_vector);
        Scalar { bits: 0 }
    }

    /// Whether the pattern is a NaN.
    pub fn is_nan(self) -> (r: bool)
        ensures
            r == self.nan(),
    {
        (self.bits & MAGNITUDE_MASK) > INFINITY_BITS
    }

    /// Whether the pattern is a number other than an infinity.
    pub fn is_finite(self) -> (r: bool)
        ensures
            r == self.finite(),
    {
        (self.bits & MAGNITUDE_MASK) < INFINITY_BITS
    }

    /// The rank as a machine integer.
    pub fn position(self) -> (r: i64)
        ensures
            r == self.rank(),
    {
        let magnitude: u32 = self.bits & MAGNITUDE_MASK;
        if self.bits & SIGN_BIT != 0 {
            -(magnitude as i64)
        } else {
            magnitude as i64
        }
    }

    /// `self < other`; false whenever either is a NaN.
    pub fn lt(self, other: Scalar) -> (r: bool)
        ensures
            r == self.below(other),
    {
        !self.is_nan() && !other.is_nan() && self.position() < other.position()
    }

    /// `self == 0`: whether the number is zero, of either sign.
    pub fn is_zero(self) -> (r: bool)
        ensures
            r == self.vanishes(),
            r == (!self.nan() && self.rank() == 0),
    {
        !self.is_nan() && self.position() == 0
    }

    /// `self > 0`; false for both zeros and for a NaN.
    pub fn is_positive(self) -> (r: bool)
        ensures
            r == self.positive(),
    {
        !self.is_nan() && self.position() > 0
    }

    /// `self < 0`; false for both zeros and for a NaN.
    pub fn is_negative(self) -> (r: bool)
        ensures
            r == self.negative(),
    {
        !self.is_nan() && self.position() < 0
    }

    /// The absolute value: the same magnitude under a cleared sign.
    pub fn abs(self) -> (r: Scalar)
        ensures
            r.bits == self.bits & MAGNITUDE_MASK,
            !r.sign_set(),
            r.magnitude() == self.magnitude(),
            r.nan() == self.nan(),
            r.rank() == self.magnitude(),
    {
        let bits = self.bits;
        assert((bits & 0x7fff_ffff) & 0x7fff_ffff == bits & 0x7fff_ffff) by (bit_vector);
        assert((bits & 0x7fff_ffff) & 0x8000_0000 == 0) by (bit_vector);
        Scalar { bits: bits & MAGNITUDE_MASK }
    }

    /// `lo < self < hi`; false whenever any of the three is a NaN.
    pub fn within(self, lo: Scalar, hi: Scalar) -> (r: bool)
        ensures
            r == self.inside(lo, hi),
    {
        lo.lt(self) && self.lt(hi)
    }
}

/// The order is strict: nothing is below itself, and of two numbers at
/// most one is below the other.
pub proof fn lemma_below_strict(a: Scalar, b: Scalar)
    ensures
        !a.below(a),
        a.below(b) ==> !b.below(a),
{
}

/// The order is transitive.
pub proof fn lemma_below_transitive(a: Scalar, b: Scalar, c: Scalar)
    requires
        a.below(b),
        b.below(c),
    ensures
        a.below(c),
{
}

/// Two numbers are comparable: one is below the other or they have the same
/// rank, as the two zeros do. A NaN is comparable with nothing.
pub proof fn lemma_below_total(a: Scalar, b: Scalar)
    ensures
        !a.nan() && !b.nan() ==> a.below(b) || b.below(a) || a.rank() == b.rank(),
        a.nan() || b.nan() ==> !a.below(b) && !b.below(a),
{
}

/// The rank stays within the magnitudes that 31 bits can hold, a number is
/// positive or negative by its sign bit, and the patterns of one rank are
/// one pattern or the two zeros.
pub proof fn lemma_rank_bounds(a: Scalar, b: Scalar)
    ensures
        -0x7fff_ffff <= a.rank() <= 0x7fff_ffff,
        a.positive() ==> !a.sign_set(),
        a.negative() ==> a.sign_set(),
        a.rank() == b.rank() ==> a.bits == b.bits || a.magnitude() == 0,
{
    let x = a.bits;
    let y = b.bits;
    assert(x & 0x7fff_ffff <= 0x7fff_ffff) by (bit_vector);
    assert((x & 0x7fff_ffff) == (y & 0x7fff_ffff) && (x & 0x8000_0000) == (y & 0x8000_0000) ==> x
        == y) by (bit_vector);
    assert((x & 0x8000_0000) == 0 || (x & 0x8000_0000) == 0x8000_0000) by (bit_vector);
    assert((y & 0x8000_0000) == 0 || (y & 0x8000_0000) == 0x8000_0000) by (bit_vector);
}

/// The magnitude is the exponent field followed by the fraction field.
pub proof fn lemma_fields(a: Scalar)
    ensures
        a.magnitude() == a.exponent() * 0x80_0000 + a.fraction(),
        0 <= a.exponent() <= 0xff,
        0 <= a.fraction() < 0x80_0000,
        a.finite() <==> a.exponent() < 0xff,
{
    let x = a.bits;
    assert((x & 0x7fff_ffff) == ((x >> 23) & 0xff) * 0x80_0000 + (x & 0x7f_ffff)) by (bit_vector);
    assert((x >> 23) & 0xff <= 0xff) by (bit_vector);
    assert(x & 0x7f_ffff < 0x80_0000) by (bit_vector);
}

/// Of two patterns, the one with the greater magnitude field counts the
/// more units: among the finite numbers, the greater absolute value.
pub proof fn lemma_units_increase(a: Scalar, b: Scalar)
    requires
        a.magnitude() < b.magnitude(),
    ensures
        0 <= a.units() < b.units(),
{
    lemma_fields(a);
    lemma_fields(b);
    let ea = a.exponent();
    let eb = b.exponent();
    let fa = a.fraction();
    let fb = b.fraction();
    if ea == eb {
        if ea != 0 {
            let p = pow2((ea - 1) as nat) as int;
            lemma_pow2_pos((ea - 1) as nat);
            lemma_mul_strict_inequality(0x80_0000 + fa, 0x80_0000 + fb, p);
            lemma_mul_inequality(0, 0x80_0000 + fa, p);
        }
    } else {
        assert(ea < eb);
        let q = pow2((eb - 1) as nat) as int;
        lemma_pow2_pos((eb - 1) as nat);
        lemma_mul_inequality(0x80_0000, 0x80_0000 + fb, q);
        assert(0x80_0000 * q <= b.units());
        if ea == 0 {
            assert(a.units() == fa);
        } else {
            let p = pow2((ea - 1) as nat) as int;
            lemma_pow2_pos((ea - 1) as nat);
            lemma_mul_strict_inequality(0x80_0000 + fa, 0x100_0000, p);
            lemma_mul_inequality(0, 0x80_0000 + fa, p);
            lemma_pow2_unfold(ea as nat);
            assert(0x100_0000 * p == 0x80_0000 * pow2(ea as nat));
            if ea < eb - 1 {
                lemma_pow2_strictly_increases(ea as nat, (eb - 1) as nat);
            }
            assert(pow2(ea as nat) <= q);
        }
    }
}

/// The rank orders the finite numbers as their values do: one number has
/// the smaller rank exactly where it has the smaller value, and two
/// numbers share a rank exactly where they share a value.
pub proof fn lemma_rank_orders_values(a: Scalar, b: Scalar)
    requires
        a.finite(),
        b.finite(),
    ensures
        a.rank() < b.rank() <==> a.value() < b.value(),
        a.rank() == b.rank() <==> a.value() == b.value(),
{
    lemma_fields(a);
    lemma_fields(b);
    let zero = Scalar { bits: 0 };
    assert(0u32 & 0x7fff_ffff == 0) by (bit_vector);
    assert((0u32 >> 23) & 0xff == 0) by (bit_vector);
    assert(0u32 & 0x7f_ffff == 0) by (bit_vector);
    assert(zero.units() == 0);
    if a.magnitude() > 0 {
        lemma_units_increase(zero, a);
    } else {
        assert(a.exponent() == 0 && a.fraction() == 0);
    }
    if b.magnitude() > 0 {
        lemma_units_increase(zero, b);
    } else {
        assert(b.exponent() == 0 && b.fraction() == 0);
    }
    if a.magnitude() < b.magnitude() {
        lemma_units_increase(a, b);
    } else if b.magnitude() < a.magnitude() {
        lemma_units_increase(b, a);
    } else {
        assert(a.exponent() == b.exponent() && a.fraction() == b.fraction());
    }
}

/// The infinities lie beyond every finite number.
pub proof fn lemma_infinities_are_extreme(a: Scalar)
    requires
        a.finite(),
    ensures
        (Scalar { bits: INFINITY_BITS | SIGN_BIT }).below(a),
        a.below(Scalar { bits: INFINITY_BITS }),
{
    assert(0x7f80_0000u32 & 0x7fff_ffff == 0x7f80_0000) by (bit_vector);
    assert(0x7f80_0000u32 & 0x8000_0000 == 0) by (bit_vector);
    assert((0x7f80_0000u32 | 0x8000_0000) & 0x7fff_ffff == 0x7f80_0000) by (bit_vector);
    assert((0x7f80_0000u32 | 0x8000_0000) & 0x8000_0000 != 0) by (bit_vector);
}

} // verus!
