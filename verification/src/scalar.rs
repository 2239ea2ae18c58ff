//! Single-precision numbers as bit patterns, with arithmetic that is the same on every machine.
//!
//! The contract of each operation is the one of binary floating point: the exact result is
//! rounded to the nearest number, ties to even. Where an operation has no numerical result it
//! gives the one quiet NaN [`QUIET_NAN`].

use crate::rounding::{nearest, units, Exact, INFINITE};
use vstd::arithmetic::power2::pow2;
use vstd::prelude::*;

verus! {

/// A single-precision number, given by its bit pattern.
#[derive(Clone, Copy, Debug, PartialEq, Eq, Structural, Hash)]
pub struct Scalar {
    pub bits: u32,
}

/// The weight of the sign bit.
pub const SIGN: u32 = 0x8000_0000;

/// The bit pattern of the quiet NaN that operations give.
pub const QUIET_NAN: u32 = 0x7fc0_0000;

/// The bit pattern of `1.0`.
pub const ONE_BITS: u32 = 0x3f80_0000;

/// The bit pattern of `-1.0`.
pub const MINUS_ONE_BITS: u32 = 0xbf80_0000;

/// The bit pattern of `0.5`.
pub const HALF_BITS: u32 = 0x3f00_0000;

impl Scalar {
    /// The number is below zero, or a zero or NaN with the sign bit set.
    pub open spec fn negative(self) -> bool {
        self.bits >= SIGN
    }

    /// The bit pattern without the sign bit.
    pub open spec fn magnitude(self) -> int {
        if self.bits >= SIGN {
            self.bits - SIGN
        } else {
            self.bits as int
        }
    }

    pub open spec fn nan(self) -> bool {
        self.magnitude() > INFINITE
    }

    pub open spec fn infinite(self) -> bool {
        self.magnitude() == INFINITE
    }

    pub open spec fn finite(self) -> bool {
        self.magnitude() < INFINITE
    }

    pub open spec fn zero(self) -> bool {
        self.magnitude() == 0
    }

    /// The value of a finite number in units of `2^-149`.
    pub open spec fn value(self) -> int {
        if self.negative() {
            -units(self.magnitude())
        } else {
            units(self.magnitude())
        }
    }

    /// The place of a number in the order of all numbers; both zeros have the same one.
    pub open spec fn place(self) -> int {
        if self.negative() {
            -self.magnitude()
        } else {
            self.magnitude()
        }
    }
}

/// The number with the given sign and magnitude.
pub open spec fn with_sign(negative: bool, magnitude: u32) -> Scalar {
    if negative {
        Scalar { bits: (magnitude + SIGN) as u32 }
    } else {
        Scalar { bits: magnitude }
    }
}

/// The number with the sign bit flipped.
pub open spec fn negated(a: Scalar) -> Scalar {
    with_sign(!a.negative(), a.magnitude() as u32)
}

/// The number with the sign bit cleared.
pub open spec fn absolute(a: Scalar) -> Scalar {
    with_sign(false, a.magnitude() as u32)
}

/// `a < b`; false when either is NaN.
pub open spec fn below(a: Scalar, b: Scalar) -> bool {
    !a.nan() && !b.nan() && a.place() < b.place()
}

/// `a <= b`; false when either is NaN.
pub open spec fn at_most(a: Scalar, b: Scalar) -> bool {
    !a.nan() && !b.nan() && a.place() <= b.place()
}

/// Numerical equality: NaN equals nothing, the two zeros are equal.
pub open spec fn equals(a: Scalar, b: Scalar) -> bool {
    !a.nan() && !b.nan() && a.place() == b.place()
}

/// The greater of two numbers. A NaN gives way to the other operand, and of the two zeros the
/// positive one is the greater.
pub open spec fn maximum(a: Scalar, b: Scalar) -> Scalar {
    if a.nan() {
        b
    } else if b.nan() {
        a
    } else if a.place() < b.place() || (a.place() == b.place() && a.negative()) {
        b
    } else {
        a
    }
}

/// The number kept within bounds; a NaN stays as it is.
pub open spec fn clamped(a: Scalar, low: Scalar, high: Scalar) -> Scalar {
    if below(a, low) {
        low
    } else if below(high, a) {
        high
    } else {
        a
    }
}

/// `a + b`.
pub open spec fn sum(a: Scalar, b: Scalar) -> Scalar {
    if a.nan() || b.nan() || (a.infinite() && b.infinite() && a.negative() != b.negative()) {
        Scalar { bits: QUIET_NAN }
    } else if a.infinite() {
        a
    } else if b.infinite() {
        b
    } else {
        let total = a.value() + b.value();
        if total == 0 {
            with_sign(a.negative() && b.negative(), 0)
        } else if total < 0 {
            with_sign(true, nearest(Exact::Ratio { num: -total, den: 1 }))
        } else {
            with_sign(false, nearest(Exact::Ratio { num: total, den: 1 }))
        }
    }
}

/// `a - b`.
pub open spec fn difference(a: Scalar, b: Scalar) -> Scalar {
    sum(a, negated(b))
}

/// `a * b`.
pub open spec fn product(a: Scalar, b: Scalar) -> Scalar {
    if a.nan() || b.nan() || (a.infinite() && b.zero()) || (a.zero() && b.infinite()) {
        Scalar { bits: QUIET_NAN }
    } else if a.infinite() || b.infinite() {
        with_sign(a.negative() != b.negative(), INFINITE)
    } else {
        with_sign(
            a.negative() != b.negative(),
            nearest(
                Exact::Ratio {
                    num: units(a.magnitude()) * units(b.magnitude()),
                    den: pow2(149) as int,
                },
            ),
        )
    }
}

/// `a / b`.
pub open spec fn quotient(a: Scalar, b: Scalar) -> Scalar {
    if a.nan() || b.nan() || (a.infinite() && b.infinite()) || (a.zero() && b.zero()) {
        Scalar { bits: QUIET_NAN }
    } else if a.infinite() || b.zero() {
        with_sign(a.negative() != b.negative(), INFINITE)
    } else if b.infinite() {
        with_sign(a.negative() != b.negative(), 0)
    } else {
        with_sign(
            a.negative() != b.negative(),
            nearest(
                Exact::Ratio {
                    num: units(a.magnitude()) * pow2(149),
                    den: units(b.magnitude()),
                },
            ),
        )
    }
}

/// The square root of `a`.
pub open spec fn root(a: Scalar) -> Scalar {
    if a.zero() {
        a
    } else if a.nan() || a.negative() {
        Scalar { bits: QUIET_NAN }
    } else if a.infinite() {
        a
    } else {
        with_sign(false, nearest(Exact::Root { square: units(a.magnitude()) * pow2(149) }))
    }
}

/// The number nearest to an integer.
pub open spec fn of_integer(n: int) -> Scalar {
    with_sign(false, nearest(Exact::Ratio { num: n * pow2(149), den: 1 }))
}

/// The number nearest to an integer that may be below zero.
pub open spec fn of_signed(n: int) -> Scalar {
    if n < 0 {
        negated(of_integer(-n))
    } else {
        of_integer(n)
    }
}

impl Scalar {
    pub fn from_bits(bits: u32) -> (r: Scalar)
        ensures
            r.bits == bits,
    {
        Scalar { bits }
    }

    pub fn to_bits(self) -> (r: u32)
        ensures
            r == self.bits,
    {
        self.bits
    }

    pub(crate) fn magnitude_bits(self) -> (r: u32)
        ensures
            r == self.magnitude(),
            r < SIGN,
    {
        if self.bits >= SIGN {
            self.bits - SIGN
        } else {
            self.bits
        }
    }

    pub(crate) fn compose(negative: bool, magnitude: u32) -> (r: Scalar)
        requires
            magnitude < SIGN,
        ensures
            r == with_sign(negative, magnitude),
            r.negative() == negative,
            r.magnitude() == magnitude,
    {
        if negative {
            Scalar { bits: magnitude + SIGN }
        } else {
            Scalar { bits: magnitude }
        }
    }

    pub fn is_nan(self) -> (r: bool)
        ensures
            r == self.nan(),
    {
        self.magnitude_bits() > INFINITE
    }

    pub fn is_finite(self) -> (r: bool)
        ensures
            r == self.finite(),
    {
        self.magnitude_bits() < INFINITE
    }

    pub fn negate(self) -> (r: Scalar)
        ensures
            r == negated(self),
    {
        Self::compose(self.bits < SIGN, self.magnitude_bits())
    }

    pub fn abs(self) -> (r: Scalar)
        ensures
            r == absolute(self),
    {
        Self::compose(false, self.magnitude_bits())
    }

    fn place_number(self) -> (r: i64)
        ensures
            r == self.place(),
            -0x8000_0000 < r < 0x8000_0000,
    {
        let m: i64 = self.magnitude_bits() as i64;
        if self.bits >= SIGN {
            -m
        } else {
            m
        }
    }

    pub fn is_below(self, rhs: Scalar) -> (r: bool)
        ensures
            r == below(self, rhs),
    {
        !self.is_nan() && !rhs.is_nan() && self.place_number() < rhs.place_number()
    }

    pub fn is_at_most(self, rhs: Scalar) -> (r: bool)
        ensures
            r == at_most(self, rhs),
    {
        !self.is_nan() && !rhs.is_nan() && self.place_number() <= rhs.place_number()
    }

    pub fn equals_value(self, rhs: Scalar) -> (r: bool)
        ensures
            r == equals(self, rhs),
    {
        !self.is_nan() && !rhs.is_nan() && self.place_number() == rhs.place_number()
    }

    pub fn max(self, rhs: Scalar) -> (r: Scalar)
        ensures
            r == maximum(self, rhs),
    {
        if self.is_nan() {
            return rhs;
        }
        if rhs.is_nan() {
            return self;
        }
        let a = self.place_number();
        let b = rhs.place_number();
        if a < b || (a == b && self.bits >= SIGN) {
            rhs
        } else {
            self
        }
    }

    pub fn clamp(self, low: Scalar, high: Scalar) -> (r: Scalar)
        ensures
            r == clamped(self, low, high),
    {
        if self.is_below(low) {
            low
        } else if high.is_below(self) {
            high
        } else {
            self
        }
    }
}

} // verus!
