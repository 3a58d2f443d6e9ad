//! Binary floating point held in integers.
//!
//! A [`Num`] is a double-precision number kept as its bit pattern. Arithmetic
//! is done on integers and is proved to round correctly, so the rest of the
//! crate can state exactly what it shows for a rate or a percentage.

pub mod arith;
pub mod decimal;
pub mod read;
pub mod round;
pub mod value;

use vstd::prelude::*;

verus! {

/// Bit pattern of 1.0 units in the last place at the bottom of the second
/// binade: 2^52.
pub const BINADE: u64 = 0x10_0000_0000_0000;

/// Magnitude of infinity; a larger magnitude is not a number.
pub const INFINITE: u64 = 0x7ff0_0000_0000_0000;

/// The sign bit.
pub const SIGN: u64 = 0x8000_0000_0000_0000;

/// The quiet not-a-number that arithmetic returns.
pub const NAN_BITS: u64 = 0x7ff8_0000_0000_0000;

/// A double-precision number, held as its bit pattern.
#[derive(Clone, Copy, Debug, PartialEq, Eq, Structural)]
pub struct Num {
    pub bits: u64,
}

/// The significand of a magnitude.
pub open spec fn significand(mag: nat) -> nat {
    if mag < BINADE {
        mag
    } else {
        (mag % (BINADE as nat)) + BINADE as nat
    }
}

/// The power of two that scales the significand of a magnitude, counted from
/// the smallest positive number.
pub open spec fn scale(mag: nat) -> nat {
    if mag < BINADE {
        0
    } else {
        (mag / (BINADE as nat) - 1) as nat
    }
}

/// The value of a finite magnitude in multiples of the smallest positive
/// number, 2^-1074.
pub open spec fn units_of(mag: nat) -> nat {
    significand(mag) * vstd::arithmetic::power2::pow2(scale(mag))
}

impl Num {
    /// Whether the sign bit is set.
    pub open spec fn negative(self) -> bool {
        self.bits >= SIGN
    }

    /// The bit pattern without its sign.
    pub open spec fn mag(self) -> nat {
        if self.bits >= SIGN {
            (self.bits - SIGN) as nat
        } else {
            self.bits as nat
        }
    }

    pub open spec fn nan(self) -> bool {
        self.mag() > INFINITE
    }

    pub open spec fn infinite(self) -> bool {
        self.mag() == INFINITE
    }

    pub open spec fn finite(self) -> bool {
        self.mag() < INFINITE
    }

    /// The absolute value of a finite number in multiples of 2^-1074.
    pub open spec fn units(self) -> nat {
        units_of(self.mag())
    }

    /// The value of a finite number in multiples of 2^-1074.
    pub open spec fn signed_units(self) -> int {
        if self.negative() {
            -(self.units() as int)
        } else {
            self.units() as int
        }
    }

    /// A rank that orders numbers by value: both zeros share a rank.
    pub open spec fn rank(self) -> int {
        if self.negative() {
            -(self.mag() as int)
        } else {
            self.mag() as int
        }
    }

    /// `<` on numbers; false when either is not a number.
    pub open spec fn less(self, other: Num) -> bool {
        !self.nan() && !other.nan() && self.rank() < other.rank()
    }

    /// `==` on numbers; false when either is not a number.
    pub open spec fn same(self, other: Num) -> bool {
        !self.nan() && !other.nan() && self.rank() == other.rank()
    }

    /// `>=` on numbers; false when either is not a number.
    pub open spec fn at_least(self, other: Num) -> bool {
        !self.nan() && !other.nan() && self.rank() >= other.rank()
    }

    /// The number with a given sign and magnitude.
    pub open spec fn signed(neg: bool, mag: nat) -> Num {
        Num {
            bits: (if neg {
                mag + SIGN
            } else {
                mag as int
            }) as u64,
        }
    }

    pub open spec fn spec_nan() -> Num {
        Num { bits: NAN_BITS }
    }

    pub open spec fn spec_zero() -> Num {
        Num { bits: 0 }
    }
}

impl Num {
    /// Positive zero.
    pub fn zero() -> (r: Num)
        ensures
            r == Num::spec_zero(),
    {
        Num { bits: 0 }
    }

    /// Whether the sign bit is set.
    pub fn is_negative(self) -> (r: bool)
        ensures
            r == self.negative(),
    {
        self.bits >= SIGN
    }

    /// The bit pattern without its sign.
    pub fn magnitude(self) -> (r: u64)
        ensures
            r == self.mag(),
            r < SIGN,
    {
        if self.bits >= SIGN {
            self.bits - SIGN
        } else {
            self.bits
        }
    }

    /// The number with a given sign and magnitude.
    pub fn with_sign(neg: bool, mag: u64) -> (r: Num)
        requires
            mag < SIGN,
        ensures
            r == Num::signed(neg, mag as nat),
            r.mag() == mag,
            r.negative() == neg,
    {
        if neg {
            Num { bits: mag + SIGN }
        } else {
            Num { bits: mag }
        }
    }

    /// Whether this is not a number.
    pub fn is_nan(self) -> (r: bool)
        ensures
            r == self.nan(),
    {
        self.magnitude() > INFINITE
    }

    /// A rank that orders numbers by value.
    pub fn order(self) -> (r: i64)
        ensures
            r == self.rank(),
    {
        let m: u64 = self.magnitude();
        if self.bits >= SIGN {
            -(m as i64)
        } else {
            m as i64
        }
    }

    /// Whether this is less than `other`.
    pub fn lt(self, other: Num) -> (r: bool)
        ensures
            r == self.less(other),
    {
        !self.is_nan() && !other.is_nan() && self.order() < other.order()
    }

    /// Whether this is at least `other`.
    pub fn ge(self, other: Num) -> (r: bool)
        ensures
            r == self.at_least(other),
    {
        !self.is_nan() && !other.is_nan() && self.order() >= other.order()
    }

    /// Whether this equals `other` in value.
    pub fn equals(self, other: Num) -> (r: bool)
        ensures
            r == self.same(other),
    {
        !self.is_nan() && !other.is_nan() && self.order() == other.order()
    }

    /// The significand and the scale of a magnitude.
    pub(crate) fn parts(mag: u64) -> (r: (u64, u32))
        requires
            mag < INFINITE,
        ensures
            r.0 == significand(mag as nat),
            r.1 == scale(mag as nat),
            r.0 < 0x20_0000_0000_0000,
            r.1 <= 2045,
            r.1 > 0 ==> r.0 >= BINADE,
    {
        if mag < BINADE {
            (mag, 0)
        } else {
            ((mag % BINADE) + BINADE, ((mag / BINADE) - 1) as u32)
        }
    }
}

} // verus!
