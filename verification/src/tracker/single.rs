//! Single-precision numbers by their bit patterns, and their ordering.

use vstd::prelude::*;

verus! {

/// The sign bit of a single-precision number.
pub const SIGN_BIT: u32 = 0x8000_0000;

/// The bit pattern of positive infinity; every magnitude above it is a NaN.
pub const INFINITY: u32 = 0x7f80_0000;

/// A single-precision IEEE 754 number, held by its bit pattern.
///
/// The library never computes with such a number. It compares two of them the
/// way IEEE 754 does: a NaN compares false with everything, the two zeros are
/// equal, and otherwise the order is that of sign and magnitude.
#[derive(Clone, Copy, Debug)]
pub struct Single {
    pub bits: u32,
}

impl Single {
    /// The bits without the sign.
    pub open spec fn magnitude(self) -> int {
        if self.bits >= SIGN_BIT {
            self.bits - SIGN_BIT
        } else {
            self.bits as int
        }
    }

    /// Whether the sign bit is set.
    pub open spec fn sign(self) -> bool {
        self.bits >= SIGN_BIT
    }

    pub open spec fn spec_is_nan(self) -> bool {
        self.magnitude() > INFINITY
    }

    pub open spec fn spec_is_finite(self) -> bool {
        self.magnitude() < INFINITY
    }

    /// An integer that orders the numbers that are not NaN as their values
    /// are ordered: the magnitude, negated under a sign bit. Both zeros rank 0.
    pub open spec fn spec_rank(self) -> int {
        if self.sign() {
            -self.magnitude()
        } else {
            self.magnitude()
        }
    }

    /// `self <= other` as IEEE 754 has it.
    pub open spec fn spec_le(self, other: Single) -> bool {
        !self.spec_is_nan() && !other.spec_is_nan() && self.spec_rank() <= other.spec_rank()
    }

    /// `self < other` as IEEE 754 has it.
    pub open spec fn spec_lt(self, other: Single) -> bool {
        !self.spec_is_nan() && !other.spec_is_nan() && self.spec_rank() < other.spec_rank()
    }

    /// `self >= other` as IEEE 754 has it.
    pub open spec fn spec_ge(self, other: Single) -> bool {
        other.spec_le(self)
    }

    /// `self > other` as IEEE 754 has it.
    pub open spec fn spec_gt(self, other: Single) -> bool {
        other.spec_lt(self)
    }

    /// The number with the given bit pattern.
    pub fn from_bits(bits: u32) -> (x: Single)
        ensures
            x.bits == bits,
    {
        Single { bits }
    }

    /// The bit pattern.
    pub fn to_bits(self) -> (bits: u32)
        ensures
            bits == self.bits,
    {
        self.bits
    }

    #[verifier::when_used_as_spec(spec_is_nan)]
    pub fn is_nan(self) -> (r: bool)
        ensures
            r == self.spec_is_nan(),
    {
        let magnitude: u32 = if self.bits >= SIGN_BIT {
            self.bits - SIGN_BIT
        } else {
            self.bits
        };
        magnitude > INFINITY
    }

    /// Neither infinite nor NaN.
    #[verifier::when_used_as_spec(spec_is_finite)]
    pub fn is_finite(self) -> (r: bool)
        ensures
            r == self.spec_is_finite(),
    {
        let magnitude: u32 = if self.bits >= SIGN_BIT {
            self.bits - SIGN_BIT
        } else {
            self.bits
        };
        magnitude < INFINITY
    }

    /// The rank as a machine integer.
    pub fn rank(self) -> (r: i64)
        ensures
            r == self.spec_rank(),
    {
        if self.bits >= SIGN_BIT {
            let magnitude: u32 = self.bits - SIGN_BIT;
            -(magnitude as i64)
        } else {
            self.bits as i64
        }
    }

    #[verifier::when_used_as_spec(spec_le)]
    pub fn le(self, other: Single) -> (r: bool)
        ensures
            r == self.spec_le(other),
    {
        !self.is_nan() && !other.is_nan() && self.rank() <= other.rank()
    }

    #[verifier::when_used_as_spec(spec_lt)]
    pub fn lt(self, other: Single) -> (r: bool)
        ensures
            r == self.spec_lt(other),
    {
        !self.is_nan() && !other.is_nan() && self.rank() < other.rank()
    }

    #[verifier::when_used_as_spec(spec_ge)]
    pub fn ge(self, other: Single) -> (r: bool)
        ensures
            r == self.spec_ge(other),
    {
        other.le(self)
    }

    #[verifier::when_used_as_spec(spec_gt)]
    pub fn gt(self, other: Single) -> (r: bool)
        ensures
            r == self.spec_gt(other),
    {
        other.lt(self)
    }
}

} // verus!
