//! Numbers with a fraction, held as the bits of an IEEE 754 double.
use vstd::prelude::*;

verus! {

/// The bits of zero with a sign.
pub const NEGATIVE_ZERO: u64 = 0x8000_0000_0000_0000;

/// The bits of one.
pub const ONE: u64 = 0x3ff0_0000_0000_0000;

/// The bits of one million.
pub const ONE_MILLION: u64 = 0x412e_8480_0000_0000;

/// The bits of the number of seconds of a week.
pub const WEEK_SECONDS: u64 = 0x4122_7500_0000_0000;

/// A number with a fraction. Numbers that are not negative are ordered as
/// their bits are, and infinities and what is no number have larger bits than
/// all of them.
#[derive(Clone, Copy, Debug, PartialEq, Eq, Structural)]
pub struct Double {
    pub bits: u64,
}

impl Double {
    /// A number from zero to the maximum with the given bits.
    pub open spec fn at_most(self, maximum: u64) -> bool {
        self.bits <= maximum || self.bits == NEGATIVE_ZERO
    }

    pub fn is_at_most(self, maximum: u64) -> (result: bool)
        ensures
            result == self.at_most(maximum),
    {
        self.bits <= maximum || self.bits == NEGATIVE_ZERO
    }

    /// A number that is not positive and whose magnitude is at most that with
    /// the given bits.
    pub open spec fn at_least_negative(self, magnitude: u64) -> bool {
        self.bits == 0 || (self.bits >= NEGATIVE_ZERO && self.bits - NEGATIVE_ZERO <= magnitude)
    }

    pub fn is_at_least_negative(self, magnitude: u64) -> (result: bool)
        ensures
            result == self.at_least_negative(magnitude),
    {
        self.bits == 0 || (self.bits >= NEGATIVE_ZERO && self.bits - NEGATIVE_ZERO <= magnitude)
    }

    /// The place of a number that is not negative among such numbers.
    pub open spec fn rank(self) -> int {
        if self.bits == NEGATIVE_ZERO {
            0
        } else {
            self.bits as int
        }
    }

    /// Whether a number that is not negative is greater than another.
    pub fn exceeds(self, other: Double) -> (result: bool)
        ensures
            result == (self.rank() > other.rank()),
    {
        let left: u64 = if self.bits == NEGATIVE_ZERO {
            0
        } else {
            self.bits
        };
        let right: u64 = if other.bits == NEGATIVE_ZERO {
            0
        } else {
            other.bits
        };
        left > right
    }
}

} // verus!
