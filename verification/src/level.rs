//! Volume and balance values.

use vstd::prelude::*;

verus! {

/// A single-precision value, held as its IEEE 754 bit pattern.
#[derive(Clone, Copy, Debug, PartialEq, Eq, Structural)]
pub struct Level {
    pub bits: u32,
}

/// The bit pattern of `0.0`.
pub const ZERO_BITS: u32 = 0;

/// The bit pattern of `1.0`.
pub const ONE_BITS: u32 = 0x3f80_0000;

/// The bit pattern of `-1.0`.
pub const MINUS_ONE_BITS: u32 = 0xbf80_0000;

/// The bit pattern of `1.5`, the loudest a boosted application may be set to.
pub const BOOST_BITS: u32 = 0x3fc0_0000;

pub const SIGN_BIT: u32 = 0x8000_0000;

/// The bit pattern of positive infinity; a larger magnitude is not a number.
pub const INFINITY_BITS: u32 = 0x7f80_0000;

impl Level {
    pub open spec fn is_signed(self) -> bool {
        self.bits >= SIGN_BIT
    }

    /// The bits without the sign, which order absolute values.
    pub open spec fn magnitude(self) -> int {
        if self.is_signed() {
            self.bits - SIGN_BIT
        } else {
            self.bits as int
        }
    }

    pub open spec fn is_nan(self) -> bool {
        self.magnitude() > INFINITY_BITS
    }

    /// The position of a number among all numbers; the two zeros share theirs.
    pub open spec fn rank(self) -> int {
        if self.is_signed() {
            -self.magnitude()
        } else {
            self.magnitude()
        }
    }

    /// The value with the opposite sign.
    pub open spec fn negated(self) -> Level {
        if self.is_signed() {
            Level { bits: (self.bits - SIGN_BIT) as u32 }
        } else {
            Level { bits: (self.bits + SIGN_BIT) as u32 }
        }
    }

    /// IEEE 754 `<`: never true where either side is not a number.
    pub open spec fn less(self, other: Level) -> bool {
        !self.is_nan() && !other.is_nan() && self.rank() < other.rank()
    }

    /// IEEE 754 `==`: the zeros are equal, and what is not a number equals nothing.
    pub open spec fn same(self, other: Level) -> bool {
        !self.is_nan() && !other.is_nan() && self.rank() == other.rank()
    }

    /// `self` moved into `low..=high`. What is not a number stays as it is.
    pub open spec fn clamped(self, low: Level, high: Level) -> Level {
        if self.less(low) {
            low
        } else if high.less(self) {
            high
        } else {
            self
        }
    }

    pub fn is_less(self, other: Level) -> (less: bool)
        ensures
            less == self.less(other),
    {
        if self.not_a_number() || other.not_a_number() {
            false
        } else {
            self.position() < other.position()
        }
    }

    pub fn is_same(self, other: Level) -> (same: bool)
        ensures
            same == self.same(other),
    {
        if self.not_a_number() || other.not_a_number() {
            false
        } else {
            self.position() == other.position()
        }
    }

    pub fn not_a_number(self) -> (nan: bool)
        ensures
            nan == self.is_nan(),
    {
        if self.bits >= SIGN_BIT {
            self.bits - SIGN_BIT > INFINITY_BITS
        } else {
            self.bits > INFINITY_BITS
        }
    }

    fn position(self) -> (rank: i64)
        ensures
            rank == self.rank(),
    {
        if self.bits >= SIGN_BIT {
            0 - ((self.bits - SIGN_BIT) as i64)
        } else {
            self.bits as i64
        }
    }

    /// Rust's `f32::clamp`.
    pub fn clamp_to(self, low: Level, high: Level) -> (clamped: Level)
        requires
            !high.less(low),
            !low.is_nan(),
            !high.is_nan(),
        ensures
            clamped == self.clamped(low, high),
    {
        if self.is_less(low) {
            low
        } else if high.is_less(self) {
            high
        } else {
            self
        }
    }
}

} // verus!
