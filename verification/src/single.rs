//! IEEE 754 values as bit patterns, and their order.
use vstd::prelude::*;

verus! {

/// The sign bit of a binary32 pattern, and the number of patterns without it.
pub const SIGN: u32 = 0x8000_0000;

/// The pattern of positive infinity; a larger magnitude is not a number.
pub const INFINITY: u32 = 0x7f80_0000;

/// The pattern of 1.
pub const ONE: u32 = 0x3f80_0000;

/// The sign bit of a binary64 pattern, and the number of patterns without it.
pub const WIDE_SIGN: u64 = 0x8000_0000_0000_0000;

/// The binary64 pattern of positive infinity; a larger magnitude is not a number.
pub const WIDE_INFINITY: u64 = 0x7ff0_0000_0000_0000;

/// A binary32 value, given by its bit pattern.
#[derive(Clone, Copy, Debug, PartialEq, Eq, Structural)]
pub struct Single {
    pub bits: u32,
}

/// A binary64 value, given by its bit pattern.
#[derive(Clone, Copy, Debug, PartialEq, Eq, Structural)]
pub struct Double {
    pub bits: u64,
}

impl Double {
    /// The pattern without its sign. Among numbers it grows with the absolute value.
    pub open spec fn magnitude(self) -> int {
        if self.bits < WIDE_SIGN {
            self.bits as int
        } else {
            self.bits - WIDE_SIGN
        }
    }

    /// Whether the pattern stands for no number.
    pub open spec fn nan(self) -> bool {
        self.magnitude() > WIDE_INFINITY
    }

    /// An integer that orders numbers as their values do; both zeros have rank 0.
    pub open spec fn rank(self) -> int {
        if self.bits < WIDE_SIGN {
            self.magnitude()
        } else {
            -self.magnitude()
        }
    }

    /// The order `<=` of binary64 values: false wherever a side is no number.
    pub open spec fn at_most(self, other: Double) -> bool {
        &&& !self.nan()
        &&& !other.nan()
        &&& self.rank() <= other.rank()
    }
}

impl Single {
    /// The pattern without its sign. Among numbers it grows with the absolute value.
    pub open spec fn magnitude(self) -> int {
        if self.bits < SIGN {
            self.bits as int
        } else {
            self.bits - SIGN
        }
    }

    /// Whether the pattern stands for no number.
    pub open spec fn nan(self) -> bool {
        self.magnitude() > INFINITY
    }

    /// An integer that orders numbers as their values do; both zeros have rank 0.
    pub open spec fn rank(self) -> int {
        if self.bits < SIGN {
            self.magnitude()
        } else {
            -self.magnitude()
        }
    }

    /// The order `<` of binary32 values: false wherever a side is no number.
    pub open spec fn below(self, other: Single) -> bool {
        &&& !self.nan()
        &&& !other.nan()
        &&& self.rank() < other.rank()
    }

    /// The order `<=` of binary32 values: false wherever a side is no number.
    pub open spec fn at_most(self, other: Single) -> bool {
        &&& !self.nan()
        &&& !other.nan()
        &&& self.rank() <= other.rank()
    }

    /// Whether the value is a number other than the two infinities.
    pub open spec fn finite(self) -> bool {
        self.magnitude() < INFINITY
    }

    /// Whether the value lies between -1 and 1.
    pub open spec fn within_one(self) -> bool {
        self.magnitude() <= ONE
    }

    /// Whether the values are numbers that add up to 0. A zero is opposite to either zero.
    pub open spec fn opposite(self, other: Single) -> bool {
        &&& !self.nan()
        &&& !other.nan()
        &&& self.rank() == -other.rank()
    }

    /// The value with its sign cleared.
    pub open spec fn absolute(self) -> Single {
        Single { bits: self.magnitude() as u32 }
    }

    /// The larger of two values, where one that is no number gives way to the other.
    pub open spec fn larger(self, other: Single) -> Single {
        if self.nan() || self.below(other) {
            other
        } else {
            self
        }
    }

    fn is_nan(self) -> (r: bool)
        ensures
            r == self.nan(),
    {
        let magnitude: u32 = if self.bits < SIGN {
            self.bits
        } else {
            self.bits - SIGN
        };
        magnitude > INFINITY
    }

    pub(crate) fn signed_rank(self) -> (r: i64)
        ensures
            r == self.rank(),
    {
        if self.bits < SIGN {
            self.bits as i64
        } else {
            -((self.bits - SIGN) as i64)
        }
    }

    /// Whether this value lies below `other`.
    pub fn lt(self, other: Single) -> (r: bool)
        ensures
            r == self.below(other),
    {
        !self.is_nan() && !other.is_nan() && self.signed_rank() < other.signed_rank()
    }

    /// Whether this value lies below `other` or equals it.
    pub fn le(self, other: Single) -> (r: bool)
        ensures
            r == self.at_most(other),
    {
        !self.is_nan() && !other.is_nan() && self.signed_rank() <= other.signed_rank()
    }

    /// The absolute value.
    pub fn abs(self) -> (r: Single)
        ensures
            r == self.absolute(),
    {
        if self.bits < SIGN {
            self
        } else {
            Single { bits: self.bits - SIGN }
        }
    }

    /// The larger of two values; a side that is no number is passed over.
    pub fn max(self, other: Single) -> (r: Single)
        ensures
            r == self.larger(other),
    {
        if self.is_nan() || self.lt(other) {
            other
        } else {
            self
        }
    }
}

/// Of two numbers exactly one of these holds: the first lies below the second, the second
/// below the first, or they have the same rank.
pub proof fn law_numbers_compare(a: Single, b: Single)
    requires
        !a.nan(),
        !b.nan(),
    ensures
        a.below(b) <==> !b.at_most(a),
        !(a.below(b) && b.below(a)),
        a.below(b) || b.below(a) || a.rank() == b.rank(),
{
}

/// A pattern that is no number lies neither below nor above any value, itself not excepted.
pub proof fn law_nan_is_unordered(a: Single, b: Single)
    requires
        a.nan(),
    ensures
        !a.below(b),
        !b.below(a),
        !a.at_most(b),
        !b.at_most(a),
{
}

/// `below` is transitive.
pub proof fn law_below_is_transitive(a: Single, b: Single, c: Single)
    requires
        a.below(b),
        b.below(c),
    ensures
        a.below(c),
{
}

} // verus!
