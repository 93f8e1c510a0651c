//! Positions in a recording.
use vstd::prelude::*;

use crate::failure::outcome;
use crate::failure::ErrorModel;
use crate::failure::Failure;
use crate::failure::LibraryError;
use crate::failure::Rule;

verus! {

/// A number of seconds, held as the bits of an IEEE 754 double.
#[derive(Clone, Copy, Debug, PartialEq, Eq, Structural)]
pub struct Seconds {
    pub bits: u64,
}

/// The sign bit of a double.
pub const SIGN: u64 = 0x8000_0000_0000_0000;

/// The bits of positive infinity: above them stand only those that are no numbers.
pub const INFINITY: u64 = 0x7ff0_0000_0000_0000;

impl Seconds {
    /// The bits without the sign, as a number: it grows with the absolute value.
    pub open spec fn magnitude(self) -> int {
        if self.bits >= SIGN {
            self.bits - SIGN
        } else {
            self.bits as int
        }
    }

    /// Whether this is a number, and not infinite.
    pub open spec fn finite(self) -> bool {
        self.magnitude() < INFINITY
    }

    /// Whether this is a number, infinite or not.
    pub open spec fn numeric(self) -> bool {
        self.magnitude() <= INFINITY
    }

    /// Whether this is a number, infinite or not.
    pub fn is_number(self) -> (b: bool)
        ensures
            b == self.numeric(),
    {
        if self.bits >= SIGN {
            self.bits - SIGN <= INFINITY
        } else {
            self.bits <= INFINITY
        }
    }

    /// An integer by which finite numbers are ordered: it is less for the lesser number,
    /// and 0 for both zeros.
    pub open spec fn rank(self) -> int {
        if self.bits >= SIGN {
            -self.magnitude()
        } else {
            self.magnitude()
        }
    }

    /// Whether this is a number, and not infinite.
    pub fn is_finite(self) -> (b: bool)
        ensures
            b == self.finite(),
    {
        if self.bits >= SIGN {
            self.bits - SIGN < INFINITY
        } else {
            self.bits < INFINITY
        }
    }

    /// Whether this, of two numbers that are both finite, is not the greater.
    pub fn at_most(self, other: Seconds) -> (b: bool)
        ensures
            b == (self.rank() <= other.rank()),
    {
        if self.bits >= SIGN {
            if other.bits >= SIGN {
                other.bits <= self.bits
            } else {
                true
            }
        } else if other.bits >= SIGN {
            self.bits == 0 && other.bits == SIGN
        } else {
            self.bits <= other.bits
        }
    }
}

/// Whether a clip may reach from `start` to `end`: from zero or later to a later point.
pub open spec fn valid_range(start: Seconds, end: Seconds) -> bool {
    &&& start.finite()
    &&& start.rank() >= 0
    &&& end.finite()
    &&& end.rank() > start.rank()
}

/// Why a clip may not reach from `start` to `end`.
pub open spec fn range_result(start: Seconds, end: Seconds) -> Result<(), ErrorModel> {
    if !start.finite() || start.rank() < 0 {
        Err(Failure::Rule(Rule::NegativeClipStart))
    } else if !end.finite() || end.rank() <= start.rank() {
        Err(Failure::Rule(Rule::ClipEndsBeforeStart))
    } else {
        Ok(())
    }
}

/// Tests whether a clip may reach from `start` to `end`.
pub fn validate_clip_range(start: Seconds, end: Seconds) -> (r: Result<(), LibraryError>)
    ensures
        outcome(r) == range_result(start, end),
        r is Ok <==> valid_range(start, end),
{
    let zero = Seconds { bits: 0 };
    if !start.is_finite() || !zero.at_most(start) {
        return Err(Failure::Rule(Rule::NegativeClipStart));
    }
    if !end.is_finite() || end.at_most(start) {
        return Err(Failure::Rule(Rule::ClipEndsBeforeStart));
    }
    Ok(())
}

} // verus!
