//! Probabilities and thresholds: binary64 numbers, held by their bits and
//! compared as the numbers are.

use vstd::prelude::*;

verus! {

/// The bit that holds the sign.
pub const SIGN_BIT: u64 = 0x8000_0000_0000_0000;

/// The bits of positive infinity; those of a larger magnitude are no number.
pub const INFINITY_BITS: u64 = 0x7ff0_0000_0000_0000;

/// The bits of one.
pub const ONE_BITS: u64 = 0x3ff0_0000_0000_0000;

/// A binary64 number by its bits (sign, exponent, fraction, from the top).
#[derive(Clone, Copy, Debug)]
pub struct Score {
    pub bits: u64,
}

impl View for Score {
    type V = Score;

    open spec fn view(&self) -> Score {
        *self
    }
}

impl Score {
    /// The bits without the sign. Of two positive numbers the larger one has
    /// the larger magnitude.
    pub open spec fn magnitude(self) -> int {
        if self.bits >= SIGN_BIT {
            self.bits - SIGN_BIT
        } else {
            self.bits as int
        }
    }

    /// Whether the bits stand for a number (or an infinity) at all.
    pub open spec fn is_number(self) -> bool {
        self.magnitude() <= INFINITY_BITS
    }

    /// A number's place among the numbers; both zeros have the same.
    pub open spec fn rank(self) -> int {
        if self.bits >= SIGN_BIT {
            -self.magnitude()
        } else {
            self.magnitude()
        }
    }

    /// Whether this number is less than `other`; never so where either is none.
    pub open spec fn less(self, other: Score) -> bool {
        self.is_number() && other.is_number() && self.rank() < other.rank()
    }

    /// Whether this is a number from zero to one, both included.
    pub open spec fn in_unit(self) -> bool {
        self.is_number() && 0 <= self.rank() <= ONE_BITS
    }

    /// Whether this number is less than `other`.
    pub fn is_below(self, other: Score) -> (r: bool)
        ensures
            r == self.less(other),
    {
        let a: u64 = if self.bits >= SIGN_BIT {
            self.bits - SIGN_BIT
        } else {
            self.bits
        };
        let b: u64 = if other.bits >= SIGN_BIT {
            other.bits - SIGN_BIT
        } else {
            other.bits
        };
        if a > INFINITY_BITS || b > INFINITY_BITS {
            return false;
        }
        if self.bits >= SIGN_BIT {
            if other.bits >= SIGN_BIT {
                b < a
            } else {
                a > 0 || b > 0
            }
        } else {
            other.bits < SIGN_BIT && a < b
        }
    }

    /// Whether this is a number from zero to one, both included.
    pub fn is_in_unit(self) -> (r: bool)
        ensures
            r == self.in_unit(),
    {
        self.bits <= ONE_BITS || self.bits == SIGN_BIT
    }
}

impl PartialEq for Score {
    /// Whether two scores are the same number: both zeros are, and what is no
    /// number is the same as nothing.
    fn eq(&self, other: &Self) -> (r: bool) {
        let a: u64 = if self.bits >= SIGN_BIT {
            self.bits - SIGN_BIT
        } else {
            self.bits
        };
        let b: u64 = if other.bits >= SIGN_BIT {
            other.bits - SIGN_BIT
        } else {
            other.bits
        };
        a <= INFINITY_BITS && b <= INFINITY_BITS && (self.bits == other.bits || (a == 0 && b == 0))
    }
}

impl vstd::std_specs::cmp::PartialEqSpecImpl for Score {
    open spec fn obeys_eq_spec() -> bool {
        true
    }

    open spec fn eq_spec(&self, other: &Self) -> bool {
        self.is_number() && other.is_number() && self.rank() == other.rank()
    }
}

/// Scores are ordered as numbers are: none is below itself, two are not below
/// each other, and the order carries over.
pub proof fn score_order(a: Score, b: Score, c: Score)
    ensures
        !a.less(a),
        !(a.less(b) && b.less(a)),
        a.less(b) && b.less(c) ==> a.less(c),
        a.is_number() && b.is_number() && a.rank() != b.rank() ==> a.less(b) || b.less(a),
{
}

/// The scores from zero to one are the numbers that neither lie below zero nor
/// have one below them.
pub proof fn unit_bounds(a: Score)
    ensures
        a.in_unit() <==> a.is_number() && !a.less(Score { bits: 0 }) && !(Score { bits: ONE_BITS }).less(a),
{
}

/// Scores are compared as their bits say: of two without a sign the one with the
/// smaller bits is less, of two with a sign the one with the larger, one with a
/// sign is less than one without unless both are zero, and what is no number is
/// less than nothing and has nothing less than it.
pub proof fn bits_decide_which_is_less(a: Score, b: Score)
    ensures
        a.bits <= 0x7ff0_0000_0000_0000 && b.bits <= 0x7ff0_0000_0000_0000 ==> (a.less(b) <==> a.bits < b.bits),
        0x8000_0000_0000_0000 <= a.bits <= 0xfff0_0000_0000_0000 && 0x8000_0000_0000_0000 <= b.bits
            <= 0xfff0_0000_0000_0000 ==> (a.less(b) <==> a.bits > b.bits),
        0x8000_0000_0000_0000 <= a.bits <= 0xfff0_0000_0000_0000 && b.bits <= 0x7ff0_0000_0000_0000 ==> {
            &&& a.less(b) <==> !(a.bits == 0x8000_0000_0000_0000 && b.bits == 0)
            &&& !b.less(a)
        },
        0x7ff0_0000_0000_0000 < a.bits < 0x8000_0000_0000_0000 || 0xfff0_0000_0000_0000 < a.bits ==> !a.less(b)
            && !b.less(a),
        a.in_unit() <==> a.bits <= 0x3ff0_0000_0000_0000 || a.bits == 0x8000_0000_0000_0000,
{
}

/// Two scores are the same number where neither is less, as long as both are
/// numbers.
pub proof fn same_number_means_neither_is_less(a: Score, b: Score)
    ensures
        a.is_number() <==> a.bits <= 0x7ff0_0000_0000_0000 || 0x8000_0000_0000_0000 <= a.bits <= 0xfff0_0000_0000_0000,
        vstd::std_specs::cmp::PartialEqSpec::eq_spec(&a, &b) <==> a.is_number() && b.is_number() && !a.less(b)
            && !b.less(a),
{
}

} // verus!
