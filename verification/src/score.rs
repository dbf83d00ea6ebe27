//! Scores: real-valued model outputs, held as IEEE 754 binary64 bit patterns.
//!
//! The numbers themselves are computed by the models. Everything the editing
//! logic does with them is to compare them, and the order of two binary64
//! numbers can be read off their bit patterns. A binary32 number widens to
//! binary64 without loss, so both widths share this type.

use vstd::prelude::*;

verus! {

/// The bit that carries the sign of a binary64 number.
pub const SIGN_BIT: u64 = 0x8000_0000_0000_0000;

/// The bit pattern of positive infinity. A magnitude above it is not a number.
pub const INFINITY: u64 = 0x7ff0_0000_0000_0000;

/// The bit pattern of a binary64 number.
///
/// `==` compares bit patterns. The order of the numbers themselves is given by
/// [`Score::less_than`], under which the two zeros are level and a NaN is
/// neither below nor above anything.
#[derive(Debug, Clone, Copy, PartialEq, Eq, Structural)]
pub struct Score {
    pub bits: u64,
}

impl Score {
    /// Positive zero.
    pub open spec fn zero() -> Score {
        Score { bits: 0 }
    }

    /// The bit pattern without its sign.
    pub open spec fn magnitude(self) -> int {
        if self.bits >= SIGN_BIT {
            self.bits - SIGN_BIT
        } else {
            self.bits as int
        }
    }

    pub open spec fn nan(self) -> bool {
        self.magnitude() > INFINITY
    }

    /// The place of the number among all numbers: both zeros have rank 0, and
    /// of two numbers the smaller one has the smaller rank.
    pub open spec fn rank(self) -> int {
        if self.bits >= SIGN_BIT {
            -self.magnitude()
        } else {
            self.magnitude()
        }
    }

    /// `self < other` as numbers. False where either is a NaN.
    pub open spec fn below(self, other: Score) -> bool {
        !self.nan() && !other.nan() && self.rank() < other.rank()
    }

    /// Whether the pattern is that of a NaN.
    pub fn is_nan(self) -> (r: bool)
        ensures
            r == self.nan(),
    {
        let magnitude: u64 = if self.bits >= SIGN_BIT {
            self.bits - SIGN_BIT
        } else {
            self.bits
        };
        magnitude > INFINITY
    }

    /// The rank of the number as a machine integer.
    pub fn order_key(self) -> (r: i64)
        ensures
            r == self.rank(),
    {
        if self.bits >= SIGN_BIT {
            let magnitude: i64 = (self.bits - SIGN_BIT) as i64;
            -magnitude
        } else {
            self.bits as i64
        }
    }

    /// `self < other` as numbers.
    pub fn less_than(self, other: Score) -> (r: bool)
        ensures
            r == self.below(other),
    {
        !self.is_nan() && !other.is_nan() && self.order_key() < other.order_key()
    }
}

/// Whether no score of the sequence is a NaN.
pub open spec fn all_numbers(scores: Seq<Score>) -> bool {
    forall|i: int| 0 <= i < scores.len() ==> !(#[trigger] scores[i]).nan()
}

/// `below` is a strict order: nothing is below itself, and it chains.
pub proof fn below_is_strict_order(a: Score, b: Score, c: Score)
    ensures
        !a.below(a),
        a.below(b) ==> !b.below(a),
        a.below(b) && b.below(c) ==> a.below(c),
{
}

/// The order of two scores is that of the numbers that their bit patterns encode:
/// a pattern with the sign bit is negative, larger patterns are larger numbers
/// without the sign bit and smaller ones with it, the two zeros are level, and the
/// patterns beyond either infinity are not numbers and have no order.
pub proof fn below_orders_the_encoded_numbers(a: Score, b: Score)
    ensures
        a.nan() <==> 0x7ff0_0000_0000_0000 < a.bits < 0x8000_0000_0000_0000
            || 0xfff0_0000_0000_0000 < a.bits,
        a.bits < 0x8000_0000_0000_0000 && b.bits < 0x8000_0000_0000_0000 && !a.nan() && !b.nan()
            ==> (a.below(b) <==> a.bits < b.bits),
        a.bits >= 0x8000_0000_0000_0000 && b.bits >= 0x8000_0000_0000_0000 && !a.nan()
            && !b.nan() ==> (a.below(b) <==> a.bits > b.bits),
        a.bits >= 0x8000_0000_0000_0000 && b.bits < 0x8000_0000_0000_0000 && !a.nan() && !b.nan()
            ==> (a.below(b) <==> !(a.bits == 0x8000_0000_0000_0000 && b.bits == 0)),
        a.bits < 0x8000_0000_0000_0000 && b.bits >= 0x8000_0000_0000_0000 ==> !a.below(b),
        a.nan() || b.nan() ==> !a.below(b),
        !a.nan() && !b.nan() ==> (a.below(b) <==> a.rank() < b.rank()),
        a.bits < 0x8000_0000_0000_0000 ==> a.rank() == a.bits,
        a.bits >= 0x8000_0000_0000_0000 ==> a.rank() == 0x8000_0000_0000_0000 - a.bits,
        Score::zero().bits == 0,
{
}

} // verus!
