//! Real numbers in their binary64 encoding.
//!
//! The library carries the simulator's numbers as bit patterns. It never adds
//! or multiplies them, but it does store, copy and order them, and it tells
//! finite ones from the others. In this encoding all of that is integer
//! arithmetic, so it can be stated and proved.
use vstd::prelude::*;

verus! {

/// The weight of the sign bit.
pub const SIGN: u64 = 0x8000_0000_0000_0000;

/// The encoding of positive infinity. A magnitude above it is not a number.
pub const INFINITY: u64 = 0x7ff0_0000_0000_0000;

/// The encoding of one.
pub const ONE: u64 = 0x3ff0_0000_0000_0000;

/// A number in the binary64 encoding. Two values are `==` when their bits are
/// the same; [`Real::equals`] is the numeric comparison.
#[derive(Clone, Copy, Debug, PartialEq, Eq, Structural)]
pub struct Real {
    pub bits: u64,
}

impl Real {
    /// The encoding without its sign bit.
    pub open spec fn magnitude(self) -> int {
        self.bits as int % (SIGN as int)
    }

    /// Whether the sign bit is set.
    pub open spec fn negative(self) -> bool {
        self.bits >= SIGN
    }

    /// Whether the encoding stands for no number.
    pub open spec fn nan(self) -> bool {
        self.magnitude() > INFINITY
    }

    /// Whether the encoding stands for a finite number.
    pub open spec fn finite(self) -> bool {
        self.magnitude() < INFINITY
    }

    /// The place of the number among all numbers: of two numbers the smaller one
    /// has the smaller rank, and the two zeros share rank zero.
    pub open spec fn rank(self) -> int {
        if self.negative() {
            -self.magnitude()
        } else {
            self.magnitude()
        }
    }

    /// The place of the encoding in the total order, which puts negative zero
    /// before positive zero and gives the encodings of no number a place too.
    pub open spec fn total_rank(self) -> int {
        if self.negative() {
            -1 - self.magnitude()
        } else {
            self.magnitude()
        }
    }

    /// Numeric `<`.
    pub open spec fn lt(self, other: Real) -> bool {
        !self.nan() && !other.nan() && self.rank() < other.rank()
    }

    /// Numeric `<=`.
    pub open spec fn le(self, other: Real) -> bool {
        !self.nan() && !other.nan() && self.rank() <= other.rank()
    }

    /// The number above zero and below infinity.
    pub open spec fn positive_finite(self) -> bool {
        self.finite() && self.rank() > 0
    }

    /// The encoding with its sign turned over.
    pub open spec fn opposite(self) -> Real {
        if self.negative() {
            Real { bits: (self.bits - SIGN) as u64 }
        } else {
            Real { bits: (self.bits + SIGN) as u64 }
        }
    }

    /// The number with the given encoding.
    pub fn from_bits(bits: u64) -> (r: Real)
        ensures
            r.bits == bits,
    {
        Real { bits }
    }

    /// Positive zero.
    pub fn zero() -> (r: Real)
        ensures
            r.bits == 0,
            r.rank() == 0,
            r.finite(),
    {
        Real { bits: 0 }
    }

    /// One.
    pub fn one() -> (r: Real)
        ensures
            r.bits == ONE,
            r.positive_finite(),
    {
        Real { bits: ONE }
    }

    fn magnitude_bits(self) -> (r: i64)
        ensures
            r == self.magnitude(),
    {
        (self.bits % SIGN) as i64
    }

    /// Whether this is not a number.
    pub fn is_nan(self) -> (r: bool)
        ensures
            r == self.nan(),
    {
        self.bits % SIGN > INFINITY
    }

    /// Whether this is a finite number.
    pub fn is_finite(self) -> (r: bool)
        ensures
            r == self.finite(),
    {
        self.bits % SIGN < INFINITY
    }

    /// The place of the number among all numbers.
    pub fn order_key(self) -> (r: i64)
        ensures
            r == self.rank(),
    {
        if self.bits >= SIGN {
            -self.magnitude_bits()
        } else {
            self.magnitude_bits()
        }
    }

    /// The place of the encoding in the total order.
    pub fn total_order_key(self) -> (r: i64)
        ensures
            r == self.total_rank(),
    {
        if self.bits >= SIGN {
            -1 - self.magnitude_bits()
        } else {
            self.magnitude_bits()
        }
    }

    /// Numeric `<`: false when either side is not a number.
    pub fn less(self, other: Real) -> (r: bool)
        ensures
            r == self.lt(other),
    {
        !self.is_nan() && !other.is_nan() && self.order_key() < other.order_key()
    }

    /// Numeric `<=`: false when either side is not a number.
    pub fn at_most(self, other: Real) -> (r: bool)
        ensures
            r == self.le(other),
    {
        !self.is_nan() && !other.is_nan() && self.order_key() <= other.order_key()
    }

    /// Numeric `==`: the two zeros are equal, and what is not a number equals nothing.
    pub fn equals(self, other: Real) -> (r: bool)
        ensures
            r == (!self.nan() && !other.nan() && self.rank() == other.rank()),
    {
        !self.is_nan() && !other.is_nan() && self.order_key() == other.order_key()
    }

    /// Whether the number is above zero and below infinity.
    pub fn is_positive_finite(self) -> (r: bool)
        ensures
            r == self.positive_finite(),
    {
        self.is_finite() && self.order_key() > 0
    }

    /// Numeric negation, which turns the sign bit over.
    pub fn negated(self) -> (r: Real)
        ensures
            r == self.opposite(),
    {
        if self.bits >= SIGN {
            Real { bits: self.bits - SIGN }
        } else {
            Real { bits: self.bits + SIGN }
        }
    }
}

// ---- operations that are handed in ----------------------------------------

/// The operation gives one result for the same two numbers.
pub open spec fn gives_one<F: Fn(Real, Real) -> Real>(f: F) -> bool {
    forall|a: Real, b: Real, x: Real, y: Real|
        #![trigger call_ensures(f, (a, b), x), call_ensures(f, (a, b), y)]
        call_ensures(f, (a, b), x) && call_ensures(f, (a, b), y) ==> x == y
}

/// The operation gives one result for the same four numbers.
pub open spec fn gives_one_of_four<F: Fn(Real, Real, Real, Real) -> Real>(f: F) -> bool {
    forall|a: Real, b: Real, c: Real, d: Real, x: Real, y: Real|
        #![trigger call_ensures(f, (a, b, c, d), x), call_ensures(f, (a, b, c, d), y)]
        call_ensures(f, (a, b, c, d), x) && call_ensures(f, (a, b, c, d), y) ==> x == y
}

/// Negating twice gives the number back.
pub proof fn negation_is_an_involution(x: Real)
    ensures
        x.opposite().opposite() == x,
{
}

/// Negation turns the order round.
pub proof fn negation_reverses_order(x: Real, y: Real)
    ensures
        x.opposite().rank() == -x.rank(),
        x.opposite().nan() == x.nan(),
        x.opposite().finite() == x.finite(),
        x.lt(y) == y.opposite().lt(x.opposite()),
{
}

/// Encodings are told apart by their place in the total order.
pub proof fn total_order_is_strict(x: Real, y: Real)
    ensures
        x.total_rank() == y.total_rank() ==> x == y,
        x.lt(y) ==> x.total_rank() < y.total_rank(),
{
}

} // verus!
