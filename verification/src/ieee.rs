//! Floating point numbers by their bit patterns.
//!
//! The library never computes with them. It moves them, compares them and flips
//! their sign, and for all of that the IEEE 754 encoding is enough: apart from the
//! patterns that are not a number, the order of the numbers is the order of the
//! integers `key`.

use vstd::prelude::*;

verus! {

/// A single precision number.
#[derive(Clone, Copy, PartialEq, Eq, Structural, Debug)]
pub struct Real32 {
    pub bits: u32,
}

/// A double precision number.
#[derive(Clone, Copy, PartialEq, Eq, Structural, Debug)]
pub struct Real64 {
    pub bits: u64,
}

/// Negative infinity in single precision.
pub const NEG_INFINITY_32: u32 = 0xff80_0000;

/// The largest finite single precision number.
pub const MAX_32: u32 = 0x7f7f_ffff;

/// The least finite single precision number.
pub const MIN_32: u32 = 0xff7f_ffff;

/// One half in single precision.
pub const HALF_32: u32 = 0x3f00_0000;

/// Minus one in single precision.
pub const MINUS_ONE_32: u32 = 0xbf80_0000;

/// Negative infinity in double precision.
pub const NEG_INFINITY_64: u64 = 0xfff0_0000_0000_0000;

impl Real32 {
    /// The pattern without its sign bit.
    pub open spec fn magnitude(self) -> int {
        self.bits as int % 0x8000_0000
    }

    pub open spec fn negative(self) -> bool {
        self.bits >= 0x8000_0000
    }

    pub open spec fn nan(self) -> bool {
        self.magnitude() > 0x7f80_0000
    }

    /// An integer that orders the numbers: both zeros have key 0.
    pub open spec fn key(self) -> int {
        if self.negative() {
            -self.magnitude()
        } else {
            self.magnitude()
        }
    }

    /// What `self < other` means for floating point numbers.
    pub open spec fn below(self, other: Real32) -> bool {
        !self.nan() && !other.nan() && self.key() < other.key()
    }

    pub fn from_bits(bits: u32) -> (r: Real32)
        ensures
            r.bits == bits,
    {
        Real32 { bits }
    }

    pub fn neg_infinity() -> (r: Real32)
        ensures
            r.bits == NEG_INFINITY_32,
            !r.nan(),
            forall|x: Real32| #![trigger x.key()] !x.nan() ==> r.key() <= x.key(),
    {
        Real32 { bits: NEG_INFINITY_32 }
    }

    pub fn is_nan(self) -> (b: bool)
        ensures
            b == self.nan(),
            b == (0x7f80_0000 < self.bits < 0x8000_0000 || 0xff80_0000 < self.bits),
    {
        self.bits % 0x8000_0000 > 0x7f80_0000
    }

    pub fn order_key(self) -> (k: i64)
        ensures
            k == self.key(),
            -0x8000_0000 < k < 0x8000_0000,
    {
        let magnitude: i64 = (self.bits % 0x8000_0000) as i64;
        if self.bits >= 0x8000_0000 {
            -magnitude
        } else {
            magnitude
        }
    }

    /// Whether `self < other`; never so where one of them is not a number.
    pub fn is_below(self, other: Real32) -> (b: bool)
        ensures
            b == self.below(other),
            self.bits < 0x7f80_0001 && other.bits < 0x7f80_0001 ==> b == (self.bits < other.bits),
    {
        !self.is_nan() && !other.is_nan() && self.order_key() < other.order_key()
    }
}

impl Real64 {
    /// The pattern without its sign bit.
    pub open spec fn magnitude(self) -> int {
        self.bits as int % 0x8000_0000_0000_0000
    }

    pub open spec fn negative(self) -> bool {
        self.bits >= 0x8000_0000_0000_0000
    }

    pub open spec fn nan(self) -> bool {
        self.magnitude() > 0x7ff0_0000_0000_0000
    }

    /// An integer that orders the numbers: both zeros have key 0.
    pub open spec fn key(self) -> int {
        if self.negative() {
            -self.magnitude()
        } else {
            self.magnitude()
        }
    }

    /// What `self < other` means for floating point numbers.
    pub open spec fn below(self, other: Real64) -> bool {
        !self.nan() && !other.nan() && self.key() < other.key()
    }

    /// The number with its sign flipped.
    pub open spec fn negated(self) -> Real64 {
        Real64 {
            bits: if self.negative() {
                (self.bits - 0x8000_0000_0000_0000) as u64
            } else {
                (self.bits + 0x8000_0000_0000_0000) as u64
            },
        }
    }

    pub fn from_bits(bits: u64) -> (r: Real64)
        ensures
            r.bits == bits,
    {
        Real64 { bits }
    }

    pub fn is_nan(self) -> (b: bool)
        ensures
            b == self.nan(),
    {
        self.bits % 0x8000_0000_0000_0000 > 0x7ff0_0000_0000_0000
    }

    pub fn order_key(self) -> (k: i64)
        ensures
            k == self.key(),
    {
        let magnitude: i64 = (self.bits % 0x8000_0000_0000_0000) as i64;
        if self.bits >= 0x8000_0000_0000_0000 {
            -magnitude
        } else {
            magnitude
        }
    }

    /// Whether `self < other`; never so where one of them is not a number.
    pub fn is_below(self, other: Real64) -> (b: bool)
        ensures
            b == self.below(other),
    {
        !self.is_nan() && !other.is_nan() && self.order_key() < other.order_key()
    }

    pub fn negate(self) -> (r: Real64)
        ensures
            r == self.negated(),
    {
        if self.bits >= 0x8000_0000_0000_0000 {
            Real64 { bits: self.bits - 0x8000_0000_0000_0000 }
        } else {
            Real64 { bits: self.bits + 0x8000_0000_0000_0000 }
        }
    }
}

/// Flipping the sign turns the order round, so the least negated score belongs to the
/// greatest score.
pub proof fn lemma_negation_reverses_order(x: Real64, y: Real64)
    ensures
        x.negated().below(y.negated()) <==> y.below(x),
        x.negated().negated() == x,
{
}

/// No number is below negative infinity.
pub proof fn lemma_nothing_below_neg_infinity(x: Real32, bottom: Real32)
    requires
        bottom.bits == NEG_INFINITY_32,
    ensures
        !x.below(bottom),
{
}

/// The order of single precision numbers, read off their patterns: upwards among those
/// without a sign, downwards among those with one, and a sign puts a number below one
/// without, unless both are zero. A pattern above that of infinity is no number.
pub proof fn lemma_order_of_patterns_32(x: Real32, y: Real32)
    ensures
        x.nan() <==> 0x7f80_0000 < x.bits < 0x8000_0000 || 0xff80_0000 < x.bits,
        x.nan() || y.nan() ==> !x.below(y) && !y.below(x),
        !x.nan() && !y.nan() && x.bits < 0x8000_0000 && y.bits < 0x8000_0000 ==> (x.below(y) <==> x.bits
            < y.bits),
        !x.nan() && !y.nan() && x.bits >= 0x8000_0000 && y.bits >= 0x8000_0000 ==> (x.below(y)
            <==> y.bits < x.bits),
        !x.nan() && !y.nan() && x.bits >= 0x8000_0000 && y.bits < 0x8000_0000 ==> !y.below(x) && (
        x.below(y) <==> x.bits != 0x8000_0000 || y.bits != 0),
        !x.nan() && !y.nan() ==> (x.key() < y.key() <==> x.below(y)),
        !x.nan() && !y.nan() ==> (x.key() == y.key() <==> x.bits == y.bits || (x.bits
            % 0x8000_0000 == 0 && y.bits % 0x8000_0000 == 0)),
{
}

/// The same for double precision numbers.
pub proof fn lemma_order_of_patterns_64(x: Real64, y: Real64)
    ensures
        x.nan() <==> 0x7ff0_0000_0000_0000 < x.bits < 0x8000_0000_0000_0000
            || 0xfff0_0000_0000_0000 < x.bits,
        x.nan() || y.nan() ==> !x.below(y) && !y.below(x),
        !x.nan() && !y.nan() && x.bits < 0x8000_0000_0000_0000 && y.bits < 0x8000_0000_0000_0000
            ==> (x.below(y) <==> x.bits < y.bits),
        !x.nan() && !y.nan() && x.bits >= 0x8000_0000_0000_0000 && y.bits >= 0x8000_0000_0000_0000
            ==> (x.below(y) <==> y.bits < x.bits),
        !x.nan() && !y.nan() && x.bits >= 0x8000_0000_0000_0000 && y.bits < 0x8000_0000_0000_0000
            ==> !y.below(x) && (x.below(y) <==> x.bits != 0x8000_0000_0000_0000 || y.bits != 0),
{
}

/// Flipping the sign changes the first bit alone.
pub proof fn lemma_negation_flips_the_sign_bit(x: Real64)
    ensures
        x.negated().bits == x.bits + 0x8000_0000_0000_0000 || x.bits == x.negated().bits
            + 0x8000_0000_0000_0000,
        x.negated().nan() <==> x.nan(),
{
}

/// The patterns of the numbers that the library knows by name.
pub proof fn lemma_named_patterns()
    ensures
        NEG_INFINITY_32 == 0xff80_0000,
        MAX_32 == 0x7f7f_ffff,
        MIN_32 == 0xff7f_ffff,
        HALF_32 == 0x3f00_0000,
        MINUS_ONE_32 == 0xbf80_0000,
        NEG_INFINITY_64 == 0xfff0_0000_0000_0000,
{
}

} // verus!
