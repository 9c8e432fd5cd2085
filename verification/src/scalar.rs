//! Single-precision values, held as their IEEE 754 bit patterns.

use vstd::prelude::*;

verus! {

/// The bit that carries the sign.
pub const SIGN_BIT: u32 = 0x8000_0000;

/// The magnitude of an infinity; every larger magnitude is a NaN.
pub const INFINITE_MAGNITUDE: u32 = 0x7f80_0000;

/// The rank of a NaN in [`Scalar::rank`]: above every number.
pub const NAN_RANK: i64 = 0x8000_0000;

/// A single-precision floating-point value as its bit pattern (`to_bits`).
///
/// The library stores, moves and compares such values; arithmetic on them is
/// handed in by the caller. Two scalars are equal where their bits are; the
/// comparisons of floats are methods.
#[derive(Clone, Copy, PartialEq, Eq, Structural, Debug)]
pub struct Scalar {
    pub bits: u32,
}

/// Positive zero.
#[verifier::allow_in_spec]
pub fn zero() -> Scalar
    returns
        (Scalar { bits: 0 }),
{
    Scalar { bits: 0 }
}

/// Positive infinity.
#[verifier::allow_in_spec]
pub fn infinity() -> Scalar
    returns
        (Scalar { bits: INFINITE_MAGNITUDE }),
{
    Scalar { bits: INFINITE_MAGNITUDE }
}

impl Scalar {
    /// The bits without the sign.
    pub open spec fn magnitude(self) -> int {
        self.bits as int % 0x8000_0000
    }

    /// Whether the value is not a number.
    pub open spec fn nan(self) -> bool {
        self.magnitude() > INFINITE_MAGNITUDE
    }

    /// Whether the value is a number and not infinite.
    pub open spec fn finite(self) -> bool {
        self.magnitude() < INFINITE_MAGNITUDE
    }

    /// The position of a number on the number line. Numbers order as their
    /// positions do, and both zeros share position 0.
    pub open spec fn position(self) -> int {
        if self.bits < SIGN_BIT {
            self.magnitude()
        } else {
            -self.magnitude()
        }
    }

    /// The IEEE comparison `self < other`: false as soon as one side is a NaN.
    pub open spec fn lt(self, other: Scalar) -> bool {
        !self.nan() && !other.nan() && self.position() < other.position()
    }

    /// The IEEE comparison `self >= other`: false as soon as one side is a NaN.
    pub open spec fn ge(self, other: Scalar) -> bool {
        !self.nan() && !other.nan() && self.position() >= other.position()
    }

    /// The IEEE comparison `self == other`: false as soon as one side is a NaN.
    pub open spec fn same(self, other: Scalar) -> bool {
        !self.nan() && !other.nan() && self.position() == other.position()
    }

    /// The rank of a number is its position; NaNs rank behind all numbers.
    pub open spec fn rank_of(self) -> int {
        if self.nan() {
            NAN_RANK as int
        } else {
            self.position()
        }
    }

    /// Whether the value is not a number.
    pub fn is_nan(self) -> (r: bool)
        ensures
            r == self.nan(),
    {
        self.bits % SIGN_BIT > INFINITE_MAGNITUDE
    }

    /// The rank of a number is its position; NaNs rank behind all numbers.
    pub fn rank(self) -> (r: i64)
        ensures
            r == self.rank_of(),
            -0x8000_0000 < r <= NAN_RANK,
            self.nan() <==> r == NAN_RANK,
    {
        let magnitude: i64 = (self.bits % SIGN_BIT) as i64;
        if self.is_nan() {
            NAN_RANK
        } else if self.bits < SIGN_BIT {
            magnitude
        } else {
            -magnitude
        }
    }

    /// The IEEE comparison `self < other`.
    pub fn less(self, other: Scalar) -> (r: bool)
        ensures
            r == self.lt(other),
    {
        !self.is_nan() && !other.is_nan() && self.rank() < other.rank()
    }

    /// The IEEE comparison `self == other`.
    pub fn equals(self, other: Scalar) -> (r: bool)
        ensures
            r == self.same(other),
    {
        !self.is_nan() && !other.is_nan() && self.rank() == other.rank()
    }

    /// The IEEE comparison `self >= other`.
    pub fn at_least(self, other: Scalar) -> (r: bool)
        ensures
            r == self.ge(other),
    {
        !self.is_nan() && !other.is_nan() && self.rank() >= other.rank()
    }
}

/// Whether none of `values` is a NaN.
pub open spec fn all_numbers(values: Seq<Scalar>) -> bool {
    forall|i: int| 0 <= i < values.len() ==> !(#[trigger] values[i]).nan()
}

/// Whether the numbers among `values` are all equal, so that none of `values` is
/// below another.
pub open spec fn level(values: Seq<Scalar>) -> bool {
    forall|i: int, j: int|
        0 <= i < values.len() && 0 <= j < values.len() ==> !(#[trigger] values[i]).lt(#[trigger] values[j])
}

/// Whether all of `values` are finite.
pub open spec fn all_finite(values: Seq<Scalar>) -> bool {
    forall|i: int| 0 <= i < values.len() ==> (#[trigger] values[i]).finite()
}

/// Between numbers, exactly one of `<`, its converse and equal position holds,
/// and `<` is transitive.
pub proof fn law_numbers_are_totally_ordered(a: Scalar, b: Scalar, c: Scalar)
    requires
        !a.nan(),
        !b.nan(),
        !c.nan(),
    ensures
        a.lt(b) || b.lt(a) || a.position() == b.position(),
        !(a.lt(b) && b.lt(a)),
        a.same(b) <==> !a.lt(b) && !b.lt(a),
        a.lt(b) && b.lt(c) ==> a.lt(c),
        a.ge(b) <==> !a.lt(b),
{
}

/// Positive numbers order as their bits do and negative ones the other way round,
/// negative ones are below positive ones, the two zeros are equal, and what is
/// past infinity in either sign is not a number.
pub proof fn law_numbers_order_by_their_bits(a: Scalar, b: Scalar)
    ensures
        a.nan() <==> 0x7f80_0000 < a.bits < 0x8000_0000 || a.bits > 0xff80_0000,
        a.finite() <==> a.bits < 0x7f80_0000 || 0x8000_0000 <= a.bits < 0xff80_0000,
        a.bits <= 0x7f80_0000 && b.bits <= 0x7f80_0000 ==> {
            &&& a.lt(b) <==> a.bits < b.bits
            &&& a.same(b) <==> a.bits == b.bits
            &&& a.ge(b) <==> a.bits >= b.bits
        },
        0x8000_0000 <= a.bits <= 0xff80_0000 && 0x8000_0000 <= b.bits <= 0xff80_0000 ==> {
            &&& a.lt(b) <==> a.bits > b.bits
            &&& a.same(b) <==> a.bits == b.bits
            &&& a.ge(b) <==> a.bits <= b.bits
        },
        0x8000_0000 < a.bits <= 0xff80_0000 && b.bits <= 0x7f80_0000 ==> a.lt(b) && !b.lt(a) && b.ge(a) && !a.ge(b),
        a.bits == 0x8000_0000 && b.bits == 0 ==> a.same(b) && b.same(a) && a.ge(b) && b.ge(a),
        a.bits == 0x8000_0000 && 0 < b.bits <= 0x7f80_0000 ==> a.lt(b) && b.ge(a) && !a.ge(b),
        !a.nan() && !b.nan() ==> (a.ge(b) <==> !a.lt(b)) && (a.same(b) <==> !a.lt(b) && !b.lt(a)),
        a.nan() ==> !a.lt(b) && !b.lt(a) && !a.ge(b) && !b.ge(a) && !a.same(b) && !b.same(a),
{
}

/// Nothing is below a NaN, above it or at least as great: every comparison with
/// one is false.
pub proof fn law_nan_compares_false(a: Scalar, b: Scalar)
    requires
        a.nan() || b.nan(),
    ensures
        !a.lt(b),
        !a.ge(b),
        !a.same(b),
{
}

} // verus!
