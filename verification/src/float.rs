//! Single-precision numbers, held by their IEEE 754 bit patterns.
//!
//! The library stores, compares and copies such numbers without computing
//! with them, and for that the bits are enough.
use vstd::prelude::*;

verus! {

/// A binary32 number: `bits` is what `to_bits` gives for it.
#[derive(Clone, Copy, PartialEq, Eq, Hash, Debug, Structural)]
pub struct F32 {
    pub bits: u32,
}

/// A point or direction.
#[derive(Clone, Copy, PartialEq, Eq, Hash, Debug, Structural)]
pub struct Vec3 {
    pub x: F32,
    pub y: F32,
    pub z: F32,
}

/// A texture coordinate.
#[derive(Clone, Copy, PartialEq, Eq, Hash, Debug, Structural)]
pub struct Vec2 {
    pub x: F32,
    pub y: F32,
}

impl F32 {
    /// The bits without the sign bit.
    pub open spec fn magnitude(self) -> u32 {
        self.bits % 0x8000_0000
    }

    pub open spec fn nan(self) -> bool {
        self.magnitude() > 0x7f80_0000
    }

    pub open spec fn finite(self) -> bool {
        self.magnitude() < 0x7f80_0000
    }

    /// The position of a number among all that are not NaN. The two zeros
    /// share a position, as they compare equal.
    pub open spec fn rank(self) -> int {
        if self.bits < 0x8000_0000 {
            self.bits as int
        } else {
            0x8000_0000 - self.bits
        }
    }

    /// The order of the numbers; a NaN is below nothing and above nothing.
    pub open spec fn below(self, other: F32) -> bool {
        !self.nan() && !other.nan() && self.rank() < other.rank()
    }

    /// At most: below or equal. With a NaN on either side it is false.
    pub open spec fn within(self, other: F32) -> bool {
        !self.nan() && !other.nan() && self.rank() <= other.rank()
    }

    pub fn is_within(self, other: F32) -> (r: bool)
        ensures
            r == self.within(other),
    {
        !self.is_nan() && !other.is_nan() && !other.is_below(self)
    }

    pub fn is_finite(self) -> (r: bool)
        ensures
            r == self.finite(),
    {
        self.bits % 0x8000_0000 < 0x7f80_0000
    }

    pub fn is_nan(self) -> (r: bool)
        ensures
            r == self.nan(),
    {
        self.bits % 0x8000_0000 > 0x7f80_0000
    }

    pub fn is_below(self, other: F32) -> (r: bool)
        ensures
            r == self.below(other),
    {
        if self.is_nan() || other.is_nan() {
            false
        } else if self.bits < 0x8000_0000 {
            other.bits < 0x8000_0000 && self.bits < other.bits
        } else if other.bits < 0x8000_0000 {
            self.bits != 0x8000_0000 || other.bits != 0
        } else {
            other.bits < self.bits
        }
    }
}

/// Nothing is below itself.
pub proof fn law_below_is_irreflexive(a: F32)
    ensures
        !a.below(a),
{
}

/// Two numbers that are not NaN compare one way, the other way, or equal.
pub proof fn law_below_is_total(a: F32, b: F32)
    requires
        !a.nan(),
        !b.nan(),
    ensures
        a.below(b) || b.below(a) || a.rank() == b.rank(),
        !(a.below(b) && b.below(a)),
{
}

/// Numbers without a sign are ordered as their bits, changing both signs turns
/// the order round, what has a sign is below what has none, and the two zeros
/// are equal.
pub proof fn law_numbers_are_ordered_by_sign_and_bits(a: u32, b: u32)
    requires
        a <= 0x7f80_0000,
        b <= 0x7f80_0000,
    ensures
        ({
            let (pa, pb) = (F32 { bits: a }, F32 { bits: b });
            let (na, nb) = (
                F32 { bits: (a + 0x8000_0000) as u32 },
                F32 { bits: (b + 0x8000_0000) as u32 },
            );
            &&& pa.below(pb) <==> a < b
            &&& nb.below(na) <==> a < b
            &&& na.below(pb) <==> a > 0 || b > 0
            &&& !pa.below(nb)
            &&& pa.within(pb) <==> a <= b
            &&& nb.within(na) <==> a <= b
            &&& na.within(pb)
            &&& pa.within(nb) <==> a == 0 && b == 0
        }),
{
}

/// A number is finite unless all eight exponent bits are set. Then it is an
/// infinity where the fraction is zero and a NaN where it is not, and a NaN is
/// neither below nor above anything.
pub proof fn law_exponents_tell_numbers_apart(a: F32, b: F32)
    ensures
        a.finite() <==> a.bits as int / 0x80_0000 % 256 != 255,
        a.nan() <==> a.bits as int / 0x80_0000 % 256 == 255 && a.bits as int % 0x80_0000 != 0,
        a.nan() ==> !a.below(b) && !b.below(a) && !a.within(b) && !b.within(a),
{
}

} // verus!
