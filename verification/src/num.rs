//! The fixed-point value type: an integer with an implied binary point.

use vstd::prelude::*;

verus! {

/// A fixed-point number: the integer `bits` scaled by `2^-FRAC`.
#[derive(Clone, Copy, Debug, Hash, PartialEq, Eq)]
pub struct Fixed<Bits, const FRAC: u32> {
    pub(crate) bits: Bits,
}

impl<const FRAC: u32> Default for Fixed<i32, FRAC> {
    /// The zero value.
    fn default() -> (r: Fixed<i32, FRAC>)
        ensures
            r.spec_bits() == 0,
    {
        Fixed { bits: 0 }
    }
}

impl<const FRAC: u32> Default for Fixed<u32, FRAC> {
    /// The zero value.
    fn default() -> (r: Fixed<u32, FRAC>)
        ensures
            r.spec_bits() == 0,
    {
        Fixed { bits: 0 }
    }
}

impl<Bits: Copy, const FRAC: u32> Fixed<Bits, FRAC> {
    /// The underlying bit pattern of this number, as a mathematical value.
    pub closed spec fn spec_bits(self) -> Bits {
        self.bits
    }

    /// Creates a fixed-point number with the given underlying bit pattern.
    pub fn from_bits(bits: Bits) -> (r: Fixed<Bits, FRAC>)
        ensures
            r.spec_bits() == bits,
    {
        Fixed { bits }
    }

    /// The underlying bit pattern of this number.
    pub fn to_bits(self) -> (r: Bits)
        ensures
            r == self.spec_bits(),
    {
        self.bits
    }
}

} // verus!
