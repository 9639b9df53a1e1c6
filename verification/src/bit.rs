use vstd::prelude::*;

verus! {

/// A single binary digit of an encoded stream.
#[derive(Copy, Clone, PartialEq, Eq, Structural, Debug)]
pub enum Bit {
    Zero,
    One,
}

impl Bit {
    /// The bit of opposite polarity: flushed after a lead bit to resolve
    /// deferred follow bits.
    pub open spec fn spec_opposite(self) -> Bit {
        match self {
            Bit::Zero => Bit::One,
            Bit::One => Bit::Zero,
        }
    }
}

} // verus!
