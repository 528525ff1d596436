//! Outcome of a single-qubit measurement.
use vstd::prelude::*;

verus! {

/// A measured bit together with whether it was drawn at random.
///
/// `byte` is `0` or `1` for a determined outcome and `2` or `3` for a random
/// one; its low bit is the measured value.
#[derive(Clone, Copy, Debug, PartialEq, Eq, Structural)]
pub struct Measurement {
    pub byte: u8,
}

impl Measurement {
    pub open spec fn fixed_of(bit: bool) -> Measurement {
        Measurement { byte: if bit { 1 } else { 0 } }
    }

    pub open spec fn random_of(bit: bool) -> Measurement {
        Measurement { byte: if bit { 3 } else { 2 } }
    }

    pub fn new(byte: u8) -> (m: Measurement)
        ensures
            m.byte == byte,
    {
        Measurement { byte }
    }

    /// A determined outcome.
    pub fn fixed(bit: bool) -> (m: Measurement)
        ensures
            m == Measurement::fixed_of(bit),
    {
        Measurement::new(if bit { 1 } else { 0 })
    }

    /// An outcome drawn at random.
    pub fn random(bit: bool) -> (m: Measurement)
        ensures
            m == Measurement::random_of(bit),
    {
        Measurement::new(if bit { 3 } else { 2 })
    }

    pub fn is_zero(self) -> (r: bool)
        ensures
            r == (self.byte == 0 || self.byte == 2),
    {
        self.byte == 0 || self.byte == 2
    }

    pub fn is_one(self) -> (r: bool)
        ensures
            r == (self.byte == 1 || self.byte == 3),
    {
        self.byte == 1 || self.byte == 3
    }

    pub fn is_random(self) -> (r: bool)
        ensures
            r == (self.byte >= 2),
    {
        self.byte >= 2
    }
}

} // verus!
