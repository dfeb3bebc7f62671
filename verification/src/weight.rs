use vstd::prelude::*;
use crate::types::score_key_of_bits;

verus! {

/// Order-preserving key of a half-precision bit pattern, by the same map as
/// for single precision, scaled to sixteen bits.
pub open spec fn half_key_of_bits(bits: u16) -> u16 {
    if bits >= 0x8000 {
        !bits
    } else {
        (bits + 0x8000) as u16
    }
}

/// A numeric weight stored in a posting list.
///
/// A weight is a copyable scalar with a total order given by an integer key,
/// and a negative-infinity sentinel below every stored value. Stored weights
/// must be numbers (the not-a-number patterns are contractually forbidden),
/// so the key order agrees with the numeric order of the encoded values.
pub trait Weight: Sized + Copy {
    /// Rank of this weight in the total order on its precision's values.
    spec fn key(self) -> u32;

    /// The negative-infinity sentinel.
    spec fn spec_neg_infinity() -> Self;

    /// Returns the negative-infinity sentinel, used as the default
    /// `max_next_weight` where that hint is not maintained.
    fn neg_infinity() -> (r: Self)
        ensures
            r == Self::spec_neg_infinity(),
    ;

    /// The higher-ranked of the two weights: one of them, at least both.
    fn max(self, other: Self) -> (r: Self)
        ensures
            r == (if self.key() > other.key() {
                self
            } else {
                other
            }),
            r == self || r == other,
            r.key() >= self.key() && r.key() >= other.key(),
    ;
}

/// A single-precision weight, held as its bit pattern.
#[derive(Clone, Copy, Debug, PartialEq, Eq, Structural)]
pub struct SingleWeight {
    pub bits: u32,
}

/// A half-precision weight, held as its bit pattern.
#[derive(Clone, Copy, Debug, PartialEq, Eq, Structural)]
pub struct HalfWeight {
    pub bits: u16,
}

/// The weight type used where one precision has to be fixed.
pub type DimWeight = SingleWeight;

impl SingleWeight {
    /// The weight with the given single-precision bit pattern.
    pub fn from_bits(bits: u32) -> (r: Self)
        ensures
            r.bits == bits,
    {
        SingleWeight { bits }
    }

    /// The bit pattern of this weight.
    pub fn to_bits(self) -> (r: u32)
        ensures
            r == self.bits,
    {
        self.bits
    }
}

impl Weight for SingleWeight {
    open spec fn key(self) -> u32 {
        score_key_of_bits(self.bits)
    }

    open spec fn spec_neg_infinity() -> Self {
        SingleWeight { bits: 0xFF80_0000 }
    }

    fn neg_infinity() -> (r: Self) {
        SingleWeight { bits: 0xFF80_0000 }
    }

    fn max(self, other: Self) -> (r: Self) {
        let a = if self.bits >= 0x8000_0000 {
            !self.bits
        } else {
            self.bits + 0x8000_0000
        };
        let b = if other.bits >= 0x8000_0000 {
            !other.bits
        } else {
            other.bits + 0x8000_0000
        };
        if a > b {
            self
        } else {
            other
        }
    }
}

impl HalfWeight {
    /// The weight with the given half-precision bit pattern.
    pub fn from_bits(bits: u16) -> (r: Self)
        ensures
            r.bits == bits,
    {
        HalfWeight { bits }
    }

    /// The bit pattern of this weight.
    pub fn to_bits(self) -> (r: u16)
        ensures
            r == self.bits,
    {
        self.bits
    }
}

impl Weight for HalfWeight {
    open spec fn key(self) -> u32 {
        half_key_of_bits(self.bits) as u32
    }

    open spec fn spec_neg_infinity() -> Self {
        HalfWeight { bits: 0xFC00 }
    }

    fn neg_infinity() -> (r: Self) {
        HalfWeight { bits: 0xFC00 }
    }

    fn max(self, other: Self) -> (r: Self) {
        let a = if self.bits >= 0x8000 {
            !self.bits
        } else {
            self.bits + 0x8000
        };
        let b = if other.bits >= 0x8000 {
            !other.bits
        } else {
            other.bits + 0x8000
        };
        if a > b {
            self
        } else {
            other
        }
    }
}

} // verus!
