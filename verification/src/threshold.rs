//! Similarity thresholds.

use vstd::prelude::*;

verus! {

/// The bit pattern of the double `1.0`.
pub const ONE_BITS: u64 = 0x3FF0_0000_0000_0000;

/// The bit pattern of the double `0.8`.
pub const EIGHT_TENTHS_BITS: u64 = 0x3FE9_9999_9999_999A;

/// The bit pattern of the double `-0.0`, which equals `0.0`.
pub const MINUS_ZERO_BITS: u64 = 0x8000_0000_0000_0000;

/// A similarity threshold, held as the bit pattern of an IEEE 754 double.
///
/// The bit patterns of the positive finite doubles are ordered as the doubles
/// are, so comparing patterns decides whether a threshold lies in `(0, 1]`.
#[derive(Debug, Clone, Copy, PartialEq, Eq, Structural)]
pub struct Threshold {
    /// The bit pattern.
    pub bits: u64,
}

impl Threshold {
    /// The double is finite and lies in `(0, 1]`.
    pub open spec fn valid(self) -> bool {
        0 < self.bits <= ONE_BITS
    }

    /// The threshold with this bit pattern.
    pub fn from_bits(bits: u64) -> (threshold: Threshold)
        ensures
            threshold.bits == bits,
    {
        Threshold { bits }
    }

    /// The bit pattern of the double.
    pub fn to_bits(self) -> (bits: u64)
        ensures
            bits == self.bits,
    {
        self.bits
    }

    /// Whether the double is finite and lies in `(0, 1]`.
    pub fn is_valid(self) -> (valid: bool)
        ensures
            valid == self.valid(),
    {
        0 < self.bits && self.bits <= ONE_BITS
    }

    /// The double is a similarity: it lies in `[0, 1]`.
    pub open spec fn similarity(self) -> bool {
        self.bits <= ONE_BITS || self.bits == MINUS_ZERO_BITS
    }

    /// Whether the double is a similarity.
    pub fn is_similarity(self) -> (valid: bool)
        ensures
            valid == self.similarity(),
    {
        self.bits <= ONE_BITS || self.bits == MINUS_ZERO_BITS
    }
}

/// A threshold is valid exactly where it is a similarity and not zero, of either sign. Of
/// two positive similarities a threshold between them is one too.
pub proof fn law_which_thresholds_are_valid(threshold: Threshold, larger: Threshold)
    ensures
        threshold.valid() == (threshold.similarity() && threshold.bits != 0 && threshold.bits
            != 0x8000_0000_0000_0000),
        larger.valid() && 0 < threshold.bits <= larger.bits ==> threshold.valid(),
        threshold.valid() ==> threshold.bits <= 0x3FF0_0000_0000_0000,
        threshold.bits == 0x3FF0_0000_0000_0000 ==> threshold.valid(),
{
}

} // verus!
