//! What a storage backend can do.

use vstd::prelude::*;

verus! {

/// One capability exposed by a storage backend.
#[derive(Debug, Clone, Copy, PartialEq, Eq, Structural)]
pub enum BackendCapability {
    /// Multiple bucket reads can be completed as one backend operation.
    BatchRead,
    /// Multiple records can be committed as one backend operation.
    BatchWrite,
    /// Indexed keys can be deleted without rebuilding the complete index.
    Delete,
    /// The backend exposes an explicit completion barrier.
    Flush,
    /// Index-owned data can expire after a configured retention period.
    Ttl,
    /// The backend exposes an operational health probe.
    Health,
    /// The backend is shared outside the current process.
    Remote,
}

impl BackendCapability {
    /// The bit that stands for the capability.
    pub open spec fn bit(self) -> u8 {
        match self {
            BackendCapability::BatchRead => 1,
            BackendCapability::BatchWrite => 2,
            BackendCapability::Delete => 4,
            BackendCapability::Flush => 8,
            BackendCapability::Ttl => 16,
            BackendCapability::Health => 32,
            BackendCapability::Remote => 64,
        }
    }

    fn flag(self) -> (bit: u8)
        ensures
            bit == self.bit(),
    {
        match self {
            BackendCapability::BatchRead => 1,
            BackendCapability::BatchWrite => 2,
            BackendCapability::Delete => 4,
            BackendCapability::Flush => 8,
            BackendCapability::Ttl => 16,
            BackendCapability::Health => 32,
            BackendCapability::Remote => 64,
        }
    }
}

/// Compact set of backend capabilities.
#[derive(Debug, Clone, Copy, PartialEq, Eq, Structural)]
pub struct BackendCapabilities {
    mask: u8,
}

/// The mask holds the bit.
spec fn holds(mask: u8, bit: u8) -> bool {
    mask & bit != 0
}

proof fn lemma_bits(mask: u8, left: BackendCapability, right: BackendCapability)
    ensures
        holds(mask | left.bit(), right.bit()) == (left == right || holds(mask, right.bit())),
        !holds(0, right.bit()),
{
    let f = left.bit();
    let g = right.bit();
    assert(((mask | f) & g != 0) == (f & g != 0 || mask & g != 0)) by (bit_vector);
    assert(0u8 & g == 0) by (bit_vector);
    assert(left == right <==> f == g);
    assert((f == 1 || f == 2 || f == 4 || f == 8 || f == 16 || f == 32 || f == 64) && (g == 1 || g
        == 2 || g == 4 || g == 8 || g == 16 || g == 32 || g == 64) ==> ((f & g != 0) == (f == g)))
        by (bit_vector);
}

impl BackendCapabilities {
    /// The set holds the capability.
    pub closed spec fn has(self, capability: BackendCapability) -> bool {
        holds(self.mask, capability.bit())
    }

    /// The empty set.
    pub fn empty() -> (set: BackendCapabilities)
        ensures
            forall|capability: BackendCapability| !#[trigger] set.has(capability),
    {
        proof {
            assert forall|capability: BackendCapability| !holds(0, #[trigger] capability.bit()) by {
                lemma_bits(0, capability, capability);
            }
        }
        BackendCapabilities { mask: 0 }
    }

    /// The set with one more capability.
    pub fn with(self, capability: BackendCapability) -> (set: BackendCapabilities)
        ensures
            forall|other: BackendCapability| #[trigger]
                set.has(other) == (other == capability || self.has(other)),
    {
        proof {
            assert forall|other: BackendCapability|
                holds(self.mask | capability.bit(), #[trigger] other.bit()) == (other
                    == capability || holds(self.mask, other.bit())) by {
                lemma_bits(self.mask, capability, other);
            }
        }
        BackendCapabilities { mask: self.mask | capability.flag() }
    }

    /// Whether the set holds the capability.
    pub fn supports(self, capability: BackendCapability) -> (supported: bool)
        ensures
            supported == self.has(capability),
    {
        self.mask & capability.flag() != 0
    }

    /// The capabilities of the in-process backend.
    pub fn memory() -> (set: BackendCapabilities)
        ensures
            forall|capability: BackendCapability| #[trigger]
                set.has(capability) == !(capability == BackendCapability::Ttl || capability
                    == BackendCapability::Remote),
    {
        BackendCapabilities::empty().with(BackendCapability::BatchRead).with(
            BackendCapability::BatchWrite,
        ).with(BackendCapability::Delete).with(BackendCapability::Flush).with(
            BackendCapability::Health,
        )
    }

    /// The capabilities of the Redis backend.
    pub fn redis() -> (set: BackendCapabilities)
        ensures
            forall|capability: BackendCapability| #[trigger] set.has(capability),
    {
        BackendCapabilities::memory().with(BackendCapability::Ttl).with(BackendCapability::Remote)
    }
}

} // verus!
