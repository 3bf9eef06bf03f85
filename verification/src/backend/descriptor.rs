//! The configuration that a backend keeps for an index.
//!
//! The persisted form of a descriptor has 56 bytes; all numbers are
//! little-endian and have eight bytes.
//!
//! | offset | field |
//! |-------:|-------|
//! | 0 | the magic bytes `PARIBK01` |
//! | 8 | threshold, as the bit pattern of a double |
//! | 16 | number of permutations |
//! | 24 | permutation seed |
//! | 32 | bands |
//! | 40 | rows |
//! | 48 | retention in seconds; all bits set where there is none |

use vstd::prelude::*;

use crate::backend::error::{BackendError, Corruption};
use crate::index::lsh::LshIndex32;
use crate::index::params;
use crate::index::params::LshParams;
use crate::le;
use crate::threshold::Threshold;

verus! {

/// The magic bytes `PARIBK01`, read as one little-endian number.
pub const DESCRIPTOR_MAGIC: u64 = 0x3130_4B42_4952_4150;

/// The size of a persisted descriptor in bytes.
pub const DESCRIPTOR_BYTES: usize = 56;

/// What stands for the absence of a retention period.
pub const NO_RETENTION: u64 = 0xFFFF_FFFF_FFFF_FFFF;

/// The longest retention period in seconds: the largest number up to which a
/// double holds every whole number.
pub const MAX_RETENTION_SECONDS: u64 = 9_007_199_254_740_991;

/// A span of time.
#[derive(Debug, Clone, Copy, PartialEq, Eq, Structural)]
pub struct Retention {
    /// Whole seconds.
    pub seconds: u64,
    /// The rest in nanoseconds.
    pub nanos: u32,
}

impl Retention {
    /// The span can be used as a retention period: it is a whole number of
    /// seconds from one up to the limit.
    pub open spec fn valid(self) -> bool {
        1 <= self.seconds <= MAX_RETENTION_SECONDS && self.nanos == 0
    }

    /// A span of whole seconds.
    pub fn from_secs(seconds: u64) -> (span: Retention)
        ensures
            span == (Retention { seconds, nanos: 0 }),
    {
        Retention { seconds, nanos: 0 }
    }

    /// A span of seconds and nanoseconds.
    pub fn new(seconds: u64, nanos: u32) -> (span: Retention)
        ensures
            span == (Retention { seconds, nanos }),
    {
        Retention { seconds, nanos }
    }

    /// Whole seconds.
    pub fn as_secs(self) -> (seconds: u64)
        ensures
            seconds == self.seconds,
    {
        self.seconds
    }
}

/// What a descriptor says.
pub struct Descriptor {
    /// The similarity threshold.
    pub threshold: Threshold,
    /// The length of a signature.
    pub num_perm: usize,
    /// The permutation seed.
    pub seed: u64,
    /// The bands and rows.
    pub params: LshParams,
    /// The retention period of the namespace.
    pub retention: Option<Retention>,
}

impl Descriptor {
    /// Why a descriptor cannot be used, if it cannot.
    pub open spec fn error(self) -> Option<BackendError> {
        if self.retention is Some && !self.retention->0.valid() {
            Some(BackendError::InvalidRetention)
        } else {
            match params::configuration_error(self.threshold, self.num_perm, self.params) {
                Some(error) => Some(BackendError::InvalidDescriptor { error }),
                None => None,
            }
        }
    }

    /// The descriptor can be used.
    pub open spec fn valid(self) -> bool {
        self.error() is None
    }

    /// The bands and rows of the descriptor can be used.
    pub open spec fn banded(self) -> bool {
        params::configuration_error(self.threshold, self.num_perm, self.params) is None
    }
}

/// Stable configuration shared by every backend for one index namespace.
#[derive(Debug, Clone, Copy, PartialEq, Eq)]
pub struct IndexDescriptor {
    threshold: Threshold,
    num_perm: usize,
    seed: u64,
    params: LshParams,
    retention: Option<Retention>,
}

impl View for IndexDescriptor {
    type V = Descriptor;

    closed spec fn view(&self) -> Descriptor {
        Descriptor {
            threshold: self.threshold,
            num_perm: self.num_perm,
            seed: self.seed,
            params: self.params,
            retention: self.retention,
        }
    }
}

impl IndexDescriptor {
    /// The descriptor can be used.
    pub open spec fn wf(&self) -> bool {
        self@.valid()
    }

    /// Check and hold an index descriptor.
    ///
    /// Backends that persist their own metadata rebuild the descriptor that
    /// they return with this constructor.
    pub fn new(
        threshold: Threshold,
        num_perm: usize,
        seed: u64,
        params: LshParams,
        retention: Option<Retention>,
    ) -> (result: Result<IndexDescriptor, BackendError>)
        ensures
            ({
                let given = Descriptor { threshold, num_perm, seed, params, retention };
                match given.error() {
                    Some(error) => result == Err::<IndexDescriptor, BackendError>(error),
                    None => result matches Ok(descriptor) && descriptor@ == given
                        && descriptor.wf(),
                }
            }),
    {
        match retention {
            Some(span) => {
                if span.seconds == 0 || span.nanos != 0 || span.seconds > MAX_RETENTION_SECONDS {
                    return Err(BackendError::InvalidRetention);
                }
            },
            None => {},
        }
        match LshIndex32::with_params(threshold, num_perm, seed, params) {
            Ok(_) => {},
            Err(error) => {
                return Err(BackendError::InvalidDescriptor { error });
            },
        }
        Ok(IndexDescriptor { threshold, num_perm, seed, params, retention })
    }

    /// The target Jaccard threshold used to tune the index.
    pub fn threshold(&self) -> (threshold: Threshold)
        ensures
            threshold == self@.threshold,
    {
        self.threshold
    }

    /// The required signature length.
    pub fn num_perm(&self) -> (num_perm: usize)
        ensures
            num_perm == self@.num_perm,
    {
        self.num_perm
    }

    /// The required `MinHash` seed.
    pub fn seed(&self) -> (seed: u64)
        ensures
            seed == self@.seed,
    {
        self.seed
    }

    /// The LSH banding parameters.
    pub fn params(&self) -> (params: LshParams)
        ensures
            params == self@.params,
    {
        self.params
    }

    /// The retention period of the namespace, if there is one.
    pub fn retention(&self) -> (retention: Option<Retention>)
        ensures
            retention == self@.retention,
    {
        self.retention
    }
}

/// The number that stands for a retention period.
pub open spec fn retention_number(retention: Option<Retention>) -> u64 {
    match retention {
        Some(span) => span.seconds,
        None => NO_RETENTION,
    }
}

/// The persisted form of a descriptor.
pub open spec fn descriptor_bytes(descriptor: Descriptor) -> Seq<u8> {
    le::bytes(DESCRIPTOR_MAGIC as nat, 8) + le::bytes(descriptor.threshold.bits as nat, 8)
        + le::bytes(descriptor.num_perm as nat, 8) + le::bytes(descriptor.seed as nat, 8)
        + le::bytes(descriptor.params.bands as nat, 8) + le::bytes(
        descriptor.params.rows as nat,
        8,
    ) + le::bytes(retention_number(descriptor.retention) as nat, 8)
}

/// The descriptor that a byte string holds, or the error in it.
pub open spec fn decoded(bytes: Seq<u8>) -> Result<Descriptor, BackendError> {
    let retention = le::u64_at(bytes, 48);
    if bytes.len() != DESCRIPTOR_BYTES {
        Err(
            BackendError::CorruptData {
                reason: Corruption::DescriptorSize { found: bytes.len() as usize },
            },
        )
    } else if le::u64_at(bytes, 0) != DESCRIPTOR_MAGIC {
        Err(BackendError::CorruptData { reason: Corruption::DescriptorMagic })
    } else if le::u64_at(bytes, 16) > usize::MAX || le::u64_at(bytes, 32) > usize::MAX
        || le::u64_at(bytes, 40) > usize::MAX {
        Err(BackendError::LengthOverflow)
    } else if retention == 0 {
        Err(BackendError::InvalidRetention)
    } else {
        let found = Descriptor {
            threshold: Threshold { bits: le::u64_at(bytes, 8) },
            num_perm: le::u64_at(bytes, 16) as usize,
            seed: le::u64_at(bytes, 24),
            params: LshParams {
                bands: le::u64_at(bytes, 32) as usize,
                rows: le::u64_at(bytes, 40) as usize,
            },
            retention: if retention == NO_RETENTION {
                None
            } else {
                Some(Retention { seconds: retention, nanos: 0 })
            },
        };
        match found.error() {
            Some(error) => Err(error),
            None => Ok(found),
        }
    }
}

/// Encode a descriptor.
pub fn encode_descriptor(descriptor: &IndexDescriptor) -> (bytes: Vec<u8>)
    ensures
        bytes@ == descriptor_bytes(descriptor@),
{
    let mut bytes: Vec<u8> = Vec::with_capacity(DESCRIPTOR_BYTES);
    le::push_u64(&mut bytes, DESCRIPTOR_MAGIC);
    assert(bytes@ =~= le::bytes(DESCRIPTOR_MAGIC as nat, 8));
    le::push_u64(&mut bytes, descriptor.threshold.to_bits());
    le::push_u64(&mut bytes, descriptor.num_perm as u64);
    le::push_u64(&mut bytes, descriptor.seed);
    le::push_u64(&mut bytes, descriptor.params.bands as u64);
    le::push_u64(&mut bytes, descriptor.params.rows as u64);
    let retention: u64 = match descriptor.retention {
        Some(span) => span.seconds,
        None => NO_RETENTION,
    };
    le::push_u64(&mut bytes, retention);
    bytes
}

/// Decode a descriptor.
pub fn decode_descriptor(bytes: &[u8]) -> (result: Result<IndexDescriptor, BackendError>)
    ensures
        match decoded(bytes@) {
            Err(error) => result == Err::<IndexDescriptor, BackendError>(error),
            Ok(found) => result matches Ok(descriptor) && descriptor@ == found && descriptor.wf(),
        },
{
    if bytes.len() != DESCRIPTOR_BYTES {
        return Err(
            BackendError::CorruptData {
                reason: Corruption::DescriptorSize { found: bytes.len() },
            },
        );
    }
    if le::read_u64(bytes, 0) != DESCRIPTOR_MAGIC {
        return Err(BackendError::CorruptData { reason: Corruption::DescriptorMagic });
    }
    let num_perm: u64 = le::read_u64(bytes, 16);
    let bands: u64 = le::read_u64(bytes, 32);
    let rows: u64 = le::read_u64(bytes, 40);
    if num_perm > usize::MAX as u64 || bands > usize::MAX as u64 || rows > usize::MAX as u64 {
        return Err(BackendError::LengthOverflow);
    }
    let seconds: u64 = le::read_u64(bytes, 48);
    if seconds == 0 {
        return Err(BackendError::InvalidRetention);
    }
    let retention = if seconds == NO_RETENTION {
        None
    } else {
        Some(Retention::from_secs(seconds))
    };
    IndexDescriptor::new(
        Threshold::from_bits(le::read_u64(bytes, 8)),
        num_perm as usize,
        le::read_u64(bytes, 24),
        LshParams::new(bands as usize, rows as usize),
        retention,
    )
}

/// Decoding an encoded descriptor gives the descriptor back.
pub proof fn law_descriptor_round_trip(descriptor: Descriptor)
    requires
        descriptor.valid(),
    ensures
        decoded(descriptor_bytes(descriptor)) == Ok::<Descriptor, BackendError>(descriptor),
{
    broadcast use le::lemma_bytes_len;

    let bytes = descriptor_bytes(descriptor);
    let retention = retention_number(descriptor.retention) as nat;
    le::lemma_pow256_values();
    le::lemma_value_of_bytes(DESCRIPTOR_MAGIC as nat, 8);
    le::lemma_value_of_bytes(descriptor.threshold.bits as nat, 8);
    le::lemma_value_of_bytes(descriptor.num_perm as nat, 8);
    le::lemma_value_of_bytes(descriptor.seed as nat, 8);
    le::lemma_value_of_bytes(descriptor.params.bands as nat, 8);
    le::lemma_value_of_bytes(descriptor.params.rows as nat, 8);
    le::lemma_value_of_bytes(retention, 8);
    assert(bytes.subrange(0, 8) =~= le::bytes(DESCRIPTOR_MAGIC as nat, 8));
    assert(bytes.subrange(8, 16) =~= le::bytes(descriptor.threshold.bits as nat, 8));
    assert(bytes.subrange(16, 24) =~= le::bytes(descriptor.num_perm as nat, 8));
    assert(bytes.subrange(24, 32) =~= le::bytes(descriptor.seed as nat, 8));
    assert(bytes.subrange(32, 40) =~= le::bytes(descriptor.params.bands as nat, 8));
    assert(bytes.subrange(40, 48) =~= le::bytes(descriptor.params.rows as nat, 8));
    assert(bytes.subrange(48, 56) =~= le::bytes(retention, 8));
}

/// The number of a retention is its seconds, and a lack of one has a number that no
/// retention has.
pub proof fn law_numbers_of_retentions(left: Option<Retention>, right: Option<Retention>)
    requires
        left matches Some(span) ==> span.seconds < u64::MAX,
        right matches Some(span) ==> span.seconds < u64::MAX,
    ensures
        left matches Some(span) ==> retention_number(left) == span.seconds,
        retention_number(left) == retention_number(right) ==> (left is None) == (right is None),
{
}

} // verus!
