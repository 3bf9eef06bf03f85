//! Errors of storage backends.

use vstd::prelude::*;

use crate::backend::capability::BackendCapability;
use crate::format::codec::CodecError;
use crate::index::params::LshError;

verus! {

/// What is wrong with data that a backend returned.
#[derive(Debug, Clone, Copy, PartialEq, Eq, Structural)]
pub enum Corruption {
    /// The number of bucket rows differs from the number of requested buckets.
    BucketRows { returned: usize, requested: usize },
    /// The number of answers differs from the number of keys.
    ContainsResults { returned: usize, requested: usize },
    /// The number of band hashes of an item differs from the number of bands.
    BandHashes { found: usize, expected: usize },
    /// A descriptor has the wrong size.
    DescriptorSize { found: usize },
    /// A descriptor begins with the wrong bytes.
    DescriptorMagic,
    /// A duplicate was reported at a position outside the batch.
    DuplicatePosition,
    /// A membership record was rejected as malformed.
    MalformedRecord,
    /// The insertion returned an unknown status.
    InsertStatus { code: i64 },
    /// The number of result rows differs from the number of requested buckets.
    ResultRows,
    /// A record has a size that no number of memberships has.
    RecordWidth,
    /// The deletion returned an unknown status.
    DeleteStatus { code: i64 },
    /// The completion barrier was answered in an unexpected way.
    FlushResponse,
    /// A bucket member has the wrong size.
    MemberSize { found: usize },
    /// A bucket member belongs to another bucket.
    MemberPrefix,
}

/// Errors produced by storage backends.
#[derive(Debug, Clone, PartialEq, Eq)]
pub enum BackendError {
    /// The backend namespace already owns index data.
    AlreadyExists,
    /// No initialized index exists in the backend namespace.
    NotFound,
    /// A key already exists or appears more than once in one insertion batch.
    DuplicateKey { key: u64 },
    /// The backend cannot provide the requested capability.
    UnsupportedCapability { capability: BackendCapability },
    /// Retention must be a supported whole number of seconds.
    InvalidRetention,
    /// A persisted index descriptor failed semantic validation.
    InvalidDescriptor { error: LshError },
    /// A backend namespace failed validation.
    InvalidNamespace { reason: &'static str },
    /// Backend data failed bounded decoding or structural validation.
    CorruptData { reason: Corruption },
    /// A length does not fit the type that holds it.
    LengthOverflow,
    /// A key codec rejected backend data.
    Codec(CodecError),
    /// A remote operation failed. URLs and credentials are never part of it.
    Transport { operation: &'static str, message: String },
}

/// Errors returned by an index over a storage backend.
#[derive(Debug, Clone, PartialEq, Eq)]
pub enum BackendIndexError {
    /// LSH or `MinHash` compatibility validation failed.
    Index(LshError),
    /// The selected storage backend failed.
    Backend(BackendError),
}

} // verus!
