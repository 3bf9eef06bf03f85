//! Errors in words.
//!
//! What an error says is fixed here, except for the values that only the
//! caller can render: a threshold, and a text in quotes.

use vstd::prelude::*;
use vstd::string::*;

use crate::backend::capability::BackendCapability;
use crate::backend::error::{BackendError, BackendIndexError, Corruption};
use crate::cli::record::RecordError;
use crate::cli::verify::VerifyError;
use crate::format::buckets::BucketError;
use crate::format::codec::CodecError;
use crate::format::error::FormatError;
use crate::format::layout::LayoutError;
use crate::index::grouping::GroupError;
use crate::index::params::LshError;
use crate::index::planner::LshPlanError;
use crate::sketch::MinHashError;
use crate::store::bounded::BuildError;
use crate::store::snapshot::LazyStoreError;
use crate::text;

verus! {

impl MinHashError {
    /// What the error says.
    pub open spec fn text(&self) -> Seq<char> {
        match *self {
            MinHashError::InvalidPermutationCount { requested } =>
                "num_perm must be in 1..=4294967295, got "@ + text::decimal(requested as nat),
            MinHashError::IncompatibleSeed { left, right } => "incompatible MinHash seeds: "@
                + text::decimal(left as nat) + " != "@ + text::decimal(right as nat),
            MinHashError::IncompatiblePermutationCount { left, right } =>
                "incompatible MinHash permutation counts: "@ + text::decimal(left as nat) + " != "@
                + text::decimal(right as nat),
        }
    }

    /// The error in words.
    pub fn message(&self) -> (message: String)
        ensures
            message@ == self.text(),
    {
        match self {
            MinHashError::InvalidPermutationCount { requested } => {
                let mut message = "num_perm must be in 1..=4294967295, got ".to_owned();
                text::push_decimal(&mut message, *requested as u64);
                message
            },
            MinHashError::IncompatibleSeed { left, right } => {
                let mut message = "incompatible MinHash seeds: ".to_owned();
                text::push_decimal(&mut message, *left as u64);
                message.append(" != ");
                text::push_decimal(&mut message, *right as u64);
                message
            },
            MinHashError::IncompatiblePermutationCount { left, right } => {
                let mut message = "incompatible MinHash permutation counts: ".to_owned();
                text::push_decimal(&mut message, *left as u64);
                message.append(" != ");
                text::push_decimal(&mut message, *right as u64);
                message
            },
        }
    }
}

impl LshError {
    /// What the error says, given the rendered threshold of an invalid threshold.
    pub open spec fn text(&self, rendered: Seq<char>) -> Seq<char> {
        match *self {
            LshError::InvalidThreshold { threshold: _ } =>
                "threshold must be finite and in (0, 1], got "@ + rendered,
            LshError::InvalidPermutationCount { requested } =>
                "num_perm must be in 1..=4294967295, got "@ + text::decimal(requested as nat),
            LshError::AutomaticTuningTooLarge { requested, max } =>
                "automatic LSH tuning supports at most "@ + text::decimal(max as nat)
                + " permutations, got "@ + text::decimal(requested as nat)
                + "; use explicit LshParams"@,
            LshError::InvalidParams { bands, rows, num_perm } => "invalid LSH parameters: bands="@
                + text::decimal(bands as nat) + ", rows="@ + text::decimal(rows as nat)
                + ", num_perm="@ + text::decimal(num_perm as nat),
            LshError::IncompatibleSeed { expected, actual } =>
                "incompatible MinHash seed: expected "@ + text::decimal(expected as nat) + ", got "@
                + text::decimal(actual as nat),
            LshError::IncompatiblePermutationCount { expected, actual } =>
                "incompatible MinHash permutation count: expected "@
                + text::decimal(expected as nat) + ", got "@ + text::decimal(actual as nat),
            LshError::DuplicateKey { key } => "key "@ + text::decimal(key as nat)
                + " already exists in the index"@,
            LshError::TooManyItems => "internal LSH item identifier space exhausted"@,
        }
    }

    /// The error in words, given the rendered threshold of an invalid threshold.
    pub fn message(&self, rendered: &str) -> (message: String)
        ensures
            message@ == self.text(rendered@),
    {
        match self {
            LshError::InvalidThreshold { threshold: _ } => {
                let mut message = "threshold must be finite and in (0, 1], got ".to_owned();
                message.append(rendered);
                message
            },
            LshError::InvalidPermutationCount { requested } => {
                let mut message = "num_perm must be in 1..=4294967295, got ".to_owned();
                text::push_decimal(&mut message, *requested as u64);
                message
            },
            LshError::AutomaticTuningTooLarge { requested, max } => {
                let mut message = "automatic LSH tuning supports at most ".to_owned();
                text::push_decimal(&mut message, *max as u64);
                message.append(" permutations, got ");
                text::push_decimal(&mut message, *requested as u64);
                message.append("; use explicit LshParams");
                message
            },
            LshError::InvalidParams { bands, rows, num_perm } => {
                let mut message = "invalid LSH parameters: bands=".to_owned();
                text::push_decimal(&mut message, *bands as u64);
                message.append(", rows=");
                text::push_decimal(&mut message, *rows as u64);
                message.append(", num_perm=");
                text::push_decimal(&mut message, *num_perm as u64);
                message
            },
            LshError::IncompatibleSeed { expected, actual } => {
                let mut message = "incompatible MinHash seed: expected ".to_owned();
                text::push_decimal(&mut message, *expected as u64);
                message.append(", got ");
                text::push_decimal(&mut message, *actual as u64);
                message
            },
            LshError::IncompatiblePermutationCount { expected, actual } => {
                let mut message = "incompatible MinHash permutation count: expected ".to_owned();
                text::push_decimal(&mut message, *expected as u64);
                message.append(", got ");
                text::push_decimal(&mut message, *actual as u64);
                message
            },
            LshError::DuplicateKey { key } => {
                let mut message = "key ".to_owned();
                text::push_decimal(&mut message, *key as u64);
                message.append(" already exists in the index");
                message
            },
            LshError::TooManyItems => "internal LSH item identifier space exhausted".to_owned(),
        }
    }
}

impl GroupError {
    /// What the error says.
    pub open spec fn text(&self) -> Seq<char> {
        match *self {
            GroupError::RepresentativeNotMember { representative } => "representative "@
                + text::decimal(representative as nat) + " is not a member of its duplicate group"@,
        }
    }

    /// The error in words.
    pub fn message(&self) -> (message: String)
        ensures
            message@ == self.text(),
    {
        match self {
            GroupError::RepresentativeNotMember { representative } => {
                let mut message = "representative ".to_owned();
                text::push_decimal(&mut message, *representative as u64);
                message.append(" is not a member of its duplicate group");
                message
            },
        }
    }
}

impl LshPlanError {
    /// What the error says, given the invalid threshold or the quoted storage mode, rendered.
    pub open spec fn text(&self, rendered: Seq<char>) -> Seq<char> {
        match *self {
            LshPlanError::InvalidExpectedItems { expected_items } =>
                "expected item count must be positive, got "@
                + text::decimal(expected_items as nat),
            LshPlanError::InvalidMemoryBudget { bytes } => "memory budget must be positive, got "@
                + text::decimal(bytes as nat) + " bytes"@,
            LshPlanError::InvalidStorageMode { value: _ } => "unknown storage mode "@ + rendered
                + "; expected auto, memory, persistent, lazy, or redis"@,
            LshPlanError::Lsh(error) => error.text(rendered),
            LshPlanError::EstimateOverflow =>
                "planned byte estimate exceeds the supported u64 range"@,
        }
    }

    /// The error in words, given the invalid threshold or the quoted storage mode, rendered.
    pub fn message(&self, rendered: &str) -> (message: String)
        ensures
            message@ == self.text(rendered@),
    {
        match self {
            LshPlanError::InvalidExpectedItems { expected_items } => {
                let mut message = "expected item count must be positive, got ".to_owned();
                text::push_decimal(&mut message, *expected_items as u64);
                message
            },
            LshPlanError::InvalidMemoryBudget { bytes } => {
                let mut message = "memory budget must be positive, got ".to_owned();
                text::push_decimal(&mut message, *bytes as u64);
                message.append(" bytes");
                message
            },
            LshPlanError::InvalidStorageMode { value: _ } => {
                let mut message = "unknown storage mode ".to_owned();
                message.append(rendered);
                message.append("; expected auto, memory, persistent, lazy, or redis");
                message
            },
            LshPlanError::Lsh(error) => error.message(rendered),
            LshPlanError::EstimateOverflow =>
                "planned byte estimate exceeds the supported u64 range".to_owned(),
        }
    }
}

impl FormatError {
    /// What the error says.
    pub open spec fn text(&self) -> Seq<char> {
        match *self {
            FormatError::Truncated { context } => "truncated Pari index while reading "@ + context@,
            FormatError::InvalidMagic => "invalid Pari index magic"@,
            FormatError::UnsupportedVersion { found } => "unsupported Pari index format version "@
                + text::decimal(found as nat),
            FormatError::InvalidHeaderSize { found } => "invalid version-1 header size "@
                + text::decimal(found as nat),
            FormatError::InvalidReservedBytes => "reserved version-1 header bytes must be zero"@,
            FormatError::HeaderChecksumMismatch { expected, actual } =>
                "header checksum mismatch: stored 0x"@ + text::hex(expected as nat, 8)
                + ", computed 0x"@ + text::hex(actual as nat, 8),
            FormatError::UnsupportedAlgorithm { value } => "unsupported algorithm identifier "@
                + text::decimal(value as nat),
            FormatError::UnsupportedSignatureScheme { value } =>
                "unsupported signature scheme identifier "@ + text::decimal(value as nat),
            FormatError::SignatureWidthMismatch { expected, actual } =>
                "signature width mismatch: scheme requires "@ + text::decimal(expected as nat)
                + ", header stores "@ + text::decimal(actual as nat),
            FormatError::UnsupportedCodec { value } => "unsupported key codec identifier "@
                + text::decimal(value as nat),
            FormatError::InvalidMetadata { reason } => "invalid index metadata: "@ + reason@,
            FormatError::UnsupportedFeatures { flags } => "unsupported required feature flags 0x"@
                + text::hex(flags as nat, 16),
            FormatError::TooManySections { count, max } => "index declares "@
                + text::decimal(count as nat) + " sections; maximum is "@
                + text::decimal(max as nat),
            FormatError::SectionTooLarge { length } => "section payload is "@
                + text::decimal(length as nat)
                + " bytes; version-1 in-memory maximum is 268435456"@,
            FormatError::InvalidSectionFlags { flags } => "unknown section flag bits 0x"@
                + text::hex(flags as nat, 4),
            FormatError::UnknownRequiredSection { kind } => "unknown required section kind "@
                + text::decimal(kind as nat),
            FormatError::SectionChecksumMismatch { expected, actual } =>
                "section checksum mismatch: stored 0x"@ + text::hex(expected as nat, 8)
                + ", computed 0x"@ + text::hex(actual as nat, 8),
            FormatError::LengthOverflow => "index length arithmetic overflowed"@,
            FormatError::TrailingBytes { remaining } => text::decimal(remaining as nat)
                + " trailing bytes after declared sections"@,
        }
    }

    /// The error in words.
    pub fn message(&self) -> (message: String)
        ensures
            message@ == self.text(),
    {
        match self {
            FormatError::Truncated { context } => {
                let mut message = "truncated Pari index while reading ".to_owned();
                message.append(context);
                message
            },
            FormatError::InvalidMagic => "invalid Pari index magic".to_owned(),
            FormatError::UnsupportedVersion { found } => {
                let mut message = "unsupported Pari index format version ".to_owned();
                text::push_decimal(&mut message, *found as u64);
                message
            },
            FormatError::InvalidHeaderSize { found } => {
                let mut message = "invalid version-1 header size ".to_owned();
                text::push_decimal(&mut message, *found as u64);
                message
            },
            FormatError::InvalidReservedBytes =>
                "reserved version-1 header bytes must be zero".to_owned(),
            FormatError::HeaderChecksumMismatch { expected, actual } => {
                let mut message = "header checksum mismatch: stored 0x".to_owned();
                text::push_hex(&mut message, *expected as u64, 8);
                message.append(", computed 0x");
                text::push_hex(&mut message, *actual as u64, 8);
                message
            },
            FormatError::UnsupportedAlgorithm { value } => {
                let mut message = "unsupported algorithm identifier ".to_owned();
                text::push_decimal(&mut message, *value as u64);
                message
            },
            FormatError::UnsupportedSignatureScheme { value } => {
                let mut message = "unsupported signature scheme identifier ".to_owned();
                text::push_decimal(&mut message, *value as u64);
                message
            },
            FormatError::SignatureWidthMismatch { expected, actual } => {
                let mut message = "signature width mismatch: scheme requires ".to_owned();
                text::push_decimal(&mut message, *expected as u64);
                message.append(", header stores ");
                text::push_decimal(&mut message, *actual as u64);
                message
            },
            FormatError::UnsupportedCodec { value } => {
                let mut message = "unsupported key codec identifier ".to_owned();
                text::push_decimal(&mut message, *value as u64);
                message
            },
            FormatError::InvalidMetadata { reason } => {
                let mut message = "invalid index metadata: ".to_owned();
                message.append(reason);
                message
            },
            FormatError::UnsupportedFeatures { flags } => {
                let mut message = "unsupported required feature flags 0x".to_owned();
                text::push_hex(&mut message, *flags as u64, 16);
                message
            },
            FormatError::TooManySections { count, max } => {
                let mut message = "index declares ".to_owned();
                text::push_decimal(&mut message, *count as u64);
                message.append(" sections; maximum is ");
                text::push_decimal(&mut message, *max as u64);
                message
            },
            FormatError::SectionTooLarge { length } => {
                let mut message = "section payload is ".to_owned();
                text::push_decimal(&mut message, *length as u64);
                message.append(" bytes; version-1 in-memory maximum is 268435456");
                message
            },
            FormatError::InvalidSectionFlags { flags } => {
                let mut message = "unknown section flag bits 0x".to_owned();
                text::push_hex(&mut message, *flags as u64, 4);
                message
            },
            FormatError::UnknownRequiredSection { kind } => {
                let mut message = "unknown required section kind ".to_owned();
                text::push_decimal(&mut message, *kind as u64);
                message
            },
            FormatError::SectionChecksumMismatch { expected, actual } => {
                let mut message = "section checksum mismatch: stored 0x".to_owned();
                text::push_hex(&mut message, *expected as u64, 8);
                message.append(", computed 0x");
                text::push_hex(&mut message, *actual as u64, 8);
                message
            },
            FormatError::LengthOverflow => "index length arithmetic overflowed".to_owned(),
            FormatError::TrailingBytes { remaining } => {
                let mut message = String::new();
                text::push_decimal(&mut message, *remaining as u64);
                message.append(" trailing bytes after declared sections");
                message
            },
        }
    }
}

impl LayoutError {
    /// What the error says.
    pub open spec fn text(&self) -> Seq<char> {
        match *self {
            LayoutError::Format(error) => error.text(),
            LayoutError::RangeOutOfBounds { offset, length, section_length } =>
                "section range offset "@ + text::decimal(offset as nat) + " with length "@
                + text::decimal(length as nat) + " exceeds payload length "@
                + text::decimal(section_length as nat),
        }
    }

    /// The error in words.
    pub fn message(&self) -> (message: String)
        ensures
            message@ == self.text(),
    {
        match self {
            LayoutError::Format(error) => error.message(),
            LayoutError::RangeOutOfBounds { offset, length, section_length } => {
                let mut message = "section range offset ".to_owned();
                text::push_decimal(&mut message, *offset as u64);
                message.append(" with length ");
                text::push_decimal(&mut message, *length as u64);
                message.append(" exceeds payload length ");
                text::push_decimal(&mut message, *section_length as u64);
                message
            },
        }
    }
}

impl BucketError {
    /// What the error says.
    pub open spec fn text(&self) -> Seq<char> {
        match *self {
            BucketError::Layout(error) => error.text(),
            BucketError::Invalid { reason } => "invalid bucket segment: "@ + reason@,
            BucketError::DirectoryChecksumMismatch { expected, actual } =>
                "bucket directory checksum mismatch: stored 0x"@ + text::hex(expected as nat, 8)
                + ", computed 0x"@ + text::hex(actual as nat, 8),
            BucketError::MemberChecksumMismatch { expected, actual } =>
                "bucket member checksum mismatch: stored 0x"@ + text::hex(expected as nat, 8)
                + ", computed 0x"@ + text::hex(actual as nat, 8),
            BucketError::LengthOverflow => "bucket segment length arithmetic overflowed"@,
        }
    }

    /// The error in words.
    pub fn message(&self) -> (message: String)
        ensures
            message@ == self.text(),
    {
        match self {
            BucketError::Layout(error) => error.message(),
            BucketError::Invalid { reason } => {
                let mut message = "invalid bucket segment: ".to_owned();
                message.append(reason);
                message
            },
            BucketError::DirectoryChecksumMismatch { expected, actual } => {
                let mut message = "bucket directory checksum mismatch: stored 0x".to_owned();
                text::push_hex(&mut message, *expected as u64, 8);
                message.append(", computed 0x");
                text::push_hex(&mut message, *actual as u64, 8);
                message
            },
            BucketError::MemberChecksumMismatch { expected, actual } => {
                let mut message = "bucket member checksum mismatch: stored 0x".to_owned();
                text::push_hex(&mut message, *expected as u64, 8);
                message.append(", computed 0x");
                text::push_hex(&mut message, *actual as u64, 8);
                message
            },
            BucketError::LengthOverflow => "bucket segment length arithmetic overflowed".to_owned(),
        }
    }
}

impl CodecError {
    /// What the error says.
    pub open spec fn text(&self) -> Seq<char> {
        match *self {
            CodecError::PayloadTooLarge { actual, max } => "key payload is "@
                + text::decimal(actual as nat) + " bytes; maximum is "@ + text::decimal(max as nat),
            CodecError::InvalidLength { expected, actual } => "invalid key length: expected "@
                + text::decimal(expected as nat) + " bytes, got "@ + text::decimal(actual as nat),
            CodecError::InvalidUtf8 => "key bytes are not valid UTF-8"@,
            CodecError::InvalidJson { message: reason } => "invalid JSON key: "@ + reason@,
        }
    }

    /// The error in words.
    pub fn message(&self) -> (message: String)
        ensures
            message@ == self.text(),
    {
        match self {
            CodecError::PayloadTooLarge { actual, max } => {
                let mut message = "key payload is ".to_owned();
                text::push_decimal(&mut message, *actual as u64);
                message.append(" bytes; maximum is ");
                text::push_decimal(&mut message, *max as u64);
                message
            },
            CodecError::InvalidLength { expected, actual } => {
                let mut message = "invalid key length: expected ".to_owned();
                text::push_decimal(&mut message, *expected as u64);
                message.append(" bytes, got ");
                text::push_decimal(&mut message, *actual as u64);
                message
            },
            CodecError::InvalidUtf8 => "key bytes are not valid UTF-8".to_owned(),
            CodecError::InvalidJson { message: reason } => {
                let mut message = "invalid JSON key: ".to_owned();
                message.append(reason.as_str());
                message
            },
        }
    }
}

impl LazyStoreError {
    /// What the error says, given the rendered threshold of an invalid threshold.
    pub open spec fn text(&self, rendered: Seq<char>) -> Seq<char> {
        match *self {
            LazyStoreError::Layout(error) => error.text(),
            LazyStoreError::Format(error) => error.text(),
            LazyStoreError::Bucket(error) => error.text(),
            LazyStoreError::Index(error) => error.text(rendered),
            LazyStoreError::InvalidSnapshot { reason } => "invalid lazy Pari snapshot: "@ + reason@,
            LazyStoreError::LengthOverflow => "lazy store layout arithmetic overflowed"@,
            LazyStoreError::IncompatibleSeed { expected, actual } =>
                "incompatible MinHash seed: expected "@ + text::decimal(expected as nat) + ", got "@
                + text::decimal(actual as nat),
            LazyStoreError::IncompatiblePermutationCount { expected, actual } =>
                "incompatible MinHash permutation count: expected "@
                + text::decimal(expected as nat) + ", got "@ + text::decimal(actual as nat),
        }
    }

    /// The error in words, given the rendered threshold of an invalid threshold.
    pub fn message(&self, rendered: &str) -> (message: String)
        ensures
            message@ == self.text(rendered@),
    {
        match self {
            LazyStoreError::Layout(error) => error.message(),
            LazyStoreError::Format(error) => error.message(),
            LazyStoreError::Bucket(error) => error.message(),
            LazyStoreError::Index(error) => error.message(rendered),
            LazyStoreError::InvalidSnapshot { reason } => {
                let mut message = "invalid lazy Pari snapshot: ".to_owned();
                message.append(reason);
                message
            },
            LazyStoreError::LengthOverflow => "lazy store layout arithmetic overflowed".to_owned(),
            LazyStoreError::IncompatibleSeed { expected, actual } => {
                let mut message = "incompatible MinHash seed: expected ".to_owned();
                text::push_decimal(&mut message, *expected as u64);
                message.append(", got ");
                text::push_decimal(&mut message, *actual as u64);
                message
            },
            LazyStoreError::IncompatiblePermutationCount { expected, actual } => {
                let mut message = "incompatible MinHash permutation count: expected ".to_owned();
                text::push_decimal(&mut message, *expected as u64);
                message.append(", got ");
                text::push_decimal(&mut message, *actual as u64);
                message
            },
        }
    }
}

impl BuildError {
    /// What the error says.
    pub open spec fn text(&self) -> Seq<char> {
        match *self {
            BuildError::Layout(error) => error.text(),
            BuildError::Format(error) => error.text(),
            BuildError::SourceEnded =>
                "bounded Pari builder I/O failed: failed to fill whole buffer"@,
            BuildError::InvalidSource { reason } => "invalid phase-1 source: "@ + reason@,
            BuildError::InvalidOptions { reason } => "invalid build options: "@ + reason@,
            BuildError::LengthOverflow => "bounded builder length arithmetic overflowed"@,
        }
    }

    /// The error in words.
    pub fn message(&self) -> (message: String)
        ensures
            message@ == self.text(),
    {
        match self {
            BuildError::Layout(error) => error.message(),
            BuildError::Format(error) => error.message(),
            BuildError::SourceEnded =>
                "bounded Pari builder I/O failed: failed to fill whole buffer".to_owned(),
            BuildError::InvalidSource { reason } => {
                let mut message = "invalid phase-1 source: ".to_owned();
                message.append(reason);
                message
            },
            BuildError::InvalidOptions { reason } => {
                let mut message = "invalid build options: ".to_owned();
                message.append(reason);
                message
            },
            BuildError::LengthOverflow => "bounded builder length arithmetic overflowed".to_owned(),
        }
    }
}

impl BackendCapability {
    /// The name of the capability.
    pub open spec fn text(self) -> Seq<char> {
        match self {
            BackendCapability::BatchRead => "BatchRead"@,
            BackendCapability::BatchWrite => "BatchWrite"@,
            BackendCapability::Delete => "Delete"@,
            BackendCapability::Flush => "Flush"@,
            BackendCapability::Ttl => "Ttl"@,
            BackendCapability::Health => "Health"@,
            BackendCapability::Remote => "Remote"@,
        }
    }

    /// The name of the capability.
    pub fn name(self) -> (name: &'static str)
        ensures
            name@ == self.text(),
    {
        match self {
            BackendCapability::BatchRead => "BatchRead",
            BackendCapability::BatchWrite => "BatchWrite",
            BackendCapability::Delete => "Delete",
            BackendCapability::Flush => "Flush",
            BackendCapability::Ttl => "Ttl",
            BackendCapability::Health => "Health",
            BackendCapability::Remote => "Remote",
        }
    }
}

impl Corruption {
    /// What the error says.
    pub open spec fn text(&self) -> Seq<char> {
        match *self {
            Corruption::BucketRows { returned, requested } => "backend returned "@
                + text::decimal(returned as nat) + " bucket rows for "@
                + text::decimal(requested as nat) + " requested buckets"@,
            Corruption::ContainsResults { returned, requested } => "backend returned "@
                + text::decimal(returned as nat) + " contains results for "@
                + text::decimal(requested as nat) + " keys"@,
            Corruption::BandHashes { found, expected } => "stored item has "@
                + text::decimal(found as nat) + " band hashes; expected "@
                + text::decimal(expected as nat),
            Corruption::DescriptorSize { found } => "descriptor is "@ + text::decimal(found as nat)
                + " bytes; expected 56"@,
            Corruption::DescriptorMagic => "descriptor magic or version is unsupported"@,
            Corruption::DuplicatePosition =>
                "Redis duplicate response referenced an invalid batch item"@,
            Corruption::MalformedRecord => "Redis rejected a malformed bucket membership record"@,
            Corruption::InsertStatus { code } => "Redis insert script returned unknown status "@
                + text::signed(code),
            Corruption::ResultRows => "Redis returned the wrong number of bucket result rows"@,
            Corruption::RecordWidth => "Redis record payload has an invalid bucket-member width"@,
            Corruption::DeleteStatus { code } => "Redis delete script returned unknown status "@
                + text::signed(code),
            Corruption::FlushResponse => "Redis flush barrier returned an unexpected response"@,
            Corruption::MemberSize { found } => "Redis bucket member is "@
                + text::decimal(found as nat) + " bytes; expected 20"@,
            Corruption::MemberPrefix =>
                "Redis bucket member prefix does not match the queried bucket"@,
        }
    }

    /// The error in words.
    pub fn message(&self) -> (message: String)
        ensures
            message@ == self.text(),
    {
        match self {
            Corruption::BucketRows { returned, requested } => {
                let mut message = "backend returned ".to_owned();
                text::push_decimal(&mut message, *returned as u64);
                message.append(" bucket rows for ");
                text::push_decimal(&mut message, *requested as u64);
                message.append(" requested buckets");
                message
            },
            Corruption::ContainsResults { returned, requested } => {
                let mut message = "backend returned ".to_owned();
                text::push_decimal(&mut message, *returned as u64);
                message.append(" contains results for ");
                text::push_decimal(&mut message, *requested as u64);
                message.append(" keys");
                message
            },
            Corruption::BandHashes { found, expected } => {
                let mut message = "stored item has ".to_owned();
                text::push_decimal(&mut message, *found as u64);
                message.append(" band hashes; expected ");
                text::push_decimal(&mut message, *expected as u64);
                message
            },
            Corruption::DescriptorSize { found } => {
                let mut message = "descriptor is ".to_owned();
                text::push_decimal(&mut message, *found as u64);
                message.append(" bytes; expected 56");
                message
            },
            Corruption::DescriptorMagic => "descriptor magic or version is unsupported".to_owned(),
            Corruption::DuplicatePosition =>
                "Redis duplicate response referenced an invalid batch item".to_owned(),
            Corruption::MalformedRecord =>
                "Redis rejected a malformed bucket membership record".to_owned(),
            Corruption::InsertStatus { code } => {
                let mut message = "Redis insert script returned unknown status ".to_owned();
                text::push_signed(&mut message, *code);
                message
            },
            Corruption::ResultRows =>
                "Redis returned the wrong number of bucket result rows".to_owned(),
            Corruption::RecordWidth =>
                "Redis record payload has an invalid bucket-member width".to_owned(),
            Corruption::DeleteStatus { code } => {
                let mut message = "Redis delete script returned unknown status ".to_owned();
                text::push_signed(&mut message, *code);
                message
            },
            Corruption::FlushResponse =>
                "Redis flush barrier returned an unexpected response".to_owned(),
            Corruption::MemberSize { found } => {
                let mut message = "Redis bucket member is ".to_owned();
                text::push_decimal(&mut message, *found as u64);
                message.append(" bytes; expected 20");
                message
            },
            Corruption::MemberPrefix =>
                "Redis bucket member prefix does not match the queried bucket".to_owned(),
        }
    }
}

impl BackendError {
    /// What the error says, given the rendered threshold of an invalid threshold.
    pub open spec fn text(&self, rendered: Seq<char>) -> Seq<char> {
        match *self {
            BackendError::AlreadyExists => "backend namespace already contains an index"@,
            BackendError::NotFound => "backend namespace does not contain an index"@,
            BackendError::DuplicateKey { key } => "key "@ + text::decimal(key as nat)
                + " already exists in the index"@,
            BackendError::UnsupportedCapability { capability } => "backend does not support "@
                + capability.text(),
            BackendError::InvalidRetention =>
                "retention must be a whole number of seconds in 1..=9007199254740991"@,
            BackendError::InvalidDescriptor { error } => "invalid descriptor: "@
                + error.text(rendered),
            BackendError::InvalidNamespace { reason } => "invalid namespace: "@ + reason@,
            BackendError::CorruptData { reason } => "invalid backend data: "@ + reason.text(),
            BackendError::LengthOverflow => "backend length arithmetic overflowed"@,
            BackendError::Codec(error) => error.text(),
            BackendError::Transport { operation, message: detail } => "backend "@ + operation@
                + " failed: "@ + detail@,
        }
    }

    /// The error in words, given the rendered threshold of an invalid threshold.
    pub fn message(&self, rendered: &str) -> (message: String)
        ensures
            message@ == self.text(rendered@),
    {
        match self {
            BackendError::AlreadyExists => "backend namespace already contains an index".to_owned(),
            BackendError::NotFound => "backend namespace does not contain an index".to_owned(),
            BackendError::DuplicateKey { key } => {
                let mut message = "key ".to_owned();
                text::push_decimal(&mut message, *key as u64);
                message.append(" already exists in the index");
                message
            },
            BackendError::UnsupportedCapability { capability } => {
                let mut message = "backend does not support ".to_owned();
                message.append(capability.name());
                message
            },
            BackendError::InvalidRetention =>
                "retention must be a whole number of seconds in 1..=9007199254740991".to_owned(),
            BackendError::InvalidDescriptor { error } => {
                let mut message = "invalid descriptor: ".to_owned();
                message.append(error.message(rendered).as_str());
                message
            },
            BackendError::InvalidNamespace { reason } => {
                let mut message = "invalid namespace: ".to_owned();
                message.append(reason);
                message
            },
            BackendError::CorruptData { reason } => {
                let mut message = "invalid backend data: ".to_owned();
                message.append(reason.message().as_str());
                message
            },
            BackendError::LengthOverflow => "backend length arithmetic overflowed".to_owned(),
            BackendError::Codec(error) => error.message(),
            BackendError::Transport { operation, message: detail } => {
                let mut message = "backend ".to_owned();
                message.append(operation);
                message.append(" failed: ");
                message.append(detail.as_str());
                message
            },
        }
    }
}

impl BackendIndexError {
    /// What the error says, given the rendered threshold of an invalid threshold.
    pub open spec fn text(&self, rendered: Seq<char>) -> Seq<char> {
        match *self {
            BackendIndexError::Index(error) => error.text(rendered),
            BackendIndexError::Backend(error) => error.text(rendered),
        }
    }

    /// The error in words, given the rendered threshold of an invalid threshold.
    pub fn message(&self, rendered: &str) -> (message: String)
        ensures
            message@ == self.text(rendered@),
    {
        match self {
            BackendIndexError::Index(error) => error.message(rendered),
            BackendIndexError::Backend(error) => error.message(rendered),
        }
    }
}

impl RecordError {
    /// What the error says, given the quoted signature scheme.
    pub open spec fn text(&self, rendered: Seq<char>) -> Seq<char> {
        match *self {
            RecordError::UnexpectedScheme => "scheme is only valid with a precomputed signature"@,
            RecordError::MissingScheme => "precomputed signatures require a scheme field"@,
            RecordError::UnsupportedScheme { scheme: _ } => "unsupported signature scheme "@
                + rendered + "; expected \"pari-affine32-v1\""@,
            RecordError::SignatureLength { found, expected } => "precomputed signature has "@
                + text::decimal(found as nat) + " values; expected "@
                + text::decimal(expected as nat),
            RecordError::Both => "record must contain either values or signature, not both"@,
            RecordError::Neither => "record must contain either values or signature"@,
            RecordError::Sketch(error) => error.text(),
        }
    }

    /// The error in words, given the quoted signature scheme.
    pub fn message(&self, rendered: &str) -> (message: String)
        ensures
            message@ == self.text(rendered@),
    {
        match self {
            RecordError::UnexpectedScheme =>
                "scheme is only valid with a precomputed signature".to_owned(),
            RecordError::MissingScheme =>
                "precomputed signatures require a scheme field".to_owned(),
            RecordError::UnsupportedScheme { scheme: _ } => {
                let mut message = "unsupported signature scheme ".to_owned();
                message.append(rendered);
                message.append("; expected \"pari-affine32-v1\"");
                message
            },
            RecordError::SignatureLength { found, expected } => {
                let mut message = "precomputed signature has ".to_owned();
                text::push_decimal(&mut message, *found as u64);
                message.append(" values; expected ");
                text::push_decimal(&mut message, *expected as u64);
                message
            },
            RecordError::Both =>
                "record must contain either values or signature, not both".to_owned(),
            RecordError::Neither => "record must contain either values or signature".to_owned(),
            RecordError::Sketch(error) => error.message(),
        }
    }
}

impl VerifyError {
    /// What the error says.
    pub open spec fn text(&self) -> Seq<char> {
        match *self {
            VerifyError::Format(error) => error.text(),
            VerifyError::Layout(error) => error.text(),
            VerifyError::Bucket(error) => error.text(),
            VerifyError::MemberOverflow => "member count overflow"@,
        }
    }

    /// The error in words.
    pub fn message(&self) -> (message: String)
        ensures
            message@ == self.text(),
    {
        match self {
            VerifyError::Format(error) => error.message(),
            VerifyError::Layout(error) => error.message(),
            VerifyError::Bucket(error) => error.message(),
            VerifyError::MemberOverflow => "member count overflow".to_owned(),
        }
    }
}

} // verus!
