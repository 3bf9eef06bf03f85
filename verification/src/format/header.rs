//! The fixed-size header of an index container.
//!
//! A header has 72 bytes. All numbers are little-endian.
//!
//! | offset | bytes | field |
//! |-------:|------:|-------|
//! | 0 | 8 | the magic bytes `PARIIDX\0` |
//! | 8 | 2 | format version |
//! | 10 | 2 | header size |
//! | 12 | 2 | algorithm |
//! | 14 | 2 | signature scheme |
//! | 16 | 2 | signature width in bits |
//! | 18 | 2 | key codec |
//! | 20 | 4 | number of permutations |
//! | 24 | 4 | bands |
//! | 28 | 4 | rows |
//! | 32 | 4 | number of sections |
//! | 36 | 4 | reserved, zero |
//! | 40 | 8 | permutation seed |
//! | 48 | 8 | threshold, as the bit pattern of a double |
//! | 56 | 8 | feature flags |
//! | 64 | 4 | CRC-32 of the 64 bytes before it |
//! | 68 | 4 | reserved, zero |

use vstd::prelude::*;

use crate::format::checksum;
use crate::format::codec::CodecId;
use crate::format::error::FormatError;
use crate::le;
use crate::threshold::Threshold;

verus! {

/// The magic bytes `PARIIDX\0`, read as one little-endian number.
pub const MAGIC: u64 = 0x0058_4449_4952_4150;

/// The format version that this reader understands.
pub const FORMAT_VERSION: u16 = 1;

/// The size of the header in bytes.
pub const HEADER_SIZE: usize = 72;

/// The most sections that a container may declare.
pub const MAX_SECTION_COUNT: usize = 1_024;

/// Algorithm identifier stored in an index header.
#[derive(Debug, Clone, Copy, PartialEq, Eq, Structural)]
pub enum Algorithm {
    /// `MinHash` locality-sensitive hashing.
    MinHashLsh,
}

impl Algorithm {
    /// The number that stands for the algorithm in a header.
    pub open spec fn raw(self) -> u16 {
        match self {
            Algorithm::MinHashLsh => 1,
        }
    }

    /// The algorithm with this number, if there is one.
    pub open spec fn of_raw(value: u16) -> Option<Algorithm> {
        match value {
            1 => Some(Algorithm::MinHashLsh),
            _ => None,
        }
    }

    /// The algorithm with this number, if there is one.
    pub fn from_raw(value: u16) -> (algorithm: Option<Algorithm>)
        ensures
            algorithm == Algorithm::of_raw(value),
    {
        match value {
            1 => Some(Algorithm::MinHashLsh),
            _ => None,
        }
    }

    /// The number that stands for the algorithm in a header.
    pub fn as_raw(self) -> (value: u16)
        ensures
            value == self.raw(),
    {
        match self {
            Algorithm::MinHashLsh => 1,
        }
    }
}

/// Signature scheme identifier, stored independently of the algorithm.
#[derive(Debug, Clone, Copy, PartialEq, Eq, Structural)]
pub enum SignatureScheme {
    /// The `pari-affine32-v1` scheme.
    PariAffine32V1,
    /// The `pari-affine64-v1` scheme.
    PariAffine64V1,
}

impl SignatureScheme {
    /// The number that stands for the scheme in a header.
    pub open spec fn raw(self) -> u16 {
        match self {
            SignatureScheme::PariAffine32V1 => 1,
            SignatureScheme::PariAffine64V1 => 2,
        }
    }

    /// The scheme with this number, if there is one.
    pub open spec fn of_raw(value: u16) -> Option<SignatureScheme> {
        match value {
            1 => Some(SignatureScheme::PariAffine32V1),
            2 => Some(SignatureScheme::PariAffine64V1),
            _ => None,
        }
    }

    /// The width of a signature value in bits.
    pub open spec fn width(self) -> u16 {
        match self {
            SignatureScheme::PariAffine32V1 => 32,
            SignatureScheme::PariAffine64V1 => 64,
        }
    }

    /// The scheme with this number, if there is one.
    pub fn from_raw(value: u16) -> (scheme: Option<SignatureScheme>)
        ensures
            scheme == SignatureScheme::of_raw(value),
    {
        match value {
            1 => Some(SignatureScheme::PariAffine32V1),
            2 => Some(SignatureScheme::PariAffine64V1),
            _ => None,
        }
    }

    /// The number that stands for the scheme in a header.
    pub fn as_raw(self) -> (value: u16)
        ensures
            value == self.raw(),
    {
        match self {
            SignatureScheme::PariAffine32V1 => 1,
            SignatureScheme::PariAffine64V1 => 2,
        }
    }

    /// The width of a signature value in bits.
    pub fn width_bits(self) -> (bits: u16)
        ensures
            bits == self.width(),
    {
        match self {
            SignatureScheme::PariAffine32V1 => 32,
            SignatureScheme::PariAffine64V1 => 64,
        }
    }
}

/// What the metadata of an index says.
pub struct Metadata {
    /// The algorithm.
    pub algorithm: Algorithm,
    /// The signature scheme.
    pub scheme: SignatureScheme,
    /// The codec of the external keys.
    pub codec: CodecId,
    /// The number of signature permutations.
    pub num_perm: u32,
    /// The permutation seed.
    pub seed: u64,
    /// The similarity threshold.
    pub threshold: Threshold,
    /// The number of bands.
    pub bands: u32,
    /// The number of rows in each band.
    pub rows: u32,
    /// The feature bits that a reader must support.
    pub features: u64,
}

impl Metadata {
    /// The error for metadata that break an invariant of the format, if they do.
    pub open spec fn error(self) -> Option<FormatError> {
        if self.num_perm == 0 {
            Some(FormatError::InvalidMetadata { reason: "num_perm must be positive" })
        } else if !self.threshold.valid() {
            Some(
                FormatError::InvalidMetadata { reason: "threshold must be finite and in (0, 1]" },
            )
        } else if self.bands * self.rows > u32::MAX {
            Some(FormatError::InvalidMetadata { reason: "bands * rows overflows" })
        } else if self.bands == 0 || self.rows == 0 || self.bands * self.rows > self.num_perm {
            Some(
                FormatError::InvalidMetadata {
                    reason: "bands and rows must be positive and use no more than num_perm values",
                },
            )
        } else if self.features != 0 {
            Some(FormatError::UnsupportedFeatures { flags: self.features })
        } else {
            None
        }
    }

    /// The metadata satisfy every invariant of the format.
    pub open spec fn valid(self) -> bool {
        self.error() is None
    }
}

/// Validated metadata that identify how an index must be interpreted.
#[derive(Debug, Clone, Copy, PartialEq, Eq)]
pub struct IndexMetadata {
    algorithm: Algorithm,
    signature_scheme: SignatureScheme,
    key_codec: CodecId,
    num_perm: u32,
    seed: u64,
    threshold: Threshold,
    bands: u32,
    rows: u32,
    feature_flags: u64,
}

impl View for IndexMetadata {
    type V = Metadata;

    closed spec fn view(&self) -> Metadata {
        Metadata {
            algorithm: self.algorithm,
            scheme: self.signature_scheme,
            codec: self.key_codec,
            num_perm: self.num_perm,
            seed: self.seed,
            threshold: self.threshold,
            bands: self.bands,
            rows: self.rows,
            features: self.feature_flags,
        }
    }
}

impl IndexMetadata {
    /// The metadata satisfy every invariant of the format.
    pub open spec fn wf(&self) -> bool {
        self@.valid()
    }

    /// Check and hold version-1 index metadata.
    pub fn new(
        algorithm: Algorithm,
        signature_scheme: SignatureScheme,
        key_codec: CodecId,
        num_perm: u32,
        seed: u64,
        threshold: Threshold,
        bands: u32,
        rows: u32,
        feature_flags: u64,
    ) -> (result: Result<IndexMetadata, FormatError>)
        ensures
            ({
                let given = Metadata {
                    algorithm,
                    scheme: signature_scheme,
                    codec: key_codec,
                    num_perm,
                    seed,
                    threshold,
                    bands,
                    rows,
                    features: feature_flags,
                };
                match given.error() {
                    Some(error) => result == Err::<IndexMetadata, FormatError>(error),
                    None => result matches Ok(metadata) && metadata@ == given && metadata.wf(),
                }
            }),
    {
        if num_perm == 0 {
            return Err(FormatError::InvalidMetadata { reason: "num_perm must be positive" });
        }
        if !threshold.is_valid() {
            return Err(
                FormatError::InvalidMetadata { reason: "threshold must be finite and in (0, 1]" },
            );
        }
        let used: u32 = match bands.checked_mul(rows) {
            Some(used) => used,
            None => {
                return Err(FormatError::InvalidMetadata { reason: "bands * rows overflows" });
            },
        };
        if bands == 0 || rows == 0 || used > num_perm {
            return Err(
                FormatError::InvalidMetadata {
                    reason: "bands and rows must be positive and use no more than num_perm values",
                },
            );
        }
        if feature_flags != 0 {
            return Err(FormatError::UnsupportedFeatures { flags: feature_flags });
        }
        Ok(
            IndexMetadata {
                algorithm,
                signature_scheme,
                key_codec,
                num_perm,
                seed,
                threshold,
                bands,
                rows,
                feature_flags,
            },
        )
    }

    /// The stored algorithm.
    pub fn algorithm(&self) -> (algorithm: Algorithm)
        ensures
            algorithm == self@.algorithm,
    {
        self.algorithm
    }

    /// The stored signature scheme.
    pub fn signature_scheme(&self) -> (scheme: SignatureScheme)
        ensures
            scheme == self@.scheme,
    {
        self.signature_scheme
    }

    /// The stored key codec.
    pub fn key_codec(&self) -> (codec: CodecId)
        ensures
            codec == self@.codec,
    {
        self.key_codec
    }

    /// The number of signature permutations.
    pub fn num_perm(&self) -> (num_perm: u32)
        ensures
            num_perm == self@.num_perm,
    {
        self.num_perm
    }

    /// The signature permutation seed.
    pub fn seed(&self) -> (seed: u64)
        ensures
            seed == self@.seed,
    {
        self.seed
    }

    /// The target similarity threshold.
    pub fn threshold(&self) -> (threshold: Threshold)
        ensures
            threshold == self@.threshold,
    {
        self.threshold
    }

    /// The number of bands.
    pub fn bands(&self) -> (bands: u32)
        ensures
            bands == self@.bands,
    {
        self.bands
    }

    /// The number of rows in each band.
    pub fn rows(&self) -> (rows: u32)
        ensures
            rows == self@.rows,
    {
        self.rows
    }

    /// The feature bits that a reader must support.
    pub fn feature_flags(&self) -> (flags: u64)
        ensures
            flags == self@.features,
    {
        self.feature_flags
    }
}

/// The part of a header that its checksum covers.
pub open spec fn checked_bytes(metadata: Metadata, sections: u32) -> Seq<u8> {
    le::bytes(MAGIC as nat, 8) + le::bytes(FORMAT_VERSION as nat, 2) + le::bytes(
        HEADER_SIZE as nat,
        2,
    ) + le::bytes(metadata.algorithm.raw() as nat, 2) + le::bytes(metadata.scheme.raw() as nat, 2)
        + le::bytes(metadata.scheme.width() as nat, 2) + le::bytes(
        metadata.codec.raw() as nat,
        2,
    ) + le::bytes(metadata.num_perm as nat, 4) + le::bytes(metadata.bands as nat, 4) + le::bytes(
        metadata.rows as nat,
        4,
    ) + le::bytes(sections as nat, 4) + le::bytes(0, 4) + le::bytes(metadata.seed as nat, 8)
        + le::bytes(metadata.threshold.bits as nat, 8) + le::bytes(metadata.features as nat, 8)
}

/// The header of a container with these metadata and this many sections.
pub open spec fn header_bytes(metadata: Metadata, sections: u32) -> Seq<u8> {
    let checked = checked_bytes(metadata, sections);
    checked + le::bytes(checksum::crc32(checked) as nat, 4) + le::bytes(0, 4)
}

/// What the fields of a header say, before its metadata are validated.
pub struct Fields {
    /// The metadata.
    pub metadata: Metadata,
    /// The number of sections.
    pub sections: u32,
}

/// The fields of the header at the front of `data`, or the first error in it.
pub open spec fn fields(data: Seq<u8>) -> Result<Fields, FormatError> {
    let scheme = SignatureScheme::of_raw(le::u16_at(data, 14));
    if data.len() < HEADER_SIZE {
        Err(FormatError::Truncated { context: "file header" })
    } else if le::u64_at(data, 0) != MAGIC {
        Err(FormatError::InvalidMagic)
    } else if le::u16_at(data, 8) != FORMAT_VERSION {
        Err(FormatError::UnsupportedVersion { found: le::u16_at(data, 8) })
    } else if le::u16_at(data, 10) != HEADER_SIZE {
        Err(FormatError::InvalidHeaderSize { found: le::u16_at(data, 10) })
    } else if le::u32_at(data, 36) != 0 || le::u32_at(data, 68) != 0 {
        Err(FormatError::InvalidReservedBytes)
    } else if le::u32_at(data, 64) != checksum::crc32(data.subrange(0, 64)) {
        Err(
            FormatError::HeaderChecksumMismatch {
                expected: le::u32_at(data, 64),
                actual: checksum::crc32(data.subrange(0, 64)),
            },
        )
    } else if Algorithm::of_raw(le::u16_at(data, 12)) is None {
        Err(FormatError::UnsupportedAlgorithm { value: le::u16_at(data, 12) })
    } else if scheme is None {
        Err(FormatError::UnsupportedSignatureScheme { value: le::u16_at(data, 14) })
    } else if le::u16_at(data, 16) != scheme->0.width() {
        Err(
            FormatError::SignatureWidthMismatch {
                expected: scheme->0.width(),
                actual: le::u16_at(data, 16),
            },
        )
    } else if CodecId::of_raw(le::u16_at(data, 18)) is None {
        Err(FormatError::UnsupportedCodec { value: le::u16_at(data, 18) })
    } else {
        Ok(
            Fields {
                metadata: Metadata {
                    algorithm: Algorithm::of_raw(le::u16_at(data, 12))->0,
                    scheme: scheme->0,
                    codec: CodecId::of_raw(le::u16_at(data, 18))->0,
                    num_perm: le::u32_at(data, 20),
                    seed: le::u64_at(data, 40),
                    threshold: Threshold { bits: le::u64_at(data, 48) },
                    bands: le::u32_at(data, 24),
                    rows: le::u32_at(data, 28),
                    features: le::u64_at(data, 56),
                },
                sections: le::u32_at(data, 32),
            },
        )
    }
}

/// The validated header at the front of `data`, or the first error in it.
pub open spec fn header(data: Seq<u8>) -> Result<Fields, FormatError> {
    match fields(data) {
        Err(error) => Err(error),
        Ok(found) => match found.metadata.error() {
            Some(error) => Err(error),
            None => if found.sections > MAX_SECTION_COUNT {
                Err(
                    FormatError::TooManySections {
                        count: found.sections as usize,
                        max: MAX_SECTION_COUNT,
                    },
                )
            } else {
                Ok(found)
            },
        },
    }
}

/// As `header`, for a reader that looks at the feature bits before it validates
/// the other metadata.
pub open spec fn features_first_header(data: Seq<u8>) -> Result<Fields, FormatError> {
    match fields(data) {
        Err(error) => Err(error),
        Ok(found) => if found.metadata.features != 0 {
            Err(FormatError::UnsupportedFeatures { flags: found.metadata.features })
        } else {
            header(data)
        },
    }
}

/// Append the header of a container.
pub fn push_header(out: &mut Vec<u8>, metadata: &IndexMetadata, sections: u32)
    requires
        old(out)@.len() == 0,
    ensures
        final(out)@ == header_bytes(metadata@, sections),
{
    le::push_u64(out, MAGIC);
    assert(out@ =~= le::bytes(MAGIC as nat, 8));
    le::push_u16(out, FORMAT_VERSION);
    le::push_u16(out, 72);
    le::push_u16(out, metadata.algorithm.as_raw());
    le::push_u16(out, metadata.signature_scheme.as_raw());
    le::push_u16(out, metadata.signature_scheme.width_bits());
    le::push_u16(out, metadata.key_codec.as_raw());
    le::push_u32(out, metadata.num_perm);
    le::push_u32(out, metadata.bands);
    le::push_u32(out, metadata.rows);
    le::push_u32(out, sections);
    le::push_u32(out, 0);
    le::push_u64(out, metadata.seed);
    le::push_u64(out, metadata.threshold.to_bits());
    le::push_u64(out, metadata.feature_flags);
    assert(out@ == checked_bytes(metadata@, sections));
    let sum: u32 = checksum::checksum(out.as_slice());
    le::push_u32(out, sum);
    le::push_u32(out, 0);
}

/// Decode and validate the header at the front of `data`.
///
/// With `features_first` unsupported feature bits are reported before any
/// other fault of the metadata.
pub fn decode_header(data: &[u8], features_first: bool) -> (result: Result<
    (IndexMetadata, usize),
    FormatError,
>)
    ensures
        match (if features_first {
            features_first_header(data@)
        } else {
            header(data@)
        }) {
            Err(error) => result == Err::<(IndexMetadata, usize), FormatError>(error),
            Ok(found) => result matches Ok((metadata, sections)) && metadata@ == found.metadata
                && sections == found.sections && sections <= MAX_SECTION_COUNT && metadata.wf(),
        },
{
    if data.len() < HEADER_SIZE {
        return Err(FormatError::Truncated { context: "file header" });
    }
    if le::read_u64(data, 0) != MAGIC {
        return Err(FormatError::InvalidMagic);
    }
    let version: u16 = le::read_u16(data, 8);
    if version != FORMAT_VERSION {
        return Err(FormatError::UnsupportedVersion { found: version });
    }
    let header_size: u16 = le::read_u16(data, 10);
    if header_size as usize != HEADER_SIZE {
        return Err(FormatError::InvalidHeaderSize { found: header_size });
    }
    if le::read_u32(data, 36) != 0 || le::read_u32(data, 68) != 0 {
        return Err(FormatError::InvalidReservedBytes);
    }
    let expected: u32 = le::read_u32(data, 64);
    let actual: u32 = checksum::checksum(vstd::slice::slice_subrange(data, 0, 64));
    if expected != actual {
        return Err(FormatError::HeaderChecksumMismatch { expected, actual });
    }
    let algorithm_raw: u16 = le::read_u16(data, 12);
    let algorithm = match Algorithm::from_raw(algorithm_raw) {
        Some(algorithm) => algorithm,
        None => {
            return Err(FormatError::UnsupportedAlgorithm { value: algorithm_raw });
        },
    };
    let scheme_raw: u16 = le::read_u16(data, 14);
    let scheme = match SignatureScheme::from_raw(scheme_raw) {
        Some(scheme) => scheme,
        None => {
            return Err(FormatError::UnsupportedSignatureScheme { value: scheme_raw });
        },
    };
    let width: u16 = le::read_u16(data, 16);
    if width != scheme.width_bits() {
        return Err(
            FormatError::SignatureWidthMismatch { expected: scheme.width_bits(), actual: width },
        );
    }
    let codec_raw: u16 = le::read_u16(data, 18);
    let codec = match CodecId::from_raw(codec_raw) {
        Some(codec) => codec,
        None => {
            return Err(FormatError::UnsupportedCodec { value: codec_raw });
        },
    };
    let feature_flags: u64 = le::read_u64(data, 56);
    if features_first && feature_flags != 0 {
        return Err(FormatError::UnsupportedFeatures { flags: feature_flags });
    }
    let metadata = match IndexMetadata::new(
        algorithm,
        scheme,
        codec,
        le::read_u32(data, 20),
        le::read_u64(data, 40),
        Threshold::from_bits(le::read_u64(data, 48)),
        le::read_u32(data, 24),
        le::read_u32(data, 28),
        feature_flags,
    ) {
        Ok(metadata) => metadata,
        Err(error) => {
            return Err(error);
        },
    };
    let sections: usize = le::read_u32(data, 32) as usize;
    if sections > MAX_SECTION_COUNT {
        return Err(FormatError::TooManySections { count: sections, max: MAX_SECTION_COUNT });
    }
    Ok((metadata, sections))
}

/// The number of sections as a header holds it, where a file can have so many.
pub fn check_section_count(count: usize) -> (result: Result<u32, FormatError>)
    ensures
        if count > MAX_SECTION_COUNT {
            result == Err::<u32, FormatError>(
                FormatError::TooManySections { count, max: MAX_SECTION_COUNT },
            )
        } else {
            result == Ok::<u32, FormatError>(count as u32)
        },
{
    if count > MAX_SECTION_COUNT {
        return Err(FormatError::TooManySections { count, max: MAX_SECTION_COUNT });
    }
    Ok(count as u32)
}

/// What follows the header does not matter to it.
pub(crate) proof fn lemma_header_of_extension(data: Seq<u8>, rest: Seq<u8>)
    requires
        data.len() >= HEADER_SIZE,
    ensures
        fields(data + rest) == fields(data),
        header(data + rest) == header(data),
        features_first_header(data + rest) == features_first_header(data),
{
    let whole = data + rest;
    assert(whole.subrange(0, 8) =~= data.subrange(0, 8));
    assert(whole.subrange(8, 10) =~= data.subrange(8, 10));
    assert(whole.subrange(10, 12) =~= data.subrange(10, 12));
    assert(whole.subrange(12, 14) =~= data.subrange(12, 14));
    assert(whole.subrange(14, 16) =~= data.subrange(14, 16));
    assert(whole.subrange(16, 18) =~= data.subrange(16, 18));
    assert(whole.subrange(18, 20) =~= data.subrange(18, 20));
    assert(whole.subrange(20, 24) =~= data.subrange(20, 24));
    assert(whole.subrange(24, 28) =~= data.subrange(24, 28));
    assert(whole.subrange(28, 32) =~= data.subrange(28, 32));
    assert(whole.subrange(32, 36) =~= data.subrange(32, 36));
    assert(whole.subrange(36, 40) =~= data.subrange(36, 40));
    assert(whole.subrange(40, 48) =~= data.subrange(40, 48));
    assert(whole.subrange(48, 56) =~= data.subrange(48, 56));
    assert(whole.subrange(56, 64) =~= data.subrange(56, 64));
    assert(whole.subrange(64, 68) =~= data.subrange(64, 68));
    assert(whole.subrange(68, 72) =~= data.subrange(68, 72));
    assert(whole.subrange(0, 64) =~= data.subrange(0, 64));
}

/// Only the header itself matters to it.
pub(crate) proof fn lemma_header_of_front(left: Seq<u8>, right: Seq<u8>)
    requires
        left.len() >= HEADER_SIZE,
        right.len() >= HEADER_SIZE,
        left.take(HEADER_SIZE as int) == right.take(HEADER_SIZE as int),
    ensures
        fields(left) == fields(right),
        header(left) == header(right),
        features_first_header(left) == features_first_header(right),
{
    let size = HEADER_SIZE as int;
    assert(left.take(size) + left.skip(size) =~= left);
    assert(right.take(size) + right.skip(size) =~= right);
    lemma_header_of_extension(left.take(size), left.skip(size));
    lemma_header_of_extension(right.take(size), right.skip(size));
}

proof fn lemma_altered_number(data: Seq<u8>, start: int, at: int, byte: u8)
    requires
        0 <= start <= at < start + 4 <= data.len(),
        byte != data[at],
    ensures
        le::u32_at(data.update(at, byte), start) != le::u32_at(data, start),
{
    let digits = data.subrange(start, start + 4);
    let other = data.update(at, byte).subrange(start, start + 4);
    le::lemma_pow256_values();
    le::lemma_value_bound(digits);
    le::lemma_value_bound(other);
    le::lemma_bytes_of_value(digits);
    le::lemma_bytes_of_value(other);
    assert(digits[at - start] == data[at]);
    assert(other[at - start] == byte);
}

/// One altered byte of a header is always noticed. Outside the magic, the version, the
/// size and the reserved bytes it is the checksum that does not match.
pub proof fn law_altered_header_is_rejected(data: Seq<u8>, at: int, byte: u8)
    requires
        fields(data) is Ok,
        0 <= at < HEADER_SIZE,
        byte != data[at],
    ensures
        fields(data.update(at, byte)) is Err,
        header(data.update(at, byte)) is Err,
        12 <= at < 36 || 40 <= at < 68 ==> fields(data.update(at, byte)) matches Err(
            FormatError::HeaderChecksumMismatch { .. },
        ),
{
    let altered = data.update(at, byte);
    let checked = data.subrange(0, 64);
    if at < 64 {
        assert(altered.subrange(0, 64) =~= checked.update(at, byte));
        assert(altered.subrange(64, 68) =~= data.subrange(64, 68));
        checksum::law_one_altered_byte_changes_the_checksum(checked, at, byte);
    } else if at < 68 {
        assert(altered.subrange(0, 64) =~= checked);
        lemma_altered_number(data, 64, at, byte);
    } else {
        lemma_altered_number(data, 68, at, byte);
    }
    if 12 <= at < 36 || 40 <= at < 68 {
        assert(altered.subrange(0, 8) =~= data.subrange(0, 8));
        assert(altered.subrange(8, 10) =~= data.subrange(8, 10));
        assert(altered.subrange(10, 12) =~= data.subrange(10, 12));
        assert(altered.subrange(36, 40) =~= data.subrange(36, 40));
        assert(altered.subrange(68, 72) =~= data.subrange(68, 72));
    }
}

proof fn lemma_checked_bytes(metadata: Metadata, sections: u32)
    ensures
        checked_bytes(metadata, sections).len() == 64,
        checked_bytes(metadata, sections).subrange(0, 8) == le::bytes(MAGIC as nat, 8),
        checked_bytes(metadata, sections).subrange(8, 10) == le::bytes(FORMAT_VERSION as nat, 2),
        checked_bytes(metadata, sections).subrange(10, 12) == le::bytes(HEADER_SIZE as nat, 2),
        checked_bytes(metadata, sections).subrange(12, 14) == le::bytes(metadata.algorithm.raw() as nat, 2),
        checked_bytes(metadata, sections).subrange(14, 16) == le::bytes(metadata.scheme.raw() as nat, 2),
        checked_bytes(metadata, sections).subrange(16, 18) == le::bytes(metadata.scheme.width() as nat, 2),
        checked_bytes(metadata, sections).subrange(18, 20) == le::bytes(metadata.codec.raw() as nat, 2),
        checked_bytes(metadata, sections).subrange(20, 24) == le::bytes(metadata.num_perm as nat, 4),
        checked_bytes(metadata, sections).subrange(24, 28) == le::bytes(metadata.bands as nat, 4),
        checked_bytes(metadata, sections).subrange(28, 32) == le::bytes(metadata.rows as nat, 4),
        checked_bytes(metadata, sections).subrange(32, 36) == le::bytes(sections as nat, 4),
        checked_bytes(metadata, sections).subrange(36, 40) == le::bytes(0, 4),
        checked_bytes(metadata, sections).subrange(40, 48) == le::bytes(metadata.seed as nat, 8),
        checked_bytes(metadata, sections).subrange(48, 56) == le::bytes(metadata.threshold.bits as nat, 8),
        checked_bytes(metadata, sections).subrange(56, 64) == le::bytes(metadata.features as nat, 8),
{
    broadcast use le::lemma_bytes_len;

    let checked = checked_bytes(metadata, sections);
    assert(checked.subrange(0, 8) =~= le::bytes(MAGIC as nat, 8));
    assert(checked.subrange(8, 10) =~= le::bytes(FORMAT_VERSION as nat, 2));
    assert(checked.subrange(10, 12) =~= le::bytes(HEADER_SIZE as nat, 2));
    assert(checked.subrange(12, 14) =~= le::bytes(metadata.algorithm.raw() as nat, 2));
    assert(checked.subrange(14, 16) =~= le::bytes(metadata.scheme.raw() as nat, 2));
    assert(checked.subrange(16, 18) =~= le::bytes(metadata.scheme.width() as nat, 2));
    assert(checked.subrange(18, 20) =~= le::bytes(metadata.codec.raw() as nat, 2));
    assert(checked.subrange(20, 24) =~= le::bytes(metadata.num_perm as nat, 4));
    assert(checked.subrange(24, 28) =~= le::bytes(metadata.bands as nat, 4));
    assert(checked.subrange(28, 32) =~= le::bytes(metadata.rows as nat, 4));
    assert(checked.subrange(32, 36) =~= le::bytes(sections as nat, 4));
    assert(checked.subrange(36, 40) =~= le::bytes(0, 4));
    assert(checked.subrange(40, 48) =~= le::bytes(metadata.seed as nat, 8));
    assert(checked.subrange(48, 56) =~= le::bytes(metadata.threshold.bits as nat, 8));
    assert(checked.subrange(56, 64) =~= le::bytes(metadata.features as nat, 8));
}

/// Decoding an encoded header gives the metadata and the number of sections
/// back, whatever follows it.
pub proof fn law_header_round_trip(metadata: Metadata, sections: u32, rest: Seq<u8>)
    requires
        metadata.valid(),
        sections <= MAX_SECTION_COUNT,
    ensures
        header_bytes(metadata, sections).len() == HEADER_SIZE,
        header(header_bytes(metadata, sections) + rest) == Ok::<Fields, FormatError>(
            Fields { metadata, sections },
        ),
        features_first_header(header_bytes(metadata, sections) + rest) == Ok::<Fields, FormatError>(
            Fields { metadata, sections },
        ),
{
    broadcast use le::lemma_bytes_len;

    let checked = checked_bytes(metadata, sections);
    let data = header_bytes(metadata, sections);
    let sum = checksum::crc32(checked);
    lemma_checked_bytes(metadata, sections);
    lemma_header_of_extension(data, rest);
    le::lemma_pow256_values();
    assert(data.subrange(0, 64) =~= checked);
    assert(data.subrange(0, 8) =~= checked.subrange(0, 8));
    le::lemma_value_of_bytes(MAGIC as nat, 8);
    assert(data.subrange(8, 10) =~= checked.subrange(8, 10));
    le::lemma_value_of_bytes(FORMAT_VERSION as nat, 2);
    assert(data.subrange(10, 12) =~= checked.subrange(10, 12));
    le::lemma_value_of_bytes(HEADER_SIZE as nat, 2);
    assert(data.subrange(12, 14) =~= checked.subrange(12, 14));
    le::lemma_value_of_bytes(metadata.algorithm.raw() as nat, 2);
    assert(data.subrange(14, 16) =~= checked.subrange(14, 16));
    le::lemma_value_of_bytes(metadata.scheme.raw() as nat, 2);
    assert(data.subrange(16, 18) =~= checked.subrange(16, 18));
    le::lemma_value_of_bytes(metadata.scheme.width() as nat, 2);
    assert(data.subrange(18, 20) =~= checked.subrange(18, 20));
    le::lemma_value_of_bytes(metadata.codec.raw() as nat, 2);
    assert(data.subrange(20, 24) =~= checked.subrange(20, 24));
    le::lemma_value_of_bytes(metadata.num_perm as nat, 4);
    assert(data.subrange(24, 28) =~= checked.subrange(24, 28));
    le::lemma_value_of_bytes(metadata.bands as nat, 4);
    assert(data.subrange(28, 32) =~= checked.subrange(28, 32));
    le::lemma_value_of_bytes(metadata.rows as nat, 4);
    assert(data.subrange(32, 36) =~= checked.subrange(32, 36));
    le::lemma_value_of_bytes(sections as nat, 4);
    assert(data.subrange(36, 40) =~= checked.subrange(36, 40));
    le::lemma_value_of_bytes(0, 4);
    assert(data.subrange(40, 48) =~= checked.subrange(40, 48));
    le::lemma_value_of_bytes(metadata.seed as nat, 8);
    assert(data.subrange(48, 56) =~= checked.subrange(48, 56));
    le::lemma_value_of_bytes(metadata.threshold.bits as nat, 8);
    assert(data.subrange(56, 64) =~= checked.subrange(56, 64));
    le::lemma_value_of_bytes(metadata.features as nat, 8);
    assert(data.subrange(64, 68) =~= le::bytes(sum as nat, 4));
    le::lemma_value_of_bytes(sum as nat, 4);
    assert(data.subrange(68, 72) =~= le::bytes(0, 4));
    le::lemma_value_of_bytes(0, 4);
}

/// Metadata are valid exactly with at least one permutation, a threshold above zero and up
/// to one, at least one band and row that together use no more values than there are, and
/// no features.
pub proof fn law_which_metadata_are_valid(metadata: Metadata)
    ensures
        metadata.valid() == (metadata.num_perm >= 1 && 0 < metadata.threshold.bits
            <= 0x3FF0_0000_0000_0000 && metadata.bands >= 1 && metadata.rows >= 1 && metadata.bands
            * metadata.rows <= metadata.num_perm && metadata.features == 0),
{
}

/// Where each field of an encoded header stands.
pub proof fn law_header_fields_have_their_places(metadata: Metadata, sections: u32)
    ensures
        ({
            let data = header_bytes(metadata, sections);
            &&& data.len() == 72
            &&& data.subrange(0, 8) == seq![0x50u8, 0x41, 0x52, 0x49, 0x49, 0x44, 0x58, 0x00]
            &&& le::u16_at(data, 8) == 1
            &&& le::u16_at(data, 10) == 72
            &&& le::u16_at(data, 12) == metadata.algorithm.raw()
            &&& le::u16_at(data, 14) == metadata.scheme.raw()
            &&& le::u16_at(data, 16) == metadata.scheme.width()
            &&& le::u16_at(data, 18) == metadata.codec.raw()
            &&& le::u32_at(data, 20) == metadata.num_perm
            &&& le::u32_at(data, 24) == metadata.bands
            &&& le::u32_at(data, 28) == metadata.rows
            &&& le::u32_at(data, 32) == sections
            &&& le::u32_at(data, 36) == 0
            &&& le::u64_at(data, 40) == metadata.seed
            &&& le::u64_at(data, 48) == metadata.threshold.bits
            &&& le::u64_at(data, 56) == metadata.features
            &&& le::u32_at(data, 64) == checksum::crc32(data.subrange(0, 64))
            &&& le::u32_at(data, 68) == 0
        }),
{
    broadcast use le::lemma_bytes_len;

    let checked = checked_bytes(metadata, sections);
    let data = header_bytes(metadata, sections);
    let sum = checksum::crc32(checked);
    lemma_checked_bytes(metadata, sections);
    le::lemma_pow256_values();
    assert(data.subrange(0, 64) =~= checked);
    assert(data.subrange(0, 8) =~= checked.subrange(0, 8));
    lemma_magic();
    assert(data.subrange(8, 10) =~= checked.subrange(8, 10));
    le::lemma_value_of_bytes(FORMAT_VERSION as nat, 2);
    assert(data.subrange(10, 12) =~= checked.subrange(10, 12));
    le::lemma_value_of_bytes(HEADER_SIZE as nat, 2);
    assert(data.subrange(12, 14) =~= checked.subrange(12, 14));
    le::lemma_value_of_bytes(metadata.algorithm.raw() as nat, 2);
    assert(data.subrange(14, 16) =~= checked.subrange(14, 16));
    le::lemma_value_of_bytes(metadata.scheme.raw() as nat, 2);
    assert(data.subrange(16, 18) =~= checked.subrange(16, 18));
    le::lemma_value_of_bytes(metadata.scheme.width() as nat, 2);
    assert(data.subrange(18, 20) =~= checked.subrange(18, 20));
    le::lemma_value_of_bytes(metadata.codec.raw() as nat, 2);
    assert(data.subrange(20, 24) =~= checked.subrange(20, 24));
    le::lemma_value_of_bytes(metadata.num_perm as nat, 4);
    assert(data.subrange(24, 28) =~= checked.subrange(24, 28));
    le::lemma_value_of_bytes(metadata.bands as nat, 4);
    assert(data.subrange(28, 32) =~= checked.subrange(28, 32));
    le::lemma_value_of_bytes(metadata.rows as nat, 4);
    assert(data.subrange(32, 36) =~= checked.subrange(32, 36));
    le::lemma_value_of_bytes(sections as nat, 4);
    assert(data.subrange(36, 40) =~= checked.subrange(36, 40));
    le::lemma_value_of_bytes(0, 4);
    assert(data.subrange(40, 48) =~= checked.subrange(40, 48));
    le::lemma_value_of_bytes(metadata.seed as nat, 8);
    assert(data.subrange(48, 56) =~= checked.subrange(48, 56));
    le::lemma_value_of_bytes(metadata.threshold.bits as nat, 8);
    assert(data.subrange(56, 64) =~= checked.subrange(56, 64));
    le::lemma_value_of_bytes(metadata.features as nat, 8);
    assert(data.subrange(64, 68) =~= le::bytes(sum as nat, 4));
    le::lemma_value_of_bytes(sum as nat, 4);
    assert(data.subrange(68, 72) =~= le::bytes(0, 4));
    le::lemma_value_of_bytes(0, 4);
}

proof fn lemma_magic()
    ensures
        le::bytes(MAGIC as nat, 8) == seq![
            0x50u8,
            0x41,
            0x52,
            0x49,
            0x49,
            0x44,
            0x58,
            0x00,
        ],
{
    reveal_with_fuel(le::bytes, 9);
    assert(le::bytes(MAGIC as nat, 8) =~= seq![
        0x50u8,
        0x41,
        0x52,
        0x49,
        0x49,
        0x44,
        0x58,
        0x00,
    ]);
}

/// A header that is read has the magic, the version and the size of this format, zeros in
/// its reserved bytes and the checksum of its first 64 bytes, and gives what stands at the
/// place of each field.
pub proof fn law_read_headers_are_sound(data: Seq<u8>)
    requires
        fields(data) is Ok,
    ensures
        ({
            let found = fields(data)->Ok_0;
            &&& data.len() >= 72
            &&& le::u64_at(data, 0) == 0x0058_4449_4952_4150
            &&& le::u16_at(data, 8) == 1
            &&& le::u16_at(data, 10) == 72
            &&& le::u32_at(data, 36) == 0
            &&& le::u32_at(data, 68) == 0
            &&& le::u32_at(data, 64) == checksum::crc32(data.subrange(0, 64))
            &&& le::u16_at(data, 12) == found.metadata.algorithm.raw()
            &&& le::u16_at(data, 14) == found.metadata.scheme.raw()
            &&& le::u16_at(data, 16) == found.metadata.scheme.width()
            &&& le::u16_at(data, 18) == found.metadata.codec.raw()
            &&& le::u32_at(data, 20) == found.metadata.num_perm
            &&& le::u32_at(data, 24) == found.metadata.bands
            &&& le::u32_at(data, 28) == found.metadata.rows
            &&& le::u32_at(data, 32) == found.sections
            &&& le::u64_at(data, 40) == found.metadata.seed
            &&& le::u64_at(data, 48) == found.metadata.threshold.bits
            &&& le::u64_at(data, 56) == found.metadata.features
        }),
        header(data) is Ok == (fields(data)->Ok_0.metadata.valid() && fields(data)->Ok_0.sections
            <= 1_024),
        header(data) is Ok ==> header(data) == fields(data),
        features_first_header(data) is Ok == header(data) is Ok,
        header(data) is Ok ==> features_first_header(data) == header(data),
{
}

/// The numbers that stand for the algorithm and the schemes, and the widths of the schemes.
pub proof fn law_numbers_of_schemes()
    ensures
        Algorithm::MinHashLsh.raw() == 1,
        SignatureScheme::PariAffine32V1.raw() == 1,
        SignatureScheme::PariAffine64V1.raw() == 2,
        SignatureScheme::PariAffine32V1.width() == 32,
        SignatureScheme::PariAffine64V1.width() == 64,
        forall|value: u16| #[trigger]
            SignatureScheme::of_raw(value) matches Some(scheme) ==> scheme.raw() == value,
        forall|scheme: SignatureScheme| #[trigger]
            SignatureScheme::of_raw(scheme.raw()) == Some(scheme),
{
}

} // verus!
