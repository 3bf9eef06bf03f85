//! Errors of the index container.

use vstd::prelude::*;

verus! {

/// Errors produced while encoding or decoding an index container.
#[derive(Debug, Clone, Copy, PartialEq, Eq)]
pub enum FormatError {
    /// The input ends before a complete field or frame is available.
    Truncated { context: &'static str },
    /// The file does not begin with the index magic bytes.
    InvalidMagic,
    /// The reader does not support this format version.
    UnsupportedVersion { found: u16 },
    /// Version 1 has a fixed header size.
    InvalidHeaderSize { found: u16 },
    /// Reserved version-1 header bytes are nonzero.
    InvalidReservedBytes,
    /// Header integrity validation failed.
    HeaderChecksumMismatch { expected: u32, actual: u32 },
    /// The algorithm identifier is unknown.
    UnsupportedAlgorithm { value: u16 },
    /// The signature scheme identifier is unknown.
    UnsupportedSignatureScheme { value: u16 },
    /// The persisted signature width disagrees with its scheme.
    SignatureWidthMismatch { expected: u16, actual: u16 },
    /// The key codec identifier is unknown.
    UnsupportedCodec { value: u16 },
    /// Metadata violates a format invariant.
    InvalidMetadata { reason: &'static str },
    /// Required feature bits are not supported by this reader.
    UnsupportedFeatures { flags: u64 },
    /// The section table is unreasonably large for version 1.
    TooManySections { count: usize, max: usize },
    /// A section exceeds the bounded section size.
    SectionTooLarge { length: u64 },
    /// Section flags contain unknown bits.
    InvalidSectionFlags { flags: u16 },
    /// An unknown section was explicitly marked required.
    UnknownRequiredSection { kind: u16 },
    /// Section payload integrity validation failed.
    SectionChecksumMismatch { expected: u32, actual: u32 },
    /// A length does not fit the type that holds it.
    LengthOverflow,
    /// Bytes remain after the declared section table.
    TrailingBytes { remaining: usize },
}

} // verus!
