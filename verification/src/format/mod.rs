//! The versioned index container: framing, checksums and codecs.

pub mod bucket_stream;
pub mod buckets;
pub mod checksum;
pub mod codec;
pub mod container;
pub mod error;
pub mod header;
pub mod layout;
