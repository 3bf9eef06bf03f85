//! The file format: containers, layouts, bucket segments and key codecs.

use crc32fast::hash as crc32;

use pari::format::bucket_stream::{write_bucket_segment, SegmentStream};
use pari::format::buckets::{
    bucket_record_size, decode_bucket_segment, encode_bucket_segment, read_bucket_members,
    validate_global_bucket_order, BucketError, BucketKey, BucketRecord, BucketWriteRecord,
};
use pari::format::codec::{
    BytesCodec, CodecError, CodecId, I64Codec, JsonValueCodec, KeyCodec, U64Codec, Utf8Codec,
};
use pari::format::container::{IndexFile, Section, SectionKind};
use pari::format::error::FormatError;
use pari::format::header::{
    check_section_count, Algorithm, IndexMetadata, SignatureScheme, HEADER_SIZE,
};
use pari::format::layout::{FileLayout, LayoutError, LayoutScan};
use pari::threshold::Threshold;

fn threshold(value: f64) -> Threshold {
    Threshold::from_bits(value.to_bits())
}

/// The bytes of the golden file, written down field by field.
fn golden() -> Vec<u8> {
    let mut bytes = Vec::new();
    bytes.extend_from_slice(b"PARIIDX\0");
    bytes.extend_from_slice(&1_u16.to_le_bytes());
    bytes.extend_from_slice(&72_u16.to_le_bytes());
    bytes.extend_from_slice(&1_u16.to_le_bytes());
    bytes.extend_from_slice(&1_u16.to_le_bytes());
    bytes.extend_from_slice(&32_u16.to_le_bytes());
    bytes.extend_from_slice(&3_u16.to_le_bytes());
    bytes.extend_from_slice(&128_u32.to_le_bytes());
    bytes.extend_from_slice(&32_u32.to_le_bytes());
    bytes.extend_from_slice(&4_u32.to_le_bytes());
    bytes.extend_from_slice(&1_u32.to_le_bytes());
    bytes.extend_from_slice(&[0; 4]);
    bytes.extend_from_slice(&42_u64.to_le_bytes());
    bytes.extend_from_slice(&0.8_f64.to_le_bytes());
    bytes.extend_from_slice(&0_u64.to_le_bytes());
    let checksum = crc32(&bytes);
    bytes.extend_from_slice(&checksum.to_le_bytes());
    bytes.extend_from_slice(&[0; 4]);
    let payload = 7_u64.to_le_bytes();
    bytes.extend_from_slice(&1_u16.to_le_bytes());
    bytes.extend_from_slice(&1_u16.to_le_bytes());
    bytes.extend_from_slice(&8_u64.to_le_bytes());
    bytes.extend_from_slice(&crc32(&payload).to_le_bytes());
    bytes.extend_from_slice(&payload);
    bytes
}

fn golden_file() -> IndexFile {
    let metadata = IndexMetadata::new(
        Algorithm::MinHashLsh,
        SignatureScheme::PariAffine32V1,
        CodecId::U64,
        128,
        42,
        threshold(0.8),
        32,
        4,
        0,
    )
    .expect("valid metadata");
    let section = Section::new(SectionKind::Keys, true, 7_u64.to_le_bytes().to_vec())
        .expect("valid section");
    IndexFile::new(metadata, vec![section]).expect("valid file")
}

/// Put the checksum of a changed header in its place.
fn reseal(bytes: &mut [u8]) {
    let checksum = crc32(&bytes[..64]);
    bytes[64..68].copy_from_slice(&checksum.to_le_bytes());
}

#[test]
fn golden_fixture_is_stable_and_round_trips() {
    let file = golden_file();
    assert_eq!(file.encode().expect("encode"), golden());
    assert_eq!(IndexFile::decode(&golden()).expect("decode"), file);
}

#[test]
fn format_every_truncated_golden_prefix_is_rejected() {
    let golden = golden();
    for end in 0..golden.len() {
        assert!(
            IndexFile::decode(&golden[..end]).is_err(),
            "accepted prefix {end}"
        );
    }
}

#[test]
fn header_and_payload_corruption_are_detected() {
    let mut header_corrupt = golden();
    header_corrupt[20] ^= 1;
    assert!(matches!(
        IndexFile::decode(&header_corrupt),
        Err(FormatError::HeaderChecksumMismatch { .. })
    ));

    let mut payload_corrupt = golden();
    let last = payload_corrupt.len() - 1;
    payload_corrupt[last] ^= 1;
    assert!(matches!(
        IndexFile::decode(&payload_corrupt),
        Err(FormatError::SectionChecksumMismatch { .. })
    ));
}

#[test]
fn unknown_optional_sections_are_skipped() {
    let mut bytes = golden();
    bytes[HEADER_SIZE..HEADER_SIZE + 2].copy_from_slice(&999_u16.to_le_bytes());
    bytes[HEADER_SIZE + 2..HEADER_SIZE + 4].copy_from_slice(&0_u16.to_le_bytes());
    let decoded = IndexFile::decode(&bytes).expect("optional unknown section should be skipped");
    assert!(decoded.sections().is_empty());
}

#[test]
fn unknown_required_sections_are_rejected() {
    let mut bytes = golden();
    bytes[HEADER_SIZE..HEADER_SIZE + 2].copy_from_slice(&999_u16.to_le_bytes());
    assert_eq!(
        IndexFile::decode(&bytes),
        Err(FormatError::UnknownRequiredSection { kind: 999 })
    );
}

#[test]
fn malicious_section_length_is_rejected_before_slicing() {
    let mut bytes = golden();
    bytes[HEADER_SIZE + 4..HEADER_SIZE + 12].copy_from_slice(&u64::MAX.to_le_bytes());
    assert_eq!(
        IndexFile::decode(&bytes),
        Err(FormatError::SectionTooLarge { length: u64::MAX })
    );
}

#[test]
fn reserved_and_trailing_bytes_are_rejected() {
    let mut reserved = golden();
    reserved[68] = 1;
    assert_eq!(
        IndexFile::decode(&reserved),
        Err(FormatError::InvalidReservedBytes)
    );

    let mut trailing = golden();
    trailing.push(0);
    assert_eq!(
        IndexFile::decode(&trailing),
        Err(FormatError::TrailingBytes { remaining: 1 })
    );
}

#[test]
fn invalid_metadata_is_rejected_at_construction() {
    assert!(matches!(
        IndexMetadata::new(
            Algorithm::MinHashLsh,
            SignatureScheme::PariAffine32V1,
            CodecId::U64,
            128,
            1,
            threshold(0.8),
            33,
            4,
            0,
        ),
        Err(FormatError::InvalidMetadata { .. })
    ));
}

fn decoded_after(change: impl Fn(&mut Vec<u8>)) -> FormatError {
    let mut bytes = golden();
    change(&mut bytes);
    IndexFile::decode(&bytes).expect_err("changed header")
}

#[test]
fn header_errors_name_the_field() {
    assert_eq!(
        decoded_after(|bytes| bytes[0] = b'Q'),
        FormatError::InvalidMagic
    );
    assert_eq!(
        decoded_after(|bytes| bytes[8] = 2),
        FormatError::UnsupportedVersion { found: 2 }
    );
    assert_eq!(
        decoded_after(|bytes| bytes[10] = 71),
        FormatError::InvalidHeaderSize { found: 71 }
    );
    assert_eq!(
        decoded_after(|bytes| {
            bytes[12] = 9;
            reseal(bytes);
        }),
        FormatError::UnsupportedAlgorithm { value: 9 }
    );
    assert_eq!(
        decoded_after(|bytes| {
            bytes[14] = 9;
            reseal(bytes);
        }),
        FormatError::UnsupportedSignatureScheme { value: 9 }
    );
    assert_eq!(
        decoded_after(|bytes| {
            bytes[16] = 64;
            reseal(bytes);
        }),
        FormatError::SignatureWidthMismatch {
            expected: 32,
            actual: 64
        }
    );
    assert_eq!(
        decoded_after(|bytes| {
            bytes[18] = 77;
            reseal(bytes);
        }),
        FormatError::UnsupportedCodec { value: 77 }
    );
    assert_eq!(
        decoded_after(|bytes| {
            bytes[56] = 1;
            reseal(bytes);
        }),
        FormatError::UnsupportedFeatures { flags: 1 }
    );
    assert_eq!(
        decoded_after(|bytes| {
            bytes[32..36].copy_from_slice(&1_025_u32.to_le_bytes());
            reseal(bytes);
        }),
        FormatError::TooManySections {
            count: 1_025,
            max: 1_024
        }
    );
    assert_eq!(
        decoded_after(|bytes| bytes[HEADER_SIZE + 2] = 2),
        FormatError::InvalidSectionFlags { flags: 2 }
    );
    assert!(matches!(
        decoded_after(|bytes| bytes.truncate(10)),
        FormatError::Truncated { .. }
    ));
}

fn read_layout(bytes: &[u8]) -> Result<FileLayout, LayoutError> {
    FileLayout::read_from(bytes).map_err(LayoutError::Format)
}

#[test]
fn golden_layout_reads_metadata_and_payload_on_demand() {
    let golden = golden();
    let layout = read_layout(&golden).expect("scan golden layout");
    assert_eq!(
        layout.file_length(),
        u64::try_from(golden.len()).expect("fixture length fits u64")
    );
    assert_eq!(layout.metadata().num_perm(), 128);
    assert_eq!(layout.sections().len(), 1);
    let keys = layout.section(SectionKind::Keys).expect("keys descriptor");
    assert_eq!(keys.payload_length(), 8);
    assert_eq!(
        layout.read_section(&golden, keys).expect("read keys"),
        7_u64.to_le_bytes()
    );
}

#[test]
fn range_reads_are_bounded() {
    let golden = golden();
    let layout = read_layout(&golden).expect("scan golden layout");
    let keys = layout.section(SectionKind::Keys).expect("keys descriptor");
    assert_eq!(
        layout
            .read_section_range(&golden, keys, 2, 3)
            .expect("bounded range"),
        7_u64.to_le_bytes()[2..5]
    );
    assert!(matches!(
        layout.read_section_range(&golden, keys, 7, 2),
        Err(LayoutError::RangeOutOfBounds { .. })
    ));
}

#[test]
fn layout_every_truncated_golden_prefix_is_rejected() {
    let golden = golden();
    for end in 0..golden.len() {
        assert!(read_layout(&golden[..end]).is_err(), "accepted prefix {end}");
    }
}

#[test]
fn payload_corruption_is_deferred_until_complete_section_read() {
    let mut bytes = golden();
    let last = bytes.len() - 1;
    bytes[last] ^= 1;
    let layout = read_layout(&bytes).expect("scan without payload read");
    let keys = layout.section(SectionKind::Keys).expect("keys descriptor");
    assert!(matches!(
        layout.read_section(&bytes, keys),
        Err(LayoutError::Format(
            FormatError::SectionChecksumMismatch { .. }
        ))
    ));
}

#[test]
fn unknown_optional_is_skipped_and_unknown_required_is_rejected() {
    let mut optional = golden();
    optional[HEADER_SIZE..HEADER_SIZE + 2].copy_from_slice(&999_u16.to_le_bytes());
    optional[HEADER_SIZE + 2..HEADER_SIZE + 4].copy_from_slice(&0_u16.to_le_bytes());
    let layout = read_layout(&optional).expect("unknown optional section");
    assert!(layout.sections().is_empty());

    let mut required = golden();
    required[HEADER_SIZE..HEADER_SIZE + 2].copy_from_slice(&999_u16.to_le_bytes());
    assert!(matches!(
        read_layout(&required),
        Err(LayoutError::Format(FormatError::UnknownRequiredSection {
            kind: 999
        }))
    ));
}

#[test]
fn malicious_section_length_is_rejected_before_payload_read() {
    let mut bytes = golden();
    bytes[HEADER_SIZE + 4..HEADER_SIZE + 12].copy_from_slice(&u64::MAX.to_le_bytes());
    assert!(matches!(
        read_layout(&bytes),
        Err(LayoutError::Format(FormatError::SectionTooLarge {
            length: u64::MAX
        }))
    ));
}

#[test]
fn a_scan_asks_for_one_frame_after_another() {
    let golden = golden();
    let mut scan = LayoutScan::begin(&golden[..HEADER_SIZE], golden.len() as u64).expect("header");
    let mut asked = Vec::new();
    while let Some(at) = scan.wanted().expect("frame") {
        asked.push(at);
        let start = at as usize;
        scan.supply(&golden[start..start + 16]).expect("frame");
    }
    assert_eq!(asked, vec![HEADER_SIZE as u64]);
    let layout = scan.finish().expect("layout");
    assert_eq!(layout.sections().len(), 1);
}

fn metadata() -> IndexMetadata {
    IndexMetadata::new(
        Algorithm::MinHashLsh,
        SignatureScheme::PariAffine32V1,
        CodecId::U64,
        128,
        7,
        threshold(0.8),
        32,
        4,
        0,
    )
    .expect("valid metadata")
}

fn container(payload: Vec<u8>) -> Vec<u8> {
    IndexFile::new(
        metadata(),
        vec![Section::new(SectionKind::Buckets, true, payload).expect("section")],
    )
    .expect("file")
    .encode()
    .expect("container")
}

#[test]
fn segment_round_trip_keeps_directory_lazy() {
    let first = [1_u64, 2, 3];
    let second = [7_u64, 9];
    let payload = encode_bucket_segment(&[
        BucketRecord::new(BucketKey::new(0, 11), &first),
        BucketRecord::new(BucketKey::new(1, 22), &second),
    ])
    .expect("encode");
    let bytes = container(payload);
    let layout = read_layout(&bytes).expect("layout");
    let section = layout.section(SectionKind::Buckets).expect("buckets");
    let locations = decode_bucket_segment(&layout, &bytes, section, 32).expect("decode");
    validate_global_bucket_order(&locations).expect("global order");
    assert_eq!(locations.len(), 2);
    assert_eq!(
        read_bucket_members(&layout, &bytes, locations[0]).expect("members"),
        first
    );
    assert_eq!(
        read_bucket_members(&layout, &bytes, locations[1]).expect("members"),
        second
    );
}

#[test]
fn member_corruption_is_detected_on_read() {
    let members = [5_u64, 6];
    let payload = encode_bucket_segment(&[BucketRecord::new(BucketKey::new(0, 11), &members)])
        .expect("encode");
    let mut bytes = container(payload);
    let last = bytes.len() - 1;
    bytes[last] ^= 0xFF;
    let layout = read_layout(&bytes).expect("layout");
    let section = layout.section(SectionKind::Buckets).expect("buckets");
    let locations = decode_bucket_segment(&layout, &bytes, section, 32).expect("decode");
    assert!(matches!(
        read_bucket_members(&layout, &bytes, locations[0]),
        Err(BucketError::MemberChecksumMismatch { .. })
    ));
}

#[test]
fn segments_reject_unsorted_buckets_and_foreign_bands() {
    let members = [5_u64];
    assert!(matches!(
        encode_bucket_segment(&[
            BucketRecord::new(BucketKey::new(1, 0), &members),
            BucketRecord::new(BucketKey::new(0, 9), &members),
        ]),
        Err(BucketError::Invalid { .. })
    ));
    assert!(BucketKey::new(0, 9).is_before(BucketKey::new(1, 0)));
    assert_eq!(bucket_record_size(3), Ok(56));

    let payload = encode_bucket_segment(&[BucketRecord::new(BucketKey::new(5, 11), &members)])
        .expect("encode");
    let bytes = container(payload);
    let layout = read_layout(&bytes).expect("layout");
    let section = layout.section(SectionKind::Buckets).expect("buckets");
    assert!(matches!(
        decode_bucket_segment(&layout, &bytes, section, 5),
        Err(BucketError::Invalid { .. })
    ));
    assert!(decode_bucket_segment(&layout, &bytes, section, 6).is_ok());
}

#[test]
fn directory_corruption_is_detected() {
    let members = [5_u64];
    let mut payload = encode_bucket_segment(&[BucketRecord::new(BucketKey::new(0, 11), &members)])
        .expect("encode");
    payload[40] ^= 1;
    let bytes = container(payload);
    let layout = read_layout(&bytes).expect("layout");
    let section = layout.section(SectionKind::Buckets).expect("buckets");
    assert!(matches!(
        decode_bucket_segment(&layout, &bytes, section, 32),
        Err(BucketError::DirectoryChecksumMismatch { .. })
    ));
}

#[test]
fn streaming_writer_matches_in_memory_encoder() {
    let first = [1_u64, 2, 3];
    let second = [7_u64, 9];
    let reference = encode_bucket_segment(&[
        BucketRecord::new(BucketKey::new(0, 11), &first),
        BucketRecord::new(BucketKey::new(1, 22), &second),
    ])
    .expect("reference");

    let mut member_bytes = Vec::new();
    for member in first.into_iter().chain(second) {
        member_bytes.extend_from_slice(&member.to_le_bytes());
    }
    let first_bytes = first.len() * 8;
    let records = [
        BucketWriteRecord::new(
            BucketKey::new(0, 11),
            u32::try_from(first.len()).expect("count"),
            crc32(&member_bytes[..first_bytes]),
        ),
        BucketWriteRecord::new(
            BucketKey::new(1, 22),
            u32::try_from(second.len()).expect("count"),
            crc32(&member_bytes[first_bytes..]),
        ),
    ];
    let (output, result) = write_bucket_segment(&records, &member_bytes).expect("stream");
    assert_eq!(output, reference);
    assert_eq!(
        result.bytes,
        u64::try_from(reference.len()).expect("length")
    );
    assert_eq!(result.checksum, crc32(&reference));

    let (mut written, mut stream) = SegmentStream::begin(&records).expect("directory");
    let mut at = 0;
    loop {
        let size = stream.next_chunk().expect("matching members");
        if size == 0 {
            break;
        }
        stream.accept(&member_bytes[at..at + size]);
        written.extend_from_slice(&member_bytes[at..at + size]);
        at += size;
    }
    assert_eq!(written, reference);
    assert_eq!(stream.finish(), result);
}

#[test]
fn streaming_writer_rejects_wrong_members() {
    let bytes = 1_u64.to_le_bytes();
    let key = BucketKey::new(0, 11);
    let right = BucketWriteRecord::new(key, 1, crc32(&bytes));
    let wrong = BucketWriteRecord::new(key, 1, crc32(&bytes) ^ 1);
    assert!(write_bucket_segment(&[right], &bytes).is_ok());
    assert!(matches!(
        write_bucket_segment(&[wrong], &bytes),
        Err(BucketError::MemberChecksumMismatch { .. })
    ));
    assert!(matches!(
        write_bucket_segment(&[right], &bytes[..7]),
        Err(BucketError::Invalid { .. })
    ));
    assert!(write_bucket_segment(&[right, right], &[bytes, bytes].concat()).is_err());
}

#[test]
fn bytes_round_trip() {
    let codec = BytesCodec;
    let value = vec![0, 1, 2, 255];
    assert_eq!(codec.id(), CodecId::Bytes);
    assert_eq!(
        codec
            .decode(&codec.encode(&value).expect("encode"))
            .expect("decode"),
        value
    );
}

#[test]
fn utf8_round_trip_and_invalid_utf8() {
    let codec = Utf8Codec;
    let value = String::from("Pari similarity");
    assert_eq!(
        codec
            .decode(&codec.encode(&value).expect("encode"))
            .expect("decode"),
        value
    );
    assert_eq!(codec.decode(&[0xFF]), Err(CodecError::InvalidUtf8));
}

#[test]
fn integer_codecs_are_little_endian_and_exact_width() {
    let unsigned = U64Codec;
    assert_eq!(
        unsigned.encode(&0x0102_0304_0506_0708).expect("encode"),
        vec![8, 7, 6, 5, 4, 3, 2, 1]
    );
    assert_eq!(
        unsigned.decode(&[8, 7, 6, 5, 4, 3, 2, 1]).expect("decode"),
        0x0102_0304_0506_0708
    );
    assert!(matches!(
        unsigned.decode(&[1, 2]),
        Err(CodecError::InvalidLength {
            expected: 8,
            actual: 2
        })
    ));

    let signed = I64Codec;
    assert_eq!(
        signed
            .decode(&signed.encode(&-42).expect("encode"))
            .expect("decode"),
        -42
    );
}

#[test]
fn json_round_trip_is_data_only() {
    let codec = JsonValueCodec;
    let mut object = serde_json::Map::new();
    object.insert("id".to_string(), serde_json::Value::from(7));
    object.insert(
        "tags".to_string(),
        serde_json::Value::Array(vec![
            serde_json::Value::from("near"),
            serde_json::Value::from("duplicate"),
        ]),
    );
    let value = serde_json::Value::Object(object);
    let encoded = codec.encode(&value).expect("encode");
    assert_eq!(
        encoded,
        b"{\"id\":7,\"tags\":[\"near\",\"duplicate\"]}".to_vec()
    );
    assert_eq!(codec.decode(&encoded).expect("decode"), value);
    assert!(matches!(
        codec.decode(b"{"),
        Err(CodecError::InvalidJson { .. })
    ));
    assert_eq!(
        JsonValueCodec::encoded(Err("no".to_string())),
        Err(CodecError::InvalidJson {
            message: "no".to_string()
        })
    );
}

#[test]
fn oversized_keys_are_rejected() {
    let codec = BytesCodec;
    let largest = vec![0_u8; 16_777_216];
    assert!(codec.encode(&largest).is_ok());
    assert_eq!(
        codec.decode(&vec![0_u8; 16_777_217]),
        Err(CodecError::PayloadTooLarge {
            actual: 16_777_217,
            max: 16_777_216
        })
    );
}

#[test]
fn checksums_are_those_of_crc32() {
    let section = Section::new(SectionKind::Keys, true, b"123456789".to_vec()).expect("section");
    let bytes = IndexFile::new(metadata(), vec![section])
        .expect("file")
        .encode()
        .expect("container");
    let sum = &bytes[HEADER_SIZE + 12..HEADER_SIZE + 16];
    assert_eq!(sum, 0xCBF4_3926_u32.to_le_bytes());

    let key = BucketKey::new(0, 11);
    let members = 7_u64.to_le_bytes();
    let records = [BucketWriteRecord::new(key, 1, crc32(&members))];
    let (segment, written) = write_bucket_segment(&records, &members).expect("segment");
    assert_eq!(written.checksum, crc32(&segment));
}

#[test]
fn every_altered_byte_of_a_header_is_rejected() {
    let golden = golden();
    for at in 0..HEADER_SIZE {
        let mut bytes = golden.clone();
        bytes[at] ^= 0x10;
        let result = IndexFile::decode(&bytes);
        assert!(result.is_err(), "accepted byte {at}");
        if (12..36).contains(&at) || (40..68).contains(&at) {
            assert!(
                matches!(result, Err(FormatError::HeaderChecksumMismatch { .. })),
                "byte {at}"
            );
        }
    }
}

#[test]
fn every_altered_byte_of_a_payload_shows_when_it_is_read() {
    let golden = golden();
    let layout = read_layout(&golden).expect("layout");
    let keys = layout.section(SectionKind::Keys).expect("keys");
    for at in HEADER_SIZE + 16..golden.len() {
        let mut bytes = golden.clone();
        bytes[at] ^= 0x80;
        assert!(read_layout(&bytes).is_ok());
        assert!(matches!(
            layout.read_section(&bytes, keys),
            Err(LayoutError::Format(
                FormatError::SectionChecksumMismatch { .. }
            ))
        ));
        assert!(IndexFile::decode(&bytes).is_err());
    }
}

#[test]
fn every_altered_byte_of_a_member_list_is_noticed() {
    let first = [1_u64, 2, 3];
    let second = [7_u64, 9];
    let payload = encode_bucket_segment(&[
        BucketRecord::new(BucketKey::new(0, 11), &first),
        BucketRecord::new(BucketKey::new(1, 22), &second),
    ])
    .expect("encode");
    let whole = container(payload);
    let layout = read_layout(&whole).expect("layout");
    let section = layout.section(SectionKind::Buckets).expect("buckets");
    let locations = decode_bucket_segment(&layout, &whole, section, 32).expect("decode");
    let start = (section.payload_offset() + locations[0].member_offset()) as usize;
    for at in start..start + 24 {
        let mut bytes = whole.clone();
        bytes[at] ^= 0x01;
        let found = decode_bucket_segment(&layout, &bytes, section, 32).expect("decode");
        assert_eq!(found, locations);
        assert!(matches!(
            read_bucket_members(&layout, &bytes, locations[0]),
            Err(BucketError::MemberChecksumMismatch { expected, actual })
                if expected == locations[0].member_checksum() && actual != expected
        ));
        assert_eq!(
            read_bucket_members(&layout, &bytes, locations[1]).expect("untouched"),
            second
        );
    }
}

#[test]
fn section_counts_are_bounded() {
    assert_eq!(check_section_count(1_024), Ok(1_024));
    assert_eq!(
        check_section_count(1_025),
        Err(FormatError::TooManySections {
            count: 1_025,
            max: 1_024
        })
    );
}
