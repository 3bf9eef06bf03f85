//! Local stores: conversion, bounded building, lazy queries and publication.

use pari::format::buckets::{decode_bucket_segment, BucketError};
use pari::format::codec::CodecId;
use pari::format::container::{push_frame, IndexFile, Section, SectionKind};
use pari::format::header::{Algorithm, IndexMetadata, SignatureScheme};
use pari::format::layout::FileLayout;
use pari::index::lsh::LshIndex32;
use pari::index::params::{band_hashes, candidate_params, LshParams};
use pari::sketch::minhash32::MinHash32;
use pari::store::bounded::{build_external, BuildError, BuildOptions, BuildSource, BuildStats};
use pari::store::convert::build_from_snapshot;
use pari::store::creation::{
    CreateAction, CreateEvent, CreateFault, CreateStage, Creation, TEMPORARY_CREATE_ATTEMPTS,
};
use pari::store::lazy::LazyIndex32;
use pari::store::membership::{bucket_items, group};
use pari::store::merge::{
    merge_runs, push_record, read_record, smallest, spill_runs, DirectoryBuilder, SpillBuffer,
};
use pari::store::overlay::overlay_answer;
use pari::store::segments::directory_ends;
use pari::store::snapshot::{decode_phase1_band_hashes, decode_phase1_keys, LazyStoreError};
use pari::store::source::{encode_band_hashes, encode_keys, encode_snapshot};
use pari::threshold::Threshold;

const PARAMS: LshParams = LshParams { bands: 9, rows: 13 };

fn threshold(value: f64) -> Threshold {
    Threshold::from_bits(value.to_bits())
}

fn probability(similarity: f64, params: LshParams) -> f64 {
    1.0 - (1.0 - similarity.powf(params.rows as f64)).powf(params.bands as f64)
}

fn simpson(function: impl Fn(f64) -> f64, start: f64, end: f64) -> f64 {
    let step = (end - start) / 64.0;
    let mut total = function(start) + function(end);
    for segment in 1..64 {
        let weight = if segment % 2 == 0 { 2.0 } else { 4.0 };
        total += weight * function(start + f64::from(segment) * step);
    }
    total * step / 3.0
}

fn tuned(cut: f64, num_perm: usize, seed: u64) -> LshIndex32 {
    let candidates = candidate_params(num_perm);
    let errors: Vec<u64> = candidates
        .iter()
        .map(|params| {
            let below = simpson(|s| probability(s, *params), 0.0, cut);
            let above = simpson(|s| 1.0 - probability(s, *params), cut, 1.0);
            (0.5 * (below + above)).to_bits()
        })
        .collect();
    LshIndex32::new(threshold(cut), num_perm, seed, &candidates, &errors).expect("valid index")
}

fn sketch(base: u64) -> MinHash32 {
    let mut sketch = MinHash32::new(128, 7).expect("valid sketch");
    for value in base..base + 40 {
        sketch.update(&value.to_le_bytes());
    }
    sketch
}

/// A snapshot file of the sketches, numbered from zero.
fn snapshot(sketches: &[MinHash32]) -> Vec<u8> {
    let mut keys = (sketches.len() as u64).to_le_bytes().to_vec();
    let mut hashes = (sketches.len() as u64).to_le_bytes().to_vec();
    for (key, sketch) in sketches.iter().enumerate() {
        keys.extend_from_slice(&(key as u64).to_le_bytes());
        for hash in band_hashes(sketch.signature(), PARAMS) {
            hashes.extend_from_slice(&hash.to_le_bytes());
        }
    }
    let metadata = IndexMetadata::new(
        Algorithm::MinHashLsh,
        SignatureScheme::PariAffine32V1,
        CodecId::U64,
        128,
        7,
        threshold(0.8),
        PARAMS.bands as u32,
        PARAMS.rows as u32,
        0,
    )
    .expect("valid metadata");
    IndexFile::new(
        metadata,
        vec![
            Section::new(SectionKind::Keys, true, keys).expect("keys"),
            Section::new(SectionKind::BandHashes, true, hashes).expect("hashes"),
        ],
    )
    .expect("file")
    .encode()
    .expect("snapshot")
}

fn memory(sketches: &[MinHash32]) -> LshIndex32 {
    let mut index = tuned(0.8, 128, 7);
    assert_eq!(index.params(), PARAMS);
    let items: Vec<(u64, &MinHash32)> = sketches
        .iter()
        .enumerate()
        .map(|(key, value)| (key as u64, value))
        .collect();
    index.insert_many(&items).expect("insert");
    index
}

fn source_fixture() -> (Vec<u8>, Vec<MinHash32>) {
    let sketches: Vec<MinHash32> = (0_u64..32)
        .map(|item| sketch(item.saturating_mul(1_000)))
        .collect();
    (snapshot(&sketches), sketches)
}

fn build_fixture() -> (Vec<u8>, Vec<u8>, Vec<MinHash32>) {
    let sketches = vec![sketch(0), sketch(5), sketch(1_000), sketch(2_000)];
    let source = snapshot(&sketches);
    let lazy = build_from_snapshot(&source).expect("build lazy");
    (source, lazy, sketches)
}

#[test]
fn tiny_spills_are_byte_identical_to_reference_builder() {
    let (source, _) = source_fixture();
    let reference = build_from_snapshot(&source).expect("reference build");
    let (external, stats) = build_external(
        &source,
        BuildOptions {
            max_buffer_records: 7,
        },
    )
    .expect("external build");
    assert!(stats.spill_runs > 1);
    assert!(stats.peak_buffered_records <= 7);
    assert_eq!(external, reference);
    assert_eq!(stats.records, 288);
    assert_eq!(stats.output_bytes, reference.len() as u64);
}

#[test]
fn externally_built_queries_match_phase1() {
    let (source, sketches) = source_fixture();
    let (external, _) = build_external(
        &source,
        BuildOptions {
            max_buffer_records: 11,
        },
    )
    .expect("external build");
    let phase1 = memory(&sketches);
    let mut lazy = LazyIndex32::open(&external).expect("lazy");
    for query in sketches.iter().take(8) {
        assert_eq!(
            lazy.query(query).expect("lazy query"),
            phase1.query(query).expect("phase1 query")
        );
    }
}

#[test]
fn written_snapshots_are_read_back() {
    let (source, sketches) = source_fixture();
    let keys: Vec<u64> = (0..sketches.len() as u64).collect();
    let rows: Vec<Vec<u64>> = sketches
        .iter()
        .map(|sketch| band_hashes(sketch.signature(), PARAMS))
        .collect();
    let metadata = *IndexFile::decode(&source).expect("source").metadata();
    assert_eq!(
        encode_snapshot(metadata, &keys, &rows).expect("snapshot"),
        source
    );
    assert_eq!(decode_phase1_keys(&encode_keys(&keys)).expect("keys"), keys);
    assert_eq!(
        decode_phase1_band_hashes(&encode_band_hashes(&rows), PARAMS.bands).expect("rows"),
        rows
    );
    assert_eq!(encode_keys(&[3]), vec![1, 0, 0, 0, 0, 0, 0, 0, 3, 0, 0, 0, 0, 0, 0, 0]);
}

#[test]
fn zero_buffer_is_rejected_without_destination() {
    let (source, _) = source_fixture();
    assert!(matches!(
        build_external(
            &source,
            BuildOptions {
                max_buffer_records: 0,
            },
        ),
        Err(BuildError::InvalidOptions { .. })
    ));
}

#[test]
fn damaged_sources_are_rejected() {
    let (source, _) = source_fixture();
    let options = BuildOptions::default();
    let mut corrupt = source.clone();
    let last = corrupt.len() - 1;
    corrupt[last] ^= 1;
    assert!(matches!(
        build_external(&corrupt, options),
        Err(BuildError::Format(_)) | Err(BuildError::Layout(_))
    ));
    assert!(matches!(
        build_from_snapshot(&corrupt),
        Err(LazyStoreError::Layout(_))
    ));
    assert!(matches!(
        build_external(&source[..source.len() - 1], options),
        Err(BuildError::Layout(_))
    ));
    let bare = IndexFile::new(
        *IndexFile::decode(&source).expect("source").metadata(),
        Vec::new(),
    )
    .expect("file")
    .encode()
    .expect("bytes");
    assert_eq!(
        build_external(&bare, options).expect_err("no sections"),
        BuildError::InvalidSource {
            reason: "missing keys section"
        }
    );
    assert!(matches!(
        build_from_snapshot(&bare),
        Err(LazyStoreError::InvalidSnapshot { .. })
    ));
    assert!(LazyIndex32::open(&source).is_err());
}

#[test]
fn lazy_queries_match_phase1_and_memory_reference() {
    let (_, lazy_file, sketches) = build_fixture();
    let memory = memory(&sketches);
    let mut reference =
        LshIndex32::with_params(threshold(0.8), 128, 7, PARAMS).expect("reference index");
    for (key, value) in sketches.iter().enumerate() {
        reference.insert(key as u64, value).expect("insert reference");
    }
    let mut lazy = LazyIndex32::open(&lazy_file).expect("open lazy");
    let initial = lazy.stats();
    assert!(initial.distribution.memberships > 0);
    assert!(initial.queries.is_none());
    let explanation = lazy.explain().expect("explain");
    assert_eq!(explanation.expected_items, 4);
    assert_eq!(explanation.parameter_source.as_str(), "existing");
    assert_eq!(explanation.requested_storage.as_str(), "lazy");
    lazy.set_observability(true);
    for query in &sketches {
        assert_eq!(
            lazy.query(query).expect("lazy query"),
            memory.query(query).expect("memory query")
        );
        assert_eq!(
            lazy.query(query).expect("lazy query"),
            reference.query(query).expect("reference query")
        );
    }
    let observed = lazy.stats().queries.expect("query metrics");
    assert_eq!(observed.operations, 8);
    assert_eq!(observed.queries, 8);
    assert!(observed.candidates > 0);
    lazy.verify().expect("verify");
}

#[test]
fn lazy_batches_match_scalar_queries() {
    let (_, lazy_file, sketches) = build_fixture();
    let mut lazy = LazyIndex32::open(&lazy_file).expect("open lazy");
    let asked: Vec<&MinHash32> = sketches.iter().collect();
    let batch = lazy.query_many(&asked).expect("batch");
    for (query, answer) in sketches.iter().zip(batch) {
        assert_eq!(lazy.query(query).expect("scalar"), answer);
    }
}

#[test]
fn lazy_queries_reject_foreign_sketches() {
    let (_, lazy_file, _) = build_fixture();
    let mut lazy = LazyIndex32::open(&lazy_file).expect("open lazy");
    assert_eq!(
        lazy.query(&MinHash32::new(128, 8).expect("sketch")),
        Err(LazyStoreError::IncompatibleSeed {
            expected: 7,
            actual: 8
        })
    );
    assert_eq!(
        lazy.query(&MinHash32::new(64, 7).expect("sketch")),
        Err(LazyStoreError::IncompatiblePermutationCount {
            expected: 128,
            actual: 64
        })
    );
}

#[test]
fn converted_snapshot_preserves_band_hash_metadata() {
    let (_, lazy_file, _) = build_fixture();
    let layout = FileLayout::read_from(&lazy_file).expect("layout");
    assert!(layout.section(SectionKind::Keys).is_some());
    assert!(layout.section(SectionKind::BandHashes).is_some());
    assert!(layout
        .sections()
        .iter()
        .any(|section| section.kind() == SectionKind::Buckets));
}

#[test]
fn corrupt_bucket_payload_fails_verification() {
    let (_, mut lazy_file, _) = build_fixture();
    let layout = FileLayout::read_from(&lazy_file).expect("layout");
    let bucket = layout
        .sections()
        .iter()
        .copied()
        .find(|section| section.kind() == SectionKind::Buckets)
        .expect("bucket section");
    let position = bucket
        .payload_offset()
        .checked_add(bucket.payload_length().saturating_sub(1))
        .expect("position");
    lazy_file[position as usize] = 0xA5;

    let lazy = LazyIndex32::open(&lazy_file).expect("directory still opens");
    assert!(lazy.verify().is_err());
}

/// Perform a creation on two names: how each action goes is up to the caller.
fn created(
    mut names: (bool, Option<&'static str>),
    mut go: impl FnMut(CreateAction, &mut (bool, Option<&'static str>)) -> Option<CreateEvent>,
) -> (CreateStage, (bool, Option<&'static str>)) {
    let mut creation = Creation::begin();
    while let Some(action) = creation.action() {
        let event = match go(action, &mut names) {
            Some(event) => event,
            None => {
                match action {
                    CreateAction::Allocate => names.0 = true,
                    CreateAction::RemoveTemporary | CreateAction::Discard => names.0 = false,
                    _ => {}
                }
                if action == CreateAction::Link {
                    if names.1.is_some() {
                        CreateEvent::Taken
                    } else {
                        names.1 = Some("new lazy index");
                        CreateEvent::Done
                    }
                } else {
                    CreateEvent::Done
                }
            }
        };
        creation.advance(event);
    }
    (creation.stage(), names)
}

#[test]
fn pre_existing_destination_is_preserved_with_typed_error() {
    let existing = "bytes owned by an earlier writer";
    let (stage, names) = created((false, Some(existing)), |_, _| None);
    assert_eq!(
        stage,
        CreateStage::Failed {
            fault: CreateFault::AlreadyExists
        }
    );
    assert_eq!(names, (false, Some(existing)));
}

#[test]
fn concurrent_destination_claim_is_preserved_and_owned_temporary_is_removed() {
    let concurrent = "bytes owned by the concurrent writer";
    let (stage, names) = created((false, None), |action, names| {
        if action == CreateAction::Write {
            names.1 = Some(concurrent);
        }
        None
    });
    assert_eq!(
        stage,
        CreateStage::Failed {
            fault: CreateFault::AlreadyExists
        }
    );
    assert_eq!(names, (false, Some(concurrent)));
}

#[test]
fn successful_publication_is_byte_exact_and_removes_temporary() {
    let (stage, names) = created((false, None), |_, _| None);
    assert_eq!(stage, CreateStage::Created);
    assert_eq!(names, (false, Some("new lazy index")));
}

#[test]
fn creation_gives_up_after_so_many_temporary_names() {
    let mut asked = 0;
    let (stage, _) = created((false, None), |action, _| {
        if action == CreateAction::Allocate {
            asked += 1;
            Some(CreateEvent::Taken)
        } else {
            None
        }
    });
    assert_eq!(asked, TEMPORARY_CREATE_ATTEMPTS);
    assert_eq!(
        stage,
        CreateStage::Failed {
            fault: CreateFault::NoTemporaryName
        }
    );
    for failing in [
        CreateAction::Write,
        CreateAction::Link,
        CreateAction::RemoveTemporary,
        CreateAction::SyncParent,
    ] {
        let (stage, names) = created((false, None), |action, _| {
            (action == failing).then_some(CreateEvent::Failed)
        });
        assert_eq!(
            stage,
            CreateStage::Failed {
                fault: CreateFault::Io(failing)
            }
        );
        assert!(!names.0);
    }
}

#[test]
fn runs_are_sorted_and_merge_back() {
    let keys = vec![4_u64, 3, 2];
    let rows = vec![vec![9_u64, 1], vec![9, 2], vec![8, 1]];
    let runs = spill_runs(&keys, &rows, 4);
    assert_eq!(runs.len(), 2);
    assert_eq!(runs[0], vec![(0, 9, 3), (0, 9, 4), (1, 1, 4), (1, 2, 3)]);
    let merged = merge_runs(&runs);
    assert_eq!(
        merged,
        vec![
            (0, 8, 2),
            (0, 9, 3),
            (0, 9, 4),
            (1, 1, 2),
            (1, 1, 4),
            (1, 2, 3)
        ]
    );
    assert_eq!(
        smallest(&vec![Some((1, 0, 0)), None, Some((0, 7, 7))]),
        Some(2)
    );
    assert_eq!(smallest(&vec![None]), None);

    let buckets = group(&merged);
    assert_eq!(buckets.len(), 4);
    assert_eq!(buckets[1].members, vec![3, 4]);
    let whole = bucket_items(&keys, &rows);
    assert_eq!(whole.len(), 4);

    let mut directory = DirectoryBuilder::new();
    for record in merged {
        assert!(directory.push(record));
    }
    assert_eq!(directory.entries().len(), 4);
    assert_eq!(directory.entries()[1].member_count(), 2);
}

#[test]
fn spill_records_round_trip() {
    let mut bytes = Vec::new();
    push_record(&mut bytes, (3, 5, u64::MAX));
    assert_eq!(bytes.len(), 20);
    assert_eq!(bytes[0], 3);
    assert_eq!(read_record(&bytes), (3, 5, u64::MAX));
}

#[test]
fn a_spill_buffer_empties_when_it_is_full() {
    let mut buffer = SpillBuffer::new(2);
    assert_eq!(buffer.push((0, 2, 0)), None);
    assert_eq!(buffer.push((0, 1, 0)), Some(vec![(0, 1, 0), (0, 2, 0)]));
    assert_eq!(buffer.push((0, 3, 0)), None);
    assert_eq!(buffer.finish(), Some(vec![(0, 3, 0)]));
    assert_eq!(SpillBuffer::new(1).finish(), None);
}

#[test]
fn overlaid_answers_keep_the_committed_and_add_the_fresh() {
    assert_eq!(overlay_answer(&[1, 4, 9], &[4, 7], &[2, 9]), vec![1, 2, 9]);
    assert_eq!(overlay_answer(&[1, 4, 9], &[1, 4, 9], &[4]), vec![4]);
    assert_eq!(overlay_answer(&[3, 1], &[], &[]), vec![1, 3]);
    assert_eq!(overlay_answer(&[], &[5], &[]), Vec::<u64>::new());
}

#[test]
fn overlaid_queries_match_the_whole_index() {
    let committed: Vec<MinHash32> = vec![sketch(0), sketch(1), sketch(1_000)];
    let file = build_from_snapshot(&snapshot(&committed)).expect("lazy file");
    let mut lazy = LazyIndex32::open(&file).expect("open");

    let mut fresh = tuned(0.8, 128, 7);
    fresh.insert(1, &sketch(1_000)).expect("insert again");
    fresh.insert(8, &sketch(0)).expect("insert");

    let mut whole = memory(&committed);
    assert!(whole.remove(1));
    whole.insert(1, &sketch(1_000)).expect("insert again");
    whole.insert(8, &sketch(0)).expect("insert");

    for base in [0, 1, 1_000, 50_000] {
        let wanted = sketch(base);
        let older = lazy.query(&wanted).expect("committed answer");
        let newer = fresh.query(&wanted).expect("fresh answer");
        assert_eq!(
            overlay_answer(&older, &[1], &newer),
            whole.query(&wanted).expect("whole answer")
        );
    }
}

fn renamed(sketches: &[MinHash32], keys: &[u64]) -> Vec<u8> {
    let rows: Vec<Vec<u64>> = sketches
        .iter()
        .map(|sketch| band_hashes(sketch.signature(), PARAMS))
        .collect();
    let metadata = *IndexFile::decode(&snapshot(sketches)).expect("source").metadata();
    encode_snapshot(metadata, keys, &rows).expect("snapshot")
}

#[test]
fn builders_agree_where_keys_ascend_within_buckets() {
    let apart = renamed(&[sketch(0), sketch(5_000)], &[2, 1]);
    let reference = build_from_snapshot(&apart).expect("reference build");
    for limit in 1..20 {
        let (external, stats) = build_external(
            &apart,
            BuildOptions {
                max_buffer_records: limit,
            },
        )
        .expect("external build");
        assert_eq!(external, reference);
        assert!(stats.peak_buffered_records <= limit);
    }

    let together = renamed(&[sketch(0), sketch(0)], &[2, 1]);
    let (external, _) = build_external(&together, BuildOptions::default()).expect("build");
    assert_ne!(external, build_from_snapshot(&together).expect("reference build"));
}

#[test]
fn sources_are_read_in_place() {
    let sketches = [sketch(0), sketch(5_000)];
    let source = renamed(&sketches, &[2, 1]);
    let opened = BuildSource::open(&source, BuildOptions::default()).expect("open");
    assert_eq!(opened.items(), 2);
    assert_eq!((opened.key(0), opened.key(1)), (2, 1));
    assert_eq!(opened.row(1), band_hashes(sketches[1].signature(), PARAMS));
    assert_eq!(opened.keys_payload(), encode_keys(&[2, 1]));
    assert_eq!(opened.metadata().bands(), PARAMS.bands as u32);
    assert_eq!(opened.hashes_payload().len(), 8 + 2 * 8 * PARAMS.bands);
    assert!(matches!(
        BuildSource::open(
            &source,
            BuildOptions {
                max_buffer_records: 0
            }
        ),
        Err(BuildError::InvalidOptions { .. })
    ));
}

#[test]
fn directories_are_cut_into_segments() {
    let mut directory = DirectoryBuilder::new();
    assert_eq!(directory_ends(&directory), Some(vec![0]));
    for hash in 0..3 {
        assert!(directory.push((0, hash, 7)));
    }
    assert_eq!(directory_ends(&directory), Some(vec![3]));
}

#[test]
fn frames_stand_before_payloads() {
    let mut frame = Vec::new();
    push_frame(&mut frame, SectionKind::Keys, true, 3, 0x0102_0304);
    assert_eq!(
        frame,
        vec![SectionKind::Keys.as_raw() as u8, 0, 1, 0, 3, 0, 0, 0, 0, 0, 0, 0, 4, 3, 2, 1]
    );
}

#[test]
fn damaged_member_lists_show_when_they_are_read() {
    let (_, whole, sketches) = build_fixture();
    let layout = FileLayout::read_from(&whole).expect("layout");
    let section = layout
        .sections()
        .iter()
        .copied()
        .find(|section| section.kind() == SectionKind::Buckets)
        .expect("bucket section");
    let locations =
        decode_bucket_segment(&layout, &whole, section, PARAMS.bands).expect("directory");
    let start = (section.payload_offset() + locations[0].member_offset()) as usize;
    let end = (section.payload_offset() + section.payload_length()) as usize;
    let mut bytes = whole.clone();
    for byte in &mut bytes[start..end] {
        *byte ^= 0xFF;
    }
    let before = LazyIndex32::open(&whole).expect("open").stats();
    let mut lazy = LazyIndex32::open(&bytes).expect("lists are not read");
    assert_eq!(lazy.stats(), before);
    assert!(matches!(
        lazy.query(&sketches[0]),
        Err(LazyStoreError::Bucket(
            BucketError::MemberChecksumMismatch { .. }
        ))
    ));

    let mut directory = whole.clone();
    directory[start - 1] ^= 0xFF;
    assert!(matches!(
        LazyIndex32::open(&directory),
        Err(LazyStoreError::Bucket(
            BucketError::DirectoryChecksumMismatch { .. }
        ))
    ));
}

#[test]
fn build_measurements_cap_the_buffer() {
    let small = BuildStats::of_run(5, 1, 7, 3, 900);
    assert_eq!(small.peak_buffered_records, 5);
    let large = BuildStats::of_run(288, 42, 7, 270, 9_000);
    assert_eq!(
        large,
        BuildStats {
            records: 288,
            spill_runs: 42,
            peak_buffered_records: 7,
            buckets: 270,
            output_bytes: 9_000
        }
    );
}
