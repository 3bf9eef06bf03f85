//! Rules of the command-line program, of the bindings and of error messages.

use pari::backend::capability::BackendCapability;
use pari::backend::error::{BackendError, BackendIndexError, Corruption};
use pari::bench::measure::Quantity;
use pari::binding::{build_sketches, roll_back, BindingError, BindingErrorKind, StoreFault};
use pari::cli::dedup::{collect_groups, collect_pairs, dedup_lines, DedupOutput};
use pari::cli::output::{
    distribution_line, group_line, index_line, join_u64, pair_line, plan_lines, search_line,
    stats_lines, verify_line, CurveText, StoreFigures,
};
use pari::cli::progress::{
    budget_bytes, candidate_rate, validate_dedup, DedupOptionError, Progress,
};
use pari::cli::record::{make_sketch, RecordError};
use pari::cli::session::IndexSession;
use pari::cli::transaction::{Action, Event, Fault, Publication, Stage};
use pari::cli::verify::{verify, Verification, VerifyError, VerifyResult};
use pari::format::buckets::{
    encode_bucket_segment, BucketError, BucketKey, BucketRecord,
};
use pari::format::codec::{CodecError, CodecId};
use pari::format::container::{IndexFile, Section, SectionKind};
use pari::format::error::FormatError;
use pari::format::header::{Algorithm, IndexMetadata, SignatureScheme};
use pari::format::layout::LayoutError;
use pari::index::grouping::{group_pairs, GroupError};
use pari::index::lsh::LshIndex32;
use pari::index::metrics::BucketDistribution;
use pari::index::params::{band_hashes, candidate_params, LshError, LshParams};
use pari::index::planner::{explain_lsh, plan_lsh, LshPlanError, LshPlanOptions, StorageMode};
use pari::ratio::Ratio;
use pari::sketch::minhash32::MinHash32;
use pari::sketch::MinHashError;
use pari::store::bounded::BuildError;
use pari::store::convert::build_from_snapshot;
use pari::store::lazy::LazyIndex32;
use pari::store::snapshot::LazyStoreError;
use pari::store::source::encode_snapshot;
use pari::text::{lines_of, normalize, parse_number, spells, words_of, NumberError};
use pari::threshold::Threshold;

fn threshold(value: f64) -> Threshold {
    Threshold::from_bits(value.to_bits())
}

fn index() -> LshIndex32 {
    LshIndex32::with_params(threshold(0.8), 128, 7, LshParams::new(32, 4)).expect("valid index")
}

fn sketch(values: &[&str]) -> MinHash32 {
    let owned: Vec<String> = values.iter().map(|value| value.to_string()).collect();
    make_sketch(Some(&owned), None, None, 128, 7).expect("valid record")
}

#[test]
fn records_have_values_or_a_signature() {
    let values = vec!["rust".to_string(), "search".to_string()];
    let direct = make_sketch(Some(&values), None, None, 8, 7).expect("values");
    let mut expected = MinHash32::new(8, 7).expect("sketch");
    expected.update(b"rust");
    expected.update(b"search");
    assert_eq!(direct, expected);

    let signature = expected.signature().to_vec();
    let scheme = "pari-affine32-v1".to_string();
    assert_eq!(
        make_sketch(None, Some(&signature), Some(&scheme), 8, 7),
        Ok(expected)
    );
    assert_eq!(
        make_sketch(Some(&values), None, Some(&scheme), 8, 7),
        Err(RecordError::UnexpectedScheme)
    );
    assert_eq!(
        make_sketch(None, Some(&signature), None, 8, 7),
        Err(RecordError::MissingScheme)
    );
    let other = "other".to_string();
    assert_eq!(
        make_sketch(None, Some(&signature), Some(&other), 8, 7),
        Err(RecordError::UnsupportedScheme {
            scheme: "other".to_string()
        })
    );
    assert_eq!(
        make_sketch(None, Some(&signature), Some(&scheme), 9, 7),
        Err(RecordError::SignatureLength {
            found: 8,
            expected: 9
        })
    );
    assert_eq!(
        make_sketch(Some(&values), Some(&signature), None, 8, 7),
        Err(RecordError::Both)
    );
    assert_eq!(
        make_sketch(None, None, None, 8, 7),
        Err(RecordError::Neither)
    );
    assert_eq!(
        make_sketch(Some(&values), None, None, 0, 7),
        Err(RecordError::Sketch(MinHashError::InvalidPermutationCount {
            requested: 0
        }))
    );
}

#[test]
fn sessions_insert_in_batches() {
    let mut session = IndexSession::new(index(), 2).expect("positive batch size");
    assert_eq!(session.push(1, sketch(&["a"])), Ok(None));
    assert_eq!(session.push(2, sketch(&["a"])), Ok(Some(2)));
    assert_eq!(session.push(3, sketch(&["b"])), Ok(None));
    let (index, completed) = session.finish().expect("last batch");
    assert_eq!(completed, 3);
    assert_eq!(index.len(), 3);
    assert!(IndexSession::new(index, 0).is_none());

    let mut duplicate = IndexSession::new(self::index(), 2).expect("positive batch size");
    assert_eq!(duplicate.push(1, sketch(&["a"])), Ok(None));
    assert_eq!(
        duplicate.push(1, sketch(&["a"])),
        Err(LshError::DuplicateKey { key: 1 })
    );
}

#[test]
fn deduplication_writes_pairs_or_groups() {
    let mut index = index();
    index
        .insert_many(&[
            (1, &sketch(&["new york", "rust", "search"])),
            (2, &sketch(&["new york", "rust", "search"])),
            (3, &sketch(&["biology", "cell", "protein"])),
        ])
        .expect("insert");
    assert_eq!(collect_pairs(&index), vec![(1, 2)]);
    assert_eq!(collect_groups(&index, 1).len(), 2);
    assert_eq!(
        dedup_lines(&index, DedupOutput::Pairs, 2),
        vec!["1\t2".to_string()]
    );
    assert_eq!(
        dedup_lines(&index, DedupOutput::Groups, 1),
        vec!["1\t1,2".to_string(), "3\t3".to_string()]
    );
    assert_eq!(
        dedup_lines(&index, DedupOutput::Groups, 2),
        vec!["1\t1,2".to_string()]
    );
    assert_eq!(validate_dedup(1, 1), Ok(()));
    assert!(matches!(
        validate_dedup(0, 0),
        Err(DedupOptionError::MinSize)
    ));
    assert!(matches!(
        validate_dedup(1, 0),
        Err(DedupOptionError::BatchSize)
    ));
}

#[test]
fn lines_have_fixed_forms() {
    assert_eq!(join_u64(&[3, 1, 20]), "3,1,20");
    assert_eq!(join_u64(&[]), "");
    assert_eq!(pair_line(4, 17), "4\t17");
    let groups = group_pairs(&[(9, 4)], 2);
    assert_eq!(group_line(&groups[0]), "4\t4,9");
    let id = "q1".to_string();
    assert_eq!(search_line(0, Some(&id), &[5, 6]), "0\tq1\t5,6");
    assert_eq!(search_line(1, None, &[]), "1\t-\t");
    assert!(index_line(3, "out.pari", 456, 9, 13).contains("3"));
    let distribution = BucketDistribution::from_sizes(&[1, 3]);
    assert!(distribution_line("committed", &distribution, "2.0").contains("committed"));
    let result = VerifyResult {
        sections: 3,
        bucket_sections: 1,
        buckets: 2,
        members_checked: 4,
    };
    assert!(verify_line(&result).contains("4"));
    let figures = StoreFigures {
        items: 3,
        file_bytes: 456,
        num_perm: 128,
        seed: 7,
        bands: 9,
        rows: 13,
        committed_buckets: 2,
        overlay_buckets: 0,
        suppressed_base_keys: 0,
        dirty: false,
        committed: distribution,
        overlay: BucketDistribution::empty(),
    };
    let lines = stats_lines(&figures, "0.8", "2.0", "0.0");
    assert!(lines.iter().any(|line| line.contains("0.8")));
}

#[test]
fn plans_are_told_line_by_line() {
    let options = LshPlanOptions::new(10, threshold(0.8), 128).memory_budget_bytes(1_000_000);
    let plan = explain_lsh(options, LshParams::new(16, 8)).expect("plan");
    let curve = CurveText {
        threshold: "0.8".to_string(),
        probability: "0.9".to_string(),
        similarity: "0.7".to_string(),
        false_positive: "0.1".to_string(),
        false_negative: "0.2".to_string(),
    };
    let lines = plan_lines(&plan, &curve);
    assert_eq!(lines[1], "items: 10");
    assert_eq!(lines[2], "threshold: 0.8");
    assert_eq!(lines[4], "parameters: 16 bands x 8 rows (existing)");
    assert!(lines.iter().any(|line| line == "memory budget bytes: 1000000"));
}

#[test]
fn progress_is_told_at_intervals() {
    assert!(Progress::new(0).is_none());
    let progress = Progress::new(3).expect("positive interval");
    assert!(!progress.is_due(2));
    assert!(progress.is_due(6));
    let event = progress.event("search", 6, None, 2_000_000_000, true, Some(4), None);
    assert_eq!(event.schema_version, 1);
    assert_eq!(event.completed, 6);
    assert_eq!(
        event.rate,
        Quantity::PerSecond {
            count: 6,
            nanos: 2_000_000_000
        }
    );
    assert_eq!(
        candidate_rate(4, 2, 5),
        Ratio {
            numerator: 4,
            denominator: 10
        }
    );
    assert_eq!(budget_bytes(2), Some(2_097_152));
    assert_eq!(budget_bytes(u64::MAX), None);
}

struct Files {
    published: Option<&'static str>,
    staged: bool,
}

/// Publish a staged file; how each action goes is up to the caller.
fn publish(
    mut files: Files,
    mut go: impl FnMut(Action, &mut Files) -> Option<Event>,
) -> (Stage, Files) {
    let mut publication = Publication::begin();
    while let Some(action) = publication.action() {
        let event = match go(action, &mut files) {
            Some(event) => event,
            None => match action {
                Action::Link => {
                    if files.published.is_some() {
                        Event::Failed
                    } else {
                        files.published = Some("complete index bytes");
                        Event::Done
                    }
                }
                Action::RemoveStaged | Action::CleanStaged => {
                    files.staged = false;
                    Event::Done
                }
                Action::IdentifyFinal => match files.published {
                    None => Event::Absent,
                    Some("complete index bytes") => Event::Done,
                    Some(_) => Event::Different,
                },
                Action::RemoveFinal => {
                    files.published = None;
                    Event::Done
                }
                _ => Event::Done,
            },
        };
        publication.advance(event);
    }
    (publication.stage(), files)
}

fn staged() -> Files {
    Files {
        published: None,
        staged: true,
    }
}

#[test]
fn publication_links_and_cleans_up() {
    let (stage, files) = publish(staged(), |_, _| None);
    assert_eq!(stage, Stage::Published);
    assert_eq!(files.published, Some("complete index bytes"));
    assert!(!files.staged);
}

#[test]
fn cleanup_failure_after_link_rolls_back_owned_final() {
    let (stage, files) = publish(staged(), |action, _| {
        (action == Action::RemoveStaged).then_some(Event::Failed)
    });
    assert_eq!(
        stage,
        Stage::Failed {
            fault: Fault::Staged,
            rollback_failed: false,
            cleanup_failed: false
        }
    );
    assert_eq!(files.published, None, "owned final path was not rolled back");
    assert!(!files.staged, "staged path was not cleaned");
}

#[test]
fn cleanup_failure_preserves_concurrent_final_replacement() {
    let (stage, files) = publish(staged(), |action, files| {
        if action == Action::RemoveStaged {
            files.published = Some("concurrent replacement");
            Some(Event::Failed)
        } else {
            None
        }
    });
    assert!(matches!(
        stage,
        Stage::Failed {
            fault: Fault::Staged,
            ..
        }
    ));
    assert_eq!(files.published, Some("concurrent replacement"));
    assert!(!files.staged, "staged path was not cleaned");
}

#[test]
fn directory_sync_failure_rolls_back_owned_final() {
    let (stage, files) = publish(staged(), |action, _| {
        (action == Action::SyncParent).then_some(Event::Failed)
    });
    assert!(matches!(
        stage,
        Stage::Failed {
            fault: Fault::Sync,
            ..
        }
    ));
    assert_eq!(files.published, None, "owned final path was not rolled back");
    assert!(!files.staged, "staged path was not removed");
}

#[test]
fn a_taken_final_name_is_kept() {
    let (stage, files) = publish(
        Files {
            published: Some("earlier"),
            staged: true,
        },
        |_, _| None,
    );
    assert!(matches!(
        stage,
        Stage::Failed {
            fault: Fault::Link,
            ..
        }
    ));
    assert_eq!(files.published, Some("earlier"));
    assert!(!files.staged);
}

fn bucket_file() -> Vec<u8> {
    let first = [1_u64, 2, 3];
    let second = [7_u64];
    let payload = encode_bucket_segment(&[
        BucketRecord::new(BucketKey::new(0, 11), &first),
        BucketRecord::new(BucketKey::new(1, 22), &second),
    ])
    .expect("segment");
    let metadata = IndexMetadata::new(
        Algorithm::MinHashLsh,
        SignatureScheme::PariAffine32V1,
        CodecId::U64,
        128,
        7,
        threshold(0.8),
        32,
        4,
        0,
    )
    .expect("metadata");
    IndexFile::new(
        metadata,
        vec![Section::new(SectionKind::Buckets, true, payload).expect("section")],
    )
    .expect("file")
    .encode()
    .expect("bytes")
}

#[test]
fn verification_counts_what_it_checks() {
    let file = bucket_file();
    assert_eq!(
        verify(&file),
        Ok(VerifyResult {
            sections: 1,
            bucket_sections: 1,
            buckets: 2,
            members_checked: 4,
        })
    );
    let mut verification = Verification::begin(&file).expect("header");
    assert_eq!((verification.completed(), verification.total()), (0, 2));
    assert_eq!(verification.members(), 0);
    assert_eq!(verification.step(), Ok(true));
    assert_eq!((verification.completed(), verification.total()), (1, 2));
    assert_eq!(verification.step(), Ok(true));
    assert_eq!(verification.members(), 4);
    assert_eq!(verification.step(), Ok(false));
    assert_eq!(verification.result().buckets, 2);
    assert_eq!(VerifyError::MemberOverflow.message(), "member count overflow");
    let mut damaged = file;
    let last = damaged.len() - 1;
    damaged[last] ^= 1;
    assert!(matches!(
        verify(&damaged),
        Err(VerifyError::Format(_)) | Err(VerifyError::Layout(_)) | Err(VerifyError::Bucket(_))
    ));
}

#[test]
fn bindings_build_batches_and_roll_back() {
    let rows = vec![vec![b"a".to_vec(), b"b".to_vec()], vec![b"c".to_vec()]];
    let sketches = build_sketches(&rows, 128, 7).expect("sketches");
    assert_eq!(sketches[0], sketch(&["a", "b"]));
    assert!(matches!(
        build_sketches(&rows, 0, 7),
        Err(BindingError::MinHash(_))
    ));
    let mut index = index();
    index.insert(9, &sketches[1]).expect("insert");
    let before = index.len();
    index
        .insert_many(&[(1, &sketches[0]), (2, &sketches[1])])
        .expect("insert");
    roll_back(&mut index, &[1, 2]);
    assert_eq!(index.len(), before);
    assert!(index.contains(9));
    assert_eq!(BindingError::Closed.kind(), BindingErrorKind::Closed);
    assert_eq!(
        BindingError::Index(LshError::DuplicateKey { key: 1 }).kind(),
        BindingErrorKind::DuplicateKey
    );
    assert_eq!(
        BindingError::Store(StoreFault::File).kind(),
        BindingErrorKind::Storage
    );
    assert_eq!(
        BindingError::Index(LshError::IncompatibleSeed {
            expected: 1,
            actual: 2
        })
        .kind(),
        BindingErrorKind::Compatibility
    );
}

#[test]
fn errors_are_told_in_words() {
    assert_eq!(
        MinHashError::IncompatibleSeed { left: 1, right: 2 }.message(),
        "incompatible MinHash seeds: 1 != 2"
    );
    assert_eq!(
        LshError::InvalidThreshold {
            threshold: threshold(1.5)
        }
        .message("1.5"),
        "threshold must be finite and in (0, 1], got 1.5"
    );
    assert_eq!(
        LshError::InvalidParams {
            bands: 33,
            rows: 4,
            num_perm: 128
        }
        .message(""),
        "invalid LSH parameters: bands=33, rows=4, num_perm=128"
    );
    assert_eq!(
        LshPlanError::InvalidStorageMode {
            value: "disk".to_string()
        }
        .message("\"disk\""),
        "unknown storage mode \"disk\"; expected auto, memory, persistent, lazy, or redis"
    );
    assert_eq!(
        GroupError::RepresentativeNotMember { representative: 99 }.message(),
        "representative 99 is not a member of its duplicate group"
    );
    assert_eq!(
        FormatError::HeaderChecksumMismatch {
            expected: 0x0102_ABCD,
            actual: 0
        }
        .message(),
        "header checksum mismatch: stored 0x0102abcd, computed 0x00000000"
    );
    assert_eq!(
        FormatError::UnsupportedFeatures { flags: u64::MAX }.message(),
        "unsupported required feature flags 0xffffffffffffffff"
    );
    assert_eq!(
        FormatError::InvalidSectionFlags { flags: 2 }.message(),
        "unknown section flag bits 0x0002"
    );
    assert_eq!(
        FormatError::TrailingBytes { remaining: 3 }.message(),
        "3 trailing bytes after declared sections"
    );
    assert_eq!(
        LayoutError::RangeOutOfBounds {
            offset: 7,
            length: 2,
            section_length: 8
        }
        .message(),
        "section range offset 7 with length 2 exceeds payload length 8"
    );
    assert_eq!(
        BucketError::Invalid { reason: "x" }.message(),
        "invalid bucket segment: x"
    );
    assert_eq!(
        CodecError::InvalidJson {
            message: "eof".to_string()
        }
        .message(),
        "invalid JSON key: eof"
    );
    assert_eq!(
        LazyStoreError::Index(LshError::TooManyItems).message(""),
        "internal LSH item identifier space exhausted"
    );
    assert_eq!(
        BuildError::InvalidOptions {
            reason: "max_buffer_records must be positive"
        }
        .message(),
        "invalid build options: max_buffer_records must be positive"
    );
    assert_eq!(
        BackendError::UnsupportedCapability {
            capability: BackendCapability::Ttl
        }
        .message(""),
        "backend does not support Ttl"
    );
    assert_eq!(
        BackendIndexError::Backend(BackendError::CorruptData {
            reason: Corruption::DeleteStatus { code: i64::MIN }
        })
        .message(""),
        "invalid backend data: Redis delete script returned unknown status -9223372036854775808"
    );
    assert_eq!(
        BackendError::Transport {
            operation: "insert",
            message: "closed".to_string()
        }
        .message(""),
        "backend insert failed: closed"
    );
    assert_eq!(
        RecordError::UnsupportedScheme {
            scheme: "other".to_string()
        }
        .message("\"other\""),
        "unsupported signature scheme \"other\"; expected \"pari-affine32-v1\""
    );
}

fn chars(text: &str) -> Vec<char> {
    text.chars().collect()
}

#[test]
fn numbers_and_words_are_read() {
    assert_eq!(parse_number(&chars("42"), 100), Ok(42));
    assert_eq!(parse_number(&chars("+7"), 100), Ok(7));
    assert_eq!(parse_number(&chars(""), 100), Err(NumberError::Empty));
    assert_eq!(
        parse_number(&chars("-1"), 100),
        Err(NumberError::InvalidDigit)
    );
    assert_eq!(parse_number(&chars("101"), 100), Err(NumberError::TooLarge));
    assert_eq!(
        words_of(&chars(" a\tbc  d ")),
        vec![chars("a"), chars("bc"), chars("d")]
    );
    assert_eq!(
        lines_of(&chars("a\r\nb\n\nc")),
        vec![chars("a"), chars("b"), chars(""), chars("c")]
    );
    assert!(spells(&normalize(&chars("  LaZy ")), "lazy"));
}

/// The doubles behind tuning at 0.8.
fn tuning(num_perm: usize) -> (Vec<LshParams>, Vec<u64>) {
    let probability = |similarity: f64, params: &LshParams| {
        1.0 - (1.0 - similarity.powf(params.rows as f64)).powf(params.bands as f64)
    };
    let simpson = |start: f64, end: f64, function: &dyn Fn(f64) -> f64| {
        let step = (end - start) / 64.0;
        let mut total = function(start) + function(end);
        for segment in 1..64 {
            let weight = if segment % 2 == 0 { 2.0 } else { 4.0 };
            total += weight * function(start + f64::from(segment) * step);
        }
        total * step / 3.0
    };
    let candidates = candidate_params(num_perm);
    let errors = candidates
        .iter()
        .map(|params| {
            let below = simpson(0.0, 0.8, &|s| probability(s, params));
            let above = simpson(0.8, 1.0, &|s| 1.0 - probability(s, params));
            (0.5 * (below + above)).to_bits()
        })
        .collect();
    (candidates, errors)
}

fn words(list: &[&str]) -> Vec<String> {
    list.iter().map(|word| word.to_string()).collect()
}

#[test]
fn records_are_indexed_searched_verified_and_deduplicated() {
    let (candidates, errors) = tuning(128);
    let options = LshPlanOptions::new(1_000_000, threshold(0.8), 128)
        .memory_budget_bytes(budget_bytes(2048).expect("budget"))
        .storage_mode(StorageMode::parse("auto").expect("mode"));
    let plan = plan_lsh(options, &candidates, &errors).expect("plan");
    assert_eq!(plan.model, "pari-lsh-planner-v1");
    assert_eq!(plan.params.bands, 9);
    assert_eq!(plan.params.rows, 13);
    assert_eq!(plan.parameter_source.as_str(), "tuned");
    assert_eq!(plan.sizes.persistent_index_bytes, 440_000_736);
    assert_eq!(plan.recommended_storage.as_str(), "memory");

    let near = words(&["new york", "rust", "search"]);
    let far = words(&["biology", "protein", "cell"]);
    let scheme = "pari-affine32-v1".to_string();
    let original = make_sketch(Some(&near), None, None, 128, 1).expect("record");
    let duplicate_signature = original.signature().to_vec();
    let duplicate =
        make_sketch(None, Some(&duplicate_signature), Some(&scheme), 128, 1).expect("record");
    let other = make_sketch(Some(&far), None, None, 128, 1).expect("record");

    let index = LshIndex32::new(threshold(0.8), 128, 1, &candidates, &errors).expect("index");
    let params = index.params();
    let mut keys = Vec::new();
    let mut rows = Vec::new();
    let mut progress = Vec::new();
    let mut session = IndexSession::new(index, 2).expect("session");
    for (key, sketch) in [(1_u64, original), (2, duplicate), (3, other)] {
        keys.push(key);
        rows.push(band_hashes(sketch.signature(), params));
        if let Some(completed) = session.push(key, sketch).expect("push") {
            progress.push(completed);
        }
    }
    let (index, completed) = session.finish().expect("finish");
    progress.push(completed);
    assert_eq!(progress, vec![2, 3]);
    assert_eq!(index.len(), 3);

    let metadata = IndexMetadata::new(
        Algorithm::MinHashLsh,
        SignatureScheme::PariAffine32V1,
        CodecId::U64,
        128,
        1,
        threshold(0.8),
        params.bands as u32,
        params.rows as u32,
        0,
    )
    .expect("metadata");
    let snapshot = encode_snapshot(metadata, &keys, &rows).expect("snapshot");
    let file = build_from_snapshot(&snapshot).expect("index file");
    let query = make_sketch(None, Some(&duplicate_signature), Some(&scheme), 128, 1).expect("query");
    let mut lazy = LazyIndex32::open(&file).expect("open");
    let found = lazy.query(&query).expect("search");
    assert!(found.contains(&1));
    assert!(found.contains(&2));
    assert!(candidate_rate(found.len() as u64, 1, 3).numerator > 0);

    let stats = lazy.stats();
    assert_eq!(stats.items, 3);
    assert!(stats.distribution.memberships > 0);
    let explanation = explain_lsh(
        LshPlanOptions::new(3, threshold(0.8), 128).storage_mode(StorageMode::Persistent),
        params,
    )
    .expect("explanation");
    assert_eq!(explanation.expected_items, 3);
    assert_eq!(explanation.parameter_source.as_str(), "existing");
    assert_eq!(explanation.requested_storage.as_str(), "persistent");
    assert_eq!(explanation.params.bands, stats.bands);
    assert_eq!(explanation.params.rows, stats.rows);

    let verified = verify(&file).expect("verify");
    assert!(verified.members_checked > 0);
    let groups = collect_groups(&index, 2);
    assert_eq!(groups[0].members(), &[1, 2]);
}

#[test]
fn foreign_signature_schemes_are_rejected() {
    let error = make_sketch(None, Some(&vec![1, 2, 3]), Some(&"other".to_string()), 128, 1)
        .expect_err("scheme");
    assert!(error.message("\"other\"").contains("signature scheme"));
}
