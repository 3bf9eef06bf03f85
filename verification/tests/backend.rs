//! Storage backends and the index over them.

use pari::backend::capability::{BackendCapabilities, BackendCapability};
use pari::backend::conformance::{
    check_answers, check_capabilities, check_cleanup, check_contains, check_deleted,
    check_refusal, check_reopening, check_stats, Step, Violation,
};
use pari::backend::contract::{BackendStats, StorageBackend, StoredItem};
use pari::backend::descriptor::{
    decode_descriptor, encode_descriptor, IndexDescriptor, Retention, MAX_RETENTION_SECONDS,
};
use pari::backend::error::{BackendError, BackendIndexError, Corruption};
use pari::backend::exercise::exercise_backend_contract;
use pari::backend::index::BackendIndex32;
use pari::backend::memory::MemoryBackend;
use pari::backend::query::{assemble, plan_queries};
use pari::backend::redis::{
    bucket_lex_range, bucket_prefix, decode_bucket_member, encode_bucket_member, encode_user_key,
    encode_user_keys, record_blob, validate_namespace, RedisSession,
};
use pari::backend::table::BucketTable;
use pari::format::buckets::BucketKey;
use pari::index::lsh::LshIndex32;
use pari::index::params::{candidate_params, LshParams};
use pari::ratio::Ratio;
use pari::sketch::minhash32::MinHash32;
use pari::threshold::Threshold;

const NUM_PERM: usize = 128;
const SEED: u64 = 7;

fn threshold(value: f64) -> Threshold {
    Threshold::from_bits(value.to_bits())
}

fn rate(ratio: Ratio) -> f64 {
    ratio.numerator as f64 / ratio.denominator as f64
}

fn probability(similarity: f64, params: LshParams) -> f64 {
    1.0 - (1.0 - similarity.powf(params.rows as f64)).powf(params.bands as f64)
}

fn simpson(function: impl Fn(f64) -> f64, start: f64, end: f64) -> f64 {
    let step = (end - start) / 64.0;
    let mut total = function(start) + function(end);
    for segment in 1..64 {
        let weight = if segment % 2 == 0 { 2.0 } else { 4.0 };
        total += weight * function(start + f64::from(segment) * step);
    }
    total * step / 3.0
}

fn tuning(cut: f64, num_perm: usize) -> (Vec<LshParams>, Vec<u64>) {
    let candidates = candidate_params(num_perm);
    let errors = candidates
        .iter()
        .map(|params| {
            let below = simpson(|s| probability(s, *params), 0.0, cut);
            let above = simpson(|s| 1.0 - probability(s, *params), cut, 1.0);
            (0.5 * (below + above)).to_bits()
        })
        .collect();
    (candidates, errors)
}

fn reference_index(num_perm: usize, seed: u64) -> LshIndex32 {
    let (candidates, errors) = tuning(0.8, num_perm);
    LshIndex32::new(threshold(0.8), num_perm, seed, &candidates, &errors).expect("reference index")
}

fn backend_index<B: StorageBackend>(
    backend: B,
    num_perm: usize,
    seed: u64,
    retention: Option<Retention>,
) -> Result<BackendIndex32<B>, BackendIndexError> {
    let (candidates, errors) = tuning(0.8, num_perm);
    BackendIndex32::create(
        backend,
        threshold(0.8),
        num_perm,
        seed,
        retention,
        &candidates,
        &errors,
    )
}

fn sketch(values: &[&[u8]], num_perm: usize, seed: u64) -> MinHash32 {
    let mut sketch = MinHash32::new(num_perm, seed).expect("valid sketch");
    sketch.update_many(values);
    sketch
}

fn exercise_shared_contract<B: StorageBackend>(backend: B) -> BackendIndex32<B> {
    let first = sketch(&[b"alpha", b"beta", b"gamma"], NUM_PERM, SEED);
    let duplicate = first.clone();
    let third = sketch(&[b"unrelated", b"record"], NUM_PERM, SEED);

    let mut reference = reference_index(NUM_PERM, SEED);
    reference.insert(1, &first).expect("reference insert");

    let mut index = backend_index(backend, NUM_PERM, SEED, None).expect("backend index create");
    index.insert(1, &first).expect("initial insert");

    let error = index
        .insert_many(&[(2, &duplicate), (1, &first)])
        .expect_err("existing duplicate must reject the whole batch");
    assert!(matches!(
        error,
        BackendIndexError::Backend(BackendError::DuplicateKey { key: 1 })
    ));
    assert!(!index.contains(2).expect("contains after rejected batch"));

    index
        .insert_many(&[(2, &duplicate), (3, &third)])
        .expect("batch insert");
    reference
        .insert_many(&[(2, &duplicate), (3, &third)])
        .expect("reference batch insert");
    index.set_observability(true);

    assert_eq!(
        index.query(&first).expect("scalar query"),
        reference.query(&first).expect("reference scalar query")
    );
    assert_eq!(
        index.query_many(&[&first, &third]).expect("batch query"),
        reference
            .query_many(&[&first, &third])
            .expect("reference batch query")
    );
    assert_eq!(
        index.contains_many(&[1, 2, 4]).expect("batch contains"),
        vec![true, true, false]
    );

    assert_eq!(index.remove_many(vec![2, 99]).expect("batch remove"), 1);
    assert!(reference.remove(2));
    assert_eq!(
        index.query(&first).expect("query after remove"),
        reference
            .query(&first)
            .expect("reference query after remove")
    );
    index.flush().expect("flush");
    index.health().expect("health");
    let stats = index.stats().expect("stats");
    assert_eq!(stats.items, 2);
    assert!(stats.bucket_memberships > 0);
    let queries = stats.queries.expect("query metrics");
    assert_eq!(queries.operations, 3);
    assert_eq!(queries.queries, 4);
    assert_eq!(queries.possible_candidates, 11);
    assert!(rate(queries.candidate_rate()) > 0.0);
    index
}

#[test]
fn public_backend_extension_types_are_constructible() {
    let capabilities = BackendCapabilities::empty()
        .with(BackendCapability::BatchRead)
        .with(BackendCapability::Health);
    assert!(capabilities.supports(BackendCapability::BatchRead));
    assert!(capabilities.supports(BackendCapability::Health));
    assert!(!capabilities.supports(BackendCapability::Remote));

    let params = reference_index(64, 1).params();
    let descriptor = IndexDescriptor::new(threshold(0.8), 64, 1, params, None)
        .expect("public descriptor constructor");
    assert_eq!(descriptor.num_perm(), 64);
    assert_eq!(descriptor.seed(), 1);
    assert_eq!(descriptor.params(), params);
}

#[test]
fn memory_backend_satisfies_shared_contract() {
    let mut index = exercise_shared_contract(MemoryBackend::new());
    let capabilities = index.backend().capabilities();
    assert!(capabilities.supports(BackendCapability::BatchRead));
    assert!(capabilities.supports(BackendCapability::BatchWrite));
    assert!(!capabilities.supports(BackendCapability::Ttl));
    assert!(!capabilities.supports(BackendCapability::Remote));
    let stats = index.stats().expect("memory stats");
    assert!(
        stats
            .bucket_distribution
            .expect("memory distribution")
            .buckets
            > 0
    );
    index.cleanup().expect("memory cleanup");
}

/// Put a backend through the exercise and panic with the rule that it breaks.
fn exercised<B: StorageBackend>(backend: B) {
    let (candidates, errors) = tuning(0.8, NUM_PERM);
    if let Err(violation) = exercise_backend_contract(backend, &candidates, &errors) {
        panic!("{}", violation.message());
    }
}

#[test]
fn conformance_rules_name_what_was_broken() {
    assert_eq!(
        check_capabilities(BackendCapabilities::empty()),
        Err(Violation::Capability(BackendCapability::BatchRead))
    );
    assert_eq!(
        Violation::Capability(BackendCapability::Flush).message(),
        "backend must advertise required capability Flush"
    );
    assert_eq!(check_capabilities(BackendCapabilities::memory()), Ok(()));
    assert_eq!(
        check_refusal(&Ok(()), 1, false),
        Err(Violation::DuplicateAccepted)
    );
    assert_eq!(
        check_refusal(
            &Err(BackendIndexError::Backend(BackendError::DuplicateKey {
                key: 2
            })),
            1,
            false
        ),
        Err(Violation::DuplicateReport)
    );
    assert_eq!(
        check_answers(&vec![vec![1]], &vec![vec![2]]),
        Err(Violation::Candidates)
    );
    assert_eq!(
        check_contains(&[true, false], &[false, true]),
        Err(Violation::ContainsOrder)
    );
    assert_eq!(check_deleted(1, 2), Err(Violation::DeleteCount));
    let kept = descriptor(Retention::from_secs(5)).expect("descriptor");
    let other = descriptor(Retention::from_secs(6)).expect("descriptor");
    assert_eq!(
        check_reopening(&kept, &other, &Err(BackendError::AlreadyExists)),
        Err(Violation::Descriptor)
    );
    assert_eq!(
        check_reopening(&kept, &kept, &Ok(())),
        Err(Violation::InitializedTwice)
    );
    assert_eq!(check_cleanup(&Ok(kept)), Err(Violation::Cleanup));
    let empty = BackendStats {
        items: 0,
        bucket_memberships: 0,
        round_trips: 0,
        ttl_seconds_remaining: None,
        bucket_distribution: None,
        queries: None,
    };
    assert_eq!(
        check_stats(&empty, BackendCapabilities::memory()),
        Err(Violation::ItemCount)
    );
}

#[test]
fn memory_backend_conforms() {
    exercised(MemoryBackend::new());
    let (candidates, errors) = tuning(0.8, NUM_PERM);
    let mut taken = MemoryBackend::new();
    taken
        .initialize(
            &IndexDescriptor::new(threshold(0.8), 128, 7, LshParams::new(32, 4), None)
                .expect("descriptor"),
        )
        .expect("initialized");
    assert_eq!(
        exercise_backend_contract(taken, &candidates, &errors),
        Err(Violation::Failed(Step::Initialize))
    );
    assert_eq!(
        Violation::Failed(Step::Initialize).message(),
        "backend must initialize a fresh namespace"
    );
}

struct PartialCommitBackend(MemoryBackend);

impl StorageBackend for PartialCommitBackend {
    fn capabilities(&self) -> BackendCapabilities {
        self.0.capabilities()
    }

    fn initialize(&mut self, descriptor: &IndexDescriptor) -> Result<(), BackendError> {
        self.0.initialize(descriptor)
    }

    fn load_descriptor(&mut self) -> Result<IndexDescriptor, BackendError> {
        self.0.load_descriptor()
    }

    fn contains_many(&mut self, keys: &[u64]) -> Result<Vec<bool>, BackendError> {
        self.0.contains_many(keys)
    }

    fn insert_many(&mut self, items: &[StoredItem]) -> Result<(), BackendError> {
        for item in items {
            self.0.insert_many(std::slice::from_ref(item))?;
        }
        Ok(())
    }

    fn query_buckets(&mut self, buckets: &[BucketKey]) -> Result<Vec<Vec<u64>>, BackendError> {
        self.0.query_buckets(buckets)
    }

    fn delete_many(&mut self, keys: &[u64]) -> Result<usize, BackendError> {
        self.0.delete_many(keys)
    }

    fn flush(&mut self) -> Result<(), BackendError> {
        self.0.flush()
    }

    fn health(&mut self) -> Result<(), BackendError> {
        self.0.health()
    }

    fn stats(&mut self) -> Result<BackendStats, BackendError> {
        self.0.stats()
    }

    fn cleanup(&mut self) -> Result<(), BackendError> {
        self.0.cleanup()
    }
}

#[test]
#[should_panic(expected = "backend partially committed a rejected insertion batch")]
fn conformance_kit_detects_partial_batch_commits() {
    exercised(PartialCommitBackend(MemoryBackend::new()));
}

fn descriptor(retention: Retention) -> Result<IndexDescriptor, BackendError> {
    IndexDescriptor::new(
        threshold(0.8),
        128,
        7,
        LshParams::new(32, 4),
        Some(retention),
    )
}

#[test]
fn retention_requires_supported_whole_seconds() {
    for invalid in [
        Retention::from_secs(0),
        Retention::new(0, 1),
        Retention::new(0, 999_000_000),
        Retention::new(1, 1),
        Retention::from_secs(MAX_RETENTION_SECONDS + 1),
        Retention::from_secs(u64::MAX),
    ] {
        assert!(matches!(
            descriptor(invalid),
            Err(BackendError::InvalidRetention)
        ));
    }
}

#[test]
fn accepted_retention_round_trips_exactly() {
    for seconds in [1, 300, MAX_RETENTION_SECONDS] {
        let original = descriptor(Retention::from_secs(seconds)).expect("valid retention");
        let encoded = encode_descriptor(&original);
        let decoded = decode_descriptor(&encoded).expect("decode descriptor");
        assert_eq!(decoded, original);
    }
}

#[test]
fn damaged_descriptors_are_rejected() {
    let encoded = encode_descriptor(&descriptor(Retention::from_secs(5)).expect("valid"));
    assert_eq!(encoded.len(), 56);
    assert_eq!(&encoded[..8], b"PARIBK01");
    assert_eq!(
        decode_descriptor(&encoded[..55]),
        Err(BackendError::CorruptData {
            reason: Corruption::DescriptorSize { found: 55 }
        })
    );
    let mut magic = encoded.clone();
    magic[0] ^= 1;
    assert_eq!(
        decode_descriptor(&magic),
        Err(BackendError::CorruptData {
            reason: Corruption::DescriptorMagic
        })
    );
    let mut bands = encoded;
    bands[32..40].copy_from_slice(&33_u64.to_le_bytes());
    assert!(decode_descriptor(&bands).is_err());
}

#[test]
fn retention_needs_a_backend_with_expiry() {
    assert_eq!(
        backend_index(
            MemoryBackend::new(),
            64,
            1,
            Some(Retention::from_secs(300))
        )
        .err(),
        Some(BackendIndexError::Backend(
            BackendError::UnsupportedCapability {
                capability: BackendCapability::Ttl
            }
        ))
    );
    assert!(BackendCapabilities::redis().supports(BackendCapability::Ttl));
    assert!(BackendCapabilities::redis().supports(BackendCapability::Remote));
}

#[test]
fn opening_an_empty_backend_fails() {
    assert_eq!(
        BackendIndex32::open(MemoryBackend::new()).err(),
        Some(BackendIndexError::Backend(BackendError::NotFound))
    );
}

#[test]
fn queries_share_buckets_and_reject_short_replies() {
    let descriptor =
        IndexDescriptor::new(threshold(0.8), 8, 1, LshParams::new(2, 4), None).expect("valid");
    let left = sketch(&[b"same"], 8, 1);
    let right = left.clone();
    let plan = plan_queries(&descriptor, &[&left, &right]).expect("plan");
    assert_eq!(plan.buckets.len(), 2);
    assert_eq!(plan.positions, vec![vec![0, 1], vec![0, 1]]);
    let (answers, total) =
        assemble(&plan, &vec![vec![5, 3], vec![3, 9]]).expect("as many rows as buckets");
    assert_eq!(answers, vec![vec![3, 5, 9], vec![3, 5, 9]]);
    assert_eq!(total, 6);
    assert_eq!(
        assemble(&plan, &vec![vec![5]]),
        Err(BackendError::CorruptData {
            reason: Corruption::BucketRows {
                returned: 1,
                requested: 2
            }
        })
    );
}

#[test]
fn a_bucket_table_keeps_members_once() {
    let mut table = BucketTable::new();
    let key = BucketKey::new(1, 2);
    table.put(key, 7);
    table.put(key, 5);
    table.put(key, 7);
    assert_eq!(table.read(key).len(), 2);
    assert_eq!(table.sizes(), vec![2]);
    table.take(key, 7);
    assert_eq!(table.read(key), vec![5]);
    table.take(key, 5);
    assert!(table.read(key).is_empty());
    assert!(table.sizes().is_empty());
    assert!(table.read(BucketKey::new(9, 9)).is_empty());
}

#[test]
fn namespaces_are_restricted() {
    assert_eq!(validate_namespace("tenant-1_a.b"), Ok(()));
    assert!(validate_namespace("").is_err());
    assert!(validate_namespace("with space").is_err());
    assert!(validate_namespace("slash/").is_err());
    assert!(validate_namespace(&"x".repeat(128)).is_ok());
    assert!(validate_namespace(&"x".repeat(129)).is_err());
}

#[test]
fn bucket_members_sort_by_bucket() {
    let bucket = BucketKey::new(1, 0x0203);
    let member = encode_bucket_member(bucket, 0x0405);
    assert_eq!(
        member,
        vec![0, 0, 0, 1, 0, 0, 0, 0, 0, 0, 2, 3, 5, 4, 0, 0, 0, 0, 0, 0]
    );
    assert_eq!(&member[..12], bucket_prefix(bucket).as_slice());
    assert_eq!(decode_bucket_member(bucket, &member), Ok(0x0405));
    assert_eq!(
        decode_bucket_member(bucket, &member[..19]),
        Err(BackendError::CorruptData {
            reason: Corruption::MemberSize { found: 19 }
        })
    );
    assert_eq!(
        decode_bucket_member(BucketKey::new(2, 0x0203), &member),
        Err(BackendError::CorruptData {
            reason: Corruption::MemberPrefix
        })
    );
    let (low, high) = bucket_lex_range(bucket);
    assert_eq!(low[0], b'[');
    assert!(low[1..] <= member[..]);
    assert!(member[..] <= high[1..]);
    assert!(high[1..] < encode_bucket_member(BucketKey::new(1, 0x0204), 0)[..]);
}

#[test]
fn redis_keys_and_records_have_fixed_layouts() {
    assert_eq!(encode_user_key(0x0102), vec![0x02, 0x01, 0, 0, 0, 0, 0, 0]);
    assert_eq!(encode_user_keys(&[1, 2]).len(), 2);
    let blob = record_blob(&StoredItem::new(9, vec![4, 5])).expect("blob");
    assert_eq!(blob.len(), 40);
    assert_eq!(&blob[..20], encode_bucket_member(BucketKey::new(0, 4), 9).as_slice());
    assert_eq!(&blob[20..], encode_bucket_member(BucketKey::new(1, 5), 9).as_slice());
}

#[test]
fn a_redis_session_interprets_replies() {
    let mut session = RedisSession::new("tenant").expect("namespace");
    assert_eq!(session.namespace(), "tenant");
    assert!(session.meta_key().contains("tenant"));
    assert_eq!(session.retention_argument(), 0);
    let kept = descriptor(Retention::from_secs(300)).expect("descriptor");
    assert_eq!(
        session.initialized(&kept, 0),
        Err(BackendError::AlreadyExists)
    );
    assert_eq!(session.initialized(&kept, 1), Ok(()));
    assert_eq!(session.retention_argument(), 300);
    assert_eq!(session.loaded(None), Err(BackendError::NotFound));
    assert_eq!(session.loaded(Some(encode_descriptor(&kept))), Ok(kept));

    let items = [StoredItem::new(4, vec![1]), StoredItem::new(6, vec![1])];
    assert_eq!(session.inserted(&items, 1, 0), Ok(()));
    assert_eq!(session.deleted(2), Ok(2));
    assert!(session.deleted(-7).is_err());
    assert_eq!(session.flushed("PONG"), Ok(()));
    assert!(session.flushed("no").is_err());
    assert_eq!(session.probed("PONG"), Ok(()));
    let bucket = BucketKey::new(0, 1);
    assert_eq!(
        session.found(&[bucket], &vec![vec![encode_bucket_member(bucket, 8)]]),
        Ok(vec![vec![8]])
    );
    assert_eq!(
        session.found(&[bucket], &Vec::new()),
        Err(BackendError::CorruptData {
            reason: Corruption::ResultRows
        })
    );
    session.cleaned();
    assert_eq!(session.retention_argument(), 0);
}
