//! Benchmarks: workloads, reports, options, paged files and runs.

use std::collections::BTreeMap;

use pari::backend::contract::BackendStats;
use pari::backend::index::BackendIndex32;
use pari::backend::memory::MemoryBackend;
use pari::bench::config::{
    validate_config, validate_layout_config, BenchmarkConfig, ConfigError, LayoutConfigError,
};
use pari::bench::correctness::{candidate_correctness, overlap, ratio};
use pari::bench::dataset::parse_set_dataset;
use pari::bench::layout::{
    build_layout_workload, buckets_for_sketch, layout_percentile, layout_percentiles,
};
use pari::bench::measure::{
    measure_mutations, measure_run, measure_storage, percentiles, Measurement, Quantity,
    StorageFigures,
};
use pari::bench::options::{
    has_help, parse_benchmark_options, parse_compare_options, parse_layout_options,
    CompareRequest, OptionError,
};
use pari::bench::pages::{
    announced_pages, build_page_file, collect_bucket, collect_members, encode_bucket_key, encode_bucket_record,
    encode_members, find_page, parse_page_directory, query_pages, PageError,
};
use pari::bench::phases::{
    chain_edges, churn, edge_count, ensure_candidate_parity, merge_answers, mutate, mutation_count,
    parity_queries, storage_mutation_count, MutationError, ParityError,
};
use pari::bench::report::{
    compare_reports, BenchmarkReport, Environment, Metric, MetricDirection, REPORT_SCHEMA_VERSION,
};
use pari::bench::rss::{parse_linux_vm_rss, raise_peak, RssSample};
use pari::bench::run::{
    build_run_index, complete_run, lazy_phase, prepare_workload, query_phase, BuildFigures,
    RunError, StorageRunError,
};
use pari::bench::shared::{
    build_cluster_signature, measure_shared, run_shared, self_matches, stage_round_trips,
    SharedFigures, SharedRunError,
};
use pari::bench::workload::{
    build_queries, build_run_signature, build_signature, build_signatures, draw_signature, number,
    synthetic_corpus,
};
use pari::format::buckets::{BucketKey, BucketRecord};
use pari::format::codec::CodecId;
use pari::format::container::{IndexFile, Section, SectionKind};
use pari::format::header::{Algorithm, IndexMetadata, SignatureScheme};
use pari::index::lsh::LshIndex32;
use pari::index::params::{band_hashes, candidate_params, LshParams};
use pari::ratio::Ratio;
use pari::sketch::minhash32::MinHash32;
use pari::sketch::mix::mix64;
use pari::store::bounded::{build_external, BuildOptions};
use pari::store::lazy::LazyIndex32;
use pari::text::NumberError;
use pari::threshold::Threshold;

fn threshold(value: f64) -> Threshold {
    Threshold::from_bits(value.to_bits())
}

fn quotient(ratio: Ratio) -> f64 {
    if ratio.denominator == 0 {
        0.0
    } else {
        ratio.numerator as f64 / ratio.denominator as f64
    }
}

fn value(quantity: Quantity) -> f64 {
    match quantity {
        Quantity::Count(count) => count as f64,
        Quantity::Quotient(ratio) => quotient(ratio),
        Quantity::PerSecond { nanos: 0, .. } => 0.0,
        Quantity::PerSecond { count, nanos } => count as f64 / (nanos as f64 / 1e9),
        Quantity::Millis { nanos } => nanos as f64 / 1e6,
    }
}

fn table(list: &[Measurement]) -> BTreeMap<String, f64> {
    list.iter()
        .map(|entry| (entry.name.clone(), value(entry.quantity)))
        .collect()
}

fn probability(similarity: f64, params: LshParams) -> f64 {
    1.0 - (1.0 - similarity.powf(params.rows as f64)).powf(params.bands as f64)
}

fn simpson(function: impl Fn(f64) -> f64, start: f64, end: f64) -> f64 {
    let step = (end - start) / 64.0;
    let mut total = function(start) + function(end);
    for segment in 1..64 {
        let weight = if segment % 2 == 0 { 2.0 } else { 4.0 };
        total += weight * function(start + f64::from(segment) * step);
    }
    total * step / 3.0
}

fn tuning(cut: f64, num_perm: usize) -> (Vec<LshParams>, Vec<u64>) {
    let candidates = candidate_params(num_perm);
    let errors = candidates
        .iter()
        .map(|params| {
            let below = simpson(|s| probability(s, *params), 0.0, cut);
            let above = simpson(|s| 1.0 - probability(s, *params), cut, 1.0);
            (0.5 * (below + above)).to_bits()
        })
        .collect();
    (candidates, errors)
}

fn exact_jaccard(left: &[u64], right: &[u64]) -> f64 {
    let (intersection, union) = overlap(left, right);
    if union == 0 {
        1.0
    } else {
        intersection as f64 / union as f64
    }
}

fn config(items: usize, queries: usize, set_size: usize, overlap: usize, num_perm: usize) -> BenchmarkConfig {
    BenchmarkConfig {
        items,
        queries,
        set_size,
        overlap,
        threshold: threshold(0.8),
        num_perm,
        seed: 7,
        threads: None,
        dataset: None,
    }
}

fn environment() -> Environment {
    Environment {
        os: "test".into(),
        arch: "test".into(),
        logical_cpus: 1,
        rustc: "rustc test".into(),
        git_sha: "abc".into(),
    }
}

fn report(engine: &str) -> BenchmarkReport {
    BenchmarkReport::new(
        engine,
        1,
        environment(),
        BenchmarkConfig {
            items: 10,
            queries: 2,
            set_size: 4,
            overlap: 3,
            threshold: threshold(0.8),
            num_perm: 16,
            seed: 1,
            threads: None,
            dataset: None,
        },
    )
}

fn metric(value: f64, unit: &str, direction: MetricDirection) -> Metric {
    Metric::new(value.to_bits(), unit, direction)
}

/// The percentage by which each metric of the baseline changed.
fn percents(baseline: &BenchmarkReport, current: &BenchmarkReport) -> Vec<u64> {
    baseline
        .metrics
        .entries()
        .iter()
        .map(|entry| match current.metrics.get(&entry.name) {
            Some(other) => {
                let earlier = f64::from_bits(entry.value.value);
                let later = f64::from_bits(other.value);
                ((later - earlier) / earlier.abs() * 100.0).to_bits()
            }
            None => 0,
        })
        .collect()
}

#[test]
fn comparison_respects_metric_direction() {
    let mut baseline = report("baseline");
    baseline.insert_metric(
        "throughput",
        metric(100.0, "items/s", MetricDirection::Higher),
    );
    baseline.insert_metric("latency", metric(10.0, "ms", MetricDirection::Lower));

    let mut current = report("current");
    current.insert_metric(
        "throughput",
        metric(125.0, "items/s", MetricDirection::Higher),
    );
    current.insert_metric("latency", metric(8.0, "ms", MetricDirection::Lower));

    let comparison = compare_reports(&baseline, &current, &percents(&baseline, &current));
    assert_eq!(comparison.metrics[1].name, "throughput");
    assert_eq!(
        comparison.metrics[1]
            .value
            .improvement_percent
            .map(f64::from_bits),
        Some(25.0)
    );
    assert_eq!(comparison.metrics[0].name, "latency");
    assert_eq!(
        comparison.metrics[0]
            .value
            .improvement_percent
            .map(f64::from_bits),
        Some(20.0)
    );
    assert_eq!(comparison.baseline_engine, "baseline");
    assert_eq!(comparison.current_engine, "current");
}

#[test]
fn comparison_skips_incompatible_units() {
    let mut baseline = report("baseline");
    baseline.insert_metric("latency", metric(10.0, "ms", MetricDirection::Lower));
    let mut current = report("current");
    current.insert_metric("latency", metric(10.0, "seconds", MetricDirection::Lower));
    assert!(
        compare_reports(&baseline, &current, &percents(&baseline, &current))
            .metrics
            .is_empty()
    );
}

#[test]
fn comparison_has_no_change_from_zero() {
    let mut baseline = report("baseline");
    baseline.insert_metric("zero", metric(0.0, "ms", MetricDirection::Higher));
    baseline.insert_metric("nan", metric(f64::NAN, "ms", MetricDirection::Higher));
    baseline.insert_metric("steady", metric(4.0, "ms", MetricDirection::Neutral));
    let mut current = report("current");
    current.insert_metric("zero", metric(1.0, "ms", MetricDirection::Higher));
    current.insert_metric("nan", metric(1.0, "ms", MetricDirection::Higher));
    current.insert_metric("steady", metric(5.0, "ms", MetricDirection::Neutral));
    let comparison = compare_reports(&baseline, &current, &percents(&baseline, &current));
    assert_eq!(comparison.metrics[0].name, "nan");
    assert_eq!(comparison.metrics[0].value.change_percent, None);
    assert_eq!(
        comparison.metrics[1].value.change_percent.map(f64::from_bits),
        Some(25.0)
    );
    assert_eq!(comparison.metrics[1].value.improvement_percent, None);
    assert_eq!(comparison.metrics[2].value.change_percent, None);
}

#[test]
fn reports_keep_one_metric_for_each_name() {
    let mut report = report("pari");
    assert_eq!(report.schema_version, REPORT_SCHEMA_VERSION);
    report.insert_metric("b", metric(1.0, "ms", MetricDirection::Lower));
    report.insert_metric("a", metric(2.0, "ms", MetricDirection::Lower));
    report.insert_metric("b", metric(3.0, "s", MetricDirection::Higher));
    let names: Vec<&str> = report
        .metrics
        .entries()
        .iter()
        .map(|entry| entry.name.as_str())
        .collect();
    assert_eq!(names, vec!["a", "b"]);
    let metric = report.metrics.get("b").expect("metric");
    assert_eq!(f64::from_bits(metric.value), 3.0);
    assert_eq!(metric.unit, "s");
    assert!(report.metrics.get("c").is_none());
    assert_eq!(MetricDirection::Neutral.name(), "neutral");
}

#[test]
fn parses_linux_rss_line() {
    assert_eq!(
        parse_linux_vm_rss("Name:\tpari\nVmRSS:\t  1234 kB\nThreads:\t1\n"),
        Some(1_263_616)
    );
    assert_eq!(parse_linux_vm_rss("VmRSS: nope kB"), None);
    assert_eq!(parse_linux_vm_rss("VmSize: 12 kB"), None);
}

#[test]
fn memory_samples_have_deltas() {
    let sample = RssSample {
        before_bytes: Some(100),
        peak_bytes: raise_peak(Some(150), Some(250)),
        after_bytes: Some(90),
    };
    assert_eq!(sample.peak_delta(), Some(150));
    assert_eq!(sample.settled_delta(), Some(0));
    assert_eq!(raise_peak(None, Some(3)), Some(3));
    assert_eq!(raise_peak(Some(3), None), Some(3));
    let unknown = RssSample {
        before_bytes: None,
        ..sample
    };
    assert_eq!(unknown.peak_delta(), None);
}

#[test]
fn synthetic_query_has_expected_overlap() {
    let corpus = synthetic_corpus(4, 100, 7);
    let queries = build_queries(&corpus, 1, 90, 7);
    let similarity = exact_jaccard(&corpus[0], &queries[0]);
    assert!((similarity - (90.0 / 110.0)).abs() < 1e-12);
}

#[test]
fn synthetic_features_are_mixed_and_sorted() {
    let corpus = synthetic_corpus(2, 3, 7);
    let mut first = vec![mix64(7), mix64(8), mix64(9)];
    first.sort_unstable();
    assert_eq!(corpus[0], first);
    let mut second = vec![mix64(11), mix64(12), mix64(13)];
    second.sort_unstable();
    assert_eq!(corpus[1], second);
}

#[test]
fn dataset_parser_sorts_deduplicates_and_limits() {
    let rows = parse_set_dataset("3 1 1 2\n\n9 8\n7 6\n", 2).expect("parse dataset");
    assert_eq!(rows, vec![vec![1, 2, 3], vec![8, 9]]);
}

#[test]
fn dataset_parser_names_the_bad_token() {
    let error = parse_set_dataset("1 2\n3 x4\n", 5).expect_err("bad token");
    assert_eq!(error.line, 2);
    assert_eq!(error.token.iter().collect::<String>(), "x4");
    assert_eq!(error.error, NumberError::InvalidDigit);
    let large = parse_set_dataset("18446744073709551616", 5).expect_err("too large");
    assert_eq!(large.error, NumberError::TooLarge);
    assert_eq!(
        parse_set_dataset("18446744073709551615", 5),
        Ok(vec![vec![u64::MAX]])
    );
}

#[test]
fn percentiles_are_nearest_ranks() {
    assert_eq!(percentiles(vec![5, 1, 4, 2, 3]), (3, 5, 5));
    assert_eq!(percentiles(Vec::new()), (0, 0, 0));
}

#[test]
fn configurations_are_checked_in_order() {
    assert_eq!(validate_config(&config(1, 1, 4, 4, 16)), Ok(()));
    assert_eq!(
        validate_config(&config(0, 0, 4, 4, 16)),
        Err(ConfigError::NoItems)
    );
    assert_eq!(
        validate_config(&config(1, 0, 4, 4, 16)),
        Err(ConfigError::NoQueries)
    );
    assert_eq!(
        validate_config(&config(1, 1, 0, 0, 16)),
        Err(ConfigError::EmptySets)
    );
    assert_eq!(
        validate_config(&config(1, 1, 4, 5, 16)),
        Err(ConfigError::OverlapTooLarge)
    );
    let mut wrong = config(1, 1, 4, 4, 16);
    wrong.threshold = threshold(1.5);
    assert_eq!(validate_config(&wrong), Err(ConfigError::Threshold));
    assert_eq!(
        validate_config(&config(1, 1, 4, 4, 4_097)),
        Err(ConfigError::NumPerm)
    );
    assert_eq!(
        ConfigError::NumPerm.message(),
        "num_perm must be in 1..=4096 for the benchmark harness"
    );
    assert_eq!(validate_layout_config(5, 5), Ok(()));
    assert_eq!(validate_layout_config(0, 5), Err(LayoutConfigError::Empty));
    assert_eq!(
        validate_layout_config(5, 6),
        Err(LayoutConfigError::TooManyQueries)
    );
}

fn arguments(list: &[&str]) -> Vec<String> {
    list.iter().map(|argument| argument.to_string()).collect()
}

fn fractions(list: &[String]) -> Vec<Option<u64>> {
    list.iter()
        .map(|argument| argument.parse::<f64>().ok().map(f64::to_bits))
        .collect()
}

#[test]
fn benchmark_options_are_read_in_order() {
    let list = arguments(&[
        "--items",
        "12",
        "--threshold",
        "0.5",
        "--output",
        "out.json",
        "--items",
        "13",
    ]);
    let options = parse_benchmark_options(&list, &fractions(&list), threshold(0.8), "default.json")
        .expect("valid options");
    assert_eq!(options.config.items, 13);
    assert_eq!(options.config.threshold, threshold(0.5));
    assert_eq!(options.config.threads, None);
    assert_eq!(options.output, "out.json");

    let none = parse_benchmark_options(&Vec::new(), &Vec::new(), threshold(0.8), "default.json")
        .expect("no options");
    assert_eq!(none.output, "default.json");
    assert_eq!(none.config, BenchmarkConfig::standard(threshold(0.8)));

    let unknown = arguments(&["--nope"]);
    assert_eq!(
        parse_benchmark_options(&unknown, &fractions(&unknown), threshold(0.8), "x").err(),
        Some(OptionError::Unknown { argument: 0 })
    );
    let missing = arguments(&["--items"]);
    assert_eq!(
        parse_benchmark_options(&missing, &fractions(&missing), threshold(0.8), "x").err(),
        Some(OptionError::MissingValue { flag: 0 })
    );
    let bad = arguments(&["--queries", "ten"]);
    assert_eq!(
        parse_benchmark_options(&bad, &fractions(&bad), threshold(0.8), "x").err(),
        Some(OptionError::InvalidNumber {
            flag: 0,
            error: NumberError::InvalidDigit
        })
    );
    let odd = arguments(&["--threshold", "high"]);
    assert_eq!(
        parse_benchmark_options(&odd, &fractions(&odd), threshold(0.8), "x").err(),
        Some(OptionError::InvalidFraction { flag: 0 })
    );
    assert!(has_help(&arguments(&["--items", "3", "--help"])));
    assert!(!has_help(&arguments(&["--items", "3"])));
}

#[test]
fn other_options_are_read() {
    assert_eq!(
        parse_compare_options(&arguments(&["a.json"])).err(),
        Some(OptionError::TooFew)
    );
    assert!(matches!(
        parse_compare_options(&arguments(&["a.json", "b.json", "--output", "c.json"])),
        Ok(CompareRequest::Compare { .. })
    ));
    let layout = parse_layout_options(&arguments(&["--items", "9", "--queries", "3"]))
        .expect("valid")
        .expect("no help");
    assert_eq!((layout.items, layout.queries), (9, 3));
    assert_eq!(parse_layout_options(&arguments(&["--help"])), Ok(None));
}

#[test]
fn all_storage_candidates_match_reference_candidates() {
    let workload = build_layout_workload(64, 16).expect("workload");
    assert_eq!(workload.query_buckets.len(), 16);
    assert_eq!(workload.expected.len(), 16);
    assert!(workload.query_buckets.iter().all(|keys| keys.len() == 32));
    let records: Vec<BucketRecord> = workload
        .buckets
        .iter()
        .map(|bucket| BucketRecord::new(bucket.key, &bucket.members))
        .collect();

    let file = build_page_file(&records).expect("build pages");
    let pages = parse_page_directory(&file, file.len() as u64).expect("open page store");
    for (keys, expected) in workload.query_buckets.iter().zip(&workload.expected) {
        assert_eq!(
            &query_pages(&file, &pages, keys).expect("page parity"),
            expected
        );
    }

    let stored: BTreeMap<Vec<u8>, Vec<u8>> = records
        .iter()
        .map(|record| (encode_bucket_key(record.key()), encode_members(record.members())))
        .collect();
    for (keys, expected) in workload.query_buckets.iter().zip(&workload.expected) {
        let mut found = Vec::new();
        for key in keys {
            if let Some(bytes) = stored.get(&encode_bucket_key(*key)) {
                collect_members(bytes, &mut found).expect("members");
            }
        }
        found.sort_unstable();
        found.dedup();
        assert_eq!(&found, expected);
    }
}

#[test]
fn layout_buckets_need_whole_bands() {
    let short = build_signature(&[1, 2], 127, 7).expect("short");
    assert!(buckets_for_sketch(&short).is_none());
    let sketch = build_run_signature(3, 100_000, 64, 128, 7).expect("sketch");
    let keys = buckets_for_sketch(&sketch).expect("buckets");
    let hashes = band_hashes(sketch.signature(), LshParams { bands: 32, rows: 4 });
    assert_eq!(keys.len(), 32);
    assert_eq!((keys[5].band(), keys[5].hash()), (5, hashes[5]));
}

#[test]
fn paged_files_reject_damage() {
    let members = [3_u64, 4];
    let records = [
        BucketRecord::new(BucketKey::new(0, 5), &members),
        BucketRecord::new(BucketKey::new(1, 2), &members),
    ];
    let file = build_page_file(&records).expect("pages");
    assert_eq!(&file[..8], b"PARIPG1\0");
    let length = file.len() as u64;
    let pages = parse_page_directory(&file, length).expect("directory");
    assert_eq!(pages.len(), 1);
    assert!(find_page(&pages, BucketKey::new(0, 9)).is_some());
    assert!(find_page(&pages, BucketKey::new(2, 0)).is_none());
    let page = &file[pages[0].offset as usize..];
    let mut found = Vec::new();
    collect_bucket(page, BucketKey::new(1, 2), &mut found).expect("bucket");
    assert_eq!(found, vec![3, 4]);

    let mut magic = file.clone();
    magic[0] = b'Q';
    assert_eq!(parse_page_directory(&magic, length), Err(PageError::Magic));
    let mut version = file.clone();
    version[8] = 2;
    assert_eq!(parse_page_directory(&version, length), Err(PageError::Version));
    assert_eq!(announced_pages(&file[..16]), Ok(1));
    assert_eq!(announced_pages(&file[..15]), Err(PageError::Truncated));
    assert_eq!(announced_pages(&version), Err(PageError::Version));
    assert_eq!(
        parse_page_directory(&file[..10], 10),
        Err(PageError::Truncated)
    );
    assert_eq!(
        parse_page_directory(&file, length + 1),
        Err(PageError::TrailingBytes)
    );
    assert_eq!(
        collect_members(&[1, 2, 3], &mut found),
        Err(PageError::MisalignedMembers)
    );
    let record = encode_bucket_record(&records[0]).expect("record");
    assert_eq!(record.len(), 32);
    assert_eq!(
        collect_bucket(&record[..20], BucketKey::new(9, 9), &mut found),
        Err(PageError::TruncatedMembers)
    );
}

#[test]
fn phases_have_fixed_sizes() {
    assert_eq!(mutation_count(1), 1);
    assert_eq!(mutation_count(101), 2);
    assert_eq!(mutation_count(1_000_000), 1_000);
    assert_eq!(storage_mutation_count(0), None);
    assert_eq!(storage_mutation_count(1_000), Some(256));
    assert_eq!(parity_queries(0, 9), 1);
    assert_eq!(parity_queries(4, 9), 4);
    assert_eq!(edge_count(16), 64);
    assert_eq!(edge_count(0), 1);
    assert_eq!(chain_edges(2), vec![(0, 1), (1, 2)]);
    assert_eq!(
        merge_answers(&vec![vec![5, 1], vec![1, 3]]),
        vec![1, 3, 5]
    );
}

#[test]
fn mutations_keep_the_items() {
    let params = LshParams::new(16, 4);
    let mut index = LshIndex32::with_params(threshold(0.5), 64, 3, params).expect("index");
    let sketches: Vec<MinHash32> = (0..4)
        .map(|key| draw_signature(key, 64, 3).expect("signature"))
        .collect();
    index.insert_many(&number(&sketches, 4)).expect("insert");
    let before = index.query(&sketches[1]).expect("query");
    assert_eq!(mutate(&mut index, &sketches, 3), Ok(()));
    assert_eq!(index.query(&sketches[1]).expect("query"), before);
    assert!(index.remove(1));
    assert_eq!(
        mutate(&mut index, &sketches, 3),
        Err(MutationError::Missing { key: 1 })
    );
}

#[test]
fn churning_keeps_the_items() {
    let sketches: Vec<MinHash32> = (0..3)
        .map(|item| build_cluster_signature(item, 16, 3).expect("sketch"))
        .collect();
    let params = LshParams { bands: 4, rows: 4 };
    let mut index = LshIndex32::with_params(threshold(0.5), 16, 3, params).expect("index");
    assert_eq!(
        churn(&mut index, &sketches),
        Err(MutationError::Missing { key: 0 })
    );
    for (key, sketch) in sketches.iter().enumerate() {
        index.insert(key as u64, sketch).expect("insert");
    }
    let before: Vec<Vec<u64>> = sketches
        .iter()
        .map(|sketch| index.query(sketch).expect("query"))
        .collect();
    assert_eq!(churn(&mut index, &sketches), Ok(()));
    let after: Vec<Vec<u64>> = sketches
        .iter()
        .map(|sketch| index.query(sketch).expect("query"))
        .collect();
    assert_eq!(after, before);
    assert_eq!(index.len(), 3);
}

#[test]
fn observation_round_trip_is_excluded_from_stage_count() {
    assert_eq!(stage_round_trips(4, 9), 4);
    assert_eq!(stage_round_trips(9, 9), 0);
}

#[test]
fn rate_handles_elapsed_time() {
    assert_eq!(
        value(Quantity::PerSecond {
            count: 10,
            nanos: 2_000_000_000
        }),
        5.0
    );
    assert_eq!(value(Quantity::PerSecond { count: 10, nanos: 0 }), 0.0);
}

#[test]
fn shared_runs_count_round_trips_and_self_matches() {
    assert_eq!(stage_round_trips(3, 10), 6);
    assert_eq!(stage_round_trips(3, 3), 0);
    assert_eq!(stage_round_trips(4, 3), 0);
    assert_eq!(self_matches(&vec![vec![0, 4], vec![4], vec![2]]), 2);
    assert_eq!(
        build_cluster_signature(9, 16, 3).expect("cluster").signature(),
        build_signature(&[2, 62, 9], 16, 3).expect("features").signature()
    );
    let list = measure_shared(&SharedFigures {
        items: 10,
        queries: 4,
        build_nanos: 2_000_000_000,
        query_nanos: 8_000_000,
        build_round_trips: 5,
        query_round_trips: 2,
        stats: BackendStats {
            items: 10,
            bucket_memberships: 90,
            round_trips: 12,
            ttl_seconds_remaining: None,
            bucket_distribution: None,
            queries: None,
        },
    });
    let values = table(&list);
    assert_eq!(list.len(), 12);
    assert_eq!(values["backend.redis.insert_items_per_second"], 5.0);
    assert_eq!(values["backend.redis.build_elapsed_ms"], 2000.0);
    assert_eq!(values["backend.redis.batch_queries_per_second"], 500.0);
    assert_eq!(values["backend.redis.batch_query_elapsed_ms"], 8.0);
    assert_eq!(values["backend.redis.average_query_ms"], 2.0);
    assert_eq!(values["backend.redis.build_round_trips"], 5.0);
    assert_eq!(values["backend.redis.query_round_trips"], 2.0);
    assert_eq!(values["backend.redis.round_trips_per_item"], 0.5);
    assert_eq!(values["backend.redis.round_trips_per_query"], 0.5);
    assert_eq!(values["backend.redis.total_round_trips"], 12.0);
    assert_eq!(values["backend.redis.bucket_memberships"], 90.0);
    assert_eq!(values["backend.redis.self_recall"], 1.0);
}

#[test]
fn shared_runs_measure_any_backend() {
    let params = LshParams { bands: 4, rows: 4 };
    let fresh = || {
        BackendIndex32::create_with_params(MemoryBackend::new(), threshold(0.5), 16, 3, params, None)
            .expect("index")
    };
    let mut index = fresh();
    let figures = run_shared(&mut index, 12, 5, 16, 3).expect("run");
    assert_eq!((figures.items, figures.queries), (12, 5));
    assert_eq!(figures.stats.items, 12);
    assert_eq!(figures.stats.bucket_memberships, 48);
    assert_eq!((figures.build_round_trips, figures.query_round_trips), (0, 0));
    assert!(matches!(
        run_shared(&mut index, 12, 5, 16, 3),
        Err(SharedRunError::Index(_))
    ));
    assert!(matches!(
        run_shared(&mut fresh(), 12, 5, 0, 3),
        Err(SharedRunError::Sketch(_))
    ));
}

#[test]
fn layout_percentiles_are_nearest_ranks() {
    assert_eq!(layout_percentile(&vec![], 50), 0);
    assert_eq!(layout_percentile(&vec![2, 7], 50), 2);
    assert_eq!(layout_percentile(&vec![2, 7], 51), 7);
    assert_eq!(layout_percentile(&vec![2, 7], 0), 2);
    assert_eq!(layout_percentile(&vec![2, 7], 1000), 7);
    assert_eq!(layout_percentiles((1..=100).rev().collect()), (50, 95, 99));
    assert_eq!(layout_percentiles(Vec::new()), (0, 0, 0));
}

#[test]
fn parity_reports_the_first_difference() {
    let left = vec![vec![1_u64], vec![2, 3]];
    assert_eq!(ensure_candidate_parity(&left, &left.clone()), Ok(()));
    assert_eq!(
        ensure_candidate_parity(&left, &vec![vec![1]]),
        Err(ParityError::Rows {
            found: 1,
            expected: 2
        })
    );
    assert_eq!(
        ensure_candidate_parity(&left, &vec![vec![1], vec![2]]),
        Err(ParityError::Candidates {
            query: 1,
            expected: 2,
            found: 1
        })
    );
}

#[test]
fn correctness_counts_shares() {
    let truth = vec![vec![true, false, true]];
    let counts = candidate_correctness(&truth, &vec![vec![0, 1]]);
    assert_eq!(counts.exact_matches, 2);
    assert_eq!(counts.found_exact, 1);
    assert_eq!(counts.total_candidates, 2);
    assert_eq!(counts.exact_candidates, 1);
    assert_eq!(quotient(counts.recall()), 0.5);
    assert_eq!(quotient(counts.precision()), 0.5);
    assert_eq!(quotient(counts.average_candidates(1)), 2.0);
    assert_eq!(quotient(ratio(0, 0)), 1.0);
    assert_eq!(quotient(ratio(3, 0)), 0.0);
    assert_eq!(overlap(&[1, 2, 5], &[2, 5, 9]), (2, 4));
}

const NO_RSS: RssSample = RssSample {
    before_bytes: None,
    peak_bytes: None,
    after_bytes: None,
};

#[test]
fn quick_end_to_end_benchmark_preserves_correctness() {
    let config = config(64, 8, 20, 20, 128);
    let workload = prepare_workload(&config, None).expect("workload");
    let signatures =
        build_signatures(&workload.corpus, config.num_perm, config.seed).expect("signatures");
    let asked =
        build_signatures(&workload.queries, config.num_perm, config.seed).expect("signatures");
    let (candidates, errors) = tuning(0.8, config.num_perm);
    let (mut index, build_nanos) =
        build_run_index(&config, &signatures, &candidates, &errors).expect("index");
    let phase = query_phase(&index, &asked).expect("queries");
    let truth: Vec<Vec<bool>> = workload
        .queries
        .iter()
        .map(|query| {
            workload
                .corpus
                .iter()
                .map(|row| exact_jaccard(query, row) >= 0.8)
                .collect()
        })
        .collect();
    let built = BuildFigures {
        signature_nanos: 1_000,
        signature_rss: NO_RSS,
        query_signature_nanos: 1_000,
        build_nanos,
        build_rss: NO_RSS,
    };
    let figures =
        complete_run(&mut index, &signatures, &truth, 5, phase, built).expect("figures");
    assert_eq!(figures.edge_groups, 1);
    let metrics = table(&measure_run(&figures));

    assert!((metrics["index.live_items"] - 64.0).abs() < f64::EPSILON);
    assert!((metrics["candidate.recall"] - 1.0).abs() < f64::EPSILON);
    assert!((metrics["query.scalar_batch_parity"] - 1.0).abs() < f64::EPSILON);
    assert!((metrics["signature.threads"] - 1.0).abs() < f64::EPSILON);
    assert!(metrics["signature.parallel"].abs() < f64::EPSILON);
    assert!(metrics["candidate.rate"] > 0.0);
    assert!(metrics["candidate.rate"] <= 1.0);
    assert!(metrics["candidate.reduction"] >= 0.0);
    assert!(metrics["query.scalar_p99_ms"] >= 0.0);
    assert!(metrics["grouping.stream_edges_per_second"] > 0.0);
}

#[test]
fn runs_reject_what_they_cannot_run() {
    assert_eq!(
        prepare_workload(&config(0, 1, 4, 4, 16), None).err(),
        Some(RunError::Config(ConfigError::NoItems))
    );
    assert_eq!(
        prepare_workload(&config(1, 1, 4, 4, 16), Some(Vec::new())).err(),
        Some(RunError::EmptyCorpus)
    );
    let rows = vec![vec![4_u64, 9]];
    let workload = prepare_workload(&config(1, 2, 4, 4, 16), Some(rows.clone())).expect("rows");
    assert_eq!(workload.corpus, rows);
    assert_eq!(workload.queries.len(), 2);
    let index = LshIndex32::with_params(threshold(0.8), 16, 7, LshParams::new(4, 4)).expect("ok");
    let foreign = vec![build_signature(&[1], 16, 8).expect("sketch")];
    assert!(matches!(
        query_phase(&index, &foreign),
        Err(RunError::Index(_))
    ));
}

fn snapshot(sketches: &[MinHash32], params: LshParams, num_perm: usize) -> Vec<u8> {
    let mut keys = (sketches.len() as u64).to_le_bytes().to_vec();
    let mut hashes = (sketches.len() as u64).to_le_bytes().to_vec();
    for (key, sketch) in sketches.iter().enumerate() {
        keys.extend_from_slice(&(key as u64).to_le_bytes());
        for hash in band_hashes(sketch.signature(), params) {
            hashes.extend_from_slice(&hash.to_le_bytes());
        }
    }
    let metadata = IndexMetadata::new(
        Algorithm::MinHashLsh,
        SignatureScheme::PariAffine32V1,
        CodecId::U64,
        num_perm as u32,
        7,
        threshold(0.8),
        params.bands as u32,
        params.rows as u32,
        0,
    )
    .expect("metadata");
    IndexFile::new(
        metadata,
        vec![
            Section::new(SectionKind::Keys, true, keys).expect("keys"),
            Section::new(SectionKind::BandHashes, true, hashes).expect("hashes"),
        ],
    )
    .expect("file")
    .encode()
    .expect("bytes")
}

#[test]
fn storage_smoke_reports_parity_and_stable_metrics() {
    let config = config(24, 4, 20, 18, 32);
    let workload = prepare_workload(&config, None).expect("workload");
    let signatures = build_signatures(&workload.corpus, 32, 7).expect("signatures");
    let asked = build_signatures(&workload.queries, 32, 7).expect("signatures");
    let (candidates, errors) = tuning(0.8, 32);
    let (reference, _) =
        build_run_index(&config, &signatures, &candidates, &errors).expect("reference");
    let borrowed: Vec<&MinHash32> = asked.iter().collect();
    let expected = reference.query_many(&borrowed).expect("reference answers");
    let source = snapshot(&signatures, reference.params(), 32);
    let (file, builder) = build_external(&source, BuildOptions::default()).expect("build");
    let mut lazy = LazyIndex32::open(&file).expect("open");
    let phase = lazy_phase(&mut lazy, &asked, &expected).expect("parity");
    assert!(matches!(
        lazy_phase(&mut lazy, &asked, &Vec::new()),
        Err(StorageRunError::Scalar(ParityError::Rows {
            found: 4,
            expected: 0
        }))
    ));
    let mut changed = expected.clone();
    changed[2].push(u64::MAX);
    changed[3].clear();
    assert!(matches!(
        lazy_phase(&mut lazy, &asked, &changed),
        Err(StorageRunError::Scalar(ParityError::Candidates { query: 2, expected: longer, found }))
            if longer == changed[2].len() && found == expected[2].len()
    ));
    let figures = StorageFigures {
        items: signatures.len(),
        queries: asked.len(),
        persistent_nanos: 1,
        persistent_rss: NO_RSS,
        persistent_bytes: source.len() as u64,
        reopen_nanos: 1,
        reopen_rss: NO_RSS,
        committed_buckets: builder.buckets,
        builder_nanos: 1,
        builder_rss: NO_RSS,
        builder,
        lazy_nanos: 1,
        lazy_rss: NO_RSS,
        lazy_bytes: lazy.stats().file_bytes,
        lazy_buckets: lazy.stats().buckets as u64,
        scalar_nanos: phase.scalar_nanos,
        scalar_percentiles: percentiles(phase.latencies),
        query_rss: NO_RSS,
        batch_nanos: phase.batch_nanos,
    };
    let metrics = table(&measure_storage(&figures));
    assert_eq!(metrics["storage.candidate_parity"], 1.0);
    for metric in [
        "storage.persistent.reopen_ms",
        "storage.persistent.bytes_per_item",
        "storage.builder.peak_buffered_records",
        "storage.lazy.reopen_ms",
        "storage.lazy.scalar.p50_ms",
        "storage.lazy.scalar.p95_ms",
        "storage.lazy.scalar.p99_ms",
        "storage.lazy.bytes_per_item",
    ] {
        assert!(metrics.contains_key(metric), "missing {metric}");
    }
}

#[test]
fn mutation_metrics_include_sync_and_parity() {
    let config = config(16, 4, 12, 10, 32);
    let workload = prepare_workload(&config, None).expect("workload");
    let signatures = build_signatures(&workload.corpus, 32, 7).expect("signatures");
    let count = storage_mutation_count(signatures.len()).expect("items");
    let (candidates, errors) = tuning(0.8, 32);
    let (mut index, _) =
        build_run_index(&config, &signatures, &candidates, &errors).expect("index");
    let before = query_phase(&index, &signatures).expect("before").results;
    mutate(&mut index, &signatures, count).expect("mutations");
    let after = query_phase(&index, &signatures).expect("after").results;
    ensure_candidate_parity(&before, &after).expect("parity");
    let metrics = table(&measure_mutations(count, 2_000_000, 1_000_000));
    assert!(metrics.contains_key("storage.persistent.mutation_operations_per_second"));
    assert_eq!(metrics["storage.persistent.sync_ms"], 1.0);
    assert!((metrics["storage.persistent.mutation_parity"] - 1.0).abs() < f64::EPSILON);
}
