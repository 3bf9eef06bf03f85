//! The in-memory index, grouping and planning.

use std::collections::VecDeque;

use pari::index::grouping::{
    group_pairs, group_pairs_with_representative, DuplicateGroup, GroupError,
};
use pari::index::lsh::pairs::ordered_pair;
use pari::index::lsh::LshIndex32;
use pari::index::metrics::{clamp_nanos, nearest_rank, BucketDistribution, QueryMetrics};
use pari::index::params::{
    band_hashes, candidate_params, hash_band, select_params, validate_tuning, LshError, LshParams,
};
use pari::index::planner::{
    explain_lsh, plan_lsh, recommend_storage, size_estimates, with_headroom, LshPlan,
    LshPlanError, LshPlanOptions, ParameterSource, RecommendationReason, StorageMode,
    LSH_PLANNER_MODEL,
};
use pari::index::union_find::UnionFind;
use pari::ratio::Ratio;
use pari::sketch::minhash32::MinHash32;
use pari::threshold::Threshold;

fn threshold(value: f64) -> Threshold {
    Threshold::from_bits(value.to_bits())
}

fn value(ratio: Ratio) -> f64 {
    if ratio.denominator == 0 {
        0.0
    } else {
        ratio.numerator as f64 / ratio.denominator as f64
    }
}

fn candidate_probability(similarity: f64, params: LshParams) -> f64 {
    1.0 - (1.0 - similarity.powf(params.rows as f64)).powf(params.bands as f64)
}

fn simpson(function: impl Fn(f64) -> f64, start: f64, end: f64) -> f64 {
    if start == end {
        return 0.0;
    }
    let step = (end - start) / 64.0;
    let mut total = function(start) + function(end);
    for segment in 1..64 {
        let weight = if segment % 2 == 0 { 2.0 } else { 4.0 };
        total += weight * function(start + f64::from(segment) * step);
    }
    total * step / 3.0
}

fn tuning(cut: f64, num_perm: usize) -> (Vec<LshParams>, Vec<u64>) {
    let candidates = candidate_params(num_perm);
    let errors = candidates
        .iter()
        .map(|params| {
            let false_positive = simpson(|s| candidate_probability(s, *params), 0.0, cut);
            let false_negative = simpson(|s| 1.0 - candidate_probability(s, *params), cut, 1.0);
            (0.5 * (false_positive + false_negative)).to_bits()
        })
        .collect();
    (candidates, errors)
}

fn tuned(cut: f64, num_perm: usize, seed: u64) -> Result<LshIndex32, LshError> {
    let (candidates, errors) = tuning(cut, num_perm);
    LshIndex32::new(threshold(cut), num_perm, seed, &candidates, &errors)
}

fn with_params(cut: f64, num_perm: usize, seed: u64, params: LshParams) -> LshIndex32 {
    LshIndex32::with_params(threshold(cut), num_perm, seed, params).expect("valid index")
}

fn sketch(values: impl IntoIterator<Item = u64>, num_perm: usize, seed: u64) -> MinHash32 {
    let mut sketch = MinHash32::new(num_perm, seed).expect("valid test sketch");
    for value in values {
        sketch.update(&value.to_le_bytes());
    }
    sketch
}

fn plan(options: LshPlanOptions) -> Result<LshPlan, LshPlanError> {
    let (candidates, errors) = tuning(
        f64::from_bits(options.threshold.to_bits()),
        options.num_perm,
    );
    plan_lsh(options, &candidates, &errors)
}

#[test]
fn bucket_distribution_uses_exact_nearest_rank_summaries() {
    let distribution = BucketDistribution::from_sizes(&[1, 2, 3, 4, 100]);
    assert_eq!(distribution.buckets, 5);
    assert_eq!(distribution.memberships, 110);
    assert_eq!(distribution.minimum, 1);
    assert_eq!(distribution.p50, 3);
    assert_eq!(distribution.p95, 100);
    assert_eq!(distribution.p99, 100);
    assert_eq!(distribution.maximum, 100);
    assert!((value(distribution.average_members()) - 22.0).abs() < f64::EPSILON);
    assert_eq!(BucketDistribution::from_sizes(&[]).buckets, 0);
}

#[test]
fn bucket_distribution_ignores_empty_buckets() {
    let distribution = BucketDistribution::from_sizes(&[0, 7, 0, 2]);
    assert_eq!(distribution.buckets, 2);
    assert_eq!(distribution.memberships, 9);
    assert_eq!(distribution.minimum, 2);
    assert_eq!(distribution.p50, 7);
    assert_eq!(distribution.maximum, 7);
    assert_eq!(
        BucketDistribution::from_sizes(&[0, 0]),
        BucketDistribution::empty()
    );
}

#[test]
fn percentile_uses_nearest_upper_rank() {
    let values = vec![1_u64, 2, 3, 4, 5];
    assert_eq!(nearest_rank(&values, 50), 3);
    assert_eq!(nearest_rank(&values, 95), 5);
    assert_eq!(nearest_rank(&values, 0), 1);
}

#[test]
fn query_observation_is_opt_in_and_batch_aggregated() {
    let first = sketch(0..40, 64, 7);
    let near = sketch(0..35, 64, 7);
    let far = sketch(100..140, 64, 7);
    let mut index = tuned(0.8, 64, 7).expect("index");
    index
        .insert_many(&[(1, &first), (2, &near), (3, &far)])
        .expect("insert");
    assert!(index.stats().queries.is_none());

    index.set_observability(true);
    let scalar = index.query(&first).expect("scalar query");
    let batch = index.query_many(&[&first, &far]).expect("batch query");
    let stats = index.stats();
    let queries = stats.queries.expect("observability enabled");
    assert_eq!(queries.operations, 2);
    assert_eq!(queries.queries, 3);
    assert_eq!(
        queries.candidates,
        u64::try_from(scalar.len() + batch.iter().map(Vec::len).sum::<usize>())
            .expect("small count")
    );
    assert_eq!(queries.possible_candidates, 9);
    assert!(value(queries.candidate_rate()) > 0.0);
    assert!(queries.total_latency_ns > 0);
    assert_eq!(
        stats.buckets.memberships,
        3 * u64::try_from(index.params().bands).expect("small band count")
    );

    index.set_observability(false);
    assert!(index.stats().queries.is_none());
}

#[test]
fn query_metrics_add_up_and_saturate() {
    let mut metrics = QueryMetrics::new();
    metrics.record(2, 3, 10, 40);
    metrics.record(1, 0, 5, 60);
    assert_eq!(metrics.operations, 2);
    assert_eq!(metrics.queries, 3);
    assert_eq!(metrics.candidates, 3);
    assert_eq!(metrics.possible_candidates, 15);
    assert_eq!(metrics.total_latency_ns, 100);
    assert_eq!(metrics.max_latency_ns, 60);
    assert_eq!(value(metrics.candidate_rate()), 0.2);
    assert_eq!(value(metrics.average_operation_ns()), 50.0);
    metrics.record(1, 1, 1, u128::MAX);
    assert_eq!(metrics.total_latency_ns, u64::MAX);
    assert_eq!(metrics.max_latency_ns, u64::MAX);
    assert_eq!(clamp_nanos(u128::from(u64::MAX) + 1), u64::MAX);
    assert_eq!(clamp_nanos(7), 7);
}

#[test]
fn automatic_tuning_is_stable() {
    let index = tuned(0.8, 128, 7).expect("valid index");
    assert_eq!(index.params(), LshParams::new(9, 13));
    assert_eq!(index.params().used_permutations(), Some(117));
}

#[test]
fn tuning_prefers_small_errors_and_then_more_permutations() {
    let candidates = candidate_params(4);
    assert_eq!(candidates.len(), 8);
    let mut errors = vec![1.0_f64.to_bits(); candidates.len()];
    assert_eq!(
        select_params(&candidates, &errors, 4),
        LshParams::new(1, 4)
    );
    errors[1] = 0.5_f64.to_bits();
    assert_eq!(candidates[1], LshParams::new(1, 2));
    assert_eq!(
        select_params(&candidates, &errors, 4),
        LshParams::new(1, 2)
    );
}

#[test]
fn invalid_threshold_and_params_fail_cleanly() {
    assert!(matches!(
        tuned(f64::NAN, 128, 1),
        Err(LshError::InvalidThreshold { .. })
    ));
    assert!(matches!(
        LshIndex32::with_params(threshold(0.8), 128, 1, LshParams::new(33, 4)),
        Err(LshError::InvalidParams { .. })
    ));
}

#[test]
fn tuning_rejects_what_it_cannot_tune() {
    assert_eq!(
        validate_tuning(threshold(0.0), 128),
        Err(LshError::InvalidThreshold {
            threshold: threshold(0.0)
        })
    );
    assert!(validate_tuning(threshold(1.0), 128).is_ok());
    assert!(validate_tuning(threshold(1.0000000000000002), 128).is_err());
    assert!(validate_tuning(threshold(-0.5), 128).is_err());
    assert!(validate_tuning(threshold(f64::INFINITY), 128).is_err());
    assert_eq!(
        validate_tuning(threshold(0.8), 0),
        Err(LshError::InvalidPermutationCount { requested: 0 })
    );
    assert_eq!(
        validate_tuning(threshold(0.8), 4_097),
        Err(LshError::AutomaticTuningTooLarge {
            requested: 4_097,
            max: 4_096
        })
    );
    assert_eq!(
        LshParams::new(usize::MAX, 2).used_permutations(),
        None
    );
}

#[test]
fn band_hashes_cover_the_bands_in_order() {
    let signature = [1_u32, 2, 3, 4, 5];
    let hashes = band_hashes(&signature, LshParams::new(2, 2));
    assert_eq!(hashes, vec![hash_band(&[1, 2]), hash_band(&[3, 4])]);
    assert_ne!(hash_band(&[1, 2]), hash_band(&[2, 1]));
    let mut hash = 0xCBF2_9CE4_8422_2325_u64;
    hash = (hash ^ 7).wrapping_mul(0x0000_0100_0000_01B3);
    hash ^= 1;
    hash ^= hash >> 33;
    hash = hash.wrapping_mul(0xFF51_AFD7_ED55_8CCD);
    hash ^= hash >> 33;
    hash = hash.wrapping_mul(0xC4CE_B9FE_1A85_EC53);
    assert_eq!(hash_band(&[7]), hash ^ (hash >> 33));
}

#[test]
fn query_finds_near_candidate_and_rejects_distant_item() {
    let query = sketch(0..100, 128, 7);
    let similar = sketch((0..90).chain(100..110), 128, 7);
    let distant = sketch(1_000..1_100, 128, 7);
    let mut index = with_params(0.8, 128, 7, LshParams::new(32, 4));
    index
        .insert_many(&[(20, &similar), (30, &distant)])
        .expect("valid batch");

    assert_eq!(index.query(&query).expect("compatible query"), vec![20]);
}

#[test]
fn remove_cleans_membership_and_buckets() {
    let signature = sketch(0..100, 128, 3);
    let mut index = with_params(0.8, 128, 3, LshParams::new(32, 4));
    index.insert(7, &signature).expect("valid insert");
    assert!(index.contains(7));
    assert_eq!(index.query(&signature).expect("compatible query"), vec![7]);

    assert!(index.remove(7));
    assert!(!index.contains(7));
    assert!(index
        .query(&signature)
        .expect("compatible query")
        .is_empty());
    assert!(!index.remove(7));
    assert!(index.is_empty());
    assert_eq!(index.stats().buckets, BucketDistribution::empty());
}

#[test]
fn scalar_and_batch_paths_are_equivalent() {
    let first = sketch(0..100, 128, 9);
    let second = sketch(50..150, 128, 9);
    let third = sketch(1_000..1_100, 128, 9);
    let params = LshParams::new(32, 4);
    let mut scalar = with_params(0.8, 128, 9, params);
    let mut batch = with_params(0.8, 128, 9, params);

    scalar.insert(1, &first).expect("valid insert");
    scalar.insert(2, &second).expect("valid insert");
    scalar.insert(3, &third).expect("valid insert");
    batch
        .insert_many(&[(1, &first), (2, &second), (3, &third)])
        .expect("valid batch");

    let queries = [&first, &second, &third];
    assert_eq!(
        scalar.query_many(&queries).expect("compatible queries"),
        batch.query_many(&queries).expect("compatible queries")
    );
}

#[test]
fn batch_validation_is_atomic() {
    let first = sketch(0..100, 128, 5);
    let second = sketch(50..150, 128, 5);
    let mut index = with_params(0.8, 128, 5, LshParams::new(32, 4));
    index.insert(1, &first).expect("valid insert");

    assert!(matches!(
        index.insert_many(&[(2, &second), (1, &first)]),
        Err(LshError::DuplicateKey { key: 1 })
    ));
    assert_eq!(index.len(), 1);
    assert!(!index.contains(2));

    let mut empty = with_params(0.8, 128, 5, LshParams::new(32, 4));
    assert!(matches!(
        empty.insert_many(&[(2, &first), (2, &second)]),
        Err(LshError::DuplicateKey { key: 2 })
    ));
    assert!(empty.is_empty());
}

#[test]
fn incompatible_signatures_fail_before_mutation_or_query() {
    let expected = sketch(0..100, 128, 5);
    let wrong_seed = sketch(0..100, 128, 6);
    let wrong_length = sketch(0..100, 64, 5);
    let mut index = with_params(0.8, 128, 5, LshParams::new(32, 4));
    index.insert(1, &expected).expect("valid insert");

    assert!(matches!(
        index.query(&wrong_seed),
        Err(LshError::IncompatibleSeed {
            expected: 5,
            actual: 6
        })
    ));
    assert!(matches!(
        index.insert(2, &wrong_length),
        Err(LshError::IncompatiblePermutationCount {
            expected: 128,
            actual: 64
        })
    ));
    assert_eq!(index.len(), 1);
}

#[test]
fn query_output_is_sorted_by_external_key() {
    let signature = sketch(0..100, 128, 4);
    let mut index = with_params(0.8, 128, 4, LshParams::new(32, 4));
    index
        .insert_many(&[(9, &signature), (1, &signature), (5, &signature)])
        .expect("valid batch");
    assert_eq!(
        index.query(&signature).expect("compatible query"),
        vec![1, 5, 9]
    );
}

#[test]
fn removal_undoes_insertion() {
    let kept = sketch(0..50, 64, 2);
    let passing = sketch(25..75, 64, 2);
    let mut index = with_params(0.5, 64, 2, LshParams::new(16, 4));
    index.insert(1, &kept).expect("valid insert");
    let before = index.query(&kept).expect("query");
    index.insert(2, &passing).expect("valid insert");
    assert!(index.remove(2));
    assert_eq!(index.query(&kept).expect("query"), before);
    assert_eq!(index.len(), 1);
    index.insert(2, &passing).expect("key is free again");
    assert!(index.contains(2));
}

fn signature(seed: u64, values: impl IntoIterator<Item = u64>) -> MinHash32 {
    sketch(values, 128, seed)
}

fn member_lists(groups: &[DuplicateGroup]) -> Vec<Vec<u64>> {
    groups.iter().map(|group| group.members().to_vec()).collect()
}

#[test]
fn pair_grouping_handles_self_and_duplicate_edges() {
    let groups = group_pairs(&[(3, 3), (1, 2), (2, 1), (2, 3), (8, 8)], 1);
    assert_eq!(member_lists(&groups), vec![vec![1, 2, 3], vec![8]]);
    assert_eq!(groups[0].representative(), 1);
}

#[test]
fn small_groups_are_left_out() {
    let groups = group_pairs(&[(1, 2), (8, 8)], 2);
    assert_eq!(member_lists(&groups), vec![vec![1, 2]]);
    assert_eq!(groups[0].len(), 2);
    assert!(!groups[0].is_empty());
}

#[test]
fn representative_hook_must_choose_a_member() {
    let groups = group_pairs_with_representative(&[(1, 2), (2, 3)], 2, |members: &[u64]| {
        members[members.len() - 1]
    })
    .expect("valid representative");
    assert_eq!(groups[0].representative(), 3);

    assert_eq!(
        group_pairs_with_representative(&[(1, 2)], 2, |_: &[u64]| 99),
        Err(GroupError::RepresentativeNotMember { representative: 99 })
    );
}

#[test]
fn candidate_pair_iterator_is_unique_across_bands() {
    let same = signature(4, 0..100);
    let mut index = with_params(0.8, 128, 4, LshParams::new(32, 4));
    index
        .insert_many(&[(9, &same), (1, &same), (5, &same)])
        .expect("valid insert");

    let mut stream = index.candidate_pairs();
    let mut pairs = Vec::new();
    while let Some(pair) = stream.next() {
        pairs.push(pair);
    }
    pairs.sort_unstable();
    assert_eq!(pairs, vec![(1, 5), (1, 9), (5, 9)]);
    assert_eq!(stream.next(), None);
    assert_eq!(ordered_pair(9, 1), (1, 9));
}

#[test]
fn direct_grouping_uses_verification_and_skips_removed_keys() {
    let same = signature(8, 0..100);
    let distant = signature(8, 1_000..1_100);
    let mut index = with_params(0.8, 128, 8, LshParams::new(32, 4));
    index
        .insert_many(&[(1, &same), (2, &same), (3, &same), (99, &distant)])
        .expect("valid insert");
    assert!(index.remove(3));

    let groups = index.duplicate_groups_with(1, |left, right| (left, right) == (1, 2));
    assert_eq!(member_lists(&groups), vec![vec![1, 2], vec![99]]);
}

#[test]
fn direct_grouping_defaults_to_components_of_two_or_more() {
    let same = signature(3, 0..100);
    let distant = signature(3, 10_000..10_100);
    let mut index = with_params(0.8, 128, 3, LshParams::new(32, 4));
    index
        .insert_many(&[(10, &same), (11, &same), (50, &distant)])
        .expect("valid insert");

    assert_eq!(member_lists(&index.duplicate_groups()), vec![vec![10, 11]]);
}

#[test]
fn direct_grouping_takes_a_representative() {
    let same = signature(3, 0..100);
    let mut index = with_params(0.8, 128, 3, LshParams::new(32, 4));
    index
        .insert_many(&[(10, &same), (11, &same)])
        .expect("valid insert");
    let groups = index
        .duplicate_groups_with_representative(
            2,
            |_, _| true,
            |members: &[u64]| members[members.len() - 1],
        )
        .expect("a member");
    assert_eq!(groups[0].representative(), 11);
    assert_eq!(
        index
            .duplicate_groups_with_representative(2, |_, _| true, |_: &[u64]| 0)
            .expect_err("no member"),
        GroupError::RepresentativeNotMember { representative: 0 }
    );
}

#[test]
fn randomized_stream_matches_reference_graph_components() {
    let node_count = 64_usize;
    let mut state = 0xD1B5_4A32_D192_ED03_u64;
    let mut edges: Vec<(u64, u64)> = (0..node_count)
        .map(|node| {
            let node = u64::try_from(node).expect("small test node");
            (node, node)
        })
        .collect();

    for _ in 0..256 {
        state = splitmix(state);
        let left = usize::try_from(state % node_count as u64).expect("small test node");
        state = splitmix(state);
        let right = usize::try_from(state % node_count as u64).expect("small test node");
        edges.push((left as u64, right as u64));
        if state & 3 == 0 {
            edges.push((left as u64, right as u64));
        }
    }

    let actual = member_lists(&group_pairs(&edges, 1));
    let expected = reference_components(node_count, &edges);
    assert_eq!(actual, expected);
}

fn reference_components(node_count: usize, edges: &[(u64, u64)]) -> Vec<Vec<u64>> {
    let mut adjacency = vec![Vec::new(); node_count];
    for &(left, right) in edges {
        let left = usize::try_from(left).expect("test key fits usize");
        let right = usize::try_from(right).expect("test key fits usize");
        if left != right {
            adjacency[left].push(right);
            adjacency[right].push(left);
        }
    }

    let mut visited = vec![false; node_count];
    let mut groups = Vec::new();
    for start in 0..node_count {
        if visited[start] {
            continue;
        }
        let mut queue = VecDeque::from([start]);
        visited[start] = true;
        let mut group = Vec::new();
        while let Some(node) = queue.pop_front() {
            group.push(u64::try_from(node).expect("small test node"));
            for &next in &adjacency[node] {
                if !visited[next] {
                    visited[next] = true;
                    queue.push_back(next);
                }
            }
        }
        group.sort_unstable();
        groups.push(group);
    }
    groups.sort_unstable();
    groups
}

fn splitmix(mut value: u64) -> u64 {
    value = value.wrapping_add(0x9E37_79B9_7F4A_7C15);
    value = (value ^ (value >> 30)).wrapping_mul(0xBF58_476D_1CE4_E5B9);
    value = (value ^ (value >> 27)).wrapping_mul(0x94D0_49BB_1331_11EB);
    value ^ (value >> 31)
}

#[test]
fn union_find_joins_and_keeps_apart() {
    let mut forest = UnionFind::with_len(4);
    forest.union(0, 1);
    forest.union(2, 3);
    assert!(forest.connected(0, 1));
    assert!(!forest.connected(1, 2));
    forest.union(1, 3);
    assert!(forest.connected(0, 2));
    forest.push();
    assert_eq!(forest.len(), 5);
    assert!(!forest.connected(4, 0));
}

#[test]
fn planner_reuses_canonical_tuning_and_has_stable_estimates() {
    let plan = plan(LshPlanOptions::new(1_000_000, threshold(0.8), 128)).expect("plan");
    let index = tuned(0.8, 128, 7).expect("index");
    assert_eq!(plan.params, index.params());
    assert_eq!(plan.params, LshParams::new(9, 13));
    assert_eq!(plan.parameter_source, ParameterSource::Tuned);
    assert_eq!(plan.used_permutations, 117);
    assert_eq!(plan.unused_permutations, 11);
    assert_eq!(plan.bucket_memberships_per_item, 9);
    assert_eq!(plan.sizes.signature_bytes_per_item, 512);
    assert_eq!(plan.sizes.index_metadata_bytes_per_item, 152);
    assert_eq!(plan.sizes.in_memory_index_bytes_per_item, 1_072);
    assert_eq!(plan.sizes.persistent_index_bytes_per_item, 440);
    assert_eq!(plan.sizes.persistent_index_bytes, 440_000_736);
    assert_eq!(plan.sizes.lazy_resident_bytes_per_item, 512);
    assert_eq!(plan.recommended_storage, StorageMode::Persistent);
    assert_eq!(
        plan.recommendation_reason,
        RecommendationReason::CapacityUnknown
    );
    assert_eq!(plan.candidate_probability(threshold(-0.1), 0), None);
    assert_eq!(plan.candidate_probability(threshold(1.1), 0), None);
    assert_eq!(plan.candidate_probability(threshold(0.0), 7), Some(7));
    assert_eq!(plan.candidate_probability(threshold(-0.0), 7), Some(7));
    assert_eq!(plan.candidate_probability(threshold(f64::NAN), 7), None);
    assert_eq!(plan.model, LSH_PLANNER_MODEL);
}

#[test]
fn budget_policy_is_explicit_and_deterministic() {
    let base = LshPlanOptions::new(1_000, threshold(0.8), 128);
    let memory = plan(base.memory_budget_bytes(2_000_000)).expect("memory plan");
    assert_eq!(memory.recommended_storage, StorageMode::Memory);
    assert_eq!(memory.in_memory_fits_budget, Some(true));

    let persistent = plan(base.memory_budget_bytes(1_000_000)).expect("persistent plan");
    assert_eq!(persistent.recommended_storage, StorageMode::Persistent);
    assert_eq!(
        persistent.recommendation_reason,
        RecommendationReason::InMemoryExceedsBudget
    );

    let redis = plan(base.memory_budget_bytes(100_000)).expect("redis plan");
    assert_eq!(redis.recommended_storage, StorageMode::Redis);
    assert_eq!(redis.persistent_fits_budget, Some(false));

    let explicit = plan(
        base.memory_budget_bytes(100_000)
            .storage_mode(StorageMode::Lazy),
    )
    .expect("explicit plan");
    assert_eq!(explicit.recommended_storage, StorageMode::Lazy);
    assert_eq!(
        explicit.recommendation_reason,
        RecommendationReason::ExplicitModeExceedsBudget
    );
}

#[test]
fn existing_explanation_preserves_explicit_params() {
    let plan = explain_lsh(
        LshPlanOptions::new(10, threshold(0.8), 128).storage_mode(StorageMode::Persistent),
        LshParams::new(16, 8),
    )
    .expect("explanation");
    assert_eq!(plan.parameter_source, ParameterSource::Existing);
    assert_eq!(plan.params, LshParams::new(16, 8));
    assert_eq!(plan.unused_permutations, 0);
    assert_eq!(plan.recommended_storage, StorageMode::Persistent);

    let empty = explain_lsh(
        LshPlanOptions::new(0, threshold(0.8), 128).storage_mode(StorageMode::Persistent),
        LshParams::new(16, 8),
    )
    .expect("empty explanation");
    assert_eq!(empty.expected_items, 0);
    assert_eq!(empty.sizes.persistent_index_bytes, 736);
}

#[test]
fn invalid_and_overflowing_requests_fail_explicitly() {
    assert!(matches!(
        plan(LshPlanOptions::new(0, threshold(0.8), 128)),
        Err(LshPlanError::InvalidExpectedItems { .. })
    ));
    assert!(matches!(
        plan(LshPlanOptions::new(1, threshold(0.8), 128).memory_budget_bytes(0)),
        Err(LshPlanError::InvalidMemoryBudget { .. })
    ));
    assert!(matches!(
        plan(LshPlanOptions::new(u64::MAX, threshold(0.8), 128)),
        Err(LshPlanError::EstimateOverflow)
    ));
    assert!(matches!(
        plan(LshPlanOptions::new(1, threshold(2.0), 128)),
        Err(LshPlanError::Lsh(LshError::InvalidThreshold { .. }))
    ));
}

#[test]
fn storage_modes_have_spellings() {
    for mode in [
        StorageMode::Auto,
        StorageMode::Memory,
        StorageMode::Persistent,
        StorageMode::Lazy,
        StorageMode::Redis,
    ] {
        assert_eq!(StorageMode::parse(mode.as_str()), Ok(mode));
    }
    assert_eq!(StorageMode::parse(" LaZy "), Ok(StorageMode::Lazy));
    assert_eq!(
        StorageMode::parse("disk"),
        Err(LshPlanError::InvalidStorageMode {
            value: "disk".to_string()
        })
    );
    assert_eq!(ParameterSource::Tuned.as_str(), "tuned");
    assert_eq!(ParameterSource::Existing.as_str(), "existing");
}

#[test]
fn headroom_and_sizes_are_exact() {
    assert_eq!(with_headroom(100), Ok(150));
    assert_eq!(with_headroom(3), Ok(5));
    assert_eq!(with_headroom(u64::MAX), Err(LshPlanError::EstimateOverflow));
    let sizes = size_estimates(10, 128, 9).expect("sizes");
    assert_eq!(sizes.signature_bytes, 5_120);
    assert_eq!(sizes.in_memory_index_bytes, 10_720);
    assert_eq!(sizes.in_memory_with_headroom_bytes, 16_080);
    assert_eq!(
        recommend_storage(StorageMode::Auto, None, None),
        (
            StorageMode::Persistent,
            RecommendationReason::CapacityUnknown
        )
    );
    assert_eq!(
        recommend_storage(StorageMode::Auto, Some(true), Some(true)).0,
        StorageMode::Memory
    );
}

#[test]
fn an_index_explains_itself() {
    let mut index = with_params(0.8, 128, 4, LshParams::new(32, 4));
    index.insert(1, &sketch(0..10, 128, 4)).expect("insert");
    let plan = index.explain().expect("plan");
    assert_eq!(plan.expected_items, 1);
    assert_eq!(plan.params, LshParams::new(32, 4));
    assert_eq!(plan.parameter_source, ParameterSource::Existing);
    assert_eq!(plan.recommended_storage, StorageMode::Memory);
}

#[test]
fn analytical_candidate_curve_matches_controlled_lsh_workloads() {
    let plan = plan(LshPlanOptions::new(2_000, threshold(0.8), 128)).expect("plan");
    for (ordinal, similarity) in [0.5, 0.8, 0.9].into_iter().enumerate() {
        let observed = observed_candidate_rate(plan.params, similarity, 2_000, ordinal as u64);
        let curve = candidate_probability(similarity, plan.params);
        let expected = plan
            .candidate_probability(threshold(similarity), curve.to_bits())
            .map(f64::from_bits)
            .expect("valid similarity");
        assert!(
            (observed - expected).abs() <= 0.04,
            "similarity={similarity}, expected={expected}, observed={observed}"
        );
    }
}

#[test]
fn capacity_model_stays_within_documented_campaign_tolerances() {
    let plan = plan(LshPlanOptions::new(1_000_000, threshold(0.8), 128)).expect("plan");
    let persistent = plan.sizes.persistent_index_bytes_per_item as f64;
    for measured in [440.002_32, 440.000_736] {
        assert!(relative_error(persistent, measured) <= 0.05);
    }

    let lazy = plan.sizes.lazy_resident_bytes_per_item as f64;
    for measured in [519.495_68, 504.582_144] {
        assert!(relative_error(lazy, measured) <= 0.15);
    }

    let memory = plan.sizes.in_memory_index_bytes_per_item as f64;
    for measured in [824.360_96, 1_067.565_056] {
        assert!(relative_error(memory, measured) <= 0.35);
    }
}

fn relative_error(modeled: f64, measured: f64) -> f64 {
    (modeled - measured).abs() / measured
}

fn observed_candidate_rate(params: LshParams, similarity: f64, trials: usize, salt: u64) -> f64 {
    let num_perm = 128;
    let seed = 7;
    let mut state = 0xA076_1D64_78BD_642F_u64 ^ salt;
    let mut references = Vec::with_capacity(trials);
    let mut queries = Vec::with_capacity(trials);
    for _ in 0..trials {
        let mut reference = Vec::with_capacity(num_perm);
        let mut query = Vec::with_capacity(num_perm);
        for _ in 0..num_perm {
            let value = next_u64(&mut state) as u32;
            reference.push(value);
            let sample = next_u64(&mut state) as f64 / u64::MAX as f64;
            if sample < similarity {
                query.push(value);
            } else {
                query.push(value ^ ((next_u64(&mut state) as u32) | 1));
            }
        }
        references.push(MinHash32::from_signature(reference, seed).expect("reference"));
        queries.push(MinHash32::from_signature(query, seed).expect("query"));
    }

    let mut index = with_params(0.8, num_perm, seed, params);
    let items: Vec<(u64, &MinHash32)> = references
        .iter()
        .enumerate()
        .map(|(key, sketch)| (key as u64, sketch))
        .collect();
    index.insert_many(&items).expect("insert");
    let asked: Vec<&MinHash32> = queries.iter().collect();
    let candidates = index.query_many(&asked).expect("queries");
    let matches = candidates
        .iter()
        .enumerate()
        .filter(|(key, candidates)| candidates.binary_search(&(*key as u64)).is_ok())
        .count();
    matches as f64 / trials as f64
}

fn next_u64(state: &mut u64) -> u64 {
    *state = state.wrapping_add(0x9E37_79B9_7F4A_7C15);
    let mut value = *state;
    value = (value ^ (value >> 30)).wrapping_mul(0xBF58_476D_1CE4_E5B9);
    value = (value ^ (value >> 27)).wrapping_mul(0x94D0_49BB_1331_11EB);
    value ^ (value >> 31)
}

#[test]
fn candidate_pairs_come_in_the_same_order_every_time() {
    let same = signature(4, 0..100);
    let near = signature(4, 0..98);
    let mut index = with_params(0.8, 128, 4, LshParams::new(32, 4));
    index
        .insert_many(&[(9, &same), (1, &same), (5, &near), (30, &near)])
        .expect("valid insert");
    assert!(index.remove(30));
    let collect = || {
        let mut stream = index.candidate_pairs();
        let mut pairs = Vec::new();
        while let Some(pair) = stream.next() {
            pairs.push(pair);
        }
        pairs
    };
    let first = collect();
    assert_eq!(first, collect());
    assert_eq!(first.len(), 3);
    assert_eq!(
        index
            .query(&same)
            .expect("query")
            .into_iter()
            .filter(|key| *key > 1)
            .collect::<Vec<_>>(),
        vec![5, 9]
    );
    assert!(first.contains(&(1, 5)) && first.contains(&(1, 9)));
}

#[test]
fn verifiers_see_live_ascending_collisions_and_selectors_see_components() {
    let same = signature(8, 0..100);
    let distant = signature(8, 1_000..1_100);
    let mut index = with_params(0.8, 128, 8, LshParams::new(32, 4));
    index
        .insert_many(&[(7, &same), (2, &same), (3, &same), (99, &distant)])
        .expect("valid insert");
    assert!(index.remove(3));
    let groups = index
        .duplicate_groups_with_representative(
            2,
            |left, right| {
                assert_eq!((left, right), (2, 7));
                true
            },
            |members: &[u64]| {
                assert_eq!(members, &[2, 7]);
                7
            },
        )
        .expect("a member");
    assert_eq!(groups.len(), 1);
    assert_eq!(groups[0].representative(), 7);
}

#[test]
fn percentiles_bound_their_shares() {
    let sizes: Vec<usize> = (1..=201).rev().collect();
    let distribution = BucketDistribution::from_sizes(&sizes);
    for (percentile, bound) in [
        (50, distribution.p50),
        (95, distribution.p95),
        (99, distribution.p99),
    ] {
        let below = sizes.iter().filter(|size| **size as u64 <= bound).count();
        assert!(100 * below >= percentile * sizes.len());
    }
    let above = sizes
        .iter()
        .filter(|size| **size as u64 >= distribution.p50)
        .count();
    assert!(2 * above >= sizes.len());
    assert_eq!(
        (distribution.p50, distribution.p95, distribution.p99),
        (101, 191, 199)
    );
}
