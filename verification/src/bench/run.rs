//! Benchmark runs.
//!
//! A run is cut where memory is sampled: preparing the workload, building the
//! index, querying it, and the rest. What a run finds out is fixed; only the
//! times depend on the clock.

use std::time::Instant;

use vstd::prelude::*;

use crate::bench::config::{validate_config, BenchmarkConfig, ConfigError};
use crate::bench::correctness;
use crate::bench::correctness::{candidate_correctness, CandidateCounts};
use crate::bench::measure;
use crate::bench::measure::{percentiles, RunFigures};
use crate::bench::phases;
use crate::bench::phases::{
    chain_edges, edge_count, ensure_candidate_parity, mutate, mutation_count, MutationError,
    ParityError,
};
use crate::bench::rss::RssSample;
use crate::bench::workload;
use crate::bench::workload::{borrow, build_queries, number, synthetic_corpus};
use crate::index::grouping;
use crate::index::grouping::{group_pairs, DuplicateGroup};
use crate::index::lsh::pairs;
use crate::index::lsh::{LshIndex32, LshState};
use crate::index::metrics::clamp_nanos;
use crate::index::params;
use crate::index::params::{LshError, LshParams};
use crate::order;
use crate::sketch::minhash32::MinHash32;
use crate::store::lazy::{LazyIndex32, LazyState};
use crate::store::snapshot::LazyStoreError;

verus! {

/// Why a run stopped.
#[derive(Debug, Clone, Copy, PartialEq, Eq, Structural)]
pub enum RunError {
    /// The configuration cannot be run.
    Config(ConfigError),
    /// The dataset has no rows.
    EmptyCorpus,
    /// The index rejected a signature.
    Index(LshError),
    /// Scalar and batch queries gave different answers.
    Diverged,
    /// A round of mutations stopped.
    Mutation(MutationError),
}

/// The sets that are indexed and the sets that are asked for.
#[derive(Debug, Clone)]
pub struct Workload {
    /// The sets that are indexed.
    pub corpus: Vec<Vec<u64>>,
    /// The sets that are asked for.
    pub queries: Vec<Vec<u64>>,
}

/// The sets that a run indexes: the rows of its dataset, or synthetic ones.
pub open spec fn is_corpus(
    corpus: Seq<Vec<u64>>,
    config: BenchmarkConfig,
    dataset: Option<Vec<Vec<u64>>>,
) -> bool {
    match dataset {
        Some(rows) => corpus == rows@,
        None => workload::is_synthetic_corpus(
            corpus,
            config.items,
            config.set_size,
            config.seed,
        ),
    }
}

/// Prepare the workload of a run, given the rows of its dataset if it has one.
pub fn prepare_workload(config: &BenchmarkConfig, dataset: Option<Vec<Vec<u64>>>) -> (result:
    Result<Workload, RunError>)
    ensures
        match config.error() {
            Some(error) => result == Err::<Workload, RunError>(RunError::Config(error)),
            None => if dataset matches Some(rows) && rows@.len() == 0 {
                result == Err::<Workload, RunError>(RunError::EmptyCorpus)
            } else {
                result matches Ok(found) && is_corpus(found.corpus@, *config, dataset)
                    && found.corpus@.len() > 0 && workload::are_queries(
                    found.queries@,
                    found.corpus@,
                    config.queries,
                    config.overlap,
                    config.seed,
                )
            },
        },
{
    match validate_config(config) {
        Ok(()) => {},
        Err(error) => {
            return Err(RunError::Config(error));
        },
    }
    let corpus = match dataset {
        Some(rows) => rows,
        None => synthetic_corpus(config.items, config.set_size, config.seed),
    };
    if corpus.len() == 0 {
        return Err(RunError::EmptyCorpus);
    }
    let queries = build_queries(&corpus, config.queries, config.overlap, config.seed);
    Ok(Workload { corpus, queries })
}

/// An index before anything is inserted.
pub open spec fn blank_index(config: BenchmarkConfig, params: LshParams) -> LshState {
    LshState {
        threshold: config.threshold,
        num_perm: config.num_perm,
        seed: config.seed,
        params,
        items: Map::empty(),
        slots: 0,
    }
}

/// Build the index of a run: the signatures are numbered from zero.
pub fn build_run_index(
    config: &BenchmarkConfig,
    signatures: &Vec<MinHash32>,
    candidates: &[LshParams],
    errors: &[u64],
) -> (result: Result<(LshIndex32, u128), RunError>)
    requires
        candidates@.len() == errors@.len(),
        params::tuning_error(config.threshold, config.num_perm) is None
            ==> params::is_candidate_list(candidates@, config.num_perm as nat),
    ensures
        match params::tuning_error(config.threshold, config.num_perm) {
            Some(error) => result matches Err(found) && found == RunError::Index(error),
            None => {
                let blank = blank_index(
                    *config,
                    candidates@[LshParams::best(candidates@, errors@, candidates@.len())],
                );
                let batch = workload::numbered(signatures@);
                match blank.batch_error(batch) {
                    Some(error) => result matches Err(found) && found == RunError::Index(error),
                    None => result matches Ok(built) && built.0.wf() && built.0@
                        == blank.with_batch(batch),
                }
            },
        },
{
    let mut index = match LshIndex32::new(
        config.threshold,
        config.num_perm,
        config.seed,
        candidates,
        errors,
    ) {
        Ok(index) => index,
        Err(error) => {
            return Err(RunError::Index(error));
        },
    };
    assert(signatures@.take(signatures@.len() as int) =~= signatures@);
    let items = number(signatures, signatures.len());
    let started = Instant::now();
    match index.insert_many(items.as_slice()) {
        Ok(()) => {},
        Err(error) => {
            return Err(RunError::Index(error));
        },
    }
    let nanos: u128 = started.elapsed().as_nanos();
    Ok((index, nanos))
}

/// What querying an index gave.
#[derive(Debug, Clone)]
pub struct QueryPhase {
    /// Time of all scalar queries.
    pub scalar_nanos: u128,
    /// The time of each scalar query in nanoseconds.
    pub latencies: Vec<u64>,
    /// The answers.
    pub results: Vec<Vec<u64>>,
    /// Time of the batch query.
    pub batch_nanos: u128,
}

/// The rows answer the first `upto` sketches.
pub open spec fn answers(
    state: LshState,
    sketches: Seq<MinHash32>,
    rows: Seq<Vec<u64>>,
    upto: int,
) -> bool {
    forall|i: int|
        0 <= i < upto ==> state.sketch_error((#[trigger] sketches[i])@) is None && state.is_answer(
            sketches[i]@,
            rows[i]@,
        )
}

/// The index rejects one of the sketches with this error, and none before it.
pub open spec fn rejects(state: LshState, sketches: Seq<MinHash32>, error: LshError) -> bool {
    exists|i: int|
        0 <= i < sketches.len() && state.sketch_error((#[trigger] sketches[i])@) == Some(error)
            && forall|j: int|
            0 <= j < i ==> state.sketch_error((#[trigger] sketches[j])@) is None
}

/// Ask for every sketch alone, then for all of them together.
///
/// The answers never diverge: an index that accepts every sketch answers.
pub fn query_phase(index: &LshIndex32, sketches: &Vec<MinHash32>) -> (result: Result<
    QueryPhase,
    RunError,
>)
    requires
        index.wf(),
    ensures
        match result {
            Ok(phase) => {
                &&& phase.results@.len() == sketches@.len()
                &&& phase.latencies@.len() == sketches@.len()
                &&& answers(index@, sketches@, phase.results@, sketches@.len() as int)
            },
            Err(error) => error matches RunError::Index(found) && rejects(
                index@,
                sketches@,
                found,
            ),
        },
{
    let mut latencies: Vec<u64> = Vec::new();
    let mut results: Vec<Vec<u64>> = Vec::new();
    let started = Instant::now();
    let mut at: usize = 0;
    while at < sketches.len()
        invariant
            index.wf(),
            at <= sketches@.len(),
            results@.len() == at,
            latencies@.len() == at,
            answers(index@, sketches@, results@, at as int),
        decreases sketches@.len() - at,
    {
        let asked = Instant::now();
        match index.query(&sketches[at]) {
            Ok(keys) => {
                let nanos: u64 = clamp_nanos(asked.elapsed().as_nanos());
                latencies.push(nanos);
                results.push(keys);
            },
            Err(error) => {
                assert(index@.sketch_error(sketches@[at as int]@) == Some(error));
                return Err(RunError::Index(error));
            },
        }
        at = at + 1;
    }
    let scalar_nanos: u128 = started.elapsed().as_nanos();
    let borrowed = borrow(sketches, sketches.len());
    let batch_started = Instant::now();
    let batch = match index.query_many(borrowed.as_slice()) {
        Ok(rows) => rows,
        Err(error) => {
            proof {
                let i = choose|i: int|
                    0 <= i < borrowed@.len() && index@.sketch_error((#[trigger] borrowed@[i])@)
                        == Some(error);
                assert(*borrowed@[i] == sketches@[i]);
                assert(index@.sketch_error(sketches@[i]@) is None);
            }
            return Err(RunError::Index(error));
        },
    };
    let batch_nanos: u128 = batch_started.elapsed().as_nanos();
    proof {
        assert forall|i: int| 0 <= i < sketches@.len() implies (#[trigger] results@[i])@
            == batch@[i]@ by {
            assert(*borrowed@[i] == sketches@[i]);
            assert(index@.sketch_error(sketches@[i]@) is None);
            phases::law_scalar_and_batch_agree(
                index@,
                sketches@[i]@,
                results@[i]@,
                batch@[i]@,
            );
        }
    }
    match ensure_candidate_parity(&results, &batch) {
        Ok(()) => {},
        Err(_) => {
            return Err(RunError::Diverged);
        },
    }
    Ok(QueryPhase { scalar_nanos, latencies, results, batch_nanos })
}

/// What was measured before the queries.
#[derive(Debug, Clone, Copy)]
pub struct BuildFigures {
    /// Time to sketch the corpus.
    pub signature_nanos: u128,
    /// Memory while it was sketched.
    pub signature_rss: RssSample,
    /// Time to sketch the queries.
    pub query_signature_nanos: u128,
    /// Time to build the index.
    pub build_nanos: u128,
    /// Memory while the index was built.
    pub build_rss: RssSample,
}

/// The number of rows that have both a truth and an answer.
pub open spec fn judged(truth: Seq<Vec<bool>>, results: Seq<Vec<u64>>) -> nat {
    if truth.len() < results.len() {
        truth.len()
    } else {
        results.len()
    }
}

/// The figures that do not depend on the clock.
pub open spec fn tells(
    figures: RunFigures,
    before: LshState,
    after: LshState,
    items: usize,
    truth: Seq<Vec<bool>>,
    results: Seq<Vec<u64>>,
) -> bool {
    &&& figures.items == items
    &&& figures.queries == results.len()
    &&& figures.live_items == before.items.dom().len()
    &&& figures.mutations == phases::spec_mutation_count(items)
    &&& correctness::counts(truth, results, judged(truth, results)) == (
        figures.counts.exact_matches as nat,
        figures.counts.found_exact as nat,
        figures.counts.total_candidates as nat,
        figures.counts.exact_candidates as nat,
    )
    &&& exists|groups: Seq<DuplicateGroup>, edges: Seq<(u64, u64)>| #[trigger]
        groups_of(after, groups, edges) && groups.len() == figures.groups
    &&& exists|groups: Seq<DuplicateGroup>, edges: Seq<(u64, u64)>| #[trigger]
        chain_groups(groups, edges) && edges.len() == figures.edges && groups.len()
            == figures.edge_groups
    &&& figures.edges == phases::spec_edge_count(items)
}

/// The groups of the items of an index that collide.
pub open spec fn groups_of(
    state: LshState,
    groups: Seq<DuplicateGroup>,
    edges: Seq<(u64, u64)>,
) -> bool {
    pairs::is_collision_graph(state, edges) && grouping::are_default_groups(
        state.items.dom(),
        edges,
        2,
        groups,
    )
}

/// The groups of a chain of edges.
pub open spec fn chain_groups(groups: Seq<DuplicateGroup>, edges: Seq<(u64, u64)>) -> bool {
    phases::is_chain(edges) && grouping::are_default_groups(
        grouping::nodes_of(edges),
        edges,
        grouping::minimum_of(2),
        groups,
    )
}

/// Judge the answers, mutate the index, group its items and group a stream of
/// edges.
pub fn complete_run(
    index: &mut LshIndex32,
    signatures: &Vec<MinHash32>,
    truth: &Vec<Vec<bool>>,
    ground_truth_nanos: u128,
    phase: QueryPhase,
    built: BuildFigures,
) -> (result: Result<RunFigures, RunError>)
    requires
        old(index).wf(),
        signatures@.len() > 0,
        correctness::volume(
            truth@,
            phase.results@,
            judged(truth@, phase.results@),
        ).0 <= usize::MAX,
        correctness::volume(
            truth@,
            phase.results@,
            judged(truth@, phase.results@),
        ).1 <= usize::MAX,
    ensures
        final(index).wf(),
        ({
            let count = phases::spec_mutation_count(signatures@.len() as usize);
            let rest = phases::cleared(old(index)@, count as nat);
            let batch = workload::numbered(signatures@.take(count as int));
            match phases::first_missing(old(index)@, count as nat) {
                Some(key) => result matches Err(error) && error == RunError::Mutation(
                    MutationError::Missing { key },
                ),
                None => match rest.batch_error(batch) {
                    Some(error) => result matches Err(found) && found == RunError::Mutation(
                        MutationError::Index(error),
                    ),
                    None => {
                        &&& final(index)@ == rest.with_batch(batch)
                        &&& result matches Ok(figures) && {
                            &&& tells(
                                figures,
                                old(index)@,
                                final(index)@,
                                signatures@.len() as usize,
                                truth@,
                                phase.results@,
                            )
                            &&& measure::are_percentiles(
                                phase.latencies@,
                                figures.scalar_percentiles,
                            )
                            &&& figures.scalar_nanos == phase.scalar_nanos
                            &&& figures.batch_nanos == phase.batch_nanos
                            &&& figures.ground_truth_nanos == ground_truth_nanos
                            &&& figures.signature_nanos == built.signature_nanos
                            &&& figures.signature_rss == built.signature_rss
                            &&& figures.query_signature_nanos == built.query_signature_nanos
                            &&& figures.build_nanos == built.build_nanos
                            &&& figures.build_rss == built.build_rss
                        }
                    },
                },
            }
        }),
{
    let items: usize = signatures.len();
    let live_items: usize = index.len();
    let counts: CandidateCounts = candidate_correctness(truth, &phase.results);
    let mutations: usize = mutation_count(items);
    let mutation_started = Instant::now();
    match mutate(index, signatures, mutations) {
        Ok(()) => {},
        Err(error) => {
            return Err(RunError::Mutation(error));
        },
    }
    let mutation_nanos: u128 = mutation_started.elapsed().as_nanos();
    let grouping_started = Instant::now();
    let groups = index.duplicate_groups();
    let grouping_nanos: u128 = grouping_started.elapsed().as_nanos();
    let edges: usize = edge_count(items);
    let edge_started = Instant::now();
    let chain = chain_edges(edges);
    let pair_groups = group_pairs(chain.as_slice(), 2);
    let edge_nanos: u128 = edge_started.elapsed().as_nanos();
    let figures = RunFigures {
        items,
        signature_nanos: built.signature_nanos,
        signature_rss: built.signature_rss,
        queries: phase.results.len(),
        query_signature_nanos: built.query_signature_nanos,
        build_nanos: built.build_nanos,
        build_rss: built.build_rss,
        live_items,
        scalar_nanos: phase.scalar_nanos,
        scalar_percentiles: percentiles(phase.latencies),
        batch_nanos: phase.batch_nanos,
        counts,
        ground_truth_nanos,
        mutations,
        mutation_nanos,
        grouping_nanos,
        groups: groups.len(),
        edges,
        edge_nanos,
        edge_groups: pair_groups.len(),
    };
    proof {
        let graph = choose|graph: Seq<(u64, u64)>| #[trigger]
            pairs::is_collision_graph(index@, graph) && grouping::are_default_groups(
                index@.items.dom(),
                graph,
                2,
                groups@,
            );
        assert(groups_of(index@, groups@, graph));
        assert(chain_groups(pair_groups@, chain@));
    }
    Ok(figures)
}

/// Why the queries of a stored index stopped.
#[derive(Debug, Clone, Copy, PartialEq, Eq)]
pub enum StorageRunError {
    /// The stored index failed.
    Lazy(LazyStoreError),
    /// Scalar answers differ from the reference.
    Scalar(ParityError),
    /// Batch answers differ from the reference.
    Batch(ParityError),
    /// Scalar and batch queries gave different answers.
    Diverged,
}

/// What querying a stored index gave.
#[derive(Debug, Clone)]
pub struct LazyPhase {
    /// Time of all scalar queries.
    pub scalar_nanos: u128,
    /// The time of each scalar query in nanoseconds.
    pub latencies: Vec<u64>,
    /// Time of the batch query.
    pub batch_nanos: u128,
}

/// The rows answer the first `upto` sketches from a stored index.
pub open spec fn lazy_answers(
    state: LazyState,
    sketches: Seq<MinHash32>,
    rows: Seq<Vec<u64>>,
    upto: int,
) -> bool {
    forall|i: int|
        0 <= i < upto ==> state.is_answer((#[trigger] sketches[i])@, rows[i]@)
}

/// The stored index fails on one of the sketches with this error, and on none
/// before it.
pub open spec fn lazy_rejects(
    state: LazyState,
    sketches: Seq<MinHash32>,
    error: LazyStoreError,
) -> bool {
    exists|i: int|
        0 <= i < sketches.len() && state.answer((#[trigger] sketches[i])@) == Err::<
            Set<u64>,
            LazyStoreError,
        >(error) && forall|j: int|
            0 <= j < i ==> state.answer((#[trigger] sketches[j])@) is Ok
}

/// The answer to a sketch, with the time that it took.
fn lazy_timed(lazy: &mut LazyIndex32, sketch: &MinHash32) -> (result: Result<
    (Vec<u64>, u64),
    LazyStoreError,
>)
    requires
        old(lazy).wf(),
    ensures
        final(lazy).wf(),
        final(lazy)@ == old(lazy)@,
        match result {
            Ok(found) => old(lazy)@.is_answer(sketch@, found.0@),
            Err(error) => old(lazy)@.answer(sketch@) == Err::<Set<u64>, LazyStoreError>(error),
        },
{
    let asked = Instant::now();
    match lazy.query(sketch) {
        Ok(keys) => {
            let nanos: u64 = clamp_nanos(asked.elapsed().as_nanos());
            Ok((keys, nanos))
        },
        Err(error) => Err(error),
    }
}

/// The answers to each sketch alone, with the time that each took.
pub fn lazy_scalar(lazy: &mut LazyIndex32, sketches: &Vec<MinHash32>) -> (result: Result<
    (Vec<Vec<u64>>, Vec<u64>),
    LazyStoreError,
>)
    requires
        old(lazy).wf(),
    ensures
        final(lazy).wf(),
        final(lazy)@ == old(lazy)@,
        match result {
            Ok(found) => {
                &&& found.0@.len() == sketches@.len()
                &&& found.1@.len() == sketches@.len()
                &&& lazy_answers(old(lazy)@, sketches@, found.0@, sketches@.len() as int)
            },
            Err(error) => lazy_rejects(old(lazy)@, sketches@, error),
        },
{
    let ghost state = lazy@;
    let mut latencies: Vec<u64> = Vec::new();
    let mut results: Vec<Vec<u64>> = Vec::new();
    let mut at: usize = 0;
    while at < sketches.len()
        invariant
            lazy.wf(),
            lazy@ == state,
            state == old(lazy)@,
            at <= sketches@.len(),
            results@.len() == at,
            latencies@.len() == at,
            lazy_answers(state, sketches@, results@, at as int),
        decreases sketches@.len() - at,
    {
        match lazy_timed(lazy, &sketches[at]) {
            Ok((keys, nanos)) => {
                latencies.push(nanos);
                results.push(keys);
            },
            Err(error) => {
                assert(state.answer(sketches@[at as int]@) == Err::<Set<u64>, LazyStoreError>(
                    error,
                ));
                return Err(error);
            },
        }
        at = at + 1;
    }
    Ok((results, latencies))
}

proof fn lemma_lazy_answers_agree(
    state: LazyState,
    sketch: crate::sketch::minhash32::Sketch32,
    left: Seq<u64>,
    right: Seq<u64>,
)
    requires
        state.is_answer(sketch, left),
        state.is_answer(sketch, right),
    ensures
        left == right,
{
    order::law_increasing_is_unique(left, right);
}

/// The reference holds the answers of the stored index.
pub open spec fn is_parity(
    state: LazyState,
    sketches: Seq<MinHash32>,
    reference: Seq<Vec<u64>>,
) -> bool {
    reference.len() == sketches.len() && lazy_answers(
        state,
        sketches,
        reference,
        sketches.len() as int,
    )
}

/// The stored index answers every sketch, and the error tells how the reference
/// differs: in the number of answers, or in the first one that is not the answer of
/// the index, with both lengths.
pub open spec fn is_difference(
    state: LazyState,
    sketches: Seq<MinHash32>,
    reference: Seq<Vec<u64>>,
    error: ParityError,
) -> bool {
    &&& forall|i: int| 0 <= i < sketches.len() ==> state.answer((#[trigger] sketches[i])@) is Ok
    &&& match error {
        ParityError::Rows { found, expected } => found == sketches.len() && expected
            == reference.len() && found != expected,
        ParityError::Candidates { query, expected, found } => {
            &&& reference.len() == sketches.len()
            &&& query < sketches.len()
            &&& lazy_answers(state, sketches, reference, query as int)
            &&& expected == reference[query as int]@.len()
            &&& exists|answer: Seq<u64>| #[trigger]
                state.is_answer(sketches[query as int]@, answer) && answer
                    != reference[query as int]@ && found == answer.len()
        },
    }
}

/// Ask a stored index for every sketch alone, then for all of them together,
/// and hold the answers against a reference.
///
/// It succeeds on a reference that holds the answers of the index, and tells the
/// first difference of every other. Once the scalar answers are those of the reference, the batch
/// answers are as well.
pub fn lazy_phase(
    lazy: &mut LazyIndex32,
    sketches: &Vec<MinHash32>,
    reference: &Vec<Vec<u64>>,
) -> (result: Result<LazyPhase, StorageRunError>)
    requires
        old(lazy).wf(),
    ensures
        final(lazy).wf(),
        final(lazy)@ == old(lazy)@,
        match result {
            Ok(phase) => phase.latencies@.len() == sketches@.len() && is_parity(
                old(lazy)@,
                sketches@,
                reference@,
            ),
            Err(StorageRunError::Lazy(error)) => lazy_rejects(old(lazy)@, sketches@, error),
            Err(StorageRunError::Scalar(error)) => is_difference(
                old(lazy)@,
                sketches@,
                reference@,
                error,
            ),
            Err(_) => false,
        },
{
    let ghost state = lazy@;
    let started = Instant::now();
    let (scalar, latencies) = match lazy_scalar(lazy, sketches) {
        Ok(found) => found,
        Err(error) => {
            return Err(StorageRunError::Lazy(error));
        },
    };
    let scalar_nanos: u128 = started.elapsed().as_nanos();
    match ensure_candidate_parity(reference, &scalar) {
        Ok(()) => {},
        Err(error) => {
            proof {
                assert forall|i: int| 0 <= i < sketches@.len() implies state.answer(
                    (#[trigger] sketches@[i])@,
                ) is Ok by {
                    assert(state.is_answer(sketches@[i]@, scalar@[i]@));
                }
                if error is Candidates {
                    let query = error->query as int;
                    assert(state.is_answer(sketches@[query]@, scalar@[query]@));
                    assert forall|i: int| 0 <= i < query implies state.is_answer(
                        (#[trigger] sketches@[i])@,
                        reference@[i]@,
                    ) by {
                        assert(state.is_answer(sketches@[i]@, scalar@[i]@));
                        assert(reference@[i]@ == scalar@[i]@);
                    }
                }
            }
            return Err(StorageRunError::Scalar(error));
        },
    }
    proof {
        assert forall|i: int| 0 <= i < sketches@.len() implies state.is_answer(
            (#[trigger] sketches@[i])@,
            reference@[i]@,
        ) by {
            assert(reference@[i]@ == scalar@[i]@);
        }
    }
    let borrowed = borrow(sketches, sketches.len());
    let batch_started = Instant::now();
    let batch = match lazy.query_many(borrowed.as_slice()) {
        Ok(rows) => rows,
        Err(error) => {
            proof {
                let i = choose|i: int|
                    0 <= i < borrowed@.len() && state.answer((#[trigger] borrowed@[i])@) == Err::<
                        Set<u64>,
                        LazyStoreError,
                    >(error);
                assert(*borrowed@[i] == sketches@[i]);
                assert(state.is_answer(sketches@[i]@, scalar@[i]@));
            }
            return Err(StorageRunError::Lazy(error));
        },
    };
    let batch_nanos: u128 = batch_started.elapsed().as_nanos();
    proof {
        assert forall|i: int| 0 <= i < sketches@.len() implies (#[trigger] reference@[i])@
            == batch@[i]@ by {
            assert(*borrowed@[i] == sketches@[i]);
            assert(state.is_answer(borrowed@[i]@, batch@[i]@));
            assert(state.is_answer(sketches@[i]@, reference@[i]@));
            lemma_lazy_answers_agree(state, sketches@[i]@, reference@[i]@, batch@[i]@);
        }
        assert forall|i: int| 0 <= i < sketches@.len() implies (#[trigger] scalar@[i])@
            == batch@[i]@ by {
            assert(reference@[i]@ == scalar@[i]@);
        }
    }
    match ensure_candidate_parity(reference, &batch) {
        Ok(()) => {},
        Err(error) => {
            return Err(StorageRunError::Batch(error));
        },
    }
    match ensure_candidate_parity(&scalar, &batch) {
        Ok(()) => {},
        Err(_) => {
            return Err(StorageRunError::Diverged);
        },
    }
    Ok(LazyPhase { scalar_nanos, latencies, batch_nanos })
}

} // verus!
