//! Benchmarks of shared backends.

use std::time::Instant;

use vstd::prelude::*;

use crate::backend::contract::{BackendStats, StorageBackend};
use crate::backend::error::{BackendError, BackendIndexError};
use crate::backend::index;
use crate::backend::index::BackendIndex32;
use crate::bench::measure;
use crate::bench::measure::{Measurement, MeasurementState, Quantity};
use crate::bench::report::MetricDirection;
use crate::bench::workload;
use crate::ratio::Ratio;
use crate::sketch;
use crate::sketch::minhash32::MinHash32;
use crate::sketch::MinHashError;

verus! {

/// How many items share a cluster.
pub const CLUSTER_ITEMS: u64 = 4;

/// The features of an item of a cluster: two of its cluster and one of its own.
pub open spec fn cluster_features(item: u64) -> Seq<u64> {
    let cluster = item / CLUSTER_ITEMS;
    seq![cluster, cluster.wrapping_mul(31), item]
}

/// Sketch an item of a cluster.
pub fn build_cluster_signature(item: u64, num_perm: usize, seed: u64) -> (result: Result<
    MinHash32,
    MinHashError,
>)
    ensures
        match result {
            Ok(sketch) => sketch::valid_num_perm(num_perm as nat) && sketch.wf() && sketch@
                == workload::feature_sketch(cluster_features(item), num_perm as nat, seed),
            Err(error) => !sketch::valid_num_perm(num_perm as nat) && error
                == MinHashError::InvalidPermutationCount { requested: num_perm },
        },
{
    let cluster: u64 = item / CLUSTER_ITEMS;
    let mut features: Vec<u64> = Vec::new();
    features.push(cluster);
    features.push(cluster.wrapping_mul(31));
    features.push(item);
    assert(features@ =~= cluster_features(item));
    workload::build_signature(features.as_slice(), num_perm, seed)
}

/// The round trips of a stage between two snapshots of the statistics. The later
/// snapshot is a round trip of its own, which does not count.
pub open spec fn spec_stage_round_trips(before: u64, after: u64) -> u64 {
    if after <= before {
        0
    } else {
        (after - before - 1) as u64
    }
}

/// The round trips of a stage between two snapshots of the statistics.
pub fn stage_round_trips(before: u64, after: u64) -> (trips: u64)
    ensures
        trips == spec_stage_round_trips(before, after),
{
    if after <= before {
        0
    } else {
        after - before - 1
    }
}

/// How many of the first `upto` answers hold the number of their query.
pub open spec fn self_found(answers: Seq<Vec<u64>>, upto: nat) -> nat
    decreases upto,
{
    if upto == 0 {
        0
    } else {
        self_found(answers, (upto - 1) as nat) + if answers[upto - 1]@.contains(
            (upto - 1) as u64,
        ) {
            1nat
        } else {
            0
        }
    }
}

fn holds(keys: &Vec<u64>, wanted: u64) -> (found: bool)
    ensures
        found == keys@.contains(wanted),
{
    let mut index: usize = 0;
    while index < keys.len()
        invariant
            index <= keys@.len(),
            forall|i: int| 0 <= i < index ==> keys@[i] != wanted,
        decreases keys@.len() - index,
    {
        if keys[index] == wanted {
            assert(keys@[index as int] == wanted);
            return true;
        }
        index = index + 1;
    }
    false
}

/// How many answers hold the number of their query.
pub fn self_matches(answers: &Vec<Vec<u64>>) -> (count: usize)
    ensures
        count == self_found(answers@, answers@.len()),
        count <= answers@.len(),
{
    let mut count: usize = 0;
    let mut index: usize = 0;
    while index < answers.len()
        invariant
            index <= answers@.len(),
            count <= index,
            count == self_found(answers@, index as nat),
        decreases answers@.len() - index,
    {
        if holds(&answers[index], index as u64) {
            count = count + 1;
        }
        index = index + 1;
    }
    count
}

/// The measurements of a run over a shared backend.
#[derive(Debug, Clone, Copy)]
pub struct SharedFigures {
    /// Inserted items.
    pub items: usize,
    /// Queries.
    pub queries: usize,
    /// Time to insert and flush.
    pub build_nanos: u128,
    /// Time of the batch query.
    pub query_nanos: u128,
    /// Round trips of insertion.
    pub build_round_trips: u64,
    /// Round trips of the batch query.
    pub query_round_trips: u64,
    /// The statistics after the run.
    pub stats: BackendStats,
}

/// The time metrics of a run over a shared backend.
pub open spec fn timing_metrics(figures: SharedFigures) -> Seq<MeasurementState> {
    seq![
        MeasurementState {
            name: "backend.redis.insert_items_per_second"@,
            quantity: Quantity::PerSecond {
                count: figures.items as u64,
                nanos: figures.build_nanos,
            },
            unit: "items/s"@,
            direction: MetricDirection::Higher,
        },
        measure::elapsed("backend.redis.build_elapsed_ms"@, figures.build_nanos),
        MeasurementState {
            name: "backend.redis.batch_queries_per_second"@,
            quantity: Quantity::PerSecond {
                count: figures.queries as u64,
                nanos: figures.query_nanos,
            },
            unit: "queries/s"@,
            direction: MetricDirection::Higher,
        },
        measure::elapsed("backend.redis.batch_query_elapsed_ms"@, figures.query_nanos),
        MeasurementState {
            name: "backend.redis.average_query_ms"@,
            quantity: Quantity::Millis { nanos: mean(figures.query_nanos, figures.queries) },
            unit: "ms/query"@,
            direction: MetricDirection::Lower,
        },
    ]
}

/// The mean of so many times, in whole nanoseconds.
pub open spec fn mean(nanos: u128, count: usize) -> u128 {
    if count == 0 {
        0
    } else {
        nanos / (count as u128)
    }
}

/// The round-trip metrics of a run over a shared backend.
pub open spec fn round_trip_metrics(figures: SharedFigures) -> Seq<MeasurementState> {
    let lower = MetricDirection::Lower;
    seq![
        measure::counted(
            "backend.redis.build_round_trips"@,
            figures.build_round_trips,
            "round_trips"@,
            lower,
        ),
        measure::counted(
            "backend.redis.query_round_trips"@,
            figures.query_round_trips,
            "round_trips"@,
            lower,
        ),
        measure::quotient(
            "backend.redis.round_trips_per_item"@,
            Ratio { numerator: figures.build_round_trips, denominator: figures.items as u64 },
            "round_trips/item"@,
            lower,
        ),
        measure::quotient(
            "backend.redis.round_trips_per_query"@,
            Ratio { numerator: figures.query_round_trips, denominator: figures.queries as u64 },
            "round_trips/query"@,
            lower,
        ),
        measure::counted(
            "backend.redis.total_round_trips"@,
            figures.stats.round_trips,
            "round_trips"@,
            lower,
        ),
    ]
}

/// All metrics of a run over a shared backend.
pub open spec fn shared_metrics(figures: SharedFigures) -> Seq<MeasurementState> {
    timing_metrics(figures) + round_trip_metrics(figures) + seq![
        measure::counted(
            "backend.redis.bucket_memberships"@,
            figures.stats.bucket_memberships,
            "memberships"@,
            MetricDirection::Neutral,
        ),
        measure::counted("backend.redis.self_recall"@, 1, "ratio"@, MetricDirection::Higher),
    ]
}

fn push_timing(list: &mut Vec<Measurement>, figures: &SharedFigures)
    ensures
        measure::states(final(list)@) == measure::states(old(list)@) + timing_metrics(*figures),
{
    let higher = MetricDirection::Higher;
    let average: u128 = if figures.queries == 0 {
        0
    } else {
        figures.query_nanos / (figures.queries as u128)
    };
    measure::push(
        list,
        "backend.redis.insert_items_per_second".to_owned(),
        Quantity::PerSecond { count: figures.items as u64, nanos: figures.build_nanos },
        "items/s",
        higher,
    );
    measure::push_elapsed(list, "backend.redis.build_elapsed_ms", figures.build_nanos);
    measure::push(
        list,
        "backend.redis.batch_queries_per_second".to_owned(),
        Quantity::PerSecond { count: figures.queries as u64, nanos: figures.query_nanos },
        "queries/s",
        higher,
    );
    measure::push_elapsed(list, "backend.redis.batch_query_elapsed_ms", figures.query_nanos);
    measure::push(
        list,
        "backend.redis.average_query_ms".to_owned(),
        Quantity::Millis { nanos: average },
        "ms/query",
        MetricDirection::Lower,
    );
    assert(measure::states(list@) =~= measure::states(old(list)@) + timing_metrics(*figures));
}

fn push_round_trips(list: &mut Vec<Measurement>, figures: &SharedFigures)
    ensures
        measure::states(final(list)@) == measure::states(old(list)@) + round_trip_metrics(*figures),
{
    let lower = MetricDirection::Lower;
    measure::push_count(
        list,
        "backend.redis.build_round_trips",
        figures.build_round_trips,
        "round_trips",
        lower,
    );
    measure::push_count(
        list,
        "backend.redis.query_round_trips",
        figures.query_round_trips,
        "round_trips",
        lower,
    );
    measure::push_quotient(
        list,
        "backend.redis.round_trips_per_item",
        Ratio { numerator: figures.build_round_trips, denominator: figures.items as u64 },
        "round_trips/item",
        lower,
    );
    measure::push_quotient(
        list,
        "backend.redis.round_trips_per_query",
        Ratio { numerator: figures.query_round_trips, denominator: figures.queries as u64 },
        "round_trips/query",
        lower,
    );
    measure::push_count(
        list,
        "backend.redis.total_round_trips",
        figures.stats.round_trips,
        "round_trips",
        lower,
    );
    assert(measure::states(list@) =~= measure::states(old(list)@) + round_trip_metrics(*figures));
}

/// The metrics of a run over a shared backend in which every query found its own
/// item.
pub fn measure_shared(figures: &SharedFigures) -> (list: Vec<Measurement>)
    ensures
        measure::states(list@) == shared_metrics(*figures),
{
    let mut list: Vec<Measurement> = Vec::new();
    assert(measure::states(list@) =~= Seq::empty());
    push_timing(&mut list, figures);
    push_round_trips(&mut list, figures);
    measure::push_count(
        &mut list,
        "backend.redis.bucket_memberships",
        figures.stats.bucket_memberships,
        "memberships",
        MetricDirection::Neutral,
    );
    measure::push_count(
        &mut list,
        "backend.redis.self_recall",
        1,
        "ratio",
        MetricDirection::Higher,
    );
    assert(measure::states(list@) =~= shared_metrics(*figures));
    list
}

/// Why a run over a shared backend stopped.
#[derive(Debug)]
pub enum SharedRunError {
    /// A signature cannot be built.
    Sketch(MinHashError),
    /// The index failed.
    Index(BackendIndexError),
    /// A query did not find its own item.
    Recall {
        /// How many queries did.
        found: usize,
    },
}

/// The sketches are those of the first items.
pub open spec fn are_cluster_signatures(
    sketches: Seq<MinHash32>,
    items: nat,
    num_perm: nat,
    seed: u64,
) -> bool {
    &&& sketches.len() == items
    &&& forall|i: int|
        0 <= i < items ==> (#[trigger] sketches[i]).wf() && sketches[i]@
            == workload::feature_sketch(cluster_features(i as u64), num_perm, seed)
}

/// Sketch the first items.
pub fn build_cluster_signatures(items: usize, num_perm: usize, seed: u64) -> (result: Result<
    Vec<MinHash32>,
    MinHashError,
>)
    ensures
        match result {
            Ok(sketches) => (items == 0 || sketch::valid_num_perm(num_perm as nat))
                && are_cluster_signatures(sketches@, items as nat, num_perm as nat, seed),
            Err(error) => items > 0 && !sketch::valid_num_perm(num_perm as nat) && error
                == MinHashError::InvalidPermutationCount { requested: num_perm },
        },
{
    let mut sketches: Vec<MinHash32> = Vec::new();
    let mut item: usize = 0;
    while item < items
        invariant
            item <= items,
            item == 0 || sketch::valid_num_perm(num_perm as nat),
            are_cluster_signatures(sketches@, item as nat, num_perm as nat, seed),
        decreases items - item,
    {
        match build_cluster_signature(item as u64, num_perm, seed) {
            Ok(sketch) => {
                sketches.push(sketch);
            },
            Err(error) => {
                return Err(error);
            },
        }
        item = item + 1;
    }
    Ok(sketches)
}

/// The states that an index over a backend goes through in a run, and what it is
/// told on the way.
pub struct SharedTrace<B> {
    /// The sketches of the items.
    pub sketches: Seq<MinHash32>,
    /// The first statistics.
    pub baseline: BackendStats,
    /// The index after the first statistics.
    pub counted: BackendIndex32<B>,
    /// The index after the insertion.
    pub filled: BackendIndex32<B>,
    /// The index after the flush.
    pub flushed: BackendIndex32<B>,
    /// The statistics after the flush.
    pub middle: BackendStats,
    /// The index after these statistics.
    pub built: BackendIndex32<B>,
    /// The answers.
    pub rows: Vec<Vec<u64>>,
    /// The index after the query.
    pub queried: BackendIndex32<B>,
}

/// The index gave these statistics.
#[verifier::opaque]
pub open spec fn gives_stats<B: StorageBackend>(
    before: BackendIndex32<B>,
    after: BackendIndex32<B>,
    stats: BackendStats,
) -> bool {
    exists|reply: Result<BackendStats, BackendError>| #[trigger]
        index::stats_passed_on(
            before,
            after,
            reply,
            Ok::<BackendStats, BackendIndexError>(stats),
        )
}

/// The index took the sketches in under consecutive keys and completed its
/// writes.
#[verifier::opaque]
pub open spec fn takes_in<B: StorageBackend>(
    before: BackendIndex32<B>,
    filled: BackendIndex32<B>,
    after: BackendIndex32<B>,
    sketches: Seq<MinHash32>,
) -> bool {
    &&& exists|told: Result<(), BackendIndexError>| #[trigger]
        index::is_insertion(before, filled, workload::numbered(sketches), told) && told is Ok
    &&& exists|reply: Result<(), BackendError>| #[trigger]
        filled.store().flushes(reply, after.store()) && reply is Ok
}

/// The index answered the first sketches together.
#[verifier::opaque]
pub open spec fn answers<B: StorageBackend>(
    before: BackendIndex32<B>,
    after: BackendIndex32<B>,
    sketches: Seq<MinHash32>,
    queries: nat,
    rows: Vec<Vec<u64>>,
) -> bool {
    index::is_query(
        before,
        after,
        Seq::new(queries, |i: int| &sketches[i]),
        Ok::<Vec<Vec<u64>>, BackendIndexError>(rows),
    )
}

/// The index failed to give statistics.
#[verifier::opaque]
pub open spec fn refuses_stats<B: StorageBackend>(
    before: BackendIndex32<B>,
    after: BackendIndex32<B>,
    error: BackendIndexError,
) -> bool {
    exists|reply: Result<BackendStats, BackendError>| #[trigger]
        index::stats_passed_on(
            before,
            after,
            reply,
            Err::<BackendStats, BackendIndexError>(error),
        )
}

/// The index failed to take the sketches in, or to complete its writes after it
/// did.
#[verifier::opaque]
pub open spec fn fails_to_take_in<B: StorageBackend>(
    before: BackendIndex32<B>,
    filled: BackendIndex32<B>,
    after: BackendIndex32<B>,
    sketches: Seq<MinHash32>,
    error: BackendIndexError,
) -> bool {
    ||| index::is_insertion(
        before,
        after,
        workload::numbered(sketches),
        Err::<(), BackendIndexError>(error),
    )
    ||| {
        &&& exists|told: Result<(), BackendIndexError>| #[trigger]
            index::is_insertion(before, filled, workload::numbered(sketches), told) && told is Ok
        &&& exists|reply: Result<(), BackendError>| #[trigger]
            filled.store().flushes(reply, after.store()) && index::passed_on(reply) == Err::<
                (),
                BackendIndexError,
            >(error)
    }
}

/// The index failed to answer the first sketches together.
#[verifier::opaque]
pub open spec fn fails_to_answer<B: StorageBackend>(
    before: BackendIndex32<B>,
    after: BackendIndex32<B>,
    sketches: Seq<MinHash32>,
    queries: nat,
    error: BackendIndexError,
) -> bool {
    index::is_query(
        before,
        after,
        Seq::new(queries, |i: int| &sketches[i]),
        Err::<Vec<Vec<u64>>, BackendIndexError>(error),
    )
}

fn take_stats<B: StorageBackend>(index: &mut BackendIndex32<B>) -> (result: Result<
    BackendStats,
    SharedRunError,
>)
    requires
        old(index).wf(),
    ensures
        final(index).wf(),
        match result {
            Ok(stats) => gives_stats(*old(index), *final(index), stats),
            Err(error) => error matches SharedRunError::Index(inner) && refuses_stats(
                *old(index),
                *final(index),
                inner,
            ),
        },
{
    proof {
        reveal(gives_stats);
        reveal(refuses_stats);
    }
    match index.stats() {
        Ok(stats) => Ok(stats),
        Err(error) => Err(SharedRunError::Index(error)),
    }
}

fn take_in<B: StorageBackend>(index: &mut BackendIndex32<B>, sketches: &Vec<MinHash32>) -> (result:
    Result<(), SharedRunError>)
    requires
        old(index).wf(),
    ensures
        final(index).wf(),
        match result {
            Ok(()) => exists|filled: BackendIndex32<B>| #[trigger]
                takes_in(*old(index), filled, *final(index), sketches@),
            Err(error) => error matches SharedRunError::Index(inner) && exists|
                filled: BackendIndex32<B>,
            | #[trigger]
                fails_to_take_in(*old(index), filled, *final(index), sketches@, inner),
        },
{
    proof {
        reveal(takes_in);
        reveal(fails_to_take_in);
    }
    assert(sketches@.take(sketches@.len() as int) =~= sketches@);
    let inserted = index.insert_many(workload::number(sketches, sketches.len()).as_slice());
    let ghost told = inserted;
    match inserted {
        Ok(()) => {},
        Err(error) => {
            assert(fails_to_take_in(*old(index), *index, *index, sketches@, error));
            return Err(SharedRunError::Index(error));
        },
    }
    let ghost filled = *index;
    let completed = index.flush();
    proof {
        let reply = choose|reply: Result<(), BackendError>| #[trigger]
            filled.store().flushes(reply, index.store()) && completed == index::passed_on(reply);
        if completed is Ok {
            assert(reply is Ok);
            assert(index::is_insertion(
                *old(index),
                filled,
                workload::numbered(sketches@),
                told,
            ));
            assert(takes_in(*old(index), filled, *index, sketches@));
        } else {
            assert(index::is_insertion(
                *old(index),
                filled,
                workload::numbered(sketches@),
                told,
            ));
            assert(fails_to_take_in(
                *old(index),
                filled,
                *index,
                sketches@,
                completed->Err_0,
            ));
        }
    }
    match completed {
        Ok(()) => Ok(()),
        Err(error) => Err(SharedRunError::Index(error)),
    }
}

fn answer<B: StorageBackend>(
    index: &mut BackendIndex32<B>,
    sketches: &Vec<MinHash32>,
    queries: usize,
) -> (result: Result<Vec<Vec<u64>>, SharedRunError>)
    requires
        old(index).wf(),
        queries <= sketches@.len(),
    ensures
        final(index).wf(),
        match result {
            Ok(rows) => rows@.len() == queries && answers(
                *old(index),
                *final(index),
                sketches@,
                queries as nat,
                rows,
            ),
            Err(error) => error matches SharedRunError::Index(inner) && fails_to_answer(
                *old(index),
                *final(index),
                sketches@,
                queries as nat,
                inner,
            ),
        },
{
    proof {
        reveal(answers);
        reveal(fails_to_answer);
    }
    let asked = workload::borrow(sketches, queries);
    assert(asked@ =~= Seq::new(queries as nat, |i: int| &sketches@[i]));
    match index.query_many(asked.as_slice()) {
        Ok(rows) => Ok(rows),
        Err(error) => Err(SharedRunError::Index(error)),
    }
}

/// The index gave its first statistics and took the items in.
pub open spec fn is_built<B: StorageBackend>(
    start: BackendIndex32<B>,
    trace: SharedTrace<B>,
) -> bool {
    &&& gives_stats(start, trace.counted, trace.baseline)
    &&& takes_in(trace.counted, trace.filled, trace.flushed, trace.sketches)
    &&& gives_stats(trace.flushed, trace.built, trace.middle)
}

/// A run over a shared backend that the index failed in: the first failure, at
/// whatever stage, is the one that is returned.
pub open spec fn is_interrupted_run<B: StorageBackend>(
    start: BackendIndex32<B>,
    end: BackendIndex32<B>,
    trace: SharedTrace<B>,
    items: nat,
    queries: nat,
    num_perm: nat,
    seed: u64,
    error: BackendIndexError,
) -> bool {
    &&& are_cluster_signatures(trace.sketches, items, num_perm, seed)
    &&& {
        ||| refuses_stats(start, end, error)
        ||| gives_stats(start, trace.counted, trace.baseline) && fails_to_take_in(
            trace.counted,
            trace.filled,
            end,
            trace.sketches,
            error,
        )
        ||| gives_stats(start, trace.counted, trace.baseline) && takes_in(
            trace.counted,
            trace.filled,
            trace.flushed,
            trace.sketches,
        ) && refuses_stats(trace.flushed, end, error)
        ||| is_built(start, trace) && fails_to_answer(
            trace.built,
            end,
            trace.sketches,
            queries,
            error,
        )
        ||| {
            &&& is_built(start, trace)
            &&& answers(trace.built, trace.queried, trace.sketches, queries, trace.rows)
            &&& self_found(trace.rows@, trace.rows@.len()) == queries
            &&& refuses_stats(trace.queried, end, error)
        }
    }
}

/// A run over a shared backend in which so many queries found their own item,
/// but not all.
pub open spec fn is_missing_run<B: StorageBackend>(
    start: BackendIndex32<B>,
    end: BackendIndex32<B>,
    trace: SharedTrace<B>,
    items: nat,
    queries: nat,
    num_perm: nat,
    seed: u64,
    found: usize,
) -> bool {
    &&& are_cluster_signatures(trace.sketches, items, num_perm, seed)
    &&& is_built(start, trace)
    &&& answers(trace.built, end, trace.sketches, queries, trace.rows)
    &&& found == self_found(trace.rows@, trace.rows@.len())
    &&& found < queries
}

/// A run over a shared backend: the items are inserted and flushed, the first of
/// them are queried together, every query finds its own item, and the round
/// trips of both stages are read off the statistics around them.
pub open spec fn is_shared_run<B: StorageBackend>(
    start: BackendIndex32<B>,
    end: BackendIndex32<B>,
    trace: SharedTrace<B>,
    num_perm: nat,
    seed: u64,
    figures: SharedFigures,
) -> bool {
    &&& are_cluster_signatures(trace.sketches, figures.items as nat, num_perm, seed)
    &&& is_built(start, trace)
    &&& answers(
        trace.built,
        trace.queried,
        trace.sketches,
        figures.queries as nat,
        trace.rows,
    )
    &&& self_found(trace.rows@, trace.rows@.len()) == figures.queries
    &&& gives_stats(trace.queried, end, figures.stats)
    &&& figures.build_round_trips == spec_stage_round_trips(
        trace.baseline.round_trips,
        trace.middle.round_trips,
    )
    &&& figures.query_round_trips == spec_stage_round_trips(
        trace.middle.round_trips,
        figures.stats.round_trips,
    )
}

/// The outcome of a run over a shared backend.
#[verifier::opaque]
pub open spec fn ends_so<B: StorageBackend>(
    start: BackendIndex32<B>,
    end: BackendIndex32<B>,
    items: usize,
    queries: usize,
    num_perm: usize,
    seed: u64,
    result: Result<SharedFigures, SharedRunError>,
) -> bool {
    match result {
        Ok(figures) => figures.items == items && figures.queries == queries && exists|
            trace: SharedTrace<B>,
        | #[trigger]
            is_shared_run(start, end, trace, num_perm as nat, seed, figures),
        Err(SharedRunError::Sketch(error)) => {
            &&& items > 0
            &&& !sketch::valid_num_perm(num_perm as nat)
            &&& error == (MinHashError::InvalidPermutationCount { requested: num_perm })
            &&& end == start
        },
        Err(SharedRunError::Recall { found }) => exists|trace: SharedTrace<B>| #[trigger]
            is_missing_run(
                start,
                end,
                trace,
                items as nat,
                queries as nat,
                num_perm as nat,
                seed,
                found,
            ),
        Err(SharedRunError::Index(error)) => exists|trace: SharedTrace<B>| #[trigger]
            is_interrupted_run(
                start,
                end,
                trace,
                items as nat,
                queries as nat,
                num_perm as nat,
                seed,
                error,
            ),
    }
}

proof fn lemma_interrupted<B: StorageBackend>(
    start: BackendIndex32<B>,
    end: BackendIndex32<B>,
    trace: SharedTrace<B>,
    items: usize,
    queries: usize,
    num_perm: usize,
    seed: u64,
    error: SharedRunError,
)
    requires
        error is Index,
        is_interrupted_run(
            start,
            end,
            trace,
            items as nat,
            queries as nat,
            num_perm as nat,
            seed,
            error->Index_0,
        ),
    ensures
        ends_so(start, end, items, queries, num_perm, seed, Err(error)),
{
    reveal(ends_so);
}

proof fn lemma_missing<B: StorageBackend>(
    start: BackendIndex32<B>,
    end: BackendIndex32<B>,
    trace: SharedTrace<B>,
    items: usize,
    queries: usize,
    num_perm: usize,
    seed: u64,
    error: SharedRunError,
)
    requires
        error is Recall,
        is_missing_run(
            start,
            end,
            trace,
            items as nat,
            queries as nat,
            num_perm as nat,
            seed,
            error->found,
        ),
    ensures
        ends_so(start, end, items, queries, num_perm, seed, Err(error)),
{
    reveal(ends_so);
}

proof fn lemma_run<B: StorageBackend>(
    start: BackendIndex32<B>,
    end: BackendIndex32<B>,
    trace: SharedTrace<B>,
    num_perm: usize,
    seed: u64,
    figures: SharedFigures,
)
    requires
        is_shared_run(start, end, trace, num_perm as nat, seed, figures),
    ensures
        ends_so(start, end, figures.items, figures.queries, num_perm, seed, Ok(figures)),
{
    reveal(ends_so);
}

/// Insert clustered items into an index over a backend, query the first of them
/// together, and measure both.
///
/// The run succeeds only if every query finds its own item.
pub fn run_shared<B: StorageBackend>(
    index: &mut BackendIndex32<B>,
    items: usize,
    queries: usize,
    num_perm: usize,
    seed: u64,
) -> (result: Result<SharedFigures, SharedRunError>)
    requires
        old(index).wf(),
        queries <= items,
    ensures
        final(index).wf(),
        ends_so(*old(index), *final(index), items, queries, num_perm, seed, result),
        items > 0 && !sketch::valid_num_perm(num_perm as nat) ==> result matches Err(
            SharedRunError::Sketch(_),
        ),
{
    let ghost start = *index;
    let ghost mut trace: SharedTrace<B> = arbitrary();
    let signatures = match build_cluster_signatures(items, num_perm, seed) {
        Ok(signatures) => signatures,
        Err(error) => {
            proof {
                reveal(ends_so);
            }
            return Err(SharedRunError::Sketch(error));
        },
    };
    proof {
        trace = SharedTrace { sketches: signatures@, ..trace };
    }
    let baseline = match take_stats(index) {
        Ok(stats) => stats,
        Err(error) => {
            proof {
                lemma_interrupted(start, *index, trace, items, queries, num_perm, seed, error);
            }
            return Err(error);
        },
    };
    let ghost counted = *index;
    proof {
        trace = SharedTrace { baseline, counted, ..trace };
    }
    let build_started = Instant::now();
    match take_in(index, &signatures) {
        Ok(()) => {},
        Err(error) => {
            proof {
                let filled = choose|filled: BackendIndex32<B>| #[trigger]
                    fails_to_take_in(counted, filled, *index, signatures@, error->Index_0);
                trace = SharedTrace { filled, ..trace };
                lemma_interrupted(start, *index, trace, items, queries, num_perm, seed, error);
            }
            return Err(error);
        },
    }
    let build_nanos: u128 = build_started.elapsed().as_nanos();
    let ghost flushed = *index;
    proof {
        let filled = choose|filled: BackendIndex32<B>| #[trigger]
            takes_in(counted, filled, flushed, signatures@);
        trace = SharedTrace { filled, flushed, ..trace };
    }
    let middle = match take_stats(index) {
        Ok(stats) => stats,
        Err(error) => {
            proof {
                lemma_interrupted(start, *index, trace, items, queries, num_perm, seed, error);
            }
            return Err(error);
        },
    };
    proof {
        trace = SharedTrace { middle, built: *index, ..trace };
    }
    let query_started = Instant::now();
    let rows = match answer(index, &signatures, queries) {
        Ok(rows) => rows,
        Err(error) => {
            proof {
                lemma_interrupted(start, *index, trace, items, queries, num_perm, seed, error);
            }
            return Err(error);
        },
    };
    let query_nanos: u128 = query_started.elapsed().as_nanos();
    let found: usize = self_matches(&rows);
    proof {
        trace = SharedTrace { rows, queried: *index, ..trace };
    }
    if found != queries {
        let error = SharedRunError::Recall { found };
        proof {
            lemma_missing(start, *index, trace, items, queries, num_perm, seed, error);
        }
        return Err(error);
    }
    let stats = match take_stats(index) {
        Ok(stats) => stats,
        Err(error) => {
            proof {
                lemma_interrupted(start, *index, trace, items, queries, num_perm, seed, error);
            }
            return Err(error);
        },
    };
    let figures = SharedFigures {
        items,
        queries,
        build_nanos,
        query_nanos,
        build_round_trips: stage_round_trips(baseline.round_trips, middle.round_trips),
        query_round_trips: stage_round_trips(middle.round_trips, stats.round_trips),
        stats,
    };
    proof {
        lemma_run(start, *index, trace, num_perm, seed, figures);
    }
    Ok(figures)
}

/// The answers that hold the number of their query are counted.
pub proof fn law_answers_that_hold_their_query_are_counted(answers: Seq<Vec<u64>>, upto: nat)
    ensures
        Set::<int>::new(|i: int| 0 <= i < upto && answers[i]@.contains(i as u64)).finite(),
        self_found(answers, upto) == Set::<int>::new(
            |i: int| 0 <= i < upto && answers[i]@.contains(i as u64),
        ).len(),
    decreases upto,
{
    let all = Set::<int>::new(|i: int| 0 <= i < upto && answers[i]@.contains(i as u64));
    if upto == 0 {
        assert(all =~= Set::<int>::empty());
    } else {
        let shorter = (upto - 1) as nat;
        law_answers_that_hold_their_query_are_counted(answers, shorter);
        let front = Set::<int>::new(|i: int| 0 <= i < shorter && answers[i]@.contains(i as u64));
        if all.contains(upto - 1) {
            assert(all =~= front.insert(upto - 1));
        } else {
            assert(all =~= front);
        }
    }
}

/// So many trips and the later snapshot itself lead from one snapshot to the other.
pub proof fn law_trips_between_snapshots(before: u64, trips: u64)
    requires
        before + trips + 1 <= u64::MAX,
    ensures
        spec_stage_round_trips(before, (before + trips + 1) as u64) == trips,
{
}

/// The mean times the count is the time, but for less than one nanosecond for each.
pub proof fn law_means(nanos: u128, count: usize)
    ensures
        count > 0 ==> mean(nanos, count) * count <= nanos < mean(nanos, count) * count + count,
        count == 0 ==> mean(nanos, count) == 0,
{
    if count > 0 {
        let of = count as int;
        let whole = nanos as int / of;
        assert(whole * of <= nanos < whole * of + of) by (nonlinear_arith)
            requires
                of > 0,
                nanos >= 0,
                whole == nanos as int / of,
        ;
        assert(mean(nanos, count) as int == whole);
    }
}

/// Items of one cluster share the features of their cluster, and every item has a feature
/// of its own.
pub proof fn law_clusters_share_features(left: u64, right: u64)
    ensures
        cluster_features(left).len() == 3,
        (left / 4 == right / 4) ==> cluster_features(left).take(2) == cluster_features(
            right,
        ).take(2),
        cluster_features(left)[0] == cluster_features(right)[0] ==> left / 4 == right / 4,
        cluster_features(left)[2] == left,
{
    if left / 4 == right / 4 {
        assert(cluster_features(left).take(2) =~= cluster_features(right).take(2));
    }
}

} // verus!
