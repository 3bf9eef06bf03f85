//! What benchmark runs measure.

use vstd::prelude::*;
use vstd::string::*;

use crate::bench::correctness;
use crate::bench::correctness::CandidateCounts;
use crate::bench::report::MetricDirection;
use crate::bench::rss;
use crate::bench::rss::RssSample;
use crate::index::metrics;
use crate::order;
use crate::ratio::Ratio;
use crate::store::bounded::BuildStats;

verus! {

/// An exact quantity.
#[derive(Debug, Clone, Copy, PartialEq, Eq, Structural)]
pub enum Quantity {
    /// A count.
    Count(u64),
    /// A quotient.
    Quotient(Ratio),
    /// So many in so many nanoseconds, per second; zero where no time passed.
    PerSecond {
        /// How many.
        count: u64,
        /// In how many nanoseconds.
        nanos: u128,
    },
    /// A time in milliseconds.
    Millis {
        /// The time in nanoseconds.
        nanos: u128,
    },
}

/// What a measurement says.
#[verifier::ext_equal]
pub struct MeasurementState {
    /// The name of the metric.
    pub name: Seq<char>,
    /// The value.
    pub quantity: Quantity,
    /// The unit.
    pub unit: Seq<char>,
    /// The optimization direction.
    pub direction: MetricDirection,
}

/// One measured metric with its exact value.
#[derive(Debug, PartialEq, Eq)]
pub struct Measurement {
    /// The name of the metric.
    pub name: String,
    /// The value.
    pub quantity: Quantity,
    /// The unit.
    pub unit: &'static str,
    /// The optimization direction.
    pub direction: MetricDirection,
}

impl View for Measurement {
    type V = MeasurementState;

    open spec fn view(&self) -> MeasurementState {
        MeasurementState {
            name: self.name@,
            quantity: self.quantity,
            unit: self.unit@,
            direction: self.direction,
        }
    }
}

/// What measurements say.
pub open spec fn states(list: Seq<Measurement>) -> Seq<MeasurementState> {
    Seq::new(list.len(), |i: int| list[i]@)
}

/// A throughput.
pub open spec fn throughput(name: Seq<char>, count: usize, nanos: u128) -> MeasurementState {
    MeasurementState {
        name,
        quantity: Quantity::PerSecond { count: count as u64, nanos },
        unit: "items/s"@,
        direction: MetricDirection::Higher,
    }
}

/// An elapsed time.
pub open spec fn elapsed(name: Seq<char>, nanos: u128) -> MeasurementState {
    MeasurementState {
        name,
        quantity: Quantity::Millis { nanos },
        unit: "ms"@,
        direction: MetricDirection::Lower,
    }
}

/// A count.
pub open spec fn counted(
    name: Seq<char>,
    count: u64,
    unit: Seq<char>,
    direction: MetricDirection,
) -> MeasurementState {
    MeasurementState { name, quantity: Quantity::Count(count), unit, direction }
}

/// A quotient.
pub open spec fn quotient(
    name: Seq<char>,
    ratio: Ratio,
    unit: Seq<char>,
    direction: MetricDirection,
) -> MeasurementState {
    MeasurementState { name, quantity: Quantity::Quotient(ratio), unit, direction }
}

pub(crate) fn push(
    list: &mut Vec<Measurement>,
    name: String,
    quantity: Quantity,
    unit: &'static str,
    direction: MetricDirection,
)
    ensures
        states(final(list)@) == states(old(list)@).push(
            MeasurementState { name: name@, quantity, unit: unit@, direction },
        ),
{
    list.push(Measurement { name, quantity, unit, direction });
    assert(states(list@) =~= states(old(list)@).push(
        MeasurementState { name: name@, quantity, unit: unit@, direction },
    ));
}

fn push_throughput(list: &mut Vec<Measurement>, name: &str, count: usize, nanos: u128)
    ensures
        states(final(list)@) == states(old(list)@).push(throughput(name@, count, nanos)),
{
    push(
        list,
        name.to_owned(),
        Quantity::PerSecond { count: count as u64, nanos },
        "items/s",
        MetricDirection::Higher,
    );
}

pub(crate) fn push_elapsed(list: &mut Vec<Measurement>, name: &str, nanos: u128)
    ensures
        states(final(list)@) == states(old(list)@).push(elapsed(name@, nanos)),
{
    push(list, name.to_owned(), Quantity::Millis { nanos }, "ms", MetricDirection::Lower);
}

pub(crate) fn push_count(
    list: &mut Vec<Measurement>,
    name: &str,
    count: u64,
    unit: &'static str,
    direction: MetricDirection,
)
    ensures
        states(final(list)@) == states(old(list)@).push(counted(name@, count, unit@, direction)),
{
    push(list, name.to_owned(), Quantity::Count(count), unit, direction);
}

pub(crate) fn push_quotient(
    list: &mut Vec<Measurement>,
    name: &str,
    ratio: Ratio,
    unit: &'static str,
    direction: MetricDirection,
)
    ensures
        states(final(list)@) == states(old(list)@).push(quotient(name@, ratio, unit@, direction)),
{
    push(list, name.to_owned(), Quantity::Quotient(ratio), unit, direction);
}

fn joined(left: &str, right: &str) -> (text: String)
    ensures
        text@ == left@ + right@,
{
    let mut text = left.to_owned();
    text.append(right);
    text
}

/// The numbers at the nearest ranks of the percentiles 50, 95 and 99 of
/// latencies, or zeros where there are none.
pub open spec fn are_percentiles(latencies: Seq<u64>, found: (u64, u64, u64)) -> bool {
    if latencies.len() == 0 {
        found == (0u64, 0u64, 0u64)
    } else {
        exists|ordered: Seq<u64>|
            order::sorted(ordered) && #[trigger] ordered.to_multiset() == latencies.to_multiset()
                && found == (
                ordered[metrics::rank(ordered.len(), 50)],
                ordered[metrics::rank(ordered.len(), 95)],
                ordered[metrics::rank(ordered.len(), 99)],
            )
    }
}

/// The percentiles of latencies.
pub fn percentiles(latencies: Vec<u64>) -> (found: (u64, u64, u64))
    ensures
        are_percentiles(latencies@, found),
{
    if latencies.len() == 0 {
        return (0, 0, 0);
    }
    let mut ordered = latencies;
    order::sort(&mut ordered);
    proof {
        ordered@.to_multiset_ensures();
        latencies@.to_multiset_ensures();
    }
    (
        metrics::nearest_rank(&ordered, 50),
        metrics::nearest_rank(&ordered, 95),
        metrics::nearest_rank(&ordered, 99),
    )
}

/// The memory metrics of a phase.
pub open spec fn memory_metrics(phase: Seq<char>, sample: RssSample, items: usize) -> Seq<
    MeasurementState,
> {
    let stem = "memory."@ + phase;
    let peak = match sample.peak_bytes {
        Some(peak) => seq![
            counted(stem + "_peak_rss_bytes"@, peak, "bytes"@, MetricDirection::Lower),
        ],
        None => Seq::empty(),
    };
    let settled = match (sample.before_bytes, sample.after_bytes) {
        (Some(before), Some(after)) => {
            let delta = rss::excess(after, before);
            let whole = seq![
                counted(stem + "_rss_delta_bytes"@, delta, "bytes"@, MetricDirection::Lower),
            ];
            if items > 0 {
                whole.push(
                    quotient(
                        stem + "_rss_delta_bytes_per_item"@,
                        Ratio { numerator: delta, denominator: items as u64 },
                        "bytes/item"@,
                        MetricDirection::Lower,
                    ),
                )
            } else {
                whole
            }
        },
        _ => Seq::empty(),
    };
    peak + settled
}

fn push_memory(list: &mut Vec<Measurement>, phase: &str, sample: RssSample, items: usize)
    ensures
        states(final(list)@) == states(old(list)@) + memory_metrics(phase@, sample, items),
{
    let stem = joined("memory.", phase);
    match sample.peak_bytes {
        Some(peak) => {
            let name = joined(stem.as_str(), "_peak_rss_bytes");
            push(list, name, Quantity::Count(peak), "bytes", MetricDirection::Lower);
        },
        None => {},
    }
    match sample.settled_delta() {
        Some(delta) => {
            let name = joined(stem.as_str(), "_rss_delta_bytes");
            push(list, name, Quantity::Count(delta), "bytes", MetricDirection::Lower);
            if items > 0 {
                let name = joined(stem.as_str(), "_rss_delta_bytes_per_item");
                push(
                    list,
                    name,
                    Quantity::Quotient(Ratio { numerator: delta, denominator: items as u64 }),
                    "bytes/item",
                    MetricDirection::Lower,
                );
            }
        },
        None => {},
    }
    assert(states(list@) =~= states(old(list)@) + memory_metrics(phase@, sample, items));
}

/// The measurements of an in-memory run.
#[derive(Debug, Clone, Copy)]
pub struct RunFigures {
    /// Sketched corpus items.
    pub items: usize,
    /// Time to sketch them.
    pub signature_nanos: u128,
    /// Memory while they were sketched.
    pub signature_rss: RssSample,
    /// Queries.
    pub queries: usize,
    /// Time to sketch the queries.
    pub query_signature_nanos: u128,
    /// Time to build the index.
    pub build_nanos: u128,
    /// Memory while the index was built.
    pub build_rss: RssSample,
    /// Live items of the index.
    pub live_items: usize,
    /// Time of all scalar queries.
    pub scalar_nanos: u128,
    /// Percentiles of the times of scalar queries in nanoseconds.
    pub scalar_percentiles: (u64, u64, u64),
    /// Time of the batch query.
    pub batch_nanos: u128,
    /// Candidates compared with the ground truth.
    pub counts: CandidateCounts,
    /// Time to find the ground truth.
    pub ground_truth_nanos: u128,
    /// Mutations, each of which removes and inserts one item.
    pub mutations: usize,
    /// Time of the mutations.
    pub mutation_nanos: u128,
    /// Time to group the items of the index.
    pub grouping_nanos: u128,
    /// Groups of items of the index.
    pub groups: usize,
    /// Edges of the edge stream.
    pub edges: usize,
    /// Time to group the edge stream.
    pub edge_nanos: u128,
    /// Groups of the edge stream.
    pub edge_groups: usize,
}

/// The product, as far as 64 bits can tell.
pub open spec fn possible(items: usize, queries: usize) -> u64 {
    metrics::saturated(items as nat * queries as nat)
}

/// The metrics of sketching.
pub open spec fn signature_metrics(figures: RunFigures) -> Seq<MeasurementState> {
    seq![
        throughput("signature.items_per_second"@, figures.items, figures.signature_nanos),
        elapsed("signature.elapsed_ms"@, figures.signature_nanos),
        counted("signature.threads"@, 1, "threads"@, MetricDirection::Neutral),
        counted("signature.parallel"@, 0, "flag"@, MetricDirection::Neutral),
    ] + memory_metrics("signature"@, figures.signature_rss, figures.items) + seq![
        throughput(
            "query_signature.items_per_second"@,
            figures.queries,
            figures.query_signature_nanos,
        ),
    ]
}

fn push_signature(list: &mut Vec<Measurement>, figures: &RunFigures)
    ensures
        states(final(list)@) == states(old(list)@) + signature_metrics(*figures),
{
    let neutral = MetricDirection::Neutral;
    push_throughput(list, "signature.items_per_second", figures.items, figures.signature_nanos);
    push_elapsed(list, "signature.elapsed_ms", figures.signature_nanos);
    push_count(list, "signature.threads", 1, "threads", neutral);
    push_count(list, "signature.parallel", 0, "flag", neutral);
    push_memory(list, "signature", figures.signature_rss, figures.items);
    push_throughput(
        list,
        "query_signature.items_per_second",
        figures.queries,
        figures.query_signature_nanos,
    );
    assert(states(list@) =~= states(old(list)@) + signature_metrics(*figures));
}

/// The metrics of building the index.
pub open spec fn build_metrics(figures: RunFigures) -> Seq<MeasurementState> {
    seq![
        throughput("index.build_items_per_second"@, figures.items, figures.build_nanos),
        elapsed("index.build_elapsed_ms"@, figures.build_nanos),
    ] + memory_metrics("index_build"@, figures.build_rss, figures.items) + seq![
        counted("index.live_items"@, figures.live_items as u64, "items"@, MetricDirection::Neutral),
    ]
}

fn push_build(list: &mut Vec<Measurement>, figures: &RunFigures)
    ensures
        states(final(list)@) == states(old(list)@) + build_metrics(*figures),
{
    push_throughput(list, "index.build_items_per_second", figures.items, figures.build_nanos);
    push_elapsed(list, "index.build_elapsed_ms", figures.build_nanos);
    push_memory(list, "index_build", figures.build_rss, figures.items);
    push_count(
        list,
        "index.live_items",
        figures.live_items as u64,
        "items",
        MetricDirection::Neutral,
    );
    assert(states(list@) =~= states(old(list)@) + build_metrics(*figures));
}

/// The metrics of the queries.
pub open spec fn query_metrics(figures: RunFigures) -> Seq<MeasurementState> {
    seq![
        throughput("query.scalar_queries_per_second"@, figures.queries, figures.scalar_nanos),
        elapsed("query.scalar_p50_ms"@, figures.scalar_percentiles.0 as u128),
        elapsed("query.scalar_p95_ms"@, figures.scalar_percentiles.1 as u128),
        elapsed("query.scalar_p99_ms"@, figures.scalar_percentiles.2 as u128),
        throughput("query.batch_queries_per_second"@, figures.queries, figures.batch_nanos),
        counted("query.scalar_batch_parity"@, 1, "ratio"@, MetricDirection::Neutral),
    ]
}

fn push_query(list: &mut Vec<Measurement>, figures: &RunFigures)
    ensures
        states(final(list)@) == states(old(list)@) + query_metrics(*figures),
{
    let (p50, p95, p99) = figures.scalar_percentiles;
    push_throughput(
        list,
        "query.scalar_queries_per_second",
        figures.queries,
        figures.scalar_nanos,
    );
    push_elapsed(list, "query.scalar_p50_ms", p50 as u128);
    push_elapsed(list, "query.scalar_p95_ms", p95 as u128);
    push_elapsed(list, "query.scalar_p99_ms", p99 as u128);
    push_throughput(list, "query.batch_queries_per_second", figures.queries, figures.batch_nanos);
    push_count(list, "query.scalar_batch_parity", 1, "ratio", MetricDirection::Neutral);
    assert(states(list@) =~= states(old(list)@) + query_metrics(*figures));
}

/// The metrics of the candidates.
pub open spec fn candidate_metrics(figures: RunFigures) -> Seq<MeasurementState> {
    let all = possible(figures.items, figures.queries);
    let candidates = figures.counts.total_candidates as u64;
    seq![
        quotient(
            "candidate.recall"@,
            correctness::share(
                figures.counts.found_exact as u64,
                figures.counts.exact_matches as u64,
            ),
            "ratio"@,
            MetricDirection::Higher,
        ),
        quotient(
            "candidate.precision"@,
            correctness::share(figures.counts.exact_candidates as u64, candidates),
            "ratio"@,
            MetricDirection::Higher,
        ),
        quotient(
            "candidate.average_candidates"@,
            correctness::share(candidates, figures.queries as u64),
            "items"@,
            MetricDirection::Lower,
        ),
        counted(
            "candidate.exact_matches"@,
            figures.counts.exact_matches as u64,
            "pairs"@,
            MetricDirection::Neutral,
        ),
        quotient(
            "candidate.rate"@,
            Ratio::of(candidates, all),
            "ratio"@,
            MetricDirection::Lower,
        ),
        quotient(
            "candidate.reduction"@,
            Ratio::of(rss::excess(all, candidates), all),
            "ratio"@,
            MetricDirection::Higher,
        ),
        elapsed("candidate.ground_truth_elapsed_ms"@, figures.ground_truth_nanos),
    ]
}

fn push_candidate(list: &mut Vec<Measurement>, figures: &RunFigures)
    ensures
        states(final(list)@) == states(old(list)@) + candidate_metrics(*figures),
{
    let higher = MetricDirection::Higher;
    let lower = MetricDirection::Lower;
    push_quotient(list, "candidate.recall", figures.counts.recall(), "ratio", higher);
    push_quotient(list, "candidate.precision", figures.counts.precision(), "ratio", higher);
    push_quotient(
        list,
        "candidate.average_candidates",
        figures.counts.average_candidates(figures.queries),
        "items",
        lower,
    );
    push_count(
        list,
        "candidate.exact_matches",
        figures.counts.exact_matches as u64,
        "pairs",
        MetricDirection::Neutral,
    );
    let all: u64 = match (figures.items as u64).checked_mul(figures.queries as u64) {
        Some(all) => all,
        None => u64::MAX,
    };
    proof {
        assert(figures.items as nat * figures.queries as nat == figures.items * figures.queries)
            by (nonlinear_arith);
    }
    let candidates: u64 = figures.counts.total_candidates as u64;
    push_quotient(list, "candidate.rate", Ratio::new(candidates, all), "ratio", lower);
    push_quotient(
        list,
        "candidate.reduction",
        Ratio::new(all.saturating_sub(candidates), all),
        "ratio",
        higher,
    );
    push_elapsed(list, "candidate.ground_truth_elapsed_ms", figures.ground_truth_nanos);
    assert(states(list@) =~= states(old(list)@) + candidate_metrics(*figures));
}

/// The metrics of mutations and grouping.
pub open spec fn grouping_metrics(figures: RunFigures) -> Seq<MeasurementState> {
    seq![
        MeasurementState {
            name: "index.mutation_operations_per_second"@,
            quantity: Quantity::PerSecond {
                count: metrics::saturated(figures.mutations as nat * 2),
                nanos: figures.mutation_nanos,
            },
            unit: "items/s"@,
            direction: MetricDirection::Higher,
        },
        throughput("grouping.index_items_per_second"@, figures.live_items, figures.grouping_nanos),
        counted(
            "grouping.index_group_count"@,
            figures.groups as u64,
            "groups"@,
            MetricDirection::Neutral,
        ),
        throughput("grouping.stream_edges_per_second"@, figures.edges, figures.edge_nanos),
        counted(
            "grouping.stream_group_count"@,
            figures.edge_groups as u64,
            "groups"@,
            MetricDirection::Neutral,
        ),
    ]
}

fn push_grouping(list: &mut Vec<Measurement>, figures: &RunFigures)
    ensures
        states(final(list)@) == states(old(list)@) + grouping_metrics(*figures),
{
    let neutral = MetricDirection::Neutral;
    let operations: u64 = match (figures.mutations as u64).checked_mul(2) {
        Some(operations) => operations,
        None => u64::MAX,
    };
    push(
        list,
        "index.mutation_operations_per_second".to_owned(),
        Quantity::PerSecond { count: operations, nanos: figures.mutation_nanos },
        "items/s",
        MetricDirection::Higher,
    );
    push_throughput(
        list,
        "grouping.index_items_per_second",
        figures.live_items,
        figures.grouping_nanos,
    );
    push_count(list, "grouping.index_group_count", figures.groups as u64, "groups", neutral);
    push_throughput(list, "grouping.stream_edges_per_second", figures.edges, figures.edge_nanos);
    push_count(list, "grouping.stream_group_count", figures.edge_groups as u64, "groups", neutral);
    assert(states(list@) =~= states(old(list)@) + grouping_metrics(*figures));
}

/// The metrics of an in-memory run.
pub open spec fn run_metrics(figures: RunFigures) -> Seq<MeasurementState> {
    signature_metrics(figures) + build_metrics(figures) + query_metrics(figures)
        + candidate_metrics(figures) + grouping_metrics(figures)
}

/// The metrics of an in-memory run.
pub fn measure_run(figures: &RunFigures) -> (list: Vec<Measurement>)
    ensures
        states(list@) == run_metrics(*figures),
{
    let mut list: Vec<Measurement> = Vec::new();
    assert(states(list@) =~= Seq::empty());
    push_signature(&mut list, figures);
    push_build(&mut list, figures);
    push_query(&mut list, figures);
    push_candidate(&mut list, figures);
    push_grouping(&mut list, figures);
    assert(states(list@) =~= run_metrics(*figures));
    list
}

/// The measurements of a run across the storage paths.
#[derive(Debug, Clone, Copy)]
pub struct StorageFigures {
    /// Stored items.
    pub items: usize,
    /// Queries.
    pub queries: usize,
    /// Time to build the mutable persistent index.
    pub persistent_nanos: u128,
    /// Memory while it was built.
    pub persistent_rss: RssSample,
    /// Size of its file.
    pub persistent_bytes: u64,
    /// Time to open it again.
    pub reopen_nanos: u128,
    /// Memory while it was opened.
    pub reopen_rss: RssSample,
    /// Buckets that it has committed.
    pub committed_buckets: u64,
    /// Time of the bounded builder.
    pub builder_nanos: u128,
    /// Memory while the builder ran.
    pub builder_rss: RssSample,
    /// What the builder did.
    pub builder: BuildStats,
    /// Time to open the lazy index.
    pub lazy_nanos: u128,
    /// Memory while it was opened.
    pub lazy_rss: RssSample,
    /// Size of its file.
    pub lazy_bytes: u64,
    /// Buckets in its directory.
    pub lazy_buckets: u64,
    /// Time of all scalar queries.
    pub scalar_nanos: u128,
    /// Percentiles of the times of scalar queries in nanoseconds.
    pub scalar_percentiles: (u64, u64, u64),
    /// Memory while the queries ran.
    pub query_rss: RssSample,
    /// Time of the batch query.
    pub batch_nanos: u128,
}

/// The number, or one where it is zero.
pub open spec fn at_least_one(count: usize) -> u64 {
    if count == 0 {
        1
    } else {
        count as u64
    }
}

/// The memory metrics of a storage phase.
pub open spec fn storage_memory(stem: Seq<char>, sample: RssSample, items: usize) -> Seq<
    MeasurementState,
> {
    let peak = match sample.peak_bytes {
        Some(peak) => seq![
            counted(stem + ".peak_rss_bytes"@, peak, "bytes"@, MetricDirection::Lower),
        ],
        None => Seq::empty(),
    };
    let rise = match (sample.before_bytes, sample.peak_bytes) {
        (Some(before), Some(peak)) => {
            let delta = rss::excess(peak, before);
            seq![
                counted(stem + ".rss_delta_bytes"@, delta, "bytes"@, MetricDirection::Lower),
                quotient(
                    stem + ".rss_delta_bytes_per_item"@,
                    Ratio { numerator: delta, denominator: at_least_one(items) },
                    "bytes/item"@,
                    MetricDirection::Lower,
                ),
            ]
        },
        _ => Seq::empty(),
    };
    peak + rise
}

fn push_storage_memory(list: &mut Vec<Measurement>, stem: &str, sample: RssSample, items: usize)
    ensures
        states(final(list)@) == states(old(list)@) + storage_memory(stem@, sample, items),
{
    match sample.peak_bytes {
        Some(peak) => {
            let name = joined(stem, ".peak_rss_bytes");
            push(list, name, Quantity::Count(peak), "bytes", MetricDirection::Lower);
        },
        None => {},
    }
    match sample.peak_delta() {
        Some(delta) => {
            let name = joined(stem, ".rss_delta_bytes");
            push(list, name, Quantity::Count(delta), "bytes", MetricDirection::Lower);
            let denominator: u64 = if items == 0 {
                1
            } else {
                items as u64
            };
            let name = joined(stem, ".rss_delta_bytes_per_item");
            push(
                list,
                name,
                Quantity::Quotient(Ratio { numerator: delta, denominator }),
                "bytes/item",
                MetricDirection::Lower,
            );
        },
        None => {},
    }
    assert(states(list@) =~= states(old(list)@) + storage_memory(stem@, sample, items));
}

/// The size metrics of a file.
pub open spec fn file_metrics(stem: Seq<char>, bytes: u64, items: usize) -> Seq<MeasurementState> {
    seq![
        counted(stem + ".file_bytes"@, bytes, "bytes"@, MetricDirection::Lower),
        quotient(
            stem + ".bytes_per_item"@,
            Ratio { numerator: bytes, denominator: at_least_one(items) },
            "bytes/item"@,
            MetricDirection::Lower,
        ),
    ]
}

fn push_file(list: &mut Vec<Measurement>, stem: &str, bytes: u64, items: usize)
    ensures
        states(final(list)@) == states(old(list)@) + file_metrics(stem@, bytes, items),
{
    let name = joined(stem, ".file_bytes");
    push(list, name, Quantity::Count(bytes), "bytes", MetricDirection::Lower);
    let denominator: u64 = if items == 0 {
        1
    } else {
        items as u64
    };
    let name = joined(stem, ".bytes_per_item");
    push(
        list,
        name,
        Quantity::Quotient(Ratio { numerator: bytes, denominator }),
        "bytes/item",
        MetricDirection::Lower,
    );
    assert(states(list@) =~= states(old(list)@) + file_metrics(stem@, bytes, items));
}

/// The metrics of the mutable persistent index.
pub open spec fn persistent_metrics(figures: StorageFigures) -> Seq<MeasurementState> {
    seq![
        throughput(
            "storage.persistent.build_items_per_second"@,
            figures.items,
            figures.persistent_nanos,
        ),
        elapsed("storage.persistent.build_elapsed_ms"@, figures.persistent_nanos),
    ] + storage_memory("storage.persistent.build"@, figures.persistent_rss, figures.items)
        + file_metrics("storage.persistent"@, figures.persistent_bytes, figures.items) + seq![
        elapsed("storage.persistent.reopen_ms"@, figures.reopen_nanos),
    ] + storage_memory("storage.persistent.reopen"@, figures.reopen_rss, figures.items) + seq![
        counted(
            "storage.persistent.committed_buckets"@,
            figures.committed_buckets,
            "buckets"@,
            MetricDirection::Neutral,
        ),
    ]
}

fn push_persistent(list: &mut Vec<Measurement>, figures: &StorageFigures)
    ensures
        states(final(list)@) == states(old(list)@) + persistent_metrics(*figures),
{
    push_throughput(
        list,
        "storage.persistent.build_items_per_second",
        figures.items,
        figures.persistent_nanos,
    );
    push_elapsed(list, "storage.persistent.build_elapsed_ms", figures.persistent_nanos);
    push_storage_memory(
        list,
        "storage.persistent.build",
        figures.persistent_rss,
        figures.items,
    );
    push_file(list, "storage.persistent", figures.persistent_bytes, figures.items);
    push_elapsed(list, "storage.persistent.reopen_ms", figures.reopen_nanos);
    push_storage_memory(list, "storage.persistent.reopen", figures.reopen_rss, figures.items);
    push_count(
        list,
        "storage.persistent.committed_buckets",
        figures.committed_buckets,
        "buckets",
        MetricDirection::Neutral,
    );
    assert(states(list@) =~= states(old(list)@) + persistent_metrics(*figures));
}

/// The metrics of the bounded builder.
pub open spec fn builder_metrics(figures: StorageFigures) -> Seq<MeasurementState> {
    seq![
        throughput(
            "storage.builder.build_items_per_second"@,
            figures.items,
            figures.builder_nanos,
        ),
        elapsed("storage.builder.build_elapsed_ms"@, figures.builder_nanos),
    ] + storage_memory("storage.builder"@, figures.builder_rss, figures.items) + seq![
        counted(
            "storage.builder.records"@,
            figures.builder.records,
            "records"@,
            MetricDirection::Neutral,
        ),
        counted(
            "storage.builder.spill_runs"@,
            figures.builder.spill_runs as u64,
            "runs"@,
            MetricDirection::Neutral,
        ),
        counted(
            "storage.builder.peak_buffered_records"@,
            figures.builder.peak_buffered_records as u64,
            "records"@,
            MetricDirection::Lower,
        ),
        counted(
            "storage.builder.buckets"@,
            figures.builder.buckets,
            "buckets"@,
            MetricDirection::Neutral,
        ),
        counted(
            "storage.builder.output_bytes"@,
            figures.builder.output_bytes,
            "bytes"@,
            MetricDirection::Lower,
        ),
    ]
}

fn push_builder(list: &mut Vec<Measurement>, figures: &StorageFigures)
    ensures
        states(final(list)@) == states(old(list)@) + builder_metrics(*figures),
{
    let neutral = MetricDirection::Neutral;
    let lower = MetricDirection::Lower;
    let stats = &figures.builder;
    push_throughput(
        list,
        "storage.builder.build_items_per_second",
        figures.items,
        figures.builder_nanos,
    );
    push_elapsed(list, "storage.builder.build_elapsed_ms", figures.builder_nanos);
    push_storage_memory(list, "storage.builder", figures.builder_rss, figures.items);
    push_count(list, "storage.builder.records", stats.records, "records", neutral);
    push_count(list, "storage.builder.spill_runs", stats.spill_runs as u64, "runs", neutral);
    push_count(
        list,
        "storage.builder.peak_buffered_records",
        stats.peak_buffered_records as u64,
        "records",
        lower,
    );
    push_count(list, "storage.builder.buckets", stats.buckets, "buckets", neutral);
    push_count(list, "storage.builder.output_bytes", stats.output_bytes, "bytes", lower);
    assert(states(list@) =~= states(old(list)@) + builder_metrics(*figures));
}

/// The metrics of the lazy index.
pub open spec fn lazy_metrics(figures: StorageFigures) -> Seq<MeasurementState> {
    seq![elapsed("storage.lazy.reopen_ms"@, figures.lazy_nanos)] + storage_memory(
        "storage.lazy.reopen"@,
        figures.lazy_rss,
        figures.items,
    ) + file_metrics("storage.lazy"@, figures.lazy_bytes, figures.items) + seq![
        counted(
            "storage.lazy.directory_buckets"@,
            figures.lazy_buckets,
            "buckets"@,
            MetricDirection::Neutral,
        ),
    ]
}

fn push_lazy(list: &mut Vec<Measurement>, figures: &StorageFigures)
    ensures
        states(final(list)@) == states(old(list)@) + lazy_metrics(*figures),
{
    push_elapsed(list, "storage.lazy.reopen_ms", figures.lazy_nanos);
    push_storage_memory(list, "storage.lazy.reopen", figures.lazy_rss, figures.items);
    push_file(list, "storage.lazy", figures.lazy_bytes, figures.items);
    push_count(
        list,
        "storage.lazy.directory_buckets",
        figures.lazy_buckets,
        "buckets",
        MetricDirection::Neutral,
    );
    assert(states(list@) =~= states(old(list)@) + lazy_metrics(*figures));
}

/// The metrics of queries of the lazy index.
pub open spec fn lazy_query_metrics(figures: StorageFigures) -> Seq<MeasurementState> {
    let reopened = match (figures.lazy_rss.before_bytes, figures.lazy_rss.peak_bytes) {
        (Some(before), Some(peak)) => if figures.lazy_bytes > 0 {
            seq![
                quotient(
                    "storage.lazy.reopen_rss_to_file_ratio"@,
                    Ratio {
                        numerator: rss::excess(peak, before),
                        denominator: figures.lazy_bytes,
                    },
                    "ratio"@,
                    MetricDirection::Lower,
                ),
            ]
        } else {
            Seq::empty()
        },
        _ => Seq::empty(),
    };
    seq![
        throughput(
            "storage.lazy.scalar_queries_per_second"@,
            figures.queries,
            figures.scalar_nanos,
        ),
        elapsed("storage.lazy.scalar.p50_ms"@, figures.scalar_percentiles.0 as u128),
        elapsed("storage.lazy.scalar.p95_ms"@, figures.scalar_percentiles.1 as u128),
        elapsed("storage.lazy.scalar.p99_ms"@, figures.scalar_percentiles.2 as u128),
    ] + storage_memory("storage.lazy.query"@, figures.query_rss, figures.queries) + seq![
        throughput(
            "storage.lazy.batch_queries_per_second"@,
            figures.queries,
            figures.batch_nanos,
        ),
        counted("storage.candidate_parity"@, 1, "ratio"@, MetricDirection::Neutral),
    ] + reopened
}

fn push_lazy_query(list: &mut Vec<Measurement>, figures: &StorageFigures)
    ensures
        states(final(list)@) == states(old(list)@) + lazy_query_metrics(*figures),
{
    let (p50, p95, p99) = figures.scalar_percentiles;
    push_throughput(
        list,
        "storage.lazy.scalar_queries_per_second",
        figures.queries,
        figures.scalar_nanos,
    );
    push_elapsed(list, "storage.lazy.scalar.p50_ms", p50 as u128);
    push_elapsed(list, "storage.lazy.scalar.p95_ms", p95 as u128);
    push_elapsed(list, "storage.lazy.scalar.p99_ms", p99 as u128);
    push_storage_memory(list, "storage.lazy.query", figures.query_rss, figures.queries);
    push_throughput(
        list,
        "storage.lazy.batch_queries_per_second",
        figures.queries,
        figures.batch_nanos,
    );
    push_count(list, "storage.candidate_parity", 1, "ratio", MetricDirection::Neutral);
    match figures.lazy_rss.peak_delta() {
        Some(delta) => {
            if figures.lazy_bytes > 0 {
                push_quotient(
                    list,
                    "storage.lazy.reopen_rss_to_file_ratio",
                    Ratio { numerator: delta, denominator: figures.lazy_bytes },
                    "ratio",
                    MetricDirection::Lower,
                );
            }
        },
        None => {},
    }
    assert(states(list@) =~= states(old(list)@) + lazy_query_metrics(*figures));
}

/// The metrics of a run across the storage paths.
pub open spec fn storage_metrics(figures: StorageFigures) -> Seq<MeasurementState> {
    persistent_metrics(figures) + builder_metrics(figures) + lazy_metrics(figures)
        + lazy_query_metrics(figures)
}

/// The metrics of a run across the storage paths.
pub fn measure_storage(figures: &StorageFigures) -> (list: Vec<Measurement>)
    ensures
        states(list@) == storage_metrics(*figures),
{
    let mut list: Vec<Measurement> = Vec::new();
    assert(states(list@) =~= Seq::empty());
    push_persistent(&mut list, figures);
    push_builder(&mut list, figures);
    push_lazy(&mut list, figures);
    push_lazy_query(&mut list, figures);
    assert(states(list@) =~= storage_metrics(*figures));
    list
}

/// The metrics of mutations of the persistent index.
pub open spec fn mutation_metrics(items: usize, mutation_nanos: u128, sync_nanos: u128) -> Seq<
    MeasurementState,
> {
    seq![
        MeasurementState {
            name: "storage.persistent.mutation_operations_per_second"@,
            quantity: Quantity::PerSecond {
                count: metrics::saturated(items as nat * 2),
                nanos: mutation_nanos,
            },
            unit: "ops/s"@,
            direction: MetricDirection::Higher,
        },
        elapsed("storage.persistent.sync_ms"@, sync_nanos),
        counted("storage.persistent.mutation_parity"@, 1, "ratio"@, MetricDirection::Neutral),
    ]
}

/// The metrics of mutations of the persistent index.
pub fn measure_mutations(items: usize, mutation_nanos: u128, sync_nanos: u128) -> (list: Vec<
    Measurement,
>)
    ensures
        states(list@) == mutation_metrics(items, mutation_nanos, sync_nanos),
{
    let mut list: Vec<Measurement> = Vec::new();
    assert(states(list@) =~= Seq::empty());
    let operations: u64 = match (items as u64).checked_mul(2) {
        Some(operations) => operations,
        None => u64::MAX,
    };
    push(
        &mut list,
        "storage.persistent.mutation_operations_per_second".to_owned(),
        Quantity::PerSecond { count: operations, nanos: mutation_nanos },
        "ops/s",
        MetricDirection::Higher,
    );
    push_elapsed(&mut list, "storage.persistent.sync_ms", sync_nanos);
    push_count(
        &mut list,
        "storage.persistent.mutation_parity",
        1,
        "ratio",
        MetricDirection::Neutral,
    );
    assert(states(list@) =~= mutation_metrics(items, mutation_nanos, sync_nanos));
    list
}

/// The three percentiles are the latencies at their nearest ranks: the share of the
/// latencies that are below each is less than the named one, and the share of those that
/// are not above it is not.
pub proof fn law_latencies_at_their_ranks(latencies: Seq<u64>, found: (u64, u64, u64))
    requires
        are_percentiles(latencies, found),
        latencies.len() > 0,
    ensures
        ({
            let values = latencies.to_multiset();
            let last = latencies.len() - 1;
            &&& 100 * metrics::below(values, found.0) < 50 * last + 100 <= 100 * metrics::at_most(
                values,
                found.0,
            )
            &&& 100 * metrics::below(values, found.1) < 95 * last + 100 <= 100 * metrics::at_most(
                values,
                found.1,
            )
            &&& 100 * metrics::below(values, found.2) < 99 * last + 100 <= 100 * metrics::at_most(
                values,
                found.2,
            )
        }),
{
    let ordered = choose|ordered: Seq<u64>|
        order::sorted(ordered) && #[trigger] ordered.to_multiset() == latencies.to_multiset()
            && found == (
            ordered[metrics::rank(ordered.len(), 50)],
            ordered[metrics::rank(ordered.len(), 95)],
            ordered[metrics::rank(ordered.len(), 99)],
        );
    order::lemma_same_multiset_same_set(ordered, latencies);
    metrics::lemma_share(ordered, 50);
    metrics::lemma_share(ordered, 95);
    metrics::lemma_share(ordered, 99);
}

/// Queries have as many possible candidates as there are pairs of a query and an item.
pub proof fn law_possible_candidates(items: usize, queries: usize)
    ensures
        items * queries <= u64::MAX ==> possible(items, queries) == items * queries,
        items * queries > u64::MAX ==> possible(items, queries) == u64::MAX,
{
}

/// Every measurement of a list is told, in its place.
pub proof fn law_every_measurement_is_told(list: Seq<Measurement>)
    ensures
        states(list).len() == list.len(),
        forall|i: int| 0 <= i < list.len() ==> #[trigger] states(list)[i] == list[i]@,
{
}

/// A run tells its recall: the share of the similar items that it found.
pub proof fn law_runs_tell_their_recall(figures: RunFigures)
    ensures
        exists|i: int|
            0 <= i < run_metrics(figures).len() && (#[trigger] run_metrics(figures)[i]).name
                == "candidate.recall"@ && run_metrics(figures)[i].quantity == Quantity::Quotient(
                correctness::share(
                    figures.counts.found_exact as u64,
                    figures.counts.exact_matches as u64,
                ),
            ),
{
    let front = signature_metrics(figures) + build_metrics(figures) + query_metrics(figures);
    let at = front.len() as int;
    assert(run_metrics(figures)[at] == candidate_metrics(figures)[0]);
}

} // verus!
