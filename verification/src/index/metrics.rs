//! Bucket and query diagnostics.

use std::sync::atomic::{AtomicU64, Ordering};
use vstd::multiset::Multiset;
use vstd::prelude::*;

use crate::order;
use crate::ratio::Ratio;

verus! {

/// Exact on-demand summary of stored LSH bucket sizes.
#[derive(Debug, Clone, Copy, PartialEq, Eq, Structural)]
pub struct BucketDistribution {
    /// Number of non-empty buckets.
    pub buckets: u64,
    /// Total `(bucket, key)` memberships.
    pub memberships: u64,
    /// Smallest non-empty bucket size.
    pub minimum: u64,
    /// Nearest-rank median bucket size.
    pub p50: u64,
    /// Nearest-rank 95th-percentile bucket size.
    pub p95: u64,
    /// Nearest-rank 99th-percentile bucket size.
    pub p99: u64,
    /// Largest bucket size.
    pub maximum: u64,
}

/// The sum of all elements.
pub open spec fn total(values: Seq<u64>) -> nat
    decreases values.len(),
{
    if values.len() == 0 {
        0
    } else {
        total(values.drop_last()) + values.last() as nat
    }
}

/// `value`, or `u64::MAX` where it is larger.
pub open spec fn saturated(value: nat) -> u64 {
    if value > u64::MAX {
        u64::MAX
    } else {
        value as u64
    }
}

/// The position of the nearest rank of a percentile in a sorted sequence: the
/// percentile of the last position, rounded up.
pub open spec fn rank(len: nat, percentile: nat) -> int {
    ((len - 1) * percentile + 99) / 100
}

/// The summary of a sorted sequence of positive sizes.
pub open spec fn distribution_of(ordered: Seq<u64>) -> BucketDistribution {
    if ordered.len() == 0 {
        BucketDistribution {
            buckets: 0,
            memberships: 0,
            minimum: 0,
            p50: 0,
            p95: 0,
            p99: 0,
            maximum: 0,
        }
    } else {
        BucketDistribution {
            buckets: ordered.len() as u64,
            memberships: saturated(total(ordered)),
            minimum: ordered.first(),
            p50: ordered[rank(ordered.len(), 50)],
            p95: ordered[rank(ordered.len(), 95)],
            p99: ordered[rank(ordered.len(), 99)],
            maximum: ordered.last(),
        }
    }
}

/// The positive sizes, in their order.
pub open spec fn positive_sizes(sizes: Seq<usize>) -> Seq<u64>
    decreases sizes.len(),
{
    if sizes.len() == 0 {
        Seq::empty()
    } else if sizes.last() > 0 {
        positive_sizes(sizes.drop_last()).push(sizes.last() as u64)
    } else {
        positive_sizes(sizes.drop_last())
    }
}

/// The summary describes the positive ones among `sizes`.
pub open spec fn summarizes(distribution: BucketDistribution, sizes: Seq<usize>) -> bool {
    exists|ordered: Seq<u64>|
        order::sorted(ordered) && ordered.to_multiset() == positive_sizes(sizes).to_multiset()
            && distribution == #[trigger] distribution_of(ordered)
}

/// Sizes have only one summary, whatever their order.
pub proof fn law_summary_is_unique(
    left: BucketDistribution,
    right: BucketDistribution,
    sizes: Seq<usize>,
    shuffled: Seq<usize>,
)
    requires
        summarizes(left, sizes),
        summarizes(right, shuffled),
        positive_sizes(sizes).to_multiset() == positive_sizes(shuffled).to_multiset(),
    ensures
        left == right,
{
    let a = choose|ordered: Seq<u64>|
        order::sorted(ordered) && ordered.to_multiset() == positive_sizes(sizes).to_multiset()
            && left == #[trigger] distribution_of(ordered);
    let b = choose|ordered: Seq<u64>|
        order::sorted(ordered) && ordered.to_multiset() == positive_sizes(shuffled).to_multiset()
            && right == #[trigger] distribution_of(ordered);
    order::law_sorted_is_unique(a, b);
}

/// How many of the values are at most `bound`.
pub open spec fn at_most(values: Multiset<u64>, bound: u64) -> nat {
    values.filter(|value: u64| value <= bound).len()
}

/// How many of the values are at least `bound`.
pub open spec fn at_least(values: Multiset<u64>, bound: u64) -> nat {
    values.filter(|value: u64| value >= bound).len()
}

/// Values that are all in one part of a whole are in the filtered whole too.
proof fn lemma_filtered(part: Seq<u64>, rest: Seq<u64>, keep: spec_fn(u64) -> bool)
    requires
        forall|i: int| 0 <= i < part.len() ==> keep(#[trigger] part[i]),
    ensures
        (part + rest).to_multiset().filter(keep).len() >= part.len(),
        (rest + part).to_multiset().filter(keep).len() >= part.len(),
{
    broadcast use vstd::seq_lib::group_to_multiset_ensures;

    vstd::seq_lib::lemma_multiset_commutative(part, rest);
    vstd::seq_lib::lemma_multiset_commutative(rest, part);
    let held = part.to_multiset();
    let whole = held.add(rest.to_multiset());
    assert(rest.to_multiset().add(held) =~= whole);
    let kept = whole.filter(keep);
    assert forall|value: u64| held.count(value) <= kept.count(value) by {
        if held.count(value) > 0 {
            assert(part.contains(value));
            let i = choose|i: int| 0 <= i < part.len() && part[i] == value;
            assert(keep(part[i]));
        }
    }
    assert(held.subset_of(kept));
    assert(kept.sub(held).len() == kept.len() - held.len());
}

/// The value at a position of a sorted sequence is at least what stands up to it
/// and at most what stands from it on.
pub(crate) proof fn lemma_position(ordered: Seq<u64>, at: int)
    requires
        order::sorted(ordered),
        0 <= at < ordered.len(),
    ensures
        at_most(ordered.to_multiset(), ordered[at]) >= at + 1,
        at_least(ordered.to_multiset(), ordered[at]) >= ordered.len() - at,
{
    let front = ordered.take(at + 1);
    let back = ordered.skip(at + 1);
    assert(front + back =~= ordered);
    lemma_filtered(front, back, |value: u64| value <= ordered[at]);
    let head = ordered.take(at);
    let tail = ordered.skip(at);
    assert(head + tail =~= ordered);
    lemma_filtered(tail, head, |value: u64| value >= ordered[at]);
}

proof fn lemma_positive_len(sizes: Seq<usize>)
    ensures
        positive_sizes(sizes).len() <= sizes.len(),
    decreases sizes.len(),
{
    if sizes.len() > 0 {
        lemma_positive_len(sizes.drop_last());
    }
}

/// What the summary means: it counts the non-empty buckets and their members, its
/// five sizes are sizes of non-empty buckets in ascending order from the smallest
/// to the largest, at least the named share of the sizes is at most each
/// percentile, and at least half of them are at least the median.
pub proof fn law_percentiles_bound_their_shares(
    distribution: BucketDistribution,
    sizes: Seq<usize>,
)
    requires
        summarizes(distribution, sizes),
        sizes.len() <= usize::MAX,
    ensures
        ({
            let values = positive_sizes(sizes).to_multiset();
            &&& distribution.buckets == values.len()
            &&& values.len() == 0 ==> distribution == distribution_of(Seq::empty())
            &&& values.len() > 0 ==> {
                &&& values.contains(distribution.minimum)
                &&& values.contains(distribution.p50)
                &&& values.contains(distribution.p95)
                &&& values.contains(distribution.p99)
                &&& values.contains(distribution.maximum)
                &&& distribution.minimum <= distribution.p50 <= distribution.p95
                &&& distribution.p95 <= distribution.p99 <= distribution.maximum
                &&& forall|value: u64| #[trigger]
                    values.contains(value) ==> distribution.minimum <= value
                        <= distribution.maximum
            }
            &&& 100 * at_most(values, distribution.p50) >= 50 * values.len()
            &&& 100 * at_most(values, distribution.p95) >= 95 * values.len()
            &&& 100 * at_most(values, distribution.p99) >= 99 * values.len()
            &&& 2 * at_least(values, distribution.p50) >= values.len()
        }),
{
    broadcast use vstd::seq_lib::group_to_multiset_ensures;

    lemma_positive_len(sizes);
    let ordered = choose|ordered: Seq<u64>|
        order::sorted(ordered) && ordered.to_multiset() == positive_sizes(sizes).to_multiset()
            && distribution == #[trigger] distribution_of(ordered);
    let values = positive_sizes(sizes).to_multiset();
    assert(ordered.len() == values.len());
    if ordered.len() > 0 {
        let last = ordered.len() - 1;
        let median = rank(ordered.len(), 50);
        let high = rank(ordered.len(), 95);
        let top = rank(ordered.len(), 99);
        assert(0 <= median <= high <= top <= last);
        lemma_position(ordered, median);
        lemma_position(ordered, high);
        lemma_position(ordered, top);
        assert(ordered.contains(ordered[0]));
        assert(ordered.contains(ordered[median]));
        assert(ordered.contains(ordered[high]));
        assert(ordered.contains(ordered[top]));
        assert(ordered.contains(ordered[last]));
        assert forall|value: u64| #[trigger] values.contains(value) implies distribution.minimum
            <= value <= distribution.maximum by {
            assert(ordered.contains(value));
            let i = choose|i: int| 0 <= i < ordered.len() && ordered[i] == value;
            assert(ordered[0] <= ordered[i] <= ordered[last]);
        }
    } else {
        assert(ordered =~= Seq::empty());
    }
}

impl BucketDistribution {
    /// The summary of no buckets.
    pub fn empty() -> (distribution: BucketDistribution)
        ensures
            distribution == distribution_of(Seq::empty()),
    {
        BucketDistribution {
            buckets: 0,
            memberships: 0,
            minimum: 0,
            p50: 0,
            p95: 0,
            p99: 0,
            maximum: 0,
        }
    }

    /// Summarize exact bucket sizes; empty buckets do not count.
    pub fn from_sizes(sizes: &[usize]) -> (distribution: BucketDistribution)
        ensures
            summarizes(distribution, sizes@),
    {
        let mut ordered: Vec<u64> = Vec::new();
        let mut index: usize = 0;
        assert(sizes@.take(0) =~= Seq::empty());
        while index < sizes.len()
            invariant
                index <= sizes@.len(),
                ordered@ == positive_sizes(sizes@.take(index as int)),
            decreases sizes@.len() - index,
        {
            proof {
                let next = sizes@.take(index + 1);
                assert(next.drop_last() =~= sizes@.take(index as int));
                assert(next.last() == sizes@[index as int]);
            }
            if sizes[index] > 0 {
                ordered.push(sizes[index] as u64);
            }
            index = index + 1;
        }
        assert(sizes@.take(index as int) =~= sizes@);
        order::sort(&mut ordered);
        if ordered.len() == 0 {
            assert(ordered@ =~= Seq::empty());
            return Self::empty();
        }
        let distribution = BucketDistribution {
            buckets: ordered.len() as u64,
            memberships: saturating_total(&ordered),
            minimum: ordered[0],
            p50: nearest_rank(&ordered, 50),
            p95: nearest_rank(&ordered, 95),
            p99: nearest_rank(&ordered, 99),
            maximum: ordered[ordered.len() - 1],
        };
        assert(distribution == distribution_of(ordered@));
        distribution
    }

    /// Membership count over the non-empty bucket count.
    pub fn average_members(&self) -> (ratio: Ratio)
        ensures
            ratio == Ratio::of(self.memberships, self.buckets),
    {
        Ratio::new(self.memberships, self.buckets)
    }
}

fn saturating_total(values: &Vec<u64>) -> (sum: u64)
    ensures
        sum == saturated(total(values@)),
{
    let mut sum: u64 = 0;
    let mut index: usize = 0;
    assert(values@.take(0) =~= Seq::empty());
    while index < values.len()
        invariant
            index <= values@.len(),
            sum == saturated(total(values@.take(index as int))),
        decreases values@.len() - index,
    {
        proof {
            let next = values@.take(index + 1);
            assert(next.drop_last() =~= values@.take(index as int));
            assert(next.last() == values@[index as int]);
        }
        sum = sum.saturating_add(values[index]);
        index = index + 1;
    }
    assert(values@.take(index as int) =~= values@);
    sum
}

/// The element at the nearest rank of `percentile` in a sorted vector.
pub fn nearest_rank(ordered: &Vec<u64>, percentile: usize) -> (value: u64)
    requires
        ordered@.len() > 0,
        percentile <= 100,
    ensures
        value == ordered@[rank(ordered@.len(), percentile as nat)],
{
    let span: u128 = (ordered.len() - 1) as u128;
    assert(0 <= span * percentile <= span * 100) by (nonlinear_arith)
        requires
            0 <= percentile <= 100,
            0 <= span,
    ;
    let index: u128 = (span * percentile as u128 + 99) / 100;
    ordered[index as usize]
}

/// Opt-in process-local query counters and wall-clock latency observations.
#[derive(Debug, Clone, Copy, PartialEq, Eq, Structural)]
pub struct QueryMetrics {
    /// Scalar or batch query calls.
    pub operations: u64,
    /// Individual query signatures processed.
    pub queries: u64,
    /// Candidate keys returned across all queries.
    pub candidates: u64,
    /// Live item opportunities across all queries.
    pub possible_candidates: u64,
    /// Summed observed operation latency in nanoseconds.
    pub total_latency_ns: u64,
    /// Largest observed operation latency in nanoseconds.
    pub max_latency_ns: u64,
}

/// A span in nanoseconds as 64 bits hold it.
pub fn clamp_nanos(nanos: u128) -> (clamped: u64)
    ensures
        clamped == saturated(nanos as nat),
{
    if nanos > u64::MAX as u128 {
        u64::MAX
    } else {
        nanos as u64
    }
}

impl QueryMetrics {
    /// No query has been observed.
    pub open spec fn zero() -> QueryMetrics {
        QueryMetrics {
            operations: 0,
            queries: 0,
            candidates: 0,
            possible_candidates: 0,
            total_latency_ns: 0,
            max_latency_ns: 0,
        }
    }

    /// The counters after one more operation; each counter stops at its
    /// largest value.
    pub open spec fn recorded(
        self,
        queries: usize,
        candidates: usize,
        possible_candidates: usize,
        elapsed_nanos: u128,
    ) -> QueryMetrics {
        let elapsed = saturated(elapsed_nanos as nat);
        QueryMetrics {
            operations: saturated((self.operations + 1) as nat),
            queries: saturated((self.queries + queries) as nat),
            candidates: saturated((self.candidates + candidates) as nat),
            possible_candidates: saturated((self.possible_candidates + possible_candidates) as nat),
            total_latency_ns: saturated((self.total_latency_ns + elapsed) as nat),
            max_latency_ns: if elapsed > self.max_latency_ns {
                elapsed
            } else {
                self.max_latency_ns
            },
        }
    }

    /// Counters that have seen nothing.
    pub fn new() -> (metrics: QueryMetrics)
        ensures
            metrics == QueryMetrics::zero(),
    {
        QueryMetrics {
            operations: 0,
            queries: 0,
            candidates: 0,
            possible_candidates: 0,
            total_latency_ns: 0,
            max_latency_ns: 0,
        }
    }

    /// Record one scalar or batch query operation.
    pub fn record(
        &mut self,
        queries: usize,
        candidates: usize,
        possible_candidates: usize,
        elapsed_nanos: u128,
    )
        ensures
            *final(self) == old(self).recorded(
                queries,
                candidates,
                possible_candidates,
                elapsed_nanos,
            ),
    {
        self.operations = self.operations.saturating_add(1);
        self.queries = self.queries.saturating_add(queries as u64);
        self.candidates = self.candidates.saturating_add(candidates as u64);
        self.possible_candidates = self.possible_candidates.saturating_add(
            possible_candidates as u64,
        );
        let elapsed: u64 = clamp_nanos(elapsed_nanos);
        self.total_latency_ns = self.total_latency_ns.saturating_add(elapsed);
        if elapsed > self.max_latency_ns {
            self.max_latency_ns = elapsed;
        }
    }

    /// Candidates returned over live items looked at.
    pub fn candidate_rate(&self) -> (ratio: Ratio)
        ensures
            ratio == Ratio::of(self.candidates, self.possible_candidates),
    {
        Ratio::new(self.candidates, self.possible_candidates)
    }

    /// Mean latency of an operation, in nanoseconds.
    pub fn average_operation_ns(&self) -> (ratio: Ratio)
        ensures
            ratio == Ratio::of(self.total_latency_ns, self.operations),
    {
        Ratio::new(self.total_latency_ns, self.operations)
    }
}

/// On-demand in-memory index diagnostics.
#[derive(Debug, Clone, Copy, PartialEq, Eq, Structural)]
pub struct LshStats {
    /// Number of live external keys.
    pub items: usize,
    /// Number of configured bands.
    pub bands: usize,
    /// Number of signature rows per band.
    pub rows: usize,
    /// Exact non-empty bucket distribution at observation time.
    pub buckets: BucketDistribution,
    /// Process-local query metrics when observability is enabled.
    pub queries: Option<QueryMetrics>,
}

/// Query counters that shared readers of an index can bump.
///
/// The counters are atomics behind a shared reference: what they hold at any
/// moment depends on every reader, so no contract speaks of it.
#[derive(Debug)]
pub(crate) struct QueryObserver {
    operations: AtomicU64,
    queries: AtomicU64,
    candidates: AtomicU64,
    possible_candidates: AtomicU64,
    total_latency_ns: AtomicU64,
    max_latency_ns: AtomicU64,
}

impl QueryObserver {
    /// Counters that have seen nothing.
    pub(crate) fn new() -> (observer: QueryObserver) {
        QueryObserver {
            operations: AtomicU64::new(0),
            queries: AtomicU64::new(0),
            candidates: AtomicU64::new(0),
            possible_candidates: AtomicU64::new(0),
            total_latency_ns: AtomicU64::new(0),
            max_latency_ns: AtomicU64::new(0),
        }
    }

    /// Count one scalar or batch query operation.
    pub(crate) fn record(
        &self,
        queries: u64,
        candidates: u64,
        possible_candidates: u64,
        elapsed_nanos: u128,
    ) {
        let elapsed: u64 = clamp_nanos(elapsed_nanos);
        let _ = self.operations.fetch_add(1, Ordering::Relaxed);
        let _ = self.queries.fetch_add(queries, Ordering::Relaxed);
        let _ = self.candidates.fetch_add(candidates, Ordering::Relaxed);
        let _ = self.possible_candidates.fetch_add(possible_candidates, Ordering::Relaxed);
        let _ = self.total_latency_ns.fetch_add(elapsed, Ordering::Relaxed);
        let _ = self.max_latency_ns.fetch_max(elapsed, Ordering::Relaxed);
    }

    /// Read all counters.
    pub(crate) fn snapshot(&self) -> (metrics: QueryMetrics) {
        QueryMetrics {
            operations: self.operations.load(Ordering::Relaxed),
            queries: self.queries.load(Ordering::Relaxed),
            candidates: self.candidates.load(Ordering::Relaxed),
            possible_candidates: self.possible_candidates.load(Ordering::Relaxed),
            total_latency_ns: self.total_latency_ns.load(Ordering::Relaxed),
            max_latency_ns: self.max_latency_ns.load(Ordering::Relaxed),
        }
    }
}

/// How many of the values are below `bound`.
pub open spec fn below(values: Multiset<u64>, bound: u64) -> nat {
    values.filter(|value: u64| value < bound).len()
}

pub(crate) proof fn lemma_parts(values: Multiset<u64>, bound: u64)
    ensures
        below(values, bound) + at_least(values, bound) == values.len(),
{
    let low = values.filter(|value: u64| value < bound);
    let high = values.filter(|value: u64| value >= bound);
    assert(low.add(high) =~= values);
}

/// A share of a sorted sequence: what is below the value at its nearest rank is less than
/// the share, and what is up to that value is not.
pub(crate) proof fn lemma_share(ordered: Seq<u64>, share: nat)
    requires
        order::sorted(ordered),
        ordered.len() > 0,
        share <= 100,
    ensures
        0 <= rank(ordered.len(), share) < ordered.len(),
        100 * below(ordered.to_multiset(), ordered[rank(ordered.len(), share)]) < share * (
        ordered.len() - 1) + 100 <= 100 * at_most(
            ordered.to_multiset(),
            ordered[rank(ordered.len(), share)],
        ),
{
    broadcast use vstd::seq_lib::group_to_multiset_ensures;

    let last = ordered.len() - 1;
    let at = rank(ordered.len(), share);
    assert(0 <= last * share <= last * 100) by (nonlinear_arith)
        requires
            0 <= last,
            0 <= share <= 100,
    ;
    assert(share * last == last * share) by (nonlinear_arith);
    lemma_position(ordered, at);
    lemma_parts(ordered.to_multiset(), ordered[at]);
}

/// The three percentiles are the sizes at their nearest ranks: the share of the sizes that
/// are below each is less than the named one, and the share of those that are not above it
/// is not.
pub proof fn law_percentiles_are_nearest_ranks(
    distribution: BucketDistribution,
    sizes: Seq<usize>,
)
    requires
        summarizes(distribution, sizes),
        positive_sizes(sizes).len() > 0,
    ensures
        ({
            let values = positive_sizes(sizes).to_multiset();
            let last = values.len() - 1;
            &&& 100 * below(values, distribution.p50) < 50 * last + 100 <= 100 * at_most(
                values,
                distribution.p50,
            )
            &&& 100 * below(values, distribution.p95) < 95 * last + 100 <= 100 * at_most(
                values,
                distribution.p95,
            )
            &&& 100 * below(values, distribution.p99) < 99 * last + 100 <= 100 * at_most(
                values,
                distribution.p99,
            )
        }),
{
    broadcast use vstd::seq_lib::group_to_multiset_ensures;

    let ordered = choose|ordered: Seq<u64>|
        order::sorted(ordered) && ordered.to_multiset() == positive_sizes(sizes).to_multiset()
            && distribution == #[trigger] distribution_of(ordered);
    order::lemma_same_multiset_same_set(ordered, positive_sizes(sizes));
    lemma_share(ordered, 50);
    lemma_share(ordered, 95);
    lemma_share(ordered, 99);
}

/// The positive sizes are the sizes but for the zeros.
pub proof fn law_positive_sizes(sizes: Seq<usize>)
    ensures
        positive_sizes(sizes) == sizes.filter(|size: usize| size > 0).map_values(
            |size: usize| size as u64,
        ),
    decreases sizes.len(),
{
    reveal(Seq::filter);
    let kept = sizes.filter(|size: usize| size > 0);
    if sizes.len() > 0 {
        law_positive_sizes(sizes.drop_last());
        let before = sizes.drop_last().filter(|size: usize| size > 0);
        if sizes.last() > 0 {
            assert(kept == before.push(sizes.last()));
            assert(kept.map_values(|size: usize| size as u64) =~= before.map_values(
                |size: usize| size as u64,
            ).push(sizes.last() as u64));
        }
    } else {
        assert(kept.map_values(|size: usize| size as u64) =~= Seq::empty());
    }
}

proof fn lemma_total_folds(values: Seq<u64>)
    ensures
        total(values) == values.fold_left(0nat, |sum: nat, value: u64| sum + value as nat),
    decreases values.len(),
{
    if values.len() > 0 {
        lemma_total_folds(values.drop_last());
    }
}

proof fn lemma_total_of_sizes(sizes: Seq<usize>)
    ensures
        total(positive_sizes(sizes)) == sizes.fold_left(
            0nat,
            |sum: nat, size: usize| sum + size as nat,
        ),
    decreases sizes.len(),
{
    if sizes.len() > 0 {
        lemma_total_of_sizes(sizes.drop_last());
        if sizes.last() > 0 {
            let longer = positive_sizes(sizes);
            assert(longer.drop_last() =~= positive_sizes(sizes.drop_last()));
        }
    }
}

/// The memberships are the sum of all sizes, as far as it fits.
pub proof fn law_memberships_add_up(distribution: BucketDistribution, sizes: Seq<usize>)
    requires
        summarizes(distribution, sizes),
    ensures
        ({
            let sum = sizes.fold_left(0nat, |sum: nat, size: usize| sum + size as nat);
            &&& sum <= u64::MAX ==> distribution.memberships == sum
            &&& sum > u64::MAX ==> distribution.memberships == u64::MAX
        }),
{
    broadcast use vstd::seq_lib::group_to_multiset_ensures;

    let ordered = choose|ordered: Seq<u64>|
        order::sorted(ordered) && ordered.to_multiset() == positive_sizes(sizes).to_multiset()
            && distribution == #[trigger] distribution_of(ordered);
    let step = |sum: nat, value: u64| sum + value as nat;
    assert(vstd::seq_lib::commutative_foldl(step));
    vstd::seq_lib::lemma_fold_left_permutation(ordered, positive_sizes(sizes), step, 0nat);
    lemma_total_folds(ordered);
    lemma_total_folds(positive_sizes(sizes));
    lemma_total_of_sizes(sizes);
    order::lemma_same_multiset_same_set(ordered, positive_sizes(sizes));
}

/// The counters add up what was recorded, as far as it fits, and keep the longest time.
pub proof fn law_counters_add_up(
    metrics: QueryMetrics,
    queries: usize,
    candidates: usize,
    possible: usize,
    nanos: u128,
)
    ensures
        ({
            let after = metrics.recorded(queries, candidates, possible, nanos);
            &&& metrics.operations < u64::MAX ==> after.operations == metrics.operations + 1
            &&& metrics.queries + queries <= u64::MAX ==> after.queries == metrics.queries + queries
            &&& metrics.candidates + candidates <= u64::MAX ==> after.candidates
                == metrics.candidates + candidates
            &&& metrics.possible_candidates + possible <= u64::MAX ==> after.possible_candidates
                == metrics.possible_candidates + possible
            &&& metrics.total_latency_ns + nanos <= u64::MAX ==> after.total_latency_ns
                == metrics.total_latency_ns + nanos
            &&& after.max_latency_ns >= metrics.max_latency_ns
            &&& nanos <= u64::MAX ==> after.max_latency_ns >= nanos && (after.max_latency_ns
                == nanos || after.max_latency_ns == metrics.max_latency_ns)
        }),
{
}

/// A number that a counter can hold is kept, and a larger one leaves the counter full.
pub proof fn law_counters_fill_up(value: nat, more: nat)
    ensures
        value <= u64::MAX ==> saturated(value) as nat == value,
        value > u64::MAX ==> saturated(value) == u64::MAX,
        saturated(value) <= saturated(value + more),
{
}

} // verus!
