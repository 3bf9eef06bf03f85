//! Versioned benchmark reports and their comparison.

use vstd::prelude::*;
use vstd::string::*;

use crate::bench::config::BenchmarkConfig;
use crate::text;

verus! {

/// Current machine-readable benchmark report schema.
pub const REPORT_SCHEMA_VERSION: u32 = 1;

/// Whether larger or smaller values are preferable for a metric.
#[derive(Debug, Clone, Copy, PartialEq, Eq, Structural)]
pub enum MetricDirection {
    /// Larger values are better, such as throughput or recall.
    Higher,
    /// Smaller values are better, such as latency or memory.
    Lower,
    /// The metric is informational and should not be scored as an improvement.
    Neutral,
}

impl MetricDirection {
    /// The name of the direction.
    pub fn name(self) -> (name: &'static str)
        ensures
            name@ == (match self {
                MetricDirection::Higher => "higher"@,
                MetricDirection::Lower => "lower"@,
                MetricDirection::Neutral => "neutral"@,
            }),
    {
        match self {
            MetricDirection::Higher => "higher",
            MetricDirection::Lower => "lower",
            MetricDirection::Neutral => "neutral",
        }
    }
}

/// What a metric says.
#[verifier::ext_equal]
pub struct MetricState {
    /// The bit pattern of the value.
    pub value: u64,
    /// The unit.
    pub unit: Seq<char>,
    /// The optimization direction.
    pub direction: MetricDirection,
}

/// One scalar benchmark measurement.
#[derive(Debug, PartialEq, Eq)]
pub struct Metric {
    /// Numeric value in the declared unit, as the bit pattern of an IEEE 754
    /// double.
    pub value: u64,
    /// Stable unit string such as `items/s`, `ms`, `bytes`, or `ratio`.
    pub unit: String,
    /// Optimization direction for comparisons.
    pub direction: MetricDirection,
}

impl View for Metric {
    type V = MetricState;

    open spec fn view(&self) -> MetricState {
        MetricState { value: self.value, unit: self.unit@, direction: self.direction }
    }
}

impl Metric {
    /// One metric.
    pub fn new(value: u64, unit: &str, direction: MetricDirection) -> (metric: Metric)
        ensures
            metric@ == (MetricState { value, unit: unit@, direction }),
    {
        Metric { value, unit: unit.to_owned(), direction }
    }
}

/// Environment metadata needed to interpret a benchmark result.
#[derive(Debug, Clone, PartialEq, Eq)]
pub struct Environment {
    /// Operating system reported by the Rust target.
    pub os: String,
    /// CPU architecture reported by the Rust target.
    pub arch: String,
    /// Available parallelism reported to this process.
    pub logical_cpus: usize,
    /// `rustc --version` when available.
    pub rustc: String,
    /// Git commit SHA when discoverable.
    pub git_sha: String,
}

/// The text comes before another one in the order of their characters.
pub open spec fn before(left: Seq<char>, right: Seq<char>) -> bool
    decreases left.len(),
{
    if right.len() == 0 {
        false
    } else if left.len() == 0 {
        true
    } else {
        left[0] < right[0] || (left[0] == right[0] && before(left.skip(1), right.skip(1)))
    }
}

proof fn lemma_not_before_itself(a: Seq<char>)
    ensures
        !before(a, a),
    decreases a.len(),
{
    if a.len() > 0 {
        lemma_not_before_itself(a.skip(1));
    }
}

proof fn lemma_before_is_transitive(a: Seq<char>, b: Seq<char>, c: Seq<char>)
    ensures
        before(a, b) && before(b, c) ==> before(a, c),
    decreases a.len(),
{
    if a.len() > 0 && b.len() > 0 && c.len() > 0 {
        lemma_before_is_transitive(a.skip(1), b.skip(1), c.skip(1));
    }
}

proof fn lemma_before_is_total(a: Seq<char>, b: Seq<char>)
    ensures
        before(a, b) || before(b, a) || a == b,
    decreases a.len(),
{
    if a.len() > 0 && b.len() > 0 {
        lemma_before_is_total(a.skip(1), b.skip(1));
        if a.skip(1) == b.skip(1) && a[0] == b[0] {
            assert(a =~= seq![a[0]] + a.skip(1));
            assert(b =~= seq![b[0]] + b.skip(1));
        }
    } else if a.len() == 0 && b.len() == 0 {
        assert(a =~= b);
    }
}

/// The order of texts is a strict total order.
pub proof fn law_before_is_an_order(a: Seq<char>, b: Seq<char>, c: Seq<char>)
    ensures
        !before(a, a),
        before(a, b) && before(b, c) ==> before(a, c),
        before(a, b) || before(b, a) || a == b,
{
    lemma_not_before_itself(a);
    lemma_before_is_transitive(a, b, c);
    lemma_before_is_total(a, b);
}

/// Whether a text comes before another one.
fn precedes(left: &Vec<char>, right: &Vec<char>) -> (result: bool)
    ensures
        result == before(left@, right@),
{
    let mut index: usize = 0;
    assert(left@.skip(0) =~= left@);
    assert(right@.skip(0) =~= right@);
    while index < left.len() && index < right.len()
        invariant
            index <= left@.len(),
            index <= right@.len(),
            before(left@, right@) == before(left@.skip(index as int), right@.skip(index as int)),
        decreases left@.len() - index,
    {
        proof {
            assert(left@.skip(index as int).skip(1) =~= left@.skip(index + 1));
            assert(right@.skip(index as int).skip(1) =~= right@.skip(index + 1));
        }
        if left[index] != right[index] {
            return left[index] < right[index];
        }
        index = index + 1;
    }
    index < right.len()
}

/// A value under a name.
#[derive(Debug, PartialEq, Eq)]
pub struct Named<T> {
    /// The name.
    pub name: String,
    /// The value.
    pub value: T,
}

/// The names ascend.
pub open spec fn ordered<T>(entries: Seq<Named<T>>) -> bool {
    forall|i: int, j: int|
        0 <= i < j < entries.len() ==> before(
            (#[trigger] entries[i]).name@,
            (#[trigger] entries[j]).name@,
        )
}

/// Some entry has the name.
pub open spec fn has<T>(entries: Seq<Named<T>>, name: Seq<char>) -> bool {
    exists|i: int| 0 <= i < entries.len() && (#[trigger] entries[i]).name@ == name
}

/// The position of the name among ordered entries.
pub open spec fn position_of<T>(entries: Seq<Named<T>>, name: Seq<char>) -> int {
    choose|i: int| 0 <= i < entries.len() && (#[trigger] entries[i]).name@ == name
}

proof fn lemma_one_position<T>(entries: Seq<Named<T>>, at: int)
    requires
        ordered(entries),
        0 <= at < entries.len(),
    ensures
        has(entries, entries[at].name@),
        position_of(entries, entries[at].name@) == at,
{
    let name = entries[at].name@;
    let found = position_of(entries, name);
    assert(entries[at].name@ == name);
    assert(0 <= found < entries.len() && entries[found].name@ == name);
    law_before_is_an_order(name, name, name);
    if found < at {
        assert(before(entries[found].name@, entries[at].name@));
    } else if at < found {
        assert(before(entries[at].name@, entries[found].name@));
    }
}

/// The first position whose name does not come before `name`.
fn find<T>(entries: &Vec<Named<T>>, name: &Vec<char>) -> (at: usize)
    requires
        ordered(entries@),
    ensures
        at <= entries@.len(),
        forall|i: int| 0 <= i < at ==> before((#[trigger] entries@[i]).name@, name@),
        forall|i: int|
            at <= i < entries@.len() ==> !before((#[trigger] entries@[i]).name@, name@),
{
    let mut low: usize = 0;
    let mut high: usize = entries.len();
    while low < high
        invariant
            low <= high <= entries@.len(),
            ordered(entries@),
            forall|i: int| 0 <= i < low ==> before((#[trigger] entries@[i]).name@, name@),
            forall|i: int|
                high <= i < entries@.len() ==> !before((#[trigger] entries@[i]).name@, name@),
        decreases high - low,
    {
        let middle: usize = low + (high - low) / 2;
        if precedes(&text::chars_of(entries[middle].name.as_str()), name) {
            proof {
                assert forall|i: int| 0 <= i < middle + 1 implies before(
                    (#[trigger] entries@[i]).name@,
                    name@,
                ) by {
                    if i < middle {
                        assert(before(entries@[i].name@, entries@[middle as int].name@));
                        law_before_is_an_order(
                            entries@[i].name@,
                            entries@[middle as int].name@,
                            name@,
                        );
                    }
                }
            }
            low = middle + 1;
        } else {
            proof {
                assert forall|i: int| middle <= i < entries@.len() implies !before(
                    (#[trigger] entries@[i]).name@,
                    name@,
                ) by {
                    if middle < i {
                        assert(before(entries@[middle as int].name@, entries@[i].name@));
                        law_before_is_an_order(
                            entries@[middle as int].name@,
                            entries@[i].name@,
                            name@,
                        );
                    }
                }
            }
            high = middle;
        }
    }
    low
}

/// Put a value under a name, in place of the value that was there.
fn put<T>(entries: &mut Vec<Named<T>>, name: &str, value: T)
    requires
        ordered(old(entries)@),
    ensures
        ordered(final(entries)@),
        forall|other: Seq<char>| #[trigger]
            has(final(entries)@, other) <==> has(old(entries)@, other) || other == name@,
        final(entries)@[position_of(final(entries)@, name@)].value == value,
        forall|other: Seq<char>|
            #![trigger position_of(final(entries)@, other)]
            has(old(entries)@, other) && other != name@ ==> final(entries)@[position_of(
                final(entries)@,
                other,
            )].value == old(entries)@[position_of(old(entries)@, other)].value,
{
    let ghost before_put = entries@;
    let ghost given = value;
    let at = find(entries, &text::chars_of(name));
    let here = at < entries.len() && text::spells(
        &text::chars_of(entries[at].name.as_str()),
        name,
    );
    if here {
        entries.remove(at);
    }
    let ghost middle = entries@;
    let entry = Named { name: name.to_owned(), value };
    let ghost fresh = entry;
    entries.insert(at, entry);
    proof {
        let after = entries@;
        let shift = if here {
            0int
        } else {
            1int
        };
        assert(after.len() == before_put.len() + shift);
        assert(after[at as int] == fresh);
        assert(forall|i: int| 0 <= i < at ==> #[trigger] after[i] == before_put[i]);
        assert forall|i: int| at < i < after.len() implies #[trigger] after[i] == before_put[i
            - shift] by {
            if here {
                assert(middle[i - 1] == before_put[i]);
            }
        }
        assert forall|i: int| at < i < after.len() implies before(
            name@,
            (#[trigger] after[i]).name@,
        ) by {
            let there = before_put[i - shift].name@;
            law_before_is_an_order(there, name@, name@);
            assert(!before(before_put[i - shift].name@, name@));
            if there == name@ {
                if here {
                    assert(before(before_put[at as int].name@, before_put[i].name@));
                    law_before_is_an_order(name@, name@, name@);
                } else {
                    assert(before_put[at as int].name@ != name@);
                    if i - shift > at {
                        assert(before(before_put[at as int].name@, before_put[i - shift].name@));
                        assert(!before(before_put[at as int].name@, name@));
                    }
                }
            }
        }
        assert forall|i: int, j: int| 0 <= i < j < after.len() implies before(
            (#[trigger] after[i]).name@,
            (#[trigger] after[j]).name@,
        ) by {
            let from = if i < at {
                i
            } else {
                i - shift
            };
            let to = if j < at {
                j
            } else {
                j - shift
            };
            if i != at && j != at {
                assert(after[i] == before_put[from] && after[j] == before_put[to]);
                assert(before(before_put[from].name@, before_put[to].name@));
            }
        }
        assert forall|other: Seq<char>| #[trigger]
            has(after, other) <==> has(before_put, other) || other == name@ by {
            if has(after, other) && other != name@ {
                let i = choose|i: int| 0 <= i < after.len() && (#[trigger] after[i]).name@ == other;
                assert(before_put[if i < at {
                    i
                } else {
                    i - shift
                }].name@ == other);
            }
            if has(before_put, other) && other != name@ {
                let i = choose|i: int|
                    0 <= i < before_put.len() && (#[trigger] before_put[i]).name@ == other;
                assert(after[if i < at {
                    i
                } else {
                    i + shift
                }].name@ == other);
            }
            assert(after[at as int].name@ == name@);
        }
        lemma_one_position(after, at as int);
        assert forall|other: Seq<char>|
            #![trigger position_of(after, other)]
            has(before_put, other) && other != name@ implies after[position_of(after, other)].value
            == before_put[position_of(before_put, other)].value by {
            let i = position_of(before_put, other);
            assert(0 <= i < before_put.len() && before_put[i].name@ == other);
            let j = if i < at {
                i
            } else {
                i + shift
            };
            assert(after[j] == before_put[i]);
            lemma_one_position(after, j);
        }
    }
}

/// What a list of named metrics says.
pub open spec fn metrics_of(entries: Seq<Named<Metric>>) -> Map<Seq<char>, MetricState> {
    Map::new(
        |name: Seq<char>| has(entries, name),
        |name: Seq<char>| entries[position_of(entries, name)].value@,
    )
}

/// Metrics under distinct names.
#[derive(Debug, PartialEq, Eq)]
pub struct MetricTable {
    entries: Vec<Named<Metric>>,
}

impl MetricTable {
    /// The names of the metrics ascend.
    pub closed spec fn wf(&self) -> bool {
        ordered(self.entries@)
    }

    /// The metrics, in the order of their names.
    pub closed spec fn spec_entries(&self) -> Seq<Named<Metric>> {
        self.entries@
    }

    /// The metrics by name.
    pub open spec fn table(&self) -> Map<Seq<char>, MetricState> {
        metrics_of(self.spec_entries())
    }

    /// No metrics.
    pub fn new() -> (metrics: MetricTable)
        ensures
            metrics.wf(),
            metrics.table() == Map::<Seq<char>, MetricState>::empty(),
    {
        let metrics = MetricTable { entries: Vec::new() };
        assert(metrics.table() =~= Map::empty());
        metrics
    }

    /// Insert or replace one named metric.
    pub fn insert(&mut self, name: &str, metric: Metric)
        requires
            old(self).wf(),
        ensures
            final(self).wf(),
            final(self).table() == old(self).table().insert(name@, metric@),
    {
        put(&mut self.entries, name, metric);
        proof {
            let old_entries = old(self).entries@;
            let new_entries = self.entries@;
            assert forall|other: Seq<char>| #[trigger]
                self.table().dom().contains(other) <==> old(self).table().insert(
                name@,
                metric@,
            ).dom().contains(other) by {
                assert(has(new_entries, other) <==> has(old_entries, other) || other == name@);
            }
            assert forall|other: Seq<char>| #[trigger]
                self.table().dom().contains(other) implies self.table()[other] == old(self).table().insert(name@, metric@)[other] by {
                let at = position_of(new_entries, other);
                assert(has(new_entries, other));
            }
            assert(self.table() =~= old(self).table().insert(name@, metric@));
        }
    }

    /// The metrics, in the order of their names.
    pub fn entries(&self) -> (entries: &Vec<Named<Metric>>)
        ensures
            entries@ == self.spec_entries(),
            self.wf() ==> ordered(entries@),
    {
        &self.entries
    }

    /// The metric with a name, if there is one.
    pub fn get(&self, name: &str) -> (metric: Option<&Metric>)
        requires
            self.wf(),
        ensures
            match metric {
                Some(found) => self.table().contains_key(name@) && found@ == self.table()[name@],
                None => !self.table().contains_key(name@),
            },
    {
        let at = find(&self.entries, &text::chars_of(name));
        if at < self.entries.len() && text::spells(
            &text::chars_of(self.entries[at].name.as_str()),
            name,
        ) {
            proof {
                lemma_one_position(self.entries@, at as int);
            }
            return Some(&self.entries[at].value);
        }
        proof {
            if has(self.entries@, name@) {
                let i = position_of(self.entries@, name@);
                assert(0 <= i < self.entries@.len() && self.entries@[i].name@ == name@);
                law_before_is_an_order(name@, name@, name@);
                if i < at {
                    assert(before(self.entries@[i].name@, name@));
                } else if at < i {
                    assert(before(self.entries@[at as int].name@, self.entries@[i].name@));
                    assert(!before(self.entries@[at as int].name@, name@));
                }
            }
        }
        None
    }
}

/// Versioned benchmark result.
#[derive(Debug, PartialEq, Eq)]
pub struct BenchmarkReport {
    /// Report schema version.
    pub schema_version: u32,
    /// Engine name.
    pub engine: String,
    /// UNIX timestamp in seconds.
    pub generated_unix_seconds: u64,
    /// Runtime and source revision metadata.
    pub environment: Environment,
    /// Workload configuration.
    pub config: BenchmarkConfig,
    /// Flat stable metric namespace used for cross-run comparisons.
    pub metrics: MetricTable,
}

impl BenchmarkReport {
    /// An empty report using the current schema.
    pub fn new(
        engine: &str,
        generated_unix_seconds: u64,
        environment: Environment,
        config: BenchmarkConfig,
    ) -> (report: BenchmarkReport)
        ensures
            report.metrics.wf(),
            report.schema_version == REPORT_SCHEMA_VERSION,
            report.engine@ == engine@,
            report.generated_unix_seconds == generated_unix_seconds,
            report.environment == environment,
            report.config == config,
            report.metrics.table() == Map::<Seq<char>, MetricState>::empty(),
    {
        BenchmarkReport {
            schema_version: REPORT_SCHEMA_VERSION,
            engine: engine.to_owned(),
            generated_unix_seconds,
            environment,
            config,
            metrics: MetricTable::new(),
        }
    }

    /// Insert or replace one named metric.
    pub fn insert_metric(&mut self, name: &str, metric: Metric)
        requires
            old(self).metrics.wf(),
        ensures
            final(self).metrics.wf(),
            final(self).metrics.table() == old(self).metrics.table().insert(name@, metric@),
            *final(self) == (BenchmarkReport { metrics: final(self).metrics, ..*old(self) }),
    {
        self.metrics.insert(name, metric);
    }
}

/// The sign bit of a double.
pub const SIGN: u64 = 0x8000_0000_0000_0000;

/// The bit pattern is that of a finite double.
pub open spec fn is_finite(bits: u64) -> bool {
    (bits / 0x10_0000_0000_0000) % 0x800 != 0x7FF
}

/// The bit pattern is that of a zero.
pub open spec fn is_zero(bits: u64) -> bool {
    bits % SIGN == 0
}

/// The bit pattern of the double with the other sign.
pub open spec fn negated(bits: u64) -> u64 {
    if bits >= SIGN {
        (bits - SIGN) as u64
    } else {
        (bits + SIGN) as u64
    }
}

/// The relative change from one value to another can be told.
pub open spec fn has_change(baseline: u64, current: u64) -> bool {
    is_finite(baseline) && is_finite(current) && !is_zero(baseline)
}

/// What a comparison of one metric says.
#[verifier::ext_equal]
pub struct DeltaState {
    pub baseline: u64,
    pub current: u64,
    pub change_percent: Option<u64>,
    pub improvement_percent: Option<u64>,
    pub unit: Seq<char>,
    pub direction: MetricDirection,
}

/// Comparison of one metric shared by two reports. Numbers are bit patterns of
/// IEEE 754 doubles.
#[derive(Debug, PartialEq, Eq)]
pub struct MetricDelta {
    /// Baseline value.
    pub baseline: u64,
    /// Current value.
    pub current: u64,
    /// Raw percentage change `(current - baseline) / abs(baseline)`.
    pub change_percent: Option<u64>,
    /// Positive means better according to the metric direction.
    pub improvement_percent: Option<u64>,
    /// Unit copied from both compatible metrics.
    pub unit: String,
    /// Optimization direction.
    pub direction: MetricDirection,
}

impl View for MetricDelta {
    type V = DeltaState;

    open spec fn view(&self) -> DeltaState {
        DeltaState {
            baseline: self.baseline,
            current: self.current,
            change_percent: self.change_percent,
            improvement_percent: self.improvement_percent,
            unit: self.unit@,
            direction: self.direction,
        }
    }
}

/// The comparison of two metrics with the same unit and direction, given the
/// percentage by which the value changed.
pub open spec fn delta(baseline: MetricState, current: MetricState, percent: u64) -> DeltaState {
    let change = if has_change(baseline.value, current.value) {
        Some(percent)
    } else {
        None
    };
    DeltaState {
        baseline: baseline.value,
        current: current.value,
        change_percent: change,
        improvement_percent: match baseline.direction {
            MetricDirection::Higher => change,
            MetricDirection::Lower => match change {
                Some(percent) => Some(negated(percent)),
                None => None,
            },
            MetricDirection::Neutral => None,
        },
        unit: baseline.unit,
        direction: baseline.direction,
    }
}

/// The reports share a metric of this name, with the same unit and direction.
pub open spec fn comparable(
    baseline: Map<Seq<char>, MetricState>,
    current: Map<Seq<char>, MetricState>,
    name: Seq<char>,
) -> bool {
    &&& baseline.contains_key(name)
    &&& current.contains_key(name)
    &&& baseline[name].unit == current[name].unit
    &&& baseline[name].direction == current[name].direction
}

fn compare_metrics(baseline: &Metric, current: &Metric, percent: u64) -> (compared: MetricDelta)
    ensures
        compared@ == delta(baseline@, current@, percent),
{
    let finite = (baseline.value / 0x10_0000_0000_0000) % 0x800 != 0x7FF && (current.value
        / 0x10_0000_0000_0000) % 0x800 != 0x7FF;
    let change = if finite && baseline.value % SIGN != 0 {
        Some(percent)
    } else {
        None
    };
    let improvement = match baseline.direction {
        MetricDirection::Higher => change,
        MetricDirection::Lower => match change {
            Some(percent) => Some(
                if percent >= SIGN {
                    percent - SIGN
                } else {
                    percent + SIGN
                },
            ),
            None => None,
        },
        MetricDirection::Neutral => None,
    };
    MetricDelta {
        baseline: baseline.value,
        current: current.value,
        change_percent: change,
        improvement_percent: improvement,
        unit: baseline.unit.as_str().to_owned(),
        direction: baseline.direction,
    }
}

/// Machine-readable comparison between two compatible benchmark reports.
#[derive(Debug, PartialEq, Eq)]
pub struct ComparisonReport {
    /// Comparison schema version, aligned with the benchmark report schema.
    pub schema_version: u32,
    /// Baseline engine label.
    pub baseline_engine: String,
    /// Current engine label.
    pub current_engine: String,
    /// Shared metrics with matching units and directions, in the order of their
    /// names.
    pub metrics: Vec<Named<MetricDelta>>,
}

/// One of the first `upto` entries has the name.
spec fn among(entries: Seq<Named<Metric>>, upto: int, name: Seq<char>) -> bool {
    exists|j: int| 0 <= j < upto && (#[trigger] entries[j]).name@ == name
}

/// The comparison holds the shared metrics of two reports, given the percentage
/// by which each metric of the baseline changed.
pub open spec fn compares(
    metrics: Seq<Named<MetricDelta>>,
    baseline: Seq<Named<Metric>>,
    current: Map<Seq<char>, MetricState>,
    percents: Seq<u64>,
) -> bool {
    &&& ordered(metrics)
    &&& forall|name: Seq<char>| #[trigger]
        has(metrics, name) <==> comparable(metrics_of(baseline), current, name)
    &&& forall|i: int|
        0 <= i < metrics.len() ==> (#[trigger] metrics[i]).value@ == delta(
            metrics_of(baseline)[metrics[i].name@],
            current[metrics[i].name@],
            percents[position_of(baseline, metrics[i].name@)],
        )
}

/// Whether two texts are the same.
fn same_text(left: &str, right: &str) -> (same: bool)
    ensures
        same == (left@ == right@),
{
    text::spells(&text::chars_of(left), right)
}

/// Compare all shared metrics with matching units and optimization directions,
/// given for each metric of the baseline the percentage by which it changed,
/// which is looked at only where it can be told.
pub fn compare_reports(
    baseline: &BenchmarkReport,
    current: &BenchmarkReport,
    percents: &[u64],
) -> (comparison: ComparisonReport)
    requires
        baseline.metrics.wf(),
        current.metrics.wf(),
        percents@.len() == baseline.metrics.spec_entries().len(),
    ensures
        comparison.schema_version == REPORT_SCHEMA_VERSION,
        comparison.baseline_engine@ == baseline.engine@,
        comparison.current_engine@ == current.engine@,
        compares(
            comparison.metrics@,
            baseline.metrics.spec_entries(),
            current.metrics.table(),
            percents@,
        ),
{
    let earlier = baseline.metrics.entries();
    let ghost entries = earlier@;
    let ghost table = current.metrics.table();
    let mut metrics: Vec<Named<MetricDelta>> = Vec::new();
    let mut index: usize = 0;
    assert(entries.take(0) =~= Seq::empty());
    while index < earlier.len()
        invariant
            index <= earlier@.len() == percents@.len(),
            entries == earlier@,
            table == current.metrics.table(),
            current.metrics.wf(),
            ordered(entries),
            ordered(metrics@),
            forall|i: int|
                0 <= i < metrics@.len() ==> among(
                    entries,
                    index as int,
                    (#[trigger] metrics@[i]).name@,
                ),
            forall|j: int|
                0 <= j < index ==> has(metrics@, (#[trigger] entries[j]).name@) == comparable(
                    metrics_of(entries),
                    table,
                    entries[j].name@,
                ),
            forall|i: int|
                0 <= i < metrics@.len() ==> (#[trigger] metrics@[i]).value@ == delta(
                    metrics_of(entries)[metrics@[i].name@],
                    table[metrics@[i].name@],
                    percents@[position_of(entries, metrics@[i].name@)],
                ),
        decreases earlier@.len() - index,
    {
        let entry = &earlier[index];
        let ghost name = entries[index as int].name@;
        let ghost before_step = metrics@;
        proof {
            lemma_one_position(entries, index as int);
            assert(metrics_of(entries)[name] == entry.value@);
            if has(before_step, name) {
                let i = position_of(before_step, name);
                assert(0 <= i < before_step.len() && before_step[i].name@ == name);
                let j = choose|j: int| 0 <= j < index && (#[trigger] entries[j]).name@ == name;
                lemma_one_position(entries, j);
                assert(false);
            }
        }
        match current.metrics.get(entry.name.as_str()) {
            Some(other) => {
                if same_text(entry.value.unit.as_str(), other.unit.as_str())
                    && entry.value.direction == other.direction {
                    let compared = compare_metrics(&entry.value, other, percents[index]);
                    metrics.push(
                        Named { name: entry.name.as_str().to_owned(), value: compared },
                    );
                    proof {
                        assert(metrics@.drop_last() =~= before_step);
                        lemma_pushed(before_step, metrics@, entries, index as int);
                    }
                }
            },
            None => {},
        }
        proof {
            assert(comparable(metrics_of(entries), table, name) == has(metrics@, name));
            assert forall|j: int| 0 <= j < index + 1 implies has(
                metrics@,
                (#[trigger] entries[j]).name@,
            ) == comparable(metrics_of(entries), table, entries[j].name@) by {
                if j < index {
                    lemma_one_position(entries, j);
                    if metrics@.len() > before_step.len() {
                        assert(metrics@.drop_last() =~= before_step);
                        lemma_pushed(before_step, metrics@, entries, index as int);
                        assert(entries[j].name@ != name) by {
                            if entries[j].name@ == name {
                                lemma_one_position(entries, index as int);
                            }
                        }
                    }
                }
            }
        }
        index = index + 1;
    }
    proof {
        assert forall|name: Seq<char>| #[trigger]
            has(metrics@, name) <==> comparable(metrics_of(entries), table, name) by {
            if has(metrics@, name) {
                let i = position_of(metrics@, name);
                assert(0 <= i < metrics@.len() && metrics@[i].name@ == name);
                let j = choose|j: int| 0 <= j < index && (#[trigger] entries[j]).name@ == name;
                assert(has(metrics@, entries[j].name@));
            }
            if comparable(metrics_of(entries), table, name) {
                let j = position_of(entries, name);
                assert(has(entries, name));
                assert(0 <= j < entries.len() && entries[j].name@ == name);
            }
        }
    }
    ComparisonReport {
        schema_version: REPORT_SCHEMA_VERSION,
        baseline_engine: baseline.engine.as_str().to_owned(),
        current_engine: current.engine.as_str().to_owned(),
        metrics,
    }
}

/// An entry of the same name as the next one of an ordered list can be
/// appended to a list of earlier names.
proof fn lemma_pushed(
    shorter: Seq<Named<MetricDelta>>,
    longer: Seq<Named<MetricDelta>>,
    entries: Seq<Named<Metric>>,
    at: int,
)
    requires
        ordered(shorter),
        ordered(entries),
        0 <= at < entries.len(),
        longer.len() == shorter.len() + 1,
        longer.drop_last() == shorter,
        longer.last().name@ == entries[at].name@,
        forall|i: int|
            0 <= i < shorter.len() ==> among(entries, at, (#[trigger] shorter[i]).name@),
    ensures
        ordered(longer),
        forall|name: Seq<char>| #[trigger]
            has(longer, name) <==> has(shorter, name) || name == entries[at].name@,
        forall|i: int|
            0 <= i < longer.len() ==> among(entries, at + 1, (#[trigger] longer[i]).name@),
{
    let last = shorter.len() as int;
    assert forall|i: int| 0 <= i < last implies (#[trigger] longer[i]) == shorter[i] by {
        assert(longer.drop_last()[i] == longer[i]);
    }
    assert forall|i: int, j: int| 0 <= i < j < longer.len() implies before(
        (#[trigger] longer[i]).name@,
        (#[trigger] longer[j]).name@,
    ) by {
        assert(longer[i] == shorter[i]);
        if j < last {
            assert(longer[j] == shorter[j]);
        } else {
            assert(among(entries, at, shorter[i].name@));
            let from = choose|from: int|
                0 <= from < at && (#[trigger] entries[from]).name@ == shorter[i].name@;
            assert(before(entries[from].name@, entries[at].name@));
        }
    }
    assert forall|name: Seq<char>| #[trigger]
        has(longer, name) <==> has(shorter, name) || name == entries[at].name@ by {
        if has(longer, name) {
            let i = position_of(longer, name);
            assert(0 <= i < longer.len() && longer[i].name@ == name);
            if i < last {
                assert(shorter[i].name@ == name);
            }
        }
        if has(shorter, name) {
            let i = position_of(shorter, name);
            assert(0 <= i < shorter.len() && shorter[i].name@ == name);
            assert(longer[i].name@ == name);
        }
        assert(longer[last].name@ == entries[at].name@);
    }
    assert forall|i: int| 0 <= i < longer.len() implies among(
        entries,
        at + 1,
        (#[trigger] longer[i]).name@,
    ) by {
        if i < last {
            assert(longer[i] == shorter[i]);
            assert(among(entries, at, shorter[i].name@));
            let j = choose|j: int|
                0 <= j < at && (#[trigger] entries[j]).name@ == shorter[i].name@;
            assert(longer[i].name@ == entries[j].name@);
        } else {
            assert(longer[i].name@ == entries[at].name@);
        }
    }
}

/// The change of a metric can be told exactly where both values are finite and the baseline
/// is not zero; it is an improvement as it is where more is better, and with its sign
/// turned where less is.
pub proof fn law_changes(baseline: MetricState, current: MetricState, percent: u64)
    ensures
        ({
            let told = delta(baseline, current, percent);
            let finite = |bits: u64| (bits / 0x10_0000_0000_0000) % 0x800 != 0x7FF;
            let tells = finite(baseline.value) && finite(current.value) && baseline.value
                % 0x8000_0000_0000_0000 != 0;
            &&& told.baseline == baseline.value
            &&& told.current == current.value
            &&& told.unit == baseline.unit
            &&& told.direction == baseline.direction
            &&& told.change_percent == (if tells {
                Some(percent)
            } else {
                None
            })
            &&& baseline.direction == MetricDirection::Higher ==> told.improvement_percent
                == told.change_percent
            &&& baseline.direction == MetricDirection::Neutral ==> told.improvement_percent is None
            &&& baseline.direction == MetricDirection::Lower ==> (told.improvement_percent is Some
                == told.change_percent is Some)
            &&& baseline.direction == MetricDirection::Lower && tells ==> (
            told.improvement_percent->0 == percent + 0x8000_0000_0000_0000
                || told.improvement_percent->0 + 0x8000_0000_0000_0000 == percent)
        }),
{
}

/// A comparison tells, in the order of their names, exactly the metrics that both reports
/// have with one unit and one direction.
pub proof fn law_shared_metrics_are_compared(
    metrics: Seq<Named<MetricDelta>>,
    baseline: Seq<Named<Metric>>,
    current: Map<Seq<char>, MetricState>,
    percents: Seq<u64>,
    name: Seq<char>,
)
    requires
        compares(metrics, baseline, current, percents),
    ensures
        (exists|i: int| 0 <= i < metrics.len() && (#[trigger] metrics[i]).name@ == name) == (
        metrics_of(baseline).contains_key(name) && current.contains_key(name) && metrics_of(
            baseline,
        )[name].unit == current[name].unit && metrics_of(baseline)[name].direction
            == current[name].direction),
        forall|i: int, j: int|
            0 <= i < j < metrics.len() ==> before(
                (#[trigger] metrics[i]).name@,
                (#[trigger] metrics[j]).name@,
            ),
        forall|i: int|
            0 <= i < metrics.len() ==> (#[trigger] metrics[i]).value@.baseline == metrics_of(
                baseline,
            )[metrics[i].name@].value && metrics[i].value@.current
                == current[metrics[i].name@].value,
{
    assert(has(metrics, name) == comparable(metrics_of(baseline), current, name));
}

} // verus!
