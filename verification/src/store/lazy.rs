//! A read-only index whose buckets stay in its file.
//!
//! Opening reads the metadata and the bucket directories. The member lists stay
//! where they are until a query touches their bucket. The file keeps the band
//! hashes as well, so that a mutable store can reopen it.

use std::time::Instant;
use vstd::prelude::*;

use crate::format::buckets;
use crate::format::buckets::{BucketError, BucketKey, BucketLocation};
use crate::format::container::SectionKind;
use crate::format::error::FormatError;
use crate::format::header::HEADER_SIZE;
use crate::format::layout;
use crate::format::layout::{FileLayout, LayoutError, LayoutView, SectionDescriptor};
use crate::index::lsh::LshIndex32;
use crate::index::metrics;
use crate::index::metrics::{BucketDistribution, QueryMetrics};
use crate::index::params;
use crate::index::params::LshParams;
use crate::index::planner;
use crate::index::planner::{
    LshPlan, LshPlanError, LshPlanOptions, ParameterSource, StorageMode,
};
use crate::le;
use crate::order;
use crate::sketch::minhash32::{MinHash32, Sketch32};
use crate::store::snapshot;
use crate::store::snapshot::LazyStoreError;
use crate::threshold::Threshold;

verus! {

/// The state of a lazy index.
#[verifier::ext_equal]
pub struct LazyState {
    /// The file.
    pub file: Seq<u8>,
    /// Its layout.
    pub layout: LayoutView,
    /// Its bucket sections.
    pub sections: Seq<SectionDescriptor>,
    /// Where its buckets are, in ascending order of their keys.
    pub directory: Seq<BucketLocation>,
    /// The number of items.
    pub items: usize,
    /// The length of a signature.
    pub num_perm: usize,
    /// The permutation seed.
    pub seed: u64,
    /// The bands and rows.
    pub params: LshParams,
}

/// The locations of the buckets in these sections, or the first error on the
/// way.
pub open spec fn directory_of(
    layout: LayoutView,
    file: Seq<u8>,
    sections: Seq<SectionDescriptor>,
    bands: usize,
) -> Result<Seq<BucketLocation>, BucketError>
    decreases sections.len(),
{
    if sections.len() == 0 {
        Ok(Seq::empty())
    } else {
        match directory_of(layout, file, sections.drop_last(), bands) {
            Err(error) => Err(error),
            Ok(front) => match buckets::located(layout, file, sections.last(), bands) {
                Err(error) => Err(error),
                Ok(more) => Ok(front + more),
            },
        }
    }
}

/// The bands and rows that metadata describe.
pub open spec fn params_of(layout: LayoutView) -> LshParams {
    LshParams { bands: layout.metadata.bands as usize, rows: layout.metadata.rows as usize }
}

/// The lazy index in these bucket sections, or the error in their directories.
pub open spec fn opened_sections(
    file: Seq<u8>,
    layout: LayoutView,
    sections: Seq<SectionDescriptor>,
    items: usize,
) -> Result<LazyState, LazyStoreError> {
    let params = params_of(layout);
    let num_perm = layout.metadata.num_perm as usize;
    if params::configuration_error(layout.metadata.threshold, num_perm, params) is Some {
        Err(
            LazyStoreError::Index(
                params::configuration_error(layout.metadata.threshold, num_perm, params)->0,
            ),
        )
    } else {
        match directory_of(layout, file, sections, params.bands) {
            Err(error) => Err(LazyStoreError::Bucket(error)),
            Ok(directory) => if !buckets::ascending(buckets::location_keys(directory)) {
                Err(
                    LazyStoreError::Bucket(
                        BucketError::Invalid {
                            reason: "bucket directory contains duplicate or unsorted bucket keys",
                        },
                    ),
                )
            } else {
                Ok(
                    LazyState {
                        file,
                        layout,
                        sections,
                        directory,
                        items,
                        num_perm,
                        seed: layout.metadata.seed,
                        params,
                    },
                )
            },
        }
    }
}

/// The lazy index in a file with this layout, or the first error in it.
pub open spec fn opened_layout(file: Seq<u8>, layout: LayoutView) -> Result<
    LazyState,
    LazyStoreError,
> {
    if snapshot::metadata_error(layout.metadata) is Some {
        Err(snapshot::metadata_error(layout.metadata)->0)
    } else {
        match snapshot::only_section(layout.sections, SectionKind::Keys) {
            Err(error) => Err(error),
            Ok(keys) => match snapshot::bucket_sections(layout.sections) {
                Err(error) => Err(error),
                Ok(sections) => if sections.len() == 0 {
                    Err(
                        LazyStoreError::InvalidSnapshot {
                            reason: "missing required bucket sections",
                        },
                    )
                } else {
                    match snapshot::source_count(layout, file, keys) {
                        Err(error) => Err(error),
                        Ok(items) => opened_sections(file, layout, sections, items),
                    }
                },
            },
        }
    }
}

/// The lazy index in a file, or the first error in it.
pub open spec fn opened(file: Seq<u8>) -> Result<LazyState, LazyStoreError> {
    match layout::layout_of(file) {
        Err(error) => Err(LazyStoreError::Layout(LayoutError::Format(error))),
        Ok(layout) => opened_layout(file, layout),
    }
}

impl LazyState {
    /// The directory is in order, and the bands fit in a signature.
    pub open spec fn valid(self) -> bool {
        &&& buckets::ascending(buckets::location_keys(self.directory))
        &&& self.params.fits(self.num_perm as nat)
        &&& self.params.bands <= u32::MAX
    }

    /// A bucket with this key is in the directory at this position.
    pub open spec fn is_at(self, key: BucketKey, index: int) -> bool {
        0 <= index < self.directory.len() && self.directory[index].key == key
    }

    /// The members of the bucket with this key; none where there is no such
    /// bucket.
    pub open spec fn members(self, key: BucketKey) -> Result<Seq<u64>, BucketError> {
        if exists|index: int| self.is_at(key, index) {
            let index = choose|index: int| self.is_at(key, index);
            buckets::members_at(self.layout, self.file, self.directory[index])
        } else {
            Ok(Seq::empty())
        }
    }

    /// The members of the buckets of the first `bands` hashes together, or the
    /// first error in reading them.
    pub open spec fn candidates(self, hashes: Seq<u64>, bands: nat) -> Result<
        Set<u64>,
        BucketError,
    >
        decreases bands,
    {
        if bands == 0 {
            Ok(Set::empty())
        } else {
            let band = (bands - 1) as nat;
            match self.candidates(hashes, band) {
                Err(error) => Err(error),
                Ok(found) => match self.members(
                    BucketKey { band: band as u32, hash: hashes[band as int] },
                ) {
                    Err(error) => Err(error),
                    Ok(members) => Ok(found.union(members.to_set())),
                },
            }
        }
    }

    /// Why a sketch does not belong to this index, if it does not.
    pub open spec fn sketch_error(self, sketch: Sketch32) -> Option<LazyStoreError> {
        if sketch.seed != self.seed {
            Some(LazyStoreError::IncompatibleSeed { expected: self.seed, actual: sketch.seed })
        } else if sketch.values.len() != self.num_perm {
            Some(
                LazyStoreError::IncompatiblePermutationCount {
                    expected: self.num_perm,
                    actual: sketch.values.len() as usize,
                },
            )
        } else {
            None
        }
    }

    /// The candidates of a sketch, or the error that a query for it gives.
    pub open spec fn answer(self, sketch: Sketch32) -> Result<Set<u64>, LazyStoreError> {
        if self.sketch_error(sketch) is Some {
            Err(self.sketch_error(sketch)->0)
        } else {
            match self.candidates(
                params::spec_band_hashes(sketch.values, self.params),
                self.params.bands as nat,
            ) {
                Err(error) => Err(LazyStoreError::Bucket(error)),
                Ok(found) => Ok(found),
            }
        }
    }

    /// The sequence holds the candidates, each once, in ascending order.
    pub open spec fn is_answer(self, sketch: Sketch32, keys: Seq<u64>) -> bool {
        &&& order::increasing(keys)
        &&& self.answer(sketch) == Ok::<Set<u64>, LazyStoreError>(keys.to_set())
    }

    /// The first error in the checksums of the first `count` bucket sections,
    /// if there is one.
    pub open spec fn section_fault(self, count: nat) -> Option<LayoutError>
        decreases count,
    {
        if count == 0 {
            None
        } else {
            match self.section_fault((count - 1) as nat) {
                Some(error) => Some(error),
                None => match self.layout.payload(self.file, self.sections[count - 1]) {
                    Err(error) => Some(error),
                    Ok(_) => None,
                },
            }
        }
    }
}

/// Observable state of a lazy index.
#[derive(Debug, Clone, Copy, PartialEq, Eq, Structural)]
pub struct LazyStats {
    /// Number of live keys encoded by the source snapshot.
    pub items: usize,
    /// Number of distinct buckets in the directory.
    pub buckets: usize,
    /// Number of LSH bands.
    pub bands: usize,
    /// Number of rows per band.
    pub rows: usize,
    /// Total persisted file bytes.
    pub file_bytes: u64,
    /// Exact stored bucket membership distribution.
    pub distribution: BucketDistribution,
    /// Process-local query metrics when observability is enabled.
    pub queries: Option<QueryMetrics>,
}

/// Read-only lazy LSH index backed by checksummed bucket segments.
#[derive(Debug)]
pub struct LazyIndex32<'a> {
    file: &'a [u8],
    layout: FileLayout,
    bucket_sections: Vec<SectionDescriptor>,
    directory: Vec<BucketLocation>,
    item_count: usize,
    num_perm: usize,
    seed: u64,
    params: LshParams,
    query_metrics: Option<QueryMetrics>,
}

impl<'a> View for LazyIndex32<'a> {
    type V = LazyState;

    closed spec fn view(&self) -> LazyState {
        LazyState {
            file: self.file@,
            layout: self.layout@,
            sections: self.bucket_sections@,
            directory: self.directory@,
            items: self.item_count,
            num_perm: self.num_perm,
            seed: self.seed,
            params: self.params,
        }
    }
}

impl<'a> LazyIndex32<'a> {
    /// The directory is in order, and the bands fit in a signature.
    pub open spec fn wf(&self) -> bool {
        self@.valid()
    }

    /// The query metrics, where observability is enabled.
    pub closed spec fn metrics(&self) -> Option<QueryMetrics> {
        self.query_metrics
    }

    /// Open a lazy index without reading its member lists.
    pub fn open(file: &'a [u8]) -> (result: Result<LazyIndex32<'a>, LazyStoreError>)
        ensures
            match opened(file@) {
                Err(error) => result == Err::<LazyIndex32<'a>, LazyStoreError>(error),
                Ok(state) => result matches Ok(index) && {
                    &&& index@ == state
                    &&& index.wf()
                    &&& index.metrics() is None
                },
            },
    {
        let layout = match FileLayout::read_from(file) {
            Ok(layout) => layout,
            Err(error) => {
                return Err(LazyStoreError::Layout(LayoutError::Format(error)));
            },
        };
        match snapshot::validate_metadata(layout.metadata()) {
            Ok(()) => {},
            Err(error) => {
                return Err(error);
            },
        }
        let keys = match snapshot::required_unique_section(&layout, SectionKind::Keys) {
            Ok(keys) => keys,
            Err(error) => {
                return Err(error);
            },
        };
        let bucket_sections = match snapshot::collect_bucket_sections(&layout) {
            Ok(sections) => sections,
            Err(error) => {
                return Err(error);
            },
        };
        if bucket_sections.len() == 0 {
            return Err(
                LazyStoreError::InvalidSnapshot { reason: "missing required bucket sections" },
            );
        }
        let item_count: usize = match snapshot::read_source_count(&layout, file, keys) {
            Ok(count) => count,
            Err(error) => {
                return Err(error);
            },
        };
        let num_perm: usize = layout.metadata().num_perm() as usize;
        let params = LshParams::new(
            layout.metadata().bands() as usize,
            layout.metadata().rows() as usize,
        );
        let seed: u64 = layout.metadata().seed();
        let threshold: Threshold = layout.metadata().threshold();
        match LshIndex32::with_params(threshold, num_perm, seed, params) {
            Ok(_) => {},
            Err(error) => {
                return Err(LazyStoreError::Index(error));
            },
        }
        let directory = match read_directory(&layout, file, &bucket_sections, params.bands) {
            Ok(directory) => directory,
            Err(error) => {
                return Err(LazyStoreError::Bucket(error));
            },
        };
        match buckets::validate_global_bucket_order(directory.as_slice()) {
            Ok(()) => {},
            Err(error) => {
                return Err(LazyStoreError::Bucket(error));
            },
        }
        Ok(
            LazyIndex32 {
                file,
                layout,
                bucket_sections,
                directory,
                item_count,
                num_perm,
                seed,
                params,
                query_metrics: None,
            },
        )
    }

    /// Find a bucket in the directory.
    fn find(&self, key: BucketKey) -> (found: Option<usize>)
        requires
            self.wf(),
        ensures
            match found {
                Some(index) => self@.is_at(key, index as int),
                None => forall|index: int| !self@.is_at(key, index),
            },
    {
        let ghost keys = buckets::location_keys(self.directory@);
        let mut low: usize = 0;
        let mut high: usize = self.directory.len();
        while low < high
            invariant
                0 <= low <= high <= self.directory@.len(),
                keys == buckets::location_keys(self.directory@),
                buckets::ascending(keys),
                forall|i: int| 0 <= i < low ==> (#[trigger] keys[i]).before(key),
                forall|i: int| high <= i < keys.len() ==> key.before(#[trigger] keys[i]),
            decreases high - low,
        {
            let middle: usize = low + (high - low) / 2;
            let other = self.directory[middle].key;
            assert(keys[middle as int] == other);
            if other == key {
                return Some(middle);
            }
            if other.is_before(key) {
                low = middle + 1;
            } else {
                high = middle;
            }
        }
        proof {
            assert forall|index: int| !self@.is_at(key, index) by {
                if self@.is_at(key, index) {
                    assert(keys[index] == key);
                }
            }
        }
        None
    }

    /// Append the members of the buckets that these hashes fall into.
    fn collect_candidates(&self, hashes: &Vec<u64>) -> (result: Result<Vec<u64>, BucketError>)
        requires
            self.wf(),
            hashes@.len() == self@.params.bands,
        ensures
            match self@.candidates(hashes@, hashes@.len()) {
                Err(error) => result == Err::<Vec<u64>, BucketError>(error),
                Ok(found) => result matches Ok(members) && members@.to_set() == found,
            },
    {
        let mut output: Vec<u64> = Vec::new();
        let mut band: usize = 0;
        proof {
            assert(output@.to_set() =~= Set::empty());
        }
        while band < hashes.len()
            invariant
                band <= hashes@.len() == self@.params.bands,
                self.wf(),
                self@.candidates(hashes@, band as nat) == Ok::<Set<u64>, BucketError>(
                    output@.to_set(),
                ),
            decreases hashes@.len() - band,
        {
            let key = BucketKey::new(band as u32, hashes[band]);
            proof {
                if self@.candidates(hashes@, (band + 1) as nat) is Err {
                    lemma_first_fault(self@, hashes@, (band + 1) as nat, hashes@.len());
                }
            }
            match self.find(key) {
                Some(index) => {
                    proof {
                        lemma_members_at(self@, key, index as int);
                    }
                    match buckets::read_bucket_members(
                        &self.layout,
                        self.file,
                        self.directory[index],
                    ) {
                        Ok(members) => {
                            let ghost before = output@;
                            output.extend_from_slice(members.as_slice());
                            proof {
                                assert(output@ =~= before + members@);
                                lemma_set_of_parts(before, members@);
                            }
                        },
                        Err(error) => {
                            return Err(error);
                        },
                    }
                },
                None => {
                    proof {
                        let nothing = Seq::<u64>::empty();
                        assert(nothing.to_set() =~= Set::empty());
                        assert(output@.to_set().union(nothing.to_set()) =~= output@.to_set());
                    }
                },
            }
            band = band + 1;
        }
        Ok(output)
    }

    /// The band hashes of a sketch.
    fn band_hashes(&self, sketch: &MinHash32) -> (result: Result<Vec<u64>, LazyStoreError>)
        requires
            self.wf(),
        ensures
            match self@.sketch_error(sketch@) {
                Some(error) => result == Err::<Vec<u64>, LazyStoreError>(error),
                None => result matches Ok(hashes) && hashes@ == params::spec_band_hashes(
                    sketch@.values,
                    self@.params,
                ),
            },
    {
        let actual: usize = sketch.num_perm();
        if sketch.seed() != self.seed {
            return Err(
                LazyStoreError::IncompatibleSeed { expected: self.seed, actual: sketch.seed() },
            );
        }
        if actual != self.num_perm {
            return Err(
                LazyStoreError::IncompatiblePermutationCount { expected: self.num_perm, actual },
            );
        }
        Ok(params::band_hashes(sketch.signature(), self.params))
    }

    /// The candidates of one sketch.
    fn candidate_keys(&self, sketch: &MinHash32) -> (result: Result<Vec<u64>, LazyStoreError>)
        requires
            self.wf(),
        ensures
            match self@.answer(sketch@) {
                Err(error) => result == Err::<Vec<u64>, LazyStoreError>(error),
                Ok(_) => result matches Ok(keys) && self@.is_answer(sketch@, keys@),
            },
    {
        let hashes = match self.band_hashes(sketch) {
            Ok(hashes) => hashes,
            Err(error) => {
                return Err(error);
            },
        };
        match self.collect_candidates(&hashes) {
            Ok(members) => Ok(order::sorted_unique(members)),
            Err(error) => Err(LazyStoreError::Bucket(error)),
        }
    }

    /// Query approximate candidates; only the member lists of matching buckets
    /// are read.
    pub fn query(&mut self, sketch: &MinHash32) -> (result: Result<Vec<u64>, LazyStoreError>)
        requires
            old(self).wf(),
        ensures
            final(self)@ == old(self)@,
            final(self).wf(),
            match old(self)@.answer(sketch@) {
                Err(error) => {
                    &&& result == Err::<Vec<u64>, LazyStoreError>(error)
                    &&& final(self).metrics() == old(self).metrics()
                },
                Ok(_) => {
                    &&& result matches Ok(keys) && old(self)@.is_answer(sketch@, keys@)
                    &&& observes(
                        old(self).metrics(),
                        final(self).metrics(),
                        1,
                        result->Ok_0@.len() as usize,
                        old(self)@.items,
                    )
                },
            },
    {
        let started = match self.query_metrics {
            Some(_) => Some(Instant::now()),
            None => None,
        };
        let keys = match self.candidate_keys(sketch) {
            Ok(keys) => keys,
            Err(error) => {
                return Err(error);
            },
        };
        let count: usize = keys.len();
        self.observe(&started, 1, count, self.item_count);
        Ok(keys)
    }

    /// Query many sketches.
    pub fn query_many(&mut self, sketches: &[&MinHash32]) -> (result: Result<
        Vec<Vec<u64>>,
        LazyStoreError,
    >)
        requires
            old(self).wf(),
        ensures
            final(self)@ == old(self)@,
            final(self).wf(),
            match result {
                Ok(rows) => {
                    &&& rows@.len() == sketches@.len()
                    &&& forall|i: int|
                        0 <= i < sketches@.len() ==> old(self)@.is_answer(
                            (#[trigger] sketches@[i])@,
                            rows@[i]@,
                        )
                    &&& observes(
                        old(self).metrics(),
                        final(self).metrics(),
                        rows@.len() as usize,
                        total_candidates(rows@, rows@.len()),
                        clamped_product(rows@.len() as usize, old(self)@.items),
                    )
                },
                Err(error) => {
                    &&& final(self).metrics() == old(self).metrics()
                    &&& exists|i: int|
                        0 <= i < sketches@.len() && old(self)@.answer((#[trigger] sketches@[i])@)
                            == Err::<Set<u64>, LazyStoreError>(error) && forall|j: int|
                            0 <= j < i ==> old(self)@.answer((#[trigger] sketches@[j])@) is Ok
                },
            },
    {
        let started = match self.query_metrics {
            Some(_) => Some(Instant::now()),
            None => None,
        };
        let mut rows: Vec<Vec<u64>> = Vec::new();
        let mut candidates: usize = 0;
        let mut index: usize = 0;
        while index < sketches.len()
            invariant
                index <= sketches@.len(),
                *self == *old(self),
                self.wf(),
                rows@.len() == index,
                forall|i: int|
                    0 <= i < index ==> self@.is_answer((#[trigger] sketches@[i])@, rows@[i]@),
                candidates == total_candidates(rows@, rows@.len()),
            decreases sketches@.len() - index,
        {
            let keys = match self.candidate_keys(sketches[index]) {
                Ok(keys) => keys,
                Err(error) => {
                    proof {
                        assert(self@.answer(sketches@[index as int]@) == Err::<
                            Set<u64>,
                            LazyStoreError,
                        >(error));
                        assert forall|j: int| 0 <= j < index implies self@.answer(
                            (#[trigger] sketches@[j])@,
                        ) is Ok by {
                            assert(self@.is_answer(sketches@[j]@, rows@[j]@));
                        }
                    }
                    return Err(error);
                },
            };
            let ghost before = rows@;
            candidates = candidates.saturating_add(keys.len());
            rows.push(keys);
            proof {
                lemma_total_prefix(before, rows@, before.len());
            }
            index = index + 1;
        }
        let possible: usize = match rows.len().checked_mul(self.item_count) {
            Some(possible) => possible,
            None => usize::MAX,
        };
        let count: usize = rows.len();
        self.observe(&started, count, candidates, possible);
        Ok(rows)
    }

    /// Add an operation to the metrics, where observability is enabled.
    fn observe(
        &mut self,
        started: &Option<Instant>,
        queries: usize,
        candidates: usize,
        possible: usize,
    )
        requires
            old(self).metrics() is Some <==> started is Some,
        ensures
            final(self)@ == old(self)@,
            observes(old(self).metrics(), final(self).metrics(), queries, candidates, possible),
    {
        match (self.query_metrics, started) {
            (Some(metrics), Some(instant)) => {
                let mut metrics = metrics;
                let span = instant.elapsed();
                let nanos: u128 = span.as_nanos();
                let ghost before = metrics;
                metrics.record(queries, candidates, possible, nanos);
                assert(metrics == before.recorded(queries, candidates, possible, nanos));
                self.query_metrics = Some(metrics);
            },
            _ => {},
        }
    }

    /// Enable or disable process-local query observation.
    pub fn set_observability(&mut self, enabled: bool)
        ensures
            final(self)@ == old(self)@,
            final(self).metrics() == (if enabled {
                Some(QueryMetrics::zero())
            } else {
                None
            }),
    {
        self.query_metrics = if enabled {
            Some(QueryMetrics::new())
        } else {
            None
        };
    }

    /// Explain the persisted configuration of this index without reading
    /// buckets.
    pub fn explain(&self) -> (result: Result<LshPlan, LshPlanError>)
        ensures
            ({
                let options = LshPlanOptions {
                    expected_items: self@.items as u64,
                    threshold: self@.layout.metadata.threshold,
                    num_perm: self@.num_perm,
                    memory_budget_bytes: None,
                    storage_mode: StorageMode::Lazy,
                };
                match planner::plan_error(options, self@.params) {
                    Some(error) => result == Err::<LshPlan, LshPlanError>(error),
                    None => result == Ok::<LshPlan, LshPlanError>(
                        planner::plan_of(options, self@.params, ParameterSource::Existing),
                    ),
                }
            }),
    {
        planner::explain_lsh(
            LshPlanOptions::new(
                self.item_count as u64,
                self.layout.metadata().threshold(),
                self.num_perm,
            ).storage_mode(StorageMode::Lazy),
            self.params,
        )
    }

    /// Directory and file statistics.
    pub fn stats(&self) -> (stats: LazyStats)
        ensures
            stats.items == self@.items,
            stats.buckets == self@.directory.len(),
            stats.bands == self@.params.bands,
            stats.rows == self@.params.rows,
            stats.file_bytes == self@.layout.file_length,
            stats.queries == self.metrics(),
            metrics::summarizes(
                stats.distribution,
                Seq::new(
                    self@.directory.len(),
                    |i: int| self@.directory[i].member_count as usize,
                ),
            ),
    {
        let mut sizes: Vec<usize> = Vec::new();
        let ghost expected = Seq::new(
            self@.directory.len(),
            |i: int| self@.directory[i].member_count as usize,
        );
        let mut index: usize = 0;
        while index < self.directory.len()
            invariant
                index <= self.directory@.len(),
                expected == Seq::new(
                    self@.directory.len(),
                    |i: int| self@.directory[i].member_count as usize,
                ),
                sizes@ =~= expected.take(index as int),
            decreases self.directory@.len() - index,
        {
            sizes.push(self.directory[index].member_count as usize);
            index = index + 1;
        }
        assert(expected.take(index as int) =~= expected);
        LazyStats {
            items: self.item_count,
            buckets: self.directory.len(),
            bands: self.params.bands,
            rows: self.params.rows,
            file_bytes: self.layout.file_length(),
            distribution: BucketDistribution::from_sizes(sizes.as_slice()),
            queries: self.query_metrics,
        }
    }

    /// Verify the outer checksums of every bucket section.
    ///
    /// The directories are validated when the index is opened, and each member
    /// list when it is read.
    pub fn verify(&self) -> (result: Result<(), LazyStoreError>)
        ensures
            match self@.section_fault(self@.sections.len()) {
                Some(error) => result == Err::<(), LazyStoreError>(LazyStoreError::Layout(error)),
                None => result is Ok,
            },
    {
        let mut index: usize = 0;
        while index < self.bucket_sections.len()
            invariant
                index <= self.bucket_sections@.len(),
                self@.section_fault(index as nat) is None,
            decreases self.bucket_sections@.len() - index,
        {
            proof {
                if self@.section_fault((index + 1) as nat) is Some {
                    lemma_first_section_fault(
                        self@,
                        (index + 1) as nat,
                        self.bucket_sections@.len(),
                    );
                }
            }
            match self.layout.read_section(self.file, self.bucket_sections[index]) {
                Ok(_) => {},
                Err(error) => {
                    return Err(LazyStoreError::Layout(error));
                },
            }
            index = index + 1;
        }
        Ok(())
    }
}

/// Metrics after one operation: unchanged where there are none, and otherwise
/// with the operation and some elapsed time added.
pub open spec fn observes(
    before: Option<QueryMetrics>,
    after: Option<QueryMetrics>,
    queries: usize,
    candidates: usize,
    possible: usize,
) -> bool {
    match before {
        None => after is None,
        Some(metrics) => exists|nanos: u128|
            after == Some(#[trigger] metrics.recorded(queries, candidates, possible, nanos)),
    }
}

/// How many candidates the first `count` rows hold together, as far as a
/// `usize` can tell.
pub open spec fn total_candidates(rows: Seq<Vec<u64>>, count: nat) -> usize
    decreases count,
{
    if count == 0 {
        0
    } else {
        let sum = total_candidates(rows, (count - 1) as nat) + rows[count - 1]@.len();
        if sum > usize::MAX {
            usize::MAX
        } else {
            sum as usize
        }
    }
}

/// A product, as far as a `usize` can tell.
pub open spec fn clamped_product(left: usize, right: usize) -> usize {
    if left * right > usize::MAX {
        usize::MAX
    } else {
        (left * right) as usize
    }
}

proof fn lemma_total_prefix(left: Seq<Vec<u64>>, right: Seq<Vec<u64>>, count: nat)
    requires
        count <= left.len() <= right.len(),
        forall|i: int| 0 <= i < left.len() ==> #[trigger] left[i] == right[i],
    ensures
        total_candidates(left, count) == total_candidates(right, count),
    decreases count,
{
    if count > 0 {
        lemma_total_prefix(left, right, (count - 1) as nat);
        assert(left[count - 1] == right[count - 1]);
    }
}

proof fn lemma_set_of_parts(left: Seq<u64>, right: Seq<u64>)
    ensures
        (left + right).to_set() == left.to_set().union(right.to_set()),
{
    let whole = left + right;
    assert forall|x: u64| whole.to_set().contains(x) == left.to_set().union(
        right.to_set(),
    ).contains(x) by {
        if left.contains(x) {
            let i = choose|i: int| 0 <= i < left.len() && left[i] == x;
            assert(whole[i] == x);
        }
        if right.contains(x) {
            let i = choose|i: int| 0 <= i < right.len() && right[i] == x;
            assert(whole[left.len() + i] == x);
        }
        if whole.contains(x) {
            let i = choose|i: int| 0 <= i < whole.len() && whole[i] == x;
            if i < left.len() {
                assert(left[i] == x);
            } else {
                assert(right[i - left.len()] == x);
            }
        }
    }
    assert(whole.to_set() =~= left.to_set().union(right.to_set()));
}

/// In a directory in order a key stands at one position only.
proof fn lemma_members_at(state: LazyState, key: BucketKey, index: int)
    requires
        state.valid(),
        state.is_at(key, index),
    ensures
        state.members(key) == buckets::members_at(
            state.layout,
            state.file,
            state.directory[index],
        ),
{
    let other = choose|other: int| state.is_at(key, other);
    let keys = buckets::location_keys(state.directory);
    assert(state.is_at(key, other));
    assert(other < index ==> keys[other].before(keys[index]));
    assert(index < other ==> keys[index].before(keys[other]));
}

proof fn lemma_first_fault(state: LazyState, hashes: Seq<u64>, bands: nat, all: nat)
    requires
        bands <= all,
        state.candidates(hashes, bands) is Err,
    ensures
        state.candidates(hashes, all) == state.candidates(hashes, bands),
    decreases all,
{
    if bands < all {
        lemma_first_fault(state, hashes, bands, (all - 1) as nat);
    }
}

proof fn lemma_first_section_fault(state: LazyState, count: nat, all: nat)
    requires
        count <= all,
        state.section_fault(count) is Some,
    ensures
        state.section_fault(all) == state.section_fault(count),
    decreases all,
{
    if count < all {
        lemma_first_section_fault(state, count, (all - 1) as nat);
    }
}

proof fn lemma_first_directory_fault(
    layout: LayoutView,
    file: Seq<u8>,
    sections: Seq<SectionDescriptor>,
    bands: usize,
    count: int,
)
    requires
        0 <= count <= sections.len(),
        directory_of(layout, file, sections.take(count), bands) is Err,
    ensures
        directory_of(layout, file, sections, bands) == directory_of(
            layout,
            file,
            sections.take(count),
            bands,
        ),
    decreases sections.len(),
{
    if count == sections.len() {
        assert(sections.take(count) =~= sections);
    } else {
        assert(sections.drop_last().take(count) =~= sections.take(count));
        lemma_first_directory_fault(layout, file, sections.drop_last(), bands, count);
    }
}

/// Read the directories of bucket sections.
fn read_directory(
    layout: &FileLayout,
    file: &[u8],
    sections: &Vec<SectionDescriptor>,
    bands: usize,
) -> (result: Result<Vec<BucketLocation>, BucketError>)
    ensures
        match directory_of(layout@, file@, sections@, bands) {
            Err(error) => result == Err::<Vec<BucketLocation>, BucketError>(error),
            Ok(directory) => result matches Ok(found) && found@ == directory,
        },
{
    let mut directory: Vec<BucketLocation> = Vec::new();
    let mut index: usize = 0;
    assert(sections@.take(0) =~= Seq::empty());
    while index < sections.len()
        invariant
            index <= sections@.len(),
            directory_of(layout@, file@, sections@.take(index as int), bands) == Ok::<
                Seq<BucketLocation>,
                BucketError,
            >(directory@),
        decreases sections@.len() - index,
    {
        proof {
            let longer = sections@.take(index + 1);
            assert(longer.drop_last() =~= sections@.take(index as int));
            assert(longer.last() == sections@[index as int]);
            if directory_of(layout@, file@, longer, bands) is Err {
                lemma_first_directory_fault(layout@, file@, sections@, bands, index + 1);
            }
        }
        match buckets::decode_bucket_segment(layout, file, sections[index], bands) {
            Ok(locations) => {
                let ghost before = directory@;
                push_all(&mut directory, &locations);
                assert(directory@ == before + locations@);
            },
            Err(error) => {
                return Err(error);
            },
        }
        index = index + 1;
    }
    assert(sections@.take(index as int) =~= sections@);
    Ok(directory)
}

fn push_all(directory: &mut Vec<BucketLocation>, more: &Vec<BucketLocation>)
    ensures
        final(directory)@ == old(directory)@ + more@,
{
    let ghost before = directory@;
    let mut index: usize = 0;
    while index < more.len()
        invariant
            index <= more@.len(),
            directory@ =~= before + more@.take(index as int),
        decreases more@.len() - index,
    {
        directory.push(more[index]);
        index = index + 1;
    }
    assert(more@.take(index as int) =~= more@);
}

/// The files differ only inside the member lists of the bucket sections that the
/// layout lists.
pub open spec fn differ_in_lists(left: Seq<u8>, right: Seq<u8>, layout: LayoutView) -> bool {
    &&& left.len() == right.len()
    &&& forall|p: int|
        0 <= p < left.len() && #[trigger] left[p] != right[p] ==> exists|i: int|
            0 <= i < layout.sections.len() && buckets::is_list_byte(
                left,
                #[trigger] layout.sections[i],
                p,
            )
}

/// What differs in a section is in its own member lists.
proof fn lemma_differ_in_section(
    left: Seq<u8>,
    right: Seq<u8>,
    layout: LayoutView,
    section: SectionDescriptor,
    p: int,
)
    requires
        layout::layout_of(left) == Ok::<LayoutView, FormatError>(layout),
        differ_in_lists(left, right, layout),
        layout.sections.contains(section),
        layout::is_payload_byte(section, p),
        0 <= p < left.len(),
        left[p] != right[p],
    ensures
        buckets::is_list_byte(left, section, p),
{
    layout::lemma_sections_in_file_order(left, layout);
    let own = choose|i: int| 0 <= i < layout.sections.len() && layout.sections[i] == section;
    let other = choose|i: int|
        0 <= i < layout.sections.len() && buckets::is_list_byte(
            left,
            #[trigger] layout.sections[i],
            p,
        );
    layout::lemma_one_payload(
        layout.sections,
        HEADER_SIZE as int,
        left.len() as int,
        own,
        other,
        p,
    );
}

proof fn lemma_same_directory(
    left: Seq<u8>,
    right: Seq<u8>,
    layout: LayoutView,
    sections: Seq<SectionDescriptor>,
    bands: usize,
)
    requires
        layout::layout_of(left) == Ok::<LayoutView, FormatError>(layout),
        differ_in_lists(left, right, layout),
        forall|i: int|
            0 <= i < sections.len() ==> layout.sections.contains(#[trigger] sections[i]),
    ensures
        directory_of(layout, right, sections, bands) == directory_of(
            layout,
            left,
            sections,
            bands,
        ),
    decreases sections.len(),
{
    if sections.len() > 0 {
        let front = sections.drop_last();
        let section = sections.last();
        assert forall|i: int| 0 <= i < front.len() implies layout.sections.contains(
            #[trigger] front[i],
        ) by {
            assert(front[i] == sections[i]);
        }
        lemma_same_directory(left, right, layout, front, bands);
        assert(layout.sections.contains(sections[sections.len() - 1]));
        assert forall|p: int|
            0 <= p < left.len() && section.payload_offset <= p < section.payload_offset
                + section.payload_length && #[trigger] left[p] != right[p] implies buckets::is_list_byte(
            left,
            section,
            p,
        ) by {
            lemma_differ_in_section(left, right, layout, section, p);
        }
        buckets::law_directory_ignores_member_lists(layout, left, right, section, bands);
    }
}

proof fn lemma_same_count(
    left: Seq<u8>,
    right: Seq<u8>,
    layout: LayoutView,
    keys: SectionDescriptor,
)
    requires
        layout::layout_of(left) == Ok::<LayoutView, FormatError>(layout),
        differ_in_lists(left, right, layout),
        layout.sections.contains(keys),
        keys.kind == SectionKind::Keys,
    ensures
        snapshot::source_count(layout, right, keys) == snapshot::source_count(layout, left, keys),
{
    if layout.range(left, keys, 0, 8) is Ok {
        let start = keys.payload_offset as int;
        assert forall|p: int| start <= p < start + 8 implies left[p] == right[p] by {
            if left[p] != right[p] {
                lemma_differ_in_section(left, right, layout, keys, p);
            }
        }
        assert(right.subrange(start, start + 8) =~= left.subrange(start, start + 8));
    }
}

/// Opening does not read member lists: a file that differs from another only inside
/// them opens with the same error, or as the same index over its own bytes.
pub proof fn law_opening_ignores_member_lists(left: Seq<u8>, right: Seq<u8>, layout: LayoutView)
    requires
        layout::layout_of(left) == Ok::<LayoutView, FormatError>(layout),
        differ_in_lists(left, right, layout),
    ensures
        match opened(left) {
            Err(error) => opened(right) == Err::<LazyState, LazyStoreError>(error),
            Ok(state) => opened(right) == Ok::<LazyState, LazyStoreError>(
                LazyState { file: right, ..state },
            ),
        },
{
    assert(layout::differ_in_payloads(left, right, layout.sections, 0)) by {
        assert forall|p: int|
            0 <= p < left.len() && #[trigger] left[p] != right[p] implies exists|i: int|
            0 <= i < layout.sections.len() && layout::is_payload_byte(
                #[trigger] layout.sections[i],
                p,
            ) by {
            let i = choose|i: int|
                0 <= i < layout.sections.len() && buckets::is_list_byte(
                    left,
                    #[trigger] layout.sections[i],
                    p,
                );
            assert(layout::is_payload_byte(layout.sections[i], p));
        }
    }
    layout::law_layout_ignores_payloads(left, right, layout);
    let keys = snapshot::only_section(layout.sections, SectionKind::Keys);
    let sections = snapshot::bucket_sections(layout.sections);
    if keys is Ok && sections is Ok {
        snapshot::lemma_of_kind(layout.sections, SectionKind::Keys);
        snapshot::lemma_bucket_sections(layout.sections);
        lemma_same_count(left, right, layout, keys->Ok_0);
        lemma_same_directory(left, right, layout, sections->Ok_0, params_of(layout).bands);
    }
}

/// Every location in a directory is one that its section announces.
proof fn lemma_location_of_section(
    layout: LayoutView,
    file: Seq<u8>,
    sections: Seq<SectionDescriptor>,
    bands: usize,
    index: int,
    at: int,
)
    requires
        directory_of(layout, file, sections, bands) is Ok,
        0 <= index < directory_of(layout, file, sections, bands)->Ok_0.len(),
        buckets::is_member_byte(directory_of(layout, file, sections, bands)->Ok_0[index], at),
    ensures
        exists|i: int|
            0 <= i < sections.len() && buckets::is_list_byte(file, #[trigger] sections[i], at),
    decreases sections.len(),
{
    let rest = sections.drop_last();
    let front = directory_of(layout, file, rest, bands)->Ok_0;
    let more = buckets::located(layout, file, sections.last(), bands)->Ok_0;
    let all = directory_of(layout, file, sections, bands)->Ok_0;
    if index < front.len() {
        assert(all[index] == front[index]);
        lemma_location_of_section(layout, file, rest, bands, index, at);
        let i = choose|i: int|
            0 <= i < rest.len() && buckets::is_list_byte(file, #[trigger] rest[i], at);
        assert(buckets::is_list_byte(file, sections[i], at));
    } else {
        assert(all[index] == more[index - front.len()]);
        buckets::law_member_lists_stand_behind_the_directory(
            layout,
            file,
            sections.last(),
            bands,
            index - front.len(),
            at,
        );
        assert(buckets::is_list_byte(file, sections[sections.len() - 1], at));
    }
}

/// One altered byte of a member list goes unnoticed when the file is opened, and shows
/// when that bucket is read.
pub proof fn law_altered_list_shows_when_its_bucket_is_read(
    file: Seq<u8>,
    state: LazyState,
    index: int,
    at: int,
    byte: u8,
)
    requires
        opened(file) == Ok::<LazyState, LazyStoreError>(state),
        0 <= index < state.directory.len(),
        buckets::members_at(state.layout, file, state.directory[index]) is Ok,
        buckets::is_member_byte(state.directory[index], at),
        byte != file[at],
    ensures
        ({
            let altered = LazyState { file: file.update(at, byte), ..state };
            &&& opened(file.update(at, byte)) == Ok::<LazyState, LazyStoreError>(altered)
            &&& altered.members(state.directory[index].key) matches Err(
                BucketError::MemberChecksumMismatch { .. },
            )
        }),
{
    let right = file.update(at, byte);
    let layout = state.layout;
    let bands = state.params.bands;
    lemma_location_of_section(layout, file, state.sections, bands, index, at);
    snapshot::lemma_bucket_sections(layout.sections);
    assert forall|p: int| 0 <= p < file.len() && #[trigger] file[p] != right[p] implies exists|
        i: int,
    |
        0 <= i < layout.sections.len() && buckets::is_list_byte(
            file,
            #[trigger] layout.sections[i],
            p,
        ) by {
        assert(p == at);
        let own = choose|i: int|
            0 <= i < state.sections.len() && buckets::is_list_byte(
                file,
                #[trigger] state.sections[i],
                at,
            );
        let i = choose|i: int|
            0 <= i < layout.sections.len() && layout.sections[i] == state.sections[own];
        assert(buckets::is_list_byte(file, layout.sections[i], p));
    }
    law_opening_ignores_member_lists(file, right, layout);
    buckets::law_altered_member_list_is_rejected(layout, file, state.directory[index], at, byte);
    let altered = LazyState { file: right, ..state };
    lemma_members_at(altered, state.directory[index].key, index);
}

proof fn lemma_candidates(state: LazyState, hashes: Seq<u64>, bands: nat)
    requires
        bands <= u32::MAX,
    ensures
        state.candidates(hashes, bands) is Ok == forall|band: int|
            0 <= band < bands ==> (#[trigger] state.members(
                    BucketKey { band: band as u32, hash: hashes[band] },
                )) is Ok,
        state.candidates(hashes, bands) matches Ok(found) ==> forall|key: u64| #[trigger]
            found.contains(key) == exists|band: int|
                0 <= band < bands && (#[trigger] state.members(
                    BucketKey { band: band as u32, hash: hashes[band] },
                ))->Ok_0.contains(key),
    decreases bands,
{
    if bands > 0 {
        let last = (bands - 1) as nat;
        lemma_candidates(state, hashes, last);
        let bucket = BucketKey { band: last as u32, hash: hashes[last as int] };
        if state.candidates(hashes, bands) is Ok {
            assert forall|band: int| 0 <= band < bands implies (#[trigger] state.members(
                    BucketKey { band: band as u32, hash: hashes[band] },
                )) is Ok by {
                if band == last {
                    assert(state.members(bucket) is Ok);
                }
            }
            let found = state.candidates(hashes, bands)->Ok_0;
            let before = state.candidates(hashes, last)->Ok_0;
            let members = state.members(bucket)->Ok_0;
            assert forall|key: u64| #[trigger] found.contains(key) == exists|band: int|
                0 <= band < bands && (#[trigger] state.members(
                    BucketKey { band: band as u32, hash: hashes[band] },
                ))->Ok_0.contains(key) by {
                assert(members.to_set().contains(key) == members.contains(key));
                if found.contains(key) && !before.contains(key) {
                    assert(state.members(
                        BucketKey { band: last as u32, hash: hashes[last as int] },
                    )->Ok_0.contains(key));
                }
            }
        } else if state.candidates(hashes, last) is Ok {
            assert(state.members(
                BucketKey { band: last as u32, hash: hashes[last as int] },
            ) is Err);
        }
    }
}

/// A lazy query lists in ascending order, each once, the members of the bucket that its
/// hash selects in each band, of all bands together, and it succeeds exactly where every
/// one of these buckets can be read.
pub proof fn law_lazy_answers_hold_every_band(state: LazyState, sketch: Sketch32)
    requires
        state.params.bands <= u32::MAX,
    ensures
        ({
            let hashes = params::spec_band_hashes(sketch.values, state.params);
            &&& state.answer(sketch) is Ok == (sketch.seed == state.seed && sketch.values.len()
                == state.num_perm && forall|band: int|
                0 <= band < state.params.bands ==> (#[trigger] state.members(
                    BucketKey { band: band as u32, hash: hashes[band] },
                )) is Ok)
            &&& forall|keys: Seq<u64>| #[trigger]
                state.is_answer(sketch, keys) ==> (forall|i: int, j: int|
                    0 <= i < j < keys.len() ==> keys[i] < keys[j]) && forall|key: u64| #[trigger]
                    keys.contains(key) == exists|band: int|
                        0 <= band < state.params.bands && (#[trigger] state.members(
                    BucketKey { band: band as u32, hash: hashes[band] },
                ))->Ok_0.contains(key)
        }),
{
    let hashes = params::spec_band_hashes(sketch.values, state.params);
    let bands = state.params.bands as nat;
    lemma_candidates(state, hashes, bands);
    assert forall|keys: Seq<u64>| #[trigger] state.is_answer(sketch, keys) implies (forall|
        i: int,
        j: int,
    |
        0 <= i < j < keys.len() ==> keys[i] < keys[j]) && forall|key: u64| #[trigger]
        keys.contains(key) == exists|band: int|
            0 <= band < state.params.bands && (#[trigger] state.members(
                    BucketKey { band: band as u32, hash: hashes[band] },
                ))->Ok_0.contains(key) by {
        let found = state.candidates(hashes, bands)->Ok_0;
        assert(found == keys.to_set());
        assert forall|key: u64| #[trigger] keys.contains(key) == exists|band: int|
            0 <= band < state.params.bands && (#[trigger] state.members(
                    BucketKey { band: band as u32, hash: hashes[band] },
                ))->Ok_0.contains(key) by {
            assert(keys.to_set().contains(key) == keys.contains(key));
            assert(found.contains(key) == keys.contains(key));
        }
    }
}

/// A bucket that is in the directory has the members that its location announces, and one
/// that is not has none.
pub proof fn law_lazy_members(state: LazyState, key: BucketKey)
    requires
        state.valid(),
    ensures
        forall|i: int|
            0 <= i < state.directory.len() && (#[trigger] state.directory[i]).key == key
                ==> state.members(key) == buckets::members_at(
                state.layout,
                state.file,
                state.directory[i],
            ),
        (forall|i: int|
            0 <= i < state.directory.len() ==> (#[trigger] state.directory[i]).key != key)
            ==> state.members(key) == Ok::<Seq<u64>, BucketError>(Seq::empty()),
{
    assert forall|i: int|
        0 <= i < state.directory.len() && (#[trigger] state.directory[i]).key == key implies state.members(
        key,
    ) == buckets::members_at(state.layout, state.file, state.directory[i]) by {
        assert(state.is_at(key, i));
        lemma_members_at(state, key, i);
    }
}

proof fn lemma_no_section_fault(state: LazyState, count: nat)
    ensures
        state.section_fault(count) is None == forall|i: int|
            0 <= i < count ==> state.layout.payload(state.file, #[trigger] state.sections[i]) is Ok,
    decreases count,
{
    if count > 0 {
        lemma_no_section_fault(state, (count - 1) as nat);
        if state.section_fault(count) is Some && state.section_fault((count - 1) as nat) is None {
            assert(state.layout.payload(state.file, state.sections[count - 1]) is Err);
        }
    }
}

/// The bucket sections of a lazy index pass exactly where every one has its checksum.
pub proof fn law_lazy_verification_reads_every_section(state: LazyState)
    ensures
        state.section_fault(state.sections.len()) is None == forall|i: int|
            0 <= i < state.sections.len() ==> state.layout.payload(
                state.file,
                #[trigger] state.sections[i],
            ) is Ok,
{
    lemma_no_section_fault(state, state.sections.len());
}

/// An index that opens is over its file: it has the layout of the file, all its bucket
/// sections in order, the number of items that stands before its keys, and the parameters
/// of its metadata.
pub proof fn law_opened_indexes_describe_their_file(file: Seq<u8>, state: LazyState)
    requires
        opened(file) == Ok::<LazyState, LazyStoreError>(state),
    ensures
        state.file == file,
        layout::layout_of(file) == Ok::<LayoutView, FormatError>(state.layout),
        state.sections == state.layout.sections.filter(
            |section: SectionDescriptor| section.kind == SectionKind::Buckets,
        ),
        state.sections.len() > 0,
        state.num_perm == state.layout.metadata.num_perm as usize,
        state.seed == state.layout.metadata.seed,
        state.params.bands == state.layout.metadata.bands as usize,
        state.params.rows == state.layout.metadata.rows as usize,
        ({
            let keys = state.layout.sections.filter(
                |section: SectionDescriptor| section.kind == SectionKind::Keys,
            );
            &&& keys.len() == 1
            &&& keys[0].payload_offset + 8 <= file.len()
            &&& state.items == le::u64_at(
                file.subrange(
                    keys[0].payload_offset as int,
                    keys[0].payload_offset + 8,
                ),
                0,
            )
        }),
        forall|i: int, j: int|
            0 <= i < j < state.directory.len() ==> (#[trigger] state.directory[i]).key.before(
                (#[trigger] state.directory[j]).key,
            ),
        forall|k: int|
            0 <= k < state.sections.len() ==> buckets::located(
                state.layout,
                file,
                #[trigger] state.sections[k],
                state.params.bands,
            ) is Ok,
        forall|location: BucketLocation| #[trigger]
            state.directory.contains(location) == exists|k: int|
                0 <= k < state.sections.len() && buckets::located(
                    state.layout,
                    file,
                    #[trigger] state.sections[k],
                    state.params.bands,
                )->Ok_0.contains(location),
{
    let layout = state.layout;
    snapshot::law_the_only_section(layout.sections, SectionKind::Keys);
    snapshot::law_all_bucket_sections(layout.sections);
    assert forall|i: int, j: int| 0 <= i < j < state.directory.len() implies (
    #[trigger] state.directory[i]).key.before((#[trigger] state.directory[j]).key) by {
        let keys = buckets::location_keys(state.directory);
        assert(keys[i].before(keys[j]));
    }
    lemma_directory_sections(layout, file, state.sections, state.params.bands);
    assert forall|location: BucketLocation| #[trigger]
        state.directory.contains(location) == exists|k: int|
            0 <= k < state.sections.len() && buckets::located(
                layout,
                file,
                #[trigger] state.sections[k],
                state.params.bands,
            )->Ok_0.contains(location) by {
        lemma_directory_locations(layout, file, state.sections, state.params.bands, location);
    }
}

proof fn lemma_directory_sections(
    layout: LayoutView,
    file: Seq<u8>,
    sections: Seq<SectionDescriptor>,
    bands: usize,
)
    requires
        directory_of(layout, file, sections, bands) is Ok,
    ensures
        forall|k: int|
            0 <= k < sections.len() ==> buckets::located(
                layout,
                file,
                #[trigger] sections[k],
                bands,
            ) is Ok,
    decreases sections.len(),
{
    if sections.len() > 0 {
        let front = sections.drop_last();
        lemma_directory_sections(layout, file, front, bands);
        assert forall|k: int| 0 <= k < sections.len() implies buckets::located(
            layout,
            file,
            #[trigger] sections[k],
            bands,
        ) is Ok by {
            if k < front.len() {
                assert(front[k] == sections[k]);
            }
        }
    }
}

proof fn lemma_directory_locations(
    layout: LayoutView,
    file: Seq<u8>,
    sections: Seq<SectionDescriptor>,
    bands: usize,
    location: BucketLocation,
)
    requires
        directory_of(layout, file, sections, bands) is Ok,
    ensures
        directory_of(layout, file, sections, bands)->Ok_0.contains(location) == exists|k: int|
            0 <= k < sections.len() && buckets::located(
                layout,
                file,
                #[trigger] sections[k],
                bands,
            )->Ok_0.contains(location),
    decreases sections.len(),
{
    if sections.len() > 0 {
        let rest = sections.drop_last();
        lemma_directory_locations(layout, file, rest, bands, location);
        let front = directory_of(layout, file, rest, bands)->Ok_0;
        let more = buckets::located(layout, file, sections.last(), bands)->Ok_0;
        let all = directory_of(layout, file, sections, bands)->Ok_0;
        assert(all == front + more);
        if all.contains(location) {
            let i = choose|i: int| 0 <= i < all.len() && all[i] == location;
            if i < front.len() {
                assert(front[i] == location);
                let k = choose|k: int|
                    0 <= k < rest.len() && buckets::located(
                        layout,
                        file,
                        #[trigger] rest[k],
                        bands,
                    )->Ok_0.contains(location);
                assert(sections[k] == rest[k]);
            } else {
                assert(more[i - front.len()] == location);
                assert(sections[sections.len() - 1] == sections.last());
            }
        }
        if exists|k: int|
            0 <= k < sections.len() && buckets::located(
                layout,
                file,
                #[trigger] sections[k],
                bands,
            )->Ok_0.contains(location) {
            let k = choose|k: int|
                0 <= k < sections.len() && buckets::located(
                    layout,
                    file,
                    #[trigger] sections[k],
                    bands,
                )->Ok_0.contains(location);
            if k < rest.len() {
                assert(rest[k] == sections[k]);
                let i = choose|i: int| 0 <= i < front.len() && front[i] == location;
                assert(all[i] == location);
            } else {
                let i = choose|i: int| 0 <= i < more.len() && more[i] == location;
                assert(all[front.len() + i] == location);
            }
        }
    }
}

/// As many candidates are counted as the rows hold together, as far as a `usize` can tell.
pub proof fn law_every_candidate_is_counted(rows: Seq<Vec<u64>>, count: nat)
    requires
        count <= rows.len(),
    ensures
        ({
            let sum = rows.take(count as int).map_values(|row: Vec<u64>| row@.len()).fold_left(
                0nat,
                |sum: nat, size: nat| sum + size,
            );
            total_candidates(rows, count) == if sum <= usize::MAX {
                sum as usize
            } else {
                usize::MAX
            }
        }),
    decreases count,
{
    let sizes = rows.take(count as int).map_values(|row: Vec<u64>| row@.len());
    if count > 0 {
        law_every_candidate_is_counted(rows, (count - 1) as nat);
        assert(sizes.drop_last() =~= rows.take(count - 1).map_values(
            |row: Vec<u64>| row@.len(),
        ));
    }
}

} // verus!
