//! An LSH index over any storage backend.

use std::time::Instant;
use vstd::prelude::*;

use crate::backend::capability::{BackendCapabilities, BackendCapability};
use crate::backend::contract;
use crate::backend::contract::{BackendStats, StorageBackend};
use crate::backend::descriptor::{Descriptor, IndexDescriptor, Retention};
use crate::backend::error::{BackendError, BackendIndexError, Corruption};
use crate::backend::query;
use crate::backend::query::QueryPlan;
use crate::index::lsh;
use crate::index::lsh::LshIndex32;
use crate::index::metrics::QueryMetrics;
use crate::index::params;
use crate::index::params::LshParams;
use crate::order;
use crate::sketch::minhash32::MinHash32;
use crate::store::lazy;
use crate::threshold::Threshold;

verus! {

/// Batch-first LSH index backed by any [`StorageBackend`].
#[derive(Debug)]
pub struct BackendIndex32<B> {
    backend: B,
    descriptor: IndexDescriptor,
    query_metrics: Option<QueryMetrics>,
    known_items: Option<usize>,
}

/// Why a backend with these capabilities cannot serve a descriptor, if it
/// cannot.
pub open spec fn capability_error(set: BackendCapabilities, descriptor: Descriptor) -> Option<
    BackendError,
> {
    if descriptor.retention is Some && !set.has(BackendCapability::Ttl) {
        Some(BackendError::UnsupportedCapability { capability: BackendCapability::Ttl })
    } else {
        None
    }
}

/// Check that a backend with these capabilities can serve a descriptor.
pub fn validate_retention_capability(
    set: BackendCapabilities,
    descriptor: &IndexDescriptor,
) -> (result: Result<(), BackendError>)
    ensures
        match capability_error(set, descriptor@) {
            Some(error) => result == Err::<(), BackendError>(error),
            None => result is Ok,
        },
{
    if descriptor.retention().is_some() && !set.supports(BackendCapability::Ttl) {
        return Err(BackendError::UnsupportedCapability { capability: BackendCapability::Ttl });
    }
    Ok(())
}

/// A sum, as far as a `usize` can tell.
pub open spec fn clamped_sum(left: usize, right: nat) -> usize {
    if left + right > usize::MAX {
        usize::MAX
    } else {
        (left + right) as usize
    }
}

/// A difference, zero where it would be negative.
pub open spec fn clamped_difference(left: usize, right: usize) -> usize {
    if left < right {
        0
    } else {
        (left - right) as usize
    }
}

impl<B: StorageBackend> BackendIndex32<B> {
    /// The backend.
    pub closed spec fn store(&self) -> B {
        self.backend
    }

    /// The descriptor.
    pub closed spec fn told(&self) -> Descriptor {
        self.descriptor@
    }

    /// The query metrics, where observability is enabled.
    pub closed spec fn metrics(&self) -> Option<QueryMetrics> {
        self.query_metrics
    }

    /// The number of items, where it is known.
    pub closed spec fn known(&self) -> Option<usize> {
        self.known_items
    }

    /// The bands of the descriptor can be used, and the backend keeps what it
    /// keeps true.
    pub open spec fn wf(&self) -> bool {
        self.told().banded() && self.store().wf()
    }

    /// Everything but the backend is the same.
    pub open spec fn keeps_all_but_the_store(&self, other: &Self) -> bool {
        &&& self.told() == other.told()
        &&& self.metrics() == other.metrics()
        &&& self.known() == other.known()
    }

    /// Create a new backend index with the parameters that the tuner selects
    /// among its candidates by their error estimates.
    pub fn create(
        backend: B,
        threshold: Threshold,
        num_perm: usize,
        seed: u64,
        retention: Option<Retention>,
        candidates: &[LshParams],
        errors: &[u64],
    ) -> (result: Result<BackendIndex32<B>, BackendIndexError>)
        requires
            backend.wf(),
            candidates@.len() == errors@.len(),
            params::tuning_error(threshold, num_perm) is None ==> params::is_candidate_list(
                candidates@,
                num_perm as nat,
            ),
        ensures
            match params::tuning_error(threshold, num_perm) {
                Some(error) => result == Err::<BackendIndex32<B>, BackendIndexError>(
                    BackendIndexError::Index(error),
                ),
                None => is_creation(
                    backend,
                    Descriptor {
                        threshold,
                        num_perm,
                        seed,
                        params: candidates@[LshParams::best(
                            candidates@,
                            errors@,
                            candidates@.len(),
                        )],
                        retention,
                    },
                    result,
                ),
            },
    {
        let reference = match LshIndex32::new(threshold, num_perm, seed, candidates, errors) {
            Ok(reference) => reference,
            Err(error) => {
                return Err(BackendIndexError::Index(error));
            },
        };
        Self::create_with_params(
            backend,
            threshold,
            num_perm,
            seed,
            reference.params(),
            retention,
        )
    }

    /// Create a new backend index with explicit LSH parameters.
    pub fn create_with_params(
        backend: B,
        threshold: Threshold,
        num_perm: usize,
        seed: u64,
        params: LshParams,
        retention: Option<Retention>,
    ) -> (result: Result<BackendIndex32<B>, BackendIndexError>)
        requires
            backend.wf(),
        ensures
            is_creation(
                backend,
                Descriptor { threshold, num_perm, seed, params, retention },
                result,
            ),
    {
        let mut backend = backend;
        let descriptor = match IndexDescriptor::new(threshold, num_perm, seed, params, retention) {
            Ok(descriptor) => descriptor,
            Err(error) => {
                return Err(BackendIndexError::Backend(error));
            },
        };
        let set = backend.capabilities();
        match validate_retention_capability(set, &descriptor) {
            Ok(()) => {},
            Err(error) => {
                return Err(BackendIndexError::Backend(error));
            },
        }
        let ghost before = backend;
        let reply = backend.initialize(&descriptor);
        assert(before.initializes(descriptor@, reply, backend));
        match reply {
            Ok(()) => {},
            Err(error) => {
                return Err(BackendIndexError::Backend(error));
            },
        }
        Ok(BackendIndex32 { backend, descriptor, query_metrics: None, known_items: Some(0) })
    }

    /// Open an existing index using its backend-owned descriptor.
    pub fn open(backend: B) -> (result: Result<BackendIndex32<B>, BackendIndexError>)
        requires
            backend.wf(),
        ensures
            is_opening(backend, result),
    {
        let mut backend = backend;
        let ghost before = backend;
        let reply = backend.load_descriptor();
        assert(before.loads(reply, backend));
        let descriptor = match reply {
            Ok(descriptor) => descriptor,
            Err(error) => {
                return Err(BackendIndexError::Backend(error));
            },
        };
        match LshIndex32::with_params(
            descriptor.threshold(),
            descriptor.num_perm(),
            descriptor.seed(),
            descriptor.params(),
        ) {
            Ok(_) => {},
            Err(error) => {
                return Err(BackendIndexError::Index(error));
            },
        }
        let set = backend.capabilities();
        match validate_retention_capability(set, &descriptor) {
            Ok(()) => {},
            Err(error) => {
                return Err(BackendIndexError::Backend(error));
            },
        }
        Ok(BackendIndex32 { backend, descriptor, query_metrics: None, known_items: None })
    }
}

/// The result of creating an index with this descriptor in a backend.
pub open spec fn is_creation<B: StorageBackend>(
    backend: B,
    given: Descriptor,
    result: Result<BackendIndex32<B>, BackendIndexError>,
) -> bool {
    match given.error() {
        Some(error) => result == Err::<BackendIndex32<B>, BackendIndexError>(
            BackendIndexError::Backend(error),
        ),
        None => exists|set: BackendCapabilities| #[trigger]
            backend.offers(set) && match capability_error(set, given) {
                Some(error) => result == Err::<BackendIndex32<B>, BackendIndexError>(
                    BackendIndexError::Backend(error),
                ),
                None => exists|reply: Result<(), BackendError>, after: B| #[trigger]
                    backend.initializes(given, reply, after) && match reply {
                        Err(error) => result == Err::<BackendIndex32<B>, BackendIndexError>(
                            BackendIndexError::Backend(error),
                        ),
                        Ok(()) => result matches Ok(index) && {
                            &&& index.wf()
                            &&& index.store() == after
                            &&& index.told() == given
                            &&& index.metrics() is None
                            &&& index.known() == Some(0usize)
                        },
                    },
            },
    }
}

/// The result of opening the index in a backend.
pub open spec fn is_opening<B: StorageBackend>(
    backend: B,
    result: Result<BackendIndex32<B>, BackendIndexError>,
) -> bool {
    exists|reply: Result<IndexDescriptor, BackendError>, after: B| #[trigger]
        backend.loads(reply, after) && match reply {
            Err(error) => result == Err::<BackendIndex32<B>, BackendIndexError>(
                BackendIndexError::Backend(error),
            ),
            Ok(descriptor) => match params::configuration_error(
                descriptor@.threshold,
                descriptor@.num_perm,
                descriptor@.params,
            ) {
                Some(error) => result == Err::<BackendIndex32<B>, BackendIndexError>(
                    BackendIndexError::Index(error),
                ),
                None => exists|set: BackendCapabilities| #[trigger]
                    after.offers(set) && match capability_error(set, descriptor@) {
                        Some(error) => result == Err::<BackendIndex32<B>, BackendIndexError>(
                            BackendIndexError::Backend(error),
                        ),
                        None => result matches Ok(index) && {
                            &&& index.wf()
                            &&& index.store() == after
                            &&& index.told() == descriptor@
                            &&& index.metrics() is None
                            &&& index.known() is None
                        },
                    },
            },
        }
}

/// What putting a reply to a bucket read together gives.
pub open spec fn is_answer(
    plan: QueryPlan,
    reply: Result<Vec<Vec<u64>>, BackendError>,
    result: Result<Vec<Vec<u64>>, BackendIndexError>,
) -> bool {
    match reply {
        Err(error) => result == Err::<Vec<Vec<u64>>, BackendIndexError>(
            BackendIndexError::Backend(error),
        ),
        Ok(rows) => if rows@.len() != plan.buckets@.len() {
            result == Err::<Vec<Vec<u64>>, BackendIndexError>(
                BackendIndexError::Backend(
                    BackendError::CorruptData {
                        reason: Corruption::BucketRows {
                            returned: rows@.len() as usize,
                            requested: plan.buckets@.len() as usize,
                        },
                    },
                ),
            )
        } else {
            result matches Ok(found) && query::answers(plan, rows@, found@)
        },
    }
}

/// The items that the backend looked through, as far as they are known.
pub open spec fn possible_candidates(known: Option<usize>, queries: nat) -> usize {
    match known {
        Some(items) => lazy::clamped_product(items, queries as usize),
        None => 0,
    }
}

impl<B: StorageBackend> BackendIndex32<B> {
    /// Insert one external key and compatible signature.
    pub fn insert(&mut self, key: u64, sketch: &MinHash32) -> (result: Result<
        (),
        BackendIndexError,
    >)
        requires
            old(self).wf(),
        ensures
            is_insertion(*old(self), *final(self), seq![(key, sketch@)], result),
    {
        let mut items: Vec<(u64, &MinHash32)> = Vec::new();
        items.push((key, sketch));
        assert(lsh::batch_of(items@) =~= seq![(key, sketch@)]);
        self.insert_many(items.as_slice())
    }

    /// Insert a complete batch through one backend batch operation.
    pub fn insert_many(&mut self, items: &[(u64, &MinHash32)]) -> (result: Result<
        (),
        BackendIndexError,
    >)
        requires
            old(self).wf(),
        ensures
            is_insertion(*old(self), *final(self), lsh::batch_of(items@), result),
    {
        let stored = match query::prepare_batch(&self.descriptor, items) {
            Ok(stored) => stored,
            Err(error) => {
                return Err(error);
            },
        };
        let ghost before = self.backend;
        let reply = self.backend.insert_many(stored.as_slice());
        let ghost replied = reply;
        assert(before.stores(contract::item_views(stored@), reply, self.backend));
        match reply {
            Ok(()) => {},
            Err(error) => {
                assert(insertion_passed_on(
                    *old(self),
                    *self,
                    lsh::batch_of(items@),
                    replied,
                    Err::<(), BackendIndexError>(BackendIndexError::Backend(error)),
                ));
                return Err(BackendIndexError::Backend(error));
            },
        }
        match self.known_items {
            Some(known) => {
                self.known_items = Some(known.saturating_add(stored.len()));
            },
            None => {},
        }
        proof {
            assert(contract::item_views(stored@).len() == stored@.len());
            assert(insertion_passed_on(
                *old(self),
                *self,
                lsh::batch_of(items@),
                replied,
                Ok::<(), BackendIndexError>(()),
            ));
        }
        Ok(())
    }

    /// Query approximate candidate keys for one signature.
    pub fn query(&mut self, sketch: &MinHash32) -> (result: Result<Vec<u64>, BackendIndexError>)
        requires
            old(self).wf(),
        ensures
            match result {
                Ok(keys) => exists|found: Vec<Vec<u64>>|
                    found@ == seq![keys] && #[trigger] is_query(
                        *old(self),
                        *final(self),
                        seq![sketch],
                        Ok::<Vec<Vec<u64>>, BackendIndexError>(found),
                    ),
                Err(error) => is_query(
                    *old(self),
                    *final(self),
                    seq![sketch],
                    Err::<Vec<Vec<u64>>, BackendIndexError>(error),
                ),
            },
    {
        let mut sketches: Vec<&MinHash32> = Vec::new();
        sketches.push(sketch);
        assert(sketches@ =~= seq![sketch]);
        match self.query_many(sketches.as_slice()) {
            Ok(found) => {
                let ghost all = found;
                let mut found = found;
                let keys = found.pop().unwrap();
                assert(all@ =~= seq![keys]);
                Ok(keys)
            },
            Err(error) => Err(error),
        }
    }

    /// Query many signatures with one backend batch read.
    pub fn query_many(&mut self, sketches: &[&MinHash32]) -> (result: Result<
        Vec<Vec<u64>>,
        BackendIndexError,
    >)
        requires
            old(self).wf(),
        ensures
            is_query(*old(self), *final(self), sketches@, result),
    {
        let started = match self.query_metrics {
            Some(_) => Some(Instant::now()),
            None => None,
        };
        let plan = match query::plan_queries(&self.descriptor, sketches) {
            Ok(plan) => plan,
            Err(error) => {
                return Err(BackendIndexError::Index(error));
            },
        };
        if sketches.len() == 0 {
            return Ok(Vec::new());
        }
        let ghost views = query::sketch_views(sketches@);
        let ghost before = self.backend;
        let reply = self.backend.query_buckets(plan.buckets.as_slice());
        let ghost replied = reply;
        assert(before.finds(plan.buckets@, reply, self.backend));
        assert(plan.serves(self.descriptor@, views));
        let rows = match reply {
            Ok(rows) => rows,
            Err(error) => {
                assert(queries_passed_on(
                    *old(self),
                    *self,
                    views,
                    plan,
                    replied,
                    Err::<Vec<Vec<u64>>, BackendIndexError>(BackendIndexError::Backend(error)),
                ));
                return Err(BackendIndexError::Backend(error));
            },
        };
        proof {
            assert forall|q: int, band: int|
                0 <= q < plan.positions@.len() && 0 <= band < plan.positions@[q]@.len() implies (
            #[trigger] plan.positions@[q]@[band]) < plan.buckets@.len() by {
                assert(query::points_to(
                    plan.positions@[q]@,
                    plan.buckets@,
                    query::sketch_buckets(self.descriptor@, views[q]),
                ));
            }
        }
        let (found, count) = match query::assemble(&plan, &rows) {
            Ok(assembled) => assembled,
            Err(error) => {
                assert(queries_passed_on(
                    *old(self),
                    *self,
                    views,
                    plan,
                    replied,
                    Err::<Vec<Vec<u64>>, BackendIndexError>(BackendIndexError::Backend(error)),
                ));
                return Err(BackendIndexError::Backend(error));
            },
        };
        let possible: usize = match self.known_items {
            Some(items) => match items.checked_mul(found.len()) {
                Some(possible) => possible,
                None => usize::MAX,
            },
            None => 0,
        };
        match (self.query_metrics, &started) {
            (Some(metrics), Some(instant)) => {
                let mut metrics = metrics;
                let span = instant.elapsed();
                let nanos: u128 = span.as_nanos();
                let ghost earlier = metrics;
                metrics.record(found.len(), count, possible, nanos);
                assert(metrics == earlier.recorded(found.len(), count, possible, nanos));
                self.query_metrics = Some(metrics);
            },
            _ => {},
        }
        assert(queries_passed_on(
            *old(self),
            *self,
            views,
            plan,
            replied,
            Ok::<Vec<Vec<u64>>, BackendIndexError>(found),
        ));
        Ok(found)
    }
}

/// The result of inserting a batch.
pub open spec fn is_insertion<B: StorageBackend>(
    before: BackendIndex32<B>,
    after: BackendIndex32<B>,
    batch: Seq<(u64, crate::sketch::minhash32::Sketch32)>,
    result: Result<(), BackendIndexError>,
) -> bool {
    &&& after.wf()
    &&& after.told() == before.told()
    &&& after.metrics() == before.metrics()
    &&& match query::batch_error(before.told(), batch, batch.len()) {
        Some(error) => result == Err::<(), BackendIndexError>(error) && after == before,
        None => exists|reply: Result<(), BackendError>| #[trigger]
            insertion_passed_on(before, after, batch, reply, result),
    }
}

/// The batch went to the backend, which replied so, and the reply was passed
/// on.
pub open spec fn insertion_passed_on<B: StorageBackend>(
    before: BackendIndex32<B>,
    after: BackendIndex32<B>,
    batch: Seq<(u64, crate::sketch::minhash32::Sketch32)>,
    reply: Result<(), BackendError>,
    result: Result<(), BackendIndexError>,
) -> bool {
    &&& before.store().stores(query::batch_items(before.told(), batch), reply, after.store())
    &&& match reply {
        Err(error) => result == Err::<(), BackendIndexError>(BackendIndexError::Backend(error))
            && after.known() == before.known(),
        Ok(()) => result is Ok && after.known() == (match before.known() {
            Some(known) => Some(clamped_sum(known, batch.len())),
            None => None,
        }),
    }
}

/// The buckets of a plan were read, the backend replied so, and the reply was
/// put together.
pub open spec fn queries_passed_on<B: StorageBackend>(
    before: BackendIndex32<B>,
    after: BackendIndex32<B>,
    views: Seq<crate::sketch::minhash32::Sketch32>,
    plan: QueryPlan,
    reply: Result<Vec<Vec<u64>>, BackendError>,
    result: Result<Vec<Vec<u64>>, BackendIndexError>,
) -> bool {
    &&& plan.serves(before.told(), views)
    &&& before.store().finds(plan.buckets@, reply, after.store())
    &&& is_answer(plan, reply, result)
}

/// The result of a batch of queries.
pub open spec fn is_query<B: StorageBackend>(
    before: BackendIndex32<B>,
    after: BackendIndex32<B>,
    sketches: Seq<&MinHash32>,
    result: Result<Vec<Vec<u64>>, BackendIndexError>,
) -> bool {
    let views = query::sketch_views(sketches);
    &&& after.wf()
    &&& after.told() == before.told()
    &&& after.known() == before.known()
    &&& match query::sketches_error(before.told(), views, views.len()) {
        Some(error) => result == Err::<Vec<Vec<u64>>, BackendIndexError>(
            BackendIndexError::Index(error),
        ) && after == before,
        None => if sketches.len() == 0 {
            result matches Ok(found) && found@.len() == 0 && after == before
        } else {
            &&& exists|plan: QueryPlan, reply: Result<Vec<Vec<u64>>, BackendError>| #[trigger]
                queries_passed_on(before, after, views, plan, reply, result)
            &&& match result {
                Err(_) => after.metrics() == before.metrics(),
                Ok(found) => lazy::observes(
                    before.metrics(),
                    after.metrics(),
                    found@.len() as usize,
                    query::total_keys(found@, found@.len()),
                    possible_candidates(before.known(), found@.len()),
                ),
            }
        },
    }
}

/// The keys went to the backend to be deleted, which replied so, and the reply
/// was passed on.
pub open spec fn removal_passed_on<B: StorageBackend>(
    before: BackendIndex32<B>,
    after: BackendIndex32<B>,
    keys: Seq<u64>,
    reply: Result<usize, BackendError>,
    result: Result<usize, BackendIndexError>,
) -> bool {
    &&& before.store().deletes(keys, reply, after.store())
    &&& match reply {
        Err(error) => result == Err::<usize, BackendIndexError>(BackendIndexError::Backend(error))
            && after.known() == before.known(),
        Ok(removed) => result == Ok::<usize, BackendIndexError>(removed) && after.known() == (
        match before.known() {
            Some(known) => Some(clamped_difference(known, removed)),
            None => None,
        }),
    }
}

/// The result of removing a batch of keys, each of which is deleted once.
pub open spec fn is_removal<B: StorageBackend>(
    before: BackendIndex32<B>,
    after: BackendIndex32<B>,
    keys: Seq<u64>,
    result: Result<usize, BackendIndexError>,
) -> bool {
    &&& after.wf()
    &&& after.told() == before.told()
    &&& after.metrics() == before.metrics()
    &&& exists|asked: Seq<u64>, reply: Result<usize, BackendError>|
        order::increasing(asked) && asked.to_set() == keys.to_set() && #[trigger]
            removal_passed_on(before, after, asked, reply, result)
}

/// One key went to the backend to be deleted, which replied so, and the reply
/// was passed on.
pub open spec fn key_removal_passed_on<B: StorageBackend>(
    before: BackendIndex32<B>,
    after: BackendIndex32<B>,
    key: u64,
    reply: Result<usize, BackendError>,
    result: Result<bool, BackendIndexError>,
) -> bool {
    &&& before.store().deletes(seq![key], reply, after.store())
    &&& match reply {
        Err(error) => result == Err::<bool, BackendIndexError>(BackendIndexError::Backend(error))
            && after.known() == before.known(),
        Ok(removed) => result == Ok::<bool, BackendIndexError>(removed == 1) && after.known() == (
        match before.known() {
            Some(known) => if removed == 1 {
                Some(clamped_difference(known, 1))
            } else {
                Some(known)
            },
            None => None,
        }),
    }
}

/// The result of removing one key.
pub open spec fn is_key_removal<B: StorageBackend>(
    before: BackendIndex32<B>,
    after: BackendIndex32<B>,
    key: u64,
    result: Result<bool, BackendIndexError>,
) -> bool {
    &&& after.wf()
    &&& after.told() == before.told()
    &&& after.metrics() == before.metrics()
    &&& exists|reply: Result<usize, BackendError>| #[trigger]
        key_removal_passed_on(before, after, key, reply, result)
}

/// The backend was asked which keys exist, replied so, and the reply was
/// passed on where it has one answer for each key.
pub open spec fn question_passed_on<B: StorageBackend>(
    before: BackendIndex32<B>,
    after: BackendIndex32<B>,
    keys: Seq<u64>,
    reply: Result<Vec<bool>, BackendError>,
    result: Result<Vec<bool>, BackendIndexError>,
) -> bool {
    &&& before.store().tells(keys, reply, after.store())
    &&& match reply {
        Err(error) => result == Err::<Vec<bool>, BackendIndexError>(
            BackendIndexError::Backend(error),
        ),
        Ok(values) => if values@.len() != keys.len() {
            result == Err::<Vec<bool>, BackendIndexError>(
                BackendIndexError::Backend(
                    BackendError::CorruptData {
                        reason: Corruption::ContainsResults {
                            returned: values@.len() as usize,
                            requested: keys.len() as usize,
                        },
                    },
                ),
            )
        } else {
            result == Ok::<Vec<bool>, BackendIndexError>(values)
        },
    }
}

/// The result of asking which keys exist.
pub open spec fn is_telling<B: StorageBackend>(
    before: BackendIndex32<B>,
    after: BackendIndex32<B>,
    keys: Seq<u64>,
    result: Result<Vec<bool>, BackendIndexError>,
) -> bool {
    &&& after.wf()
    &&& after.keeps_all_but_the_store(&before)
    &&& exists|reply: Result<Vec<bool>, BackendError>| #[trigger]
        question_passed_on(before, after, keys, reply, result)
}

/// The backend's reply, as the index returns it.
pub open spec fn passed_on(reply: Result<(), BackendError>) -> Result<(), BackendIndexError> {
    match reply {
        Ok(()) => Ok(()),
        Err(error) => Err(BackendIndexError::Backend(error)),
    }
}

/// The backend was asked for statistics, replied so, and the reply was passed
/// on with the index's own query metrics.
pub open spec fn stats_passed_on<B: StorageBackend>(
    before: BackendIndex32<B>,
    after: BackendIndex32<B>,
    reply: Result<BackendStats, BackendError>,
    result: Result<BackendStats, BackendIndexError>,
) -> bool {
    &&& before.store().counts(reply, after.store())
    &&& match reply {
        Err(error) => result == Err::<BackendStats, BackendIndexError>(
            BackendIndexError::Backend(error),
        ) && after.known() == before.known(),
        Ok(stats) => {
            &&& result == Ok::<BackendStats, BackendIndexError>(
                BackendStats { queries: before.metrics(), ..stats },
            )
            &&& after.known() == (if stats.items <= usize::MAX {
                Some(stats.items as usize)
            } else {
                None
            })
        },
    }
}

impl<B: StorageBackend> BackendIndex32<B> {
    /// Remove one key, returning whether it existed.
    pub fn remove(&mut self, key: u64) -> (result: Result<bool, BackendIndexError>)
        requires
            old(self).wf(),
        ensures
            is_key_removal(*old(self), *final(self), key, result),
    {
        let keys: [u64; 1] = [key];
        assert(keys@ =~= seq![key]);
        let reply = self.backend.delete_many(keys.as_slice());
        let ghost replied = reply;
        let removed: usize = match reply {
            Ok(removed) => removed,
            Err(error) => {
                assert(key_removal_passed_on(
                    *old(self),
                    *self,
                    key,
                    replied,
                    Err::<bool, BackendIndexError>(BackendIndexError::Backend(error)),
                ));
                return Err(BackendIndexError::Backend(error));
            },
        };
        if removed == 1 {
            match self.known_items {
                Some(known) => {
                    self.known_items = Some(known.saturating_sub(1));
                },
                None => {},
            }
        }
        assert(key_removal_passed_on(
            *old(self),
            *self,
            key,
            replied,
            Ok::<bool, BackendIndexError>(removed == 1),
        ));
        Ok(removed == 1)
    }

    /// Remove a batch of keys, returning the number that existed.
    pub fn remove_many(&mut self, keys: Vec<u64>) -> (result: Result<usize, BackendIndexError>)
        requires
            old(self).wf(),
        ensures
            is_removal(*old(self), *final(self), keys@, result),
    {
        let asked = order::sorted_unique(keys);
        let reply = self.backend.delete_many(asked.as_slice());
        let ghost replied = reply;
        let removed: usize = match reply {
            Ok(removed) => removed,
            Err(error) => {
                assert(removal_passed_on(
                    *old(self),
                    *self,
                    asked@,
                    replied,
                    Err::<usize, BackendIndexError>(BackendIndexError::Backend(error)),
                ));
                return Err(BackendIndexError::Backend(error));
            },
        };
        match self.known_items {
            Some(known) => {
                self.known_items = Some(known.saturating_sub(removed));
            },
            None => {},
        }
        assert(removal_passed_on(
            *old(self),
            *self,
            asked@,
            replied,
            Ok::<usize, BackendIndexError>(removed),
        ));
        Ok(removed)
    }

    /// Return whether one key exists.
    pub fn contains(&mut self, key: u64) -> (result: Result<bool, BackendIndexError>)
        requires
            old(self).wf(),
        ensures
            match result {
                Ok(value) => exists|values: Vec<bool>|
                    values@ == seq![value] && #[trigger] is_telling(
                        *old(self),
                        *final(self),
                        seq![key],
                        Ok::<Vec<bool>, BackendIndexError>(values),
                    ),
                Err(error) => is_telling(
                    *old(self),
                    *final(self),
                    seq![key],
                    Err::<Vec<bool>, BackendIndexError>(error),
                ),
            },
    {
        let keys: [u64; 1] = [key];
        assert(keys@ =~= seq![key]);
        match self.contains_many(keys.as_slice()) {
            Ok(values) => {
                let value = values[0];
                assert(values@ =~= seq![value]);
                Ok(value)
            },
            Err(error) => Err(error),
        }
    }

    /// Test many keys in one backend operation.
    pub fn contains_many(&mut self, keys: &[u64]) -> (result: Result<
        Vec<bool>,
        BackendIndexError,
    >)
        requires
            old(self).wf(),
        ensures
            is_telling(*old(self), *final(self), keys@, result),
    {
        let reply = self.backend.contains_many(keys);
        let ghost replied = reply;
        let result = match reply {
            Err(error) => Err(BackendIndexError::Backend(error)),
            Ok(values) => if values.len() != keys.len() {
                Err(
                    BackendIndexError::Backend(
                        BackendError::CorruptData {
                            reason: Corruption::ContainsResults {
                                returned: values.len(),
                                requested: keys.len(),
                            },
                        },
                    ),
                )
            } else {
                Ok(values)
            },
        };
        assert(question_passed_on(*old(self), *self, keys@, replied, result));
        result
    }

    /// Complete outstanding backend writes.
    pub fn flush(&mut self) -> (result: Result<(), BackendIndexError>)
        requires
            old(self).wf(),
        ensures
            final(self).wf(),
            final(self).keeps_all_but_the_store(old(self)),
            exists|reply: Result<(), BackendError>| #[trigger]
                old(self).store().flushes(reply, final(self).store()) && result == passed_on(reply),
    {
        let ghost before = self.backend;
        let reply = self.backend.flush();
        assert(before.flushes(reply, self.backend));
        match reply {
            Ok(()) => Ok(()),
            Err(error) => Err(BackendIndexError::Backend(error)),
        }
    }

    /// Probe backend health.
    pub fn health(&mut self) -> (result: Result<(), BackendIndexError>)
        requires
            old(self).wf(),
        ensures
            final(self).wf(),
            final(self).keeps_all_but_the_store(old(self)),
            exists|reply: Result<(), BackendError>| #[trigger]
                old(self).store().probes(reply, final(self).store()) && result == passed_on(reply),
    {
        let ghost before = self.backend;
        let reply = self.backend.health();
        assert(before.probes(reply, self.backend));
        match reply {
            Ok(()) => Ok(()),
            Err(error) => Err(BackendIndexError::Backend(error)),
        }
    }

    /// Return backend statistics.
    pub fn stats(&mut self) -> (result: Result<BackendStats, BackendIndexError>)
        requires
            old(self).wf(),
        ensures
            final(self).wf(),
            final(self).told() == old(self).told(),
            final(self).metrics() == old(self).metrics(),
            exists|reply: Result<BackendStats, BackendError>| #[trigger]
                stats_passed_on(*old(self), *final(self), reply, result),
    {
        let reply = self.backend.stats();
        let ghost replied = reply;
        let mut stats = match reply {
            Ok(stats) => stats,
            Err(error) => {
                assert(stats_passed_on(
                    *old(self),
                    *self,
                    replied,
                    Err::<BackendStats, BackendIndexError>(BackendIndexError::Backend(error)),
                ));
                return Err(BackendIndexError::Backend(error));
            },
        };
        self.known_items = if stats.items <= usize::MAX as u64 {
            Some(stats.items as usize)
        } else {
            None
        };
        stats.queries = self.query_metrics;
        assert(stats_passed_on(
            *old(self),
            *self,
            replied,
            Ok::<BackendStats, BackendIndexError>(stats),
        ));
        Ok(stats)
    }

    /// Enable or disable process-local query observation.
    pub fn set_observability(&mut self, enabled: bool)
        ensures
            final(self).store() == old(self).store(),
            final(self).told() == old(self).told(),
            final(self).known() == old(self).known(),
            final(self).metrics() == (if enabled {
                Some(QueryMetrics::zero())
            } else {
                None
            }),
    {
        self.query_metrics = if enabled {
            Some(QueryMetrics::new())
        } else {
            None
        };
    }

    /// The configured index descriptor.
    pub fn descriptor(&self) -> (descriptor: &IndexDescriptor)
        ensures
            descriptor@ == self.told(),
    {
        &self.descriptor
    }

    /// Borrow the concrete backend for backend-specific inspection.
    pub fn backend(&self) -> (backend: &B)
        ensures
            *backend == self.store(),
    {
        &self.backend
    }

    /// Mutably borrow the concrete backend.
    pub fn backend_mut(&mut self) -> (backend: &mut B)
        ensures
            *backend == old(self).store(),
            final(self).store() == *final(backend),
            final(self).keeps_all_but_the_store(old(self)),
    {
        &mut self.backend
    }

    /// Delete only this backend namespace's owned data.
    pub fn cleanup(self) -> (result: Result<(), BackendIndexError>)
        requires
            self.wf(),
        ensures
            exists|reply: Result<(), BackendError>, after: B| #[trigger]
                self.store().cleans(reply, after) && result == passed_on(reply),
    {
        let mut backend = self.backend;
        let ghost before = backend;
        let reply = backend.cleanup();
        assert(before.cleans(reply, backend));
        match reply {
            Ok(()) => Ok(()),
            Err(error) => Err(BackendIndexError::Backend(error)),
        }
    }

    /// Consume the index and return its concrete backend handle.
    pub fn into_backend(self) -> (backend: B)
        ensures
            backend == self.store(),
    {
        self.backend
    }
}

} // verus!
