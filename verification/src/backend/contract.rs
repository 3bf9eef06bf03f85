//! The storage contract of shared indexes.

use vstd::prelude::*;

use crate::backend::capability::BackendCapabilities;
use crate::backend::descriptor::{Descriptor, IndexDescriptor};
use crate::backend::error::BackendError;
use crate::format::buckets::BucketKey;
use crate::index::metrics::{BucketDistribution, QueryMetrics};

verus! {

/// What a prepared record holds.
#[verifier::ext_equal]
pub struct Item {
    /// The external key.
    pub key: u64,
    /// One hash for each band.
    pub hashes: Seq<u64>,
}

/// One prepared backend record.
#[derive(Debug, Clone, PartialEq, Eq)]
pub struct StoredItem {
    key: u64,
    band_hashes: Vec<u64>,
}

impl View for StoredItem {
    type V = Item;

    closed spec fn view(&self) -> Item {
        Item { key: self.key, hashes: self.band_hashes@ }
    }
}

impl StoredItem {
    /// Prepare a record.
    pub fn new(key: u64, band_hashes: Vec<u64>) -> (item: StoredItem)
        ensures
            item@ == (Item { key, hashes: band_hashes@ }),
    {
        StoredItem { key, band_hashes }
    }

    /// The external integer key.
    pub fn key(&self) -> (key: u64)
        ensures
            key == self@.key,
    {
        self.key
    }

    /// One stable hash for each band.
    pub fn band_hashes(&self) -> (hashes: &[u64])
        ensures
            hashes@ == self@.hashes,
    {
        self.band_hashes.as_slice()
    }
}

/// What each of the records holds.
pub open spec fn item_views(items: Seq<StoredItem>) -> Seq<Item> {
    Seq::new(items.len(), |i: int| items[i]@)
}

/// Observable storage statistics independent of a backend product.
#[derive(Debug, Clone, Copy, PartialEq, Eq, Structural)]
pub struct BackendStats {
    /// Number of live indexed keys.
    pub items: u64,
    /// Number of live `(bucket, key)` memberships.
    pub bucket_memberships: u64,
    /// Network round trips performed by this backend handle.
    /// In-process backends report zero.
    pub round_trips: u64,
    /// Remaining namespace retention time when supported and active.
    pub ttl_seconds_remaining: Option<u64>,
    /// Exact bucket distribution when the backend can provide it without an
    /// additional scan or round trip.
    pub bucket_distribution: Option<BucketDistribution>,
    /// Process-local application query metrics when observation is enabled.
    pub queries: Option<QueryMetrics>,
}

/// Typed storage contract used by shared LSH indexes.
///
/// Backends implement batch primitives, so that a remote implementation does
/// not need one network round trip for each application record or query
/// bucket.
///
/// What a backend replies is its own affair: each operation comes with a
/// relation between the request, the reply and the backend before and after,
/// which the implementation chooses. A backend that nothing can be said of,
/// such as one that other processes write to, leaves the relations that always
/// hold.
pub trait StorageBackend: Sized {
    /// What the backend keeps true between operations.
    open spec fn wf(&self) -> bool {
        true
    }

    /// The backend may report these capabilities.
    open spec fn offers(&self, set: BackendCapabilities) -> bool {
        true
    }

    /// The backend may reply so to a request to initialize the namespace.
    open spec fn initializes(
        &self,
        descriptor: Descriptor,
        reply: Result<(), BackendError>,
        after: Self,
    ) -> bool {
        true
    }

    /// The backend may reply so to a request for the descriptor.
    open spec fn loads(&self, reply: Result<IndexDescriptor, BackendError>, after: Self) -> bool {
        true
    }

    /// The backend may reply so to the question which keys exist.
    open spec fn tells(&self, keys: Seq<u64>, reply: Result<Vec<bool>, BackendError>, after: Self) -> bool {
        true
    }

    /// The backend may reply so to a request to insert items.
    open spec fn stores(&self, items: Seq<Item>, reply: Result<(), BackendError>, after: Self) -> bool {
        true
    }

    /// The backend may reply so to a request for the members of buckets.
    open spec fn finds(
        &self,
        wanted: Seq<BucketKey>,
        reply: Result<Vec<Vec<u64>>, BackendError>,
        after: Self,
    ) -> bool {
        true
    }

    /// The backend may reply so to a request to delete keys.
    open spec fn deletes(&self, keys: Seq<u64>, reply: Result<usize, BackendError>, after: Self) -> bool {
        true
    }

    /// The backend may reply so to a request to complete its writes.
    open spec fn flushes(&self, reply: Result<(), BackendError>, after: Self) -> bool {
        true
    }

    /// The backend may reply so to a health probe.
    open spec fn probes(&self, reply: Result<(), BackendError>, after: Self) -> bool {
        true
    }

    /// The backend may reply so to a request for statistics.
    open spec fn counts(&self, reply: Result<BackendStats, BackendError>, after: Self) -> bool {
        true
    }

    /// The backend may reply so to a request to delete the namespace.
    open spec fn cleans(&self, reply: Result<(), BackendError>, after: Self) -> bool {
        true
    }

    /// The operations that this backend implements natively.
    fn capabilities(&self) -> (set: BackendCapabilities)
        ensures
            self.offers(set),
    ;

    /// Initialize an empty namespace with one validated index descriptor.
    fn initialize(&mut self, descriptor: &IndexDescriptor) -> (reply: Result<(), BackendError>)
        requires
            old(self).wf(),
            descriptor.wf(),
        ensures
            final(self).wf(),
            old(self).initializes(descriptor@, reply, *final(self)),
    ;

    /// Load the descriptor required to open an existing namespace.
    fn load_descriptor(&mut self) -> (reply: Result<IndexDescriptor, BackendError>)
        requires
            old(self).wf(),
        ensures
            final(self).wf(),
            old(self).loads(reply, *final(self)),
    ;

    /// Test key existence while preserving input order.
    fn contains_many(&mut self, keys: &[u64]) -> (reply: Result<Vec<bool>, BackendError>)
        requires
            old(self).wf(),
        ensures
            final(self).wf(),
            old(self).tells(keys@, reply, *final(self)),
    ;

    /// Atomically insert one validated batch or fail without partial mutation.
    fn insert_many(&mut self, items: &[StoredItem]) -> (reply: Result<(), BackendError>)
        requires
            old(self).wf(),
        ensures
            final(self).wf(),
            old(self).stores(item_views(items@), reply, *final(self)),
    ;

    /// Read candidate members for each requested bucket in input order.
    fn query_buckets(&mut self, buckets: &[BucketKey]) -> (reply: Result<
        Vec<Vec<u64>>,
        BackendError,
    >)
        requires
            old(self).wf(),
        ensures
            final(self).wf(),
            old(self).finds(buckets@, reply, *final(self)),
    ;

    /// Delete keys in one backend batch, returning the number actually removed.
    fn delete_many(&mut self, keys: &[u64]) -> (reply: Result<usize, BackendError>)
        requires
            old(self).wf(),
        ensures
            final(self).wf(),
            old(self).deletes(keys@, reply, *final(self)),
    ;

    /// Complete writes issued before this call.
    fn flush(&mut self) -> (reply: Result<(), BackendError>)
        requires
            old(self).wf(),
        ensures
            final(self).wf(),
            old(self).flushes(reply, *final(self)),
    ;

    /// Return backend health or an actionable error.
    fn health(&mut self) -> (reply: Result<(), BackendError>)
        requires
            old(self).wf(),
        ensures
            final(self).wf(),
            old(self).probes(reply, *final(self)),
    ;

    /// Return current backend statistics.
    fn stats(&mut self) -> (reply: Result<BackendStats, BackendError>)
        requires
            old(self).wf(),
        ensures
            final(self).wf(),
            old(self).counts(reply, *final(self)),
    ;

    /// Delete only data owned by this backend namespace.
    fn cleanup(&mut self) -> (reply: Result<(), BackendError>)
        requires
            old(self).wf(),
        ensures
            final(self).wf(),
            old(self).cleans(reply, *final(self)),
    ;
}

/// Every item of a batch is passed on, in the order of the batch.
pub proof fn law_every_item_is_passed_on(items: Seq<StoredItem>)
    ensures
        item_views(items).len() == items.len(),
        forall|i: int| 0 <= i < items.len() ==> #[trigger] item_views(items)[i] == items[i]@,
{
}

} // verus!
