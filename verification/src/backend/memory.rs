//! The in-process storage backend.

use std::collections::{HashMap, HashSet};
use vstd::prelude::*;

use crate::backend::capability::{BackendCapabilities, BackendCapability};
use crate::backend::contract;
use crate::backend::contract::{BackendStats, Item, StorageBackend, StoredItem};
use crate::backend::descriptor::{Descriptor, IndexDescriptor};
use crate::backend::error::{BackendError, Corruption};
use crate::backend::query;
use crate::backend::table::BucketTable;
use crate::format::buckets::BucketKey;
use crate::index::metrics;
use crate::index::metrics::BucketDistribution;
use crate::order;

verus! {

broadcast use vstd::std_specs::hash::group_hash_axioms;

/// What the in-process backend holds: the descriptor of the namespace and the
/// band hashes of every key.
#[verifier::ext_equal]
pub struct MemoryState {
    /// The descriptor, once the namespace is initialized.
    pub descriptor: Option<Descriptor>,
    /// The band hashes of every key.
    pub records: Map<u64, Seq<u64>>,
}

impl MemoryState {
    /// The key is in the bucket.
    pub open spec fn in_bucket(self, bucket: BucketKey, key: u64) -> bool {
        &&& self.records.contains_key(key)
        &&& bucket.band < self.records[key].len()
        &&& self.records[key][bucket.band as int] == bucket.hash
    }

    /// The bucket has a member.
    pub open spec fn occupied(self, bucket: BucketKey) -> bool {
        exists|key: u64| #[trigger] self.in_bucket(bucket, key)
    }

    /// The members of the bucket.
    pub open spec fn members(self, bucket: BucketKey) -> Set<u64> {
        Set::new(|key: u64| self.in_bucket(bucket, key))
    }

    /// Why item number `index` of a batch cannot be inserted, if it cannot.
    pub open spec fn item_error(self, items: Seq<Item>, index: int) -> Option<BackendError> {
        let item = items[index];
        let bands = self.descriptor->0.params.bands;
        if item.hashes.len() != bands {
            Some(
                BackendError::CorruptData {
                    reason: Corruption::BandHashes {
                        found: item.hashes.len() as usize,
                        expected: bands,
                    },
                },
            )
        } else if self.records.contains_key(item.key) || (exists|j: int|
            0 <= j < index && (#[trigger] items[j]).key == item.key) {
            Some(BackendError::DuplicateKey { key: item.key })
        } else {
            None
        }
    }

    /// The error of the first of the first `upto` items that has one.
    pub open spec fn first_error(self, items: Seq<Item>, upto: nat) -> Option<BackendError>
        decreases upto,
    {
        if upto == 0 {
            None
        } else {
            match self.first_error(items, (upto - 1) as nat) {
                Some(error) => Some(error),
                None => self.item_error(items, upto - 1),
            }
        }
    }

    /// Why a batch cannot be inserted, if it cannot.
    pub open spec fn batch_error(self, items: Seq<Item>) -> Option<BackendError> {
        if self.descriptor is None {
            Some(BackendError::NotFound)
        } else {
            self.first_error(items, items.len())
        }
    }

    /// The state after a batch has been inserted.
    pub open spec fn with_items(self, items: Seq<Item>) -> MemoryState
        decreases items.len(),
    {
        if items.len() == 0 {
            self
        } else {
            let front = self.with_items(items.drop_last());
            MemoryState {
                records: front.records.insert(items.last().key, items.last().hashes),
                ..front
            }
        }
    }

    /// The state after keys have been deleted.
    pub open spec fn without(self, keys: Seq<u64>) -> MemoryState {
        MemoryState { records: self.records.remove_keys(keys.to_set()), ..self }
    }

    /// The keys that are there to be deleted.
    pub open spec fn present(self, keys: Seq<u64>) -> Set<u64> {
        self.records.dom().intersect(keys.to_set())
    }

    /// The row holds the members of the bucket in ascending order.
    pub open spec fn is_row(self, bucket: BucketKey, row: Seq<u64>) -> bool {
        &&& order::increasing(row)
        &&& forall|key: u64| #[trigger] row.contains(key) <==> self.in_bucket(bucket, key)
    }

    /// The sizes belong to the occupied buckets, each bucket once.
    pub open spec fn are_sizes(self, buckets: Seq<BucketKey>, sizes: Seq<usize>) -> bool {
        &&& sizes.len() == buckets.len()
        &&& buckets.no_duplicates()
        &&& forall|bucket: BucketKey|
            buckets.contains(bucket) <==> #[trigger] self.occupied(bucket)
        &&& forall|i: int|
            0 <= i < sizes.len() ==> (#[trigger] sizes[i]) == self.members(buckets[i]).len()
    }

    /// The statistics describe this state, given the sizes of its buckets.
    pub open spec fn counted(
        self,
        sizes: Seq<usize>,
        reply: Result<BackendStats, BackendError>,
    ) -> bool {
        if sum(sizes) > u64::MAX {
            reply == Err::<BackendStats, BackendError>(BackendError::LengthOverflow)
        } else {
            reply matches Ok(stats) && {
                &&& stats.items == self.records.dom().len()
                &&& stats.bucket_memberships == sum(sizes)
                &&& stats.round_trips == 0
                &&& stats.ttl_seconds_remaining is None
                &&& stats.bucket_distribution matches Some(distribution)
                &&& metrics::summarizes(stats.bucket_distribution->0, sizes)
                &&& stats.queries is None
            }
        }
    }
}

/// The sum of sizes.
pub open spec fn sum(sizes: Seq<usize>) -> nat
    decreases sizes.len(),
{
    if sizes.len() == 0 {
        0
    } else {
        sum(sizes.drop_last()) + sizes.last() as nat
    }
}

/// In-process reference implementation of [`StorageBackend`].
///
/// The memory backend intentionally has no TTL support. It is useful for
/// contract tests and callers that want the shared-backend API without a remote
/// service.
#[derive(Debug)]
pub struct MemoryBackend {
    descriptor: Option<IndexDescriptor>,
    records: HashMap<u64, Vec<u64>>,
    buckets: BucketTable,
}

/// The hashes under each key.
spec fn hashes_of(records: Map<u64, Vec<u64>>) -> Map<u64, Seq<u64>> {
    records.map_values(|hashes: Vec<u64>| hashes@)
}

impl View for MemoryBackend {
    type V = MemoryState;

    closed spec fn view(&self) -> MemoryState {
        MemoryState {
            descriptor: match self.descriptor {
                Some(descriptor) => Some(descriptor@),
                None => None,
            },
            records: hashes_of(self.records@),
        }
    }
}

/// The table holds what the records say.
spec fn mirrors(table: BucketTable, state: MemoryState) -> bool {
    &&& table.wf()
    &&& forall|bucket: BucketKey, key: u64| #[trigger]
        table.holds(bucket, key) <==> state.in_bucket(bucket, key)
}

/// Every record belongs to an initialized namespace and has one hash for each
/// of its bands.
pub open spec fn regular(state: MemoryState) -> bool {
    &&& state.descriptor is Some ==> state.descriptor->0.banded()
    &&& forall|key: u64| #[trigger]
        state.records.contains_key(key) ==> state.descriptor is Some && state.records[key].len()
            == state.descriptor->0.params.bands
}

impl MemoryBackend {
    /// An empty uninitialized memory backend.
    pub fn new() -> (backend: MemoryBackend)
        ensures
            backend.wf(),
            backend@ == (MemoryState { descriptor: None, records: Map::empty() }),
    {
        let backend = MemoryBackend {
            descriptor: None,
            records: HashMap::new(),
            buckets: BucketTable::new(),
        };
        assert(backend@.records =~= Map::empty());
        backend
    }

    /// Check a batch against the records.
    fn check_batch(&self, bands: usize, items: &[StoredItem]) -> (result: Result<(), BackendError>)
        requires
            self@.descriptor is Some,
            bands == self@.descriptor->0.params.bands,
        ensures
            match self@.first_error(contract::item_views(items@), items@.len()) {
                Some(error) => result == Err::<(), BackendError>(error),
                None => result is Ok,
            },
    {
        let ghost views = contract::item_views(items@);
        let mut seen: HashSet<u64> = HashSet::new();
        let mut index: usize = 0;
        while index < items.len()
            invariant
                index <= items@.len(),
                views == contract::item_views(items@),
                self@.descriptor is Some,
                bands == self@.descriptor->0.params.bands,
                self@.first_error(views, index as nat) is None,
                forall|key: u64| #[trigger]
                    seen@.contains(key) <==> exists|j: int|
                        0 <= j < index && (#[trigger] views[j]).key == key,
            decreases items@.len() - index,
        {
            let item = &items[index];
            let ghost earlier = seen@;
            assert(views[index as int] == item@);
            if item.band_hashes().len() != bands {
                proof {
                    lemma_first(self@, views, (index + 1) as nat, views.len());
                }
                return Err(
                    BackendError::CorruptData {
                        reason: Corruption::BandHashes {
                            found: item.band_hashes().len(),
                            expected: bands,
                        },
                    },
                );
            }
            let key: u64 = item.key();
            if self.records.contains_key(&key) || !seen.insert(key) {
                proof {
                    assert(self@.item_error(views, index as int) == Some(
                        BackendError::DuplicateKey { key },
                    ));
                    lemma_first(self@, views, (index + 1) as nat, views.len());
                }
                return Err(BackendError::DuplicateKey { key });
            }
            proof {
                assert(!earlier.contains(key));
                assert forall|other: u64| #[trigger]
                    seen@.contains(other) <==> exists|j: int|
                        0 <= j < index + 1 && (#[trigger] views[j]).key == other by {
                    if earlier.contains(other) {
                        let j = choose|j: int| 0 <= j < index && (#[trigger] views[j]).key == other;
                        assert(views[j].key == other);
                    }
                    if exists|j: int| 0 <= j < index + 1 && (#[trigger] views[j]).key == other {
                        let j = choose|j: int|
                            0 <= j < index + 1 && (#[trigger] views[j]).key == other;
                        if j < index {
                            assert(earlier.contains(other));
                        }
                    }
                }
            }
            index = index + 1;
        }
        Ok(())
    }

    /// Insert one checked item.
    fn insert_item(&mut self, item: &StoredItem)
        requires
            old(self).wf(),
            old(self)@.descriptor is Some,
            !old(self)@.records.contains_key(item@.key),
            item@.hashes.len() == old(self)@.descriptor->0.params.bands,
        ensures
            final(self).wf(),
            final(self)@ == (MemoryState {
                records: old(self)@.records.insert(item@.key, item@.hashes),
                ..old(self)@
            }),
    {
        let key: u64 = item.key();
        let hashes = item.band_hashes();
        let ghost state = self@;
        let ghost after = MemoryState {
            records: state.records.insert(key, hashes@),
            ..state
        };
        proof {
            query::lemma_bands_fit(state.descriptor->0);
        }
        let mut band: usize = 0;
        while band < hashes.len()
            invariant
                band <= hashes@.len() <= u32::MAX,
                self.buckets.wf(),
                self.descriptor == old(self).descriptor,
                self.records@ == old(self).records@,
                !state.records.contains_key(key),
                forall|bucket: BucketKey, member: u64| #[trigger]
                    self.buckets.holds(bucket, member) <==> state.in_bucket(bucket, member) || (
                    member == key && bucket.band < band && hashes@[bucket.band as int]
                        == bucket.hash),
            decreases hashes@.len() - band,
        {
            self.buckets.put(BucketKey::new(band as u32, hashes[band]), key);
            band = band + 1;
        }
        self.records.insert(key, vstd::slice::slice_to_vec(hashes));
        proof {
            assert(self@.records =~= after.records);
            assert(self@ =~= after);
            assert forall|bucket: BucketKey, member: u64| #[trigger]
                self.buckets.holds(bucket, member) <==> after.in_bucket(bucket, member) by {}
        }
    }

    /// Delete one key, returning whether it was there.
    fn delete_key(&mut self, key: u64) -> (removed: bool)
        requires
            old(self).wf(),
        ensures
            final(self).wf(),
            removed == old(self)@.records.contains_key(key),
            final(self)@ == (MemoryState {
                records: old(self)@.records.remove(key),
                ..old(self)@
            }),
    {
        let ghost state = self@;
        let ghost after = MemoryState { records: state.records.remove(key), ..state };
        let hashes = match self.records.remove(&key) {
            Some(hashes) => hashes,
            None => {
                assert(self.records@ =~= old(self).records@);
                assert(state.records.remove(key) =~= state.records);
                return false;
            },
        };
        proof {
            assert(state.records.contains_key(key));
            assert(state.records[key] == hashes@);
            query::lemma_bands_fit(state.descriptor->0);
        }
        let mut band: usize = 0;
        while band < hashes.len()
            invariant
                band <= hashes@.len() <= u32::MAX,
                self.buckets.wf(),
                self.descriptor == old(self).descriptor,
                self.records@ == old(self).records@.remove(key),
                state.records.contains_key(key),
                state.records[key] == hashes@,
                forall|bucket: BucketKey, member: u64| #[trigger]
                    self.buckets.holds(bucket, member) <==> state.in_bucket(bucket, member) && !(
                    member == key && bucket.band < band),
            decreases hashes@.len() - band,
        {
            let ghost earlier = self.buckets;
            let ghost here = BucketKey { band: band as u32, hash: hashes@[band as int] };
            self.buckets.take(BucketKey::new(band as u32, hashes[band]), key);
            proof {
                assert forall|bucket: BucketKey, member: u64| #[trigger]
                    self.buckets.holds(bucket, member) <==> state.in_bucket(bucket, member) && !(
                    member == key && bucket.band < band + 1) by {
                    assert(self.buckets.holds(bucket, member) <==> earlier.holds(bucket, member)
                        && !(bucket == here && member == key));
                }
            }
            band = band + 1;
        }
        proof {
            assert(self@.records =~= after.records);
            assert(self@ =~= after);
            assert forall|bucket: BucketKey, member: u64| #[trigger]
                self.buckets.holds(bucket, member) <==> after.in_bucket(bucket, member) by {}
        }
        true
    }
}

proof fn lemma_first(state: MemoryState, items: Seq<Item>, upto: nat, all: nat)
    requires
        upto <= all,
        state.first_error(items, upto) is Some,
    ensures
        state.first_error(items, all) == state.first_error(items, upto),
    decreases all,
{
    if upto < all {
        lemma_first(state, items, upto, (all - 1) as nat);
    }
}

proof fn lemma_no_error(state: MemoryState, items: Seq<Item>, upto: nat, at: int)
    requires
        state.first_error(items, upto) is None,
        0 <= at < upto,
    ensures
        state.item_error(items, at) is None,
    decreases upto,
{
    if at < upto - 1 {
        lemma_no_error(state, items, (upto - 1) as nat, at);
    }
}

/// The keys after an insertion are the earlier ones and those of the batch.
pub proof fn lemma_keys_after_insertion(state: MemoryState, items: Seq<Item>)
    ensures
        state.with_items(items).descriptor == state.descriptor,
        forall|key: u64| #[trigger]
            state.with_items(items).records.contains_key(key) <==> state.records.contains_key(key)
                || exists|j: int| 0 <= j < items.len() && (#[trigger] items[j]).key == key,
    decreases items.len(),
{
    if items.len() > 0 {
        let front = items.drop_last();
        lemma_keys_after_insertion(state, front);
        assert forall|key: u64| #[trigger]
            state.with_items(items).records.contains_key(key) <==> state.records.contains_key(key)
                || exists|j: int| 0 <= j < items.len() && (#[trigger] items[j]).key == key by {
            if exists|j: int| 0 <= j < front.len() && (#[trigger] front[j]).key == key {
                let j = choose|j: int| 0 <= j < front.len() && (#[trigger] front[j]).key == key;
                assert(items[j].key == key);
            }
            if exists|j: int| 0 <= j < items.len() && (#[trigger] items[j]).key == key {
                let j = choose|j: int| 0 <= j < items.len() && (#[trigger] items[j]).key == key;
                if j < front.len() {
                    assert(front[j].key == key);
                }
            }
        }
    }
}

impl StorageBackend for MemoryBackend {
    closed spec fn wf(&self) -> bool {
        mirrors(self.buckets, self@) && regular(self@)
    }

    open spec fn offers(&self, set: BackendCapabilities) -> bool {
        forall|capability: BackendCapability| #[trigger]
            set.has(capability) == !(capability == BackendCapability::Ttl || capability
                == BackendCapability::Remote)
    }

    open spec fn initializes(
        &self,
        descriptor: Descriptor,
        reply: Result<(), BackendError>,
        after: Self,
    ) -> bool {
        if self@.descriptor is Some {
            reply == Err::<(), BackendError>(BackendError::AlreadyExists) && after@ == self@
        } else if descriptor.retention is Some {
            reply == Err::<(), BackendError>(
                BackendError::UnsupportedCapability { capability: BackendCapability::Ttl },
            ) && after@ == self@
        } else {
            reply is Ok && after@ == (MemoryState { descriptor: Some(descriptor), ..self@ })
        }
    }

    open spec fn loads(&self, reply: Result<IndexDescriptor, BackendError>, after: Self) -> bool {
        &&& after@ == self@
        &&& match self@.descriptor {
            None => reply == Err::<IndexDescriptor, BackendError>(BackendError::NotFound),
            Some(descriptor) => reply matches Ok(loaded) && loaded@ == descriptor,
        }
    }

    open spec fn tells(
        &self,
        keys: Seq<u64>,
        reply: Result<Vec<bool>, BackendError>,
        after: Self,
    ) -> bool {
        &&& after@ == self@
        &&& reply matches Ok(values) && values@ == Seq::new(
            keys.len(),
            |i: int| self@.records.contains_key(keys[i]),
        )
    }

    open spec fn stores(
        &self,
        items: Seq<Item>,
        reply: Result<(), BackendError>,
        after: Self,
    ) -> bool {
        match self@.batch_error(items) {
            Some(error) => reply == Err::<(), BackendError>(error) && after@ == self@,
            None => reply is Ok && after@ == self@.with_items(items),
        }
    }

    open spec fn finds(
        &self,
        wanted: Seq<BucketKey>,
        reply: Result<Vec<Vec<u64>>, BackendError>,
        after: Self,
    ) -> bool {
        &&& after@ == self@
        &&& reply matches Ok(rows) && rows@.len() == wanted.len() && forall|i: int|
            0 <= i < wanted.len() ==> self@.is_row(wanted[i], (#[trigger] rows@[i])@)
    }

    open spec fn deletes(
        &self,
        keys: Seq<u64>,
        reply: Result<usize, BackendError>,
        after: Self,
    ) -> bool {
        if self@.descriptor is None {
            reply == Err::<usize, BackendError>(BackendError::NotFound) && after@ == self@
        } else {
            &&& reply matches Ok(removed)
            &&& removed == self@.present(keys).len()
            &&& after@ == self@.without(keys)
        }
    }

    open spec fn flushes(&self, reply: Result<(), BackendError>, after: Self) -> bool {
        &&& after@ == self@
        &&& reply == (if self@.descriptor is None {
            Err::<(), BackendError>(BackendError::NotFound)
        } else {
            Ok(())
        })
    }

    open spec fn probes(&self, reply: Result<(), BackendError>, after: Self) -> bool {
        reply is Ok && after@ == self@
    }

    open spec fn counts(&self, reply: Result<BackendStats, BackendError>, after: Self) -> bool {
        &&& after@ == self@
        &&& if self@.descriptor is None {
            reply == Err::<BackendStats, BackendError>(BackendError::NotFound)
        } else {
            exists|buckets: Seq<BucketKey>, sizes: Seq<usize>| #[trigger]
                self@.are_sizes(buckets, sizes) && self@.counted(sizes, reply)
        }
    }

    open spec fn cleans(&self, reply: Result<(), BackendError>, after: Self) -> bool {
        reply is Ok && after@ == (MemoryState { descriptor: None, records: Map::empty() })
    }

    fn capabilities(&self) -> (set: BackendCapabilities) {
        BackendCapabilities::memory()
    }

    fn initialize(&mut self, descriptor: &IndexDescriptor) -> (reply: Result<(), BackendError>) {
        if self.descriptor.is_some() {
            return Err(BackendError::AlreadyExists);
        }
        if descriptor.retention().is_some() {
            return Err(
                BackendError::UnsupportedCapability { capability: BackendCapability::Ttl },
            );
        }
        let ghost state = self@;
        self.descriptor = Some(*descriptor);
        proof {
            assert(forall|key: u64| !#[trigger] state.records.contains_key(key));
            assert forall|bucket: BucketKey, key: u64| #[trigger]
                self.buckets.holds(bucket, key) <==> self@.in_bucket(bucket, key) by {
                assert(state.in_bucket(bucket, key) == self@.in_bucket(bucket, key));
            }
            assert(descriptor@.banded());
            assert(self@.descriptor == Some(descriptor@));
            assert(self@.records == state.records);
            assert(regular(self@));
            assert(mirrors(self.buckets, self@));
        }
        Ok(())
    }

    fn load_descriptor(&mut self) -> (reply: Result<IndexDescriptor, BackendError>) {
        match self.descriptor {
            Some(descriptor) => Ok(descriptor),
            None => Err(BackendError::NotFound),
        }
    }

    fn contains_many(&mut self, keys: &[u64]) -> (reply: Result<Vec<bool>, BackendError>) {
        let mut values: Vec<bool> = Vec::new();
        let mut index: usize = 0;
        while index < keys.len()
            invariant
                index <= keys@.len(),
                *self == *old(self),
                values@.len() == index,
                forall|i: int|
                    0 <= i < index ==> (#[trigger] values@[i]) == self@.records.contains_key(
                        keys@[i],
                    ),
            decreases keys@.len() - index,
        {
            values.push(self.records.contains_key(&keys[index]));
            index = index + 1;
        }
        assert(values@ =~= Seq::new(keys@.len(), |i: int| self@.records.contains_key(keys@[i])));
        Ok(values)
    }

    fn insert_many(&mut self, items: &[StoredItem]) -> (reply: Result<(), BackendError>) {
        let descriptor = match self.descriptor {
            Some(descriptor) => descriptor,
            None => {
                return Err(BackendError::NotFound);
            },
        };
        let ghost state = self@;
        let ghost views = contract::item_views(items@);
        match self.check_batch(descriptor.params().bands, items) {
            Ok(()) => {},
            Err(error) => {
                return Err(error);
            },
        }
        let mut index: usize = 0;
        assert(views.take(0) =~= Seq::empty());
        while index < items.len()
            invariant
                index <= items@.len(),
                views == contract::item_views(items@),
                self.wf(),
                state.descriptor is Some,
                state.first_error(views, items@.len()) is None,
                self@ == state.with_items(views.take(index as int)),
            decreases items@.len() - index,
        {
            proof {
                let done = views.take(index as int);
                let next = views.take(index + 1);
                assert(next.drop_last() =~= done);
                assert(next.last() == views[index as int]);
                lemma_keys_after_insertion(state, done);
                lemma_no_error(state, views, items@.len(), index as int);
                if exists|j: int|
                    0 <= j < done.len() && (#[trigger] done[j]).key == views[index as int].key {
                    let j = choose|j: int|
                        0 <= j < done.len() && (#[trigger] done[j]).key == views[index as int].key;
                    assert(views[j].key == views[index as int].key);
                    assert(false);
                }
            }
            self.insert_item(&items[index]);
            index = index + 1;
        }
        assert(views.take(index as int) =~= views);
        Ok(())
    }

    fn query_buckets(&mut self, buckets: &[BucketKey]) -> (reply: Result<
        Vec<Vec<u64>>,
        BackendError,
    >) {
        let mut rows: Vec<Vec<u64>> = Vec::new();
        let mut index: usize = 0;
        while index < buckets.len()
            invariant
                index <= buckets@.len(),
                *self == *old(self),
                self.wf(),
                rows@.len() == index,
                forall|i: int|
                    0 <= i < index ==> self@.is_row(buckets@[i], (#[trigger] rows@[i])@),
            decreases buckets@.len() - index,
        {
            let row = self.buckets.read(buckets[index]);
            assert(self@.is_row(buckets@[index as int], row@));
            rows.push(row);
            index = index + 1;
        }
        Ok(rows)
    }

    fn delete_many(&mut self, keys: &[u64]) -> (reply: Result<usize, BackendError>) {
        if self.descriptor.is_none() {
            return Err(BackendError::NotFound);
        }
        let ghost state = self@;
        let mut removed: usize = 0;
        let mut index: usize = 0;
        proof {
            assert(keys@.take(0).to_set() =~= Set::empty());
            assert(state.without(keys@.take(0)).records =~= state.records);
            assert(state.present(keys@.take(0)) =~= Set::empty());
            assert(state.records.dom() =~= self.records@.dom());
        }
        let size: usize = keys.len();
        while index < size
            invariant
                index <= size == keys@.len(),
                self.wf(),
                self@ == state.without(keys@.take(index as int)),
                removed == state.present(keys@.take(index as int)).len(),
                removed <= index,
                state.records.dom().finite(),
            decreases size - index,
        {
            let key: u64 = keys[index];
            proof {
                let done = keys@.take(index as int);
                let next = keys@.take(index + 1);
                assert(next.to_set() =~= done.to_set().insert(key)) by {
                    assert forall|k: u64| next.to_set().contains(k) <==> done.to_set().insert(
                        key,
                    ).contains(k) by {
                        if next.contains(k) {
                            let j = choose|j: int| 0 <= j < next.len() && next[j] == k;
                            if j < index {
                                assert(done[j] == k);
                            }
                        }
                        if done.contains(k) {
                            let j = choose|j: int| 0 <= j < done.len() && done[j] == k;
                            assert(next[j] == k);
                        }
                        assert(next[index as int] == key);
                    }
                }
                assert(self@.records.remove(key) =~= state.without(next).records);
                if self@.records.contains_key(key) {
                    assert(state.present(next) =~= state.present(done).insert(key));
                } else {
                    assert(state.present(next) =~= state.present(done));
                }
            }
            if self.delete_key(key) {
                removed = removed + 1;
            }
            index = index + 1;
        }
        assert(keys@.take(index as int) =~= keys@);
        Ok(removed)
    }

    fn flush(&mut self) -> (reply: Result<(), BackendError>) {
        if self.descriptor.is_none() {
            return Err(BackendError::NotFound);
        }
        Ok(())
    }

    fn health(&mut self) -> (reply: Result<(), BackendError>) {
        Ok(())
    }

    fn stats(&mut self) -> (reply: Result<BackendStats, BackendError>) {
        if self.descriptor.is_none() {
            return Err(BackendError::NotFound);
        }
        let sizes = self.buckets.sizes();
        proof {
            let keys = choose|keys: Seq<BucketKey>| #[trigger] self.buckets.are_sizes(keys, sizes@);
            lemma_sizes(self.buckets, self@, keys, sizes@);
            assert(self@.are_sizes(keys, sizes@));
            assert(self@.records.dom() =~= self.records@.dom());
        }
        let mut memberships: u64 = 0;
        let mut index: usize = 0;
        assert(sizes@.take(0) =~= Seq::empty());
        while index < sizes.len()
            invariant
                index <= sizes@.len(),
                *self == *old(self),
                self.wf(),
                memberships == sum(sizes@.take(index as int)),
                exists|keys: Seq<BucketKey>| #[trigger] self@.are_sizes(keys, sizes@),
                self@.descriptor is Some,
            decreases sizes@.len() - index,
        {
            proof {
                let next = sizes@.take(index + 1);
                assert(next.drop_last() =~= sizes@.take(index as int));
                assert(next.last() == sizes@[index as int]);
            }
            memberships = match memberships.checked_add(sizes[index] as u64) {
                Some(total) => total,
                None => {
                    proof {
                        lemma_sum_grows(sizes@, index + 1);
                        let keys = choose|keys: Seq<BucketKey>| #[trigger]
                            self@.are_sizes(keys, sizes@);
                        assert(self@.are_sizes(keys, sizes@));
                        assert(self@.counted(
                            sizes@,
                            Err::<BackendStats, BackendError>(BackendError::LengthOverflow),
                        ));
                    }
                    return Err(BackendError::LengthOverflow);
                },
            };
            index = index + 1;
        }
        assert(sizes@.take(index as int) =~= sizes@);
        let stats = BackendStats {
            items: self.records.len() as u64,
            bucket_memberships: memberships,
            round_trips: 0,
            ttl_seconds_remaining: None,
            bucket_distribution: Some(BucketDistribution::from_sizes(sizes.as_slice())),
            queries: None,
        };
        proof {
            assert(self@.records.dom() =~= self.records@.dom());
            let keys = choose|keys: Seq<BucketKey>| #[trigger] self@.are_sizes(keys, sizes@);
            assert(self@.are_sizes(keys, sizes@));
            assert(self@.counted(sizes@, Ok::<BackendStats, BackendError>(stats)));
        }
        Ok(stats)
    }

    fn cleanup(&mut self) -> (reply: Result<(), BackendError>) {
        self.descriptor = None;
        self.records = HashMap::new();
        self.buckets = BucketTable::new();
        assert(self@.records =~= Map::empty());
        Ok(())
    }
}

proof fn lemma_sizes(
    table: BucketTable,
    state: MemoryState,
    keys: Seq<BucketKey>,
    sizes: Seq<usize>,
)
    requires
        mirrors(table, state),
        table.are_sizes(keys, sizes),
    ensures
        state.are_sizes(keys, sizes),
{
    assert forall|bucket: BucketKey| keys.contains(bucket) <==> #[trigger] state.occupied(bucket) by {
        if state.occupied(bucket) {
            let key = choose|key: u64| #[trigger] state.in_bucket(bucket, key);
            assert(table.holds(bucket, key));
            assert(table.occupied(bucket));
        }
        if table.occupied(bucket) {
            let key = choose|key: u64| #[trigger] table.holds(bucket, key);
            assert(state.in_bucket(bucket, key));
        }
        assert(keys.contains(bucket) <==> table.occupied(bucket));
    }
    assert forall|i: int| 0 <= i < sizes.len() implies (#[trigger] sizes[i]) == state.members(
        keys[i],
    ).len() by {
        assert(state.members(keys[i]) =~= table.members(keys[i]));
    }
}

proof fn lemma_sum_grows(sizes: Seq<usize>, upto: int)
    requires
        0 <= upto <= sizes.len(),
    ensures
        sum(sizes.take(upto)) <= sum(sizes),
    decreases sizes.len() - upto,
{
    if upto < sizes.len() {
        lemma_sum_grows(sizes, upto + 1);
        let next = sizes.take(upto + 1);
        assert(next.drop_last() =~= sizes.take(upto));
    } else {
        assert(sizes.take(upto) =~= sizes);
    }
}

} // verus!
