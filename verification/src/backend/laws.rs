//! What holds of shared storage whatever it went through: what an insertion and a deletion
//! change, which batches are taken, and which buckets a query reads.

use vstd::prelude::*;

use crate::backend::contract::{Item, StorageBackend};
use crate::backend::descriptor;
use crate::backend::descriptor::{Descriptor, Retention};
use crate::backend::error::{BackendError, BackendIndexError};
use crate::backend::index;
use crate::backend::index::BackendIndex32;
use crate::backend::memory;
use crate::backend::memory::MemoryState;
use crate::backend::query;
use crate::format::buckets::BucketKey;
use crate::index::params;
use crate::le;
use crate::order;
use crate::sketch::minhash32::{MinHash32, Sketch32};

verus! {

proof fn lemma_item(state: MemoryState, items: Seq<Item>, index: int)
    requires
        0 <= index < items.len(),
        forall|i: int, j: int|
            0 <= i < j < items.len() ==> (#[trigger] items[i]).key != (#[trigger] items[j]).key,
    ensures
        state.with_items(items).records[items[index].key] == items[index].hashes,
    decreases items.len(),
{
    let front = items.drop_last();
    if index < front.len() {
        assert forall|i: int, j: int| 0 <= i < j < front.len() implies (
        #[trigger] front[i]).key != (#[trigger] front[j]).key by {
            assert(items[i].key != items[j].key);
        }
        lemma_item(state, front, index);
        assert(front[index] == items[index]);
        assert(items[index].key != items[items.len() - 1].key);
    }
}

proof fn lemma_other(state: MemoryState, items: Seq<Item>, key: u64)
    requires
        forall|j: int| 0 <= j < items.len() ==> (#[trigger] items[j]).key != key,
    ensures
        state.with_items(items).records[key] == state.records[key],
    decreases items.len(),
{
    if items.len() > 0 {
        let front = items.drop_last();
        assert forall|j: int| 0 <= j < front.len() implies (#[trigger] front[j]).key != key by {
            assert(items[j].key != key);
        }
        lemma_other(state, front, key);
        assert(items[items.len() - 1].key != key);
    }
}

/// After an insertion the stored keys are those that were stored and those of the items.
/// Each item has its own hashes, and every other key the hashes that it had.
pub proof fn law_storing_adds_the_items(state: MemoryState, items: Seq<Item>)
    requires
        forall|i: int, j: int|
            0 <= i < j < items.len() ==> (#[trigger] items[i]).key != (#[trigger] items[j]).key,
    ensures
        state.with_items(items).descriptor == state.descriptor,
        forall|key: u64| #[trigger]
            state.with_items(items).records.contains_key(key) == (state.records.contains_key(key)
                || exists|j: int| 0 <= j < items.len() && (#[trigger] items[j]).key == key),
        forall|j: int|
            0 <= j < items.len() ==> state.with_items(items).records[(#[trigger] items[j]).key]
                == items[j].hashes,
        forall|key: u64|
            (forall|j: int| 0 <= j < items.len() ==> (#[trigger] items[j]).key != key)
                ==> #[trigger] state.with_items(items).records[key] == state.records[key],
{
    memory::lemma_keys_after_insertion(state, items);
    assert forall|j: int| 0 <= j < items.len() implies state.with_items(items).records[(
    #[trigger] items[j]).key] == items[j].hashes by {
        lemma_item(state, items, j);
    }
    assert forall|key: u64|
        (forall|j: int| 0 <= j < items.len() ==> (#[trigger] items[j]).key != key) implies #[trigger] state.with_items(
        items,
    ).records[key] == state.records[key] by {
        lemma_other(state, items, key);
    }
}

/// A deletion takes the named keys and nothing else, and the keys that it counts are those
/// that were stored and named.
pub proof fn law_deleting_takes_the_keys(state: MemoryState, keys: Seq<u64>, key: u64)
    ensures
        state.without(keys).descriptor == state.descriptor,
        state.without(keys).records.contains_key(key) == (state.records.contains_key(key)
            && !keys.contains(key)),
        state.records.contains_key(key) && !keys.contains(key) ==> state.without(keys).records[key]
            == state.records[key],
        state.present(keys).contains(key) == (state.records.contains_key(key) && keys.contains(
            key,
        )),
{
    assert(keys.to_set().contains(key) == keys.contains(key));
}

proof fn lemma_errors(state: MemoryState, items: Seq<Item>, upto: nat)
    requires
        upto <= items.len(),
    ensures
        state.first_error(items, upto) is None == forall|i: int|
            #![trigger items[i]]
            0 <= i < upto ==> state.item_error(items, i) is None,
    decreases upto,
{
    if upto > 0 {
        lemma_errors(state, items, (upto - 1) as nat);
        if state.first_error(items, upto) is Some && state.first_error(
            items,
            (upto - 1) as nat,
        ) is None {
            assert(state.item_error(items, upto - 1) is Some);
            assert(items[upto - 1] == items[upto - 1]);
        }
    }
}

/// A batch is stored exactly where the namespace is initialized, every item has one hash
/// for each band, and no key is stored already or occurs twice.
pub proof fn law_which_batches_are_stored(state: MemoryState, items: Seq<Item>)
    ensures
        state.batch_error(items) is None == (state.descriptor is Some && (forall|i: int|
            0 <= i < items.len() ==> (#[trigger] items[i]).hashes.len()
                == state.descriptor->0.params.bands && !state.records.contains_key(items[i].key))
            && (forall|i: int, j: int|
            0 <= i < j < items.len() ==> (#[trigger] items[i]).key != (#[trigger] items[j]).key)),
{
    lemma_errors(state, items, items.len());
    if state.batch_error(items) is None {
        assert forall|i: int| 0 <= i < items.len() implies (#[trigger] items[i]).hashes.len()
            == state.descriptor->0.params.bands && !state.records.contains_key(items[i].key) by {
            assert(state.item_error(items, i) is None);
        }
        assert forall|i: int, j: int| 0 <= i < j < items.len() implies (
        #[trigger] items[i]).key != (#[trigger] items[j]).key by {
            assert(state.item_error(items, j) is None);
        }
    } else if state.descriptor is Some {
        let i = choose|i: int|
            #![trigger items[i]]
            0 <= i < items.len() && state.item_error(items, i) is Some;
        assert(items[i] == items[i]);
    }
}

/// A bucket row lists in ascending order, each once, the stored keys that have the hash of
/// the bucket in its band.
pub proof fn law_rows_list_the_bucket(state: MemoryState, bucket: BucketKey, row: Seq<u64>)
    requires
        state.is_row(bucket, row),
    ensures
        forall|i: int, j: int| 0 <= i < j < row.len() ==> row[i] < row[j],
        forall|key: u64| #[trigger]
            row.contains(key) == (state.records.contains_key(key) && bucket.band
                < state.records[key].len() && state.records[key][bucket.band as int]
                == bucket.hash),
{
}

/// The sum of sizes.
pub proof fn law_sizes_add_up(sizes: Seq<usize>)
    ensures
        memory::sum(sizes) == sizes.fold_left(0nat, |sum: nat, size: usize| sum + size as nat),
    decreases sizes.len(),
{
    if sizes.len() > 0 {
        law_sizes_add_up(sizes.drop_last());
    }
}

/// Leaving out repetitions keeps every bucket once.
pub proof fn law_distinct_buckets(keys: Seq<BucketKey>)
    ensures
        query::distinct(keys).no_duplicates(),
        query::distinct(keys).to_set() == keys.to_set(),
        forall|key: BucketKey| #[trigger] query::distinct(keys).contains(key) == keys.contains(key),
    decreases keys.len(),
{
    let found = query::distinct(keys);
    if keys.len() > 0 {
        let rest = keys.drop_last();
        law_distinct_buckets(rest);
        let front = query::distinct(rest);
        assert forall|key: BucketKey| #[trigger] found.contains(key) == keys.contains(key) by {
            assert(front.contains(key) == rest.contains(key));
            if keys.contains(key) {
                let i = choose|i: int| 0 <= i < keys.len() && keys[i] == key;
                if i < rest.len() {
                    assert(rest[i] == key);
                    let k = choose|k: int| 0 <= k < front.len() && front[k] == key;
                    assert(found[k] == key);
                } else {
                    assert(key == keys.last());
                    if !front.contains(key) {
                        assert(found[front.len() as int] == key);
                    }
                }
            }
            if found.contains(key) {
                let i = choose|i: int| 0 <= i < found.len() && found[i] == key;
                if i < front.len() {
                    assert(front[i] == key);
                    let k = choose|k: int| 0 <= k < rest.len() && rest[k] == key;
                    assert(keys[k] == key);
                } else {
                    assert(keys[keys.len() - 1] == key);
                }
            }
        }
        if !front.contains(keys.last()) {
            assert forall|i: int, j: int| 0 <= i < j < found.len() implies found[i] != found[j] by {
                if j == front.len() {
                    assert(front.contains(front[i]));
                }
            }
        }
    }
    assert forall|key: BucketKey| found.to_set().contains(key) == keys.to_set().contains(key) by {
        assert(found.contains(key) == keys.contains(key));
    }
    assert(found.to_set() =~= keys.to_set());
}

proof fn lemma_all_buckets(
    descriptor: Descriptor,
    sketches: Seq<Sketch32>,
    q: int,
    band: int,
)
    requires
        0 <= q < sketches.len(),
        0 <= band < descriptor.params.bands,
    ensures
        query::all_buckets(descriptor, sketches).contains(
            BucketKey {
                band: band as u32,
                hash: params::spec_band_hashes(sketches[q].values, descriptor.params)[band],
            },
        ),
    decreases sketches.len(),
{
    let front = query::all_buckets(descriptor, sketches.drop_last());
    let last = query::sketch_buckets(descriptor, sketches.last());
    let all = query::all_buckets(descriptor, sketches);
    let wanted = BucketKey {
        band: band as u32,
        hash: params::spec_band_hashes(sketches[q].values, descriptor.params)[band],
    };
    assert(all == front + last);
    if q < sketches.len() - 1 {
        lemma_all_buckets(descriptor, sketches.drop_last(), q, band);
        let k = choose|k: int| 0 <= k < front.len() && front[k] == wanted;
        assert(all[k] == wanted);
    } else {
        assert(last[band] == wanted);
        assert(all[front.len() + band] == wanted);
    }
}

/// A plan reads, for every query, the bucket of its hash in every band, and reads no
/// bucket twice.
pub proof fn law_every_band_is_read(
    descriptor: Descriptor,
    sketches: Seq<Sketch32>,
    plan: query::QueryPlan,
    q: int,
    band: int,
)
    requires
        plan.serves(descriptor, sketches),
        0 <= q < sketches.len(),
        0 <= band < descriptor.params.bands,
    ensures
        plan.buckets@.no_duplicates(),
        plan.positions@.len() == sketches.len(),
        plan.positions@[q]@.len() == descriptor.params.bands,
        plan.positions@[q]@[band] < plan.buckets@.len(),
        plan.buckets@[plan.positions@[q]@[band] as int] == (BucketKey {
            band: band as u32,
            hash: params::spec_band_hashes(sketches[q].values, descriptor.params)[band],
        }),
{
    law_distinct_buckets(query::all_buckets(descriptor, sketches));
    lemma_all_buckets(descriptor, sketches, q, band);
    let wanted = query::sketch_buckets(descriptor, sketches[q]);
    assert(query::points_to(plan.positions@[q]@, plan.buckets@, wanted));
    assert(wanted[band] == (BucketKey {
        band: band as u32,
        hash: params::spec_band_hashes(sketches[q].values, descriptor.params)[band],
    }));
}

/// An answer that is put together lists in ascending order, each once, the keys of all
/// the rows that its query reads.
pub proof fn law_gathered_keys(positions: Seq<usize>, rows: Seq<Vec<u64>>, keys: Seq<u64>)
    requires
        query::is_gathered(positions, rows, keys),
    ensures
        forall|i: int, j: int| 0 <= i < j < keys.len() ==> keys[i] < keys[j],
        forall|band: int, k: int|
            0 <= band < positions.len() && 0 <= k < rows[positions[band] as int]@.len()
                ==> keys.contains(#[trigger] rows[positions[band] as int]@[k]),
        forall|key: u64| #[trigger]
            keys.contains(key) ==> exists|band: int|
                0 <= band < positions.len() && rows[#[trigger] positions[band] as int]@.contains(
                    key,
                ),
{
    assert forall|band: int, k: int|
        0 <= band < positions.len() && 0 <= k < rows[positions[band] as int]@.len() implies keys.contains(
        #[trigger] rows[positions[band] as int]@[k],
    ) by {
        assert(rows[positions[band] as int]@.contains(rows[positions[band] as int]@[k]));
    }
}

proof fn lemma_total_keys(answers: Seq<Vec<u64>>, count: nat)
    requires
        count <= answers.len(),
    ensures
        ({
            let sum = answers.take(count as int).fold_left(
                0nat,
                |sum: nat, answer: Vec<u64>| sum + answer@.len(),
            );
            &&& sum <= usize::MAX ==> query::total_keys(answers, count) == sum
            &&& sum > usize::MAX ==> query::total_keys(answers, count) == usize::MAX
        }),
    decreases count,
{
    let part = answers.take(count as int);
    if count > 0 {
        lemma_total_keys(answers, (count - 1) as nat);
        assert(part.drop_last() =~= answers.take(count - 1));
        assert(part.last() == answers[count - 1]);
    }
}

/// The keys that are counted are those of all answers, as far as a `usize` can tell.
pub proof fn law_answers_are_counted(answers: Seq<Vec<u64>>)
    ensures
        ({
            let sum = answers.fold_left(
                0nat,
                |sum: nat, answer: Vec<u64>| sum + answer@.len(),
            );
            &&& sum <= usize::MAX ==> query::total_keys(answers, answers.len()) == sum
            &&& sum > usize::MAX ==> query::total_keys(answers, answers.len()) == usize::MAX
        }),
{
    lemma_total_keys(answers, answers.len());
    assert(answers.take(answers.len() as int) =~= answers);
}

proof fn lemma_batch_errors(descriptor: Descriptor, batch: Seq<(u64, Sketch32)>, upto: nat)
    requires
        upto <= batch.len(),
    ensures
        query::batch_error(descriptor, batch, upto) is None == forall|i: int|
            #![trigger batch[i]]
            0 <= i < upto ==> query::item_error(descriptor, batch, i) is None,
    decreases upto,
{
    if upto > 0 {
        lemma_batch_errors(descriptor, batch, (upto - 1) as nat);
        if query::batch_error(descriptor, batch, upto) is Some && query::batch_error(
            descriptor,
            batch,
            (upto - 1) as nat,
        ) is None {
            assert(query::item_error(descriptor, batch, upto - 1) is Some);
            assert(batch[upto - 1] == batch[upto - 1]);
        }
    }
}

/// A batch is prepared exactly where no key occurs twice in it and every sketch has the
/// seed and the length that the descriptor names. An item then has its key and the band
/// hashes of its sketch.
pub proof fn law_which_batches_are_prepared(descriptor: Descriptor, batch: Seq<(u64, Sketch32)>)
    ensures
        query::batch_error(descriptor, batch, batch.len()) is None == ((forall|i: int|
            0 <= i < batch.len() ==> (#[trigger] batch[i]).1.seed == descriptor.seed
                && batch[i].1.values.len() == descriptor.num_perm) && (forall|i: int, j: int|
            0 <= i < j < batch.len() ==> (#[trigger] batch[i]).0 != (#[trigger] batch[j]).0)),
        query::batch_items(descriptor, batch).len() == batch.len(),
        forall|i: int|
            0 <= i < batch.len() ==> (#[trigger] query::batch_items(descriptor, batch)[i]).key
                == batch[i].0 && query::batch_items(descriptor, batch)[i].hashes
                == params::spec_band_hashes(batch[i].1.values, descriptor.params),
{
    lemma_batch_errors(descriptor, batch, batch.len());
    if query::batch_error(descriptor, batch, batch.len()) is None {
        assert forall|i: int| 0 <= i < batch.len() implies (#[trigger] batch[i]).1.seed
            == descriptor.seed && batch[i].1.values.len() == descriptor.num_perm by {
            assert(query::item_error(descriptor, batch, i) is None);
        }
        assert forall|i: int, j: int| 0 <= i < j < batch.len() implies (#[trigger] batch[i]).0 != (
        #[trigger] batch[j]).0 by {
            assert(query::item_error(descriptor, batch, j) is None);
        }
    } else {
        let i = choose|i: int|
            #![trigger batch[i]]
            0 <= i < batch.len() && query::item_error(descriptor, batch, i) is Some;
        assert(batch[i] == batch[i]);
    }
}

/// A retention is valid exactly with whole seconds, at least one and no more than the
/// bound, and a descriptor exactly with a valid configuration and retention.
pub proof fn law_which_descriptors_are_valid(given: Descriptor, span: Retention)
    ensures
        span.valid() == (span.nanos == 0 && 1 <= span.seconds
            <= descriptor::MAX_RETENTION_SECONDS),
        given.valid() == (params::configuration_error(
            given.threshold,
            given.num_perm,
            given.params,
        ) is None && (given.retention matches Some(own) ==> own.valid())),
{
}

/// What a descriptor that is read says stands at its place.
pub proof fn law_read_descriptors_are_sound(bytes: Seq<u8>)
    requires
        descriptor::decoded(bytes) is Ok,
    ensures
        ({
            let found = descriptor::decoded(bytes)->Ok_0;
            &&& bytes.len() == 56
            &&& found.valid()
            &&& le::u64_at(bytes, 8) == found.threshold.bits
            &&& le::u64_at(bytes, 16) == found.num_perm
            &&& le::u64_at(bytes, 24) == found.seed
            &&& le::u64_at(bytes, 32) == found.params.bands
            &&& le::u64_at(bytes, 40) == found.params.rows
            &&& found.retention matches Some(span) ==> le::u64_at(bytes, 48) == span.seconds
        }),
{
}

/// An insertion that succeeds stores every item of its batch, with its key and the hashes
/// of its bands, in the order of the batch; every sketch belongs to the index and no key
/// comes twice. The known number of items grows by the length of the batch.
pub proof fn law_insertions_store_every_item<B: StorageBackend>(
    before: BackendIndex32<B>,
    after: BackendIndex32<B>,
    batch: Seq<(u64, Sketch32)>,
    result: Result<(), BackendIndexError>,
) -> (passed: (Seq<Item>, Result<(), BackendError>))
    requires
        index::is_insertion(before, after, batch, result),
        result is Ok,
    ensures
        before.store().stores(passed.0, passed.1, after.store()),
        passed.1 is Ok,
        passed.0.len() == batch.len(),
        forall|i: int|
            0 <= i < batch.len() ==> (#[trigger] passed.0[i]).key == batch[i].0 && passed.0[i].hashes
                == params::spec_band_hashes(batch[i].1.values, before.told().params),
        forall|i: int|
            0 <= i < batch.len() ==> (#[trigger] batch[i]).1.seed == before.told().seed
                && batch[i].1.values.len() == before.told().num_perm,
        forall|i: int, j: int|
            0 <= i < j < batch.len() ==> (#[trigger] batch[i]).0 != (#[trigger] batch[j]).0,
        before.known() is None ==> after.known() is None,
        before.known() matches Some(known) ==> after.known() matches Some(now) && (now == known
            + batch.len() || (now == usize::MAX && known + batch.len() > usize::MAX)),
{
    law_which_batches_are_prepared(before.told(), batch);
    let reply = choose|reply: Result<(), BackendError>| #[trigger]
        index::insertion_passed_on(before, after, batch, reply, result);
    (query::batch_items(before.told(), batch), reply)
}

/// A batch that holds a key twice or a sketch that does not belong to the index changes
/// nothing.
pub proof fn law_rejected_insertions_change_nothing<B: StorageBackend>(
    before: BackendIndex32<B>,
    after: BackendIndex32<B>,
    batch: Seq<(u64, Sketch32)>,
    result: Result<(), BackendIndexError>,
)
    requires
        index::is_insertion(before, after, batch, result),
        (exists|i: int|
            0 <= i < batch.len() && ((#[trigger] batch[i]).1.seed != before.told().seed
                || batch[i].1.values.len() != before.told().num_perm)) || (exists|i: int, j: int|
            0 <= i < j < batch.len() && (#[trigger] batch[i]).0 == (#[trigger] batch[j]).0),
    ensures
        result is Err,
        after == before,
{
    law_which_batches_are_prepared(before.told(), batch);
}

/// A removal that succeeds asks the storage for every given key, each once, in ascending
/// order, and gives how many of them it removed. The known number of items falls by as
/// many.
pub proof fn law_removals_ask_for_every_key<B: StorageBackend>(
    before: BackendIndex32<B>,
    after: BackendIndex32<B>,
    keys: Seq<u64>,
    result: Result<usize, BackendIndexError>,
) -> (asked: Seq<u64>)
    requires
        index::is_removal(before, after, keys, result),
        result is Ok,
    ensures
        before.store().deletes(asked, Ok(result->Ok_0), after.store()),
        forall|i: int, j: int| 0 <= i < j < asked.len() ==> asked[i] < asked[j],
        forall|key: u64| #[trigger] asked.contains(key) == keys.contains(key),
        before.known() is None ==> after.known() is None,
        before.known() matches Some(known) ==> after.known() matches Some(now) && (now
            == known - result->Ok_0 || (now == 0 && known < result->Ok_0)),
{
    let (asked, reply) = choose|asked: Seq<u64>, reply: Result<usize, BackendError>|
        order::increasing(asked) && asked.to_set() == keys.to_set() && #[trigger]
            index::removal_passed_on(before, after, asked, reply, result);
    assert forall|key: u64| #[trigger] asked.contains(key) == keys.contains(key) by {
        assert(asked.to_set().contains(key) == keys.to_set().contains(key));
    }
    asked
}

/// The removal of one key asks the storage for that key alone, and tells whether it was
/// removed. The known number of items falls by one where it was.
pub proof fn law_key_removals_tell_what_was_removed<B: StorageBackend>(
    before: BackendIndex32<B>,
    after: BackendIndex32<B>,
    key: u64,
    result: Result<bool, BackendIndexError>,
) -> (removed: usize)
    requires
        index::is_key_removal(before, after, key, result),
        result is Ok,
    ensures
        before.store().deletes(seq![key], Ok(removed), after.store()),
        result->Ok_0 == (removed == 1),
        before.known() is None ==> after.known() is None,
        before.known() matches Some(known) ==> after.known() == Some(
            if removed == 1 && known > 0 {
                (known - 1) as usize
            } else {
                known
            },
        ),
{
    let reply = choose|reply: Result<usize, BackendError>| #[trigger]
        index::key_removal_passed_on(before, after, key, reply, result);
    reply->Ok_0
}

/// What an index says of keys is what the storage says, one answer for each key.
pub proof fn law_keys_are_told_one_by_one<B: StorageBackend>(
    before: BackendIndex32<B>,
    after: BackendIndex32<B>,
    keys: Seq<u64>,
    result: Result<Vec<bool>, BackendIndexError>,
)
    requires
        index::is_telling(before, after, keys, result),
        result is Ok,
    ensures
        before.store().tells(keys, Ok(result->Ok_0), after.store()),
        result->Ok_0@.len() == keys.len(),
        after.known() == before.known(),
{
}

/// Storage that was asked for buckets gave a key for one of them.
pub open spec fn gave(
    buckets: Seq<BucketKey>,
    rows: Seq<Vec<u64>>,
    bucket: BucketKey,
    key: u64,
) -> bool {
    exists|i: int| 0 <= i < buckets.len() && #[trigger] buckets[i] == bucket && rows[i]@.contains(key)
}

/// A request that succeeds has one answer for each of its sketches. The storage is asked
/// for buckets, each once, and an answer lists in ascending order, each once, exactly the
/// keys that the storage gave for the bucket of some band of its sketch.
#[verifier::spinoff_prover]
#[verifier::rlimit(40)]
pub proof fn law_queries_read_every_band<B: StorageBackend>(
    before: BackendIndex32<B>,
    after: BackendIndex32<B>,
    sketches: Seq<&MinHash32>,
    result: Result<Vec<Vec<u64>>, BackendIndexError>,
    q: int,
) -> (read: (Seq<BucketKey>, Vec<Vec<u64>>))
    requires
        index::is_query(before, after, sketches, result),
        result is Ok,
        0 <= q < sketches.len(),
    ensures
        before.store().finds(read.0, Ok(read.1), after.store()),
        read.0.no_duplicates(),
        read.1@.len() == read.0.len(),
        result->Ok_0@.len() == sketches.len(),
        sketches[q]@.seed == before.told().seed,
        sketches[q]@.values.len() == before.told().num_perm,
        forall|key: u64| #[trigger]
            result->Ok_0@[q]@.contains(key) == exists|band: int|
                0 <= band < before.told().params.bands && gave(
                    read.0,
                    read.1@,
                    BucketKey {
                        band: band as u32,
                        hash: #[trigger] params::spec_band_hashes(
                            sketches[q]@.values,
                            before.told().params,
                        )[band],
                    },
                    key,
                ),
        forall|i: int, j: int|
            0 <= i < j < result->Ok_0@[q]@.len() ==> result->Ok_0@[q]@[i] < result->Ok_0@[q]@[j],
{
    let views = query::sketch_views(sketches);
    let told = before.told();
    query::law_requests_hold_every_sketch(sketches);
    query::law_which_requests_are_taken(told, views, views.len());
    assert(views[q] == sketches[q]@);
    let (plan, reply) = choose|
        plan: query::QueryPlan,
        reply: Result<Vec<Vec<u64>>, BackendError>,
    | #[trigger]
        index::queries_passed_on(before, after, views, plan, reply, result);
    let rows = reply->Ok_0;
    law_distinct_buckets(query::all_buckets(told, views));
    let positions = plan.positions@[q]@;
    let keys = result->Ok_0@[q]@;
    let hashes = params::spec_band_hashes(sketches[q]@.values, told.params);
    assert(query::is_gathered(positions, rows@, keys));
    assert(query::points_to(positions, plan.buckets@, query::sketch_buckets(told, views[q])));
    assert forall|key: u64| #[trigger]
        keys.contains(key) == exists|band: int|
            0 <= band < told.params.bands && gave(
                plan.buckets@,
                rows@,
                BucketKey { band: band as u32, hash: #[trigger] hashes[band] },
                key,
            ) by {
        if keys.contains(key) {
            let band = choose|band: int|
                0 <= band < positions.len() && rows@[#[trigger] positions[band] as int]@.contains(
                    key,
                );
            law_every_band_is_read(told, views, plan, q, band);
            assert(plan.buckets@[positions[band] as int] == (BucketKey {
                band: band as u32,
                hash: hashes[band],
            }));
            assert(gave(
                plan.buckets@,
                rows@,
                BucketKey { band: band as u32, hash: hashes[band] },
                key,
            ));
        }
        if exists|band: int|
            0 <= band < told.params.bands && gave(
                plan.buckets@,
                rows@,
                BucketKey { band: band as u32, hash: #[trigger] hashes[band] },
                key,
            ) {
            let band = choose|band: int|
                0 <= band < told.params.bands && gave(
                    plan.buckets@,
                    rows@,
                    BucketKey { band: band as u32, hash: #[trigger] hashes[band] },
                    key,
                );
            let bucket = BucketKey { band: band as u32, hash: hashes[band] };
            let i = choose|i: int|
                0 <= i < plan.buckets@.len() && #[trigger] plan.buckets@[i] == bucket
                    && rows@[i]@.contains(key);
            law_every_band_is_read(told, views, plan, q, band);
            assert(plan.buckets@[positions[band] as int] == plan.buckets@[i]);
            assert(positions[band] == i);
            assert(keys.contains(key));
        }
    }
    (plan.buckets@, rows)
}

} // verus!
