//! The in-process backend and the in-memory index agree.

use vstd::prelude::*;

use crate::backend::contract::Item;
use crate::backend::memory;
use crate::backend::memory::MemoryState;
use crate::backend::query;
use crate::backend::query::QueryPlan;
use crate::format::buckets::BucketKey;
use crate::index::lsh::LshState;
use crate::sketch::minhash32::Sketch32;

verus! {

/// The keys of a batch.
pub open spec fn keys_of(items: Seq<Item>) -> Seq<u64> {
    Seq::new(items.len(), |i: int| items[i].key)
}

proof fn lemma_other_records(state: MemoryState, items: Seq<Item>, key: u64)
    requires
        forall|j: int| 0 <= j < items.len() ==> (#[trigger] items[j]).key != key,
    ensures
        state.with_items(items).records.contains_key(key) == state.records.contains_key(key),
        state.with_items(items).records[key] == state.records[key],
    decreases items.len(),
{
    if items.len() > 0 {
        let front = items.drop_last();
        assert forall|j: int| 0 <= j < front.len() implies (#[trigger] front[j]).key != key by {
            assert(items[j].key != key);
        }
        lemma_other_records(state, front, key);
        assert(items[items.len() - 1].key != key);
    }
}

proof fn lemma_no_duplicates(state: MemoryState, items: Seq<Item>, upto: nat)
    requires
        upto <= items.len(),
        state.first_error(items, upto) is None,
    ensures
        forall|i: int| 0 <= i < upto ==> !state.records.contains_key((#[trigger] items[i]).key),
        forall|i: int, j: int|
            0 <= i < j < upto ==> (#[trigger] items[i]).key != (#[trigger] items[j]).key,
    decreases upto,
{
    if upto > 0 {
        lemma_no_duplicates(state, items, (upto - 1) as nat);
        assert(state.item_error(items, upto - 1) is None);
    }
}

/// Deleting the keys of a batch that was inserted gives the state back that
/// was there before.
pub proof fn law_delete_undoes_insert(state: MemoryState, items: Seq<Item>)
    requires
        state.batch_error(items) is None,
    ensures
        state.with_items(items).without(keys_of(items)) == state,
{
    let keys = keys_of(items);
    let after = state.with_items(items).without(keys);
    lemma_no_duplicates(state, items, items.len());
    memory::lemma_keys_after_insertion(state, items);
    assert forall|key: u64|
        #![trigger after.records[key]]
        #![trigger after.records.dom().contains(key)]
        after.records.dom().contains(key) == state.records.dom().contains(key) && (
        state.records.dom().contains(key) ==> after.records[key] == state.records[key]) by {
        if exists|j: int| 0 <= j < items.len() && (#[trigger] items[j]).key == key {
            let j = choose|j: int| 0 <= j < items.len() && (#[trigger] items[j]).key == key;
            assert(keys[j] == key);
            assert(keys.to_set().contains(key));
            assert(!state.records.contains_key(items[j].key));
        } else {
            lemma_other_records(state, items, key);
            if keys.contains(key) {
                let j = choose|j: int| 0 <= j < keys.len() && keys[j] == key;
                assert(items[j].key == key);
            }
        }
    }
    assert(after.records.dom() =~= state.records.dom());
    assert(after.records =~= state.records);
}

/// A record that was inserted is in the bucket of each of its bands.
pub proof fn law_insert_is_found(state: MemoryState, items: Seq<Item>, at: int, band: int)
    requires
        state.batch_error(items) is None,
        0 <= at < items.len(),
        0 <= band < items[at].hashes.len() <= u32::MAX,
    ensures
        state.with_items(items).in_bucket(
            BucketKey { band: band as u32, hash: items[at].hashes[band] },
            items[at].key,
        ),
{
    lemma_no_duplicates(state, items, items.len());
    lemma_inserted(state, items, at);
}

proof fn lemma_inserted(state: MemoryState, items: Seq<Item>, at: int)
    requires
        0 <= at < items.len(),
        forall|i: int, j: int|
            0 <= i < j < items.len() ==> (#[trigger] items[i]).key != (#[trigger] items[j]).key,
    ensures
        state.with_items(items).records.contains_key(items[at].key),
        state.with_items(items).records[items[at].key] == items[at].hashes,
    decreases items.len(),
{
    let front = items.drop_last();
    if at < front.len() {
        assert forall|i: int, j: int| 0 <= i < j < front.len() implies (#[trigger] front[i]).key
            != (#[trigger] front[j]).key by {
            assert(items[i].key != items[j].key);
        }
        lemma_inserted(state, front, at);
        assert(front[at] == items[at]);
        assert(items[at].key != items[items.len() - 1].key);
    }
}

/// The backend and the index have the same configuration and the same items.
pub open spec fn agree(state: MemoryState, index: LshState) -> bool {
    &&& state.descriptor is Some
    &&& state.descriptor->0.banded()
    &&& state.descriptor->0.seed == index.seed
    &&& state.descriptor->0.num_perm == index.num_perm
    &&& state.descriptor->0.params == index.params
    &&& memory::regular(state)
    &&& state.records == index.items
}

/// A backend and an index that agree still agree when the same batch has been
/// inserted into both.
pub proof fn law_insertion_keeps_agreement(
    state: MemoryState,
    index: LshState,
    batch: Seq<(u64, Sketch32)>,
)
    requires
        agree(state, index),
        index.batch_error(batch) is None,
    ensures
        agree(
            state.with_items(query::batch_items(state.descriptor->0, batch)),
            index.with_batch(batch),
        ),
{
    index.lemma_with_batch_frame(batch);
    lemma_same_records(state, index, batch);
    let items = query::batch_items(state.descriptor->0, batch);
    let after = state.with_items(items);
    memory::lemma_keys_after_insertion(state, items);
    assert forall|key: u64| #[trigger] after.records.contains_key(key) implies after.records[key].len()
        == index.params.bands by {
        lemma_record_lengths(state, items, key);
    }
}

proof fn lemma_record_lengths(state: MemoryState, items: Seq<Item>, key: u64)
    requires
        state.descriptor is Some,
        memory::regular(state),
        forall|j: int|
            0 <= j < items.len() ==> (#[trigger] items[j]).hashes.len()
                == state.descriptor->0.params.bands,
        state.with_items(items).records.contains_key(key),
    ensures
        state.with_items(items).records[key].len() == state.descriptor->0.params.bands,
    decreases items.len(),
{
    if items.len() > 0 && items.last().key != key {
        let front = items.drop_last();
        assert forall|j: int| 0 <= j < front.len() implies (#[trigger] front[j]).hashes.len()
            == state.descriptor->0.params.bands by {
            assert(items[j].hashes.len() == state.descriptor->0.params.bands);
        }
        lemma_record_lengths(state, front, key);
    }
}

proof fn lemma_same_records(state: MemoryState, index: LshState, batch: Seq<(u64, Sketch32)>)
    requires
        agree(state, index),
    ensures
        state.with_items(query::batch_items(state.descriptor->0, batch)).records
            == index.with_batch(batch).items,
        index.with_batch(batch).params == index.params,
    decreases batch.len(),
{
    let items = query::batch_items(state.descriptor->0, batch);
    if batch.len() > 0 {
        lemma_same_records(state, index, batch.drop_last());
        assert(items.drop_last() =~= query::batch_items(
            state.descriptor->0,
            batch.drop_last(),
        ));
    }
}

/// A backend and an index that agree still agree when the same key has been
/// removed from both.
pub proof fn law_removal_keeps_agreement(state: MemoryState, index: LshState, key: u64)
    requires
        agree(state, index),
    ensures
        agree(state.without(seq![key]), index.without(key)),
{
    assert(seq![key].to_set() =~= set![key]) by {
        assert(seq![key][0] == key);
    }
    assert(state.without(seq![key]).records =~= index.without(key).items);
    let after = state.without(seq![key]);
    assert forall|other: u64| #[trigger] after.records.contains_key(other) implies after.descriptor
        is Some && after.records[other].len() == after.descriptor->0.params.bands by {
        assert(state.records.contains_key(other));
    }
}

/// Queries through a backend find what the index finds: where the rows of a
/// plan are the buckets of a backend that agrees with an index, each answer
/// that is put together from them is the index's answer.
pub proof fn law_backend_queries_match_memory(
    state: MemoryState,
    index: LshState,
    sketches: Seq<Sketch32>,
    plan: QueryPlan,
    rows: Seq<Vec<u64>>,
    found: Seq<Vec<u64>>,
    q: int,
)
    requires
        agree(state, index),
        plan.serves(state.descriptor->0, sketches),
        rows.len() == plan.buckets@.len(),
        forall|i: int|
            0 <= i < rows.len() ==> state.is_row(plan.buckets@[i], (#[trigger] rows[i])@),
        query::answers(plan, rows, found),
        0 <= q < sketches.len(),
    ensures
        index.is_answer(sketches[q], found[q]@),
{
    let descriptor = state.descriptor->0;
    query::lemma_bands_fit(descriptor);
    let positions = plan.positions@[q]@;
    let wanted = query::sketch_buckets(descriptor, sketches[q]);
    let hashes = index.hashes(sketches[q]);
    assert(query::points_to(positions, plan.buckets@, wanted));
    assert(query::is_gathered(positions, rows, found[q]@));
    assert forall|key: u64| found[q]@.contains(key) <==> #[trigger] index.is_candidate(
        key,
        hashes,
    ) by {
        if found[q]@.contains(key) {
            let band = choose|band: int|
                0 <= band < positions.len() && rows[#[trigger] positions[band] as int]@.contains(
                    key,
                );
            let at = positions[band] as int;
            assert(state.is_row(plan.buckets@[at], rows[at]@));
            assert(state.in_bucket(wanted[band], key));
            assert(index.items[key][band] == hashes[band]);
        }
        if index.is_candidate(key, hashes) {
            let band = choose|band: int|
                0 <= band < index.params.bands && #[trigger] index.items[key][band] == hashes[band];
            assert(state.records.contains_key(key));
            assert(state.in_bucket(wanted[band], key));
            let at = positions[band] as int;
            assert(state.is_row(plan.buckets@[at], rows[at]@));
            assert(rows[at]@.contains(key));
        }
    }
}

/// Every item has its key.
pub proof fn law_every_item_has_its_key(items: Seq<Item>)
    ensures
        keys_of(items).len() == items.len(),
        forall|i: int| 0 <= i < items.len() ==> #[trigger] keys_of(items)[i] == items[i].key,
{
}

} // verus!
