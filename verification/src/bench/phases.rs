//! The steps of benchmark runs.

use vstd::prelude::*;

use crate::bench::workload;
use crate::index::lsh::{LshIndex32, LshState};
use crate::index::params;
use crate::index::params::LshError;
use crate::order;
use crate::sketch::minhash32::{MinHash32, Sketch32};

verus! {

/// The largest number of items that storage mutations touch.
pub const MAX_MUTATION_ITEMS: usize = 256;

/// How many items are removed and inserted again: one in a hundred, at least
/// one and at most a thousand.
pub open spec fn spec_mutation_count(items: usize) -> usize {
    let hundredth = (items + 99) / 100;
    if hundredth < 1 {
        1
    } else if hundredth > 1_000 {
        1_000
    } else {
        hundredth as usize
    }
}

/// How many items are removed and inserted again.
pub fn mutation_count(items: usize) -> (count: usize)
    ensures
        count == spec_mutation_count(items),
        items > 0 ==> count <= items,
{
    let mut hundredth: usize = items / 100;
    if items % 100 != 0 {
        hundredth = hundredth + 1;
    }
    if hundredth < 1 {
        1
    } else if hundredth > 1_000 {
        1_000
    } else {
        hundredth
    }
}

/// How many items storage mutations touch, or none where there are no items.
pub fn storage_mutation_count(items: usize) -> (count: Option<usize>)
    ensures
        count == (if items == 0 {
            None
        } else if items < MAX_MUTATION_ITEMS {
            Some(items)
        } else {
            Some(MAX_MUTATION_ITEMS)
        }),
{
    if items == 0 {
        None
    } else if items < MAX_MUTATION_ITEMS {
        Some(items)
    } else {
        Some(MAX_MUTATION_ITEMS)
    }
}

/// How many answers are compared: as many as were asked for and there are
/// signatures, at least one.
pub fn parity_queries(requested: usize, signatures: usize) -> (count: usize)
    ensures
        count == ({
            let fewer = if requested < signatures {
                requested
            } else {
                signatures
            };
            if fewer < 1 {
                1usize
            } else {
                fewer
            }
        }),
{
    let fewer: usize = if requested < signatures {
        requested
    } else {
        signatures
    };
    if fewer < 1 {
        1
    } else {
        fewer
    }
}

/// The state without the keys below `count`.
pub open spec fn cleared(state: LshState, count: nat) -> LshState
    decreases count,
{
    if count == 0 {
        state
    } else {
        cleared(state, (count - 1) as nat).without((count - 1) as u64)
    }
}

/// The first key below `upto` that is not there.
pub open spec fn first_missing(state: LshState, upto: nat) -> Option<u64>
    decreases upto,
{
    if upto == 0 {
        None
    } else {
        match first_missing(state, (upto - 1) as nat) {
            Some(key) => Some(key),
            None => if state.items.contains_key((upto - 1) as u64) {
                None
            } else {
                Some((upto - 1) as u64)
            },
        }
    }
}

proof fn lemma_first_missing(state: LshState, upto: nat, all: nat)
    requires
        upto <= all,
        first_missing(state, upto) is Some,
    ensures
        first_missing(state, all) == first_missing(state, upto),
    decreases all,
{
    if upto < all {
        lemma_first_missing(state, upto, (all - 1) as nat);
    }
}

proof fn lemma_cleared(state: LshState, count: nat)
    requires
        count <= u64::MAX,
    ensures
        cleared(state, count) == (LshState { items: cleared(state, count).items, ..state }),
        forall|key: u64| #[trigger]
            cleared(state, count).items.contains_key(key) <==> state.items.contains_key(key) && key
                >= count,
        forall|key: u64|
            state.items.contains_key(key) && key >= count ==> #[trigger] cleared(
                state,
                count,
            ).items[key] == state.items[key],
    decreases count,
{
    if count > 0 {
        lemma_cleared(state, (count - 1) as nat);
    }
}

/// Why a round of mutations stopped.
#[derive(Debug, Clone, Copy, PartialEq, Eq, Structural)]
pub enum MutationError {
    /// A key to be removed was not there.
    Missing {
        /// The key.
        key: u64,
    },
    /// The items could not be inserted again.
    Index(LshError),
}

/// Remove the keys below `count` and insert the first `count` signatures under
/// them again.
pub fn mutate(index: &mut LshIndex32, signatures: &Vec<MinHash32>, count: usize) -> (result: Result<
    (),
    MutationError,
>)
    requires
        old(index).wf(),
        count <= signatures@.len(),
    ensures
        final(index).wf(),
        match first_missing(old(index)@, count as nat) {
            Some(key) => result == Err::<(), MutationError>(MutationError::Missing { key })
                && final(index)@ == cleared(old(index)@, key as nat),
            None => {
                let rest = cleared(old(index)@, count as nat);
                let batch = workload::numbered(signatures@.take(count as int));
                match rest.batch_error(batch) {
                    Some(error) => result == Err::<(), MutationError>(MutationError::Index(error))
                        && final(index)@ == rest,
                    None => result is Ok && final(index)@ == rest.with_batch(batch),
                }
            },
        },
{
    let ghost start = index@;
    let mut key: usize = 0;
    while key < count
        invariant
            key <= count,
            index.wf(),
            start == old(index)@,
            index@ == cleared(start, key as nat),
            first_missing(start, key as nat) is None,
        decreases count - key,
    {
        proof {
            lemma_cleared(start, key as nat);
        }
        if !index.remove(key as u64) {
            proof {
                lemma_first_missing(start, (key + 1) as nat, count as nat);
                assert(cleared(start, key as nat).items.remove(key as u64) =~= cleared(
                    start,
                    key as nat,
                ).items);
            }
            return Err(MutationError::Missing { key: key as u64 });
        }
        key = key + 1;
    }
    let items = workload::number(signatures, count);
    match index.insert_many(items.as_slice()) {
        Ok(()) => Ok(()),
        Err(error) => Err(MutationError::Index(error)),
    }
}

/// The state after the first `upto` keys were removed and inserted again, one
/// after the other, or why that stopped.
pub open spec fn churned(state: LshState, batch: Seq<(u64, Sketch32)>, upto: nat) -> Result<
    LshState,
    MutationError,
>
    decreases upto,
{
    if upto == 0 {
        Ok(state)
    } else {
        match churned(state, batch, (upto - 1) as nat) {
            Err(error) => Err(error),
            Ok(before) => {
                let (key, sketch) = batch[upto - 1];
                if !before.items.contains_key(key) {
                    Err(MutationError::Missing { key })
                } else {
                    let rest = before.without(key);
                    match rest.batch_error(seq![(key, sketch)]) {
                        Some(error) => Err(MutationError::Index(error)),
                        None => Ok(rest.with_batch(seq![(key, sketch)])),
                    }
                }
            },
        }
    }
}

proof fn lemma_churned(state: LshState, batch: Seq<(u64, Sketch32)>, upto: nat, all: nat)
    requires
        upto <= all,
        churned(state, batch, upto) is Err,
    ensures
        churned(state, batch, all) == churned(state, batch, upto),
    decreases all,
{
    if upto < all {
        lemma_churned(state, batch, upto, (all - 1) as nat);
    }
}

/// Remove each key below the number of signatures and insert its signature again
/// before the next one.
pub fn churn(index: &mut LshIndex32, signatures: &Vec<MinHash32>) -> (result: Result<
    (),
    MutationError,
>)
    requires
        old(index).wf(),
    ensures
        final(index).wf(),
        match churned(old(index)@, workload::numbered(signatures@), signatures@.len()) {
            Ok(after) => result is Ok && final(index)@ == after,
            Err(error) => result == Err::<(), MutationError>(error),
        },
{
    let ghost start = index@;
    let ghost batch = workload::numbered(signatures@);
    let mut at: usize = 0;
    while at < signatures.len()
        invariant
            at <= signatures@.len(),
            index.wf(),
            start == old(index)@,
            batch == workload::numbered(signatures@),
            churned(start, batch, at as nat) == Ok::<LshState, MutationError>(index@),
        decreases signatures@.len() - at,
    {
        proof {
            if churned(start, batch, (at + 1) as nat) is Err {
                lemma_churned(start, batch, (at + 1) as nat, signatures@.len());
            }
            assert(batch[at as int] == (at as u64, signatures@[at as int]@));
        }
        if !index.remove(at as u64) {
            return Err(MutationError::Missing { key: at as u64 });
        }
        match index.insert(at as u64, &signatures[at]) {
            Ok(()) => {},
            Err(error) => {
                return Err(MutationError::Index(error));
            },
        }
        at = at + 1;
    }
    Ok(())
}

/// Removing and inserting again one key after the other, in an index that holds
/// the signatures, finds every key and leaves the items as they were: only the
/// number of slots grows.
pub proof fn law_churning_keeps_the_items(
    state: LshState,
    batch: Seq<(u64, Sketch32)>,
    upto: nat,
)
    requires
        upto <= batch.len(),
        forall|i: int|
            0 <= i < batch.len() ==> state.items.contains_key((#[trigger] batch[i]).0)
                && state.items[batch[i].0] == state.hashes(batch[i].1),
    ensures
        match churned(state, batch, upto) {
            Ok(after) => after == (LshState { slots: state.slots + upto, ..state }),
            Err(error) => error is Index,
        },
    decreases upto,
{
    if upto > 0 {
        law_churning_keeps_the_items(state, batch, (upto - 1) as nat);
        if churned(state, batch, (upto - 1) as nat) is Ok {
            let before = LshState { slots: (state.slots + upto - 1) as nat, ..state };
            let (key, sketch) = batch[upto - 1];
            let one = seq![(key, sketch)];
            assert(one.drop_last() =~= Seq::empty());
            assert(before.without(key).with_batch(one.drop_last()) == before.without(key));
            assert(before.without(key).hashes(sketch) == state.hashes(sketch));
            assert(before.items.remove(key).insert(key, state.hashes(sketch)) =~= state.items);
        }
    }
}

/// A round of mutations of an index that holds the signatures leaves its items
/// as they were.
pub proof fn law_mutation_keeps_the_items(state: LshState, batch: Seq<(u64, Sketch32)>)
    requires
        batch.len() <= u64::MAX,
        forall|i: int| 0 <= i < batch.len() ==> (#[trigger] batch[i]).0 == i,
        forall|i: int|
            0 <= i < batch.len() ==> state.items.contains_key((#[trigger] batch[i]).0)
                && state.items[batch[i].0] == state.hashes(batch[i].1),
    ensures
        cleared(state, batch.len()).with_batch(batch).items == state.items,
{
    let rest = cleared(state, batch.len());
    lemma_cleared(state, batch.len());
    lemma_restored(state, rest, batch, batch.len());
    assert(batch.take(batch.len() as int) =~= batch);
    let after = rest.with_batch(batch);
    assert forall|key: u64|
        #![trigger after.items.dom().contains(key)]
        after.items.dom().contains(key) == state.items.dom().contains(key) by {
        if key < batch.len() {
            assert(batch[key as int].0 == key);
        }
    }
    assert(after.items.dom() =~= state.items.dom());
    assert(after.items =~= state.items);
}

proof fn lemma_restored(
    state: LshState,
    rest: LshState,
    batch: Seq<(u64, Sketch32)>,
    upto: nat,
)
    requires
        upto <= batch.len() <= u64::MAX,
        rest == (LshState { items: rest.items, ..state }),
        forall|key: u64| #[trigger]
            rest.items.contains_key(key) <==> state.items.contains_key(key) && key >= batch.len(),
        forall|key: u64|
            state.items.contains_key(key) && key >= batch.len() ==> #[trigger] rest.items[key]
                == state.items[key],
        forall|i: int| 0 <= i < batch.len() ==> (#[trigger] batch[i]).0 == i,
        forall|i: int|
            0 <= i < batch.len() ==> state.items.contains_key((#[trigger] batch[i]).0)
                && state.items[batch[i].0] == state.hashes(batch[i].1),
    ensures
        forall|key: u64| #[trigger]
            rest.with_batch(batch.take(upto as int)).items.contains_key(key) <==> key < upto || (
            state.items.contains_key(key) && key >= batch.len()),
        forall|key: u64|
            rest.with_batch(batch.take(upto as int)).items.contains_key(key)
                ==> #[trigger] rest.with_batch(batch.take(upto as int)).items[key]
                == state.items[key],
    decreases upto,
{
    let part = batch.take(upto as int);
    if upto > 0 {
        lemma_restored(state, rest, batch, (upto - 1) as nat);
        assert(part.drop_last() =~= batch.take(upto - 1));
        assert(part.last() == batch[upto - 1]);
        let front = rest.with_batch(batch.take(upto - 1));
        let (key, sketch) = batch[upto - 1];
        assert(key == upto - 1);
        assert(rest.hashes(sketch) == state.hashes(sketch));
        assert(rest.with_batch(part).items == front.items.insert(key, rest.hashes(sketch)));
    } else {
        assert(part =~= Seq::empty());
        assert(rest.with_batch(part) == rest);
    }
}

/// How many edges the edge stream has: four for each item, at least one.
pub open spec fn spec_edge_count(items: usize) -> usize {
    if items == 0 {
        1
    } else if items * 4 > usize::MAX {
        usize::MAX
    } else {
        (items * 4) as usize
    }
}

/// How many edges the edge stream has.
pub fn edge_count(items: usize) -> (count: usize)
    ensures
        count == spec_edge_count(items),
{
    if items == 0 {
        1
    } else {
        match items.checked_mul(4) {
            Some(count) => count,
            None => usize::MAX,
        }
    }
}

/// Each key is tied to the next one.
pub open spec fn is_chain(edges: Seq<(u64, u64)>) -> bool {
    forall|i: int|
        0 <= i < edges.len() ==> (#[trigger] edges[i]).0 == i && edges[i].1 == i + 1
}

/// A chain of edges: each key is tied to the next one.
pub fn chain_edges(count: usize) -> (edges: Vec<(u64, u64)>)
    ensures
        edges@.len() == count,
        is_chain(edges@),
{
    let mut edges: Vec<(u64, u64)> = Vec::new();
    let mut index: usize = 0;
    while index < count
        invariant
            index <= count,
            edges@.len() == index,
            forall|i: int|
                0 <= i < index ==> (#[trigger] edges@[i]).0 == i && edges@[i].1 == i + 1,
        decreases count - index,
    {
        edges.push((index as u64, index as u64 + 1));
        index = index + 1;
    }
    edges
}

/// How two lists of answers differ.
#[derive(Debug, Clone, Copy, PartialEq, Eq, Structural)]
pub enum ParityError {
    /// The lists have different lengths.
    Rows {
        /// Length of the list that is compared.
        found: usize,
        /// Length of the reference.
        expected: usize,
    },
    /// An answer differs.
    Candidates {
        /// The first query with another answer.
        query: usize,
        /// Candidates in the reference.
        expected: usize,
        /// Candidates in the answer that is compared.
        found: usize,
    },
}

/// The answers to the first `upto` queries are the same.
pub open spec fn same_answers(left: Seq<Vec<u64>>, right: Seq<Vec<u64>>, upto: int) -> bool {
    forall|i: int| 0 <= i < upto ==> (#[trigger] left[i])@ == right[i]@
}

fn same_keys(left: &Vec<u64>, right: &Vec<u64>) -> (same: bool)
    ensures
        same == (left@ == right@),
{
    if left.len() != right.len() {
        return false;
    }
    let mut index: usize = 0;
    while index < left.len()
        invariant
            index <= left@.len() == right@.len(),
            forall|i: int| 0 <= i < index ==> left@[i] == right@[i],
        decreases left@.len() - index,
    {
        if left[index] != right[index] {
            return false;
        }
        index = index + 1;
    }
    assert(left@ =~= right@);
    true
}

/// Check that two lists hold the same answers.
pub fn ensure_candidate_parity(reference: &Vec<Vec<u64>>, actual: &Vec<Vec<u64>>) -> (result: Result<
    (),
    ParityError,
>)
    ensures
        match result {
            Ok(()) => reference@.len() == actual@.len() && same_answers(
                reference@,
                actual@,
                reference@.len() as int,
            ),
            Err(ParityError::Rows { found, expected }) => found == actual@.len() && expected
                == reference@.len() && found != expected,
            Err(ParityError::Candidates { query, expected, found }) => {
                &&& reference@.len() == actual@.len()
                &&& query < reference@.len()
                &&& same_answers(reference@, actual@, query as int)
                &&& reference@[query as int]@ != actual@[query as int]@
                &&& expected == reference@[query as int]@.len()
                &&& found == actual@[query as int]@.len()
            },
        },
{
    if reference.len() != actual.len() {
        return Err(ParityError::Rows { found: actual.len(), expected: reference.len() });
    }
    let mut query: usize = 0;
    while query < reference.len()
        invariant
            query <= reference@.len() == actual@.len(),
            same_answers(reference@, actual@, query as int),
        decreases reference@.len() - query,
    {
        if !same_keys(&reference[query], &actual[query]) {
            return Err(
                ParityError::Candidates {
                    query,
                    expected: reference[query].len(),
                    found: actual[query].len(),
                },
            );
        }
        query = query + 1;
    }
    Ok(())
}

/// Scalar and batch queries of one index give the same answers.
pub proof fn law_scalar_and_batch_agree(
    state: LshState,
    sketch: Sketch32,
    scalar: Seq<u64>,
    batch: Seq<u64>,
)
    requires
        state.is_answer(sketch, scalar),
        state.is_answer(sketch, batch),
    ensures
        scalar == batch,
{
    state.law_answer_is_unique(sketch, scalar, batch);
}

/// The keys of all answers, each once, in ascending order.
pub fn merge_answers(answers: &Vec<Vec<u64>>) -> (merged: Vec<u64>)
    ensures
        order::increasing(merged@),
        forall|key: u64| #[trigger]
            merged@.contains(key) <==> exists|i: int|
                0 <= i < answers@.len() && (#[trigger] answers@[i])@.contains(key),
{
    let mut keys: Vec<u64> = Vec::new();
    let mut index: usize = 0;
    while index < answers.len()
        invariant
            index <= answers@.len(),
            forall|key: u64| #[trigger]
                keys@.contains(key) <==> exists|i: int|
                    0 <= i < index && (#[trigger] answers@[i])@.contains(key),
        decreases answers@.len() - index,
    {
        let ghost before = keys@;
        let ghost added = answers@[index as int]@;
        keys.extend_from_slice(answers[index].as_slice());
        proof {
            assert(keys@ =~= before + added);
            assert forall|key: u64| #[trigger]
                keys@.contains(key) <==> exists|i: int|
                    0 <= i < index + 1 && (#[trigger] answers@[i])@.contains(key) by {
                lemma_contains_sum(before, added, key);
                if before.contains(key) {
                    let i = choose|i: int|
                        0 <= i < index && (#[trigger] answers@[i])@.contains(key);
                    assert(answers@[i]@.contains(key));
                }
                if exists|i: int| 0 <= i < index + 1 && (#[trigger] answers@[i])@.contains(key) {
                    let i = choose|i: int|
                        0 <= i < index + 1 && (#[trigger] answers@[i])@.contains(key);
                    if i < index {
                        assert(before.contains(key));
                    }
                }
            }
        }
        index = index + 1;
    }
    let ghost all = keys@;
    let merged = order::sorted_unique(keys);
    proof {
        assert forall|key: u64| #[trigger]
            merged@.contains(key) <==> exists|i: int|
                0 <= i < answers@.len() && (#[trigger] answers@[i])@.contains(key) by {
            assert(merged@.to_set().contains(key) == all.to_set().contains(key));
            assert(all.contains(key) == all.to_set().contains(key));
        }
    }
    merged
}

proof fn lemma_contains_sum(left: Seq<u64>, right: Seq<u64>, key: u64)
    ensures
        (left + right).contains(key) == (left.contains(key) || right.contains(key)),
{
    let sum = left + right;
    if left.contains(key) {
        let i = choose|i: int| 0 <= i < left.len() && left[i] == key;
        assert(sum[i] == key);
    }
    if right.contains(key) {
        let i = choose|i: int| 0 <= i < right.len() && right[i] == key;
        assert(sum[left.len() + i] == key);
    }
    if sum.contains(key) {
        let i = choose|i: int| 0 <= i < sum.len() && sum[i] == key;
        if i < left.len() {
            assert(left[i] == key);
        } else {
            assert(right[i - left.len()] == key);
        }
    }
}

/// The shards hold the items of the whole, each item in one of them.
pub open spec fn are_shards(shards: Seq<LshState>, whole: LshState) -> bool {
    &&& forall|s: int| 0 <= s < shards.len() ==> (#[trigger] shards[s]).params == whole.params
    &&& forall|s: int, key: u64|
        0 <= s < shards.len() && (#[trigger] shards[s]).items.contains_key(key)
            ==> #[trigger] whole.items.contains_key(key) && shards[s].items[key]
            == whole.items[key]
    &&& forall|key: u64| #[trigger]
        whole.items.contains_key(key) ==> exists|s: int|
            0 <= s < shards.len() && (#[trigger] shards[s]).items.contains_key(key)
}

/// Asking every shard and merging the answers gives the answer of the whole.
pub proof fn law_sharded_queries_match(
    shards: Seq<LshState>,
    whole: LshState,
    sketch: Sketch32,
    answers: Seq<Seq<u64>>,
    merged: Seq<u64>,
)
    requires
        are_shards(shards, whole),
        answers.len() == shards.len(),
        forall|s: int|
            0 <= s < shards.len() ==> (#[trigger] shards[s]).is_answer(sketch, answers[s]),
        order::increasing(merged),
        forall|key: u64| #[trigger]
            merged.contains(key) <==> exists|s: int|
                0 <= s < answers.len() && (#[trigger] answers[s]).contains(key),
    ensures
        whole.is_answer(sketch, merged),
{
    let hashes = whole.hashes(sketch);
    assert forall|key: u64| merged.contains(key) <==> #[trigger] whole.is_candidate(
        key,
        hashes,
    ) by {
        if merged.contains(key) {
            let s = choose|s: int| 0 <= s < answers.len() && (#[trigger] answers[s]).contains(key);
            assert(shards[s].is_answer(sketch, answers[s]));
            assert(shards[s].is_candidate(key, shards[s].hashes(sketch)));
            let band = choose|band: int|
                0 <= band < shards[s].params.bands && #[trigger] shards[s].items[key][band]
                    == hashes[band];
            assert(whole.items.contains_key(key));
            assert(whole.items[key][band] == hashes[band]);
        }
        if whole.is_candidate(key, hashes) {
            let band = choose|band: int|
                0 <= band < whole.params.bands && #[trigger] whole.items[key][band] == hashes[band];
            let s = choose|s: int|
                0 <= s < shards.len() && (#[trigger] shards[s]).items.contains_key(key);
            assert(shards[s].items[key][band] == hashes[band]);
            assert(shards[s].is_candidate(key, shards[s].hashes(sketch)));
            assert(shards[s].is_answer(sketch, answers[s]));
            assert(answers[s].contains(key));
        }
    }
}

/// About one item in a hundred is changed, at least one and no more than a thousand.
pub proof fn law_how_many_items_are_changed(items: usize)
    ensures
        1 <= spec_mutation_count(items) <= 1_000,
        items <= 100_000 && items > 0 ==> items <= 100 * spec_mutation_count(items) < items + 100,
        items > 100_000 ==> spec_mutation_count(items) == 1_000,
{
}

/// There are four pairs for each item, as far as a `usize` can tell, and at least one.
pub proof fn law_how_many_pairs_are_grouped(items: usize)
    ensures
        spec_edge_count(0) == 1,
        items > 0 && 4 * items <= usize::MAX ==> spec_edge_count(items) == 4 * items,
{
}

/// The pairs of a chain join each key to the next.
pub proof fn law_chains_join_neighbours(edges: Seq<(u64, u64)>, index: int)
    requires
        is_chain(edges),
        0 <= index < edges.len(),
    ensures
        edges[index].0 == index,
        edges[index].1 == index + 1,
{
}

/// The first keys are gone, and everything else is as it was.
pub proof fn law_clearing_takes_the_first_keys(state: LshState, count: nat, key: u64)
    requires
        count <= u64::MAX,
    ensures
        cleared(state, count).items.contains_key(key) == (state.items.contains_key(key) && key
            >= count),
        key >= count ==> cleared(state, count).items[key] == state.items[key],
        cleared(state, count).params == state.params,
        cleared(state, count).slots == state.slots,
    decreases count,
{
    if count > 0 {
        law_clearing_takes_the_first_keys(state, (count - 1) as nat, key);
    }
}

/// The first key that is missing is the smallest one that is.
pub proof fn law_first_missing_key(state: LshState, upto: nat)
    requires
        upto <= u64::MAX,
    ensures
        first_missing(state, upto) is None == forall|key: u64|
            key < upto ==> #[trigger] state.items.contains_key(key),
        first_missing(state, upto) matches Some(key) ==> key < upto && !state.items.contains_key(
            key,
        ) && forall|other: u64| other < key ==> #[trigger] state.items.contains_key(other),
    decreases upto,
{
    if upto > 0 {
        law_first_missing_key(state, (upto - 1) as nat);
        if first_missing(state, (upto - 1) as nat) is None {
            assert forall|key: u64| key < upto - 1 implies #[trigger] state.items.contains_key(
                key,
            ) by {}
            if first_missing(state, upto) is Some {
                assert(!state.items.contains_key((upto - 1) as u64));
            }
        }
    }
}

} // verus!
