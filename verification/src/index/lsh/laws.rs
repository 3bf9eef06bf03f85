//! What holds of an index whatever it went through: which keys a query finds, what an
//! insertion and a removal change, and which keys are grouped.

use vstd::prelude::*;

use crate::index::grouping;
use crate::index::grouping::DuplicateGroup;
use crate::index::lsh::pairs;
use crate::index::lsh::LshState;
use crate::index::metrics;
use crate::index::metrics::LshStats;
use crate::index::params;
use crate::index::params::LshError;
use crate::sketch::minhash32::Sketch32;

verus! {

/// The answer to a query lists keys in ascending order, each once: the live keys whose
/// hash in at least one band is the hash of the query in that band, and no others.
pub proof fn law_answer_lists_the_keys_that_share_a_hash(
    state: LshState,
    sketch: Sketch32,
    keys: Seq<u64>,
)
    requires
        state.is_answer(sketch, keys),
    ensures
        forall|i: int, j: int| 0 <= i < j < keys.len() ==> keys[i] < keys[j],
        forall|key: u64| #[trigger]
            keys.contains(key) == (state.items.contains_key(key) && exists|band: int|
                0 <= band < state.params.bands && #[trigger] state.items[key][band]
                    == params::spec_band_hashes(sketch.values, state.params)[band]),
{
    assert forall|key: u64| #[trigger]
        keys.contains(key) == (state.items.contains_key(key) && exists|band: int|
            0 <= band < state.params.bands && #[trigger] state.items[key][band]
                == params::spec_band_hashes(sketch.values, state.params)[band]) by {
        assert(keys.contains(key) == state.is_candidate(key, state.hashes(sketch)));
    }
}

/// A key is found by every sketch that has the same values as its own in one whole band.
pub proof fn law_a_shared_band_makes_a_candidate(
    state: LshState,
    key: u64,
    stored: Sketch32,
    asked: Sketch32,
    band: int,
)
    requires
        state.items.contains_key(key),
        state.items[key] == state.hashes(stored),
        state.params.fits(stored.values.len()),
        state.params.fits(asked.values.len()),
        0 <= band < state.params.bands,
        forall|i: int|
            band * state.params.rows <= i < (band + 1) * state.params.rows ==> stored.values[i]
                == asked.values[i],
    ensures
        state.is_candidate(key, state.hashes(asked)),
        forall|keys: Seq<u64>| #[trigger] state.is_answer(asked, keys) ==> keys.contains(key),
{
    params::law_bands_are_hashed_alone(stored.values, asked.values, state.params, band);
    assert(state.items[key][band] == state.hashes(asked)[band]);
}

/// A key is not found by a sketch that differs from its own in one value of every band.
pub proof fn law_a_difference_in_every_band_hides_a_key(
    state: LshState,
    key: u64,
    stored: Sketch32,
    asked: Sketch32,
    differing: Seq<int>,
)
    requires
        state.items.contains_key(key),
        state.items[key] == state.hashes(stored),
        stored.values.len() == asked.values.len(),
        state.params.fits(stored.values.len()),
        differing.len() == state.params.bands,
        forall|band: int|
            0 <= band < state.params.bands ==> band * state.params.rows <= #[trigger] differing[band]
                < (band + 1) * state.params.rows && stored.values[differing[band]]
                != asked.values[differing[band]],
        forall|band: int, i: int|
            0 <= band < state.params.bands && band * state.params.rows <= i < (band + 1)
                * state.params.rows && i != #[trigger] differing[band]
                ==> #[trigger] stored.values[i] == asked.values[i],
    ensures
        !state.is_candidate(key, state.hashes(asked)),
        forall|keys: Seq<u64>| #[trigger] state.is_answer(asked, keys) ==> !keys.contains(key),
{
    let size = stored.values.len();
    assert forall|band: int| 0 <= band < state.params.bands implies #[trigger] state.items[key][band]
        != state.hashes(asked)[band] by {
        let at = differing[band];
        params::lemma_band_range(state.params, size, band);
        let other = stored.values.update(at, asked.values[at]);
        params::law_one_changed_value_changes_its_band(
            stored.values,
            state.params,
            band,
            at,
            asked.values[at],
        );
        assert forall|i: int|
            band * state.params.rows <= i < (band + 1) * state.params.rows implies other[i]
            == asked.values[i] by {
            if i != at {
                assert(stored.values[i] == asked.values[i]);
            }
        }
        params::law_bands_are_hashed_alone(other, asked.values, state.params, band);
    }
    assert forall|keys: Seq<u64>| #[trigger] state.is_answer(asked, keys) implies !keys.contains(
        key,
    ) by {
        assert(keys.contains(key) == state.is_candidate(key, state.hashes(asked)));
    }
}

proof fn lemma_batch_items(state: LshState, batch: Seq<(u64, Sketch32)>, key: u64)
    ensures
        state.with_batch(batch).items.contains_key(key) == (state.items.contains_key(key)
            || exists|k: int| 0 <= k < batch.len() && (#[trigger] batch[k]).0 == key),
        (forall|k: int| 0 <= k < batch.len() ==> (#[trigger] batch[k]).0 != key)
            ==> state.with_batch(batch).items[key] == state.items[key],
    decreases batch.len(),
{
    if batch.len() > 0 {
        let front = batch.drop_last();
        lemma_batch_items(state, front, key);
        assert forall|k: int| 0 <= k < front.len() implies front[k] == #[trigger] batch[k] by {}
        assert(batch[batch.len() - 1] == batch.last());
        if exists|k: int| 0 <= k < batch.len() && (#[trigger] batch[k]).0 == key {
            let k = choose|k: int| 0 <= k < batch.len() && (#[trigger] batch[k]).0 == key;
            if k < front.len() {
                assert(front[k].0 == key);
            }
        }
        if exists|k: int| 0 <= k < front.len() && (#[trigger] front[k]).0 == key {
            let k = choose|k: int| 0 <= k < front.len() && (#[trigger] front[k]).0 == key;
            assert(batch[k].0 == key);
        }
        if forall|k: int| 0 <= k < batch.len() ==> (#[trigger] batch[k]).0 != key {
            assert forall|k: int| 0 <= k < front.len() implies (#[trigger] front[k]).0 != key by {
                assert(batch[k].0 != key);
            }
        }
    }
}

proof fn lemma_batch_item(state: LshState, batch: Seq<(u64, Sketch32)>, index: int)
    requires
        0 <= index < batch.len(),
        forall|i: int, j: int|
            0 <= i < j < batch.len() ==> (#[trigger] batch[i]).0 != (#[trigger] batch[j]).0,
    ensures
        state.with_batch(batch).items[batch[index].0] == params::spec_band_hashes(
            batch[index].1.values,
            state.params,
        ),
    decreases batch.len(),
{
    let front = batch.drop_last();
    if index < front.len() {
        assert forall|i: int, j: int| 0 <= i < j < front.len() implies (#[trigger] front[i]).0 != (
        #[trigger] front[j]).0 by {
            assert(batch[i].0 != batch[j].0);
        }
        lemma_batch_item(state, front, index);
        assert(front[index] == batch[index]);
        assert(batch[index].0 != batch[batch.len() - 1].0);
    }
}

/// After an insertion the live keys are those that were live and those of the batch. Each
/// key of the batch has the band hashes of its own sketch, and every other key has the
/// band hashes that it had. Nothing else changes but the identifiers that were given out.
pub proof fn law_insertion_adds_the_batch(state: LshState, batch: Seq<(u64, Sketch32)>)
    requires
        forall|i: int, j: int|
            0 <= i < j < batch.len() ==> (#[trigger] batch[i]).0 != (#[trigger] batch[j]).0,
    ensures
        forall|key: u64| #[trigger]
            state.with_batch(batch).items.contains_key(key) == (state.items.contains_key(key)
                || exists|k: int| 0 <= k < batch.len() && (#[trigger] batch[k]).0 == key),
        forall|k: int|
            0 <= k < batch.len() ==> state.with_batch(batch).items[(#[trigger] batch[k]).0]
                == params::spec_band_hashes(batch[k].1.values, state.params),
        forall|key: u64|
            state.items.contains_key(key) && (forall|k: int|
                0 <= k < batch.len() ==> (#[trigger] batch[k]).0 != key)
                ==> #[trigger] state.with_batch(batch).items[key] == state.items[key],
        state.with_batch(batch).threshold == state.threshold,
        state.with_batch(batch).num_perm == state.num_perm,
        state.with_batch(batch).seed == state.seed,
        state.with_batch(batch).params == state.params,
        state.with_batch(batch).slots == state.slots + batch.len(),
{
    state.lemma_with_batch_frame(batch);
    assert forall|key: u64| #[trigger]
        state.with_batch(batch).items.contains_key(key) == (state.items.contains_key(key)
            || exists|k: int| 0 <= k < batch.len() && (#[trigger] batch[k]).0 == key) by {
        lemma_batch_items(state, batch, key);
    }
    assert forall|k: int| 0 <= k < batch.len() implies state.with_batch(batch).items[(
    #[trigger] batch[k]).0] == params::spec_band_hashes(batch[k].1.values, state.params) by {
        lemma_batch_item(state, batch, k);
    }
    assert forall|key: u64|
        state.items.contains_key(key) && (forall|k: int|
            0 <= k < batch.len() ==> (#[trigger] batch[k]).0 != key) implies #[trigger] state.with_batch(
        batch,
    ).items[key] == state.items[key] by {
        lemma_batch_items(state, batch, key);
    }
}

/// A removal takes the key and nothing else.
pub proof fn law_removal_takes_the_key(state: LshState, key: u64, other: u64)
    ensures
        !state.without(key).items.contains_key(key),
        other != key ==> state.without(key).items.contains_key(other)
            == state.items.contains_key(other),
        other != key && state.items.contains_key(other) ==> state.without(key).items[other]
            == state.items[other],
        state.without(key).threshold == state.threshold,
        state.without(key).num_perm == state.num_perm,
        state.without(key).seed == state.seed,
        state.without(key).params == state.params,
        state.without(key).slots == state.slots,
{
}

/// A sketch belongs to an index exactly where it has the seed and the length of the
/// index's sketches.
pub proof fn law_which_sketches_belong(state: LshState, sketch: Sketch32)
    ensures
        state.sketch_error(sketch) is None == (sketch.seed == state.seed && sketch.values.len()
            == state.num_perm),
        sketch.seed != state.seed ==> state.sketch_error(sketch) == Some(
            LshError::IncompatibleSeed { expected: state.seed, actual: sketch.seed },
        ),
        sketch.seed == state.seed && sketch.values.len() != state.num_perm
            ==> state.sketch_error(sketch) == Some(
            LshError::IncompatiblePermutationCount {
                expected: state.num_perm,
                actual: sketch.values.len() as usize,
            },
        ),
{
}

proof fn lemma_item_errors(state: LshState, batch: Seq<(u64, Sketch32)>, upto: nat)
    requires
        upto <= batch.len(),
    ensures
        state.first_item_error(batch, upto) is None == forall|i: int|
            #![trigger batch[i]]
            0 <= i < upto ==> state.item_error(batch, i) is None,
        state.first_item_error(batch, upto) is Some ==> exists|i: int|
            #![trigger batch[i]]
            0 <= i < upto && state.item_error(batch, i) == state.first_item_error(batch, upto)
                && forall|j: int|
                #![trigger batch[j]]
                0 <= j < i ==> state.item_error(batch, j) is None,
    decreases upto,
{
    if upto > 0 {
        let before = (upto - 1) as nat;
        lemma_item_errors(state, batch, before);
        if state.first_item_error(batch, before) is Some {
            let i = choose|i: int|
                #![trigger batch[i]]
                0 <= i < before && state.item_error(batch, i) == state.first_item_error(
                    batch,
                    before,
                ) && forall|j: int|
                    #![trigger batch[j]]
                    0 <= j < i ==> state.item_error(batch, j) is None;
            assert(batch[i] == batch[i]);
        } else {
            assert(batch[upto - 1] == batch[upto - 1]);
        }
    }
}

/// A batch is taken exactly where none of its keys is live or occurs twice in it, every
/// sketch belongs to the index, and the identifiers do not run out.
pub proof fn law_which_batches_are_taken(state: LshState, batch: Seq<(u64, Sketch32)>)
    ensures
        state.batch_error(batch) is None == ((forall|i: int|
            0 <= i < batch.len() ==> !state.items.contains_key((#[trigger] batch[i]).0)
                && batch[i].1.seed == state.seed && batch[i].1.values.len() == state.num_perm) && (
        forall|i: int, j: int|
            0 <= i < j < batch.len() ==> (#[trigger] batch[i]).0 != (#[trigger] batch[j]).0)
            && state.slots + batch.len() <= u32::MAX),
        state.batch_error(batch) matches Some(LshError::DuplicateKey { key }) ==> exists|i: int|
            0 <= i < batch.len() && (#[trigger] batch[i]).0 == key && (state.items.contains_key(
                key,
            ) || exists|j: int| 0 <= j < i && (#[trigger] batch[j]).0 == key),
{
    lemma_item_errors(state, batch, batch.len());
    if state.first_item_error(batch, batch.len()) is None {
        assert forall|i: int| 0 <= i < batch.len() implies !state.items.contains_key(
            (#[trigger] batch[i]).0,
        ) && batch[i].1.seed == state.seed && batch[i].1.values.len() == state.num_perm by {
            assert(state.item_error(batch, i) is None);
        }
        assert forall|i: int, j: int| 0 <= i < j < batch.len() implies (#[trigger] batch[i]).0 != (
        #[trigger] batch[j]).0 by {
            assert(state.item_error(batch, j) is None);
        }
    } else {
        let i = choose|i: int|
            #![trigger batch[i]]
            0 <= i < batch.len() && state.item_error(batch, i) == state.first_item_error(
                batch,
                batch.len(),
            ) && forall|j: int|
                #![trigger batch[j]]
                0 <= j < i ==> state.item_error(batch, j) is None;
        assert(state.item_error(batch, i) is Some);
        assert(batch[i] == batch[i]);
    }
}

/// Two keys collide exactly where both are live and they have the same hash in a band.
pub proof fn law_which_keys_collide(state: LshState, left: u64, right: u64)
    ensures
        state.collide(left, right) == (state.items.contains_key(left) && state.items.contains_key(
            right,
        ) && exists|band: int|
            0 <= band < state.params.bands && #[trigger] state.items[left][band]
                == state.items[right][band]),
        state.is_pair((left, right)) == (left < right && state.collide(left, right)),
        state.collide(left, right) == state.collide(right, left),
{
    if state.collide(left, right) {
        let band = choose|band: int|
            0 <= band < state.params.bands && #[trigger] state.items[left][band]
                == state.items[right][band];
        assert(state.items[right][band] == state.items[left][band]);
    }
    if state.collide(right, left) {
        let band = choose|band: int|
            0 <= band < state.params.bands && #[trigger] state.items[right][band]
                == state.items[left][band];
        assert(state.items[left][band] == state.items[right][band]);
    }
}

/// A pair has the smaller key first.
pub proof fn law_pairs_are_ordered(left: u64, right: u64)
    ensures
        pairs::spec_ordered_pair(left, right).0 <= pairs::spec_ordered_pair(left, right).1,
        pairs::spec_ordered_pair(left, right) == (left, right) || pairs::spec_ordered_pair(
            left,
            right,
        ) == (right, left),
{
}

/// Two different keys that collide are in one group of duplicates, whatever its size is,
/// and a key that collides with no other is in none.
pub proof fn law_colliding_keys_are_grouped(
    state: LshState,
    edges: Seq<(u64, u64)>,
    groups: Seq<DuplicateGroup>,
    left: u64,
    right: u64,
)
    requires
        pairs::is_collision_graph(state, edges),
        grouping::are_default_groups(state.items.dom(), edges, 2, groups),
        left != right,
    ensures
        forall|i: int|
            0 <= i < groups.len() && (#[trigger] groups[i])@.members.contains(left) && state.collide(
                left,
                right,
            ) ==> groups[i]@.members.contains(right),
        (forall|other: u64| other != left ==> !#[trigger] state.collide(left, other))
            ==> forall|i: int|
            0 <= i < groups.len() ==> !(#[trigger] groups[i])@.members.contains(left),
        forall|i: int| 0 <= i < groups.len() ==> (#[trigger] groups[i])@.members.len() >= 2,
{
    grouping::law_groups_are_as_large_as_asked(state.items.dom(), edges, 2, groups);
    assert forall|i: int|
        0 <= i < groups.len() && (#[trigger] groups[i])@.members.contains(left) && state.collide(
            left,
            right,
        ) implies groups[i]@.members.contains(right) by {
        let members = groups[i]@.members;
        assert(grouping::is_component(state.items.dom(), edges, members));
        assert(grouping::linked(edges, left, right));
        assert(grouping::linked(edges, members[0], left));
        grouping::lemma_linked_transitive(edges, members[0], left, right);
    }
    if forall|other: u64| other != left ==> !#[trigger] state.collide(left, other) {
        assert forall|i: int| 0 <= i < groups.len() implies !(
        #[trigger] groups[i])@.members.contains(left) by {
            let members = groups[i]@.members;
            if members.contains(left) {
                let own = choose|k: int| 0 <= k < members.len() && members[k] == left;
                let only = Set::<u64>::empty().insert(left);
                assert forall|k: int| 0 <= k < edges.len() implies only.contains(
                    (#[trigger] edges[k]).0,
                ) == only.contains(edges[k].1) by {
                    law_which_keys_collide(state, edges[k].0, edges[k].1);
                    assert(state.collide(edges[k].0, edges[k].1));
                }
                grouping::law_components_are_connected(
                    state.items.dom(),
                    edges,
                    members,
                    only,
                    own,
                );
                assert(only.contains(members[0]) && only.contains(members[1]));
                assert(members[0] < members[1]);
            }
        }
    }
}

/// The diagnostics count the live keys, and summarize the sizes of all the buckets that
/// hold a live key, each once: the number of live keys with that hash in that band.
pub proof fn law_stats_describe_every_bucket(state: LshState, stats: LshStats) -> (listed: (
    Seq<(int, u64)>,
    Seq<usize>,
))
    requires
        state.described_by(stats),
    ensures
        stats.items == state.items.dom().len(),
        stats.bands == state.params.bands,
        stats.rows == state.params.rows,
        metrics::summarizes(stats.buckets, listed.1),
        listed.1.len() == listed.0.len(),
        listed.0.no_duplicates(),
        forall|key: u64, band: int|
            state.items.contains_key(key) && 0 <= band < state.params.bands
                ==> #[trigger] listed.0.contains((band, state.items[key][band])),
        forall|i: int|
            0 <= i < listed.0.len() ==> 0 <= (#[trigger] listed.0[i]).0 < state.params.bands
                && listed.1[i] == Set::<u64>::new(
                |key: u64|
                    state.items.contains_key(key) && state.items[key][listed.0[i].0]
                        == listed.0[i].1,
            ).len(),
{
    let (buckets, sizes) = choose|buckets: Seq<(int, u64)>, sizes: Seq<usize>| #[trigger]
        state.are_bucket_sizes(buckets, sizes) && metrics::summarizes(stats.buckets, sizes);
    assert forall|key: u64, band: int|
        state.items.contains_key(key) && 0 <= band < state.params.bands implies #[trigger] buckets.contains(
        (band, state.items[key][band]),
    ) by {
        assert(state.occupied(band, state.items[key][band]));
    }
    assert forall|i: int| 0 <= i < buckets.len() implies 0 <= (#[trigger] buckets[i]).0
        < state.params.bands && sizes[i] == Set::<u64>::new(
        |key: u64|
            state.items.contains_key(key) && state.items[key][buckets[i].0] == buckets[i].1,
    ).len() by {
        assert(buckets.contains(buckets[i]));
        assert(buckets.contains((buckets[i].0, buckets[i].1)));
        assert(state.occupied(buckets[i].0, buckets[i].1));
        assert(sizes[i] == state.bucket(buckets[i].0, buckets[i].1).len());
        assert(state.bucket(buckets[i].0, buckets[i].1) =~= Set::<u64>::new(
            |key: u64|
                state.items.contains_key(key) && state.items[key][buckets[i].0] == buckets[i].1,
        ));
    }
    (buckets, sizes)
}

proof fn lemma_error_stays(state: LshState, batch: Seq<(u64, Sketch32)>, upto: nat, all: nat)
    requires
        upto <= all <= batch.len(),
        state.first_item_error(batch, upto) is Some,
    ensures
        state.first_item_error(batch, all) == state.first_item_error(batch, upto),
    decreases all,
{
    if upto < all {
        lemma_error_stays(state, batch, upto, (all - 1) as nat);
    }
}

/// A batch is refused for its first item that cannot be taken, whatever follows it: for a
/// key that is live or came before, then for a seed, then for a length.
pub proof fn law_batches_are_refused_for_their_first_fault(
    state: LshState,
    front: Seq<(u64, Sketch32)>,
    item: (u64, Sketch32),
    back: Seq<(u64, Sketch32)>,
)
    requires
        forall|i: int|
            0 <= i < front.len() ==> !state.items.contains_key((#[trigger] front[i]).0)
                && front[i].1.seed == state.seed && front[i].1.values.len() == state.num_perm,
        forall|i: int, j: int|
            0 <= i < j < front.len() ==> (#[trigger] front[i]).0 != (#[trigger] front[j]).0,
    ensures
        ({
            let error = state.batch_error(front.push(item) + back);
            if state.items.contains_key(item.0) || exists|j: int|
                0 <= j < front.len() && (#[trigger] front[j]).0 == item.0 {
                error == Some(LshError::DuplicateKey { key: item.0 })
            } else if item.1.seed != state.seed {
                error == Some(
                    LshError::IncompatibleSeed { expected: state.seed, actual: item.1.seed },
                )
            } else {
                item.1.values.len() != state.num_perm ==> error == Some(
                    LshError::IncompatiblePermutationCount {
                        expected: state.num_perm,
                        actual: item.1.values.len() as usize,
                    },
                )
            }
        }),
{
    let batch = front.push(item) + back;
    let at = front.len();
    assert(batch[at as int] == item);
    assert forall|i: int| 0 <= i < at implies #[trigger] batch[i] == front[i] by {}
    lemma_item_errors(state, batch, at);
    assert forall|i: int|
        #![trigger batch[i]]
        0 <= i < at implies state.item_error(batch, i) is None by {
        assert(batch[i] == front[i]);
        if exists|j: int| 0 <= j < i && (#[trigger] batch[j]).0 == batch[i].0 {
            let j = choose|j: int| 0 <= j < i && (#[trigger] batch[j]).0 == batch[i].0;
            assert(front[j].0 != front[i].0);
        }
    }
    assert(state.first_item_error(batch, at) is None);
    if exists|j: int| 0 <= j < front.len() && (#[trigger] front[j]).0 == item.0 {
        let j = choose|j: int| 0 <= j < front.len() && (#[trigger] front[j]).0 == item.0;
        assert(batch[j].0 == item.0);
    }
    if exists|j: int| 0 <= j < at && (#[trigger] batch[j]).0 == item.0 {
        let j = choose|j: int| 0 <= j < at && (#[trigger] batch[j]).0 == item.0;
        assert(front[j].0 == item.0);
    }
    let error = state.first_item_error(batch, at + 1);
    assert(error == state.item_error(batch, at as int));
    if error is Some {
        lemma_error_stays(state, batch, at + 1, batch.len());
    }
}

} // verus!
