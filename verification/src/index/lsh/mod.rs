//! The in-memory LSH index.

pub mod laws;
pub mod pairs;
pub mod stream;

use std::collections::{HashMap, HashSet};
use std::time::Instant;
use vstd::prelude::*;

use crate::index::metrics;
use crate::index::metrics::{LshStats, QueryObserver};
use crate::index::params;
use crate::index::params::{LshError, LshParams};
use crate::order;
use crate::sketch::minhash32::{MinHash32, Sketch32};
use crate::threshold::Threshold;

verus! {

broadcast use vstd::std_specs::hash::group_hash_axioms;

/// What an index holds: its configuration, the band hashes of every live key,
/// and how many internal identifiers have been given out.
#[verifier::ext_equal]
pub struct LshState {
    pub threshold: Threshold,
    pub num_perm: usize,
    pub seed: u64,
    pub params: LshParams,
    pub items: Map<u64, Seq<u64>>,
    pub slots: nat,
}

impl LshState {
    /// Why a sketch does not belong to this index, if it does not: the seeds
    /// are looked at before the permutation counts.
    pub open spec fn sketch_error(self, sketch: Sketch32) -> Option<LshError> {
        if sketch.seed != self.seed {
            Some(LshError::IncompatibleSeed { expected: self.seed, actual: sketch.seed })
        } else if sketch.values.len() != self.num_perm {
            Some(
                LshError::IncompatiblePermutationCount {
                    expected: self.num_perm,
                    actual: sketch.values.len() as usize,
                },
            )
        } else {
            None
        }
    }

    /// Why item number `index` of a batch cannot be inserted, if it cannot.
    pub open spec fn item_error(self, batch: Seq<(u64, Sketch32)>, index: int) -> Option<LshError> {
        let key = batch[index].0;
        if self.items.contains_key(key) || (exists|j: int|
            0 <= j < index && (#[trigger] batch[j]).0 == key) {
            Some(LshError::DuplicateKey { key })
        } else {
            self.sketch_error(batch[index].1)
        }
    }

    /// The error of the first of the first `upto` items of a batch that has
    /// one.
    pub open spec fn first_item_error(self, batch: Seq<(u64, Sketch32)>, upto: nat) -> Option<
        LshError,
    >
        decreases upto,
    {
        if upto == 0 {
            None
        } else {
            match self.first_item_error(batch, (upto - 1) as nat) {
                Some(error) => Some(error),
                None => self.item_error(batch, upto - 1),
            }
        }
    }

    /// Why a batch cannot be inserted, if it cannot: its items come first, in
    /// order, and the room for identifiers last.
    pub open spec fn batch_error(self, batch: Seq<(u64, Sketch32)>) -> Option<LshError> {
        match self.first_item_error(batch, batch.len()) {
            Some(error) => Some(error),
            None => if self.slots + batch.len() > u32::MAX {
                Some(LshError::TooManyItems)
            } else {
                None
            },
        }
    }

    /// The band hashes of a sketch under the parameters of this index.
    pub open spec fn hashes(self, sketch: Sketch32) -> Seq<u64> {
        params::spec_band_hashes(sketch.values, self.params)
    }

    /// The state after a batch has been inserted.
    pub open spec fn with_batch(self, batch: Seq<(u64, Sketch32)>) -> LshState
        decreases batch.len(),
    {
        if batch.len() == 0 {
            self
        } else {
            let front = self.with_batch(batch.drop_last());
            let (key, sketch) = batch.last();
            LshState {
                items: front.items.insert(key, self.hashes(sketch)),
                slots: front.slots + 1,
                ..front
            }
        }
    }

    /// The state after a key has been removed.
    pub open spec fn without(self, key: u64) -> LshState {
        LshState { items: self.items.remove(key), ..self }
    }

    /// A live key shares the bucket of at least one band with `hashes`.
    pub open spec fn is_candidate(self, key: u64, hashes: Seq<u64>) -> bool {
        self.items.contains_key(key) && exists|band: int|
            0 <= band < self.params.bands && #[trigger] self.items[key][band] == hashes[band]
    }

    /// The sequence holds exactly the candidates of a sketch, each once, in
    /// ascending order.
    pub open spec fn is_answer(self, sketch: Sketch32, keys: Seq<u64>) -> bool {
        &&& order::increasing(keys)
        &&& forall|key: u64|
            keys.contains(key) <==> #[trigger] self.is_candidate(key, self.hashes(sketch))
    }

    /// Two live keys share the bucket of at least one band.
    pub open spec fn collide(self, left: u64, right: u64) -> bool {
        &&& self.items.contains_key(left)
        &&& self.items.contains_key(right)
        &&& exists|band: int|
            0 <= band < self.params.bands && #[trigger] self.items[left][band]
                == self.items[right][band]
    }

    /// The live keys in the bucket of `hash` in band `band`.
    pub open spec fn bucket(self, band: int, hash: u64) -> Set<u64> {
        self.items.dom().filter(|key: u64| self.items[key][band] == hash)
    }

    /// Some live key is in the bucket of `hash` in band `band`.
    pub open spec fn occupied(self, band: int, hash: u64) -> bool {
        0 <= band < self.params.bands && exists|key: u64| #[trigger]
            self.items.contains_key(key) && self.items[key][band] == hash
    }

    /// The sizes of all occupied buckets, each bucket once.
    pub open spec fn are_bucket_sizes(self, buckets: Seq<(int, u64)>, sizes: Seq<usize>) -> bool {
        &&& sizes.len() == buckets.len()
        &&& buckets.no_duplicates()
        &&& forall|band: int, hash: u64|
            buckets.contains((band, hash)) <==> #[trigger] self.occupied(band, hash)
        &&& forall|i: int|
            0 <= i < sizes.len() ==> (#[trigger] sizes[i]) == self.bucket(
                buckets[i].0,
                buckets[i].1,
            ).len()
    }

    /// The diagnostics describe this state.
    pub open spec fn described_by(self, stats: LshStats) -> bool {
        &&& stats.items == self.items.dom().len()
        &&& stats.bands == self.params.bands
        &&& stats.rows == self.params.rows
        &&& exists|buckets: Seq<(int, u64)>, sizes: Seq<usize>| #[trigger]
            self.are_bucket_sizes(buckets, sizes) && metrics::summarizes(stats.buckets, sizes)
    }

    /// A query has only one answer.
    pub proof fn law_answer_is_unique(self, sketch: Sketch32, left: Seq<u64>, right: Seq<u64>)
        requires
            self.is_answer(sketch, left),
            self.is_answer(sketch, right),
        ensures
            left == right,
    {
        assert forall|key: u64| left.to_set().contains(key) == right.to_set().contains(key) by {
            assert(left.contains(key) == self.is_candidate(key, self.hashes(sketch)));
            assert(right.contains(key) == self.is_candidate(key, self.hashes(sketch)));
        }
        assert(left.to_set() =~= right.to_set());
        order::law_increasing_is_unique(left, right);
    }

    pub proof fn lemma_with_batch_frame(self, batch: Seq<(u64, Sketch32)>)
        ensures
            self.with_batch(batch) == (LshState {
                items: self.with_batch(batch).items,
                slots: self.slots + batch.len(),
                ..self
            }),
        decreases batch.len(),
    {
        if batch.len() > 0 {
            self.lemma_with_batch_frame(batch.drop_last());
        }
    }

    /// Inserting a batch in one call leaves what inserting its parts in turn
    /// leaves.
    pub proof fn law_batch_equals_parts(
        self,
        left: Seq<(u64, Sketch32)>,
        right: Seq<(u64, Sketch32)>,
    )
        ensures
            self.with_batch(left + right) == self.with_batch(left).with_batch(right),
        decreases right.len(),
    {
        if right.len() == 0 {
            assert(left + right =~= left);
        } else {
            self.law_batch_equals_parts(left, right.drop_last());
            assert((left + right).drop_last() =~= left + right.drop_last());
            self.lemma_with_batch_frame(left);
        }
    }

    /// A key that was just inserted is found by its own sketch.
    pub proof fn law_insert_is_found(self, key: u64, sketch: Sketch32)
        requires
            self.params.bands > 0,
        ensures
            self.with_batch(seq![(key, sketch)]).is_candidate(key, self.hashes(sketch)),
    {
        let batch = seq![(key, sketch)];
        assert(batch.drop_last() =~= Seq::empty());
        assert(batch.last() == (key, sketch));
        assert(self.with_batch(batch.drop_last()) == self);
        let after = self.with_batch(batch);
        assert(after.items[key][0] == self.hashes(sketch)[0]);
    }

    /// Removing a key that was just inserted leaves the items as they were;
    /// only the identifier it used stays used.
    pub proof fn law_remove_undoes_insert(self, key: u64, sketch: Sketch32)
        requires
            !self.items.contains_key(key),
        ensures
            self.with_batch(seq![(key, sketch)]).without(key) == (LshState {
                slots: self.slots + 1,
                ..self
            }),
    {
        let batch = seq![(key, sketch)];
        assert(batch.drop_last() =~= Seq::empty());
        assert(self.with_batch(batch.drop_last()) == self);
        assert(self.items.insert(key, self.hashes(sketch)).remove(key) =~= self.items);
    }

    /// A removed key is never a candidate, and every other key is one exactly
    /// as before.
    pub proof fn law_remove_only_hides_the_key(self, key: u64, other: u64, hashes: Seq<u64>)
        ensures
            !self.without(key).is_candidate(key, hashes),
            other != key ==> self.without(key).is_candidate(other, hashes) == self.is_candidate(
                other,
                hashes,
            ),
    {
        if other != key {
            let after = self.without(key);
            if self.is_candidate(other, hashes) {
                let band = choose|band: int|
                    0 <= band < self.params.bands && #[trigger] self.items[other][band]
                        == hashes[band];
                assert(after.items[other][band] == hashes[band]);
            }
            if after.is_candidate(other, hashes) {
                let band = choose|band: int|
                    0 <= band < self.params.bands && #[trigger] after.items[other][band]
                        == hashes[band];
                assert(self.items[other][band] == hashes[band]);
            }
        }
    }
}

/// Identifiers in ascending order, none twice.
pub open spec fn increasing_ids(ids: Seq<u32>) -> bool {
    forall|i: int, j: int| 0 <= i < j < ids.len() ==> ids[i] < ids[j]
}

/// Identifier `id` is live and its hash in band `band` is `hash`.
pub open spec fn in_bucket(
    slots: Seq<Option<Seq<u64>>>,
    id: int,
    band: int,
    hash: u64,
) -> bool {
    0 <= id < slots.len() && slots[id] is Some && slots[id]->0[band] == hash
}

/// A hash table of one band holds exactly the live identifiers, each under its
/// hash, and no empty bucket.
pub open spec fn table_ok(
    table: Map<u64, Vec<u32>>,
    slots: Seq<Option<Seq<u64>>>,
    band: int,
) -> bool {
    &&& forall|hash: u64| #[trigger]
        table.contains_key(hash) ==> table[hash]@.len() > 0 && increasing_ids(table[hash]@)
    &&& forall|hash: u64, j: int|
        table.contains_key(hash) && 0 <= j < table[hash]@.len() ==> in_bucket(
            slots,
            #[trigger] table[hash]@[j] as int,
            band,
            hash,
        )
    &&& forall|id: int|
        0 <= id < slots.len() && (#[trigger] slots[id]) is Some ==> table.contains_key(
            slots[id]->0[band],
        ) && table[slots[id]->0[band]]@.contains(id as u32)
}

/// The identifiers other than `id`, in their order.
fn without_id(ids: &Vec<u32>, id: u32) -> (kept: Vec<u32>)
    requires
        increasing_ids(ids@),
    ensures
        increasing_ids(kept@),
        forall|x: u32| kept@.contains(x) <==> ids@.contains(x) && x != id,
{
    let mut kept: Vec<u32> = Vec::new();
    let mut index: usize = 0;
    while index < ids.len()
        invariant
            index <= ids@.len(),
            increasing_ids(ids@),
            increasing_ids(kept@),
            forall|j: int|
                0 <= j < kept@.len() ==> kept@[j] != id && ids@.take(index as int).contains(
                    #[trigger] kept@[j],
                ),
            forall|j: int|
                0 <= j < index && ids@[j] != id ==> kept@.contains(#[trigger] ids@[j]),
        decreases ids@.len() - index,
    {
        let current: u32 = ids[index];
        let ghost before = kept@;
        if current != id {
            proof {
                assert forall|j: int| 0 <= j < before.len() implies before[j] < current by {
                    let m = choose|m: int|
                        0 <= m < ids@.take(index as int).len() && ids@.take(index as int)[m]
                            == before[j];
                    assert(ids@[m] == before[j]);
                }
            }
            kept.push(current);
        }
        proof {
            let now = ids@.take(index + 1);
            assert forall|j: int| 0 <= j < kept@.len() implies kept@[j] != id && now.contains(
                #[trigger] kept@[j],
            ) by {
                if j < before.len() {
                    let m = choose|m: int|
                        0 <= m < ids@.take(index as int).len() && ids@.take(index as int)[m]
                            == before[j];
                    assert(now[m] == kept@[j]);
                } else {
                    assert(now[index as int] == kept@[j]);
                }
            }
            assert forall|j: int| 0 <= j < index + 1 && ids@[j] != id implies kept@.contains(
                #[trigger] ids@[j],
            ) by {
                if j < index {
                    let m = choose|m: int| 0 <= m < before.len() && before[m] == ids@[j];
                    assert(kept@[m] == ids@[j]);
                } else {
                    assert(kept@[kept@.len() - 1] == ids@[j]);
                }
            }
        }
        index = index + 1;
    }
    proof {
        assert(ids@.take(index as int) =~= ids@);
        assert forall|x: u32| kept@.contains(x) <==> ids@.contains(x) && x != id by {
            if kept@.contains(x) {
                let j = choose|j: int| 0 <= j < kept@.len() && kept@[j] == x;
                assert(ids@.contains(kept@[j]));
            }
            if ids@.contains(x) && x != id {
                let j = choose|j: int| 0 <= j < ids@.len() && ids@[j] == x;
                assert(kept@.contains(ids@[j]));
            }
        }
    }
    kept
}

/// Put a new identifier, larger than all others, under its hash.
fn table_insert(
    table: &mut HashMap<u64, Vec<u32>>,
    hash: u64,
    id: u32,
    Ghost(slots): Ghost<Seq<Option<Seq<u64>>>>,
    Ghost(hashes): Ghost<Seq<u64>>,
    Ghost(band): Ghost<int>,
)
    requires
        table_ok(old(table)@, slots, band),
        id == slots.len(),
        hashes[band] == hash,
    ensures
        table_ok(final(table)@, slots.push(Some(hashes)), band),
{
    let ghost before = table@;
    let ghost grown = slots.push(Some(hashes));
    let mut ids: Vec<u32> = match table.remove(&hash) {
        Some(ids) => ids,
        None => Vec::new(),
    };
    let ghost old_ids = ids@;
    proof {
        if before.contains_key(hash) {
            assert(old_ids == before[hash]@);
        }
        assert forall|j: int| 0 <= j < old_ids.len() implies in_bucket(
            slots,
            #[trigger] old_ids[j] as int,
            band,
            hash,
        ) by {
            assert(before[hash]@[j] == old_ids[j]);
        }
    }
    ids.push(id);
    table.insert(hash, ids);
    proof {
        let after = table@;
        assert(after =~= before.remove(hash).insert(hash, ids));
        assert forall|h: u64| #[trigger] after.contains_key(h) implies after[h]@.len() > 0
            && increasing_ids(after[h]@) by {
            if h != hash {
                assert(before.contains_key(h));
            }
        }
        assert forall|h: u64, j: int|
            after.contains_key(h) && 0 <= j < after[h]@.len() implies in_bucket(
            grown,
            #[trigger] after[h]@[j] as int,
            band,
            h,
        ) by {
            if h != hash {
                assert(before.contains_key(h));
                assert(before[h]@[j] == after[h]@[j]);
                assert(in_bucket(slots, before[h]@[j] as int, band, h));
            } else if j < old_ids.len() {
                assert(after[h]@[j] == old_ids[j]);
            }
        }
        assert forall|i: int| 0 <= i < grown.len() && (#[trigger] grown[i]) is Some implies after.contains_key(
            grown[i]->0[band],
        ) && after[grown[i]->0[band]]@.contains(i as u32) by {
            let h = grown[i]->0[band];
            if i < slots.len() {
                assert(slots[i] == grown[i]);
                assert(before.contains_key(h));
                if h == hash {
                    let m = choose|m: int| 0 <= m < old_ids.len() && old_ids[m] == i as u32;
                    assert(ids@[m] == i as u32);
                }
            } else {
                assert(ids@[ids@.len() - 1] == i as u32);
            }
        }
    }
}

/// Take an identifier out of the bucket of its hash.
fn table_remove(
    table: &mut HashMap<u64, Vec<u32>>,
    hash: u64,
    id: u32,
    Ghost(slots): Ghost<Seq<Option<Seq<u64>>>>,
    Ghost(band): Ghost<int>,
)
    requires
        table_ok(old(table)@, slots, band),
        slots.len() <= u32::MAX,
        in_bucket(slots, id as int, band, hash),
    ensures
        table_ok(final(table)@, slots.update(id as int, None), band),
{
    let ghost before = table@;
    let ghost shrunk = slots.update(id as int, None);
    let ids: Vec<u32> = match table.remove(&hash) {
        Some(ids) => ids,
        None => Vec::new(),
    };
    proof {
        assert(slots[id as int] is Some);
        assert(before.contains_key(hash));
        assert(ids@ == before[hash]@);
    }
    let kept = without_id(&ids, id);
    let ghost after_remove = table@;
    if kept.len() > 0 {
        table.insert(hash, kept);
    }
    proof {
        let after = table@;
        assert(after_remove =~= before.remove(hash));
        assert forall|h: u64| #[trigger] after.contains_key(h) implies after[h]@.len() > 0
            && increasing_ids(after[h]@) by {
            if h != hash {
                assert(before.contains_key(h));
            }
        }
        assert forall|h: u64, j: int|
            after.contains_key(h) && 0 <= j < after[h]@.len() implies in_bucket(
            shrunk,
            #[trigger] after[h]@[j] as int,
            band,
            h,
        ) by {
            if h != hash {
                assert(before.contains_key(h));
                assert(before[h]@[j] == after[h]@[j]);
                assert(in_bucket(slots, before[h]@[j] as int, band, h));
            } else {
                assert(kept@.contains(kept@[j]));
                let m = choose|m: int| 0 <= m < ids@.len() && ids@[m] == kept@[j];
                assert(in_bucket(slots, before[h]@[m] as int, band, h));
            }
        }
        assert forall|i: int|
            0 <= i < shrunk.len() && (#[trigger] shrunk[i]) is Some implies after.contains_key(
            shrunk[i]->0[band],
        ) && after[shrunk[i]->0[band]]@.contains(i as u32) by {
            let h = shrunk[i]->0[band];
            assert(slots[i] == shrunk[i]);
            assert(i != id);
            assert(before.contains_key(h));
            if h == hash {
                assert(ids@.contains(i as u32));
                assert(kept@.contains(i as u32));
            }
        }
    }
}

/// An in-memory threshold LSH index for [`MinHash32`].
///
/// The index stores compact `u32` identifiers in hash buckets and keeps user
/// keys outside the bucket path. Query results are LSH candidates, sorted by
/// external key; they are not exact similarity verification results.
#[derive(Debug)]
pub struct LshIndex32 {
    threshold: Threshold,
    num_perm: usize,
    seed: u64,
    params: LshParams,
    buckets: Vec<HashMap<u64, Vec<u32>>>,
    key_to_id: HashMap<u64, u32>,
    id_to_key: Vec<Option<u64>>,
    band_hashes: Vec<Option<Vec<u64>>>,
    query_observer: Option<QueryObserver>,
}

/// The band hashes of each identifier.
spec fn slots_of(band_hashes: Seq<Option<Vec<u64>>>) -> Seq<Option<Seq<u64>>> {
    Seq::new(
        band_hashes.len(),
        |i: int|
            match band_hashes[i] {
                Some(hashes) => Some(hashes@),
                None => None::<Seq<u64>>,
            },
    )
}

/// Keys and live identifiers are in one-to-one correspondence.
spec fn keys_ok(
    key_to_id: Map<u64, u32>,
    id_to_key: Seq<Option<u64>>,
    slots: Seq<Option<Seq<u64>>>,
    bands: nat,
) -> bool {
    &&& id_to_key.len() == slots.len()
    &&& slots.len() <= u32::MAX
    &&& forall|key: u64| #[trigger]
        key_to_id.contains_key(key) ==> key_to_id[key] < slots.len()
            && id_to_key[key_to_id[key] as int] == Some(key)
    &&& forall|i: int|
        0 <= i < slots.len() ==> ((#[trigger] id_to_key[i]) is Some <==> slots[i] is Some)
    &&& forall|i: int|
        0 <= i < slots.len() && (#[trigger] id_to_key[i]) is Some ==> key_to_id.contains_key(
            id_to_key[i]->0,
        ) && key_to_id[id_to_key[i]->0] == i
    &&& forall|i: int|
        0 <= i < slots.len() && (#[trigger] slots[i]) is Some ==> slots[i]->0.len() == bands
}

/// The band hashes of each live key.
spec fn items_of(key_to_id: Map<u64, u32>, slots: Seq<Option<Seq<u64>>>) -> Map<u64, Seq<u64>> {
    Map::new(|key: u64| key_to_id.contains_key(key), |key: u64| slots[key_to_id[key] as int]->0)
}

impl View for LshIndex32 {
    type V = LshState;

    closed spec fn view(&self) -> LshState {
        LshState {
            threshold: self.threshold,
            num_perm: self.num_perm,
            seed: self.seed,
            params: self.params,
            items: items_of(self.key_to_id@, slots_of(self.band_hashes@)),
            slots: self.band_hashes@.len(),
        }
    }
}

impl LshIndex32 {
    /// The configuration is valid, keys and identifiers correspond, and the
    /// tables hold exactly the live identifiers.
    pub closed spec fn wf(&self) -> bool {
        let slots = slots_of(self.band_hashes@);
        &&& params::configuration_error(self.threshold, self.num_perm, self.params) is None
        &&& keys_ok(self.key_to_id@, self.id_to_key@, slots, self.params.bands as nat)
        &&& self.buckets@.len() == self.params.bands
        &&& forall|band: int|
            0 <= band < self.params.bands ==> table_ok(
                (#[trigger] self.buckets@[band])@,
                slots,
                band,
            )
    }

    /// Queries are being counted.
    pub closed spec fn observed(&self) -> bool {
        self.query_observer is Some
    }

    /// What the state of a well-formed index satisfies.
    pub proof fn lemma_wf(&self)
        requires
            self.wf(),
        ensures
            params::configuration_error(self@.threshold, self@.num_perm, self@.params) is None,
            self@.slots <= u32::MAX,
            self@.items.dom().finite(),
            forall|key: u64| #[trigger]
                self@.items.contains_key(key) ==> self@.items[key].len() == self@.params.bands,
    {
        broadcast use vstd::std_specs::hash::group_hash_axioms;

        assert(self@.items.dom() =~= self.key_to_id@.dom());
        let slots = slots_of(self.band_hashes@);
        assert forall|key: u64| #[trigger] self@.items.contains_key(key) implies self@.items[key].len()
            == self@.params.bands by {
            let id = self.key_to_id@[key];
            assert(self.id_to_key@[id as int] is Some);
            assert(slots[id as int] is Some);
        }
    }

    /// Create an index with explicit banding parameters.
    pub fn with_params(
        threshold: Threshold,
        num_perm: usize,
        seed: u64,
        params: LshParams,
    ) -> (result: Result<Self, LshError>)
        ensures
            match result {
                Ok(index) => params::configuration_error(threshold, num_perm, params) is None
                    && index.wf() && !index.observed() && index@ == (LshState {
                    threshold,
                    num_perm,
                    seed,
                    params,
                    items: Map::empty(),
                    slots: 0,
                }),
                Err(error) => params::configuration_error(threshold, num_perm, params) == Some(
                    error,
                ),
            },
    {
        match params::validate_threshold(threshold) {
            Ok(()) => {},
            Err(error) => {
                return Err(error);
            },
        }
        match params::validate_num_perm(num_perm) {
            Ok(()) => {},
            Err(error) => {
                return Err(error);
            },
        }
        match params::validate_params(params, num_perm) {
            Ok(()) => {},
            Err(error) => {
                return Err(error);
            },
        }
        let mut buckets: Vec<HashMap<u64, Vec<u32>>> = Vec::new();
        let mut band: usize = 0;
        while band < params.bands
            invariant
                band <= params.bands,
                buckets@.len() == band,
                forall|b: int|
                    0 <= b < band ==> (#[trigger] buckets@[b])@ == Map::<u64, Vec<u32>>::empty(),
            decreases params.bands - band,
        {
            let table: HashMap<u64, Vec<u32>> = HashMap::new();
            buckets.push(table);
            band = band + 1;
        }
        let index = LshIndex32 {
            threshold,
            num_perm,
            seed,
            params,
            buckets,
            key_to_id: HashMap::new(),
            id_to_key: Vec::new(),
            band_hashes: Vec::new(),
            query_observer: None,
        };
        assert(index@.items =~= Map::empty());
        Ok(index)
    }

    /// Create an index with the parameters that the tuner selects among its
    /// candidates by their error estimates.
    pub fn new(
        threshold: Threshold,
        num_perm: usize,
        seed: u64,
        candidates: &[LshParams],
        errors: &[u64],
    ) -> (result: Result<Self, LshError>)
        requires
            candidates@.len() == errors@.len(),
            params::tuning_error(threshold, num_perm) is None ==> params::is_candidate_list(
                candidates@,
                num_perm as nat,
            ),
        ensures
            match result {
                Ok(index) => params::tuning_error(threshold, num_perm) is None && index.wf()
                    && !index.observed() && index@ == (LshState {
                    threshold,
                    num_perm,
                    seed,
                    params: candidates@[LshParams::best(candidates@, errors@, candidates@.len())],
                    items: Map::empty(),
                    slots: 0,
                }),
                Err(error) => params::tuning_error(threshold, num_perm) == Some(error),
            },
    {
        match LshParams::tune(threshold, num_perm, candidates, errors) {
            Ok(params) => Self::with_params(threshold, num_perm, seed, params),
            Err(error) => Err(error),
        }
    }

    /// Insert one key and signature.
    pub fn insert(&mut self, key: u64, sketch: &MinHash32) -> (result: Result<(), LshError>)
        requires
            old(self).wf(),
        ensures
            final(self).wf(),
            final(self).observed() == old(self).observed(),
            result == params::outcome(old(self)@.batch_error(seq![(key, sketch@)])),
            final(self)@ == if result is Ok {
                old(self)@.with_batch(seq![(key, sketch@)])
            } else {
                old(self)@
            },
    {
        let batch = [(key, sketch)];
        let items: &[(u64, &MinHash32)] = &batch;
        assert(batch_of(items@) =~= seq![(key, sketch@)]);
        self.insert_many(items)
    }

    /// Insert a batch atomically with respect to validation failures.
    ///
    /// The entire batch is checked for duplicate keys, incompatible signatures,
    /// and internal capacity before the first bucket is mutated.
    pub fn insert_many(&mut self, items: &[(u64, &MinHash32)]) -> (result: Result<(), LshError>)
        requires
            old(self).wf(),
        ensures
            final(self).wf(),
            final(self).observed() == old(self).observed(),
            result == params::outcome(old(self)@.batch_error(batch_of(items@))),
            final(self)@ == if result is Ok {
                old(self)@.with_batch(batch_of(items@))
            } else {
                old(self)@
            },
    {
        let ghost batch = batch_of(items@);
        let ghost start = self@;
        let mut batch_keys: HashSet<u64> = HashSet::new();
        let mut index: usize = 0;
        while index < items.len()
            invariant
                index <= items@.len(),
                batch == batch_of(items@),
                start == self@,
                self.wf(),
                start.first_item_error(batch, index as nat) is None,
                forall|key: u64|
                    batch_keys@.contains(key) <==> exists|j: int|
                        0 <= j < index && (#[trigger] batch[j]).0 == key,
                forall|j: int|
                    0 <= j < index ==> start.sketch_error((#[trigger] batch[j]).1) is None,
            decreases items@.len() - index,
        {
            let (key, sketch) = items[index];
            assert(batch[index as int] == (key, sketch@));
            proof {
                start.lemma_first_error_stands(batch, (index + 1) as nat, batch.len());
            }
            let ghost keys_before = batch_keys@;
            if self.key_to_id.contains_key(&key) {
                assert(start.items.contains_key(key));
                return Err(LshError::DuplicateKey { key });
            }
            if !batch_keys.insert(key) {
                return Err(LshError::DuplicateKey { key });
            }
            match self.ensure_compatible(sketch) {
                Ok(()) => {},
                Err(error) => {
                    return Err(error);
                },
            }
            proof {
                assert forall|k: u64|
                    batch_keys@.contains(k) <==> exists|j: int|
                        0 <= j < index + 1 && (#[trigger] batch[j]).0 == k by {
                    if batch_keys@.contains(k) {
                        if k == key {
                            assert(batch[index as int].0 == k);
                        } else {
                            assert(keys_before.contains(k));
                            let j = choose|j: int| 0 <= j < index && (#[trigger] batch[j]).0 == k;
                            assert(batch[j].0 == k);
                        }
                    }
                    if exists|j: int| 0 <= j < index + 1 && (#[trigger] batch[j]).0 == k {
                        let j = choose|j: int| 0 <= j < index + 1 && (#[trigger] batch[j]).0 == k;
                        if j < index {
                            assert(keys_before.contains(k));
                        }
                    }
                }
            }
            index = index + 1;
        }
        match self.ensure_capacity(items.len()) {
            Ok(()) => {},
            Err(error) => {
                return Err(error);
            },
        }
        proof {
            start.lemma_no_error_no_duplicate(batch, batch.len());
        }
        index = 0;
        assert(batch.take(0) =~= Seq::empty());
        while index < items.len()
            invariant
                index <= items@.len(),
                batch == batch_of(items@),
                self.wf(),
                self.observed() == old(self).observed(),
                start.slots + batch.len() <= u32::MAX,
                self@ == start.with_batch(batch.take(index as int)),
                forall|j: int|
                    index <= j < batch.len() ==> !self@.items.contains_key(
                        (#[trigger] batch[j]).0,
                    ),
                forall|i: int, j: int|
                    0 <= i < j < batch.len() ==> (#[trigger] batch[i]).0 != (
                    #[trigger] batch[j]).0,
                forall|j: int|
                    0 <= j < batch.len() ==> start.sketch_error((#[trigger] batch[j]).1) is None,
            decreases items@.len() - index,
        {
            let (key, sketch) = items[index];
            proof {
                assert(batch[index as int] == (key, sketch@));
                start.lemma_with_batch_frame(batch.take(index as int));
                let next = batch.take(index + 1);
                assert(next.drop_last() =~= batch.take(index as int));
                assert(next.last() == batch[index as int]);
            }
            self.insert_validated(key, sketch);
            index = index + 1;
        }
        assert(batch.take(index as int) =~= batch);
        Ok(())
    }

    /// Query approximate candidates for one signature.
    pub fn query(&self, sketch: &MinHash32) -> (result: Result<Vec<u64>, LshError>)
        requires
            self.wf(),
        ensures
            match result {
                Ok(keys) => self@.sketch_error(sketch@) is None && self@.is_answer(sketch@, keys@),
                Err(error) => self@.sketch_error(sketch@) == Some(error),
            },
    {
        let started = self.started();
        match self.ensure_compatible(sketch) {
            Ok(()) => {},
            Err(error) => {
                return Err(error);
            },
        }
        let keys = self.candidate_keys(sketch);
        self.observe(&started, 1, keys.len(), self.len());
        Ok(keys)
    }

    /// Query many signatures.
    pub fn query_many(&self, sketches: &[&MinHash32]) -> (result: Result<Vec<Vec<u64>>, LshError>)
        requires
            self.wf(),
        ensures
            match result {
                Ok(rows) => rows@.len() == sketches@.len() && forall|i: int|
                    0 <= i < sketches@.len() ==> self@.sketch_error(
                        (#[trigger] sketches@[i])@,
                    ) is None && self@.is_answer(sketches@[i]@, rows@[i]@),
                Err(error) => exists|i: int|
                    0 <= i < sketches@.len() && self@.sketch_error((#[trigger] sketches@[i])@)
                        == Some(error) && forall|j: int|
                        0 <= j < i ==> self@.sketch_error((#[trigger] sketches@[j])@) is None,
            },
    {
        let started = self.started();
        let mut rows: Vec<Vec<u64>> = Vec::new();
        let mut candidates: usize = 0;
        let mut index: usize = 0;
        while index < sketches.len()
            invariant
                index <= sketches@.len(),
                self.wf(),
                rows@.len() == index,
                forall|i: int|
                    0 <= i < index ==> self@.sketch_error((#[trigger] sketches@[i])@) is None
                        && self@.is_answer(sketches@[i]@, rows@[i]@),
            decreases sketches@.len() - index,
        {
            let sketch = sketches[index];
            match self.ensure_compatible(sketch) {
                Ok(()) => {},
                Err(error) => {
                    assert(self@.sketch_error(sketches@[index as int]@) == Some(error));
                    return Err(error);
                },
            }
            let keys = self.candidate_keys(sketch);
            candidates = candidates.saturating_add(keys.len());
            rows.push(keys);
            index = index + 1;
        }
        let possible: usize = match rows.len().checked_mul(self.len()) {
            Some(possible) => possible,
            None => usize::MAX,
        };
        self.observe(&started, rows.len(), candidates, possible);
        Ok(rows)
    }

    /// Remove a key if it exists, returning whether anything changed.
    pub fn remove(&mut self, key: u64) -> (removed: bool)
        requires
            old(self).wf(),
        ensures
            final(self).wf(),
            final(self).observed() == old(self).observed(),
            removed == old(self)@.items.contains_key(key),
            final(self)@ == old(self)@.without(key),
    {
        let ghost start = *self;
        let ghost slots = slots_of(self.band_hashes@);
        let id: u32 = match self.key_to_id.get(&key) {
            Some(id) => *id,
            None => {
                assert(self@.items.remove(key) =~= self@.items);
                return false;
            },
        };
        let index: usize = id as usize;
        proof {
            assert(self.key_to_id@.contains_key(key));
            assert(self.id_to_key@[index as int] is Some);
            assert(slots[index as int] is Some);
            assert(self.band_hashes@[index as int] is Some);
        }
        let taken: Option<Vec<u64>> = self.band_hashes[index].take();
        let hashes: Vec<u64> = match taken {
            Some(hashes) => hashes,
            None => Vec::new(),
        };
        let ghost shrunk = slots.update(id as int, None);
        assert(slots_of(self.band_hashes@) =~= shrunk);
        assert(slots[index as int] == Some(hashes@));
        self.id_to_key[index] = None;
        let _ = self.key_to_id.remove(&key);
        let mut band: usize = 0;
        while band < hashes.len()
            invariant
                band <= hashes@.len(),
                hashes@.len() == start.params.bands,
                start.wf(),
                slots == slots_of(start.band_hashes@),
                id < slots.len(),
                slots[id as int] == Some(hashes@),
                shrunk == slots.update(id as int, None),
                self.threshold == start.threshold,
                self.num_perm == start.num_perm,
                self.seed == start.seed,
                self.params == start.params,
                self.query_observer == start.query_observer,
                slots_of(self.band_hashes@) == shrunk,
                self.id_to_key@ == start.id_to_key@.update(id as int, None),
                self.key_to_id@ == start.key_to_id@.remove(key),
                self.buckets@.len() == start.params.bands,
                forall|b: int|
                    band <= b < start.params.bands ==> table_ok(
                        (#[trigger] self.buckets@[b])@,
                        slots,
                        b,
                    ),
                forall|b: int|
                    0 <= b < band ==> table_ok((#[trigger] self.buckets@[b])@, shrunk, b),
            decreases hashes@.len() - band,
        {
            table_remove(
                &mut self.buckets[band],
                hashes[band],
                id,
                Ghost(slots),
                Ghost(band as int),
            );
            band = band + 1;
        }
        proof {
            assert(keys_ok(
                self.key_to_id@,
                self.id_to_key@,
                shrunk,
                self.params.bands as nat,
            )) by {
                assert forall|k: u64| #[trigger] self.key_to_id@.contains_key(k) implies self.key_to_id@[k]
                    < shrunk.len() && self.id_to_key@[self.key_to_id@[k] as int] == Some(k) by {
                    assert(start.key_to_id@.contains_key(k));
                    assert(start.id_to_key@[start.key_to_id@[k] as int] == Some(k));
                }
                assert forall|i: int| 0 <= i < shrunk.len() && (#[trigger] self.id_to_key@[i]) is Some implies self.key_to_id@.contains_key(
                self.id_to_key@[i]->0) && self.key_to_id@[self.id_to_key@[i]->0] == i by {
                    assert(start.id_to_key@[i] is Some);
                    assert(start.key_to_id@[start.id_to_key@[i]->0] == i);
                }
                assert forall|i: int| 0 <= i < shrunk.len() implies ((
                #[trigger] self.id_to_key@[i]) is Some <==> shrunk[i] is Some) by {
                    assert(start.id_to_key@[i] is Some <==> slots[i] is Some);
                }
                assert forall|i: int| 0 <= i < shrunk.len() && (#[trigger] shrunk[i]) is Some implies shrunk[i]->0.len()
                    == self.params.bands by {
                    assert(slots[i] is Some);
                }
            }
            assert forall|k: u64| self@.items.contains_key(k) implies #[trigger] self@.items[k]
                == start@.items[k] by {
                assert(start.key_to_id@.contains_key(k));
                assert(start.id_to_key@[start.key_to_id@[k] as int] == Some(k));
            }
            assert(self@.items =~= start@.items.remove(key));
        }
        true
    }

    /// Return whether an external key is currently indexed.
    pub fn contains(&self, key: u64) -> (contained: bool)
        ensures
            contained == self@.items.contains_key(key),
    {
        self.key_to_id.contains_key(&key)
    }

    /// Return the number of live keys.
    pub fn len(&self) -> (len: usize)
        ensures
            len == self@.items.dom().len(),
    {
        assert(self@.items.dom() =~= self.key_to_id@.dom());
        self.key_to_id.len()
    }

    /// Return whether the index contains no live keys.
    pub fn is_empty(&self) -> (empty: bool)
        ensures
            empty == (self@.items.dom() == Set::<u64>::empty()),
    {
        assert(self@.items.dom() =~= self.key_to_id@.dom());
        let empty = self.key_to_id.is_empty();
        proof {
            if empty {
                assert(self@.items.dom() =~= Set::<u64>::empty());
            } else if self@.items.dom() == Set::<u64>::empty() {
                assert(self.key_to_id@ =~= Map::empty());
            }
        }
        empty
    }

    /// Return the configured target threshold.
    pub fn threshold(&self) -> (threshold: Threshold)
        ensures
            threshold == self@.threshold,
    {
        self.threshold
    }

    /// Return the configured signature length.
    pub fn num_perm(&self) -> (num_perm: usize)
        ensures
            num_perm == self@.num_perm,
    {
        self.num_perm
    }

    /// Return the required `MinHash` seed.
    pub fn seed(&self) -> (seed: u64)
        ensures
            seed == self@.seed,
    {
        self.seed
    }

    /// Return the selected banding parameters.
    pub fn params(&self) -> (params: LshParams)
        ensures
            params == self@.params,
    {
        self.params
    }

    /// Enable or disable process-local query observation. Enabling starts from
    /// fresh counters.
    pub fn set_observability(&mut self, enabled: bool)
        requires
            old(self).wf(),
        ensures
            final(self).wf(),
            final(self)@ == old(self)@,
            final(self).observed() == enabled,
    {
        self.query_observer = if enabled {
            Some(QueryObserver::new())
        } else {
            None
        };
    }

    fn started(&self) -> (started: Option<Instant>)
        ensures
            started is Some <==> self.observed(),
    {
        match &self.query_observer {
            Some(_) => Some(Instant::now()),
            None => None,
        }
    }

    fn observe(
        &self,
        started: &Option<Instant>,
        queries: usize,
        candidates: usize,
        possible_candidates: usize,
    ) {
        match (&self.query_observer, started) {
            (Some(observer), Some(instant)) => {
                let span = instant.elapsed();
                observer.record(
                    queries as u64,
                    candidates as u64,
                    possible_candidates as u64,
                    span.as_nanos(),
                );
            },
            _ => {},
        }
    }

    fn ensure_compatible(&self, sketch: &MinHash32) -> (result: Result<(), LshError>)
        ensures
            result == params::outcome(self@.sketch_error(sketch@)),
    {
        let actual: usize = sketch.num_perm();
        if sketch.seed() != self.seed {
            return Err(LshError::IncompatibleSeed { expected: self.seed, actual: sketch.seed() });
        }
        if actual != self.num_perm {
            return Err(
                LshError::IncompatiblePermutationCount { expected: self.num_perm, actual },
            );
        }
        Ok(())
    }

    fn ensure_capacity(&self, additional: usize) -> (result: Result<(), LshError>)
        requires
            self.wf(),
        ensures
            result == params::outcome(
                if self@.slots + additional > u32::MAX {
                    Some(LshError::TooManyItems)
                } else {
                    None::<LshError>
                },
            ),
    {
        assert(self.id_to_key@.len() == self.band_hashes@.len());
        match self.id_to_key.len().checked_add(additional) {
            None => Err(LshError::TooManyItems),
            Some(projected) => {
                if projected as u64 > u32::MAX as u64 {
                    Err(LshError::TooManyItems)
                } else {
                    Ok(())
                }
            },
        }
    }

    fn insert_validated(&mut self, key: u64, sketch: &MinHash32)
        requires
            old(self).wf(),
            old(self)@.sketch_error(sketch@) is None,
            !old(self)@.items.contains_key(key),
            old(self)@.slots < u32::MAX,
        ensures
            final(self).wf(),
            final(self).observed() == old(self).observed(),
            final(self)@ == (LshState {
                items: old(self)@.items.insert(key, old(self)@.hashes(sketch@)),
                slots: old(self)@.slots + 1,
                ..old(self)@
            }),
    {
        let ghost start = *self;
        let ghost slots = slots_of(self.band_hashes@);
        let id: u32 = self.id_to_key.len() as u32;
        let hashes = params::band_hashes(sketch.signature(), self.params);
        let ghost grown = slots.push(Some(hashes@));
        let mut band: usize = 0;
        while band < hashes.len()
            invariant
                band <= hashes@.len(),
                hashes@.len() == start.params.bands,
                start.wf(),
                slots == slots_of(start.band_hashes@),
                id == slots.len(),
                grown == slots.push(Some(hashes@)),
                self.threshold == start.threshold,
                self.num_perm == start.num_perm,
                self.seed == start.seed,
                self.params == start.params,
                self.query_observer == start.query_observer,
                self.band_hashes == start.band_hashes,
                self.id_to_key == start.id_to_key,
                self.key_to_id == start.key_to_id,
                self.buckets@.len() == start.params.bands,
                forall|b: int|
                    band <= b < start.params.bands ==> table_ok(
                        (#[trigger] self.buckets@[b])@,
                        slots,
                        b,
                    ),
                forall|b: int|
                    0 <= b < band ==> table_ok((#[trigger] self.buckets@[b])@, grown, b),
            decreases hashes@.len() - band,
        {
            table_insert(
                &mut self.buckets[band],
                hashes[band],
                id,
                Ghost(slots),
                Ghost(hashes@),
                Ghost(band as int),
            );
            band = band + 1;
        }
        let _ = self.key_to_id.insert(key, id);
        self.id_to_key.push(Some(key));
        self.band_hashes.push(Some(hashes));
        proof {
            assert(slots_of(self.band_hashes@) =~= grown);
            assert(keys_ok(
                self.key_to_id@,
                self.id_to_key@,
                grown,
                self.params.bands as nat,
            )) by {
                assert forall|k: u64| #[trigger] self.key_to_id@.contains_key(k) implies self.key_to_id@[k]
                    < grown.len() && self.id_to_key@[self.key_to_id@[k] as int] == Some(k) by {
                    if k != key {
                        assert(start.key_to_id@.contains_key(k));
                    }
                }
                assert forall|i: int| 0 <= i < grown.len() && (#[trigger] self.id_to_key@[i]) is Some implies self.key_to_id@.contains_key(
                self.id_to_key@[i]->0) && self.key_to_id@[self.id_to_key@[i]->0] == i by {
                    if i < slots.len() {
                        assert(start.id_to_key@[i] is Some);
                        assert(start.key_to_id@.contains_key(start.id_to_key@[i]->0));
                    }
                }
                assert forall|i: int| 0 <= i < grown.len() implies ((
                #[trigger] self.id_to_key@[i]) is Some <==> grown[i] is Some) by {
                    if i < slots.len() {
                        assert(start.id_to_key@[i] is Some <==> slots[i] is Some);
                    }
                }
                assert forall|i: int| 0 <= i < grown.len() && (#[trigger] grown[i]) is Some implies grown[i]->0.len()
                    == self.params.bands by {
                    if i < slots.len() {
                        assert(slots[i] is Some);
                    }
                }
            }
            assert(self@.items =~= start@.items.insert(key, hashes@)) by {
                assert forall|k: u64| self@.items.contains_key(k) implies #[trigger] self@.items[k]
                    == start@.items.insert(key, hashes@)[k] by {
                    if k != key {
                        assert(start.key_to_id@.contains_key(k));
                    }
                }
            }
        }
    }

    fn candidate_keys(&self, sketch: &MinHash32) -> (keys: Vec<u64>)
        requires
            self.wf(),
            self@.sketch_error(sketch@) is None,
        ensures
            self@.is_answer(sketch@, keys@),
    {
        let hashes = params::band_hashes(sketch.signature(), self.params);
        let ghost slots = slots_of(self.band_hashes@);
        let mut found: Vec<u64> = Vec::new();
        let mut band: usize = 0;
        while band < hashes.len()
            invariant
                band <= hashes@.len(),
                hashes@.len() == self.params.bands,
                self.wf(),
                slots == slots_of(self.band_hashes@),
                forall|j: int|
                    0 <= j < found@.len() ==> self@.is_candidate(#[trigger] found@[j], hashes@),
                forall|key: u64, b: int|
                    0 <= b < band && self@.items.contains_key(key)
                        && #[trigger] self@.items[key][b] == hashes@[b] ==> found@.contains(key),
            decreases hashes@.len() - band,
        {
            let ghost before = found@;
            match self.buckets[band].get(&hashes[band]) {
                Some(ids) => {
                    self.push_keys(&mut found, ids, Ghost(band as int), Ghost(hashes@[band as int]));
                    proof {
                        assert forall|j: int| 0 <= j < found@.len() implies self@.is_candidate(
                            #[trigger] found@[j],
                            hashes@,
                        ) by {
                            if j >= before.len() {
                                assert(self@.items[found@[j]][band as int] == hashes@[band as int]);
                            } else {
                                assert(found@[j] == before[j]);
                            }
                        }
                    }
                },
                None => {},
            }
            proof {
                assert forall|key: u64, b: int|
                    0 <= b < band + 1 && self@.items.contains_key(key)
                        && #[trigger] self@.items[key][b] == hashes@[b] implies found@.contains(
                    key,
                ) by {
                    if b < band {
                        assert(before.contains(key));
                        let m = choose|m: int| 0 <= m < before.len() && before[m] == key;
                        assert(found@[m] == key);
                    } else {
                        let id = self.key_to_id@[key];
                        assert(self.id_to_key@[id as int] is Some);
                        assert(slots[id as int] is Some);
                        assert(table_ok(self.buckets@[b]@, slots, b));
                        assert(self.buckets@[b]@.contains_key(slots[id as int]->0[b]));
                    }
                }
            }
            band = band + 1;
        }
        let ghost all = found@;
        let keys = order::sorted_unique(found);
        proof {
            assert forall|key: u64|
                keys@.contains(key) <==> #[trigger] self@.is_candidate(key, hashes@) by {
                assert(keys@.to_set().contains(key) == all.to_set().contains(key));
                if all.contains(key) {
                    let j = choose|j: int| 0 <= j < all.len() && all[j] == key;
                    assert(self@.is_candidate(all[j], hashes@));
                }
                if self@.is_candidate(key, hashes@) {
                    let b = choose|b: int|
                        0 <= b < self@.params.bands && #[trigger] self@.items[key][b] == hashes@[b];
                    assert(all.contains(key));
                }
            }
        }
        keys
    }

    fn push_keys(
        &self,
        found: &mut Vec<u64>,
        ids: &Vec<u32>,
        Ghost(band): Ghost<int>,
        Ghost(hash): Ghost<u64>,
    )
        requires
            self.wf(),
            0 <= band < self@.params.bands,
            forall|j: int|
                0 <= j < ids@.len() ==> self.holds(band, hash, #[trigger] ids@[j]),
        ensures
            old(found)@.len() <= final(found)@.len(),
            forall|j: int|
                0 <= j < old(found)@.len() ==> (#[trigger] final(found)@[j]) == old(found)@[j],
            forall|j: int|
                old(found)@.len() <= j < final(found)@.len() ==> self@.items.contains_key(
                    #[trigger] final(found)@[j],
                ) && self@.items[final(found)@[j]][band] == hash,
            forall|key: u64|
                self@.items.contains_key(key) && ids@.contains(
                    self.id_of(key),
                ) ==> #[trigger] final(found)@.contains(key),
    {
        let ghost start = found@;
        let mut index: usize = 0;
        while index < ids.len()
            invariant
                index <= ids@.len(),
                self.wf(),
                0 <= band < self@.params.bands,
                forall|j: int|
                    0 <= j < ids@.len() ==> self.holds(band, hash, #[trigger] ids@[j]),
                start.len() <= found@.len(),
                forall|j: int| 0 <= j < start.len() ==> (#[trigger] found@[j]) == start[j],
                forall|j: int|
                    start.len() <= j < found@.len() ==> self@.items.contains_key(
                        #[trigger] found@[j],
                    ) && self@.items[found@[j]][band] == hash,
                forall|j: int|
                    0 <= j < index ==> found@.contains(
                        self.id_to_key@[(#[trigger] ids@[j]) as int]->0,
                    ),
            decreases ids@.len() - index,
        {
            let ghost before = found@;
            let slot: usize = ids[index] as usize;
            assert(self.holds(band, hash, ids@[index as int]));
            match self.id_to_key[slot] {
                Some(key) => {
                    found.push(key);
                    assert(found@[found@.len() - 1] == key);
                },
                None => {},
            }
            proof {
                assert forall|j: int| 0 <= j < index + 1 implies found@.contains(
                    self.id_to_key@[(#[trigger] ids@[j]) as int]->0,
                ) by {
                    if j < index {
                        let key = self.id_to_key@[ids@[j] as int]->0;
                        let m = choose|m: int| 0 <= m < before.len() && before[m] == key;
                        assert(found@[m] == key);
                    }
                }
            }
            index = index + 1;
        }
        proof {
            assert forall|key: u64|
                self@.items.contains_key(key) && ids@.contains(self.id_of(key)) implies
                #[trigger] found@.contains(key) by {
                let j = choose|j: int| 0 <= j < ids@.len() && ids@[j] == self.id_of(key);
                assert(found@.contains(self.id_to_key@[ids@[j] as int]->0));
            }
        }
    }

    /// The identifier of a live key.
    spec fn id_of(&self, key: u64) -> u32 {
        self.key_to_id@[key]
    }

    /// Identifier `id` is live and its hash in band `band` is `hash`.
    spec fn holds(&self, band: int, hash: u64, id: u32) -> bool {
        in_bucket(slots_of(self.band_hashes@), id as int, band, hash)
    }
}

/// A batch as the index sees it: keys and what their sketches stand for.
pub open spec fn batch_of(items: Seq<(u64, &MinHash32)>) -> Seq<(u64, Sketch32)> {
    items.map_values(|item: (u64, &MinHash32)| (item.0, item.1@))
}

impl LshState {
    /// The first error of a batch stays the first when more items follow.
    proof fn lemma_first_error_stands(self, batch: Seq<(u64, Sketch32)>, upto: nat, more: nat)
        requires
            upto <= more,
        ensures
            self.first_item_error(batch, upto) is Some ==> self.first_item_error(batch, more)
                == self.first_item_error(batch, upto),
        decreases more,
    {
        if upto < more {
            self.lemma_first_error_stands(batch, upto, (more - 1) as nat);
        }
    }

    /// In a batch without an error no key is live and none occurs twice.
    pub proof fn lemma_no_error_no_duplicate(self, batch: Seq<(u64, Sketch32)>, upto: nat)
        requires
            self.first_item_error(batch, upto) is None,
            upto <= batch.len(),
        ensures
            forall|j: int|
                0 <= j < upto ==> !self.items.contains_key((#[trigger] batch[j]).0)
                    && self.sketch_error(batch[j].1) is None,
            forall|i: int, j: int|
                0 <= i < j < upto ==> (#[trigger] batch[i]).0 != (#[trigger] batch[j]).0,
        decreases upto,
    {
        if upto > 0 {
            self.lemma_no_error_no_duplicate(batch, (upto - 1) as nat);
            assert(self.item_error(batch, upto - 1) is None);
        }
    }
}

/// A batch holds every given item, in the given order: its key and what its sketch holds.
pub proof fn law_batches_hold_every_item(items: Seq<(u64, &MinHash32)>)
    ensures
        batch_of(items).len() == items.len(),
        forall|i: int| 0 <= i < items.len() ==> #[trigger] batch_of(items)[i] == (items[i].0, items[i].1@),
{
}

} // verus!
