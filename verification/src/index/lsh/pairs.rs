//! Candidate pairs and duplicate groups of an index.

use vstd::prelude::*;

use crate::index::grouping;
use crate::index::grouping::{DuplicateGroup, GroupError};
use crate::index::lsh;
use crate::index::lsh::{LshIndex32, LshState};
use crate::index::metrics::{BucketDistribution, LshStats};
use crate::index::union_find::UnionFind;
use crate::order;

verus! {

broadcast use vstd::std_specs::hash::group_hash_axioms;

impl LshIndex32 {
    /// The hashes of the occupied buckets of a band, in ascending order.
    pub(super) fn bucket_hashes(&self, band: usize) -> (hashes: Vec<u64>)
        requires
            self.wf(),
            band < self@.params.bands,
        ensures
            order::increasing(hashes@),
            forall|hash: u64|
                hashes@.contains(hash) <==> #[trigger] self.buckets@[band as int]@.contains_key(
                    hash,
                ),
    {
        let ghost slots = lsh::slots_of(self.band_hashes@);
        let ghost table = self.buckets@[band as int]@;
        let mut found: Vec<u64> = Vec::new();
        let mut index: usize = 0;
        while index < self.band_hashes.len()
            invariant
                index <= self.band_hashes@.len(),
                self.wf(),
                band < self.params.bands,
                slots == lsh::slots_of(self.band_hashes@),
                table == self.buckets@[band as int]@,
                forall|j: int| 0 <= j < found@.len() ==> table.contains_key(#[trigger] found@[j]),
                forall|i: int|
                    0 <= i < index && (#[trigger] slots[i]) is Some ==> found@.contains(
                        slots[i]->0[band as int],
                    ),
            decreases self.band_hashes@.len() - index,
        {
            let ghost before = found@;
            assert(lsh::table_ok(self.buckets@[band as int]@, slots, band as int));
            match &self.band_hashes[index] {
                Some(hashes) => {
                    assert(slots[index as int] == Some(hashes@));
                    found.push(hashes[band]);
                    assert(found@[found@.len() - 1] == slots[index as int]->0[band as int]);
                },
                None => {
                    assert(slots[index as int] is None);
                },
            }
            proof {
                assert forall|i: int| 0 <= i < index + 1 && (
                #[trigger] slots[i]) is Some implies found@.contains(
                    slots[i]->0[band as int],
                ) by {
                    if i < index {
                        let hash = slots[i]->0[band as int];
                        let m = choose|m: int| 0 <= m < before.len() && before[m] == hash;
                        assert(found@[m] == hash);
                    }
                }
            }
            index = index + 1;
        }
        let ghost all = found@;
        let hashes = order::sorted_unique(found);
        proof {
            assert(lsh::table_ok(table, slots, band as int));
            assert forall|hash: u64|
                hashes@.contains(hash) <==> #[trigger] table.contains_key(hash) by {
                assert(hashes@.to_set().contains(hash) == all.to_set().contains(hash));
                if all.contains(hash) {
                    let j = choose|j: int| 0 <= j < all.len() && all[j] == hash;
                    assert(table.contains_key(all[j]));
                }
                if table.contains_key(hash) {
                    let id = table[hash]@[0] as int;
                    assert(lsh::in_bucket(slots, table[hash]@[0] as int, band as int, hash));
                    assert(slots[id] is Some);
                    assert(all.contains(hash));
                }
            }
        }
        hashes
    }

    /// The key of a live identifier.
    pub(crate) closed spec fn key_at(&self, id: int) -> u64 {
        self.id_to_key@[id]->0
    }

    /// The identifier is in use.
    pub(crate) closed spec fn is_live(&self, id: int) -> bool {
        0 <= id < self.id_to_key@.len() && self.id_to_key@[id] is Some
    }

    /// The hash of a live identifier in a band.
    pub(crate) closed spec fn hash_at(&self, id: int, band: int) -> u64 {
        lsh::slots_of(self.band_hashes@)[id]->0[band]
    }

    pub(super) proof fn lemma_live(&self, id: int)
        requires
            self.wf(),
            self.is_live(id),
        ensures
            self.id_to_key@.len() <= u32::MAX,
            self.band_hashes@.len() == self.id_to_key@.len(),
            self@.items.contains_key(self.key_at(id)),
            self.key_to_id@[self.key_at(id)] == id,
            forall|band: int| self@.items[self.key_at(id)][band] == self.hash_at(id, band),
    {
        assert(self.id_to_key@[id] is Some);
        assert(self.key_to_id@.contains_key(self.id_to_key@[id]->0));
    }

    pub(super) proof fn lemma_key_is_live(&self, key: u64)
        requires
            self.wf(),
            self@.items.contains_key(key),
        ensures
            self.is_live(self.key_to_id@[key] as int),
            self.key_at(self.key_to_id@[key] as int) == key,
    {
        assert(self.key_to_id@.contains_key(key));
    }

    /// Identifiers of a bucket are live, and their keys are the bucket's keys.
    pub(super) proof fn lemma_bucket(&self, band: int, hash: u64)
        requires
            self.wf(),
            0 <= band < self@.params.bands,
            self.buckets@[band]@.contains_key(hash),
        ensures
            self.buckets@[band]@[hash]@.len() > 0,
            lsh::increasing_ids(self.buckets@[band]@[hash]@),
            forall|j: int|
                0 <= j < self.buckets@[band]@[hash]@.len() ==> self.is_live(
                    (#[trigger] self.buckets@[band]@[hash]@[j]) as int,
                ) && self.hash_at(self.buckets@[band]@[hash]@[j] as int, band) == hash,
    {
        let slots = lsh::slots_of(self.band_hashes@);
        let ids = self.buckets@[band]@[hash]@;
        assert(lsh::table_ok(self.buckets@[band]@, slots, band));
        assert forall|j: int| 0 <= j < ids.len() implies self.is_live((#[trigger] ids[j]) as int)
            && self.hash_at(ids[j] as int, band) == hash by {
            assert(lsh::in_bucket(slots, self.buckets@[band]@[hash]@[j] as int, band, hash));
            assert(slots[ids[j] as int] is Some);
            assert(self.id_to_key@[ids[j] as int] is Some);
        }
    }

    /// A live identifier is in the bucket of its hash.
    pub(super) proof fn lemma_in_bucket(&self, id: int, band: int)
        requires
            self.wf(),
            self.is_live(id),
            0 <= band < self@.params.bands,
        ensures
            self.buckets@[band]@.contains_key(self.hash_at(id, band)),
            self.buckets@[band]@[self.hash_at(id, band)]@.contains(id as u32),
    {
        let slots = lsh::slots_of(self.band_hashes@);
        assert(lsh::table_ok(self.buckets@[band]@, slots, band));
        assert(self.id_to_key@[id] is Some);
        assert(slots[id] is Some);
    }

    pub(super) proof fn lemma_bucket_size(&self, band: int, hash: u64)
        requires
            self.wf(),
            0 <= band < self@.params.bands,
            self.buckets@[band]@.contains_key(hash),
        ensures
            self.buckets@[band]@[hash]@.len() == self@.bucket(band, hash).len(),
            self@.occupied(band, hash),
    {
        let ids = self.buckets@[band]@[hash]@;
        let keys = Seq::new(ids.len(), |j: int| self.key_at(ids[j] as int));
        self.lemma_bucket(band, hash);
        assert forall|i: int, j: int|
            0 <= i < keys.len() && 0 <= j < keys.len() && i != j implies keys[i] != keys[j] by {
            self.lemma_live(ids[i] as int);
            self.lemma_live(ids[j] as int);
            assert(ids[i] != ids[j]);
        }
        assert(keys.no_duplicates());
        keys.unique_seq_to_set();
        assert forall|key: u64| keys.to_set().contains(key) == self@.bucket(band, hash).contains(
            key,
        ) by {
            if keys.contains(key) {
                let j = choose|j: int| 0 <= j < keys.len() && keys[j] == key;
                self.lemma_live(ids[j] as int);
            }
            if self@.bucket(band, hash).contains(key) {
                self.lemma_key_is_live(key);
                let id = self.key_to_id@[key] as int;
                self.lemma_live(id);
                self.lemma_in_bucket(id, band);
                let j = choose|j: int| 0 <= j < ids.len() && ids[j] == id as u32;
                assert(keys[j] == key);
            }
        }
        assert(keys.to_set() =~= self@.bucket(band, hash));
        self.lemma_live(ids[0] as int);
        assert(self@.items.contains_key(keys[0]));
    }

    /// Return exact on-demand bucket diagnostics and optional query metrics.
    pub fn stats(&self) -> (stats: LshStats)
        requires
            self.wf(),
        ensures
            self@.described_by(stats),
            stats.queries is Some == self.observed(),
    {
        let mut sizes: Vec<usize> = Vec::new();
        let ghost mut buckets: Seq<(int, u64)> = Seq::empty();
        let mut band: usize = 0;
        while band < self.params.bands
            invariant
                band <= self.params.bands,
                self.wf(),
                sizes@.len() == buckets.len(),
                buckets.no_duplicates(),
                self.lists_occupied(buckets, band as int),
                forall|i: int|
                    0 <= i < sizes@.len() ==> (#[trigger] sizes@[i]) == self@.bucket(
                        buckets[i].0,
                        buckets[i].1,
                    ).len(),
            decreases self.params.bands - band,
        {
            let hashes = self.bucket_hashes(band);
            let ghost earlier = buckets;
            let mut index: usize = 0;
            while index < hashes.len()
                invariant
                    index <= hashes@.len(),
                    band < self.params.bands,
                    self.wf(),
                    order::increasing(hashes@),
                    forall|hash: u64|
                        hashes@.contains(hash)
                            <==> #[trigger] self.buckets@[band as int]@.contains_key(hash),
                    sizes@.len() == buckets.len(),
                    buckets == earlier + Seq::new(
                        index as nat,
                        |i: int| (band as int, hashes@[i]),
                    ),
                    forall|i: int|
                        0 <= i < sizes@.len() ==> (#[trigger] sizes@[i]) == self@.bucket(
                            buckets[i].0,
                            buckets[i].1,
                        ).len(),
                decreases hashes@.len() - index,
            {
                let hash: u64 = hashes[index];
                proof {
                    assert(hashes@.contains(hashes@[index as int]));
                    assert(self.buckets@[band as int]@.contains_key(hash));
                    self.lemma_bucket_size(band as int, hash);
                }
                let size: usize = match self.buckets[band].get(&hash) {
                    Some(ids) => ids.len(),
                    None => 0,
                };
                let ghost shorter = buckets;
                sizes.push(size);
                proof {
                    buckets = buckets.push((band as int, hash));
                    assert(buckets =~= earlier + Seq::new(
                        (index + 1) as nat,
                        |i: int| (band as int, hashes@[i]),
                    ));
                    assert forall|i: int| 0 <= i < sizes@.len() implies (#[trigger] sizes@[i])
                        == self@.bucket(buckets[i].0, buckets[i].1).len() by {
                        if i < shorter.len() {
                            assert(buckets[i] == shorter[i]);
                        }
                    }
                }
                index = index + 1;
            }
            proof {
                self.lemma_band_listed(
                    earlier,
                    buckets,
                    hashes@,
                    band as int,
                );
            }
            band = band + 1;
        }
        assert(self@.are_bucket_sizes(buckets, sizes@)) by {
            assert forall|b: int, hash: u64|
                buckets.contains((b, hash)) <==> #[trigger] self@.occupied(b, hash) by {
                assert(buckets.contains((b, hash)) == (0 <= b < band && self@.occupied(b, hash)));
            }
        }
        LshStats {
            items: self.len(),
            bands: self.params.bands,
            rows: self.params.rows,
            buckets: BucketDistribution::from_sizes(sizes.as_slice()),
            queries: match &self.query_observer {
                Some(observer) => Some(observer.snapshot()),
                None => None,
            },
        }
    }

    /// The list holds exactly the occupied buckets of the first `upto` bands.
    spec fn lists_occupied(&self, buckets: Seq<(int, u64)>, upto: int) -> bool {
        forall|band: int, hash: u64| #[trigger]
            buckets.contains((band, hash)) == (0 <= band < upto && self@.occupied(band, hash))
    }

    proof fn lemma_band_listed(
        &self,
        earlier: Seq<(int, u64)>,
        buckets: Seq<(int, u64)>,
        hashes: Seq<u64>,
        band: int,
    )
        requires
            self.wf(),
            0 <= band < self@.params.bands,
            order::increasing(hashes),
            forall|hash: u64|
                hashes.contains(hash) <==> #[trigger] self.buckets@[band]@.contains_key(hash),
            buckets == earlier + Seq::new(hashes.len(), |i: int| (band, hashes[i])),
            earlier.no_duplicates(),
            self.lists_occupied(earlier, band),
        ensures
            buckets.no_duplicates(),
            self.lists_occupied(buckets, band + 1),
    {
        let added = Seq::new(hashes.len(), |i: int| (band, hashes[i]));
        assert forall|i: int, j: int|
            0 <= i < buckets.len() && 0 <= j < buckets.len() && i != j implies buckets[i]
            != buckets[j] by {
            if i < earlier.len() && j < earlier.len() {
                assert(earlier[i] == buckets[i] && earlier[j] == buckets[j]);
            } else if i < earlier.len() {
                assert(earlier[i] == buckets[i]);
                assert(earlier.contains((buckets[i].0, buckets[i].1)));
            } else if j < earlier.len() {
                assert(earlier[j] == buckets[j]);
                assert(earlier.contains((buckets[j].0, buckets[j].1)));
            } else {
                let a = i - earlier.len();
                let b = j - earlier.len();
                assert(hashes[a] != hashes[b]);
            }
        }
        assert forall|b: int, hash: u64| #[trigger]
            buckets.contains((b, hash)) == (0 <= b < band + 1 && self@.occupied(b, hash)) by {
            if buckets.contains((b, hash)) {
                let i = choose|i: int| 0 <= i < buckets.len() && buckets[i] == (b, hash);
                if i < earlier.len() {
                    assert(earlier[i] == (b, hash));
                    assert(earlier.contains((b, hash)));
                } else {
                    let k = i - earlier.len();
                    assert(hashes[k] == hash);
                    assert(hashes.contains(hash));
                    assert(self.buckets@[band]@.contains_key(hash));
                    self.lemma_bucket_size(band, hash);
                }
            }
            if 0 <= b < band + 1 && self@.occupied(b, hash) {
                if b < band {
                    assert(earlier.contains((b, hash)));
                    let i = choose|i: int| 0 <= i < earlier.len() && earlier[i] == (b, hash);
                    assert(buckets[i] == (b, hash));
                } else {
                    let key = choose|key: u64| #[trigger]
                        self@.items.contains_key(key) && self@.items[key][band] == hash;
                    self.lemma_key_is_live(key);
                    let id = self.key_to_id@[key] as int;
                    self.lemma_live(id);
                    self.lemma_in_bucket(id, band);
                    assert(self.buckets@[band]@.contains_key(hash));
                    let k = choose|k: int| 0 <= k < hashes.len() && hashes[k] == hash;
                    assert(buckets[earlier.len() + k] == (b, hash));
                }
            }
        }
    }
}

/// The edges are collisions that the verifier accepted, and it refused every
/// collision whose keys they do not link.
pub open spec fn is_verified_graph<F: Fn(u64, u64) -> bool>(
    state: LshState,
    verify: F,
    edges: Seq<(u64, u64)>,
) -> bool {
    &&& forall|i: int|
        0 <= i < edges.len() ==> is_accepted(state, verify, #[trigger] edges[i])
    &&& forall|left: u64, right: u64|
        left < right && #[trigger] state.collide(left, right) ==> grouping::linked(
            edges,
            left,
            right,
        ) || verify.ensures((left, right), false)
}

/// The verifier can be asked about every normalized collision of live keys.
pub open spec fn takes_collisions<F: Fn(u64, u64) -> bool>(state: LshState, verify: F) -> bool {
    forall|a: u64, b: u64|
        a < b && state.collide(a, b) ==> #[trigger] verify.requires((a, b))
}

/// The edge is a normalized collision that the verifier may accept.
pub open spec fn is_accepted<F: Fn(u64, u64) -> bool>(
    state: LshState,
    verify: F,
    edge: (u64, u64),
) -> bool {
    edge.0 < edge.1 && state.collide(edge.0, edge.1) && verify.ensures(edge, true)
}

/// The answers of a verifier depend on nothing but the keys.
pub open spec fn answers_as<F: Fn(u64, u64) -> bool>(
    verify: F,
    answer: spec_fn(u64, u64) -> bool,
) -> bool {
    forall|left: u64, right: u64, given: bool| #[trigger]
        verify.ensures((left, right), given) ==> given == answer(left, right)
}

/// The edges are the normalized collisions for which the answer is yes.
pub open spec fn are_accepted_collisions(
    state: LshState,
    answer: spec_fn(u64, u64) -> bool,
    edges: Seq<(u64, u64)>,
) -> bool {
    forall|left: u64, right: u64|
        #![trigger edges.contains((left, right))]
        #![trigger state.collide(left, right)]
        edges.contains((left, right)) <==> left < right && state.collide(left, right) && answer(
            left,
            right,
        )
}

/// Where the answers of the verifier depend on the keys alone, it does not matter
/// which collisions it was asked about: keys are linked exactly where accepted
/// collisions lead from one to the other.
pub proof fn law_pure_verifier_fixes_the_groups<F: Fn(u64, u64) -> bool>(
    state: LshState,
    verify: F,
    answer: spec_fn(u64, u64) -> bool,
    edges: Seq<(u64, u64)>,
    every: Seq<(u64, u64)>,
    left: u64,
    right: u64,
)
    requires
        is_verified_graph(state, verify, edges),
        answers_as(verify, answer),
        are_accepted_collisions(state, answer, every),
    ensures
        grouping::linked(edges, left, right) == grouping::linked(every, left, right),
{
    assert forall|a: u64, b: u64| edges.contains((a, b)) implies #[trigger] every.contains(
        (a, b),
    ) by {
        let i = choose|i: int| 0 <= i < edges.len() && edges[i] == (a, b);
        assert(is_accepted(state, verify, edges[i]));
    }
    if grouping::linked(edges, left, right) {
        assert forall|a: u64, b: u64| #[trigger]
            grouping::adjacent(edges, a, b) implies grouping::adjacent(every, a, b) by {
            if edges.contains((a, b)) {
                assert(every.contains((a, b)));
            } else {
                assert(every.contains((b, a)));
            }
        }
        grouping::lemma_linked_monotone(edges, every, left, right);
    }
    if grouping::linked(every, left, right) {
        let path = choose|path: Seq<u64>| #[trigger]
            grouping::is_path(every, path) && path.first() == left && path.last() == right;
        lemma_path_is_linked(state, verify, answer, edges, every, path);
    }
}

proof fn lemma_path_is_linked<F: Fn(u64, u64) -> bool>(
    state: LshState,
    verify: F,
    answer: spec_fn(u64, u64) -> bool,
    edges: Seq<(u64, u64)>,
    every: Seq<(u64, u64)>,
    path: Seq<u64>,
)
    requires
        is_verified_graph(state, verify, edges),
        answers_as(verify, answer),
        are_accepted_collisions(state, answer, every),
        grouping::is_path(every, path),
    ensures
        grouping::linked(edges, path.first(), path.last()),
    decreases path.len(),
{
    if path.len() == 1 {
        grouping::lemma_linked_reflexive(edges, path.first());
    } else {
        let front = path.drop_last();
        assert forall|i: int| 0 <= i < front.len() - 1 implies grouping::adjacent(
            every,
            #[trigger] front[i],
            front[i + 1],
        ) by {
            assert(grouping::adjacent(every, path[i], path[i + 1]));
        }
        lemma_path_is_linked(state, verify, answer, edges, every, front);
        let k = path.len() - 2;
        let a = path[k];
        let b = path[k + 1];
        assert(grouping::adjacent(every, path[k], path[k + 1]));
        if every.contains((a, b)) {
            assert(state.collide(a, b));
            assert(grouping::linked(edges, a, b));
        } else {
            assert(every.contains((b, a)));
            assert(state.collide(b, a));
            assert(grouping::linked(edges, b, a));
            grouping::lemma_linked_symmetric(edges, b, a);
        }
        grouping::lemma_linked_transitive(edges, path.first(), a, b);
    }
}

/// The edges are collisions, and they link the keys of every collision.
pub open spec fn is_collision_graph(state: LshState, edges: Seq<(u64, u64)>) -> bool {
    &&& forall|i: int|
        0 <= i < edges.len() ==> state.collide((#[trigger] edges[i]).0, edges[i].1)
    &&& forall|left: u64, right: u64|
        left != right && #[trigger] state.collide(left, right) ==> grouping::linked(
            edges,
            left,
            right,
        )
}

/// The smaller and the larger of two keys.
pub fn ordered_pair(left: u64, right: u64) -> (pair: (u64, u64))
    ensures
        pair == spec_ordered_pair(left, right),
{
    if left <= right {
        (left, right)
    } else {
        (right, left)
    }
}

/// The smaller and the larger of two keys.
pub open spec fn spec_ordered_pair(left: u64, right: u64) -> (u64, u64) {
    if left <= right {
        (left, right)
    } else {
        (right, left)
    }
}

impl LshIndex32 {
    /// The forest joins what accepted edges link.
    spec fn forest_ok<F: Fn(u64, u64) -> bool>(
        &self,
        forest: UnionFind,
        verify: F,
        edges: Seq<(u64, u64)>,
    ) -> bool {
        &&& forest.wf()
        &&& forest.size() == self.id_to_key@.len()
        &&& forall|i: int|
            0 <= i < edges.len() ==> is_accepted(self@, verify, #[trigger] edges[i])
        &&& forall|i: int|
            0 <= i < edges.len() ==> forest.joined(
                self.key_to_id@[(#[trigger] edges[i]).0] as int,
                self.key_to_id@[edges[i].1] as int,
            )
        &&& forall|i: int, j: int|
            self.is_live(i) && self.is_live(j) && #[trigger] forest.joined(i, j)
                ==> grouping::linked(edges, self.key_at(i), self.key_at(j))
    }

    /// The identifiers are joined, or the verifier refused their keys.
    spec fn settled<F: Fn(u64, u64) -> bool>(
        &self,
        forest: UnionFind,
        verify: F,
        left: int,
        right: int,
    ) -> bool {
        forest.joined(left, right) || verify.ensures(
            spec_ordered_pair(self.key_at(left), self.key_at(right)),
            false,
        )
    }

    proof fn lemma_union<F: Fn(u64, u64) -> bool>(
        &self,
        before: UnionFind,
        after: UnionFind,
        verify: F,
        edges: Seq<(u64, u64)>,
        left: int,
        right: int,
        edge: (u64, u64),
    )
        requires
            self.wf(),
            self.forest_ok(before, verify, edges),
            self.is_live(left),
            self.is_live(right),
            edge == spec_ordered_pair(self.key_at(left), self.key_at(right)),
            is_accepted(self@, verify, edge),
            after.wf(),
            after.size() == before.size(),
            forall|i: int, j: int|
                0 <= i < before.size() && 0 <= j < before.size() ==> (#[trigger] after.joined(
                    i,
                    j,
                ) <==> before.joined(i, j) || (before.joined(i, left) && before.joined(j, right))
                    || (before.joined(i, right) && before.joined(j, left))),
        ensures
            self.forest_ok(after, verify, edges.push(edge)),
            after.joined(left, right),
            forall|i: int, j: int|
                0 <= i < before.size() && 0 <= j < before.size() && #[trigger] before.joined(
                    i,
                    j,
                ) ==> after.joined(i, j),
    {
        let more = edges.push(edge);
        let a = self.key_at(left);
        let b = self.key_at(right);
        self.lemma_live(left);
        self.lemma_live(right);
        assert(before.joined(left, left) && before.joined(right, right));
        assert(after.joined(left, right));
        assert(after.joined(right, left));
        grouping::lemma_push_adjacent(edges, edge);
        assert forall|i: int| 0 <= i < more.len() implies after.joined(
            self.key_to_id@[(#[trigger] more[i]).0] as int,
            self.key_to_id@[more[i].1] as int,
        ) && is_accepted(self@, verify, more[i]) by {
            if i < edges.len() {
                assert(more[i] == edges[i]);
                assert(is_accepted(self@, verify, edges[i]));
                self.lemma_key_is_live(edges[i].0);
                self.lemma_key_is_live(edges[i].1);
                let x = self.key_to_id@[edges[i].0] as int;
                let y = self.key_to_id@[edges[i].1] as int;
                assert(before.joined(x, y));
                assert(after.joined(x, y));
            }
        }
        grouping::lemma_edge_links(more, edge.0, edge.1);
        grouping::lemma_linked_symmetric(more, edge.0, edge.1);
        assert(grouping::linked(more, a, b) && grouping::linked(more, b, a));
        assert forall|i: int, j: int|
            self.is_live(i) && self.is_live(j) && #[trigger] after.joined(
                i,
                j,
            ) implies grouping::linked(more, self.key_at(i), self.key_at(j)) by {
            let x = self.key_at(i);
            let y = self.key_at(j);
            if before.joined(i, j) {
                grouping::lemma_linked_monotone(edges, more, x, y);
            } else if before.joined(i, left) && before.joined(j, right) {
                grouping::lemma_linked_monotone(edges, more, x, a);
                grouping::lemma_linked_monotone(edges, more, y, b);
                grouping::lemma_linked_symmetric(more, y, b);
                grouping::lemma_linked_transitive(more, x, a, b);
                grouping::lemma_linked_transitive(more, x, b, y);
            } else {
                grouping::lemma_linked_monotone(edges, more, x, b);
                grouping::lemma_linked_monotone(edges, more, y, a);
                grouping::lemma_linked_symmetric(more, y, a);
                grouping::lemma_linked_transitive(more, x, b, a);
                grouping::lemma_linked_transitive(more, x, a, y);
            }
        }
    }

    /// Settle one pair of identifiers of a bucket.
    fn settle<F: Fn(u64, u64) -> bool>(
        &self,
        forest: &mut UnionFind,
        verify: &F,
        left: u32,
        right: u32,
        Ghost(band): Ghost<int>,
        Ghost(edges): Ghost<Seq<(u64, u64)>>,
    ) -> (grown: Ghost<Seq<(u64, u64)>>)
        requires
            self.wf(),
            self.forest_ok(*old(forest), *verify, edges),
            takes_collisions(self@, *verify),
            0 <= band < self@.params.bands,
            self.is_live(left as int),
            self.is_live(right as int),
            left != right,
            self.hash_at(left as int, band) == self.hash_at(right as int, band),
        ensures
            self.forest_ok(*final(forest), *verify, grown@),
            self.settled(*final(forest), *verify, left as int, right as int),
            final(forest).size() == old(forest).size(),
            forall|i: int, j: int|
                0 <= i < old(forest).size() && 0 <= j < old(forest).size() && #[trigger] old(forest).joined(i, j) ==> final(forest).joined(i, j),
    {
        let left_node: usize = left as usize;
        let right_node: usize = right as usize;
        let ghost start = *forest;
        if forest.connected(left_node, right_node) {
            proof {
                assert forall|i: int, j: int|
                    self.is_live(i) && self.is_live(j) && #[trigger] forest.joined(
                        i,
                        j,
                    ) implies grouping::linked(edges, self.key_at(i), self.key_at(j)) by {
                    assert(start.joined(i, j));
                }
            }
            return Ghost(edges);
        }
        proof {
            self.lemma_live(left as int);
            self.lemma_live(right as int);
            assert forall|i: int, j: int|
                self.is_live(i) && self.is_live(j) && #[trigger] forest.joined(
                    i,
                    j,
                ) implies grouping::linked(edges, self.key_at(i), self.key_at(j)) by {
                assert(start.joined(i, j));
            }
        }
        match (self.id_to_key[left_node], self.id_to_key[right_node]) {
            (Some(left_key), Some(right_key)) => {
                let pair = ordered_pair(left_key, right_key);
                proof {
                    assert(self@.items[left_key][band] == self@.items[right_key][band]);
                    assert(self@.items[right_key][band] == self@.items[left_key][band]);
                    assert(left_key != right_key);
                    assert(self@.collide(pair.0, pair.1));
                }
                assert(verify.requires((pair.0, pair.1)));
                if verify(pair.0, pair.1) {
                    let ghost before = *forest;
                    forest.union(left_node, right_node);
                    proof {
                        assert(is_accepted(self@, *verify, pair));
                        self.lemma_union(
                            before,
                            *forest,
                            *verify,
                            edges,
                            left as int,
                            right as int,
                            pair,
                        );
                        assert forall|i: int, j: int|
                            0 <= i < start.size() && 0 <= j < start.size()
                                && #[trigger] start.joined(i, j) implies forest.joined(i, j) by {
                            assert(before.joined(i, j));
                        }
                    }
                    return Ghost(edges.push(pair));
                }
                Ghost(edges)
            },
            _ => Ghost(edges),
        }
    }

    /// Settle all pairs of identifiers of a bucket.
    fn settle_bucket<F: Fn(u64, u64) -> bool>(
        &self,
        forest: &mut UnionFind,
        verify: &F,
        ids: &Vec<u32>,
        Ghost(band): Ghost<int>,
        Ghost(hash): Ghost<u64>,
        Ghost(edges): Ghost<Seq<(u64, u64)>>,
    ) -> (grown: Ghost<Seq<(u64, u64)>>)
        requires
            self.wf(),
            self.forest_ok(*old(forest), *verify, edges),
            takes_collisions(self@, *verify),
            0 <= band < self@.params.bands,
            lsh::increasing_ids(ids@),
            forall|j: int|
                0 <= j < ids@.len() ==> self.is_live((#[trigger] ids@[j]) as int) && self.hash_at(
                    ids@[j] as int,
                    band,
                ) == hash,
        ensures
            self.forest_ok(*final(forest), *verify, grown@),
            final(forest).size() == old(forest).size(),
            forall|i: int, j: int|
                0 <= i < j < ids@.len() ==> self.settled(
                    *final(forest),
                    *verify,
                    (#[trigger] ids@[i]) as int,
                    (#[trigger] ids@[j]) as int,
                ),
            forall|i: int, j: int|
                0 <= i < old(forest).size() && 0 <= j < old(forest).size() && #[trigger] old(forest).joined(i, j) ==> final(forest).joined(i, j),
    {
        let ghost start = *forest;
        let mut grown: Ghost<Seq<(u64, u64)>> = Ghost(edges);
        let mut left: usize = 0;
        while left < ids.len()
            invariant
                left <= ids@.len(),
                self.wf(),
                self.forest_ok(*forest, *verify, grown@),
                takes_collisions(self@, *verify),
                0 <= band < self@.params.bands,
                lsh::increasing_ids(ids@),
                forall|j: int|
                    0 <= j < ids@.len() ==> self.is_live((#[trigger] ids@[j]) as int)
                        && self.hash_at(ids@[j] as int, band) == hash,
                forest.size() == start.size(),
                forall|i: int, j: int|
                    0 <= i < j < ids@.len() && i < left ==> self.settled(
                        *forest,
                        *verify,
                        (#[trigger] ids@[i]) as int,
                        (#[trigger] ids@[j]) as int,
                    ),
                forall|i: int, j: int|
                    0 <= i < start.size() && 0 <= j < start.size() && #[trigger] start.joined(i, j)
                        ==> forest.joined(i, j),
            decreases ids@.len() - left,
        {
            let mut right: usize = left + 1;
            while right < ids.len()
                invariant
                    left < ids@.len(),
                    left + 1 <= right <= ids@.len(),
                    self.wf(),
                    self.forest_ok(*forest, *verify, grown@),
                    takes_collisions(self@, *verify),
                    0 <= band < self@.params.bands,
                    lsh::increasing_ids(ids@),
                    forall|j: int|
                        0 <= j < ids@.len() ==> self.is_live((#[trigger] ids@[j]) as int)
                            && self.hash_at(ids@[j] as int, band) == hash,
                    forest.size() == start.size(),
                    forall|i: int, j: int|
                        0 <= i < j < ids@.len() && (i < left || (i == left && j < right))
                            ==> self.settled(
                            *forest,
                            *verify,
                            (#[trigger] ids@[i]) as int,
                            (#[trigger] ids@[j]) as int,
                        ),
                    forall|i: int, j: int|
                        0 <= i < start.size() && 0 <= j < start.size() && #[trigger] start.joined(
                            i,
                            j,
                        ) ==> forest.joined(i, j),
                decreases ids@.len() - right,
            {
                let ghost before = *forest;
                assert(self.is_live(ids@[left as int] as int));
                assert(self.is_live(ids@[right as int] as int));
                grown = self.settle(
                    forest,
                    verify,
                    ids[left],
                    ids[right],
                    Ghost(band),
                    Ghost(grown@),
                );
                proof {
                    assert forall|i: int, j: int|
                        0 <= i < j < ids@.len() && (i < left || (i == left && j
                            < right + 1)) implies self.settled(
                        *forest,
                        *verify,
                        (#[trigger] ids@[i]) as int,
                        (#[trigger] ids@[j]) as int,
                    ) by {
                        if i < left || j < right {
                            assert(self.settled(before, *verify, ids@[i] as int, ids@[j] as int));
                        }
                    }
                }
                right = right + 1;
            }
            left = left + 1;
        }
        grown
    }
}

impl LshIndex32 {
    /// Every pair of live identifiers that collides in the band is settled.
    spec fn band_settled<F: Fn(u64, u64) -> bool>(
        &self,
        forest: UnionFind,
        verify: F,
        band: int,
    ) -> bool {
        forall|i: int, j: int|
            0 <= i < j && #[trigger] self.is_live(i) && #[trigger] self.is_live(j) && self.hash_at(
                i,
                band,
            ) == self.hash_at(j, band) ==> self.settled(forest, verify, i, j)
    }

    /// The bucket of a hash in a band is settled.
    spec fn bucket_settled<F: Fn(u64, u64) -> bool>(
        &self,
        forest: UnionFind,
        verify: F,
        band: int,
        hash: u64,
    ) -> bool {
        forall|i: int, j: int|
            0 <= i < j && #[trigger] self.is_live(i) && #[trigger] self.is_live(j) && self.hash_at(
                i,
                band,
            ) == hash && self.hash_at(j, band) == hash ==> self.settled(forest, verify, i, j)
    }

    /// Joins are never undone.
    spec fn forest_grew(&self, before: UnionFind, after: UnionFind) -> bool {
        &&& after.size() == before.size()
        &&& forall|i: int, j: int|
            0 <= i < before.size() && 0 <= j < before.size() && #[trigger] before.joined(i, j)
                ==> after.joined(i, j)
    }

    proof fn lemma_stays_settled<F: Fn(u64, u64) -> bool>(
        &self,
        before: UnionFind,
        after: UnionFind,
        verify: F,
        band: int,
        hash: u64,
    )
        requires
            self.forest_grew(before, after),
            before.size() == self.id_to_key@.len(),
        ensures
            self.bucket_settled(before, verify, band, hash) ==> self.bucket_settled(
                after,
                verify,
                band,
                hash,
            ),
            self.band_settled(before, verify, band) ==> self.band_settled(after, verify, band),
    {
        if self.bucket_settled(before, verify, band, hash) {
            assert forall|i: int, j: int|
                0 <= i < j && #[trigger] self.is_live(i) && #[trigger] self.is_live(j)
                    && self.hash_at(i, band) == hash && self.hash_at(j, band)
                    == hash implies self.settled(after, verify, i, j) by {
                assert(self.settled(before, verify, i, j));
            }
        }
        if self.band_settled(before, verify, band) {
            assert forall|i: int, j: int|
                0 <= i < j && #[trigger] self.is_live(i) && #[trigger] self.is_live(j)
                    && self.hash_at(i, band) == self.hash_at(j, band) implies self.settled(
                after,
                verify,
                i,
                j,
            ) by {
                assert(self.settled(before, verify, i, j));
            }
        }
    }

    proof fn lemma_bucket_settled<F: Fn(u64, u64) -> bool>(
        &self,
        forest: UnionFind,
        verify: F,
        band: int,
        hash: u64,
    )
        requires
            self.wf(),
            0 <= band < self@.params.bands,
            self.buckets@[band]@.contains_key(hash),
            forall|i: int, j: int|
                0 <= i < j < self.buckets@[band]@[hash]@.len() ==> self.settled(
                    forest,
                    verify,
                    (#[trigger] self.buckets@[band]@[hash]@[i]) as int,
                    (#[trigger] self.buckets@[band]@[hash]@[j]) as int,
                ),
        ensures
            self.bucket_settled(forest, verify, band, hash),
    {
        let ids = self.buckets@[band]@[hash]@;
        self.lemma_bucket(band, hash);
        assert forall|i: int, j: int|
            0 <= i < j && #[trigger] self.is_live(i) && #[trigger] self.is_live(j) && self.hash_at(
                i,
                band,
            ) == hash && self.hash_at(j, band) == hash implies self.settled(
            forest,
            verify,
            i,
            j,
        ) by {
            self.lemma_live(i);
            self.lemma_live(j);
            self.lemma_in_bucket(i, band);
            self.lemma_in_bucket(j, band);
            let a = choose|a: int| 0 <= a < ids.len() && ids[a] == i as u32;
            let b = choose|b: int| 0 <= b < ids.len() && ids[b] == j as u32;
            if b <= a {
                if b < a {
                    assert(ids[b] < ids[a]);
                }
            }
            assert(self.settled(forest, verify, ids[a] as int, ids[b] as int));
        }
    }

    /// Settle all buckets of a band.
    fn settle_band<F: Fn(u64, u64) -> bool>(
        &self,
        forest: &mut UnionFind,
        verify: &F,
        band: usize,
        Ghost(edges): Ghost<Seq<(u64, u64)>>,
    ) -> (grown: Ghost<Seq<(u64, u64)>>)
        requires
            self.wf(),
            self.forest_ok(*old(forest), *verify, edges),
            takes_collisions(self@, *verify),
            band < self@.params.bands,
        ensures
            self.forest_ok(*final(forest), *verify, grown@),
            self.forest_grew(*old(forest), *final(forest)),
            self.band_settled(*final(forest), *verify, band as int),
    {
        let ghost start = *forest;
        let hashes = self.bucket_hashes(band);
        let mut grown: Ghost<Seq<(u64, u64)>> = Ghost(edges);
        let mut index: usize = 0;
        while index < hashes.len()
            invariant
                index <= hashes@.len(),
                self.wf(),
                self.forest_ok(*forest, *verify, grown@),
                takes_collisions(self@, *verify),
                band < self@.params.bands,
                forall|hash: u64|
                    hashes@.contains(hash)
                        <==> #[trigger] self.buckets@[band as int]@.contains_key(hash),
                self.forest_grew(start, *forest),
                start.size() == self.id_to_key@.len(),
                forall|k: int|
                    0 <= k < index ==> self.bucket_settled(
                        *forest,
                        *verify,
                        band as int,
                        #[trigger] hashes@[k],
                    ),
            decreases hashes@.len() - index,
        {
            let hash: u64 = hashes[index];
            let ghost before = *forest;
            proof {
                assert(hashes@.contains(hashes@[index as int]));
                assert(self.buckets@[band as int]@.contains_key(hash));
                self.lemma_bucket(band as int, hash);
            }
            match self.buckets[band].get(&hash) {
                Some(ids) => {
                    grown = self.settle_bucket(
                        forest,
                        verify,
                        ids,
                        Ghost(band as int),
                        Ghost(hash),
                        Ghost(grown@),
                    );
                },
                None => {},
            }
            proof {
                assert(self.forest_grew(before, *forest));
                self.lemma_bucket_settled(*forest, *verify, band as int, hash);
                assert forall|k: int| 0 <= k < index + 1 implies self.bucket_settled(
                    *forest,
                    *verify,
                    band as int,
                    #[trigger] hashes@[k],
                ) by {
                    if k < index {
                        self.lemma_stays_settled(
                            before,
                            *forest,
                            *verify,
                            band as int,
                            hashes@[k],
                        );
                    }
                }
            }
            index = index + 1;
        }
        proof {
            assert forall|i: int, j: int|
                0 <= i < j && #[trigger] self.is_live(i) && #[trigger] self.is_live(j)
                    && self.hash_at(i, band as int) == self.hash_at(
                    j,
                    band as int,
                ) implies self.settled(*forest, *verify, i, j) by {
                let hash = self.hash_at(i, band as int);
                self.lemma_in_bucket(i, band as int);
                assert(self.buckets@[band as int]@.contains_key(hash));
                let k = choose|k: int| 0 <= k < hashes@.len() && hashes@[k] == hash;
                assert(self.bucket_settled(*forest, *verify, band as int, hashes@[k]));
            }
        }
        grown
    }

    /// Settle every collision of the index.
    fn settle_all<F: Fn(u64, u64) -> bool>(&self, verify: &F) -> (result: (
        UnionFind,
        Ghost<Seq<(u64, u64)>>,
    ))
        requires
            self.wf(),
            takes_collisions(self@, *verify),
        ensures
            self.forest_ok(result.0, *verify, result.1@),
            is_verified_graph(self@, *verify, result.1@),
    {
        let mut forest = UnionFind::with_len(self.id_to_key.len());
        let mut edges: Ghost<Seq<(u64, u64)>> = Ghost(Seq::empty());
        proof {
            assert forall|i: int, j: int|
                self.is_live(i) && self.is_live(j) && #[trigger] forest.joined(
                    i,
                    j,
                ) implies grouping::linked(edges@, self.key_at(i), self.key_at(j)) by {
                grouping::lemma_linked_reflexive(edges@, self.key_at(i));
            }
        }
        let mut band: usize = 0;
        while band < self.params.bands
            invariant
                band <= self.params.bands,
                self.wf(),
                takes_collisions(self@, *verify),
                self.forest_ok(forest, *verify, edges@),
                forall|b: int|
                    0 <= b < band ==> #[trigger] self.band_settled(forest, *verify, b),
            decreases self.params.bands - band,
        {
            let ghost before = forest;
            edges = self.settle_band(&mut forest, verify, band, Ghost(edges@));
            proof {
                assert forall|b: int| 0 <= b < band + 1 implies #[trigger] self.band_settled(
                    forest,
                    *verify,
                    b,
                ) by {
                    if b < band {
                        assert(self.band_settled(before, *verify, b));
                        self.lemma_stays_settled(before, forest, *verify, b, 0);
                    }
                }
            }
            band = band + 1;
        }
        proof {
            assert forall|left: u64, right: u64|
                left < right && #[trigger] self@.collide(left, right) implies grouping::linked(
                edges@,
                left,
                right,
            ) || verify.ensures((left, right), false) by {
                let b = choose|b: int|
                    0 <= b < self@.params.bands && #[trigger] self@.items[left][b]
                        == self@.items[right][b];
                self.lemma_key_is_live(left);
                self.lemma_key_is_live(right);
                let i = self.key_to_id@[left] as int;
                let j = self.key_to_id@[right] as int;
                self.lemma_live(i);
                self.lemma_live(j);
                assert(self.band_settled(forest, *verify, b));
                assert(self.hash_at(i, b) == self.hash_at(j, b));
                if i < j {
                    assert(self.settled(forest, *verify, i, j));
                    if forest.joined(i, j) {
                        assert(grouping::linked(edges@, left, right));
                    }
                } else {
                    assert(i != j);
                    assert(self.settled(forest, *verify, j, i));
                    if forest.joined(j, i) {
                        assert(forest.joined(i, j));
                        assert(grouping::linked(edges@, left, right));
                    }
                }
            }
        }
        (forest, edges)
    }

    /// The live keys in ascending order, and their identifiers.
    fn live_keys(&self) -> (result: (Vec<u64>, Vec<usize>))
        requires
            self.wf(),
        ensures
            order::increasing(result.0@),
            result.0@.to_set() == self@.items.dom(),
            result.1@.len() == result.0@.len(),
            forall|i: int|
                0 <= i < result.0@.len() ==> self.is_live((#[trigger] result.1@[i]) as int)
                    && self.key_at(result.1@[i] as int) == result.0@[i],
    {
        let mut found: Vec<u64> = Vec::new();
        let mut index: usize = 0;
        while index < self.id_to_key.len()
            invariant
                index <= self.id_to_key@.len(),
                self.wf(),
                forall|j: int|
                    0 <= j < found@.len() ==> self@.items.contains_key(#[trigger] found@[j]),
                forall|i: int|
                    0 <= i < index && #[trigger] self.is_live(i) ==> found@.contains(
                        self.key_at(i),
                    ),
            decreases self.id_to_key@.len() - index,
        {
            let ghost before = found@;
            match self.id_to_key[index] {
                Some(key) => {
                    proof {
                        assert(self.is_live(index as int));
                        self.lemma_live(index as int);
                    }
                    found.push(key);
                    assert(found@[found@.len() - 1] == key);
                },
                None => {},
            }
            proof {
                assert forall|i: int|
                    0 <= i < index + 1 && #[trigger] self.is_live(i) implies found@.contains(
                    self.key_at(i),
                ) by {
                    if i < index {
                        let m = choose|m: int| 0 <= m < before.len() && before[m] == self.key_at(i);
                        assert(found@[m] == self.key_at(i));
                    }
                }
            }
            index = index + 1;
        }
        let ghost all = found@;
        let keys = order::sorted_unique(found);
        proof {
            assert forall|key: u64| keys@.to_set().contains(key) == self@.items.dom().contains(
                key,
            ) by {
                assert(keys@.to_set().contains(key) == all.to_set().contains(key));
                if all.contains(key) {
                    let j = choose|j: int| 0 <= j < all.len() && all[j] == key;
                    assert(self@.items.contains_key(all[j]));
                }
                if self@.items.contains_key(key) {
                    self.lemma_key_is_live(key);
                    assert(all.contains(self.key_at(self.key_to_id@[key] as int)));
                }
            }
            assert(keys@.to_set() =~= self@.items.dom());
        }
        let mut ids: Vec<usize> = Vec::new();
        index = 0;
        while index < keys.len()
            invariant
                index <= keys@.len(),
                self.wf(),
                keys@.to_set() == self@.items.dom(),
                ids@.len() == index,
                forall|i: int| 0 <= i < index ==> self.is_live((#[trigger] ids@[i]) as int),
                forall|i: int|
                    0 <= i < index ==> self.key_at((#[trigger] ids@[i]) as int) == keys@[i],
            decreases keys@.len() - index,
        {
            let key: u64 = keys[index];
            proof {
                assert(keys@.to_set().contains(keys@[index as int]));
                self.lemma_key_is_live(key);
            }
            let id: usize = match self.key_to_id.get(&key) {
                Some(id) => *id as usize,
                None => 0,
            };
            ids.push(id);
            index = index + 1;
        }
        (keys, ids)
    }

    /// The components of the accepted collisions.
    fn verified_components<F: Fn(u64, u64) -> bool>(&self, min_size: usize, verify: &F) -> (result:
        (Vec<Vec<u64>>, Ghost<Seq<(u64, u64)>>))
        requires
            self.wf(),
            takes_collisions(self@, *verify),
        ensures
            is_verified_graph(self@, *verify, result.1@),
            grouping::is_grouping(
                self@.items.dom(),
                result.1@,
                grouping::minimum_of(min_size),
                grouping::lists_of(result.0@),
            ),
    {
        let (mut forest, edges) = self.settle_all(verify);
        let (keys, ids) = self.live_keys();
        proof {
            assert forall|i: int, j: int|
                0 <= i < ids@.len() && 0 <= j < ids@.len() implies (forest.joined(
                (#[trigger] ids@[i]) as int,
                (#[trigger] ids@[j]) as int,
            ) <==> grouping::linked(edges@, keys@[i], keys@[j])) by {
                assert(self.is_live(ids@[i] as int) && self.is_live(ids@[j] as int));
                if grouping::linked(edges@, keys@[i], keys@[j]) {
                    let path = choose|path: Seq<u64>| #[trigger]
                        grouping::is_path(edges@, path) && path.first() == keys@[i] && path.last()
                            == keys@[j];
                    self.lemma_live(ids@[i] as int);
                    self.lemma_live(ids@[j] as int);
                    self.lemma_path_joined(forest, *verify, edges@, path);
                }
            }
            assert forall|i: int| 0 <= i < ids@.len() implies (#[trigger] ids@[i])
                < forest.size() by {
                assert(self.is_live(ids@[i] as int));
            }
        }
        let components = grouping::collect_components(
            &mut forest,
            &keys,
            &ids,
            min_size,
            Ghost(edges@),
        );
        (components, edges)
    }

    proof fn lemma_path_joined<F: Fn(u64, u64) -> bool>(
        &self,
        forest: UnionFind,
        verify: F,
        edges: Seq<(u64, u64)>,
        path: Seq<u64>,
    )
        requires
            self.wf(),
            self.forest_ok(forest, verify, edges),
            grouping::is_path(edges, path),
            self@.items.contains_key(path.first()),
        ensures
            self@.items.contains_key(path.last()),
            forest.joined(
                self.key_to_id@[path.first()] as int,
                self.key_to_id@[path.last()] as int,
            ),
        decreases path.len(),
    {
        if path.len() > 1 {
            let front = path.drop_last();
            assert forall|i: int| 0 <= i < front.len() - 1 implies grouping::adjacent(
                edges,
                #[trigger] front[i],
                front[i + 1],
            ) by {
                assert(grouping::adjacent(edges, path[i], path[i + 1]));
            }
            self.lemma_path_joined(forest, verify, edges, front);
            let k = path.len() - 2;
            assert(grouping::adjacent(edges, path[k], path[k + 1]));
            if edges.contains((path[k], path[k + 1])) {
                let i = choose|i: int| 0 <= i < edges.len() && edges[i] == (path[k], path[k + 1]);
                assert(is_accepted(self@, verify, edges[i]));
            } else {
                let i = choose|i: int| 0 <= i < edges.len() && edges[i] == (path[k + 1], path[k]);
                assert(is_accepted(self@, verify, edges[i]));
            }
        }
    }

    /// Group all LSH-connected candidates, returning components of two or more
    /// keys.
    pub fn duplicate_groups(&self) -> (groups: Vec<DuplicateGroup>)
        requires
            self.wf(),
        ensures
            exists|edges: Seq<(u64, u64)>| #[trigger]
                is_collision_graph(self@, edges) && grouping::are_default_groups(
                    self@.items.dom(),
                    edges,
                    2,
                    groups@,
                ),
    {
        let accept = |left: u64, right: u64| -> (accepted: bool)
            ensures
                accepted,
            { true };
        let groups = self.duplicate_groups_with(2, accept);
        proof {
            let edges = choose|edges: Seq<(u64, u64)>| #[trigger]
                is_verified_graph(self@, accept, edges) && grouping::are_default_groups(
                    self@.items.dom(),
                    edges,
                    2,
                    groups@,
                );
            assert forall|i: int| 0 <= i < edges.len() implies self@.collide(
                (#[trigger] edges[i]).0,
                edges[i].1,
            ) by {
                assert(is_accepted(self@, accept, edges[i]));
            }
            assert forall|left: u64, right: u64|
                left != right && #[trigger] self@.collide(left, right) implies grouping::linked(
                edges,
                left,
                right,
            ) by {
                if left < right {
                    assert(!accept.ensures((left, right), false));
                } else {
                    let b = choose|b: int|
                        0 <= b < self@.params.bands && #[trigger] self@.items[left][b]
                            == self@.items[right][b];
                    assert(self@.items[right][b] == self@.items[left][b]);
                    assert(self@.collide(right, left));
                    assert(!accept.ensures((right, left), false));
                    grouping::lemma_linked_symmetric(edges, right, left);
                }
            }
            assert(is_collision_graph(self@, edges));
        }
        groups
    }

    /// Group LSH candidates after application-level pair verification.
    ///
    /// The verifier receives normalized external keys, live and in one bucket,
    /// before two currently disconnected components are joined. Accepted pairs are never verified
    /// again once their components are connected.
    pub fn duplicate_groups_with<F: Fn(u64, u64) -> bool>(&self, min_size: usize, verify: F) -> (
        groups: Vec<DuplicateGroup>)
        requires
            self.wf(),
            takes_collisions(self@, verify),
        ensures
            exists|edges: Seq<(u64, u64)>| #[trigger]
                is_verified_graph(self@, verify, edges) && grouping::are_default_groups(
                    self@.items.dom(),
                    edges,
                    grouping::minimum_of(min_size),
                    groups@,
                ),
    {
        let (components, edges) = self.verified_components(min_size, &verify);
        proof {
            let lists = grouping::lists_of(components@);
            assert forall|i: int| 0 <= i < components@.len() implies (
            #[trigger] components@[i])@.len() > 0 by {
                assert(lists.contains(lists[i]));
                assert(grouping::is_component(self@.items.dom(), edges@, lists[i]));
            }
        }
        let groups = grouping::default_groups(components);
        assert(is_verified_graph(self@, verify, edges@));
        groups
    }

    /// Group verified LSH candidates and choose a representative for each
    /// component.
    ///
    /// The representative callback receives sorted component members.
    pub fn duplicate_groups_with_representative<
        V: Fn(u64, u64) -> bool,
        R: Fn(&[u64]) -> u64,
    >(&self, min_size: usize, verify: V, representative: R) -> (result: Result<
        Vec<DuplicateGroup>,
        GroupError,
    >)
        requires
            self.wf(),
            takes_collisions(self@, verify),
            forall|edges: Seq<(u64, u64)>| #[trigger]
                is_verified_graph(self@, verify, edges) ==> grouping::takes_components(
                    representative,
                    self@.items.dom(),
                    edges,
                    grouping::minimum_of(min_size),
                ),
        ensures
            exists|edges: Seq<(u64, u64)>, components: Seq<Seq<u64>>| #[trigger]
                is_verified_graph(self@, verify, edges) && #[trigger] grouping::is_grouping(
                    self@.items.dom(),
                    edges,
                    grouping::minimum_of(min_size),
                    components,
                ) && match result {
                    Ok(groups) => grouping::are_selected_groups(
                        components,
                        representative,
                        groups@,
                    ),
                    Err(GroupError::RepresentativeNotMember { representative: chosen }) =>
                        grouping::is_misselection(components, representative, chosen),
                },
    {
        let (components, edges) = self.verified_components(min_size, &verify);
        let ghost lists = grouping::lists_of(components@);
        let result = grouping::selected_groups(
            components,
            representative,
            Ghost(self@.items.dom()),
            Ghost(edges@),
            Ghost(grouping::minimum_of(min_size)),
        );
        assert(is_verified_graph(self@, verify, edges@) && grouping::is_grouping(
            self@.items.dom(),
            edges@,
            grouping::minimum_of(min_size),
            lists,
        ));
        result
    }
}

} // verus!
