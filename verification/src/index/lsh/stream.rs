//! The stream of unique candidate pairs of an index.

use std::collections::HashSet;
use vstd::prelude::*;

use crate::index::lsh;
use crate::index::lsh::pairs;
use crate::index::lsh::{LshIndex32, LshState};
use crate::order;
use crate::sketch::minhash32::Sketch32;

verus! {

broadcast use vstd::std_specs::hash::group_hash_axioms;

/// A stream over the pairs of several key lists: where it stands, and which
/// pairs it has given out.
#[verifier::ext_equal]
pub struct PairStream {
    pub lists: Seq<Seq<u64>>,
    pub bucket: int,
    pub left: int,
    pub right: int,
    pub produced: Set<(u64, u64)>,
}

impl PairStream {
    /// A pair of places of one list.
    pub open spec fn is_position(self, bucket: int, left: int, right: int) -> bool {
        0 <= bucket < self.lists.len() && 0 <= left < right < self.lists[bucket].len()
    }

    /// The keys at a pair of places, the smaller one first.
    pub open spec fn pair_at(self, bucket: int, left: int, right: int) -> (u64, u64) {
        pairs::spec_ordered_pair(self.lists[bucket][left], self.lists[bucket][right])
    }

    /// The stream has not passed the position yet.
    pub open spec fn ahead(self, bucket: int, left: int, right: int) -> bool {
        self.bucket < bucket || (self.bucket == bucket && (self.left < left || (self.left == left
            && self.right <= right)))
    }

    /// The first position that is not passed and whose pair is new.
    pub open spec fn is_next(self, bucket: int, left: int, right: int) -> bool {
        &&& self.is_position(bucket, left, right)
        &&& self.ahead(bucket, left, right)
        &&& !self.produced.contains(self.pair_at(bucket, left, right))
        &&& forall|b: int, l: int, r: int|
            #![trigger self.pair_at(b, l, r)]
            self.is_position(b, l, r) && self.ahead(b, l, r) && (b < bucket || (b == bucket && (l
                < left || (l == left && r < right)))) ==> self.produced.contains(
                self.pair_at(b, l, r),
            )
    }

    /// The stream behind a position whose pair it gave out.
    pub open spec fn past(self, bucket: int, left: int, right: int) -> PairStream {
        PairStream {
            bucket,
            left,
            right: right + 1,
            produced: self.produced.insert(self.pair_at(bucket, left, right)),
            ..self
        }
    }

    /// No pair is left to give out.
    pub open spec fn over(self) -> bool {
        forall|bucket: int, left: int, right: int| !#[trigger] self.is_next(bucket, left, right)
    }

    /// The position of the pair that the stream gives out next.
    pub open spec fn next_position(self) -> (int, int, int) {
        choose|bucket: int, left: int, right: int| #[trigger] self.is_next(bucket, left, right)
    }

    /// The pair that the stream gives out next.
    pub open spec fn next_pair(self) -> (u64, u64) {
        let (bucket, left, right) = self.next_position();
        self.pair_at(bucket, left, right)
    }

    /// The stream after it gave out its next pair.
    pub open spec fn advanced(self) -> PairStream {
        let (bucket, left, right) = self.next_position();
        self.past(bucket, left, right)
    }

    /// The stream after it gave out so many pairs.
    pub open spec fn after(self, count: nat) -> PairStream
        decreases count,
    {
        if count == 0 {
            self
        } else {
            self.after((count - 1) as nat).advanced()
        }
    }

    /// The stream gives out this pair after so many others.
    pub open spec fn gives_at(self, pair: (u64, u64), at: nat) -> bool {
        !self.after(at).over() && pair == self.after(at).next_pair()
    }

    /// The sequence holds the pairs that the stream gives out first, in their order.
    pub open spec fn gives_first(self, pairs: Seq<(u64, u64)>) -> bool {
        forall|i: int| 0 <= i < pairs.len() ==> #[trigger] self.gives_at(pairs[i], i as nat)
    }

    /// The sequence holds the pairs that the stream gives out, all of them and in
    /// their order.
    pub open spec fn gives(self, pairs: Seq<(u64, u64)>) -> bool {
        self.gives_first(pairs) && self.after(pairs.len()).over()
    }

    /// The stream gives out one pair more.
    pub(crate) proof fn lemma_gives_more(self, pairs: Seq<(u64, u64)>)
        requires
            self.gives_first(pairs),
            !self.after(pairs.len()).over(),
        ensures
            self.gives_first(pairs.push(self.after(pairs.len()).next_pair())),
    {
        let longer = pairs.push(self.after(pairs.len()).next_pair());
        assert forall|i: int| 0 <= i < longer.len() implies #[trigger] self.gives_at(
            longer[i],
            i as nat,
        ) by {
            if i < pairs.len() {
                assert(self.gives_at(pairs[i], i as nat));
            }
        }
    }

    /// There is only one next position.
    proof fn lemma_next_is_unique(self, bucket: int, left: int, right: int)
        requires
            self.is_next(bucket, left, right),
        ensures
            !self.over(),
            self.next_position() == (bucket, left, right),
    {
        let (b, l, r) = self.next_position();
        assert(self.is_next(b, l, r));
        assert(!self.produced.contains(self.pair_at(b, l, r)));
        assert(!self.produced.contains(self.pair_at(bucket, left, right)));
    }

    /// A stream gives out only one sequence: collecting it twice gives the same
    /// pairs in the same order.
    pub proof fn law_collecting_is_repeatable(
        self,
        first: Seq<(u64, u64)>,
        second: Seq<(u64, u64)>,
    )
        requires
            self.gives(first),
            self.gives(second),
        ensures
            first == second,
    {
        if first.len() < second.len() {
            let i = first.len() as int;
            assert(self.gives_at(second[i], i as nat));
        }
        if second.len() < first.len() {
            let i = second.len() as int;
            assert(self.gives_at(first[i], i as nat));
        }
        assert forall|i: int| 0 <= i < first.len() implies first[i] == second[i] by {
            assert(self.gives_at(first[i], i as nat));
            assert(self.gives_at(second[i], i as nat));
        }
        assert(first =~= second);
    }
}

impl LshState {
    /// Two different keys that share a bucket, the smaller one first.
    pub open spec fn is_pair(self, pair: (u64, u64)) -> bool {
        pair.0 < pair.1 && self.collide(pair.0, pair.1)
    }

    /// The lists hold the keys of all buckets of two or more keys, ordered by
    /// band and hash.
    pub open spec fn are_bucket_lists(
        self,
        buckets: Seq<(int, u64)>,
        lists: Seq<Seq<u64>>,
    ) -> bool {
        &&& buckets.len() == lists.len()
        &&& forall|i: int, j: int|
            0 <= i < j < buckets.len() ==> (#[trigger] buckets[i]).0 < (#[trigger] buckets[j]).0 || (
            buckets[i].0 == buckets[j].0 && buckets[i].1 < buckets[j].1)
        &&& forall|band: int, hash: u64| #[trigger]
            buckets.contains((band, hash)) <==> (0 <= band < self.params.bands && self.bucket(
                band,
                hash,
            ).len() >= 2)
        &&& forall|i: int|
            0 <= i < lists.len() ==> (#[trigger] lists[i]).no_duplicates() && lists[i].to_set()
                == self.bucket(buckets[i].0, buckets[i].1)
    }

    /// The pairs of a live key are the candidates that a query with its signature
    /// finds.
    pub proof fn law_pairs_are_the_candidates(self, sketch: Sketch32, left: u64, right: u64)
        requires
            self.items.contains_key(left),
            self.items[left] == self.hashes(sketch),
            left < right,
        ensures
            self.is_pair((left, right)) <==> self.is_candidate(right, self.hashes(sketch)),
    {
        let hashes = self.hashes(sketch);
        if self.is_pair((left, right)) {
            let band = choose|band: int|
                0 <= band < self.params.bands && #[trigger] self.items[left][band]
                    == self.items[right][band];
            assert(self.items[right][band] == hashes[band]);
        }
        if self.is_candidate(right, hashes) {
            let band = choose|band: int|
                0 <= band < self.params.bands && #[trigger] self.items[right][band]
                    == hashes[band];
            assert(self.items[left][band] == self.items[right][band]);
        }
    }
}

/// One bucket comes before another: by its band, then by its hash.
spec fn precedes(left: (int, u64), right: (int, u64)) -> bool {
    left.0 < right.0 || (left.0 == right.0 && left.1 < right.1)
}

/// Buckets in their order, each once.
spec fn ordered(buckets: Seq<(int, u64)>) -> bool {
    forall|i: int, j: int|
        0 <= i < j < buckets.len() ==> precedes(#[trigger] buckets[i], #[trigger] buckets[j])
}

/// Buckets can be put in order in only one way.
proof fn lemma_order_is_unique(left: Seq<(int, u64)>, right: Seq<(int, u64)>)
    requires
        ordered(left),
        ordered(right),
        forall|bucket: (int, u64)| left.contains(bucket) <==> #[trigger] right.contains(bucket),
    ensures
        left == right,
    decreases left.len(),
{
    if left.len() == 0 {
        if right.len() > 0 {
            assert(right.contains(right[0]));
        }
        assert(left =~= right);
    } else {
        let last = left.last();
        assert(left.contains(left[left.len() - 1]));
        assert(right.contains(last));
        let at = choose|at: int| 0 <= at < right.len() && right[at] == last;
        if at < right.len() - 1 {
            assert(right.contains(right[right.len() - 1]));
            assert(left.contains(right.last()));
            let place = choose|place: int| 0 <= place < left.len() && left[place] == right.last();
            assert(precedes(right[at], right[right.len() - 1]));
            if place < left.len() - 1 {
                assert(precedes(left[place], left[left.len() - 1]));
            }
        }
        assert(right.last() == last);
        let shorter = left.drop_last();
        let other = right.drop_last();
        assert forall|bucket: (int, u64)|
            shorter.contains(bucket) <==> #[trigger] other.contains(bucket) by {
            if shorter.contains(bucket) {
                let i = choose|i: int| 0 <= i < shorter.len() && shorter[i] == bucket;
                assert(left[i] == bucket);
                assert(precedes(left[i], left[left.len() - 1]));
                assert(right.contains(bucket));
                let j = choose|j: int| 0 <= j < right.len() && right[j] == bucket;
                assert(j < right.len() - 1);
                assert(other[j] == bucket);
            }
            if other.contains(bucket) {
                let i = choose|i: int| 0 <= i < other.len() && other[i] == bucket;
                assert(right[i] == bucket);
                assert(precedes(right[i], right[right.len() - 1]));
                assert(right.contains(bucket));
                assert(left.contains(bucket));
                let j = choose|j: int| 0 <= j < left.len() && left[j] == bucket;
                assert(j < left.len() - 1);
                assert(shorter[j] == bucket);
            }
        }
        assert forall|i: int, j: int| 0 <= i < j < shorter.len() implies precedes(
            #[trigger] shorter[i],
            #[trigger] shorter[j],
        ) by {
            assert(precedes(left[i], left[j]));
        }
        assert forall|i: int, j: int| 0 <= i < j < other.len() implies precedes(
            #[trigger] other[i],
            #[trigger] other[j],
        ) by {
            assert(precedes(right[i], right[j]));
        }
        lemma_order_is_unique(shorter, other);
        assert(left =~= shorter.push(last));
        assert(right =~= other.push(last));
    }
}

impl LshIndex32 {
    /// The bucket holds two identifiers or more.
    spec fn is_shared_bucket(&self, bucket: (int, u64)) -> bool {
        &&& 0 <= bucket.0 < self.params.bands
        &&& self.buckets@[bucket.0]@.contains_key(bucket.1)
        &&& self.buckets@[bucket.0]@[bucket.1]@.len() >= 2
    }

    /// The buckets of two or more identifiers, ordered by band and hash.
    spec fn are_shared_buckets(&self, buckets: Seq<(int, u64)>) -> bool {
        &&& ordered(buckets)
        &&& forall|bucket: (int, u64)|
            buckets.contains(bucket) <==> #[trigger] self.is_shared_bucket(bucket)
    }

    /// The keys of the buckets, each bucket in the order of its identifiers.
    spec fn keys_of(&self, buckets: Seq<(int, u64)>) -> Seq<Seq<u64>> {
        Seq::new(
            buckets.len(),
            |i: int|
                Seq::new(
                    self.buckets@[buckets[i].0]@[buckets[i].1]@.len(),
                    |j: int| self.key_at(self.buckets@[buckets[i].0]@[buckets[i].1]@[j] as int),
                ),
        )
    }

    /// The stream of the pairs of this index, before it gave any out.
    pub closed spec fn pair_stream(&self) -> PairStream {
        PairStream {
            lists: self.keys_of(
                choose|buckets: Seq<(int, u64)>| self.are_shared_buckets(buckets),
            ),
            bucket: 0,
            left: 0,
            right: 1,
            produced: Set::empty(),
        }
    }
}

/// A stream over unique LSH candidate pairs.
///
/// The stream does not materialize an output edge list, but uniqueness across
/// bands requires retaining one compact pair of identifiers per edge.
pub struct CandidatePairs<'a> {
    index: &'a LshIndex32,
    buckets: Vec<&'a Vec<u32>>,
    bucket_index: usize,
    left_index: usize,
    right_index: usize,
    seen: HashSet<u64>,
    produced: Ghost<Set<(u64, u64)>>,
    owners: Ghost<Seq<(int, u64)>>,
}

/// One number for a pair of identifiers.
spec fn code(left: u32, right: u32) -> u64 {
    (left * 0x1_0000_0000 + right) as u64
}

proof fn lemma_code_injective(a: u32, b: u32, c: u32, d: u32)
    ensures
        a * 0x1_0000_0000 + b <= u64::MAX,
        code(a, b) == code(c, d) ==> a == c && b == d,
{
}

impl View for CandidatePairs<'_> {
    type V = PairStream;

    closed spec fn view(&self) -> PairStream {
        PairStream {
            lists: Seq::new(
                self.buckets@.len(),
                |i: int|
                    Seq::new(
                        self.buckets@[i]@.len(),
                        |j: int| self.index.key_at(self.buckets@[i]@[j] as int),
                    ),
            ),
            bucket: self.bucket_index as int,
            left: self.left_index as int,
            right: self.right_index as int,
            produced: self.produced@,
        }
    }
}

impl<'a> CandidatePairs<'a> {
    /// The state of the index whose pairs are streamed.
    pub closed spec fn source(&self) -> LshState {
        self.index@
    }

    /// The lists are those of the index, and exactly the pairs at passed
    /// positions have been given out.
    pub closed spec fn wf(&self) -> bool {
        &&& self.index.wf()
        &&& self.lists_ok()
        &&& self.seen_ok()
        &&& self.left_index < self.right_index
        &&& self.bucket_index <= self.buckets@.len()
        &&& self.bucket_index < self.buckets@.len() ==> self.right_index
            <= self.buckets@[self.bucket_index as int]@.len()
        &&& forall|b: int, l: int, r: int|
            #![trigger self@.pair_at(b, l, r)]
            self@.is_position(b, l, r) && !self@.ahead(b, l, r) ==> self@.produced.contains(
                self@.pair_at(b, l, r),
            )
        &&& forall|pair: (u64, u64)| #[trigger]
            self.produced@.contains(pair) ==> self.index@.is_pair(pair)
    }

    spec fn lists_ok(&self) -> bool {
        &&& self.buckets@.len() == self.owners@.len()
        &&& forall|i: int|
            0 <= i < self.owners@.len() ==> {
                let owner = #[trigger] self.owners@[i];
                0 <= owner.0 < self.index@.params.bands
                    && self.index.buckets@[owner.0]@.contains_key(owner.1)
                    && self.buckets@[i]@ == self.index.buckets@[owner.0]@[owner.1]@
                    && self.buckets@[i]@.len() >= 2
            }
        &&& forall|i: int, j: int|
            0 <= i < j < self.owners@.len() ==> (#[trigger] self.owners@[i]).0 < (
            #[trigger] self.owners@[j]).0 || (self.owners@[i].0 == self.owners@[j].0
                && self.owners@[i].1 < self.owners@[j].1)
        &&& forall|band: int, hash: u64|
            0 <= band < self.index@.params.bands
                && #[trigger] self.index.buckets@[band]@.contains_key(hash)
                && self.index.buckets@[band]@[hash]@.len() >= 2 ==> self.owners@.contains(
                (band, hash),
            )
    }

    spec fn seen_ok(&self) -> bool {
        forall|a: u32, b: u32|
            a < b && self.index.is_live(a as int) && self.index.is_live(b as int)
                ==> #[trigger] self.seen@.contains(code(a, b)) == self.produced@.contains(
                pairs::spec_ordered_pair(
                    self.index.key_at(a as int),
                    self.index.key_at(b as int),
                ),
            )
    }

    /// The buckets of two or more identifiers, ordered by band and hash.
    fn new(index: &'a LshIndex32) -> (stream: Self)
        requires
            index.wf(),
        ensures
            stream.wf(),
            stream.source() == index@,
            stream@ == index.pair_stream(),
    {
        let mut buckets: Vec<&'a Vec<u32>> = Vec::new();
        let ghost mut owners: Seq<(int, u64)> = Seq::empty();
        let mut band: usize = 0;
        while band < index.params.bands
            invariant
                band <= index.params.bands,
                index.wf(),
                buckets@.len() == owners.len(),
                forall|i: int|
                    0 <= i < owners.len() ==> {
                        let owner = #[trigger] owners[i];
                        0 <= owner.0 < band && index.buckets@[owner.0]@.contains_key(owner.1)
                            && buckets@[i]@ == index.buckets@[owner.0]@[owner.1]@
                            && buckets@[i]@.len() >= 2
                    },
                forall|i: int, j: int|
                    0 <= i < j < owners.len() ==> (#[trigger] owners[i]).0 < (
                    #[trigger] owners[j]).0 || (owners[i].0 == owners[j].0 && owners[i].1
                        < owners[j].1),
                forall|b: int, hash: u64|
                    0 <= b < band && #[trigger] index.buckets@[b]@.contains_key(hash)
                        && index.buckets@[b]@[hash]@.len() >= 2 ==> owners.contains((b, hash)),
            decreases index.params.bands - band,
        {
            let hashes = index.bucket_hashes(band);
            let ghost earlier = owners;
            let mut position: usize = 0;
            while position < hashes.len()
                invariant
                    position <= hashes@.len(),
                    band < index.params.bands,
                    index.wf(),
                    order::increasing(hashes@),
                    forall|hash: u64|
                        hashes@.contains(hash)
                            <==> #[trigger] index.buckets@[band as int]@.contains_key(hash),
                    buckets@.len() == owners.len(),
                    earlier.len() <= owners.len(),
                    forall|i: int| 0 <= i < earlier.len() ==> #[trigger] owners[i] == earlier[i],
                    forall|i: int|
                        0 <= i < earlier.len() ==> (#[trigger] earlier[i]).0 < band,
                    forall|i: int|
                        0 <= i < owners.len() ==> {
                            let owner = #[trigger] owners[i];
                            0 <= owner.0 <= band && index.buckets@[owner.0]@.contains_key(owner.1)
                                && buckets@[i]@ == index.buckets@[owner.0]@[owner.1]@
                                && buckets@[i]@.len() >= 2 && (owner.0 == band ==> exists|k: int|
                                0 <= k < position && #[trigger] hashes@[k] == owner.1)
                        },
                    forall|i: int, j: int|
                        0 <= i < j < owners.len() ==> (#[trigger] owners[i]).0 < (
                        #[trigger] owners[j]).0 || (owners[i].0 == owners[j].0 && owners[i].1
                            < owners[j].1),
                    forall|k: int|
                        0 <= k < position && index.buckets@[band as int]@[#[trigger] hashes@[k]]@.len()
                            >= 2 ==> owners.contains((band as int, hashes@[k])),
                decreases hashes@.len() - position,
            {
                let hash: u64 = hashes[position];
                proof {
                    assert(hashes@.contains(hashes@[position as int]));
                    assert(index.buckets@[band as int]@.contains_key(hash));
                }
                let ghost before = owners;
                let ghost lists_before = buckets@;
                match index.buckets[band].get(&hash) {
                    Some(ids) => {
                        if ids.len() >= 2 {
                            buckets.push(ids);
                            proof {
                                owners = owners.push((band as int, hash));
                            }
                        }
                    },
                    None => {},
                }
                proof {
                    assert forall|i: int| 0 <= i < owners.len() implies {
                        let owner = #[trigger] owners[i];
                        0 <= owner.0 <= band && index.buckets@[owner.0]@.contains_key(owner.1)
                            && buckets@[i]@ == index.buckets@[owner.0]@[owner.1]@
                            && buckets@[i]@.len() >= 2 && (owner.0 == band ==> exists|k: int|
                            0 <= k < position + 1 && #[trigger] hashes@[k] == owner.1)
                    } by {
                        if i < before.len() {
                            assert(owners[i] == before[i]);
                            assert(buckets@[i] == lists_before[i]);
                        } else {
                            assert(hashes@[position as int] == owners[i].1);
                        }
                    }
                    assert forall|i: int, j: int| 0 <= i < j < owners.len() implies (
                    #[trigger] owners[i]).0 < (#[trigger] owners[j]).0 || (owners[i].0
                        == owners[j].0 && owners[i].1 < owners[j].1) by {
                        assert(owners[i] == before[i]);
                        if j < before.len() {
                            assert(owners[j] == before[j]);
                        } else if owners[i].0 == band {
                            let k = choose|k: int|
                                0 <= k < position && #[trigger] hashes@[k] == owners[i].1;
                            assert(hashes@[k] < hashes@[position as int]);
                        }
                    }
                    assert forall|k: int|
                        0 <= k < position + 1
                            && index.buckets@[band as int]@[#[trigger] hashes@[k]]@.len()
                            >= 2 implies owners.contains((band as int, hashes@[k])) by {
                        if k < position {
                            let m = choose|m: int|
                                0 <= m < before.len() && before[m] == (band as int, hashes@[k]);
                            assert(owners[m] == (band as int, hashes@[k]));
                        } else {
                            assert(owners[owners.len() - 1] == (band as int, hash));
                        }
                    }
                }
                position = position + 1;
            }
            proof {
                assert forall|b: int, hash: u64|
                    0 <= b < band + 1 && #[trigger] index.buckets@[b]@.contains_key(hash)
                        && index.buckets@[b]@[hash]@.len() >= 2 implies owners.contains(
                    (b, hash),
                ) by {
                    if b < band {
                        let m = choose|m: int| 0 <= m < earlier.len() && earlier[m] == (b, hash);
                        assert(owners[m] == (b, hash));
                    } else {
                        let k = choose|k: int| 0 <= k < hashes@.len() && hashes@[k] == hash;
                        assert(owners.contains((band as int, hashes@[k])));
                    }
                }
            }
            band = band + 1;
        }
        let stream = CandidatePairs {
            index,
            buckets,
            bucket_index: 0,
            left_index: 0,
            right_index: 1,
            seen: HashSet::new(),
            produced: Ghost(Set::empty()),
            owners: Ghost(owners),
        };
        proof {
            assert(stream.lists_ok());
            assert forall|i: int| 0 <= i < stream.buckets@.len() implies stream.buckets@[i]@.len()
                >= 2 by {
                assert(stream.owners@[i].0 >= 0);
            }
            stream.lemma_lists();
        }
        stream
    }

    /// The lists are those of the index in their order.
    proof fn lemma_lists(&self)
        requires
            self.index.wf(),
            self.lists_ok(),
        ensures
            self@.lists == self.index.pair_stream().lists,
    {
        let index = self.index;
        let owners = self.owners@;
        assert(ordered(owners)) by {
            assert forall|i: int, j: int| 0 <= i < j < owners.len() implies precedes(
                #[trigger] owners[i],
                #[trigger] owners[j],
            ) by {}
        }
        assert forall|bucket: (int, u64)|
            owners.contains(bucket) <==> #[trigger] index.is_shared_bucket(bucket) by {
            if owners.contains(bucket) {
                let i = choose|i: int| 0 <= i < owners.len() && owners[i] == bucket;
                assert(owners[i].0 == bucket.0);
            }
            if index.is_shared_bucket(bucket) {
                assert(index.buckets@[bucket.0]@.contains_key(bucket.1));
                assert(owners.contains((bucket.0, bucket.1)));
            }
        }
        assert(index.are_shared_buckets(owners));
        let chosen = choose|buckets: Seq<(int, u64)>| index.are_shared_buckets(buckets);
        assert forall|bucket: (int, u64)|
            owners.contains(bucket) <==> #[trigger] chosen.contains(bucket) by {
            assert(owners.contains(bucket) == index.is_shared_bucket(bucket));
            assert(chosen.contains(bucket) == index.is_shared_bucket(bucket));
        }
        lemma_order_is_unique(owners, chosen);
        let keys = index.keys_of(owners);
        assert forall|i: int| 0 <= i < owners.len() implies #[trigger] self@.lists[i] == keys[i] by {
            assert(owners[i].0 >= 0);
            assert(self@.lists[i] =~= keys[i]);
        }
        assert(self@.lists =~= keys);
    }

    /// Places of a bucket hold live identifiers in ascending order.
    proof fn lemma_list(&self, bucket: int)
        requires
            self.index.wf(),
            self.lists_ok(),
            0 <= bucket < self.buckets@.len(),
        ensures
            lsh::increasing_ids(self.buckets@[bucket]@),
            self.owners@[bucket].0 < self.index@.params.bands,
            forall|j: int|
                0 <= j < self.buckets@[bucket]@.len() ==> self.index.is_live(
                    (#[trigger] self.buckets@[bucket]@[j]) as int,
                ) && self.index.hash_at(
                    self.buckets@[bucket]@[j] as int,
                    self.owners@[bucket].0,
                ) == self.owners@[bucket].1,
    {
        let owner = self.owners@[bucket];
        self.index.lemma_bucket(owner.0, owner.1);
    }

    /// The pair at a position is a pair of the index.
    proof fn lemma_position_is_pair(&self, bucket: int, left: int, right: int)
        requires
            self.index.wf(),
            self.lists_ok(),
            self@.is_position(bucket, left, right),
        ensures
            self.index@.is_pair(self@.pair_at(bucket, left, right)),
    {
        self.lemma_list(bucket);
        let ids = self.buckets@[bucket]@;
        let a = ids[left] as int;
        let b = ids[right] as int;
        let band = self.owners@[bucket].0;
        assert(self.index.is_live(a) && self.index.is_live(b));
        self.index.lemma_live(a);
        self.index.lemma_live(b);
        let x = self.index.key_at(a);
        let y = self.index.key_at(b);
        assert(self.index@.items[x][band] == self.index@.items[y][band]);
        assert(self.index@.items[y][band] == self.index@.items[x][band]);
        assert(x != y);
    }

    /// Every pair of the index is at some position.
    proof fn lemma_pair_has_position(&self, pair: (u64, u64)) -> (position: (int, int, int))
        requires
            self.index.wf(),
            self.lists_ok(),
            self.index@.is_pair(pair),
        ensures
            self@.is_position(position.0, position.1, position.2),
            self@.pair_at(position.0, position.1, position.2) == pair,
    {
        let band = choose|band: int|
            0 <= band < self.index@.params.bands && #[trigger] self.index@.items[pair.0][band]
                == self.index@.items[pair.1][band];
        self.index.lemma_key_is_live(pair.0);
        self.index.lemma_key_is_live(pair.1);
        let a = self.index.key_to_id@[pair.0] as int;
        let b = self.index.key_to_id@[pair.1] as int;
        self.index.lemma_live(a);
        self.index.lemma_live(b);
        let hash = self.index.hash_at(a, band);
        self.index.lemma_in_bucket(a, band);
        self.index.lemma_in_bucket(b, band);
        let ids = self.index.buckets@[band]@[hash]@;
        let i = choose|i: int| 0 <= i < ids.len() && ids[i] == a as u32;
        let j = choose|j: int| 0 <= j < ids.len() && ids[j] == b as u32;
        assert(i != j);
        assert(self.owners@.contains((band, hash)));
        let bucket = choose|k: int| 0 <= k < self.owners@.len() && self.owners@[k] == (band, hash);
        assert(self.buckets@[bucket]@ == ids);
        assert(self@.lists[bucket][i] == pair.0);
        assert(self@.lists[bucket][j] == pair.1);
        if i < j {
            (bucket, i, j)
        } else {
            (bucket, j, i)
        }
    }

    /// The lists that a stream walks are the buckets of its index with two members
    /// or more.
    pub proof fn law_lists_are_the_buckets(&self) -> (buckets: Seq<(int, u64)>)
        requires
            self.wf(),
        ensures
            self.source().are_bucket_lists(buckets, self@.lists),
    {
        let buckets = self.owners@;
        let state = self.index@;
        let lists = self@.lists;
        assert forall|band: int, hash: u64| #[trigger]
            buckets.contains((band, hash)) <==> (0 <= band < state.params.bands && state.bucket(
                band,
                hash,
            ).len() >= 2) by {
            if buckets.contains((band, hash)) {
                let i = choose|i: int| 0 <= i < buckets.len() && buckets[i] == (band, hash);
                assert(self.owners@[i].0 == band);
                self.index.lemma_bucket_size(band, hash);
            }
            if 0 <= band < state.params.bands && state.bucket(band, hash).len() >= 2 {
                let key = state.bucket(band, hash).choose();
                assert(state.bucket(band, hash).contains(key)) by {
                    if state.bucket(band, hash) =~= Set::empty() {
                        assert(state.bucket(band, hash).len() == 0);
                    }
                }
                self.index.lemma_key_is_live(key);
                let id = self.index.key_to_id@[key] as int;
                self.index.lemma_live(id);
                self.index.lemma_in_bucket(id, band);
                self.index.lemma_bucket_size(band, hash);
                assert(self.index.buckets@[band]@.contains_key(hash));
            }
        }
        assert forall|i: int| 0 <= i < lists.len() implies (#[trigger] lists[i]).no_duplicates()
            && lists[i].to_set() == state.bucket(buckets[i].0, buckets[i].1) by {
            let owner = self.owners@[i];
            self.lemma_list(i);
            let ids = self.buckets@[i]@;
            assert forall|j: int, k: int|
                0 <= j < lists[i].len() && 0 <= k < lists[i].len() && j != k implies lists[i][j]
                != lists[i][k] by {
                assert(self.index.is_live(ids[j] as int) && self.index.is_live(ids[k] as int));
                self.index.lemma_live(ids[j] as int);
                self.index.lemma_live(ids[k] as int);
                assert(ids[j] != ids[k]);
            }
            assert forall|key: u64| lists[i].to_set().contains(key) == state.bucket(
                owner.0,
                owner.1,
            ).contains(key) by {
                if lists[i].contains(key) {
                    let j = choose|j: int| 0 <= j < lists[i].len() && lists[i][j] == key;
                    assert(self.index.is_live(ids[j] as int));
                    self.index.lemma_live(ids[j] as int);
                }
                if state.bucket(owner.0, owner.1).contains(key) {
                    self.index.lemma_key_is_live(key);
                    let id = self.index.key_to_id@[key] as int;
                    self.index.lemma_live(id);
                    self.index.lemma_in_bucket(id, owner.0);
                    let j = choose|j: int| 0 <= j < ids.len() && ids[j] == id as u32;
                    assert(lists[i][j] == key);
                }
            }
            assert(lists[i].to_set() =~= state.bucket(owner.0, owner.1));
        }
        buckets
    }

    /// Give out the next pair that has not been given out, if there is one.
    pub fn next(&mut self) -> (result: Option<(u64, u64)>)
        requires
            old(self).wf(),
        ensures
            final(self).wf(),
            final(self).source() == old(self).source(),
            match result {
                Some(pair) => {
                    &&& !old(self)@.over()
                    &&& pair == old(self)@.next_pair()
                    &&& final(self)@ == old(self)@.advanced()
                    &&& old(self).source().is_pair(pair)
                    &&& !old(self)@.produced.contains(pair)
                },
                None => {
                    &&& old(self)@.over()
                    &&& final(self)@.produced == old(self)@.produced
                    &&& final(self)@.lists == old(self)@.lists
                    &&& forall|pair: (u64, u64)|
                        old(self)@.produced.contains(pair) <==> #[trigger] old(self).source().is_pair(pair)
                },
            },
    {
        let ghost start = self@;
        let ghost index = *self.index;
        let ghost lists = self.buckets@;
        let ghost owners = self.owners@;
        let count: usize = self.buckets.len();
        while self.bucket_index < count
            invariant
                self.wf(),
                count == self.buckets@.len(),
                start == old(self)@,
                *self.index == index,
                *old(self).index == index,
                self.buckets@ == lists,
                self.owners@ == owners,
                self@.lists == start.lists,
                self@.produced == start.produced,
                forall|b: int, l: int, r: int|
                    #![trigger start.pair_at(b, l, r)]
                    start.is_position(b, l, r) && start.ahead(b, l, r) && !self@.ahead(b, l, r)
                        ==> start.produced.contains(start.pair_at(b, l, r)),
                forall|b: int, l: int, r: int| self@.ahead(b, l, r) ==> #[trigger] start.ahead(b, l, r),
            decreases
                    count - self.bucket_index,
                    if self.bucket_index < count {
                        self.buckets@[self.bucket_index as int]@.len() - self.left_index
                    } else {
                        0
                    },
                    if self.bucket_index < count {
                        self.buckets@[self.bucket_index as int]@.len() - self.right_index
                    } else {
                        0
                    },
        {
            let ids = self.buckets[self.bucket_index];
            let size: usize = ids.len();
            let ghost here = *self;
            if self.left_index + 1 >= size {
                self.bucket_index = self.bucket_index + 1;
                self.left_index = 0;
                self.right_index = 1;
                proof {
                    assert(self@.lists =~= here@.lists);
                    if self.bucket_index < count {
                        assert(self.owners@[self.bucket_index as int].0 >= 0);
                    }
                    assert forall|b: int, l: int, r: int|
                        self@.is_position(b, l, r) implies self@.ahead(b, l, r) == here@.ahead(
                        b,
                        l,
                        r,
                    ) by {}
                    assert forall|b: int, l: int, r: int|
                        #![trigger self@.pair_at(b, l, r)]
                        self@.is_position(b, l, r) && !self@.ahead(
                            b,
                            l,
                            r,
                        ) implies self@.produced.contains(self@.pair_at(b, l, r)) by {
                        assert(here@.pair_at(b, l, r) == self@.pair_at(b, l, r));
                    }
                }
                continue;
            }
            if self.right_index >= size {
                self.left_index = self.left_index + 1;
                self.right_index = self.left_index + 1;
                proof {
                    assert(self@.lists =~= here@.lists);
                    assert forall|b: int, l: int, r: int|
                        #![trigger self@.pair_at(b, l, r)]
                        self@.is_position(b, l, r) && !self@.ahead(
                            b,
                            l,
                            r,
                        ) implies self@.produced.contains(self@.pair_at(b, l, r)) by {
                        assert(here@.pair_at(b, l, r) == self@.pair_at(b, l, r));
                    }
                }
                continue;
            }
            let ghost bucket = self.bucket_index as int;
            let ghost left_at = self.left_index as int;
            let ghost right_at = self.right_index as int;
            let left: u32 = ids[self.left_index];
            let right: u32 = ids[self.right_index];
            self.right_index = self.right_index + 1;
            proof {
                here.lemma_list(bucket);
                assert(self.index.is_live(ids@[left_at] as int));
                assert(self.index.is_live(ids@[right_at] as int));
                assert(left < right);
                self.index.lemma_live(left as int);
                self.index.lemma_live(right as int);
                lemma_code_injective(left, right, left, right);
                here.lemma_position_is_pair(bucket, left_at, right_at);
                assert(self@.lists =~= here@.lists);
                assert(here@.pair_at(bucket, left_at, right_at) == start.pair_at(
                    bucket,
                    left_at,
                    right_at,
                ));
            }
            let coded: u64 = left as u64 * 0x1_0000_0000 + right as u64;
            let ghost seen_before = self.seen@;
            let fresh = self.seen.insert(coded);
            let left_key: u64 = match self.index.id_to_key[left as usize] {
                Some(key) => key,
                None => 0,
            };
            let right_key: u64 = match self.index.id_to_key[right as usize] {
                Some(key) => key,
                None => 0,
            };
            let pair = pairs::ordered_pair(left_key, right_key);
            proof {
                assert(coded == code(left, right));
                assert(pair == start.pair_at(bucket, left_at, right_at));
                assert(seen_before.contains(code(left, right)) == here.produced@.contains(pair));
                self.produced@ = self.produced@.insert(pair);
                assert forall|a: u32, b: u32|
                    a < b && self.index.is_live(a as int) && self.index.is_live(
                        b as int,
                    ) implies #[trigger] self.seen@.contains(code(a, b))
                    == self.produced@.contains(
                    pairs::spec_ordered_pair(
                        self.index.key_at(a as int),
                        self.index.key_at(b as int),
                    ),
                ) by {
                    lemma_code_injective(a, b, left, right);
                    self.index.lemma_live(a as int);
                    self.index.lemma_live(b as int);
                    assert(here.seen@.contains(code(a, b)) == here.produced@.contains(
                        pairs::spec_ordered_pair(
                            self.index.key_at(a as int),
                            self.index.key_at(b as int),
                        ),
                    ));
                }
                assert forall|b: int, l: int, r: int|
                    #![trigger self@.pair_at(b, l, r)]
                    self@.is_position(b, l, r) && !self@.ahead(
                        b,
                        l,
                        r,
                    ) implies self@.produced.contains(self@.pair_at(b, l, r)) by {
                    assert(here@.pair_at(b, l, r) == self@.pair_at(b, l, r));
                }
                assert(start.ahead(bucket, left_at, right_at));
            }
            if fresh {
                proof {
                    assert forall|b: int, l: int, r: int|
                        #![trigger start.pair_at(b, l, r)]
                        start.is_position(b, l, r) && start.ahead(b, l, r) && (b < bucket || (b
                            == bucket && (l < left_at || (l == left_at && r
                            < right_at)))) implies start.produced.contains(
                        start.pair_at(b, l, r),
                    ) by {
                        assert(!here@.ahead(b, l, r));
                    }
                    assert(start.is_next(bucket, left_at, right_at));
                    assert(self@ =~= start.past(bucket, left_at, right_at));
                    start.lemma_next_is_unique(bucket, left_at, right_at);
                }
                return Some(pair);
            }
            proof {
                assert(self.produced@ =~= here.produced@);
                assert forall|b: int, l: int, r: int|
                    #![trigger start.pair_at(b, l, r)]
                    start.is_position(b, l, r) && start.ahead(b, l, r) && !self@.ahead(
                        b,
                        l,
                        r,
                    ) implies start.produced.contains(start.pair_at(b, l, r)) by {
                    if here@.ahead(b, l, r) {
                        assert(b == bucket && l == left_at && r == right_at);
                    }
                }
            }
        }
        proof {
            assert forall|pair: (u64, u64)|
                start.produced.contains(pair) <==> #[trigger] self.index@.is_pair(pair) by {
                if self.index@.is_pair(pair) {
                    let (b, l, r) = self.lemma_pair_has_position(pair);
                    assert(!self@.ahead(b, l, r));
                    assert(self@.pair_at(b, l, r) == pair);
                }
            }
            assert forall|b: int, l: int, r: int| !#[trigger] start.is_next(b, l, r) by {
                if start.is_position(b, l, r) {
                    self.lemma_position_is_pair(b, l, r);
                    assert(start.pair_at(b, l, r) == self@.pair_at(b, l, r));
                }
            }
        }
        None
    }
}

impl LshIndex32 {
    /// Stream unique candidate pairs generated by LSH bucket collisions.
    ///
    /// Each pair is normalized to `(smaller_key, larger_key)`. Buckets come in
    /// the order of their bands and hashes. The order of the pairs is the same
    /// whenever the same index is streamed.
    pub fn candidate_pairs(&self) -> (stream: CandidatePairs<'_>)
        requires
            self.wf(),
        ensures
            stream.wf(),
            stream.source() == self@,
            stream@ == self.pair_stream(),
            stream@.produced == Set::<(u64, u64)>::empty(),
    {
        CandidatePairs::new(self)
    }
}

} // verus!
