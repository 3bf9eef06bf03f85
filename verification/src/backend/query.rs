//! Preparing requests to a backend and putting its replies together.

use std::collections::{HashMap, HashSet};
use vstd::prelude::*;

use crate::backend::contract;
use crate::backend::contract::{Item, StoredItem};
use crate::backend::descriptor::{Descriptor, IndexDescriptor};
use crate::backend::error::{BackendError, BackendIndexError, Corruption};
use crate::format::buckets::BucketKey;
use crate::index::lsh;
use crate::index::params;
use crate::index::params::LshError;
use crate::order;
use crate::sketch::minhash32::{MinHash32, Sketch32};

verus! {

broadcast use vstd::std_specs::hash::group_hash_axioms;

/// Why a sketch does not belong to an index with this descriptor, if it does
/// not.
pub open spec fn sketch_error(descriptor: Descriptor, sketch: Sketch32) -> Option<LshError> {
    if sketch.seed != descriptor.seed {
        Some(LshError::IncompatibleSeed { expected: descriptor.seed, actual: sketch.seed })
    } else if sketch.values.len() != descriptor.num_perm {
        Some(
            LshError::IncompatiblePermutationCount {
                expected: descriptor.num_perm,
                actual: sketch.values.len() as usize,
            },
        )
    } else {
        None
    }
}

/// The band hashes of a sketch.
pub fn band_hashes(descriptor: &IndexDescriptor, sketch: &MinHash32) -> (result: Result<
    Vec<u64>,
    LshError,
>)
    requires
        descriptor@.banded(),
    ensures
        match sketch_error(descriptor@, sketch@) {
            Some(error) => result == Err::<Vec<u64>, LshError>(error),
            None => result matches Ok(hashes) && hashes@ == params::spec_band_hashes(
                sketch@.values,
                descriptor@.params,
            ),
        },
{
    let actual: usize = sketch.num_perm();
    if sketch.seed() != descriptor.seed() {
        return Err(
            LshError::IncompatibleSeed { expected: descriptor.seed(), actual: sketch.seed() },
        );
    }
    if actual != descriptor.num_perm() {
        return Err(
            LshError::IncompatiblePermutationCount { expected: descriptor.num_perm(), actual },
        );
    }
    Ok(params::band_hashes(sketch.signature(), descriptor.params()))
}

/// Why item number `index` of a batch cannot be prepared, if it cannot.
pub open spec fn item_error(
    descriptor: Descriptor,
    batch: Seq<(u64, Sketch32)>,
    index: int,
) -> Option<BackendIndexError> {
    let key = batch[index].0;
    if exists|j: int| 0 <= j < index && (#[trigger] batch[j]).0 == key {
        Some(BackendIndexError::Backend(BackendError::DuplicateKey { key }))
    } else {
        match sketch_error(descriptor, batch[index].1) {
            Some(error) => Some(BackendIndexError::Index(error)),
            None => None,
        }
    }
}

/// The error of the first of the first `upto` items of a batch that has one.
pub open spec fn batch_error(
    descriptor: Descriptor,
    batch: Seq<(u64, Sketch32)>,
    upto: nat,
) -> Option<BackendIndexError>
    decreases upto,
{
    if upto == 0 {
        None
    } else {
        match batch_error(descriptor, batch, (upto - 1) as nat) {
            Some(error) => Some(error),
            None => item_error(descriptor, batch, upto - 1),
        }
    }
}

/// The records of a batch.
pub open spec fn batch_items(descriptor: Descriptor, batch: Seq<(u64, Sketch32)>) -> Seq<Item> {
    Seq::new(
        batch.len(),
        |i: int|
            Item {
                key: batch[i].0,
                hashes: params::spec_band_hashes(batch[i].1.values, descriptor.params),
            },
    )
}

proof fn lemma_first_batch_error(
    descriptor: Descriptor,
    batch: Seq<(u64, Sketch32)>,
    upto: nat,
    all: nat,
)
    requires
        upto <= all,
        batch_error(descriptor, batch, upto) is Some,
    ensures
        batch_error(descriptor, batch, all) == batch_error(descriptor, batch, upto),
    decreases all,
{
    if upto < all {
        lemma_first_batch_error(descriptor, batch, upto, (all - 1) as nat);
    }
}

/// Prepare the records of a batch.
pub fn prepare_batch(descriptor: &IndexDescriptor, items: &[(u64, &MinHash32)]) -> (result: Result<
    Vec<StoredItem>,
    BackendIndexError,
>)
    requires
        descriptor@.banded(),
    ensures
        match batch_error(descriptor@, lsh::batch_of(items@), items@.len()) {
            Some(error) => result == Err::<Vec<StoredItem>, BackendIndexError>(error),
            None => result matches Ok(stored) && contract::item_views(stored@) == batch_items(
                descriptor@,
                lsh::batch_of(items@),
            ),
        },
{
    let ghost batch = lsh::batch_of(items@);
    let ghost expected = batch_items(descriptor@, batch);
    let mut seen: HashSet<u64> = HashSet::new();
    let mut stored: Vec<StoredItem> = Vec::new();
    let mut index: usize = 0;
    while index < items.len()
        invariant
            index <= items@.len(),
            descriptor@.banded(),
            batch == lsh::batch_of(items@),
            expected == batch_items(descriptor@, batch),
            batch_error(descriptor@, batch, index as nat) is None,
            forall|key: u64| #[trigger]
                seen@.contains(key) <==> exists|j: int|
                    0 <= j < index && (#[trigger] batch[j]).0 == key,
            contract::item_views(stored@) =~= expected.take(index as int),
        decreases items@.len() - index,
    {
        let (key, sketch) = items[index];
        proof {
            assert(batch[index as int] == (key, sketch@));
            if batch_error(descriptor@, batch, (index + 1) as nat) is Some {
                lemma_first_batch_error(descriptor@, batch, (index + 1) as nat, items@.len());
            }
        }
        let ghost before = seen@;
        if !seen.insert(key) {
            assert(before.contains(key));
            return Err(BackendIndexError::Backend(BackendError::DuplicateKey { key }));
        }
        let hashes = match band_hashes(descriptor, sketch) {
            Ok(hashes) => hashes,
            Err(error) => {
                return Err(BackendIndexError::Index(error));
            },
        };
        let item = StoredItem::new(key, hashes);
        let ghost earlier = contract::item_views(stored@);
        stored.push(item);
        proof {
            assert(contract::item_views(stored@) =~= earlier.push(item@));
            assert(expected.take(index + 1) =~= expected.take(index as int).push(item@));
            assert forall|other: u64| #[trigger] seen@.contains(other) <==> exists|j: int|
                0 <= j < index + 1 && (#[trigger] batch[j]).0 == other by {
                if seen@.contains(other) {
                    if other == key {
                        assert(batch[index as int].0 == other);
                    } else {
                        assert(before.contains(other));
                        let j = choose|j: int| 0 <= j < index && (#[trigger] batch[j]).0 == other;
                        assert(batch[j].0 == other);
                    }
                }
                if exists|j: int| 0 <= j < index + 1 && (#[trigger] batch[j]).0 == other {
                    let j = choose|j: int| 0 <= j < index + 1 && (#[trigger] batch[j]).0 == other;
                    if j < index {
                        assert(before.contains(other));
                    }
                }
            }
        }
        index = index + 1;
    }
    assert(expected.take(index as int) =~= expected);
    Ok(stored)
}

/// The buckets that a sketch falls into, band by band.
pub open spec fn sketch_buckets(descriptor: Descriptor, sketch: Sketch32) -> Seq<BucketKey> {
    Seq::new(
        descriptor.params.bands as nat,
        |band: int|
            BucketKey {
                band: band as u32,
                hash: params::spec_band_hashes(sketch.values, descriptor.params)[band],
            },
    )
}

/// The buckets that sketches fall into, sketch by sketch.
pub open spec fn all_buckets(descriptor: Descriptor, sketches: Seq<Sketch32>) -> Seq<BucketKey>
    decreases sketches.len(),
{
    if sketches.len() == 0 {
        Seq::empty()
    } else {
        all_buckets(descriptor, sketches.drop_last()) + sketch_buckets(
            descriptor,
            sketches.last(),
        )
    }
}

/// The keys, each where it occurs first.
pub open spec fn distinct(keys: Seq<BucketKey>) -> Seq<BucketKey>
    decreases keys.len(),
{
    if keys.len() == 0 {
        Seq::empty()
    } else {
        let front = distinct(keys.drop_last());
        if front.contains(keys.last()) {
            front
        } else {
            front.push(keys.last())
        }
    }
}

/// The first error of the first `upto` sketches, if they have one.
pub open spec fn sketches_error(
    descriptor: Descriptor,
    sketches: Seq<Sketch32>,
    upto: nat,
) -> Option<LshError>
    decreases upto,
{
    if upto == 0 {
        None
    } else {
        match sketches_error(descriptor, sketches, (upto - 1) as nat) {
            Some(error) => Some(error),
            None => sketch_error(descriptor, sketches[upto - 1]),
        }
    }
}

proof fn lemma_first_sketch_error(
    descriptor: Descriptor,
    sketches: Seq<Sketch32>,
    upto: nat,
    all: nat,
)
    requires
        upto <= all,
        sketches_error(descriptor, sketches, upto) is Some,
    ensures
        sketches_error(descriptor, sketches, all) == sketches_error(descriptor, sketches, upto),
    decreases all,
{
    if upto < all {
        lemma_first_sketch_error(descriptor, sketches, upto, (all - 1) as nat);
    }
}

/// What each of the sketches holds.
pub open spec fn sketch_views(sketches: Seq<&MinHash32>) -> Seq<Sketch32> {
    Seq::new(sketches.len(), |i: int| sketches[i]@)
}

/// One read for many queries: the buckets to read, each once, and for each
/// query the positions of its buckets among them.
#[derive(Debug, Clone, PartialEq, Eq)]
pub struct QueryPlan {
    /// The buckets to read.
    pub buckets: Vec<BucketKey>,
    /// For each query the position of the bucket of each band.
    pub positions: Vec<Vec<usize>>,
}

/// The positions lead to the buckets that a query wants.
pub open spec fn points_to(
    positions: Seq<usize>,
    read: Seq<BucketKey>,
    wanted: Seq<BucketKey>,
) -> bool {
    &&& positions.len() == wanted.len()
    &&& forall|band: int|
        0 <= band < wanted.len() ==> (#[trigger] positions[band]) < read.len()
            && read[positions[band] as int] == wanted[band]
}

impl QueryPlan {
    /// The plan serves these queries.
    pub open spec fn serves(&self, descriptor: Descriptor, sketches: Seq<Sketch32>) -> bool {
        &&& self.buckets@ == distinct(all_buckets(descriptor, sketches))
        &&& self.positions@.len() == sketches.len()
        &&& forall|q: int|
            0 <= q < sketches.len() ==> points_to(
                (#[trigger] self.positions@[q])@,
                self.buckets@,
                sketch_buckets(descriptor, sketches[q]),
            )
    }
}

/// The tables tell where a bucket stands in the list, if it is there.
spec fn indexed(tables: Seq<HashMap<u64, usize>>, list: Seq<BucketKey>) -> bool {
    &&& forall|band: int, hash: u64|
        0 <= band < tables.len() && #[trigger] tables[band]@.contains_key(hash) ==> {
            let at = tables[band]@[hash];
            at < list.len() && list[at as int] == (BucketKey { band: band as u32, hash })
        }
    &&& forall|at: int|
        0 <= at < list.len() ==> (#[trigger] list[at]).band < tables.len()
            && tables[list[at].band as int]@.contains_key(list[at].hash)
}

/// The position of a bucket in the list, which is extended where it is not yet
/// there.
fn position_of(
    tables: &mut Vec<HashMap<u64, usize>>,
    list: &mut Vec<BucketKey>,
    key: BucketKey,
    Ghost(keys): Ghost<Seq<BucketKey>>,
) -> (at: usize)
    requires
        indexed(old(tables)@, old(list)@),
        key.band < old(tables)@.len(),
        old(tables)@.len() <= u32::MAX,
        old(list)@ == distinct(keys),
    ensures
        indexed(final(tables)@, final(list)@),
        final(tables)@.len() == old(tables)@.len(),
        final(list)@ == distinct(keys.push(key)),
        at < final(list)@.len(),
        final(list)@[at as int] == key,
        forall|i: int| 0 <= i < old(list)@.len() ==> final(list)@[i] == old(list)@[i],
        old(list)@.len() <= final(list)@.len(),
{
    let band: usize = key.band as usize;
    let hash: u64 = key.hash;
    let ghost before = tables@;
    let ghost earlier = list@;
    proof {
        assert(keys.push(key).drop_last() =~= keys);
        assert(keys.push(key).last() == key);
    }
    match tables[band].get(&hash) {
        Some(at) => {
            let found: usize = *at;
            assert(earlier[found as int] == key);
            assert(earlier.contains(key));
            found
        },
        None => {
            let at: usize = list.len();
            proof {
                if earlier.contains(key) {
                    let i = choose|i: int| 0 <= i < earlier.len() && earlier[i] == key;
                    assert(before[earlier[i].band as int]@.contains_key(earlier[i].hash));
                }
            }
            list.push(key);
            let mut table: HashMap<u64, usize> = HashMap::new();
            std::mem::swap(&mut tables[band], &mut table);
            table.insert(hash, at);
            std::mem::swap(&mut tables[band], &mut table);
            proof {
                let now = tables@;
                assert(now[band as int]@ == before[band as int]@.insert(hash, at));
                assert forall|b: int, h: u64|
                    0 <= b < now.len() && #[trigger] now[b]@.contains_key(h) implies {
                    let found = now[b]@[h];
                    found < list@.len() && list@[found as int] == (BucketKey {
                        band: b as u32,
                        hash: h,
                    })
                } by {
                    if b != band {
                        assert(now[b] == before[b]);
                        assert(before[b]@.contains_key(h));
                    } else if h != hash {
                        assert(before[b]@.contains_key(h));
                    }
                }
                assert forall|i: int| 0 <= i < list@.len() implies (#[trigger] list@[i]).band
                    < now.len() && now[list@[i].band as int]@.contains_key(list@[i].hash) by {
                    if i < earlier.len() {
                        assert(list@[i] == earlier[i]);
                        assert(before[earlier[i].band as int]@.contains_key(earlier[i].hash));
                    }
                }
            }
            at
        },
    }
}

/// Plan one read for many queries.
pub fn plan_queries(descriptor: &IndexDescriptor, sketches: &[&MinHash32]) -> (result: Result<
    QueryPlan,
    LshError,
>)
    requires
        descriptor@.banded(),
    ensures
        match sketches_error(descriptor@, sketch_views(sketches@), sketches@.len()) {
            Some(error) => result == Err::<QueryPlan, LshError>(error),
            None => result matches Ok(plan) && plan.serves(
                descriptor@,
                sketch_views(sketches@),
            ),
        },
{
    let ghost views = sketch_views(sketches@);
    let ghost told = descriptor@;
    let bands: usize = descriptor.params().bands;
    let mut tables: Vec<HashMap<u64, usize>> = Vec::new();
    let mut list: Vec<BucketKey> = Vec::new();
    let mut positions: Vec<Vec<usize>> = Vec::new();
    let mut band: usize = 0;
    while band < bands
        invariant
            band <= bands,
            tables@.len() == band,
            list@.len() == 0,
            forall|b: int|
                0 <= b < band ==> (#[trigger] tables@[b])@ == Map::<u64, usize>::empty(),
        decreases bands - band,
    {
        let table: HashMap<u64, usize> = HashMap::new();
        tables.push(table);
        band = band + 1;
    }
    proof {
        lemma_bands_fit(told);
        assert(views.take(0) =~= Seq::empty());
        assert(list@ =~= distinct(all_buckets(told, views.take(0))));
    }
    let mut index: usize = 0;
    while index < sketches.len()
        invariant
            index <= sketches@.len(),
            descriptor@.banded(),
            told == descriptor@,
            bands == told.params.bands,
            bands <= u32::MAX,
            tables@.len() == bands,
            indexed(tables@, list@),
            views == sketch_views(sketches@),
            sketches_error(told, views, index as nat) is None,
            list@ == distinct(all_buckets(told, views.take(index as int))),
            positions@.len() == index,
            forall|q: int|
                0 <= q < index ==> points_to(
                    (#[trigger] positions@[q])@,
                    list@,
                    sketch_buckets(told, views[q]),
                ),
        decreases sketches@.len() - index,
    {
        let sketch = sketches[index];
        proof {
            assert(views[index as int] == sketch@);
            if sketches_error(told, views, (index + 1) as nat) is Some {
                lemma_first_sketch_error(told, views, (index + 1) as nat, sketches@.len());
            }
        }
        let hashes = match band_hashes(descriptor, sketch) {
            Ok(hashes) => hashes,
            Err(error) => {
                return Err(error);
            },
        };
        let ghost wanted = sketch_buckets(told, sketch@);
        let ghost before = all_buckets(told, views.take(index as int));
        let ghost earlier = list@;
        let mut own: Vec<usize> = Vec::new();
        let mut band: usize = 0;
        assert(before + wanted.take(0) =~= before);
        while band < bands
            invariant
                band <= bands,
                bands <= u32::MAX,
                bands == told.params.bands,
                tables@.len() == bands,
                hashes@ == params::spec_band_hashes(sketch@.values, told.params),
                wanted == sketch_buckets(told, sketch@),
                indexed(tables@, list@),
                list@ == distinct(before + wanted.take(band as int)),
                own@.len() == band,
                earlier.len() <= list@.len(),
                forall|i: int| 0 <= i < earlier.len() ==> #[trigger] list@[i] == earlier[i],
                forall|b: int|
                    0 <= b < band ==> (#[trigger] own@[b]) < list@.len() && list@[own@[b] as int]
                        == wanted[b],
            decreases bands - band,
        {
            let key = BucketKey { band: band as u32, hash: hashes[band] };
            let ghost held = list@;
            proof {
                assert(wanted[band as int] == key);
                assert(before + wanted.take(band + 1) =~= (before + wanted.take(
                    band as int,
                )).push(key));
            }
            let at: usize = position_of(
                &mut tables,
                &mut list,
                key,
                Ghost(before + wanted.take(band as int)),
            );
            own.push(at);
            proof {
                assert forall|i: int| 0 <= i < earlier.len() implies #[trigger] list@[i]
                    == earlier[i] by {
                    assert(held[i] == earlier[i]);
                }
                assert forall|b: int| 0 <= b < band + 1 implies (#[trigger] own@[b])
                    < list@.len() && list@[own@[b] as int] == wanted[b] by {
                    if b < band {
                        assert(held[own@[b] as int] == wanted[b]);
                    }
                }
            }
            band = band + 1;
        }
        let ghost earlier_positions = positions@;
        positions.push(own);
        proof {
            let longer = views.take(index + 1);
            assert(longer.drop_last() =~= views.take(index as int));
            assert(longer.last() == sketch@);
            assert(wanted.take(band as int) =~= wanted);
            assert forall|q: int| 0 <= q < index + 1 implies points_to(
                (#[trigger] positions@[q])@,
                list@,
                sketch_buckets(told, views[q]),
            ) by {
                if q < index {
                    let list_of = earlier_positions[q]@;
                    let theirs = sketch_buckets(told, views[q]);
                    assert(points_to(list_of, earlier, theirs));
                    assert forall|b: int| 0 <= b < theirs.len() implies (#[trigger] list_of[b])
                        < list@.len() && list@[list_of[b] as int] == theirs[b] by {
                        assert(earlier[list_of[b] as int] == theirs[b]);
                    }
                }
            }
        }
        index = index + 1;
    }
    assert(views.take(index as int) =~= views);
    Ok(QueryPlan { buckets: list, positions })
}

pub(crate) proof fn lemma_bands_fit(descriptor: Descriptor)
    requires
        descriptor.banded(),
    ensures
        descriptor.params.bands <= u32::MAX,
        descriptor.params.fits(descriptor.num_perm as nat),
{
    let bands = descriptor.params.bands as int;
    let rows = descriptor.params.rows as int;
    assert(bands <= bands * rows) by (nonlinear_arith)
        requires
            bands > 0,
            rows > 0,
    ;
}

/// The sequence holds the members of all rows at these positions, each once, in
/// ascending order.
pub open spec fn is_gathered(
    positions: Seq<usize>,
    rows: Seq<Vec<u64>>,
    keys: Seq<u64>,
) -> bool {
    &&& order::increasing(keys)
    &&& forall|key: u64| #[trigger]
        keys.contains(key) <==> exists|band: int|
            0 <= band < positions.len() && rows[#[trigger] positions[band] as int]@.contains(key)
}

/// How many keys the first `count` answers hold together, as far as a `usize`
/// can tell.
pub open spec fn total_keys(answers: Seq<Vec<u64>>, count: nat) -> usize
    decreases count,
{
    if count == 0 {
        0
    } else {
        let sum = total_keys(answers, (count - 1) as nat) + answers[count - 1]@.len();
        if sum > usize::MAX {
            usize::MAX
        } else {
            sum as usize
        }
    }
}

proof fn lemma_total_prefix(left: Seq<Vec<u64>>, right: Seq<Vec<u64>>, count: nat)
    requires
        count <= left.len() <= right.len(),
        forall|i: int| 0 <= i < left.len() ==> #[trigger] left[i] == right[i],
    ensures
        total_keys(left, count) == total_keys(right, count),
    decreases count,
{
    if count > 0 {
        lemma_total_prefix(left, right, (count - 1) as nat);
        assert(left[count - 1] == right[count - 1]);
    }
}

/// Put the rows that a backend returned together.
pub fn gather(positions: &Vec<usize>, rows: &Vec<Vec<u64>>) -> (keys: Vec<u64>)
    requires
        forall|band: int|
            0 <= band < positions@.len() ==> (#[trigger] positions@[band]) < rows@.len(),
    ensures
        is_gathered(positions@, rows@, keys@),
{
    let mut all: Vec<u64> = Vec::new();
    let mut band: usize = 0;
    while band < positions.len()
        invariant
            band <= positions@.len(),
            forall|b: int| 0 <= b < positions@.len() ==> (#[trigger] positions@[b]) < rows@.len(),
            forall|key: u64| #[trigger]
                all@.contains(key) <==> exists|b: int|
                    0 <= b < band && rows@[#[trigger] positions@[b] as int]@.contains(key),
        decreases positions@.len() - band,
    {
        let ghost before = all@;
        let at: usize = positions[band];
        all.extend_from_slice(rows[at].as_slice());
        proof {
            let more = rows@[at as int]@;
            assert(all@ =~= before + more);
            assert forall|key: u64| #[trigger] all@.contains(key) <==> exists|b: int|
                0 <= b < band + 1 && rows@[#[trigger] positions@[b] as int]@.contains(key) by {
                if all@.contains(key) {
                    let i = choose|i: int| 0 <= i < all@.len() && all@[i] == key;
                    if i < before.len() {
                        assert(before[i] == key);
                        assert(before.contains(key));
                        let b = choose|b: int|
                            0 <= b < band && rows@[#[trigger] positions@[b] as int]@.contains(key);
                        assert(rows@[positions@[b] as int]@.contains(key));
                    } else {
                        assert(more[i - before.len()] == key);
                        assert(rows@[positions@[band as int] as int]@.contains(key));
                    }
                }
                if exists|b: int|
                    0 <= b < band + 1 && rows@[#[trigger] positions@[b] as int]@.contains(key) {
                    let b = choose|b: int|
                        0 <= b < band + 1 && rows@[#[trigger] positions@[b] as int]@.contains(key);
                    if b < band {
                        assert(before.contains(key));
                        let i = choose|i: int| 0 <= i < before.len() && before[i] == key;
                        assert(all@[i] == key);
                    } else {
                        let i = choose|i: int| 0 <= i < more.len() && more[i] == key;
                        assert(all@[before.len() + i] == key);
                    }
                }
            }
        }
        band = band + 1;
    }
    let ghost members = all@;
    let keys = order::sorted_unique(all);
    proof {
        assert forall|key: u64| #[trigger] keys@.contains(key) == members.contains(key) by {
            assert(keys@.to_set().contains(key) == members.to_set().contains(key));
        }
    }
    keys
}

/// The rows answer the plan.
pub open spec fn answers(plan: QueryPlan, rows: Seq<Vec<u64>>, found: Seq<Vec<u64>>) -> bool {
    &&& found.len() == plan.positions@.len()
    &&& forall|q: int|
        0 <= q < found.len() ==> is_gathered(
            plan.positions@[q]@,
            rows,
            (#[trigger] found[q])@,
        )
}

/// The answers to planned queries, given what the backend returned for the
/// buckets of the plan.
pub fn assemble(plan: &QueryPlan, rows: &Vec<Vec<u64>>) -> (result: Result<
    (Vec<Vec<u64>>, usize),
    BackendError,
>)
    requires
        forall|q: int, band: int|
            0 <= q < plan.positions@.len() && 0 <= band < plan.positions@[q]@.len()
                ==> (#[trigger] plan.positions@[q]@[band]) < plan.buckets@.len(),
    ensures
        if rows@.len() != plan.buckets@.len() {
            result == Err::<(Vec<Vec<u64>>, usize), BackendError>(
                BackendError::CorruptData {
                    reason: Corruption::BucketRows {
                        returned: rows@.len() as usize,
                        requested: plan.buckets@.len() as usize,
                    },
                },
            )
        } else {
            result matches Ok((found, count)) && {
                &&& answers(*plan, rows@, found@)
                &&& count == total_keys(found@, found@.len())
            }
        },
{
    if rows.len() != plan.buckets.len() {
        return Err(
            BackendError::CorruptData {
                reason: Corruption::BucketRows {
                    returned: rows.len(),
                    requested: plan.buckets.len(),
                },
            },
        );
    }
    let mut found: Vec<Vec<u64>> = Vec::new();
    let mut count: usize = 0;
    let mut index: usize = 0;
    while index < plan.positions.len()
        invariant
            index <= plan.positions@.len(),
            rows@.len() == plan.buckets@.len(),
            forall|q: int, band: int|
                0 <= q < plan.positions@.len() && 0 <= band < plan.positions@[q]@.len()
                    ==> (#[trigger] plan.positions@[q]@[band]) < plan.buckets@.len(),
            found@.len() == index,
            forall|q: int|
                0 <= q < index ==> is_gathered(
                    plan.positions@[q]@,
                    rows@,
                    (#[trigger] found@[q])@,
                ),
            count == total_keys(found@, found@.len()),
        decreases plan.positions@.len() - index,
    {
        let keys = gather(&plan.positions[index], rows);
        let ghost before = found@;
        count = count.saturating_add(keys.len());
        found.push(keys);
        proof {
            lemma_total_prefix(before, found@, before.len());
        }
        index = index + 1;
    }
    Ok((found, count))
}

/// Every sketch of a request is asked for, in the order of the request.
pub proof fn law_requests_hold_every_sketch(sketches: Seq<&MinHash32>)
    ensures
        sketch_views(sketches).len() == sketches.len(),
        forall|i: int| 0 <= i < sketches.len() ==> #[trigger] sketch_views(sketches)[i] == sketches[i]@,
{
}


/// An item that is made ready for storage has its key and one hash for each band: that of
/// the values of the band. Every item of a batch is made ready.
pub proof fn law_batches_are_stored_whole(
    descriptor: Descriptor,
    batch: Seq<(u64, Sketch32)>,
    index: int,
    band: int,
)
    requires
        0 <= index < batch.len(),
        0 <= band < descriptor.params.bands,
        descriptor.params.fits(batch[index].1.values.len()),
    ensures
        batch_items(descriptor, batch).len() == batch.len(),
        batch_items(descriptor, batch)[index].key == batch[index].0,
        batch_items(descriptor, batch)[index].hashes.len() == descriptor.params.bands,
        batch_items(descriptor, batch)[index].hashes[band] == params::spec_hash_band(
            batch[index].1.values.skip(band * descriptor.params.rows).take(
                descriptor.params.rows as int,
            ),
        ),
{
    params::law_band_hash_of_a_signature(batch[index].1.values, descriptor.params, band);
}

/// A request is refused exactly when one of its sketches has another seed or another
/// length than the index.
pub proof fn law_which_requests_are_taken(
    descriptor: Descriptor,
    sketches: Seq<Sketch32>,
    count: nat,
)
    requires
        count <= sketches.len(),
    ensures
        (sketches_error(descriptor, sketches, count) is None) == (forall|i: int|
            0 <= i < count ==> (#[trigger] sketches[i]).seed == descriptor.seed
                && sketches[i].values.len() == descriptor.num_perm),
    decreases count,
{
    if count > 0 {
        law_which_requests_are_taken(descriptor, sketches, (count - 1) as nat);
        assert(sketches[count - 1] == sketches[count - 1]);
    }
}

} // verus!
