//! Benchmarks of storage layouts.

use vstd::prelude::*;

use crate::bench::workload;
use crate::bench::workload::{build_run_signature, number};
use crate::format::buckets::BucketKey;
use crate::index::lsh::{LshIndex32, LshState};
use crate::index::metrics;
use crate::index::params;
use crate::index::params::{band_hashes, LshError, LshParams};
use crate::order;
use crate::sketch::minhash32::{MinHash32, Sketch32};
use crate::store::membership;
use crate::store::membership::{bucket_items, OwnedBucket};
use crate::threshold::{Threshold, EIGHT_TENTHS_BITS};

verus! {

/// The signature length of the workload.
pub const LAYOUT_NUM_PERM: usize = 128;

/// The seed of the workload.
pub const LAYOUT_SEED: u64 = 7;

/// The bands of the workload.
pub const LAYOUT_BANDS: usize = 32;

/// The rows of a band of the workload.
pub const LAYOUT_ROWS: usize = 4;

/// The features of an item.
pub const LAYOUT_FEATURES: usize = 64;

/// The distance between the first features of two consecutive items.
pub const LAYOUT_SPACING: u64 = 100_000;

/// The parameters of the workload.
pub open spec fn layout_params() -> LshParams {
    LshParams { bands: LAYOUT_BANDS, rows: LAYOUT_ROWS }
}

/// The sketch of an item.
pub open spec fn layout_sketch(item: u64) -> Sketch32 {
    workload::feature_sketch(
        workload::run_features(item, LAYOUT_SPACING, LAYOUT_FEATURES as nat),
        LAYOUT_NUM_PERM as nat,
        LAYOUT_SEED,
    )
}

/// The items of the workload.
pub open spec fn layout_batch(items: nat) -> Seq<(u64, Sketch32)> {
    Seq::new(items, |i: int| (i as u64, layout_sketch(i as u64)))
}

/// The band hashes of the items.
pub open spec fn layout_rows(items: nat) -> Seq<Seq<u64>> {
    Seq::new(
        items,
        |i: int| params::spec_band_hashes(layout_sketch(i as u64).values, layout_params()),
    )
}

/// An empty index with the parameters of the workload.
pub open spec fn layout_start() -> LshState {
    LshState {
        threshold: Threshold { bits: EIGHT_TENTHS_BITS },
        num_perm: LAYOUT_NUM_PERM,
        seed: LAYOUT_SEED,
        params: layout_params(),
        items: Map::empty(),
        slots: 0,
    }
}

/// The buckets that a row of band hashes names.
pub open spec fn bucket_keys(row: Seq<u64>) -> Seq<BucketKey> {
    Seq::new(row.len(), |band: int| BucketKey { band: band as u32, hash: row[band] })
}

/// The buckets of a sketch; a sketch that is shorter than the bands has none.
pub fn buckets_for_sketch(sketch: &MinHash32) -> (result: Option<Vec<BucketKey>>)
    ensures
        match result {
            Some(keys) => sketch@.values.len() >= LAYOUT_BANDS * LAYOUT_ROWS && keys@
                == bucket_keys(params::spec_band_hashes(sketch@.values, layout_params())),
            None => sketch@.values.len() < LAYOUT_BANDS * LAYOUT_ROWS,
        },
{
    let signature = sketch.signature();
    if signature.len() < LAYOUT_BANDS * LAYOUT_ROWS {
        return None;
    }
    let row = band_hashes(signature, LshParams { bands: LAYOUT_BANDS, rows: LAYOUT_ROWS });
    Some(name_buckets(&row))
}

fn name_buckets(row: &Vec<u64>) -> (keys: Vec<BucketKey>)
    ensures
        keys@ == bucket_keys(row@),
{
    let mut keys: Vec<BucketKey> = Vec::new();
    let mut band: usize = 0;
    while band < row.len()
        invariant
            band <= row@.len(),
            keys@ == bucket_keys(row@).take(band as int),
        decreases row@.len() - band,
    {
        keys.push(BucketKey { band: band as u32, hash: row[band] });
        band = band + 1;
        assert(keys@ =~= bucket_keys(row@).take(band as int));
    }
    assert(bucket_keys(row@).take(band as int) =~= bucket_keys(row@));
    keys
}

/// What every storage layout is built from and asked for.
#[derive(Debug)]
pub struct LayoutWorkload {
    /// The buckets of all items, in ascending order.
    pub buckets: Vec<OwnedBucket>,
    /// The buckets of each query.
    pub query_buckets: Vec<Vec<BucketKey>>,
    /// The answer to each query.
    pub expected: Vec<Vec<u64>>,
}

/// The queries name the buckets of the first items, and the answers are those
/// of an index of all items.
pub open spec fn are_layout_queries(
    items: nat,
    upto: nat,
    query_buckets: Seq<Vec<BucketKey>>,
    expected: Seq<Vec<u64>>,
) -> bool {
    &&& query_buckets.len() == upto
    &&& expected.len() == upto
    &&& forall|i: int|
        0 <= i < upto ==> (#[trigger] query_buckets[i])@ == bucket_keys(layout_rows(items)[i])
    &&& forall|i: int|
        0 <= i < upto ==> layout_start().with_batch(layout_batch(items)).is_answer(
            layout_sketch(i as u64),
            (#[trigger] expected[i])@,
        )
}

proof fn lemma_layout_sketch(item: u64)
    ensures
        layout_sketch(item).seed == LAYOUT_SEED,
        layout_sketch(item).values.len() == LAYOUT_NUM_PERM,
{
    Sketch32::blank(LAYOUT_NUM_PERM as nat, LAYOUT_SEED).lemma_add_all_shape(
        workload::feature_bytes(
            workload::run_features(item, LAYOUT_SPACING, LAYOUT_FEATURES as nat),
        ),
    );
}

fn sketch_items(items: usize) -> (sketches: Vec<MinHash32>)
    ensures
        sketches@.len() == items,
        forall|i: int| 0 <= i < items ==> (#[trigger] sketches@[i])@ == layout_sketch(i as u64),
{
    let mut sketches: Vec<MinHash32> = Vec::new();
    let mut item: usize = 0;
    while item < items
        invariant
            item <= items,
            sketches@.len() == item,
            forall|i: int| 0 <= i < item ==> (#[trigger] sketches@[i])@ == layout_sketch(i as u64),
        decreases items - item,
    {
        match build_run_signature(
            item as u64,
            LAYOUT_SPACING,
            LAYOUT_FEATURES,
            LAYOUT_NUM_PERM,
            LAYOUT_SEED,
        ) {
            Ok(sketch) => {
                sketches.push(sketch);
            },
            Err(_) => {
                assert(false);
            },
        }
        item = item + 1;
    }
    sketches
}

fn gather_buckets(sketches: &Vec<MinHash32>) -> (buckets: Vec<OwnedBucket>)
    requires
        forall|i: int|
            0 <= i < sketches@.len() ==> (#[trigger] sketches@[i])@ == layout_sketch(i as u64),
    ensures
        membership::owned_views(buckets@) == membership::buckets_by_position(
            membership::positions(sketches@.len()),
            layout_rows(sketches@.len()),
        ),
{
    let mut keys: Vec<u64> = Vec::new();
    let mut rows: Vec<Vec<u64>> = Vec::new();
    let mut item: usize = 0;
    while item < sketches.len()
        invariant
            item <= sketches@.len(),
            keys@ == membership::positions(item as nat),
            rows@.len() == item,
            forall|i: int|
                0 <= i < sketches@.len() ==> (#[trigger] sketches@[i])@ == layout_sketch(i as u64),
            forall|i: int|
                0 <= i < item ==> (#[trigger] rows@[i])@ == layout_rows(sketches@.len())[i]
                    && rows@[i]@.len() == LAYOUT_BANDS,
        decreases sketches@.len() - item,
    {
        proof {
            lemma_layout_sketch(item as u64);
        }
        let signature = sketches[item].signature();
        keys.push(item as u64);
        rows.push(band_hashes(signature, LshParams { bands: LAYOUT_BANDS, rows: LAYOUT_ROWS }));
        item = item + 1;
        assert(keys@ =~= membership::positions(item as nat));
    }
    assert(membership::row_views(rows@) =~= layout_rows(sketches@.len()));
    bucket_items(&keys, &rows)
}

/// Build the workload: the items are sketched and grouped into buckets, and an
/// in-memory index tells what the first of them find.
pub fn build_layout_workload(items: usize, queries: usize) -> (result: Result<
    LayoutWorkload,
    LshError,
>)
    requires
        queries <= items,
    ensures
        match layout_start().batch_error(layout_batch(items as nat)) {
            Some(error) => result == Err::<LayoutWorkload, LshError>(error),
            None => result matches Ok(built) && membership::owned_views(built.buckets@)
                == membership::buckets_by_position(
                membership::positions(items as nat),
                layout_rows(items as nat),
            ) && are_layout_queries(
                items as nat,
                queries as nat,
                built.query_buckets@,
                built.expected@,
            ),
        },
{
    let sketches = sketch_items(items);
    let params = LshParams { bands: LAYOUT_BANDS, rows: LAYOUT_ROWS };
    let threshold = Threshold::from_bits(EIGHT_TENTHS_BITS);
    let mut reference = match LshIndex32::with_params(
        threshold,
        LAYOUT_NUM_PERM,
        LAYOUT_SEED,
        params,
    ) {
        Ok(reference) => reference,
        Err(error) => {
            assert(false);
            return Err(error);
        },
    };
    assert(reference@ == layout_start());
    assert(sketches@.take(items as int) =~= sketches@);
    assert(workload::numbered(sketches@) =~= layout_batch(items as nat));
    match reference.insert_many(number(&sketches, items).as_slice()) {
        Ok(()) => {},
        Err(error) => {
            return Err(error);
        },
    }
    let buckets = gather_buckets(&sketches);
    let ghost state = layout_start().with_batch(layout_batch(items as nat));
    let mut query_buckets: Vec<Vec<BucketKey>> = Vec::new();
    let mut expected: Vec<Vec<u64>> = Vec::new();
    let mut query: usize = 0;
    proof {
        lemma_with_batch_shape(layout_start(), layout_batch(items as nat));
    }
    while query < queries
        invariant
            query <= queries <= items == sketches@.len(),
            forall|i: int|
                0 <= i < items ==> (#[trigger] sketches@[i])@ == layout_sketch(i as u64),
            reference.wf(),
            reference@ == state,
            state == layout_start().with_batch(layout_batch(items as nat)),
            state.num_perm == LAYOUT_NUM_PERM,
            state.seed == LAYOUT_SEED,
            are_layout_queries(items as nat, query as nat, query_buckets@, expected@),
        decreases queries - query,
    {
        proof {
            lemma_layout_sketch(query as u64);
        }
        let sketch = &sketches[query];
        match (buckets_for_sketch(sketch), reference.query(sketch)) {
            (Some(keys), Ok(found)) => {
                query_buckets.push(keys);
                expected.push(found);
            },
            _ => {
                assert(false);
            },
        }
        query = query + 1;
    }
    Ok(LayoutWorkload { buckets, query_buckets, expected })
}

proof fn lemma_with_batch_shape(state: LshState, batch: Seq<(u64, Sketch32)>)
    ensures
        state.with_batch(batch).num_perm == state.num_perm,
        state.with_batch(batch).seed == state.seed,
    decreases batch.len(),
{
    if batch.len() > 0 {
        lemma_with_batch_shape(state, batch.drop_last());
    }
}

proof fn lemma_layout_items(items: nat, upto: nat)
    requires
        upto <= items <= u64::MAX,
    ensures
        layout_start().with_batch(layout_batch(items).take(upto as int)).params == layout_params(),
        forall|key: u64| #[trigger]
            layout_start().with_batch(layout_batch(items).take(upto as int)).items.contains_key(key)
                <==> key < upto,
        forall|key: u64|
            key < upto ==> #[trigger] layout_start().with_batch(
                layout_batch(items).take(upto as int),
            ).items[key] == layout_rows(items)[key as int],
    decreases upto,
{
    let part = layout_batch(items).take(upto as int);
    if upto > 0 {
        lemma_layout_items(items, (upto - 1) as nat);
        assert(part.drop_last() =~= layout_batch(items).take(upto - 1));
        assert(part.last() == layout_batch(items)[upto - 1]);
    } else {
        assert(part =~= Seq::empty());
    }
}

/// A bucket of the workload that the row of a query names holds the key.
pub open spec fn is_held(items: nat, row: Seq<u64>, band: int, key: u64) -> bool {
    0 <= band < row.len() && membership::holds(
        membership::buckets_by_position(membership::positions(items), layout_rows(items)),
        bucket_keys(row)[band],
        key,
    )
}

/// The buckets of a query hold exactly the keys that the in-memory index
/// answers: a layout that keeps the buckets answers as the index does.
pub proof fn law_layouts_answer_as_the_index(items: nat, query: nat, key: u64)
    requires
        query < items <= u64::MAX,
    ensures
        layout_start().with_batch(layout_batch(items)).is_candidate(
            key,
            layout_rows(items)[query as int],
        ) <==> exists|band: int| #[trigger]
            is_held(items, layout_rows(items)[query as int], band, key),
{
    let rows = layout_rows(items);
    let keys = membership::positions(items);
    let row = rows[query as int];
    let state = layout_start().with_batch(layout_batch(items));
    assert(layout_batch(items).take(items as int) =~= layout_batch(items));
    lemma_layout_items(items, items);
    membership::law_buckets_by_position_hold_the_items(keys, rows);
    let all = membership::buckets_by_position(keys, rows);
    assert(row.len() == LAYOUT_BANDS);
    if state.is_candidate(key, row) {
        let band = choose|band: int|
            0 <= band < state.params.bands && #[trigger] state.items[key][band] == row[band];
        let record = (band as u32, row[band], key);
        assert(rows[key as int][band] == row[band] && keys[key as int] == key);
        assert(membership::has_membership(keys, rows, record));
        assert(membership::bucket_of(record) == bucket_keys(row)[band]);
        assert(membership::holds(all, membership::bucket_of(record), record.2));
        assert(is_held(items, row, band, key));
    }
    if exists|band: int| #[trigger] is_held(items, row, band, key) {
        let band = choose|band: int| #[trigger] is_held(items, row, band, key);
        let record = (band as u32, row[band], key);
        assert(membership::bucket_of(record) == bucket_keys(row)[band]);
        assert(membership::holds(all, membership::bucket_of(record), record.2));
        assert(membership::has_membership(keys, rows, record));
        let i = choose|i: int|
            0 <= i < rows.len() && record.0 < (#[trigger] rows[i]).len()
                && rows[i][record.0 as int] == record.1 && keys[i] == record.2;
        assert(key == i);
        assert(state.items[key][band] == row[band]);
    }
}

/// The position of the smallest element that at least `percent` in a hundred
/// elements do not exceed, in an ordered sequence of `len` elements.
pub open spec fn layout_rank(len: nat, percent: nat) -> int {
    let scaled: int = if len * percent > usize::MAX - 99 {
        usize::MAX as int
    } else {
        (len * percent + 99) as int
    };
    let rank = scaled / 100;
    if rank < 1 {
        0
    } else if rank - 1 < len - 1 {
        rank - 1
    } else {
        len - 1
    }
}

/// The element at the nearest rank of a percentile, or zero where there is none.
pub fn layout_percentile(ordered: &Vec<u64>, percent: usize) -> (value: u64)
    ensures
        value == (if ordered@.len() == 0 {
            0
        } else {
            ordered@[layout_rank(ordered@.len(), percent as nat)]
        }),
{
    let size: usize = ordered.len();
    if size == 0 {
        return 0;
    }
    let scaled: usize = match size.checked_mul(percent) {
        Some(product) => match product.checked_add(99) {
            Some(scaled) => scaled,
            None => usize::MAX,
        },
        None => usize::MAX,
    };
    let rank: usize = scaled / 100;
    let index: usize = if rank < 1 {
        0
    } else if rank - 1 < size - 1 {
        rank - 1
    } else {
        size - 1
    };
    ordered[index]
}

/// The latencies at the nearest ranks of the percentiles 50, 95 and 99.
pub open spec fn are_layout_percentiles(latencies: Seq<u64>, found: (u64, u64, u64)) -> bool {
    if latencies.len() == 0 {
        found == (0u64, 0u64, 0u64)
    } else {
        exists|ordered: Seq<u64>|
            order::sorted(ordered) && #[trigger] ordered.to_multiset() == latencies.to_multiset()
                && found == (
                ordered[layout_rank(ordered.len(), 50)],
                ordered[layout_rank(ordered.len(), 95)],
                ordered[layout_rank(ordered.len(), 99)],
            )
    }
}

/// The latencies at the nearest ranks of the percentiles 50, 95 and 99.
pub fn layout_percentiles(latencies: Vec<u64>) -> (found: (u64, u64, u64))
    ensures
        are_layout_percentiles(latencies@, found),
{
    let mut ordered = latencies;
    order::sort(&mut ordered);
    proof {
        ordered@.to_multiset_ensures();
        latencies@.to_multiset_ensures();
    }
    (
        layout_percentile(&ordered, 50),
        layout_percentile(&ordered, 95),
        layout_percentile(&ordered, 99),
    )
}

/// The three percentiles are the latencies at their nearest ranks: the share of the
/// latencies that are below each is less than the named one, and the share of those that
/// are not above it is not.
pub proof fn law_layout_latencies_at_their_ranks(latencies: Seq<u64>, found: (u64, u64, u64))
    requires
        are_layout_percentiles(latencies, found),
        0 < latencies.len() <= (usize::MAX - 99) / 99,
    ensures
        ({
            let values = latencies.to_multiset();
            let all = latencies.len();
            &&& 100 * metrics::below(values, found.0) < 50 * all <= 100 * metrics::at_most(
                values,
                found.0,
            )
            &&& 100 * metrics::below(values, found.1) < 95 * all <= 100 * metrics::at_most(
                values,
                found.1,
            )
            &&& 100 * metrics::below(values, found.2) < 99 * all <= 100 * metrics::at_most(
                values,
                found.2,
            )
        }),
{
    let ordered = choose|ordered: Seq<u64>|
        order::sorted(ordered) && #[trigger] ordered.to_multiset() == latencies.to_multiset()
            && found == (
            ordered[layout_rank(ordered.len(), 50)],
            ordered[layout_rank(ordered.len(), 95)],
            ordered[layout_rank(ordered.len(), 99)],
        );
    order::lemma_same_multiset_same_set(ordered, latencies);
    broadcast use vstd::seq_lib::group_to_multiset_ensures;

    metrics::lemma_position(ordered, layout_rank(ordered.len(), 50));
    metrics::lemma_parts(ordered.to_multiset(), ordered[layout_rank(ordered.len(), 50)]);
    metrics::lemma_position(ordered, layout_rank(ordered.len(), 95));
    metrics::lemma_parts(ordered.to_multiset(), ordered[layout_rank(ordered.len(), 95)]);
    metrics::lemma_position(ordered, layout_rank(ordered.len(), 99));
    metrics::lemma_parts(ordered.to_multiset(), ordered[layout_rank(ordered.len(), 99)]);
}

} // verus!
