//! Deterministic workloads.

use vstd::prelude::*;

use crate::bench::dataset;
use crate::index::lsh;
use crate::index::metrics;
use crate::le;
use crate::order;
use crate::sketch;
use crate::sketch::hash;
use crate::sketch::minhash32::{MinHash32, Sketch32};
use crate::sketch::mix;
use crate::sketch::MinHashError;

verus! {

/// The distance between the first features of two consecutive synthetic items.
pub open spec fn stride(set_size: usize) -> u64 {
    if set_size == usize::MAX {
        set_size as u64
    } else {
        (set_size + 1) as u64
    }
}

/// The features of a synthetic item before they are put in order.
pub open spec fn synthetic_features(item: u64, set_size: usize, seed: u64) -> Seq<u64> {
    let base = metrics::saturated(item as nat * stride(set_size) as nat);
    Seq::new(
        set_size as nat,
        |offset: int| mix::spec_mix64(base.wrapping_add(offset as u64).wrapping_add(seed)),
    )
}

/// The rows are the synthetic items.
pub open spec fn is_synthetic_corpus(
    corpus: Seq<Vec<u64>>,
    items: usize,
    set_size: usize,
    seed: u64,
) -> bool {
    &&& corpus.len() == items
    &&& forall|item: int|
        0 <= item < items ==> dataset::is_row(
            (#[trigger] corpus[item])@,
            synthetic_features(item as u64, set_size, seed),
        )
}

fn synthetic_item(item: u64, set_size: usize, seed: u64) -> (row: Vec<u64>)
    ensures
        dataset::is_row(row@, synthetic_features(item, set_size, seed)),
{
    let stride: u64 = set_size.saturating_add(1) as u64;
    let base: u64 = match item.checked_mul(stride) {
        Some(base) => base,
        None => u64::MAX,
    };
    proof {
        assert(base == metrics::saturated(item as nat * stride as nat)) by {
            assert(item as nat * stride as nat == item * stride) by (nonlinear_arith);
        }
    }
    let mut features: Vec<u64> = Vec::new();
    let mut offset: usize = 0;
    while offset < set_size
        invariant
            offset <= set_size,
            features@.len() == offset,
            forall|i: int|
                0 <= i < offset ==> (#[trigger] features@[i]) == mix::spec_mix64(
                    base.wrapping_add(i as u64).wrapping_add(seed),
                ),
        decreases set_size - offset,
    {
        features.push(mix::mix64(base.wrapping_add(offset as u64).wrapping_add(seed)));
        offset = offset + 1;
    }
    assert(features@ =~= synthetic_features(item, set_size, seed));
    order::sorted_unique(features)
}

/// Synthetic items whose features are spread by a bit mixer.
pub fn synthetic_corpus(items: usize, set_size: usize, seed: u64) -> (corpus: Vec<Vec<u64>>)
    ensures
        is_synthetic_corpus(corpus@, items, set_size, seed),
{
    let mut corpus: Vec<Vec<u64>> = Vec::new();
    let mut item: usize = 0;
    while item < items
        invariant
            item <= items,
            is_synthetic_corpus(corpus@, item, set_size, seed),
        decreases items - item,
    {
        corpus.push(synthetic_item(item as u64, set_size, seed));
        item = item + 1;
    }
    corpus
}

/// The features of a query before they are put in order: the first ones of a
/// corpus item, and fresh ones in place of the others.
pub open spec fn query_features(source: Seq<u64>, query: u64, overlap: usize, seed: u64) -> Seq<
    u64,
> {
    let retained = if overlap < source.len() {
        overlap as nat
    } else {
        source.len()
    };
    source.take(retained as int) + Seq::new(
        (source.len() - retained) as nat,
        |replacement: int|
            mix::spec_mix64(
                0xF000_0000_0000_0000u64 ^ seed ^ query.wrapping_mul(0x9E37_79B9)
                    ^ replacement as u64,
            ),
    )
}

/// The rows are queries for the corpus, which is gone through in turn.
pub open spec fn are_queries(
    queries: Seq<Vec<u64>>,
    corpus: Seq<Vec<u64>>,
    count: usize,
    overlap: usize,
    seed: u64,
) -> bool {
    &&& queries.len() == count
    &&& forall|query: int|
        0 <= query < count ==> dataset::is_row(
            (#[trigger] queries[query])@,
            query_features(
                corpus[query % corpus.len() as int]@,
                query as u64,
                overlap,
                seed,
            ),
        )
}

fn query_row(source: &Vec<u64>, query: u64, overlap: usize, seed: u64) -> (row: Vec<u64>)
    ensures
        dataset::is_row(row@, query_features(source@, query, overlap, seed)),
{
    let retained: usize = if overlap < source.len() {
        overlap
    } else {
        source.len()
    };
    let mut features: Vec<u64> = Vec::new();
    let mut index: usize = 0;
    while index < retained
        invariant
            index <= retained <= source@.len(),
            features@ == source@.take(index as int),
        decreases retained - index,
    {
        features.push(source[index]);
        index = index + 1;
        assert(features@ =~= source@.take(index as int));
    }
    let fresh: usize = source.len() - retained;
    let mut replacement: usize = 0;
    while replacement < fresh
        invariant
            replacement <= fresh,
            retained <= source@.len(),
            features@.len() == retained + replacement,
            features@.take(retained as int) == source@.take(retained as int),
            forall|i: int|
                retained <= i < retained + replacement ==> (#[trigger] features@[i])
                    == mix::spec_mix64(
                    0xF000_0000_0000_0000u64 ^ seed ^ query.wrapping_mul(0x9E37_79B9) ^ (i
                        - retained) as u64,
                ),
        decreases fresh - replacement,
    {
        let ghost before = features@;
        features.push(
            mix::mix64(
                0xF000_0000_0000_0000u64 ^ seed ^ query.wrapping_mul(0x9E37_79B9)
                    ^ replacement as u64,
            ),
        );
        assert(features@.take(retained as int) =~= before.take(retained as int));
        replacement = replacement + 1;
    }
    proof {
        let goal = query_features(source@, query, overlap, seed);
        assert forall|i: int| 0 <= i < goal.len() implies features@[i] == goal[i] by {
            if i < retained {
                assert(features@.take(retained as int)[i] == features@[i]);
            }
        }
        assert(features@ =~= goal);
    }
    order::sorted_unique(features)
}

/// Queries that keep up to `overlap` features of a corpus item and replace the
/// others.
pub fn build_queries(
    corpus: &Vec<Vec<u64>>,
    query_count: usize,
    overlap: usize,
    seed: u64,
) -> (queries: Vec<Vec<u64>>)
    requires
        corpus@.len() > 0,
    ensures
        are_queries(queries@, corpus@, query_count, overlap, seed),
{
    let mut queries: Vec<Vec<u64>> = Vec::new();
    let mut query: usize = 0;
    while query < query_count
        invariant
            query <= query_count,
            corpus@.len() > 0,
            are_queries(queries@, corpus@, query, overlap, seed),
        decreases query_count - query,
    {
        let row = query_row(&corpus[query % corpus.len()], query as u64, overlap, seed);
        queries.push(row);
        query = query + 1;
    }
    queries
}

/// The byte strings that stand for features.
pub open spec fn feature_bytes(features: Seq<u64>) -> Seq<Seq<u8>> {
    Seq::new(features.len(), |i: int| le::bytes(features[i] as nat, 8))
}

/// The sketch of a set of features.
pub open spec fn feature_sketch(features: Seq<u64>, num_perm: nat, seed: u64) -> Sketch32 {
    Sketch32::blank(num_perm, seed).add_all(feature_bytes(features))
}

/// Sketch a set of features.
pub fn build_signature(features: &[u64], num_perm: usize, seed: u64) -> (result: Result<
    MinHash32,
    MinHashError,
>)
    ensures
        match result {
            Ok(sketch) => sketch::valid_num_perm(num_perm as nat) && sketch.wf() && sketch@
                == feature_sketch(features@, num_perm as nat, seed),
            Err(error) => !sketch::valid_num_perm(num_perm as nat) && error
                == MinHashError::InvalidPermutationCount { requested: num_perm },
        },
{
    let mut sketch = match MinHash32::new(num_perm, seed) {
        Ok(sketch) => sketch,
        Err(error) => {
            return Err(error);
        },
    };
    let ghost items = feature_bytes(features@);
    let mut index: usize = 0;
    assert(items.take(0) =~= Seq::empty());
    while index < features.len()
        invariant
            index <= features@.len(),
            items == feature_bytes(features@),
            sketch.wf(),
            sketch@ == Sketch32::blank(num_perm as nat, seed).add_all(items.take(index as int)),
        decreases features@.len() - index,
    {
        let mut bytes: Vec<u8> = Vec::new();
        le::push_u64(&mut bytes, features[index]);
        proof {
            let next = items.take(index + 1);
            assert(bytes@ =~= items[index as int]);
            assert(next.drop_last() =~= items.take(index as int));
            assert(next.last() == bytes@);
        }
        sketch.update(bytes.as_slice());
        index = index + 1;
    }
    assert(items.take(index as int) =~= items);
    Ok(sketch)
}

/// The sketches are those of the rows.
pub open spec fn are_signatures(
    sketches: Seq<MinHash32>,
    rows: Seq<Vec<u64>>,
    num_perm: nat,
    seed: u64,
) -> bool {
    &&& sketches.len() == rows.len()
    &&& forall|i: int|
        0 <= i < rows.len() ==> (#[trigger] sketches[i]).wf() && sketches[i]@ == feature_sketch(
            rows[i]@,
            num_perm,
            seed,
        )
}

/// Sketch every row.
pub fn build_signatures(rows: &Vec<Vec<u64>>, num_perm: usize, seed: u64) -> (result: Result<
    Vec<MinHash32>,
    MinHashError,
>)
    ensures
        match result {
            Ok(sketches) => (rows@.len() == 0 || sketch::valid_num_perm(num_perm as nat))
                && are_signatures(sketches@, rows@, num_perm as nat, seed),
            Err(error) => rows@.len() > 0 && !sketch::valid_num_perm(num_perm as nat) && error
                == MinHashError::InvalidPermutationCount { requested: num_perm },
        },
{
    let mut sketches: Vec<MinHash32> = Vec::new();
    let mut index: usize = 0;
    while index < rows.len()
        invariant
            index <= rows@.len(),
            sketches@.len() == index,
            index == 0 || sketch::valid_num_perm(num_perm as nat),
            forall|i: int|
                0 <= i < index ==> (#[trigger] sketches@[i]).wf() && sketches@[i]@
                    == feature_sketch(rows@[i]@, num_perm as nat, seed),
        decreases rows@.len() - index,
    {
        match build_signature(rows[index].as_slice(), num_perm, seed) {
            Ok(sketch) => {
                sketches.push(sketch);
            },
            Err(error) => {
                return Err(error);
            },
        }
        index = index + 1;
    }
    Ok(sketches)
}

/// Consecutive features of an item: `count` of them from `item * spacing` on.
pub open spec fn run_features(item: u64, spacing: u64, count: nat) -> Seq<u64> {
    Seq::new(count, |offset: int| item.wrapping_mul(spacing).wrapping_add(offset as u64))
}

/// Sketch consecutive features of an item.
pub fn build_run_signature(
    item: u64,
    spacing: u64,
    count: usize,
    num_perm: usize,
    seed: u64,
) -> (result: Result<MinHash32, MinHashError>)
    ensures
        match result {
            Ok(sketch) => sketch::valid_num_perm(num_perm as nat) && sketch.wf() && sketch@
                == feature_sketch(
                run_features(item, spacing, count as nat),
                num_perm as nat,
                seed,
            ),
            Err(error) => !sketch::valid_num_perm(num_perm as nat) && error
                == MinHashError::InvalidPermutationCount { requested: num_perm },
        },
{
    let base: u64 = item.wrapping_mul(spacing);
    let mut features: Vec<u64> = Vec::new();
    let mut offset: usize = 0;
    while offset < count
        invariant
            offset <= count,
            base == item.wrapping_mul(spacing),
            features@ == run_features(item, spacing, offset as nat),
        decreases count - offset,
    {
        features.push(base.wrapping_add(offset as u64));
        offset = offset + 1;
        assert(features@ =~= run_features(item, spacing, offset as nat));
    }
    build_signature(features.as_slice(), num_perm, seed)
}

/// The values of a signature that is drawn for a key.
pub open spec fn drawn_values(key: u64, num_perm: nat) -> Seq<u32> {
    Seq::new(
        num_perm,
        |permutation: int|
            (mix::spec_mix64(
                key ^ (permutation as u64).wrapping_mul(0xD6E8_FEB8_6659_FD93),
            ) % 0x1_0000_0000) as u32,
    )
}

/// A signature that is drawn for a key instead of being computed from features.
pub fn draw_signature(key: u64, num_perm: usize, seed: u64) -> (result: Result<
    MinHash32,
    MinHashError,
>)
    ensures
        match result {
            Ok(sketch) => sketch::valid_num_perm(num_perm as nat) && sketch.wf() && sketch@
                == Sketch32::loaded(drawn_values(key, num_perm as nat), seed),
            Err(error) => !sketch::valid_num_perm(num_perm as nat) && error
                == MinHashError::InvalidPermutationCount { requested: num_perm },
        },
{
    let mut values: Vec<u32> = Vec::new();
    let mut permutation: usize = 0;
    while permutation < num_perm
        invariant
            permutation <= num_perm,
            values@ == drawn_values(key, permutation as nat),
        decreases num_perm - permutation,
    {
        let mixed: u64 = mix::mix64(
            key ^ (permutation as u64).wrapping_mul(0xD6E8_FEB8_6659_FD93),
        );
        values.push((mixed % 0x1_0000_0000) as u32);
        permutation = permutation + 1;
        assert(values@ =~= drawn_values(key, permutation as nat));
    }
    MinHash32::from_signature(values, seed)
}

/// Sketches under consecutive keys from zero on.
pub open spec fn numbered(sketches: Seq<MinHash32>) -> Seq<(u64, Sketch32)> {
    Seq::new(sketches.len(), |i: int| (i as u64, sketches[i]@))
}

/// The first `count` sketches.
pub fn borrow(sketches: &Vec<MinHash32>, count: usize) -> (borrowed: Vec<&MinHash32>)
    requires
        count <= sketches@.len(),
    ensures
        borrowed@.len() == count,
        forall|i: int| 0 <= i < count ==> *(#[trigger] borrowed@[i]) == sketches@[i],
{
    let mut borrowed: Vec<&MinHash32> = Vec::new();
    let mut index: usize = 0;
    while index < count
        invariant
            index <= count <= sketches@.len(),
            borrowed@.len() == index,
            forall|i: int| 0 <= i < index ==> *(#[trigger] borrowed@[i]) == sketches@[i],
        decreases count - index,
    {
        borrowed.push(&sketches[index]);
        index = index + 1;
    }
    borrowed
}

/// The first `count` sketches under consecutive keys from zero on.
pub fn number(sketches: &Vec<MinHash32>, count: usize) -> (items: Vec<(u64, &MinHash32)>)
    requires
        count <= sketches@.len(),
    ensures
        items@.len() == count,
        lsh::batch_of(items@) == numbered(sketches@.take(count as int)),
{
    let mut items: Vec<(u64, &MinHash32)> = Vec::new();
    let mut index: usize = 0;
    while index < count
        invariant
            index <= count <= sketches@.len(),
            items@.len() == index,
            forall|i: int|
                0 <= i < index ==> (#[trigger] items@[i]).0 == i as u64 && items@[i].1@
                    == sketches@[i]@,
        decreases count - index,
    {
        items.push((index as u64, &sketches[index]));
        index = index + 1;
    }
    assert(lsh::batch_of(items@) =~= numbered(sketches@.take(count as int)));
    items
}

/// The features of a synthetic item are as many as were asked for, all different.
pub proof fn law_synthetic_features_differ(
    item: u64,
    set_size: usize,
    seed: u64,
    left: int,
    right: int,
)
    requires
        0 <= left < right < set_size,
    ensures
        synthetic_features(item, set_size, seed).len() == set_size,
        synthetic_features(item, set_size, seed)[left] != synthetic_features(
            item,
            set_size,
            seed,
        )[right],
{
    let features = synthetic_features(item, set_size, seed);
    let base = metrics::saturated(item as nat * stride(set_size) as nat);
    let one = base.wrapping_add(left as u64).wrapping_add(seed);
    let other = base.wrapping_add(right as u64).wrapping_add(seed);
    if features[left] == features[right] {
        mix::law_mix64_is_injective(one, other);
    }
}

/// A query keeps the first `overlap` features of the item that it asks for, and has as many
/// features.
pub proof fn law_queries_keep_the_overlap(
    source: Seq<u64>,
    query: u64,
    overlap: usize,
    seed: u64,
    index: int,
)
    requires
        0 <= index < source.len(),
    ensures
        query_features(source, query, overlap, seed).len() == source.len(),
        index < overlap ==> query_features(source, query, overlap, seed)[index] == source[index],
{
}

/// The sketch of a row of features holds every one of them, as eight bytes.
pub proof fn law_feature_sketch_holds_every_feature(
    features: Seq<u64>,
    num_perm: nat,
    seed: u64,
    index: int,
)
    requires
        0 <= index < num_perm,
    ensures
        feature_sketch(features, num_perm, seed).seed == seed,
        feature_sketch(features, num_perm, seed).values.len() == num_perm,
        forall|k: int|
            0 <= k < features.len() ==> feature_sketch(features, num_perm, seed).values[index]
                <= Sketch32::permuted(
                seed,
                num_perm,
                index,
                hash::digest_hash32(
                    hash::sha1_digest(le::bytes((#[trigger] features[k]) as nat, 8)),
                ),
            ),
        features.len() > 0 ==> exists|k: int|
            0 <= k < features.len() && feature_sketch(features, num_perm, seed).values[index]
                == Sketch32::permuted(
                seed,
                num_perm,
                index,
                hash::digest_hash32(
                    hash::sha1_digest(le::bytes((#[trigger] features[k]) as nat, 8)),
                ),
            ),
{
    let items = feature_bytes(features);
    assert(items.len() == features.len());
    Sketch32::law_sketch_holds_every_item(num_perm, seed, items, index);
    let found = feature_sketch(features, num_perm, seed);
    assert forall|k: int| 0 <= k < features.len() implies found.values[index]
        <= Sketch32::permuted(
        seed,
        num_perm,
        index,
        hash::digest_hash32(hash::sha1_digest(le::bytes((#[trigger] features[k]) as nat, 8))),
    ) by {
        assert(items[k] == le::bytes(features[k] as nat, 8));
    }
    if features.len() > 0 {
        let k = choose|k: int|
            0 <= k < items.len() && found.values[index] == Sketch32::permuted(
                seed,
                num_perm,
                index,
                hash::digest_hash32(hash::sha1_digest(#[trigger] items[k])),
            );
        assert(items[k] == le::bytes(features[k] as nat, 8));
        assert(features[k] == features[k]);
    }
}

/// A drawn signature has the low half of one mixed word at each position.
pub proof fn law_drawn_values(key: u64, num_perm: nat, index: int)
    requires
        0 <= index < num_perm,
    ensures
        drawn_values(key, num_perm).len() == num_perm,
        drawn_values(key, num_perm)[index] as int == mix::spec_mix64(
            key ^ (index as u64).wrapping_mul(0xD6E8_FEB8_6659_FD93),
        ) as int % 0x1_0000_0000,
{
}

/// Sketches are numbered from zero, in order.
pub proof fn law_sketches_are_numbered(sketches: Seq<MinHash32>, index: int)
    requires
        0 <= index < sketches.len(),
    ensures
        numbered(sketches).len() == sketches.len(),
        numbered(sketches)[index] == (index as u64, sketches[index]@),
{
}

} // verus!
