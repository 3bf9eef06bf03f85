//! What language bindings need of the engine.

use vstd::prelude::*;

use crate::index::lsh::{LshIndex32, LshState};
use crate::index::params::LshError;
use crate::sketch;
use crate::sketch::hash;
use crate::sketch::minhash32::{MinHash32, Sketch32};
use crate::sketch::MinHashError;

verus! {

/// The classes of errors that a binding tells apart.
#[derive(Debug, Clone, Copy, PartialEq, Eq, Structural)]
pub enum BindingErrorKind {
    /// The handle is closed.
    Closed,
    /// A parameter is out of range.
    Configuration,
    /// A sketch does not belong to the index.
    Compatibility,
    /// A key is taken.
    DuplicateKey,
    /// Anything else.
    Storage,
}

/// What a persistent store can fail with.
#[derive(Debug, Clone, Copy, PartialEq, Eq, Structural)]
pub enum StoreFault {
    /// The seed of a sketch differs.
    IncompatibleSeed,
    /// The length of a sketch differs.
    IncompatiblePermutationCount,
    /// A key is taken.
    DuplicateKey,
    /// The index rejected its configuration or input.
    Index(LshError),
    /// The file could not be read or written.
    File,
}

/// Why an operation of a binding failed.
#[derive(Debug, Clone, Copy, PartialEq, Eq, Structural)]
pub enum BindingError {
    /// The index is running a callback.
    Busy,
    /// The handle is closed.
    Closed,
    /// A panic left the index in an unknown state.
    Poisoned,
    /// The index failed.
    Index(LshError),
    /// A sketch failed.
    MinHash(MinHashError),
    /// The store failed.
    Store(StoreFault),
}

/// An error of the index is about its parameters.
pub open spec fn is_configuration(error: LshError) -> bool {
    error is InvalidThreshold || error is InvalidPermutationCount || error is AutomaticTuningTooLarge
        || error is InvalidParams
}

fn configures(error: LshError) -> (result: bool)
    ensures
        result == is_configuration(error),
{
    match error {
        LshError::InvalidThreshold { .. } => true,
        LshError::InvalidPermutationCount { .. } => true,
        LshError::AutomaticTuningTooLarge { .. } => true,
        LshError::InvalidParams { .. } => true,
        _ => false,
    }
}

impl BindingError {
    /// The class of the error.
    pub open spec fn spec_kind(self) -> BindingErrorKind {
        match self {
            BindingError::Closed => BindingErrorKind::Closed,
            BindingError::MinHash(error) => if error is InvalidPermutationCount {
                BindingErrorKind::Configuration
            } else {
                BindingErrorKind::Compatibility
            },
            BindingError::Index(error) => if error is IncompatibleSeed
                || error is IncompatiblePermutationCount {
                BindingErrorKind::Compatibility
            } else if error is DuplicateKey {
                BindingErrorKind::DuplicateKey
            } else if is_configuration(error) {
                BindingErrorKind::Configuration
            } else {
                BindingErrorKind::Storage
            },
            BindingError::Store(fault) => match fault {
                StoreFault::IncompatibleSeed => BindingErrorKind::Compatibility,
                StoreFault::IncompatiblePermutationCount => BindingErrorKind::Compatibility,
                StoreFault::DuplicateKey => BindingErrorKind::DuplicateKey,
                StoreFault::Index(error) => if is_configuration(error) {
                    BindingErrorKind::Configuration
                } else {
                    BindingErrorKind::Storage
                },
                StoreFault::File => BindingErrorKind::Storage,
            },
            BindingError::Busy => BindingErrorKind::Storage,
            BindingError::Poisoned => BindingErrorKind::Storage,
        }
    }

    /// The class of the error.
    pub fn kind(self) -> (kind: BindingErrorKind)
        ensures
            kind == self.spec_kind(),
    {
        match self {
            BindingError::Closed => BindingErrorKind::Closed,
            BindingError::MinHash(error) => match error {
                MinHashError::InvalidPermutationCount { .. } => BindingErrorKind::Configuration,
                _ => BindingErrorKind::Compatibility,
            },
            BindingError::Index(error) => match error {
                LshError::IncompatibleSeed { .. } => BindingErrorKind::Compatibility,
                LshError::IncompatiblePermutationCount { .. } => BindingErrorKind::Compatibility,
                LshError::DuplicateKey { .. } => BindingErrorKind::DuplicateKey,
                _ => if configures(error) {
                    BindingErrorKind::Configuration
                } else {
                    BindingErrorKind::Storage
                },
            },
            BindingError::Store(fault) => match fault {
                StoreFault::IncompatibleSeed => BindingErrorKind::Compatibility,
                StoreFault::IncompatiblePermutationCount => BindingErrorKind::Compatibility,
                StoreFault::DuplicateKey => BindingErrorKind::DuplicateKey,
                StoreFault::Index(error) => if configures(error) {
                    BindingErrorKind::Configuration
                } else {
                    BindingErrorKind::Storage
                },
                StoreFault::File => BindingErrorKind::Storage,
            },
            BindingError::Busy => BindingErrorKind::Storage,
            BindingError::Poisoned => BindingErrorKind::Storage,
        }
    }
}

/// The byte strings of a row of features.
pub open spec fn row_bytes(row: Seq<Vec<u8>>) -> Seq<Seq<u8>> {
    Seq::new(row.len(), |i: int| row[i]@)
}

/// The sketches are those of the rows.
pub open spec fn are_row_sketches(
    sketches: Seq<MinHash32>,
    rows: Seq<Vec<Vec<u8>>>,
    num_perm: nat,
    seed: u64,
) -> bool {
    &&& sketches.len() == rows.len()
    &&& forall|i: int|
        0 <= i < rows.len() ==> (#[trigger] sketches[i]).wf() && sketches[i]@ == Sketch32::blank(
            num_perm,
            seed,
        ).add_all(row_bytes(rows[i]@))
}

fn sketch_row(row: &Vec<Vec<u8>>, num_perm: usize, seed: u64) -> (result: Result<
    MinHash32,
    MinHashError,
>)
    ensures
        match result {
            Ok(sketch) => sketch::valid_num_perm(num_perm as nat) && sketch.wf() && sketch@
                == Sketch32::blank(num_perm as nat, seed).add_all(row_bytes(row@)),
            Err(error) => !sketch::valid_num_perm(num_perm as nat) && error
                == MinHashError::InvalidPermutationCount { requested: num_perm },
        },
{
    let mut sketch = match MinHash32::new(num_perm, seed) {
        Ok(sketch) => sketch,
        Err(error) => {
            return Err(error);
        },
    };
    let ghost items = row_bytes(row@);
    let mut index: usize = 0;
    assert(items.take(0) =~= Seq::empty());
    while index < row.len()
        invariant
            index <= row@.len(),
            items == row_bytes(row@),
            sketch.wf(),
            sketch@ == Sketch32::blank(num_perm as nat, seed).add_all(items.take(index as int)),
        decreases row@.len() - index,
    {
        proof {
            let next = items.take(index + 1);
            assert(next.drop_last() =~= items.take(index as int));
            assert(next.last() == row@[index as int]@);
        }
        sketch.update(row[index].as_slice());
        index = index + 1;
    }
    assert(items.take(index as int) =~= items);
    Ok(sketch)
}

/// Sketch every row of features.
pub fn build_sketches(rows: &Vec<Vec<Vec<u8>>>, num_perm: usize, seed: u64) -> (result: Result<
    Vec<MinHash32>,
    BindingError,
>)
    ensures
        match result {
            Ok(sketches) => (rows@.len() == 0 || sketch::valid_num_perm(num_perm as nat))
                && are_row_sketches(sketches@, rows@, num_perm as nat, seed),
            Err(error) => rows@.len() > 0 && !sketch::valid_num_perm(num_perm as nat) && error
                == BindingError::MinHash(
                MinHashError::InvalidPermutationCount { requested: num_perm },
            ),
        },
{
    let mut sketches: Vec<MinHash32> = Vec::new();
    let mut index: usize = 0;
    while index < rows.len()
        invariant
            index <= rows@.len(),
            sketches@.len() == index,
            index == 0 || sketch::valid_num_perm(num_perm as nat),
            forall|i: int|
                0 <= i < index ==> (#[trigger] sketches@[i]).wf() && sketches@[i]@
                    == Sketch32::blank(num_perm as nat, seed).add_all(row_bytes(rows@[i]@)),
        decreases rows@.len() - index,
    {
        match sketch_row(&rows[index], num_perm, seed) {
            Ok(sketch) => {
                sketches.push(sketch);
            },
            Err(error) => {
                return Err(BindingError::MinHash(error));
            },
        }
        index = index + 1;
    }
    Ok(sketches)
}

/// The state without keys.
pub open spec fn without_keys(state: LshState, keys: Seq<u64>) -> LshState {
    LshState { items: state.items.remove_keys(keys.to_set()), ..state }
}

/// Take keys out of an index again that a store has rejected.
pub fn roll_back(index: &mut LshIndex32, keys: &[u64])
    requires
        old(index).wf(),
    ensures
        final(index).wf(),
        final(index).observed() == old(index).observed(),
        final(index)@ == without_keys(old(index)@, keys@),
{
    let ghost start = index@;
    let mut at: usize = 0;
    proof {
        assert(keys@.take(0).to_set() =~= Set::empty());
        assert(without_keys(start, keys@.take(0)).items =~= start.items);
    }
    while at < keys.len()
        invariant
            at <= keys@.len(),
            index.wf(),
            index.observed() == old(index).observed(),
            index@ == without_keys(start, keys@.take(at as int)),
        decreases keys@.len() - at,
    {
        proof {
            let done = keys@.take(at as int);
            let next = keys@.take(at + 1);
            let key = keys@[at as int];
            assert(next =~= done.push(key));
            assert forall|k: u64| next.to_set().contains(k) <==> done.to_set().insert(
                key,
            ).contains(k) by {
                if next.contains(k) {
                    let j = choose|j: int| 0 <= j < next.len() && next[j] == k;
                    if j < at {
                        assert(done[j] == k);
                    }
                }
                if done.contains(k) {
                    let j = choose|j: int| 0 <= j < done.len() && done[j] == k;
                    assert(next[j] == k);
                }
                assert(next[at as int] == key);
            }
            assert(next.to_set() =~= done.to_set().insert(key));
            assert(without_keys(start, done).items.remove(key) =~= without_keys(
                start,
                next,
            ).items);
        }
        let _ = index.remove(keys[at]);
        at = at + 1;
    }
    assert(keys@.take(at as int) =~= keys@);
}

/// The keys of a batch.
pub open spec fn batch_keys(batch: Seq<(u64, Sketch32)>) -> Seq<u64> {
    Seq::new(batch.len(), |i: int| batch[i].0)
}

/// Rolling a batch back that was inserted leaves the items as they were; only
/// the identifiers it used stay used.
pub proof fn law_roll_back_undoes_the_batch(state: LshState, batch: Seq<(u64, Sketch32)>)
    requires
        state.batch_error(batch) is None,
    ensures
        without_keys(state.with_batch(batch), batch_keys(batch)) == (LshState {
            slots: state.slots + batch.len(),
            ..state
        }),
{
    let keys = batch_keys(batch);
    let after = without_keys(state.with_batch(batch), keys);
    state.lemma_with_batch_frame(batch);
    state.lemma_no_error_no_duplicate(batch, batch.len());
    assert forall|key: u64|
        #![trigger after.items[key]]
        #![trigger after.items.dom().contains(key)]
        after.items.dom().contains(key) == state.items.dom().contains(key) && (
        state.items.dom().contains(key) ==> after.items[key] == state.items[key]) by {
        lemma_batch_items(state, batch, key);
        if exists|j: int| 0 <= j < batch.len() && (#[trigger] batch[j]).0 == key {
            let j = choose|j: int| 0 <= j < batch.len() && (#[trigger] batch[j]).0 == key;
            assert(keys[j] == key);
            assert(keys.to_set().contains(key));
        } else if keys.contains(key) {
            let j = choose|j: int| 0 <= j < keys.len() && keys[j] == key;
            assert(batch[j].0 == key);
        }
    }
    assert(after.items.dom() =~= state.items.dom());
    assert(after.items =~= state.items);
}

proof fn lemma_batch_items(state: LshState, batch: Seq<(u64, Sketch32)>, key: u64)
    ensures
        (forall|j: int| 0 <= j < batch.len() ==> (#[trigger] batch[j]).0 != key) ==> (
        state.with_batch(batch).items.contains_key(key) == state.items.contains_key(key)
            && state.with_batch(batch).items[key] == state.items[key]),
    decreases batch.len(),
{
    if batch.len() > 0 && (forall|j: int|
        0 <= j < batch.len() ==> (#[trigger] batch[j]).0 != key) {
        let front = batch.drop_last();
        assert forall|j: int| 0 <= j < front.len() implies (#[trigger] front[j]).0 != key by {
            assert(batch[j].0 != key);
        }
        lemma_batch_items(state, front, key);
        assert(batch[batch.len() - 1].0 != key);
    }
}

/// The keys of a batch are those of its items, in their order.
pub proof fn law_every_item_has_its_key(batch: Seq<(u64, Sketch32)>)
    ensures
        batch_keys(batch).len() == batch.len(),
        forall|i: int| 0 <= i < batch.len() ==> #[trigger] batch_keys(batch)[i] == batch[i].0,
{
}


/// The sketch of a row holds every value of the row: at each position it is the smallest
/// of the values that the permutation gives to their hashes. There is one sketch for each
/// row.
pub proof fn law_row_sketches_hold_every_value(
    sketches: Seq<MinHash32>,
    rows: Seq<Vec<Vec<u8>>>,
    num_perm: nat,
    seed: u64,
    row: int,
    index: int,
)
    requires
        are_row_sketches(sketches, rows, num_perm, seed),
        0 <= row < rows.len(),
        0 <= index < num_perm,
    ensures
        sketches.len() == rows.len(),
        sketches[row]@.seed == seed,
        sketches[row]@.values.len() == num_perm,
        forall|k: int|
            0 <= k < rows[row]@.len() ==> sketches[row]@.values[index] <= Sketch32::permuted(
                seed,
                num_perm,
                index,
                hash::digest_hash32(hash::sha1_digest((#[trigger] rows[row]@[k])@)),
            ),
        rows[row]@.len() == 0 ==> sketches[row]@.values[index] == u32::MAX,
        rows[row]@.len() > 0 ==> exists|k: int|
            0 <= k < rows[row]@.len() && sketches[row]@.values[index] == Sketch32::permuted(
                seed,
                num_perm,
                index,
                hash::digest_hash32(hash::sha1_digest((#[trigger] rows[row]@[k])@)),
            ),
{
    let items = row_bytes(rows[row]@);
    assert(sketches[row]@ == Sketch32::blank(num_perm, seed).add_all(items));
    Sketch32::law_sketch_holds_every_item(num_perm, seed, items, index);
    assert forall|k: int| 0 <= k < rows[row]@.len() implies sketches[row]@.values[index]
        <= Sketch32::permuted(
        seed,
        num_perm,
        index,
        hash::digest_hash32(hash::sha1_digest((#[trigger] rows[row]@[k])@)),
    ) by {
        assert(items[k] == rows[row]@[k]@);
    }
    if items.len() > 0 {
        let k = choose|k: int|
            0 <= k < items.len() && sketches[row]@.values[index] == Sketch32::permuted(
                seed,
                num_perm,
                index,
                hash::digest_hash32(hash::sha1_digest(#[trigger] items[k])),
            );
        assert(items[k] == rows[row]@[k]@);
    }
}

} // verus!
