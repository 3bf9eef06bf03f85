//! An exercise that any storage backend can be put through.

use vstd::prelude::*;
use vstd::string::*;

use crate::backend::capability::{BackendCapabilities, BackendCapability};
use crate::backend::conformance;
use crate::backend::conformance::{
    check_answers, check_capabilities, check_cleanup, check_contains, check_deleted, check_refusal,
    check_reopening, check_stats, Step, Violation, CONFORMANCE_NUM_PERM,
    CONFORMANCE_RETENTION_SECONDS, CONFORMANCE_SEED,
};
use crate::backend::contract::{BackendStats, StorageBackend};
use crate::backend::descriptor::{Descriptor, IndexDescriptor, Retention};
use crate::backend::error::{BackendError, BackendIndexError};
use crate::backend::index;
use crate::backend::index::BackendIndex32;
use crate::bench::phases;
use crate::index::lsh;
use crate::index::lsh::{LshIndex32, LshState};
use crate::index::metrics::QueryMetrics;
use crate::index::params;
use crate::index::params::LshParams;
use crate::sketch::minhash32::{MinHash32, Sketch32};
use crate::threshold::{Threshold, EIGHT_TENTHS_BITS};

verus! {

/// The result says that a required capability is missing if and only if one is,
/// and then names the first.
pub open spec fn tells_capabilities(
    set: BackendCapabilities,
    result: Result<(), Violation>,
) -> bool {
    match conformance::first_lacking(set, 0) {
        Some(capability) => result == Err::<(), Violation>(Violation::Capability(capability)),
        None => !(result matches Err(Violation::Capability(_))),
    }
}

/// Exercise the product-independent contract of one storage backend, and return
/// the first rule that it breaks.
///
/// The backend must refer to a fresh, isolated namespace. The exercise creates
/// data and deletes the namespace before it returns with success. The
/// parameters are those that the tuner selects among its candidates by their
/// error estimates.
pub fn exercise_backend_contract<B: StorageBackend>(
    backend: B,
    candidates: &[LshParams],
    errors: &[u64],
) -> (result: Result<(), Violation>)
    requires
        backend.wf(),
        candidates@.len() == errors@.len(),
        params::is_candidate_list(candidates@, CONFORMANCE_NUM_PERM as nat),
    ensures
        exists|set: BackendCapabilities| #[trigger]
            backend.offers(set) && tells_capabilities(set, result) && (
            conformance::first_lacking(set, 0) is None ==> is_put_through(
                backend,
                set,
                candidates@[LshParams::best(candidates@, errors@, candidates@.len())],
                result,
            )),
{
    let set = backend.capabilities();
    assert(backend.offers(set));
    match check_capabilities(set) {
        Ok(()) => {},
        Err(violation) => {
            return Err(violation);
        },
    }
    let result = exercise(backend, set, candidates, errors);
    assert(tells_capabilities(set, result));
    result
}

/// The result names no capability.
pub open spec fn is_about_behavior(result: Result<(), Violation>) -> bool {
    !(result matches Err(Violation::Capability(_)))
}

/// The bytes of each word.
pub open spec fn word_bytes(words: Seq<&str>) -> Seq<Seq<u8>> {
    words.map_values(|word: &str| word.spec_bytes())
}

/// The sketch of words.
pub open spec fn sample_sketch(words: Seq<&str>) -> Sketch32 {
    Sketch32::blank(CONFORMANCE_NUM_PERM as nat, CONFORMANCE_SEED).add_all(word_bytes(words))
}

/// Sketch words.
fn sample(words: &[&str]) -> (sketch: Option<MinHash32>)
    ensures
        sketch matches Some(built) && built.wf() && built@ == sample_sketch(words@),
{
    let mut sketch = match MinHash32::new(CONFORMANCE_NUM_PERM, CONFORMANCE_SEED) {
        Ok(sketch) => sketch,
        Err(_) => {
            return None;
        },
    };
    let ghost bytes = word_bytes(words@);
    let ghost start = sketch@;
    let mut index: usize = 0;
    assert(bytes.take(0) =~= Seq::empty());
    while index < words.len()
        invariant
            index <= words@.len(),
            bytes == word_bytes(words@),
            sketch.wf(),
            sketch@ == start.add_all(bytes.take(index as int)),
        decreases words@.len() - index,
    {
        sketch.update(words[index].as_bytes());
        proof {
            let longer = bytes.take(index + 1);
            assert(longer.drop_last() =~= bytes.take(index as int));
            assert(longer.last() == words@[index as int].spec_bytes());
        }
        index = index + 1;
    }
    assert(bytes.take(index as int) =~= bytes);
    Some(sketch)
}

/// The retention that a backend with these capabilities is initialized with.
pub open spec fn exercise_retention(set: BackendCapabilities) -> Option<Retention> {
    if set.has(BackendCapability::Ttl) {
        Some(Retention { seconds: CONFORMANCE_RETENTION_SECONDS, nanos: 0 })
    } else {
        None
    }
}

/// The descriptor that a backend with these capabilities is initialized with.
pub open spec fn exercise_descriptor(set: BackendCapabilities, params: LshParams) -> Descriptor {
    Descriptor {
        threshold: Threshold { bits: EIGHT_TENTHS_BITS },
        num_perm: CONFORMANCE_NUM_PERM,
        seed: CONFORMANCE_SEED,
        params,
        retention: exercise_retention(set),
    }
}

/// The in-memory index before the exercise.
pub open spec fn exercise_state(params: LshParams) -> LshState {
    LshState {
        threshold: Threshold { bits: EIGHT_TENTHS_BITS },
        num_perm: CONFORMANCE_NUM_PERM,
        seed: CONFORMANCE_SEED,
        params,
        items: Map::empty(),
        slots: 0,
    }
}

/// What happens while a backend is exercised.
pub struct ExerciseTrace<B> {
    /// The signature of the first two items.
    pub first: MinHash32,
    /// The signature of the third item.
    pub third: MinHash32,
    /// The index, created in the backend.
    pub created: Result<BackendIndex32<B>, BackendIndexError>,
    /// How it was filled.
    pub filling: FillingTrace<B>,
    /// The verdict on that.
    pub fill: Result<(), Violation>,
    /// The index after it.
    pub filled: BackendIndex32<B>,
    /// The state in memory after it.
    pub full: LshState,
    /// How it was read.
    pub reading: ReadingTrace<B>,
    /// The verdict on that.
    pub read: Result<(), Violation>,
    /// The index after it.
    pub reduced: BackendIndex32<B>,
    /// The state in memory after it.
    pub left: LshState,
    /// How it was operated.
    pub operating: OperationsTrace<B>,
    /// The verdict on that.
    pub operation: Result<(), Violation>,
    /// The index after it.
    pub operated: BackendIndex32<B>,
    /// How it was opened again.
    pub reopening: ReopeningTrace<B>,
    /// The index, opened again.
    pub reopened: Result<BackendIndex32<B>, Violation>,
    /// The verdict on its answer.
    pub answer: Result<(), Violation>,
    /// The index after it.
    pub answered: BackendIndex32<B>,
    /// How the namespace was deleted.
    pub cleanup: CleanupTrace<B>,
}

/// An index is created in the backend, filled, read and operated, opened again,
/// read once more and deleted, in this order, until a rule is broken.
pub open spec fn is_exercised<B: StorageBackend>(
    backend: B,
    set: BackendCapabilities,
    params: LshParams,
    trace: ExerciseTrace<B>,
    result: Result<(), Violation>,
) -> bool {
    &&& trace.first@ == sample_sketch(seq!["alpha", "beta", "gamma"])
    &&& trace.third@ == sample_sketch(seq!["unrelated", "record"])
    &&& index::is_creation(backend, exercise_descriptor(set, params), trace.created)
    &&& match trace.created {
        Err(_) => result == stopped(Step::Initialize),
        Ok(index) => {
            &&& is_filled(
                index,
                trace.filled,
                exercise_state(params),
                trace.full,
                trace.first@,
                trace.third@,
                trace.filling,
                trace.fill,
            )
            &&& if trace.fill is Err {
                result == trace.fill
            } else {
                &&& is_read(
                    trace.filled,
                    trace.reduced,
                    trace.full,
                    trace.left,
                    &trace.first,
                    &trace.third,
                    trace.reading,
                    trace.read,
                )
                &&& if trace.read is Err {
                    result == trace.read
                } else {
                    is_finished(set, params, trace, result)
                }
            }
        },
    }
}

/// The steps of the exercise after the index was read.
pub open spec fn is_finished<B: StorageBackend>(
    set: BackendCapabilities,
    params: LshParams,
    trace: ExerciseTrace<B>,
    result: Result<(), Violation>,
) -> bool {
    &&& is_operated(trace.reduced, trace.operated, set, trace.operating, trace.operation)
    &&& if trace.operation is Err {
        result == trace.operation
    } else {
        &&& is_reopened(
            trace.operated.store(),
            exercise_descriptor(set, params),
            trace.reopening,
            trace.reopened,
        )
        &&& match trace.reopened {
            Err(violation) => result == Err::<(), Violation>(violation),
            Ok(index) => {
                &&& is_comparison(
                    index,
                    trace.answered,
                    trace.left,
                    &trace.first,
                    Step::QueryAfterReopen,
                    trace.answer,
                )
                &&& if trace.answer is Err {
                    result == trace.answer
                } else {
                    is_cleaned_up(trace.answered.store(), trace.cleanup, result)
                }
            },
        }
    }
}

/// The backend was put through the exercise, in which the in-memory index never
/// fails.
#[verifier::opaque]
pub open spec fn is_put_through<B: StorageBackend>(
    backend: B,
    set: BackendCapabilities,
    params: LshParams,
    result: Result<(), Violation>,
) -> bool {
    &&& result != stopped(Step::Reference)
    &&& exists|trace: ExerciseTrace<B>| #[trigger]
        is_exercised(backend, set, params, trace, result)
}

/// The in-memory index takes all items of the exercise and answers all its
/// signatures.
proof fn lemma_reference(params: LshParams, first: Sketch32, third: Sketch32)
    requires
        first.seed == CONFORMANCE_SEED,
        first.values.len() == CONFORMANCE_NUM_PERM,
        third.seed == CONFORMANCE_SEED,
        third.values.len() == CONFORMANCE_NUM_PERM,
    ensures
        ({
            let start = exercise_state(params);
            let grown = start.with_batch(first_batch(first));
            let full = grown.with_batch(second_batch(first, third));
            &&& start.batch_error(first_batch(first)) is None
            &&& grown.batch_error(second_batch(first, third)) is None
            &&& full.items.contains_key(2)
            &&& full.sketch_error(first) is None
            &&& full.sketch_error(third) is None
        }),
{
    let start = exercise_state(params);
    let one = first_batch(first);
    let more = second_batch(first, third);
    reveal_with_fuel(LshState::first_item_error, 3);
    reveal_with_fuel(LshState::with_batch, 3);
    assert(one.drop_last() =~= Seq::empty());
    assert(one.last() == (1u64, first));
    assert(more.drop_last() =~= seq![(2u64, first)]);
    assert(more.drop_last().drop_last() =~= Seq::empty());
    let grown = start.with_batch(one);
    assert(grown.items =~= Map::empty().insert(1u64, start.hashes(first)));
    assert(start.item_error(one, 0) is None);
    assert(grown.item_error(more, 0) is None);
    assert(grown.item_error(more, 1) is None);
}

/// A comparison is not stopped by the in-memory index where that takes the
/// signature.
proof fn lemma_compared<B: StorageBackend>(
    before: BackendIndex32<B>,
    after: BackendIndex32<B>,
    state: LshState,
    sketch: &MinHash32,
    step: Step,
    result: Result<(), Violation>,
)
    requires
        is_comparison(before, after, state, sketch, step, result),
        state.sketch_error(sketch@) is None,
        step != Step::Reference,
    ensures
        result != stopped(Step::Reference),
{
    reveal(is_comparison);
}

/// Filling is not stopped by the in-memory index of the exercise.
proof fn lemma_filled<B: StorageBackend>(
    before: BackendIndex32<B>,
    after: BackendIndex32<B>,
    params: LshParams,
    end: LshState,
    first: Sketch32,
    third: Sketch32,
    trace: FillingTrace<B>,
    result: Result<(), Violation>,
)
    requires
        is_filled(before, after, exercise_state(params), end, first, third, trace, result),
        first.seed == CONFORMANCE_SEED,
        first.values.len() == CONFORMANCE_NUM_PERM,
        third.seed == CONFORMANCE_SEED,
        third.values.len() == CONFORMANCE_NUM_PERM,
    ensures
        result != stopped(Step::Reference),
        result is Ok ==> end.items.contains_key(2) && end.sketch_error(first) is None
            && end.sketch_error(third) is None,
{
    reveal(is_filled);
    lemma_reference(params, first, third);
}

/// Reading is not stopped by an in-memory index that takes both signatures and
/// holds the deleted key.
proof fn lemma_read<B: StorageBackend>(
    before: BackendIndex32<B>,
    after: BackendIndex32<B>,
    start: LshState,
    end: LshState,
    first: &MinHash32,
    third: &MinHash32,
    trace: ReadingTrace<B>,
    result: Result<(), Violation>,
)
    requires
        is_read(before, after, start, end, first, third, trace, result),
        start.items.contains_key(2),
        start.sketch_error(first@) is None,
        start.sketch_error(third@) is None,
    ensures
        result != stopped(Step::Reference),
        end.sketch_error(first@) is None,
{
    reveal(is_read);
    lemma_compared(
        trace.observed,
        trace.answered,
        start,
        first,
        Step::Query,
        trace.answer,
    );
    if is_comparison(trace.deleted, after, end, first, Step::QueryAfterDelete, result) {
        if end.sketch_error(first@) is None {
            lemma_compared(trace.deleted, after, end, first, Step::QueryAfterDelete, result);
        }
    }
}

/// A sketch of words has the length and the seed of the exercise.
proof fn lemma_sample(words: Seq<&str>)
    ensures
        sample_sketch(words).seed == CONFORMANCE_SEED,
        sample_sketch(words).values.len() == CONFORMANCE_NUM_PERM,
{
    Sketch32::blank(CONFORMANCE_NUM_PERM as nat, CONFORMANCE_SEED).lemma_add_all_shape(
        word_bytes(words),
    );
}

fn exercise<B: StorageBackend>(
    backend: B,
    set: BackendCapabilities,
    candidates: &[LshParams],
    errors: &[u64],
) -> (result: Result<(), Violation>)
    requires
        backend.wf(),
        candidates@.len() == errors@.len(),
        params::is_candidate_list(candidates@, CONFORMANCE_NUM_PERM as nat),
    ensures
        is_about_behavior(result),
        is_put_through(
            backend,
            set,
            candidates@[LshParams::best(candidates@, errors@, candidates@.len())],
            result,
        ),
{
    proof {
        reveal(is_put_through);
    }
    let ghost start = backend;
    let ghost chosen = candidates@[LshParams::best(candidates@, errors@, candidates@.len())];
    let ghost mut trace: ExerciseTrace<B> = arbitrary();
    let threshold = Threshold::from_bits(EIGHT_TENTHS_BITS);
    let retention = if set.supports(BackendCapability::Ttl) {
        Some(Retention::from_secs(CONFORMANCE_RETENTION_SECONDS))
    } else {
        None
    };
    let alike: [&str; 3] = ["alpha", "beta", "gamma"];
    let apart: [&str; 2] = ["unrelated", "record"];
    assert(alike@ =~= seq!["alpha", "beta", "gamma"]);
    assert(apart@ =~= seq!["unrelated", "record"]);
    let (first, third) = match (sample(alike.as_slice()), sample(apart.as_slice())) {
        (Some(first), Some(third)) => (first, third),
        _ => {
            return Err(Violation::Failed(Step::Reference));
        },
    };
    proof {
        lemma_sample(alike@);
        lemma_sample(apart@);
        trace = ExerciseTrace { first, third, ..trace };
    }
    let mut reference = match LshIndex32::new(
        threshold,
        CONFORMANCE_NUM_PERM,
        CONFORMANCE_SEED,
        candidates,
        errors,
    ) {
        Ok(reference) => reference,
        Err(_) => {
            return Err(Violation::Failed(Step::Reference));
        },
    };
    proof {
        reference.lemma_wf();
    }
    let expected = match IndexDescriptor::new(
        threshold,
        CONFORMANCE_NUM_PERM,
        CONFORMANCE_SEED,
        reference.params(),
        retention,
    ) {
        Ok(expected) => expected,
        Err(_) => {
            return Err(Violation::Failed(Step::Reference));
        },
    };
    let created = BackendIndex32::create(
        backend,
        threshold,
        CONFORMANCE_NUM_PERM,
        CONFORMANCE_SEED,
        retention,
        candidates,
        errors,
    );
    proof {
        trace = ExerciseTrace { created, ..trace };
    }
    let mut index = match created {
        Ok(index) => index,
        Err(_) => {
            assert(is_exercised(start, set, chosen, trace, stopped(Step::Initialize)));
            return Err(Violation::Failed(Step::Initialize));
        },
    };
    let ghost fresh = index;
    let fill = exercise_atomicity(&mut index, &mut reference, &first, &third);
    proof {
        let filling = choose|filling: FillingTrace<B>| #[trigger]
            is_filled(
                fresh,
                index,
                exercise_state(chosen),
                reference@,
                first@,
                third@,
                filling,
                fill,
            );
        lemma_filled(fresh, index, chosen, reference@, first@, third@, filling, fill);
        trace = ExerciseTrace { filling, fill, filled: index, full: reference@, ..trace };
    }
    match fill {
        Ok(()) => {},
        Err(violation) => {
            assert(is_exercised(start, set, chosen, trace, Err(violation)));
            return Err(violation);
        },
    }
    let read = exercise_queries_and_delete(&mut index, &mut reference, &first, &third);
    proof {
        let reading = choose|reading: ReadingTrace<B>| #[trigger]
            is_read(
                trace.filled,
                index,
                trace.full,
                reference@,
                &first,
                &third,
                reading,
                read,
            );
        lemma_read(
            trace.filled,
            index,
            trace.full,
            reference@,
            &first,
            &third,
            reading,
            read,
        );
        trace = ExerciseTrace { reading, read, reduced: index, left: reference@, ..trace };
    }
    match read {
        Ok(()) => {},
        Err(violation) => {
            assert(is_exercised(start, set, chosen, trace, Err(violation)));
            return Err(violation);
        },
    }
    let operation = exercise_operations_and_stats(&mut index, set);
    proof {
        let operating = choose|operating: OperationsTrace<B>| #[trigger]
            is_operated(trace.reduced, index, set, operating, operation);
        trace = ExerciseTrace { operating, operation, operated: index, ..trace };
    }
    match operation {
        Ok(()) => {},
        Err(violation) => {
            assert(is_exercised(start, set, chosen, trace, Err(violation)));
            return Err(violation);
        },
    }
    let again = reopen(index, &expected);
    proof {
        let reopening = choose|reopening: ReopeningTrace<B>| #[trigger]
            is_reopened(trace.operated.store(), expected@, reopening, again);
        trace = ExerciseTrace { reopening, reopened: again, ..trace };
    }
    let mut reopened = match again {
        Ok(reopened) => reopened,
        Err(violation) => {
            assert(is_exercised(start, set, chosen, trace, Err(violation)));
            return Err(violation);
        },
    };
    let answer = compare(&mut reopened, &reference, &first, Step::QueryAfterReopen);
    proof {
        lemma_compared(
            again->Ok_0,
            reopened,
            reference@,
            &first,
            Step::QueryAfterReopen,
            answer,
        );
        trace = ExerciseTrace { answer, answered: reopened, ..trace };
    }
    match answer {
        Ok(()) => {},
        Err(violation) => {
            assert(is_exercised(start, set, chosen, trace, Err(violation)));
            return Err(violation);
        },
    }
    let result = exercise_cleanup(reopened.into_backend());
    proof {
        let cleanup = choose|cleanup: CleanupTrace<B>| #[trigger]
            is_cleaned_up(trace.answered.store(), cleanup, result);
        trace = ExerciseTrace { cleanup, ..trace };
        assert(is_exercised(start, set, chosen, trace, result));
    }
    result
}

/// The exercise stopped at a step.
pub open spec fn stopped(step: Step) -> Result<(), Violation> {
    Err(Violation::Failed(step))
}

/// The verdict on a rule.
pub open spec fn judged(kept: bool, rule: Violation) -> Result<(), Violation> {
    if kept {
        Ok(())
    } else {
        Err(rule)
    }
}

/// The index was asked for the answer to one signature, which was held against
/// the answer of a state in memory.
#[verifier::opaque]
pub open spec fn is_comparison<B: StorageBackend>(
    before: BackendIndex32<B>,
    after: BackendIndex32<B>,
    state: LshState,
    sketch: &MinHash32,
    step: Step,
    result: Result<(), Violation>,
) -> bool {
    if state.sketch_error(sketch@) is Some {
        result == stopped(Step::Reference) && after == before
    } else {
        exists|told: Result<Vec<Vec<u64>>, BackendIndexError>| #[trigger]
            index::is_query(before, after, seq![sketch], told) && match told {
                Err(_) => result == stopped(step),
                Ok(rows) => result == judged(
                    state.is_answer(sketch@, rows@[0]@),
                    Violation::Candidates,
                ),
            }
    }
}

/// Hold the answer to one signature against the in-memory index.
fn compare<B: StorageBackend>(
    index: &mut BackendIndex32<B>,
    reference: &LshIndex32,
    sketch: &MinHash32,
    step: Step,
) -> (result: Result<(), Violation>)
    requires
        old(index).wf(),
        reference.wf(),
    ensures
        final(index).wf(),
        is_about_behavior(result),
        is_comparison(*old(index), *final(index), reference@, sketch, step, result),
{
    proof {
        reveal(is_comparison);
    }
    let expected = match reference.query(sketch) {
        Ok(keys) => keys,
        Err(_) => {
            return Err(Violation::Failed(Step::Reference));
        },
    };
    let actual = match index.query(sketch) {
        Ok(keys) => keys,
        Err(_) => {
            return Err(Violation::Failed(step));
        },
    };
    let ghost keys = actual;
    let mut left: Vec<Vec<u64>> = Vec::new();
    left.push(expected);
    let mut right: Vec<Vec<u64>> = Vec::new();
    right.push(actual);
    let result = check_answers(&left, &right);
    proof {
        assert(left@[0]@ == expected@ && right@[0]@ == keys@);
        assert(phases::same_answers(left@, right@, 1) <==> expected@ == keys@);
        if reference@.is_answer(sketch@, keys@) {
            reference@.law_answer_is_unique(sketch@, expected@, keys@);
        }
        assert(result == judged(reference@.is_answer(sketch@, keys@), Violation::Candidates));
        let found = choose|found: Vec<Vec<u64>>|
            found@ == seq![keys] && #[trigger] index::is_query(
                *old(index),
                *index,
                seq![sketch],
                Ok::<Vec<Vec<u64>>, BackendIndexError>(found),
            );
        assert(found@[0] == keys);
    }
    result
}

/// The first item.
pub open spec fn first_batch(first: Sketch32) -> Seq<(u64, Sketch32)> {
    seq![(1u64, first)]
}

/// A new item, and the first once more.
pub open spec fn clashing_batch(first: Sketch32) -> Seq<(u64, Sketch32)> {
    seq![(2u64, first), (1u64, first)]
}

/// Two new items.
pub open spec fn second_batch(first: Sketch32, third: Sketch32) -> Seq<(u64, Sketch32)> {
    seq![(2u64, first), (3u64, third)]
}

/// What happens while an index is filled.
pub struct FillingTrace<B> {
    /// What the index told of the first item.
    pub insertion: Result<(), BackendIndexError>,
    /// The index after it.
    pub inserted: BackendIndex32<B>,
    /// What the index told of the batch with an existing key.
    pub refusal: Result<(), BackendIndexError>,
    /// The index after it.
    pub refused: BackendIndex32<B>,
    /// What the index told of the other key of that batch.
    pub existence: Result<Vec<bool>, BackendIndexError>,
    /// The index after it.
    pub asked: BackendIndex32<B>,
    /// What the index told of the valid batch.
    pub batch: Result<(), BackendIndexError>,
}

/// The index takes the first item, refuses the batch with the existing key as a
/// whole, and takes the valid batch, in this order; a state in memory takes what
/// is valid.
#[verifier::opaque]
pub open spec fn is_filled<B: StorageBackend>(
    before: BackendIndex32<B>,
    after: BackendIndex32<B>,
    start: LshState,
    end: LshState,
    first: Sketch32,
    third: Sketch32,
    trace: FillingTrace<B>,
    result: Result<(), Violation>,
) -> bool {
    if start.batch_error(first_batch(first)) is Some {
        result == stopped(Step::Reference) && after == before && end == start
    } else {
        let grown = start.with_batch(first_batch(first));
        &&& index::is_insertion(before, trace.inserted, first_batch(first), trace.insertion)
        &&& if trace.insertion is Err {
            result == stopped(Step::Insert) && after == trace.inserted && end == grown
        } else {
            &&& index::is_insertion(
                trace.inserted,
                trace.refused,
                clashing_batch(first),
                trace.refusal,
            )
            &&& if conformance::refusal_verdict(trace.refusal, 1, false) is Err {
                &&& result == conformance::refusal_verdict(trace.refusal, 1, false)
                &&& after == trace.refused
                &&& end == grown
            } else {
                &&& index::is_telling(trace.refused, trace.asked, seq![2u64], trace.existence)
                &&& is_filled_up(after, grown, end, first, third, trace, result)
            }
        }
    }
}

/// The last steps of filling an index, after the batch with the existing key was
/// refused and its other key was asked for.
pub open spec fn is_filled_up<B: StorageBackend>(
    after: BackendIndex32<B>,
    grown: LshState,
    end: LshState,
    first: Sketch32,
    third: Sketch32,
    trace: FillingTrace<B>,
    result: Result<(), Violation>,
) -> bool {
    match trace.existence {
        Err(_) => result == stopped(Step::ContainsAfterRefusal) && after == trace.asked && end
            == grown,
        Ok(told) => if told@[0] {
            result == Err::<(), Violation>(Violation::PartialCommit) && after == trace.asked && end
                == grown
        } else {
            &&& index::is_insertion(trace.asked, after, second_batch(first, third), trace.batch)
            &&& if trace.batch is Err {
                result == stopped(Step::InsertBatch) && end == grown
            } else if grown.batch_error(second_batch(first, third)) is Some {
                result == stopped(Step::Reference) && end == grown
            } else {
                result == Ok::<(), Violation>(()) && end == grown.with_batch(
                    second_batch(first, third),
                )
            }
        },
    }
}

fn exercise_atomicity<B: StorageBackend>(
    index: &mut BackendIndex32<B>,
    reference: &mut LshIndex32,
    first: &MinHash32,
    third: &MinHash32,
) -> (result: Result<(), Violation>)
    requires
        old(index).wf(),
        old(reference).wf(),
    ensures
        final(index).wf(),
        final(reference).wf(),
        is_about_behavior(result),
        exists|trace: FillingTrace<B>| #[trigger]
            is_filled(
                *old(index),
                *final(index),
                old(reference)@,
                final(reference)@,
                first@,
                third@,
                trace,
                result,
            ),
{
    proof {
        reveal(is_filled);
    }
    let ghost before = *index;
    let ghost start = reference@;
    let ghost mut trace: FillingTrace<B> = arbitrary();
    if reference.insert(1, first).is_err() {
        assert(is_filled(
            before,
            *index,
            start,
            reference@,
            first@,
            third@,
            trace,
            stopped(Step::Reference),
        ));
        return Err(Violation::Failed(Step::Reference));
    }
    let ghost grown = reference@;
    let insertion = index.insert(1, first);
    proof {
        trace = FillingTrace { insertion, inserted: *index, ..trace };
    }
    if insertion.is_err() {
        assert(is_filled(
            before,
            *index,
            start,
            grown,
            first@,
            third@,
            trace,
            stopped(Step::Insert),
        ));
        return Err(Violation::Failed(Step::Insert));
    }
    let clashing: [(u64, &MinHash32); 2] = [(2u64, first), (1u64, first)];
    assert(lsh::batch_of(clashing@) =~= clashing_batch(first@));
    let refused = index.insert_many(clashing.as_slice());
    proof {
        trace = FillingTrace { refusal: refused, refused: *index, ..trace };
    }
    match check_refusal(&refused, 1, false) {
        Ok(()) => {},
        Err(violation) => {
            assert(is_filled(
                before,
                *index,
                start,
                grown,
                first@,
                third@,
                trace,
                Err(violation),
            ));
            return Err(violation);
        },
    }
    let ghost held = *index;
    let existence = index.contains(2);
    proof {
        let told = if existence is Ok {
            Ok::<Vec<bool>, BackendIndexError>(
                choose|values: Vec<bool>|
                    values@ == seq![existence->Ok_0] && #[trigger] index::is_telling(
                        held,
                        *index,
                        seq![2u64],
                        Ok::<Vec<bool>, BackendIndexError>(values),
                    ),
            )
        } else {
            Err(existence->Err_0)
        };
        trace = FillingTrace { existence: told, asked: *index, ..trace };
        assert(index::is_telling(held, *index, seq![2u64], told));
    }
    let other_exists = match existence {
        Ok(found) => found,
        Err(_) => {
            assert(is_filled(
                before,
                *index,
                start,
                grown,
                first@,
                third@,
                trace,
                stopped(Step::ContainsAfterRefusal),
            ));
            return Err(Violation::Failed(Step::ContainsAfterRefusal));
        },
    };
    match check_refusal(&refused, 1, other_exists) {
        Ok(()) => {},
        Err(violation) => {
            assert(is_filled(
                before,
                *index,
                start,
                grown,
                first@,
                third@,
                trace,
                Err(violation),
            ));
            return Err(violation);
        },
    }
    let valid: [(u64, &MinHash32); 2] = [(2u64, first), (3u64, third)];
    assert(lsh::batch_of(valid@) =~= second_batch(first@, third@));
    let batch = index.insert_many(valid.as_slice());
    proof {
        trace = FillingTrace { batch, ..trace };
    }
    if batch.is_err() {
        assert(is_filled(
            before,
            *index,
            start,
            grown,
            first@,
            third@,
            trace,
            stopped(Step::InsertBatch),
        ));
        return Err(Violation::Failed(Step::InsertBatch));
    }
    if reference.insert_many(valid.as_slice()).is_err() {
        assert(is_filled(
            before,
            *index,
            start,
            reference@,
            first@,
            third@,
            trace,
            stopped(Step::Reference),
        ));
        return Err(Violation::Failed(Step::Reference));
    }
    assert(is_filled(before, *index, start, reference@, first@, third@, trace, Ok(())));
    Ok(())
}

/// What happens while an index is read and keys are deleted from it.
pub struct ReadingTrace<B> {
    /// The index, with query metrics that have seen nothing.
    pub observed: BackendIndex32<B>,
    /// The verdict on the answer to one signature.
    pub answer: Result<(), Violation>,
    /// The index after it.
    pub answered: BackendIndex32<B>,
    /// The answers to both signatures.
    pub rows: Result<Vec<Vec<u64>>, BackendIndexError>,
    /// The index after them.
    pub batched: BackendIndex32<B>,
    /// What the index told of the existence of keys.
    pub existence: Result<Vec<bool>, BackendIndexError>,
    /// The index after it.
    pub asked: BackendIndex32<B>,
    /// How many keys the index deleted.
    pub deletion: Result<usize, BackendIndexError>,
    /// The index after it.
    pub deleted: BackendIndex32<B>,
}

/// The index answers one signature and both together as a state in memory does,
/// and tells which keys exist; then a key is deleted, and both answer the same
/// again.
#[verifier::opaque]
pub open spec fn is_read<B: StorageBackend>(
    before: BackendIndex32<B>,
    after: BackendIndex32<B>,
    start: LshState,
    end: LshState,
    first: &MinHash32,
    third: &MinHash32,
    trace: ReadingTrace<B>,
    result: Result<(), Violation>,
) -> bool {
    &&& trace.observed.store() == before.store()
    &&& trace.observed.told() == before.told()
    &&& trace.observed.known() == before.known()
    &&& trace.observed.metrics() == Some(QueryMetrics::zero())
    &&& is_comparison(
        trace.observed,
        trace.answered,
        start,
        first,
        Step::Query,
        trace.answer,
    )
    &&& if trace.answer is Err {
        result == trace.answer && after == trace.answered && end == start
    } else if start.sketch_error(third@) is Some {
        result == stopped(Step::Reference) && after == trace.answered && end == start
    } else {
        &&& index::is_query(trace.answered, trace.batched, seq![first, third], trace.rows)
        &&& match trace.rows {
            Err(_) => result == stopped(Step::QueryBatch) && after == trace.batched && end == start,
            Ok(rows) => if !(start.is_answer(first@, rows@[0]@) && start.is_answer(
                third@,
                rows@[1]@,
            )) {
                &&& result == Err::<(), Violation>(Violation::Candidates)
                &&& after == trace.batched
                &&& end == start
            } else {
                is_told_and_deleted(after, start, end, first, trace, result)
            },
        }
    }
}

/// The steps after both signatures were answered together.
pub open spec fn is_told_and_deleted<B: StorageBackend>(
    after: BackendIndex32<B>,
    start: LshState,
    end: LshState,
    first: &MinHash32,
    trace: ReadingTrace<B>,
    result: Result<(), Violation>,
) -> bool {
    &&& index::is_telling(trace.batched, trace.asked, seq![3u64, 1, 4, 1], trace.existence)
    &&& match trace.existence {
        Err(_) => result == stopped(Step::Contains) && after == trace.asked && end == start,
        Ok(told) => if told@ != seq![true, true, false, true] {
            &&& result == Err::<(), Violation>(Violation::ContainsOrder)
            &&& after == trace.asked
            &&& end == start
        } else {
            &&& index::is_removal(trace.asked, trace.deleted, seq![2u64, 99, 2], trace.deletion)
            &&& match trace.deletion {
                Err(_) => result == stopped(Step::Delete) && after == trace.deleted && end == start,
                Ok(count) => if count != 1 {
                    &&& result == Err::<(), Violation>(Violation::DeleteCount)
                    &&& after == trace.deleted
                    &&& end == start
                } else {
                    &&& end == start.without(2)
                    &&& if !start.items.contains_key(2) {
                        result == stopped(Step::Reference) && after == trace.deleted
                    } else {
                        is_comparison(
                            trace.deleted,
                            after,
                            end,
                            first,
                            Step::QueryAfterDelete,
                            result,
                        )
                    }
                },
            }
        },
    }
}

/// Hold the answers to two signatures against the in-memory index.
fn compare_pair(
    reference: &LshIndex32,
    first: &MinHash32,
    third: &MinHash32,
    expected: &Vec<Vec<u64>>,
    actual: &Vec<Vec<u64>>,
) -> (result: Result<(), Violation>)
    requires
        expected@.len() == 2,
        actual@.len() == 2,
        reference@.is_answer(first@, expected@[0]@),
        reference@.is_answer(third@, expected@[1]@),
    ensures
        result == judged(
            reference@.is_answer(first@, actual@[0]@) && reference@.is_answer(
                third@,
                actual@[1]@,
            ),
            Violation::Candidates,
        ),
{
    let result = check_answers(expected, actual);
    proof {
        let same = phases::same_answers(expected@, actual@, 2);
        if reference@.is_answer(first@, actual@[0]@) && reference@.is_answer(
            third@,
            actual@[1]@,
        ) {
            reference@.law_answer_is_unique(first@, expected@[0]@, actual@[0]@);
            reference@.law_answer_is_unique(third@, expected@[1]@, actual@[1]@);
            assert(same);
        }
        if same {
            assert(expected@[0]@ == actual@[0]@ && expected@[1]@ == actual@[1]@);
        }
    }
    result
}

fn exercise_queries_and_delete<B: StorageBackend>(
    index: &mut BackendIndex32<B>,
    reference: &mut LshIndex32,
    first: &MinHash32,
    third: &MinHash32,
) -> (result: Result<(), Violation>)
    requires
        old(index).wf(),
        old(reference).wf(),
    ensures
        final(index).wf(),
        final(reference).wf(),
        is_about_behavior(result),
        exists|trace: ReadingTrace<B>| #[trigger]
            is_read(
                *old(index),
                *final(index),
                old(reference)@,
                final(reference)@,
                first,
                third,
                trace,
                result,
            ),
{
    proof {
        reveal(is_read);
    }
    let ghost before = *index;
    let ghost start = reference@;
    let ghost mut trace: ReadingTrace<B> = arbitrary();
    index.set_observability(true);
    proof {
        trace = ReadingTrace { observed: *index, ..trace };
    }
    let answer = compare(index, reference, first, Step::Query);
    proof {
        trace = ReadingTrace { answer, answered: *index, ..trace };
    }
    match answer {
        Ok(()) => {},
        Err(violation) => {
            assert(is_read(before, *index, start, start, first, third, trace, Err(violation)));
            return Err(violation);
        },
    }
    proof {
        reveal(is_comparison);
    }
    let pair: [&MinHash32; 2] = [first, third];
    assert(pair@ =~= seq![first, third]);
    let expected = match reference.query_many(pair.as_slice()) {
        Ok(rows) => rows,
        Err(_) => {
            assert(is_read(
                before,
                *index,
                start,
                start,
                first,
                third,
                trace,
                stopped(Step::Reference),
            ));
            return Err(Violation::Failed(Step::Reference));
        },
    };
    assert(pair@[0] == first && pair@[1] == third);
    let rows = index.query_many(pair.as_slice());
    proof {
        trace = ReadingTrace { rows, batched: *index, ..trace };
    }
    let actual = match rows {
        Ok(rows) => rows,
        Err(_) => {
            assert(is_read(
                before,
                *index,
                start,
                start,
                first,
                third,
                trace,
                stopped(Step::QueryBatch),
            ));
            return Err(Violation::Failed(Step::QueryBatch));
        },
    };
    match compare_pair(reference, first, third, &expected, &actual) {
        Ok(()) => {},
        Err(violation) => {
            assert(is_read(before, *index, start, start, first, third, trace, Err(violation)));
            return Err(violation);
        },
    }
    let asked: [u64; 4] = [3, 1, 4, 1];
    assert(asked@ =~= seq![3u64, 1, 4, 1]);
    let existence = index.contains_many(asked.as_slice());
    proof {
        trace = ReadingTrace { existence, asked: *index, ..trace };
    }
    let told = match existence {
        Ok(told) => told,
        Err(_) => {
            assert(is_read(
                before,
                *index,
                start,
                start,
                first,
                third,
                trace,
                stopped(Step::Contains),
            ));
            return Err(Violation::Failed(Step::Contains));
        },
    };
    let wanted: [bool; 4] = [true, true, false, true];
    assert(wanted@ =~= seq![true, true, false, true]);
    match check_contains(wanted.as_slice(), told.as_slice()) {
        Ok(()) => {},
        Err(violation) => {
            assert(is_read(before, *index, start, start, first, third, trace, Err(violation)));
            return Err(violation);
        },
    }
    let doomed: Vec<u64> = vec![2, 99, 2];
    assert(doomed@ =~= seq![2u64, 99, 2]);
    let deletion = index.remove_many(doomed);
    proof {
        trace = ReadingTrace { deletion, deleted: *index, ..trace };
    }
    let deleted = match deletion {
        Ok(deleted) => deleted,
        Err(_) => {
            assert(is_read(
                before,
                *index,
                start,
                start,
                first,
                third,
                trace,
                stopped(Step::Delete),
            ));
            return Err(Violation::Failed(Step::Delete));
        },
    };
    match check_deleted(1, deleted) {
        Ok(()) => {},
        Err(violation) => {
            assert(is_read(before, *index, start, start, first, third, trace, Err(violation)));
            return Err(violation);
        },
    }
    if !reference.remove(2) {
        assert(is_read(
            before,
            *index,
            start,
            reference@,
            first,
            third,
            trace,
            stopped(Step::Reference),
        ));
        return Err(Violation::Failed(Step::Reference));
    }
    let result = compare(index, reference, first, Step::QueryAfterDelete);
    assert(is_read(before, *index, start, reference@, first, third, trace, result));
    result
}

/// The index completed its writes.
pub open spec fn is_completion<B: StorageBackend>(
    before: BackendIndex32<B>,
    after: BackendIndex32<B>,
    told: Result<(), BackendIndexError>,
) -> bool {
    &&& after.wf()
    &&& after.keeps_all_but_the_store(&before)
    &&& exists|reply: Result<(), BackendError>| #[trigger]
        before.store().flushes(reply, after.store()) && told == index::passed_on(reply)
}

/// The index probed its backend.
pub open spec fn is_probe<B: StorageBackend>(
    before: BackendIndex32<B>,
    after: BackendIndex32<B>,
    told: Result<(), BackendIndexError>,
) -> bool {
    &&& after.wf()
    &&& after.keeps_all_but_the_store(&before)
    &&& exists|reply: Result<(), BackendError>| #[trigger]
        before.store().probes(reply, after.store()) && told == index::passed_on(reply)
}

/// The index gave its statistics.
pub open spec fn is_count<B: StorageBackend>(
    before: BackendIndex32<B>,
    after: BackendIndex32<B>,
    told: Result<BackendStats, BackendIndexError>,
) -> bool {
    &&& after.wf()
    &&& after.told() == before.told()
    &&& after.metrics() == before.metrics()
    &&& exists|reply: Result<BackendStats, BackendError>| #[trigger]
        index::stats_passed_on(before, after, reply, told)
}

/// What happens while an index is operated.
pub struct OperationsTrace<B> {
    /// What the index told of its writes.
    pub completion: Result<(), BackendIndexError>,
    /// The index after its writes.
    pub completed: BackendIndex32<B>,
    /// What the index told of its health.
    pub probe: Result<(), BackendIndexError>,
    /// The index after the probe.
    pub probed: BackendIndex32<B>,
    /// The statistics.
    pub count: Result<BackendStats, BackendIndexError>,
}

/// The index completes its writes, is healthy and gives the statistics that the
/// steps before leave, in this order.
pub open spec fn is_operated<B: StorageBackend>(
    before: BackendIndex32<B>,
    after: BackendIndex32<B>,
    set: BackendCapabilities,
    trace: OperationsTrace<B>,
    result: Result<(), Violation>,
) -> bool {
    &&& is_completion(before, trace.completed, trace.completion)
    &&& if trace.completion is Err {
        result == stopped(Step::Flush) && after == trace.completed
    } else {
        &&& is_probe(trace.completed, trace.probed, trace.probe)
        &&& if trace.probe is Err {
            result == stopped(Step::Health) && after == trace.probed
        } else {
            &&& is_count(trace.probed, after, trace.count)
            &&& match trace.count {
                Err(_) => result == stopped(Step::Stats),
                Ok(stats) => result == (match conformance::stats_violation(stats, set) {
                    Some(violation) => Err::<(), Violation>(violation),
                    None => Ok(()),
                }),
            }
        }
    }
}

fn exercise_operations_and_stats<B: StorageBackend>(
    index: &mut BackendIndex32<B>,
    set: BackendCapabilities,
) -> (result: Result<(), Violation>)
    requires
        old(index).wf(),
    ensures
        final(index).wf(),
        is_about_behavior(result),
        exists|trace: OperationsTrace<B>| #[trigger]
            is_operated(*old(index), *final(index), set, trace, result),
{
    let ghost before = *index;
    let ghost mut trace: OperationsTrace<B> = arbitrary();
    let completion = index.flush();
    proof {
        trace = OperationsTrace { completion, completed: *index, ..trace };
        assert(is_completion(before, *index, completion));
    }
    if completion.is_err() {
        assert(is_operated(before, *index, set, trace, stopped(Step::Flush)));
        return Err(Violation::Failed(Step::Flush));
    }
    let ghost completed = *index;
    let probe = index.health();
    proof {
        trace = OperationsTrace { probe, probed: *index, ..trace };
        assert(is_probe(completed, *index, probe));
    }
    if probe.is_err() {
        assert(is_operated(before, *index, set, trace, stopped(Step::Health)));
        return Err(Violation::Failed(Step::Health));
    }
    let ghost probed = *index;
    let count = index.stats();
    proof {
        trace = OperationsTrace { count, ..trace };
        assert(is_count(probed, *index, count));
    }
    let result = match count {
        Ok(stats) => check_stats(&stats, set),
        Err(_) => Err(Violation::Failed(Step::Stats)),
    };
    assert(is_operated(before, *index, set, trace, result));
    result
}

/// What happens while an index is opened again.
pub struct ReopeningTrace<B> {
    /// The stored descriptor.
    pub stored: Result<IndexDescriptor, BackendError>,
    /// The backend after it was loaded.
    pub loaded: B,
    /// The reply to a second initialization.
    pub again: Result<(), BackendError>,
    /// The backend after that.
    pub initialized: B,
    /// The index, opened again.
    pub opened: Result<BackendIndex32<B>, BackendIndexError>,
}

/// The backend holds the descriptor unchanged, refuses to be initialized again,
/// and is opened, in this order.
pub open spec fn is_reopened<B: StorageBackend>(
    backend: B,
    expected: Descriptor,
    trace: ReopeningTrace<B>,
    result: Result<BackendIndex32<B>, Violation>,
) -> bool {
    &&& backend.loads(trace.stored, trace.loaded)
    &&& match trace.stored {
        Err(_) => result == Err::<BackendIndex32<B>, Violation>(Violation::Failed(Step::Load)),
        Ok(stored) => {
            &&& trace.loaded.initializes(expected, trace.again, trace.initialized)
            &&& if stored@ != expected {
                result == Err::<BackendIndex32<B>, Violation>(Violation::Descriptor)
            } else if trace.again != Err::<(), BackendError>(BackendError::AlreadyExists) {
                result == Err::<BackendIndex32<B>, Violation>(Violation::InitializedTwice)
            } else {
                &&& index::is_opening(trace.initialized, trace.opened)
                &&& match trace.opened {
                    Err(_) => result == Err::<BackendIndex32<B>, Violation>(
                        Violation::Failed(Step::Reopen),
                    ),
                    Ok(opened) => result == Ok::<BackendIndex32<B>, Violation>(opened),
                }
            }
        },
    }
}

fn reopen<B: StorageBackend>(index: BackendIndex32<B>, expected: &IndexDescriptor) -> (result:
    Result<BackendIndex32<B>, Violation>)
    requires
        index.wf(),
        expected.wf(),
    ensures
        match result {
            Ok(reopened) => reopened.wf(),
            Err(violation) => !(violation is Capability),
        },
        exists|trace: ReopeningTrace<B>| #[trigger]
            is_reopened(index.store(), expected@, trace, result),
{
    let mut backend = index.into_backend();
    let ghost start = backend;
    let ghost mut trace: ReopeningTrace<B> = arbitrary();
    let reply = backend.load_descriptor();
    proof {
        trace = ReopeningTrace { stored: reply, loaded: backend, ..trace };
    }
    let stored = match reply {
        Ok(stored) => stored,
        Err(_) => {
            assert(is_reopened(start, expected@, trace, Err(Violation::Failed(Step::Load))));
            return Err(Violation::Failed(Step::Load));
        },
    };
    let again = backend.initialize(expected);
    proof {
        trace = ReopeningTrace { again, initialized: backend, ..trace };
    }
    match check_reopening(expected, &stored, &again) {
        Ok(()) => {},
        Err(violation) => {
            assert(is_reopened(start, expected@, trace, Err(violation)));
            return Err(violation);
        },
    }
    let opened = BackendIndex32::open(backend);
    proof {
        trace = ReopeningTrace { opened, ..trace };
    }
    let result = match opened {
        Ok(reopened) => Ok(reopened),
        Err(_) => Err(Violation::Failed(Step::Reopen)),
    };
    assert(is_reopened(start, expected@, trace, result));
    result
}

/// What happens while a namespace is deleted.
pub struct CleanupTrace<B> {
    /// The reply to the deletion.
    pub cleaned: Result<(), BackendError>,
    /// The backend after it.
    pub empty: B,
    /// The reply to a request for the descriptor.
    pub stored: Result<IndexDescriptor, BackendError>,
    /// The backend after that.
    pub end: B,
}

/// The backend deletes its namespace and does not find the descriptor any more.
pub open spec fn is_cleaned_up<B: StorageBackend>(
    backend: B,
    trace: CleanupTrace<B>,
    result: Result<(), Violation>,
) -> bool {
    &&& backend.cleans(trace.cleaned, trace.empty)
    &&& if trace.cleaned is Err {
        result == stopped(Step::Cleanup)
    } else {
        &&& trace.empty.loads(trace.stored, trace.end)
        &&& result == judged(
            trace.stored == Err::<IndexDescriptor, BackendError>(BackendError::NotFound),
            Violation::Cleanup,
        )
    }
}

fn exercise_cleanup<B: StorageBackend>(backend: B) -> (result: Result<(), Violation>)
    requires
        backend.wf(),
    ensures
        is_about_behavior(result),
        exists|trace: CleanupTrace<B>| #[trigger] is_cleaned_up(backend, trace, result),
{
    let ghost start = backend;
    let ghost mut trace: CleanupTrace<B> = arbitrary();
    let mut backend = backend;
    let cleaned = backend.cleanup();
    proof {
        trace = CleanupTrace { cleaned, empty: backend, ..trace };
    }
    if cleaned.is_err() {
        assert(is_cleaned_up(start, trace, stopped(Step::Cleanup)));
        return Err(Violation::Failed(Step::Cleanup));
    }
    let stored = backend.load_descriptor();
    let result = check_cleanup(&stored);
    proof {
        trace = CleanupTrace { stored, end: backend, ..trace };
        assert(is_cleaned_up(start, trace, result));
    }
    result
}

} // verus!
