//! Rules that every storage backend keeps, whatever it is made of.
//!
//! A backend is exercised on a fresh, isolated namespace: one item is inserted,
//! a batch with an existing key is refused, a valid batch is inserted, and what
//! the backend then replies is held against the in-memory index. Each step has a
//! rule here that judges the reply. Namespace isolation, visibility across
//! processes, transport failures and expiry are left to tests of the backend
//! itself.

use vstd::prelude::*;
use vstd::string::*;

use crate::backend::capability::{BackendCapabilities, BackendCapability};
use crate::backend::contract::BackendStats;
use crate::backend::descriptor::IndexDescriptor;
use crate::backend::error::{BackendError, BackendIndexError};
use crate::bench::phases;
use crate::bench::phases::ensure_candidate_parity;

verus! {

/// The signature length of the exercise.
pub const CONFORMANCE_NUM_PERM: usize = 128;

/// The seed of the exercise.
pub const CONFORMANCE_SEED: u64 = 7;

/// The retention of the exercise in seconds, where the backend has expiry.
pub const CONFORMANCE_RETENTION_SECONDS: u64 = 300;

/// A step of the exercise that has to succeed.
#[derive(Debug, Clone, Copy, PartialEq, Eq, Structural)]
pub enum Step {
    /// The namespace is initialized.
    Initialize,
    /// The first item is inserted.
    Insert,
    /// Existence is asked for after a refused batch.
    ContainsAfterRefusal,
    /// A valid batch is inserted.
    InsertBatch,
    /// One signature is queried.
    Query,
    /// Signatures are queried together.
    QueryBatch,
    /// Existence is asked for.
    Contains,
    /// Keys are deleted.
    Delete,
    /// A signature is queried after the deletion.
    QueryAfterDelete,
    /// Writes are completed.
    Flush,
    /// The health is probed.
    Health,
    /// Statistics are asked for.
    Stats,
    /// The descriptor is loaded.
    Load,
    /// The index is opened again.
    Reopen,
    /// A signature is queried after the index was opened again.
    QueryAfterReopen,
    /// The namespace is deleted.
    Cleanup,
    /// The in-memory index is asked for the expected answers.
    Reference,
}

impl Step {
    /// What is demanded of the step.
    pub open spec fn text(self) -> Seq<char> {
        match self {
            Step::Initialize => "backend must initialize a fresh namespace"@,
            Step::Insert => "backend must accept an initial insert"@,
            Step::ContainsAfterRefusal => "backend contains must work after a rejected batch"@,
            Step::InsertBatch => "backend must accept a valid insertion batch"@,
            Step::Query => "backend scalar query must succeed"@,
            Step::QueryBatch => "backend batch query must succeed"@,
            Step::Contains => "backend batch contains must succeed"@,
            Step::Delete => "backend batch delete must succeed"@,
            Step::QueryAfterDelete => "backend query after delete must succeed"@,
            Step::Flush => "backend flush must succeed"@,
            Step::Health => "backend health probe must succeed"@,
            Step::Stats => "backend statistics must succeed"@,
            Step::Load => "backend must load its initialized descriptor"@,
            Step::Reopen => "backend must reopen its persisted descriptor"@,
            Step::QueryAfterReopen => "reopened backend query must succeed"@,
            Step::Cleanup => "backend cleanup must remove the owned namespace"@,
            Step::Reference => "conformance reference index must be valid"@,
        }
    }

    /// What is demanded of the step.
    pub fn demand(self) -> (demand: &'static str)
        ensures
            demand@ == self.text(),
    {
        match self {
            Step::Initialize => "backend must initialize a fresh namespace",
            Step::Insert => "backend must accept an initial insert",
            Step::ContainsAfterRefusal => "backend contains must work after a rejected batch",
            Step::InsertBatch => "backend must accept a valid insertion batch",
            Step::Query => "backend scalar query must succeed",
            Step::QueryBatch => "backend batch query must succeed",
            Step::Contains => "backend batch contains must succeed",
            Step::Delete => "backend batch delete must succeed",
            Step::QueryAfterDelete => "backend query after delete must succeed",
            Step::Flush => "backend flush must succeed",
            Step::Health => "backend health probe must succeed",
            Step::Stats => "backend statistics must succeed",
            Step::Load => "backend must load its initialized descriptor",
            Step::Reopen => "backend must reopen its persisted descriptor",
            Step::QueryAfterReopen => "reopened backend query must succeed",
            Step::Cleanup => "backend cleanup must remove the owned namespace",
            Step::Reference => "conformance reference index must be valid",
        }
    }
}

/// A rule that a backend broke.
#[derive(Debug, Clone, Copy, PartialEq, Eq, Structural)]
pub enum Violation {
    /// A step failed.
    Failed(Step),
    /// A required capability is not advertised.
    Capability(BackendCapability),
    /// A batch with an existing key was accepted.
    DuplicateAccepted,
    /// A batch with an existing key was refused for another reason.
    DuplicateReport,
    /// A refused batch was committed in part.
    PartialCommit,
    /// Candidates differ from the in-memory index.
    Candidates,
    /// Existence is not told in the order of the keys.
    ContainsOrder,
    /// The number of deleted keys is wrong.
    DeleteCount,
    /// The number of items is wrong.
    ItemCount,
    /// No bucket memberships are reported.
    NoMemberships,
    /// Query observations are missing or wrong.
    Observations,
    /// A lifetime is reported without expiry, or expiry without a lifetime.
    Lifetime,
    /// The descriptor changed while it was stored.
    Descriptor,
    /// A namespace was initialized twice.
    InitializedTwice,
    /// The descriptor is still there after the namespace was deleted.
    Cleanup,
}

impl Violation {
    /// The rule in words.
    pub open spec fn text(self) -> Seq<char> {
        match self {
            Violation::Failed(step) => step.text(),
            Violation::Capability(capability) => "backend must advertise required capability "@
                + capability.text(),
            Violation::DuplicateAccepted
            => "backend must reject a batch containing an existing key"@,
            Violation::DuplicateReport => "backend must report the existing duplicate key"@,
            Violation::PartialCommit
            => "backend partially committed a rejected insertion batch"@,
            Violation::Candidates => "backend candidates differ from LshIndex32"@,
            Violation::ContainsOrder => "backend contains results must preserve input order"@,
            Violation::DeleteCount => "backend delete count must include only live distinct keys"@,
            Violation::ItemCount => "backend statistics report the wrong item count"@,
            Violation::NoMemberships
            => "backend statistics must report live bucket memberships"@,
            Violation::Observations
            => "BackendIndex32 must attach enabled query observations"@,
            Violation::Lifetime
            => "a backend must report active retention if and only if it advertises TTL"@,
            Violation::Descriptor
            => "backend changed descriptor fields while persisting them"@,
            Violation::InitializedTwice
            => "backend must reject initialization of an existing namespace"@,
            Violation::Cleanup => "backend must report NotFound after cleanup"@,
        }
    }

    /// The rule in words.
    pub fn message(self) -> (message: String)
        ensures
            message@ == self.text(),
    {
        match self {
            Violation::Failed(step) => step.demand().to_owned(),
            Violation::Capability(capability) => {
                let mut message = "backend must advertise required capability ".to_owned();
                message.append(capability.name());
                message
            },
            Violation::DuplicateAccepted
            => "backend must reject a batch containing an existing key".to_owned(),
            Violation::DuplicateReport
            => "backend must report the existing duplicate key".to_owned(),
            Violation::PartialCommit
            => "backend partially committed a rejected insertion batch".to_owned(),
            Violation::Candidates => "backend candidates differ from LshIndex32".to_owned(),
            Violation::ContainsOrder
            => "backend contains results must preserve input order".to_owned(),
            Violation::DeleteCount
            => "backend delete count must include only live distinct keys".to_owned(),
            Violation::ItemCount
            => "backend statistics report the wrong item count".to_owned(),
            Violation::NoMemberships
            => "backend statistics must report live bucket memberships".to_owned(),
            Violation::Observations
            => "BackendIndex32 must attach enabled query observations".to_owned(),
            Violation::Lifetime
            => "a backend must report active retention if and only if it advertises TTL".to_owned(),
            Violation::Descriptor
            => "backend changed descriptor fields while persisting them".to_owned(),
            Violation::InitializedTwice
            => "backend must reject initialization of an existing namespace".to_owned(),
            Violation::Cleanup => "backend must report NotFound after cleanup".to_owned(),
        }
    }
}

/// The capabilities that every backend advertises, in the order in which they
/// are asked for.
pub open spec fn required_capabilities() -> Seq<BackendCapability> {
    seq![
        BackendCapability::BatchRead,
        BackendCapability::BatchWrite,
        BackendCapability::Delete,
        BackendCapability::Flush,
        BackendCapability::Health,
    ]
}

/// The first capability from a position on that the set lacks.
pub open spec fn first_lacking(set: BackendCapabilities, from: int) -> Option<BackendCapability>
    decreases required_capabilities().len() - from,
{
    if from < 0 || from >= required_capabilities().len() {
        None
    } else if !set.has(required_capabilities()[from]) {
        Some(required_capabilities()[from])
    } else {
        first_lacking(set, from + 1)
    }
}

/// Check that a backend advertises what every backend must have.
pub fn check_capabilities(set: BackendCapabilities) -> (result: Result<(), Violation>)
    ensures
        result == (match first_lacking(set, 0) {
            Some(capability) => Err::<(), Violation>(Violation::Capability(capability)),
            None => Ok(()),
        }),
{
    proof {
        reveal_with_fuel(first_lacking, 6);
    }
    if !set.supports(BackendCapability::BatchRead) {
        return Err(Violation::Capability(BackendCapability::BatchRead));
    }
    if !set.supports(BackendCapability::BatchWrite) {
        return Err(Violation::Capability(BackendCapability::BatchWrite));
    }
    if !set.supports(BackendCapability::Delete) {
        return Err(Violation::Capability(BackendCapability::Delete));
    }
    if !set.supports(BackendCapability::Flush) {
        return Err(Violation::Capability(BackendCapability::Flush));
    }
    if !set.supports(BackendCapability::Health) {
        return Err(Violation::Capability(BackendCapability::Health));
    }
    Ok(())
}

/// The verdict on a batch that holds the existing key, given the reply and
/// whether the other key of the batch exists afterwards.
pub open spec fn refusal_verdict(
    reply: Result<(), BackendIndexError>,
    existing: u64,
    other_exists: bool,
) -> Result<(), Violation> {
    match reply {
        Ok(()) => Err(Violation::DuplicateAccepted),
        Err(BackendIndexError::Backend(BackendError::DuplicateKey { key })) => if key != existing {
            Err(Violation::DuplicateReport)
        } else if other_exists {
            Err(Violation::PartialCommit)
        } else {
            Ok(())
        },
        Err(_) => Err(Violation::DuplicateReport),
    }
}

/// Judge the reply to a batch that holds the existing key, and whether the other
/// key of the batch exists afterwards.
pub fn check_refusal(reply: &Result<(), BackendIndexError>, existing: u64, other_exists: bool) -> (
    result: Result<(), Violation>)
    ensures
        result == refusal_verdict(*reply, existing, other_exists),
{
    match reply {
        Ok(()) => Err(Violation::DuplicateAccepted),
        Err(BackendIndexError::Backend(BackendError::DuplicateKey { key })) => {
            if *key != existing {
                Err(Violation::DuplicateReport)
            } else if other_exists {
                Err(Violation::PartialCommit)
            } else {
                Ok(())
            }
        },
        Err(_) => Err(Violation::DuplicateReport),
    }
}

/// Judge answers by those of the in-memory index.
pub fn check_answers(reference: &Vec<Vec<u64>>, actual: &Vec<Vec<u64>>) -> (result: Result<
    (),
    Violation,
>)
    ensures
        result == (if reference@.len() == actual@.len() && phases::same_answers(
            reference@,
            actual@,
            reference@.len() as int,
        ) {
            Ok::<(), Violation>(())
        } else {
            Err(Violation::Candidates)
        }),
{
    match ensure_candidate_parity(reference, actual) {
        Ok(()) => Ok(()),
        Err(_) => Err(Violation::Candidates),
    }
}

/// Judge what a backend tells of the existence of keys.
pub fn check_contains(expected: &[bool], actual: &[bool]) -> (result: Result<(), Violation>)
    ensures
        result == (if expected@ == actual@ {
            Ok::<(), Violation>(())
        } else {
            Err(Violation::ContainsOrder)
        }),
{
    if expected.len() != actual.len() {
        return Err(Violation::ContainsOrder);
    }
    let mut index: usize = 0;
    while index < expected.len()
        invariant
            index <= expected@.len() == actual@.len(),
            forall|i: int| 0 <= i < index ==> expected@[i] == actual@[i],
        decreases expected@.len() - index,
    {
        if expected[index] != actual[index] {
            return Err(Violation::ContainsOrder);
        }
        index = index + 1;
    }
    assert(expected@ =~= actual@);
    Ok(())
}

/// Judge the number of deleted keys.
pub fn check_deleted(expected: usize, actual: usize) -> (result: Result<(), Violation>)
    ensures
        result == (if expected == actual {
            Ok::<(), Violation>(())
        } else {
            Err(Violation::DeleteCount)
        }),
{
    if expected == actual {
        Ok(())
    } else {
        Err(Violation::DeleteCount)
    }
}

/// The first rule that the statistics after the exercise break, if any: two
/// items are left, three query operations asked for four signatures, and eleven
/// candidates were possible.
pub open spec fn stats_violation(
    stats: BackendStats,
    set: BackendCapabilities,
) -> Option<Violation> {
    if stats.items != 2 {
        Some(Violation::ItemCount)
    } else if stats.bucket_memberships == 0 {
        Some(Violation::NoMemberships)
    } else {
        match stats.queries {
            None => Some(Violation::Observations),
            Some(queries) => if queries.operations != 3 || queries.queries != 4
                || queries.possible_candidates != 11 || queries.candidates == 0 {
                Some(Violation::Observations)
            } else if set.has(BackendCapability::Ttl) != (stats.ttl_seconds_remaining is Some) {
                Some(Violation::Lifetime)
            } else {
                None
            },
        }
    }
}

/// Judge the statistics after the exercise.
pub fn check_stats(stats: &BackendStats, set: BackendCapabilities) -> (result: Result<
    (),
    Violation,
>)
    ensures
        result == (match stats_violation(*stats, set) {
            Some(violation) => Err::<(), Violation>(violation),
            None => Ok(()),
        }),
{
    if stats.items != 2 {
        return Err(Violation::ItemCount);
    }
    if stats.bucket_memberships == 0 {
        return Err(Violation::NoMemberships);
    }
    match stats.queries {
        None => Err(Violation::Observations),
        Some(queries) => {
            if queries.operations != 3 || queries.queries != 4 || queries.possible_candidates != 11
                || queries.candidates == 0 {
                Err(Violation::Observations)
            } else if set.supports(BackendCapability::Ttl) != stats.ttl_seconds_remaining.is_some() {
                Err(Violation::Lifetime)
            } else {
                Ok(())
            }
        },
    }
}

fn same_descriptor(left: &IndexDescriptor, right: &IndexDescriptor) -> (same: bool)
    ensures
        same == (left@ == right@),
{
    let retained = match (left.retention(), right.retention()) {
        (Some(first), Some(second)) => first == second,
        (None, None) => true,
        _ => false,
    };
    retained && left.threshold() == right.threshold() && left.num_perm() == right.num_perm()
        && left.seed() == right.seed() && left.params() == right.params()
}

/// Judge the stored descriptor and the reply to a second initialization.
pub fn check_reopening(
    expected: &IndexDescriptor,
    stored: &IndexDescriptor,
    again: &Result<(), BackendError>,
) -> (result: Result<(), Violation>)
    ensures
        result == (if expected@ != stored@ {
            Err::<(), Violation>(Violation::Descriptor)
        } else if *again == Err::<(), BackendError>(BackendError::AlreadyExists) {
            Ok(())
        } else {
            Err(Violation::InitializedTwice)
        }),
{
    if !same_descriptor(expected, stored) {
        return Err(Violation::Descriptor);
    }
    match again {
        Err(BackendError::AlreadyExists) => Ok(()),
        _ => Err(Violation::InitializedTwice),
    }
}

/// Judge the reply to a request for the descriptor of a deleted namespace.
pub fn check_cleanup(reply: &Result<IndexDescriptor, BackendError>) -> (result: Result<
    (),
    Violation,
>)
    ensures
        result == (if *reply == Err::<IndexDescriptor, BackendError>(BackendError::NotFound) {
            Ok::<(), Violation>(())
        } else {
            Err(Violation::Cleanup)
        }),
{
    match reply {
        Err(BackendError::NotFound) => Ok(()),
        _ => Err(Violation::Cleanup),
    }
}

/// A backend passes exactly with every capability to read and write in batches, to delete,
/// to flush and to tell its health.
pub proof fn law_which_capabilities_are_demanded(set: BackendCapabilities)
    ensures
        (first_lacking(set, 0) is None) == (set.has(BackendCapability::BatchRead) && set.has(
            BackendCapability::BatchWrite,
        ) && set.has(BackendCapability::Delete) && set.has(BackendCapability::Flush) && set.has(
            BackendCapability::Health,
        )),
        first_lacking(set, 0) matches Some(capability) ==> !set.has(capability),
{
    reveal_with_fuel(first_lacking, 6);
}

/// A refusal passes exactly where the existing key was reported and nothing was stored.
pub proof fn law_which_refusals_pass(
    reply: Result<(), BackendIndexError>,
    existing: u64,
    other_exists: bool,
)
    ensures
        (refusal_verdict(reply, existing, other_exists) is Ok) == (!other_exists && reply == Err::<
            (),
            BackendIndexError,
        >(BackendIndexError::Backend(BackendError::DuplicateKey { key: existing }))),
{
}

} // verus!
