//! Creating an index file under a name that must be free.
//!
//! The bytes are written to a temporary file beside the destination, made
//! durable, and linked to the destination without replacing anything. The
//! temporary name is removed in any case.
//!
//! A [`Creation`] tells which action comes next and takes in how it went;
//! performing the actions is left to its owner.

use vstd::prelude::*;

verus! {

/// How many temporary names are tried.
pub const TEMPORARY_CREATE_ATTEMPTS: usize = 128;

/// One action on the file system.
#[derive(Debug, Clone, Copy, PartialEq, Eq, Structural)]
pub enum CreateAction {
    /// Create a temporary file under a fresh name, which must be free.
    Allocate,
    /// Write the bytes to the temporary file and make them durable.
    Write,
    /// Link the temporary file to the destination, which must be free.
    Link,
    /// Remove the temporary name.
    RemoveTemporary,
    /// Make the destination durable.
    SyncParent,
    /// Remove the temporary name, whether or not it is there.
    Discard,
}

/// How an action went.
#[derive(Debug, Clone, Copy, PartialEq, Eq, Structural)]
pub enum CreateEvent {
    /// It succeeded.
    Done,
    /// The name to be created was taken.
    Taken,
    /// It failed in another way.
    Failed,
}

/// Why a creation failed.
#[derive(Debug, Clone, Copy, PartialEq, Eq, Structural)]
pub enum CreateFault {
    /// No temporary name was free.
    NoTemporaryName,
    /// The destination was taken.
    AlreadyExists,
    /// The action that failed.
    Io(CreateAction),
}

/// Where a creation stands.
#[derive(Debug, Clone, Copy, PartialEq, Eq, Structural)]
pub enum CreateStage {
    /// A temporary name is sought; so many were taken.
    Allocating {
        /// The number of names that were taken.
        tried: usize,
    },
    /// The action is to be performed on the way to the destination.
    Forward {
        /// The action.
        action: CreateAction,
    },
    /// The temporary name is to be removed after a failure.
    Discarding {
        /// Why the creation failed.
        fault: CreateFault,
    },
    /// The destination names the file.
    Created,
    /// The creation failed.
    Failed {
        /// Why it failed.
        fault: CreateFault,
    },
}

/// The action that a creation waits for, if it is not over.
pub open spec fn due(stage: CreateStage) -> Option<CreateAction> {
    match stage {
        CreateStage::Allocating { .. } => Some(CreateAction::Allocate),
        CreateStage::Forward { action } => Some(action),
        CreateStage::Discarding { .. } => Some(CreateAction::Discard),
        _ => None,
    }
}

/// Where a creation stands after an action went so.
pub open spec fn next(stage: CreateStage, event: CreateEvent) -> CreateStage {
    match stage {
        CreateStage::Allocating { tried } => match event {
            CreateEvent::Done => CreateStage::Forward { action: CreateAction::Write },
            CreateEvent::Taken => if tried + 1 < TEMPORARY_CREATE_ATTEMPTS {
                CreateStage::Allocating { tried: (tried + 1) as usize }
            } else {
                CreateStage::Failed { fault: CreateFault::NoTemporaryName }
            },
            CreateEvent::Failed => CreateStage::Failed {
                fault: CreateFault::Io(CreateAction::Allocate),
            },
        },
        CreateStage::Forward { action } => if event == CreateEvent::Done {
            match action {
                CreateAction::Write => CreateStage::Forward { action: CreateAction::Link },
                CreateAction::Link => CreateStage::Forward {
                    action: CreateAction::RemoveTemporary,
                },
                CreateAction::RemoveTemporary => CreateStage::Forward {
                    action: CreateAction::SyncParent,
                },
                _ => CreateStage::Created,
            }
        } else if event == CreateEvent::Taken && action == CreateAction::Link {
            CreateStage::Discarding { fault: CreateFault::AlreadyExists }
        } else {
            CreateStage::Discarding { fault: CreateFault::Io(action) }
        },
        CreateStage::Discarding { fault } => CreateStage::Failed { fault },
        _ => stage,
    }
}

/// A creation under way.
#[derive(Debug)]
pub struct Creation {
    stage: CreateStage,
}

impl Creation {
    /// Where the creation stands.
    pub closed spec fn at(&self) -> CreateStage {
        self.stage
    }

    /// A creation that has not begun.
    pub fn begin() -> (creation: Creation)
        ensures
            creation.at() == (CreateStage::Allocating { tried: 0 }),
    {
        Creation { stage: CreateStage::Allocating { tried: 0 } }
    }

    /// Where the creation stands.
    pub fn stage(&self) -> (stage: CreateStage)
        ensures
            stage == self.at(),
    {
        self.stage
    }

    /// The action that comes next, if the creation is not over.
    pub fn action(&self) -> (action: Option<CreateAction>)
        ensures
            action == due(self.at()),
    {
        match self.stage {
            CreateStage::Allocating { .. } => Some(CreateAction::Allocate),
            CreateStage::Forward { action } => Some(action),
            CreateStage::Discarding { .. } => Some(CreateAction::Discard),
            _ => None,
        }
    }

    /// Take in how the action went.
    pub fn advance(&mut self, event: CreateEvent)
        ensures
            final(self).at() == next(old(self).at(), event),
    {
        self.stage =
        match self.stage {
            CreateStage::Allocating { tried } => match event {
                CreateEvent::Done => CreateStage::Forward { action: CreateAction::Write },
                CreateEvent::Taken => if tried < TEMPORARY_CREATE_ATTEMPTS - 1 {
                    CreateStage::Allocating { tried: tried + 1 }
                } else {
                    CreateStage::Failed { fault: CreateFault::NoTemporaryName }
                },
                CreateEvent::Failed => CreateStage::Failed {
                    fault: CreateFault::Io(CreateAction::Allocate),
                },
            },
            CreateStage::Forward { action } => match event {
                CreateEvent::Done => match action {
                    CreateAction::Write => CreateStage::Forward { action: CreateAction::Link },
                    CreateAction::Link => CreateStage::Forward {
                        action: CreateAction::RemoveTemporary,
                    },
                    CreateAction::RemoveTemporary => CreateStage::Forward {
                        action: CreateAction::SyncParent,
                    },
                    _ => CreateStage::Created,
                },
                CreateEvent::Taken => CreateStage::Discarding {
                    fault: if action == CreateAction::Link {
                        CreateFault::AlreadyExists
                    } else {
                        CreateFault::Io(action)
                    },
                },
                CreateEvent::Failed => CreateStage::Discarding { fault: CreateFault::Io(action) },
            },
            CreateStage::Discarding { fault } => CreateStage::Failed { fault },
            _ => self.stage,
        };
    }
}

/// What stands under the two names.
pub struct Names {
    /// The temporary name names the creation's file.
    pub temporary: bool,
    /// The destination names the creation's file.
    pub owned: bool,
    /// The destination names a file of someone else.
    pub foreign: bool,
    /// The temporary file holds all bytes.
    pub complete: bool,
}

/// An action went as the file system lets it: a taken destination cannot be
/// linked, and a free one is not reported as taken.
pub open spec fn honest(names: Names, action: CreateAction, event: CreateEvent) -> bool {
    action == CreateAction::Link ==> {
        &&& event == CreateEvent::Done ==> !names.foreign
        &&& event == CreateEvent::Taken ==> names.foreign
    }
}

/// What stands under the two names after an action went so.
pub open spec fn performed(names: Names, action: CreateAction, event: CreateEvent) -> Names {
    if event != CreateEvent::Done {
        names
    } else {
        match action {
            CreateAction::Allocate => Names { temporary: true, complete: false, ..names },
            CreateAction::Write => Names { complete: true, ..names },
            CreateAction::Link => Names { owned: true, ..names },
            CreateAction::RemoveTemporary => Names { temporary: false, ..names },
            CreateAction::SyncParent => names,
            CreateAction::Discard => Names { temporary: false, ..names },
        }
    }
}

/// The destination was linked before the creation came here.
pub open spec fn linked(stage: CreateStage) -> bool {
    match stage {
        CreateStage::Forward { action } => action == CreateAction::RemoveTemporary || action
            == CreateAction::SyncParent,
        CreateStage::Discarding { fault } => after_link(fault),
        CreateStage::Failed { fault } => after_link(fault),
        CreateStage::Created => true,
        _ => false,
    }
}

/// The step that failed comes after the destination was linked.
pub open spec fn after_link(fault: CreateFault) -> bool {
    fault == CreateFault::Io(CreateAction::RemoveTemporary) || fault == CreateFault::Io(
        CreateAction::SyncParent,
    )
}

/// What stands under the two names while a creation stands here.
pub open spec fn consistent(stage: CreateStage, names: Names) -> bool {
    &&& names.owned == linked(stage)
    &&& names.owned ==> !names.foreign && names.complete
    &&& match stage {
        CreateStage::Allocating { tried } => !names.temporary && tried < TEMPORARY_CREATE_ATTEMPTS,
        CreateStage::Forward { action } => match action {
            CreateAction::Write => names.temporary,
            CreateAction::Link => names.temporary && names.complete,
            CreateAction::RemoveTemporary => true,
            CreateAction::SyncParent => !names.temporary,
            _ => false,
        },
        CreateStage::Discarding { fault } => fault != CreateFault::NoTemporaryName && (fault
            == CreateFault::AlreadyExists ==> names.foreign),
        CreateStage::Created => !names.temporary,
        CreateStage::Failed { fault } => fault == CreateFault::AlreadyExists ==> names.foreign,
    }
}

/// Whatever happens on the way, a creation that is over has left the complete
/// file under the destination and nothing under the temporary name, or has
/// failed; it owns the destination only where it linked it, and a destination of
/// someone else stays what it is and is reported as such.
pub proof fn law_creation_is_all_or_nothing(stage: CreateStage, names: Names, event: CreateEvent)
    requires
        consistent(stage, names),
        due(stage) is Some,
        honest(names, due(stage)->0, event),
    ensures
        consistent(next(stage, event), performed(names, due(stage)->0, event)),
        performed(names, due(stage)->0, event).foreign == names.foreign,
{
}

/// A creation that failed after a temporary file was made removes it, unless the
/// removal fails.
pub proof fn law_failure_discards_the_temporary(
    stage: CreateStage,
    names: Names,
    event: CreateEvent,
)
    requires
        consistent(stage, names),
        due(stage) is Some,
        next(stage, event) is Failed,
    ensures
        performed(names, due(stage)->0, event).temporary ==> stage is Discarding && event
            != CreateEvent::Done,
{
}

/// How many steps a creation can still take.
pub open spec fn steps_left(stage: CreateStage) -> int {
    match stage {
        CreateStage::Allocating { tried } => TEMPORARY_CREATE_ATTEMPTS - tried + 5,
        CreateStage::Forward { action } => match action {
            CreateAction::Write => 5,
            CreateAction::Link => 4,
            CreateAction::RemoveTemporary => 3,
            _ => 2,
        },
        CreateStage::Discarding { .. } => 1,
        _ => 0,
    }
}

/// A creation ends.
pub proof fn law_creation_ends(stage: CreateStage, names: Names, event: CreateEvent)
    requires
        consistent(stage, names),
        due(stage) is Some,
    ensures
        0 <= steps_left(next(stage, event)) < steps_left(stage),
{
}

} // verus!
