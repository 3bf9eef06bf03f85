//! Publishing a finished file under its final name.
//!
//! A file is written under a staged name, linked to its final name without
//! replacing anything, and removed under the staged name. Whatever fails on the
//! way, the staged files are removed, and the final name is given up again if it
//! still names the published file.
//!
//! A [`Publication`] tells which action comes next and takes in how it went;
//! performing the actions is left to its owner.

use vstd::prelude::*;

verus! {

/// One action on the file system.
#[derive(Debug, Clone, Copy, PartialEq, Eq, Structural)]
pub enum Action {
    /// Take note of the identity of the staged file.
    IdentifyStaged,
    /// Link the staged file to the final name, which must be free.
    Link,
    /// Remove the staged name.
    RemoveStaged,
    /// Remove the temporary companion of the staged file, if there is one.
    RemoveCompanion,
    /// Make the final name durable.
    SyncParent,
    /// Compare the identity of what the final name names with the staged file.
    IdentifyFinal,
    /// Remove the final name.
    RemoveFinal,
    /// Make the removal of the final name durable.
    SyncRollback,
    /// Remove the staged name, if it is there.
    CleanStaged,
    /// Remove the temporary companion, if it is there.
    CleanCompanion,
}

/// How an action went.
#[derive(Debug, Clone, Copy, PartialEq, Eq, Structural)]
pub enum Event {
    /// It succeeded. Of a comparison: the identities are the same.
    Done,
    /// It failed.
    Failed,
    /// The final name names nothing.
    Absent,
    /// The final name names another file.
    Different,
}

/// The first step that failed.
#[derive(Debug, Clone, Copy, PartialEq, Eq, Structural)]
pub enum Fault {
    /// The staged file could not be identified.
    Identify,
    /// The final name could not be linked.
    Link,
    /// The staged name could not be removed.
    Staged,
    /// The companion could not be removed.
    Companion,
    /// The directory could not be made durable.
    Sync,
}

/// Where a publication stands.
#[derive(Debug, Clone, Copy, PartialEq, Eq, Structural)]
pub enum Stage {
    /// An action is to be performed on the way to the final name.
    Forward {
        /// The action.
        action: Action,
    },
    /// An action is to be performed on the way back.
    Backward {
        /// The action.
        action: Action,
        /// Why the publication failed.
        fault: Fault,
        /// The final name could not be given up.
        rollback_failed: bool,
        /// A staged file could not be removed.
        cleanup_failed: bool,
    },
    /// The file has its final name.
    Published,
    /// The publication failed.
    Failed {
        /// Why it failed.
        fault: Fault,
        /// The final name could not be given up.
        rollback_failed: bool,
        /// A staged file could not be removed.
        cleanup_failed: bool,
    },
}

/// The way back from a step that failed. Before the final name was linked there
/// is nothing to give up.
pub open spec fn way_back(fault: Fault) -> Stage {
    Stage::Backward {
        action: match fault {
            Fault::Identify => Action::CleanStaged,
            Fault::Link => Action::CleanStaged,
            _ => Action::IdentifyFinal,
        },
        fault,
        rollback_failed: false,
        cleanup_failed: false,
    }
}

/// Where a publication stands after an action went so.
pub open spec fn next(stage: Stage, event: Event) -> Stage {
    match stage {
        Stage::Forward { action } => match action {
            Action::IdentifyStaged => if event == Event::Done {
                Stage::Forward { action: Action::Link }
            } else {
                way_back(Fault::Identify)
            },
            Action::Link => if event == Event::Done {
                Stage::Forward { action: Action::RemoveStaged }
            } else {
                way_back(Fault::Link)
            },
            Action::RemoveStaged => if event == Event::Done {
                Stage::Forward { action: Action::RemoveCompanion }
            } else {
                way_back(Fault::Staged)
            },
            Action::RemoveCompanion => if event == Event::Done {
                Stage::Forward { action: Action::SyncParent }
            } else {
                way_back(Fault::Companion)
            },
            _ => if event == Event::Done {
                Stage::Published
            } else {
                way_back(Fault::Sync)
            },
        },
        Stage::Backward { action, fault, rollback_failed, cleanup_failed } => match action {
            Action::IdentifyFinal => match event {
                Event::Done => Stage::Backward {
                    action: Action::RemoveFinal,
                    fault,
                    rollback_failed,
                    cleanup_failed,
                },
                Event::Failed => Stage::Backward {
                    action: Action::CleanStaged,
                    fault,
                    rollback_failed: true,
                    cleanup_failed,
                },
                _ => Stage::Backward {
                    action: Action::CleanStaged,
                    fault,
                    rollback_failed,
                    cleanup_failed,
                },
            },
            Action::RemoveFinal => if event == Event::Done {
                Stage::Backward {
                    action: Action::SyncRollback,
                    fault,
                    rollback_failed,
                    cleanup_failed,
                }
            } else {
                Stage::Backward {
                    action: Action::CleanStaged,
                    fault,
                    rollback_failed: true,
                    cleanup_failed,
                }
            },
            Action::SyncRollback => Stage::Backward {
                action: Action::CleanStaged,
                fault,
                rollback_failed: event != Event::Done,
                cleanup_failed,
            },
            Action::CleanStaged => Stage::Backward {
                action: Action::CleanCompanion,
                fault,
                rollback_failed,
                cleanup_failed: event != Event::Done,
            },
            _ => Stage::Failed {
                fault,
                rollback_failed,
                cleanup_failed: cleanup_failed || event != Event::Done,
            },
        },
        _ => stage,
    }
}

/// A publication under way.
#[derive(Debug)]
pub struct Publication {
    stage: Stage,
}

impl Publication {
    /// Where the publication stands.
    pub closed spec fn at(&self) -> Stage {
        self.stage
    }

    /// A publication that has not begun.
    pub fn begin() -> (publication: Publication)
        ensures
            publication.at() == (Stage::Forward { action: Action::IdentifyStaged }),
    {
        Publication { stage: Stage::Forward { action: Action::IdentifyStaged } }
    }

    /// Where the publication stands.
    pub fn stage(&self) -> (stage: Stage)
        ensures
            stage == self.at(),
    {
        self.stage
    }

    /// The action that comes next, if the publication is not over.
    pub fn action(&self) -> (action: Option<Action>)
        ensures
            action == (match self.at() {
                Stage::Forward { action } => Some(action),
                Stage::Backward { action, .. } => Some(action),
                _ => None,
            }),
    {
        match self.stage {
            Stage::Forward { action } => Some(action),
            Stage::Backward { action, .. } => Some(action),
            _ => None,
        }
    }

    /// Take in how the action went.
    pub fn advance(&mut self, event: Event)
        ensures
            final(self).at() == next(old(self).at(), event),
    {
        let done = event == Event::Done;
        self.stage =
        match self.stage {
            Stage::Forward { action } => {
                let (onward, fault) = match action {
                    Action::IdentifyStaged => (Action::Link, Fault::Identify),
                    Action::Link => (Action::RemoveStaged, Fault::Link),
                    Action::RemoveStaged => (Action::RemoveCompanion, Fault::Staged),
                    Action::RemoveCompanion => (Action::SyncParent, Fault::Companion),
                    _ => {
                        if done {
                            self.stage = Stage::Published;
                            return ;
                        }
                        (Action::SyncParent, Fault::Sync)
                    },
                };
                if done {
                    Stage::Forward { action: onward }
                } else {
                    let action = match fault {
                        Fault::Identify => Action::CleanStaged,
                        Fault::Link => Action::CleanStaged,
                        _ => Action::IdentifyFinal,
                    };
                    Stage::Backward {
                        action,
                        fault,
                        rollback_failed: false,
                        cleanup_failed: false,
                    }
                }
            },
            Stage::Backward { action, fault, rollback_failed, cleanup_failed } => match action {
                Action::IdentifyFinal => Stage::Backward {
                    action: if done {
                        Action::RemoveFinal
                    } else {
                        Action::CleanStaged
                    },
                    fault,
                    rollback_failed: rollback_failed || event == Event::Failed,
                    cleanup_failed,
                },
                Action::RemoveFinal => Stage::Backward {
                    action: if done {
                        Action::SyncRollback
                    } else {
                        Action::CleanStaged
                    },
                    fault,
                    rollback_failed: rollback_failed || !done,
                    cleanup_failed,
                },
                Action::SyncRollback => Stage::Backward {
                    action: Action::CleanStaged,
                    fault,
                    rollback_failed: !done,
                    cleanup_failed,
                },
                Action::CleanStaged => Stage::Backward {
                    action: Action::CleanCompanion,
                    fault,
                    rollback_failed,
                    cleanup_failed: !done,
                },
                _ => Stage::Failed {
                    fault,
                    rollback_failed,
                    cleanup_failed: cleanup_failed || !done,
                },
            },
            _ => self.stage,
        };
    }
}

/// What a name names.
pub enum Named {
    /// Nothing.
    Nothing,
    /// The file that is being published.
    Own,
    /// Another file.
    Other,
}

/// The names that a publication is about.
pub struct World {
    /// The final name.
    pub published: Named,
    /// The staged name names the file.
    pub staged: bool,
    /// The temporary companion is there.
    pub companion: bool,
}

/// The event tells truly how the action went in this world.
pub open spec fn honest(world: World, action: Action, event: Event) -> bool {
    match action {
        Action::Link => event == Event::Done ==> world.published is Nothing && world.staged,
        Action::IdentifyFinal => match event {
            Event::Done => world.published is Own,
            Event::Absent => world.published is Nothing,
            Event::Different => world.published is Other,
            Event::Failed => true,
        },
        _ => true,
    }
}

/// The world after an action that went so. An action that fails changes
/// nothing.
pub open spec fn performed(world: World, action: Action, event: Event) -> World {
    if event != Event::Done {
        world
    } else {
        match action {
            Action::Link => World { published: Named::Own, ..world },
            Action::RemoveStaged => World { staged: false, ..world },
            Action::CleanStaged => World { staged: false, ..world },
            Action::RemoveCompanion => World { companion: false, ..world },
            Action::CleanCompanion => World { companion: false, ..world },
            Action::RemoveFinal => World { published: Named::Nothing, ..world },
            _ => world,
        }
    }
}

/// What holds wherever a publication stands, as long as nobody else touches the
/// names.
pub open spec fn consistent(stage: Stage, world: World) -> bool {
    match stage {
        Stage::Forward { action } => match action {
            Action::IdentifyStaged => !(world.published is Own),
            Action::Link => !(world.published is Own),
            Action::RemoveStaged => world.published is Own,
            Action::RemoveCompanion => world.published is Own && !world.staged,
            Action::SyncParent => world.published is Own && !world.staged && !world.companion,
            _ => false,
        },
        Stage::Backward { action, fault, rollback_failed, cleanup_failed } => match action {
            Action::IdentifyFinal => world.published is Own && !rollback_failed && !cleanup_failed
                && !(fault is Identify || fault is Link),
            Action::RemoveFinal => world.published is Own && !rollback_failed && !cleanup_failed
                && !(fault is Identify || fault is Link),
            Action::SyncRollback => world.published is Nothing && !cleanup_failed,
            Action::CleanStaged => (rollback_failed || !(world.published is Own))
                && !cleanup_failed,
            Action::CleanCompanion => (rollback_failed || !(world.published is Own)) && (
            cleanup_failed || !world.staged),
            _ => false,
        },
        Stage::Published => world.published is Own && !world.staged && !world.companion,
        Stage::Failed { fault, rollback_failed, cleanup_failed } => (rollback_failed || !(
        world.published is Own)) && (cleanup_failed || (!world.staged && !world.companion)),
    }
}

/// The action that comes next.
pub open spec fn due(stage: Stage) -> Action {
    match stage {
        Stage::Forward { action } => action,
        Stage::Backward { action, .. } => action,
        _ => Action::IdentifyStaged,
    }
}

/// Wherever a publication stands, performing the action that comes next keeps
/// the names consistent with it. A publication that is over has published the
/// file and left nothing staged, or has failed and left neither the file under
/// the final name, unless giving it up failed, nor anything staged, unless
/// removing it failed.
pub proof fn law_publication_is_all_or_nothing(stage: Stage, world: World, event: Event)
    requires
        consistent(stage, world),
        stage is Forward || stage is Backward,
        honest(world, due(stage), event),
    ensures
        consistent(next(stage, event), performed(world, due(stage), event)),
{
}

/// A final name that names another file is never removed: only a comparison
/// that found the publication's own file leads to its removal.
pub proof fn law_replacement_is_preserved(stage: Stage, event: Event)
    requires
        due(next(stage, event)) == Action::RemoveFinal,
        next(stage, event) is Backward,
        !(stage is Backward && due(stage) == Action::RemoveFinal),
    ensures
        stage is Backward,
        due(stage) == Action::IdentifyFinal,
        event == Event::Done,
{
}

/// How many steps a publication can still take.
pub open spec fn steps_left(stage: Stage) -> nat {
    match stage {
        Stage::Forward { action } => match action {
            Action::IdentifyStaged => 11,
            Action::Link => 10,
            Action::RemoveStaged => 9,
            Action::RemoveCompanion => 8,
            _ => 7,
        },
        Stage::Backward { action, .. } => match action {
            Action::IdentifyFinal => 6,
            Action::RemoveFinal => 5,
            Action::SyncRollback => 4,
            Action::CleanStaged => 3,
            _ => 2,
        },
        _ => 0,
    }
}

/// A publication ends.
pub proof fn law_publication_ends(stage: Stage, event: Event)
    requires
        stage is Forward || stage is Backward,
    ensures
        steps_left(next(stage, event)) < steps_left(stage),
{
}

} // verus!
