//! Progress of long commands.

use vstd::prelude::*;

use crate::bench::measure::Quantity;
use crate::ratio::Ratio;
use crate::store::lazy;

verus! {

/// The schema of progress events.
pub const PROGRESS_SCHEMA_VERSION: u32 = 1;

/// How often progress is told.
#[derive(Debug)]
pub struct Progress {
    every: usize,
}

/// One report on the progress of a command.
#[derive(Debug, Clone, Copy, PartialEq, Eq)]
pub struct ProgressEvent {
    /// The schema of the event.
    pub schema_version: u32,
    /// What the command is doing.
    pub phase: &'static str,
    /// Units that are done.
    pub completed: u64,
    /// Units in all, where they are known.
    pub total: Option<u64>,
    /// The time since the command began.
    pub elapsed: Quantity,
    /// Units done per second.
    pub rate: Quantity,
    /// Whether this is the last report on the phase.
    pub final_event: bool,
    /// Candidates found so far.
    pub candidates: Option<u64>,
    /// The share of the possible candidates.
    pub candidate_rate: Option<Ratio>,
}

impl Progress {
    /// The number of units between two reports.
    pub closed spec fn interval(&self) -> usize {
        self.every
    }

    /// Tell progress after every so many units; nothing comes back for an
    /// interval of zero.
    pub fn new(every: usize) -> (progress: Option<Progress>)
        ensures
            match progress {
                Some(progress) => every > 0 && progress.interval() == every,
                None => every == 0,
            },
    {
        if every == 0 {
            None
        } else {
            Some(Progress { every })
        }
    }

    /// Whether progress is to be told after so many units.
    pub fn is_due(&self, completed: usize) -> (due: bool)
        requires
            self.interval() > 0,
        ensures
            due == (completed > 0 && completed % self.interval() == 0),
    {
        completed > 0 && completed % self.every == 0
    }

    /// A report after so many nanoseconds.
    pub fn event(
        &self,
        phase: &'static str,
        completed: usize,
        total: Option<usize>,
        elapsed_nanos: u128,
        final_event: bool,
        candidates: Option<u64>,
        candidate_rate: Option<Ratio>,
    ) -> (event: ProgressEvent)
        ensures
            event == (ProgressEvent {
                schema_version: PROGRESS_SCHEMA_VERSION,
                phase,
                completed: completed as u64,
                total: match total {
                    Some(total) => Some(total as u64),
                    None => None,
                },
                elapsed: Quantity::Millis { nanos: elapsed_nanos },
                rate: Quantity::PerSecond { count: completed as u64, nanos: elapsed_nanos },
                final_event,
                candidates,
                candidate_rate,
            }),
    {
        ProgressEvent {
            schema_version: PROGRESS_SCHEMA_VERSION,
            phase,
            completed: completed as u64,
            total: match total {
                Some(total) => Some(total as u64),
                None => None,
            },
            elapsed: Quantity::Millis { nanos: elapsed_nanos },
            rate: Quantity::PerSecond { count: completed as u64, nanos: elapsed_nanos },
            final_event,
            candidates,
            candidate_rate,
        }
    }
}

/// The share of the possible candidates that queries of an index have found.
pub fn candidate_rate(candidates: u64, queries: usize, items: usize) -> (rate: Ratio)
    ensures
        rate == Ratio::of(candidates, lazy::clamped_product(queries, items) as u64),
{
    let possible: usize = match queries.checked_mul(items) {
        Some(possible) => possible,
        None => usize::MAX,
    };
    Ratio::new(candidates, possible as u64)
}

/// A budget in bytes, where it can be told.
pub fn budget_bytes(mebibytes: u64) -> (bytes: Option<u64>)
    ensures
        bytes == (if mebibytes * 1_048_576 > u64::MAX {
            None
        } else {
            Some((mebibytes * 1_048_576) as u64)
        }),
{
    mebibytes.checked_mul(1_048_576)
}

/// Why options of the deduplication command cannot be used.
#[derive(Debug, Clone, Copy, PartialEq, Eq, Structural)]
pub enum DedupOptionError {
    /// A group would have no member.
    MinSize,
    /// A batch would hold no record.
    BatchSize,
}

/// Check the options of the deduplication command.
pub fn validate_dedup(min_size: usize, batch_size: usize) -> (result: Result<(), DedupOptionError>)
    ensures
        result == (if min_size == 0 {
            Err::<(), DedupOptionError>(DedupOptionError::MinSize)
        } else if batch_size == 0 {
            Err(DedupOptionError::BatchSize)
        } else {
            Ok(())
        }),
{
    if min_size == 0 {
        return Err(DedupOptionError::MinSize);
    }
    if batch_size == 0 {
        return Err(DedupOptionError::BatchSize);
    }
    Ok(())
}

} // verus!
