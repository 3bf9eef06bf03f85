//! Filling an index batch by batch.

use vstd::prelude::*;

use crate::index::lsh;
use crate::index::lsh::{LshIndex32, LshState};
use crate::index::params::LshError;
use crate::sketch::minhash32::{MinHash32, Sketch32};

verus! {

/// What a session has taken in.
#[verifier::ext_equal]
pub struct SessionState {
    /// The index, with the batches that are complete.
    pub index: LshState,
    /// The records that wait for the next batch.
    pub pending: Seq<(u64, Sketch32)>,
    /// The records of complete batches.
    pub completed: usize,
}

/// Records on their way into an index, which takes them in batches.
#[derive(Debug)]
pub struct IndexSession {
    index: LshIndex32,
    pending: Vec<(u64, MinHash32)>,
    batch_size: usize,
    completed: usize,
}

/// What records hold.
pub open spec fn record_views(records: Seq<(u64, MinHash32)>) -> Seq<(u64, Sketch32)> {
    Seq::new(records.len(), |i: int| (records[i].0, records[i].1@))
}

/// The number of completed records, as far as a `usize` can tell.
pub open spec fn raised(completed: usize, more: nat) -> usize {
    if completed + more > usize::MAX {
        usize::MAX
    } else {
        (completed + more) as usize
    }
}

impl SessionState {
    /// The state once the waiting records are in the index.
    pub open spec fn committed(self) -> SessionState {
        SessionState {
            index: self.index.with_batch(self.pending),
            pending: Seq::empty(),
            completed: raised(self.completed, self.pending.len()),
        }
    }

    /// The state with one more record waiting.
    pub open spec fn with(self, key: u64, sketch: Sketch32) -> SessionState {
        SessionState { pending: self.pending.push((key, sketch)), ..self }
    }

    /// All records that were taken in are in the index or wait.
    pub open spec fn holds(self, start: LshState, records: Seq<(u64, Sketch32)>) -> bool {
        self.index.with_batch(self.pending) == start.with_batch(records)
    }
}

impl View for IndexSession {
    type V = SessionState;

    closed spec fn view(&self) -> SessionState {
        SessionState {
            index: self.index@,
            pending: record_views(self.pending@),
            completed: self.completed,
        }
    }
}

impl IndexSession {
    /// How many records make a batch.
    pub closed spec fn size(&self) -> usize {
        self.batch_size
    }

    /// The index is well-formed, and fewer records wait than make a batch.
    pub closed spec fn wf(&self) -> bool {
        self.index.wf() && self.pending@.len() < self.batch_size
    }

    /// A session that fills an index; nothing comes back where a batch would
    /// hold no record.
    pub fn new(index: LshIndex32, batch_size: usize) -> (session: Option<IndexSession>)
        requires
            index.wf(),
        ensures
            match session {
                Some(session) => batch_size > 0 && session.wf() && session.size() == batch_size
                    && session@ == (SessionState {
                    index: index@,
                    pending: Seq::empty(),
                    completed: 0,
                }),
                None => batch_size == 0,
            },
    {
        if batch_size == 0 {
            return None;
        }
        let session = IndexSession { index, pending: Vec::new(), batch_size, completed: 0 };
        assert(session@.pending =~= Seq::empty());
        Some(session)
    }

    /// Put the waiting records into the index.
    fn commit(&mut self) -> (result: Result<(), LshError>)
        requires
            old(self).index.wf(),
            old(self).pending@.len() <= old(self).batch_size,
            old(self).batch_size > 0,
        ensures
            final(self).size() == old(self).size(),
            final(self).index.wf(),
            match old(self)@.index.batch_error(old(self)@.pending) {
                Some(error) => result == Err::<(), LshError>(error) && final(self)@ == old(self)@,
                None => result is Ok && final(self).wf() && final(self)@ == old(self)@.committed(),
            },
    {
        let mut items: Vec<(u64, &MinHash32)> = Vec::new();
        let mut index: usize = 0;
        while index < self.pending.len()
            invariant
                index <= self.pending@.len(),
                *self == *old(self),
                items@.len() == index,
                forall|i: int|
                    0 <= i < index ==> (#[trigger] items@[i]).0 == self.pending@[i].0
                        && items@[i].1@ == self.pending@[i].1@,
            decreases self.pending@.len() - index,
        {
            items.push((self.pending[index].0, &self.pending[index].1));
            index = index + 1;
        }
        assert(lsh::batch_of(items@) =~= record_views(self.pending@));
        match self.index.insert_many(items.as_slice()) {
            Ok(()) => {},
            Err(error) => {
                return Err(error);
            },
        }
        self.completed = self.completed.saturating_add(self.pending.len());
        self.pending = Vec::new();
        assert(record_views(self.pending@) =~= Seq::empty());
        Ok(())
    }

    /// Take a record in. A batch that is full goes into the index, and the
    /// number of records of complete batches comes back.
    pub fn push(&mut self, key: u64, sketch: MinHash32) -> (result: Result<
        Option<usize>,
        LshError,
    >)
        requires
            old(self).wf(),
        ensures
            final(self).size() == old(self).size(),
            ({
                let taken = old(self)@.with(key, sketch@);
                if taken.pending.len() < old(self).size() {
                    result == Ok::<Option<usize>, LshError>(None) && final(self).wf() && final(self)@ == taken
                } else {
                    match taken.index.batch_error(taken.pending) {
                        Some(error) => result == Err::<Option<usize>, LshError>(error) && final(self)@ == taken,
                        None => result == Ok::<Option<usize>, LshError>(
                            Some(taken.committed().completed),
                        ) && final(self).wf() && final(self)@ == taken.committed(),
                    }
                }
            }),
    {
        self.pending.push((key, sketch));
        assert(self@ =~= old(self)@.with(key, sketch@));
        if self.pending.len() < self.batch_size {
            return Ok(None);
        }
        match self.commit() {
            Ok(()) => Ok(Some(self.completed)),
            Err(error) => Err(error),
        }
    }

    /// Put the remaining records into the index, which comes back with the
    /// number of its records.
    pub fn finish(self) -> (result: Result<(LshIndex32, usize), LshError>)
        requires
            self.wf(),
        ensures
            match self@.index.batch_error(self@.pending) {
                Some(error) => self@.pending.len() > 0 && result == Err::<
                    (LshIndex32, usize),
                    LshError,
                >(error),
                None => {
                    &&& result matches Ok(filled)
                    &&& filled.0.wf()
                    &&& filled.0@ == self@.committed().index
                    &&& filled.1 == self@.committed().completed
                },
            },
    {
        let mut session = self;
        proof {
            session.index.lemma_wf();
        }
        if session.pending.len() > 0 {
            match session.commit() {
                Ok(()) => {},
                Err(error) => {
                    return Err(error);
                },
            }
        } else {
            assert(session@.pending =~= Seq::empty());
        }
        Ok((session.index, session.completed))
    }
}

/// Committing changes nothing of what the index and the waiting records hold
/// together, and a record that is taken in is added to it.
pub proof fn law_batches_add_up(
    state: SessionState,
    start: LshState,
    records: Seq<(u64, Sketch32)>,
    key: u64,
    sketch: Sketch32,
)
    requires
        state.holds(start, records),
    ensures
        state.committed().holds(start, records),
        state.with(key, sketch).holds(start, records.push((key, sketch))),
{
    assert(state.committed().index.with_batch(Seq::empty()) == state.committed().index);
    let taken = state.pending.push((key, sketch));
    let grown = records.push((key, sketch));
    assert(taken.drop_last() =~= state.pending);
    assert(grown.drop_last() =~= records);
    state.index.lemma_with_batch_frame(state.pending);
    start.lemma_with_batch_frame(records);
}

/// A commit inserts everything that is pending and counts it, as far as the count fits.
pub proof fn law_commits_take_everything(state: SessionState)
    ensures
        state.committed().index == state.index.with_batch(state.pending),
        state.committed().pending.len() == 0,
        state.completed + state.pending.len() <= usize::MAX ==> state.committed().completed
            == state.completed + state.pending.len(),
{
}

/// A record that is taken waits behind those that came before it.
pub proof fn law_records_wait_in_order(state: SessionState, key: u64, sketch: Sketch32)
    ensures
        state.with(key, sketch).pending == state.pending.push((key, sketch)),
        state.with(key, sketch).index == state.index,
        state.with(key, sketch).completed == state.completed,
{
}

/// Every record of a session counts, in the order of the records.
pub proof fn law_every_record_counts(records: Seq<(u64, MinHash32)>)
    ensures
        record_views(records).len() == records.len(),
        forall|i: int| 0 <= i < records.len() ==> #[trigger] record_views(records)[i] == (records[i].0, records[i].1@),
{
}

} // verus!
