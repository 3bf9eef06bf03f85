//! Ordering memberships with a bounded buffer.
//!
//! Memberships are collected in a buffer of bounded size. A full buffer becomes
//! a sorted run, and the runs are merged by taking the smallest of their first
//! records again and again.

use vstd::multiset::Multiset;
use vstd::prelude::*;

use crate::format::buckets;
use crate::format::buckets::{BucketKey, BucketWriteRecord};
use crate::format::checksum;
use crate::le;
use crate::store::membership;

verus! {

/// The size of a spilled record in bytes.
pub const SPILL_RECORD_BYTES: usize = 20;

/// The encoded form of a spilled record.
pub open spec fn record_bytes(record: (u32, u64, u64)) -> Seq<u8> {
    le::bytes(record.0 as nat, 4) + le::bytes(record.1 as nat, 8) + le::bytes(record.2 as nat, 8)
}

/// The record that is encoded at the front of `data`.
pub open spec fn record_at(data: Seq<u8>) -> (u32, u64, u64) {
    (le::u32_at(data, 0), le::u64_at(data, 4), le::u64_at(data, 12))
}

/// Append the encoded form of a spilled record.
pub fn push_record(out: &mut Vec<u8>, record: (u32, u64, u64))
    ensures
        final(out)@ == old(out)@ + record_bytes(record),
{
    let ghost before = out@;
    le::push_u32(out, record.0);
    le::push_u64(out, record.1);
    le::push_u64(out, record.2);
    assert(out@ =~= before + record_bytes(record));
}

/// Decode a spilled record.
pub fn read_record(data: &[u8]) -> (record: (u32, u64, u64))
    requires
        data@.len() == SPILL_RECORD_BYTES,
    ensures
        record == record_at(data@),
{
    (le::read_u32(data, 0), le::read_u64(data, 4), le::read_u64(data, 12))
}

/// Decoding an encoded record gives the record back.
pub proof fn law_record_round_trip(record: (u32, u64, u64))
    ensures
        record_bytes(record).len() == SPILL_RECORD_BYTES,
        record_at(record_bytes(record)) == record,
{
    broadcast use le::lemma_bytes_len;

    let data = record_bytes(record);
    le::lemma_pow256_values();
    le::lemma_value_of_bytes(record.0 as nat, 4);
    le::lemma_value_of_bytes(record.1 as nat, 8);
    le::lemma_value_of_bytes(record.2 as nat, 8);
    assert(data.subrange(0, 4) =~= le::bytes(record.0 as nat, 4));
    assert(data.subrange(4, 12) =~= le::bytes(record.1 as nat, 8));
    assert(data.subrange(12, 20) =~= le::bytes(record.2 as nat, 8));
}

/// What each of the runs holds.
pub open spec fn run_views(runs: Seq<Vec<(u32, u64, u64)>>) -> Seq<Seq<(u32, u64, u64)>> {
    Seq::new(runs.len(), |i: int| runs[i]@)
}

/// The records of all runs together.
pub open spec fn pooled(runs: Seq<Seq<(u32, u64, u64)>>) -> Multiset<(u32, u64, u64)>
    decreases runs.len(),
{
    if runs.len() == 0 {
        Multiset::empty()
    } else {
        pooled(runs.drop_last()).add(runs.last().to_multiset())
    }
}

/// Every run is in order.
pub open spec fn all_arranged(runs: Seq<Seq<(u32, u64, u64)>>) -> bool {
    forall|i: int| 0 <= i < runs.len() ==> membership::arranged(#[trigger] runs[i])
}

/// A buffer for records that becomes a run when it is full.
pub struct SpillBuffer {
    limit: usize,
    records: Vec<(u32, u64, u64)>,
}

impl View for SpillBuffer {
    type V = Seq<(u32, u64, u64)>;

    closed spec fn view(&self) -> Seq<(u32, u64, u64)> {
        self.records@
    }
}

impl SpillBuffer {
    /// How many records make a run.
    pub closed spec fn limit(&self) -> usize {
        self.limit
    }

    /// The buffer is not full.
    pub open spec fn wf(&self) -> bool {
        self@.len() < self.limit()
    }

    /// An empty buffer for runs of `limit` records.
    pub fn new(limit: usize) -> (buffer: SpillBuffer)
        requires
            limit > 0,
        ensures
            buffer.wf(),
            buffer.limit() == limit,
            buffer@ == Seq::<(u32, u64, u64)>::empty(),
    {
        SpillBuffer { limit, records: Vec::new() }
    }

    /// Add a record. If this fills the buffer, the buffer is emptied and its
    /// records are returned in order.
    pub fn push(&mut self, record: (u32, u64, u64)) -> (run: Option<Vec<(u32, u64, u64)>>)
        requires
            old(self).wf(),
        ensures
            final(self).wf(),
            final(self).limit() == old(self).limit(),
            if old(self)@.len() + 1 == old(self).limit() {
                &&& run matches Some(run) && membership::is_arrangement(
                    run@,
                    old(self)@.push(record),
                )
                &&& final(self)@ == Seq::<(u32, u64, u64)>::empty()
            } else {
                run is None && final(self)@ == old(self)@.push(record)
            },
    {
        self.records.push(record);
        if self.records.len() == self.limit {
            let mut run: Vec<(u32, u64, u64)> = Vec::new();
            std::mem::swap(&mut run, &mut self.records);
            membership::sort(&mut run);
            Some(run)
        } else {
            None
        }
    }

    /// Return the records that are left, in order, if there are any.
    pub fn finish(self) -> (run: Option<Vec<(u32, u64, u64)>>)
        ensures
            match run {
                Some(run) => self@.len() > 0 && membership::is_arrangement(run@, self@),
                None => self@.len() == 0,
            },
    {
        if self.records.len() == 0 {
            return None;
        }
        let mut run = self.records;
        membership::sort(&mut run);
        Some(run)
    }
}

/// How many runs of at most `limit` records hold `count` records.
pub open spec fn run_count(count: nat, limit: nat) -> nat {
    if count % limit == 0 {
        count / limit
    } else {
        count / limit + 1
    }
}

proof fn lemma_pooled_push(
    runs: Seq<Seq<(u32, u64, u64)>>,
    run: Seq<(u32, u64, u64)>,
)
    ensures
        pooled(runs.push(run)) == pooled(runs).add(run.to_multiset()),
{
    assert(runs.push(run).drop_last() =~= runs);
}

proof fn lemma_nothing()
    ensures
        Seq::<(u32, u64, u64)>::empty().to_multiset() == Multiset::<(u32, u64, u64)>::empty(),
{
    let nothing = Seq::<(u32, u64, u64)>::empty();
    nothing.to_multiset_ensures();
    vstd::multiset::lemma_multiset_empty_len(nothing.to_multiset());
    assert(nothing.to_multiset() =~= Multiset::empty());
}

/// Spill the memberships of items into sorted runs.
pub fn spill_runs(keys: &Vec<u64>, rows: &Vec<Vec<u64>>, limit: usize) -> (runs: Vec<
    Vec<(u32, u64, u64)>,
>)
    requires
        limit > 0,
        keys@.len() == rows@.len(),
        forall|i: int| 0 <= i < rows@.len() ==> (#[trigger] rows@[i])@.len() <= u32::MAX,
    ensures
        all_arranged(run_views(runs@)),
        pooled(run_views(runs@)) == membership::memberships(
            keys@,
            membership::row_views(rows@),
        ).to_multiset(),
        runs@.len() == run_count(
            membership::memberships(keys@, membership::row_views(rows@)).len(),
            limit as nat,
        ),
        forall|i: int| 0 <= i < runs@.len() ==> (#[trigger] runs@[i])@.len() <= limit,
{
    let ghost all_rows = membership::row_views(rows@);
    let mut runs: Vec<Vec<(u32, u64, u64)>> = Vec::new();
    let mut buffer = SpillBuffer::new(limit);
    let ghost mut done: Seq<(u32, u64, u64)> = Seq::empty();
    let mut item: usize = 0;
    proof {
        assert(all_rows.take(0) =~= Seq::empty());
        assert(run_views(runs@) =~= Seq::empty());
        assert(pooled(run_views(runs@)).add(buffer@.to_multiset()) =~= done.to_multiset());
        assert(runs@.len() * limit == 0) by (nonlinear_arith)
            requires
                runs@.len() == 0,
        ;
    }
    while item < rows.len()
        invariant
            item <= rows@.len() == keys@.len(),
            limit > 0,
            all_rows == membership::row_views(rows@),
            forall|i: int| 0 <= i < rows@.len() ==> (#[trigger] rows@[i])@.len() <= u32::MAX,
            done == membership::memberships(keys@, all_rows.take(item as int)),
            spilled(runs@, buffer, done, limit),
        decreases rows@.len() - item,
    {
        let row = &rows[item];
        let key: u64 = keys[item];
        let ghost own = membership::item_memberships(key, row@);
        let ghost before = done;
        proof {
            let longer = all_rows.take(item + 1);
            assert(longer.drop_last() =~= all_rows.take(item as int));
            assert(longer.last() == row@);
            assert(before + own.take(0) =~= before);
        }
        let mut band: usize = 0;
        while band < row.len()
            invariant
                band <= row@.len() <= u32::MAX,
                limit > 0,
                own == membership::item_memberships(key, row@),
                done == before + own.take(band as int),
                spilled(runs@, buffer, done, limit),
            decreases row@.len() - band,
        {
            let record: (u32, u64, u64) = (band as u32, row[band], key);
            proof {
                assert(own.take(band + 1) =~= own.take(band as int).push(record));
                assert(before + own.take(band + 1) =~= done.push(record));
            }
            keep(&mut runs, &mut buffer, record, Ghost(done), limit);
            proof {
                done = done.push(record);
            }
            band = band + 1;
        }
        proof {
            assert(own.take(band as int) =~= own);
        }
        item = item + 1;
    }
    proof {
        assert(all_rows.take(item as int) =~= all_rows);
    }
    let ghost left = buffer@;
    let ghost whole = runs@;
    let ghost pool = pooled(run_views(runs@));
    proof {
        let count = done.len() as int;
        vstd::arithmetic::div_mod::lemma_fundamental_div_mod_converse(
            count,
            limit as int,
            whole.len() as int,
            left.len() as int,
        );
    }
    match buffer.finish() {
        Some(run) => {
            runs.push(run);
            proof {
                assert(run_views(runs@) =~= run_views(whole).push(run@));
                lemma_pooled_push(run_views(whole), run@);
                membership::law_in_order(left);
                run@.to_multiset_ensures();
                left.to_multiset_ensures();
            }
        },
        None => {
            proof {
                lemma_nothing();
                assert(left =~= Seq::empty());
                assert(pool.add(left.to_multiset()) =~= pool);
            }
        },
    }
    runs
}

/// The runs and the buffer hold `done`, and every run is full.
spec fn spilled(
    runs: Seq<Vec<(u32, u64, u64)>>,
    buffer: SpillBuffer,
    done: Seq<(u32, u64, u64)>,
    limit: usize,
) -> bool {
    &&& buffer.wf()
    &&& buffer.limit() == limit
    &&& all_arranged(run_views(runs))
    &&& pooled(run_views(runs)).add(buffer@.to_multiset()) == done.to_multiset()
    &&& runs.len() * limit + buffer@.len() == done.len()
    &&& forall|i: int| 0 <= i < runs.len() ==> (#[trigger] runs[i])@.len() <= limit
}

/// Put a record into the buffer, and the run into the list if this fills it.
fn keep(
    runs: &mut Vec<Vec<(u32, u64, u64)>>,
    buffer: &mut SpillBuffer,
    record: (u32, u64, u64),
    Ghost(done): Ghost<Seq<(u32, u64, u64)>>,
    limit: usize,
)
    requires
        spilled(old(runs)@, *old(buffer), done, limit),
    ensures
        spilled(final(runs)@, *final(buffer), done.push(record), limit),
{
    let ghost before = runs@;
    let ghost held = buffer@;
    proof {
        vstd::seq_lib::to_multiset_build(held, record);
        vstd::seq_lib::to_multiset_build(done, record);
    }
    let run = buffer.push(record);
    match run {
        Some(run) => {
            runs.push(run);
            proof {
                assert(run_views(runs@) =~= run_views(before).push(run@));
                lemma_pooled_push(run_views(before), run@);
                run@.to_multiset_ensures();
                held.push(record).to_multiset_ensures();
                lemma_nothing();
                assert(pooled(run_views(runs@)).add(buffer@.to_multiset()) =~= done.push(
                    record,
                ).to_multiset());
                assert((before.len() + 1) * limit == before.len() * limit + limit)
                    by (nonlinear_arith);
            }
        },
        None => {
            proof {
                assert(pooled(run_views(runs@)).add(buffer@.to_multiset()) =~= done.push(
                    record,
                ).to_multiset());
            }
        },
    }
}

/// Whether a membership comes before another or is equal to it.
pub fn is_before(left: (u32, u64, u64), right: (u32, u64, u64)) -> (result: bool)
    ensures
        result == membership::precedes(left, right),
{
    left.0 < right.0 || (left.0 == right.0 && (left.1 < right.1 || (left.1 == right.1 && left.2
        <= right.2)))
}

/// The run whose first record comes before the first records of all other
/// runs; the first such run where there are several.
pub fn smallest(heads: &Vec<Option<(u32, u64, u64)>>) -> (run: Option<usize>)
    ensures
        match run {
            None => forall|i: int| 0 <= i < heads@.len() ==> #[trigger] heads@[i] is None,
            Some(run) => {
                &&& run < heads@.len()
                &&& heads@[run as int] is Some
                &&& forall|i: int|
                    0 <= i < heads@.len() && (#[trigger] heads@[i]) is Some
                        ==> membership::precedes(heads@[run as int]->0, heads@[i]->0)
                &&& forall|i: int| 0 <= i < run ==> #[trigger] heads@[i] != heads@[run as int]
            },
        },
{
    let mut best: Option<usize> = None;
    let mut index: usize = 0;
    while index < heads.len()
        invariant
            index <= heads@.len(),
            match best {
                None => forall|i: int| 0 <= i < index ==> #[trigger] heads@[i] is None,
                Some(run) => {
                    &&& run < index
                    &&& heads@[run as int] is Some
                    &&& forall|i: int|
                        0 <= i < index && (#[trigger] heads@[i]) is Some ==> membership::precedes(
                            heads@[run as int]->0,
                            heads@[i]->0,
                        )
                    &&& forall|i: int|
                        0 <= i < run ==> #[trigger] heads@[i] != heads@[run as int]
                },
            },
        decreases heads@.len() - index,
    {
        let smaller = match (best, heads[index]) {
            (_, None) => false,
            (None, Some(_)) => true,
            (Some(run), Some(record)) => match heads[run] {
                Some(other) => !is_before(other, record),
                None => false,
            },
        };
        if smaller {
            best = Some(index);
        }
        index = index + 1;
    }
    best
}

/// The records of the runs from these positions on.
spec fn from_positions(runs: Seq<Seq<(u32, u64, u64)>>, at: Seq<usize>) -> Seq<
    Seq<(u32, u64, u64)>,
> {
    Seq::new(runs.len(), |i: int| runs[i].skip(at[i] as int))
}

/// Taking the first record of a run takes it out of the pool.
proof fn lemma_pooled_take(runs: Seq<Seq<(u32, u64, u64)>>, run: int)
    requires
        0 <= run < runs.len(),
        runs[run].len() > 0,
    ensures
        pooled(runs) == pooled(runs.update(run, runs[run].skip(1))).insert(runs[run][0]),
        pooled(runs).len() == pooled(runs.update(run, runs[run].skip(1))).len() + 1,
    decreases runs.len(),
{
    let shorter = runs.update(run, runs[run].skip(1));
    let record = runs[run][0];
    if run < runs.len() - 1 {
        lemma_pooled_take(runs.drop_last(), run);
        assert(runs.drop_last().update(run, runs[run].skip(1)) =~= shorter.drop_last());
        assert(pooled(runs) =~= pooled(shorter).insert(record));
    } else {
        assert(runs.drop_last() =~= shorter.drop_last());
        let list = runs[run];
        list.to_multiset_ensures();
        assert(list.remove(0) =~= list.skip(1));
        assert(list.contains(list[0]));
        assert(list.to_multiset() =~= list.skip(1).to_multiset().insert(record));
        assert(pooled(runs) =~= pooled(shorter).insert(record));
    }
}

proof fn lemma_pooled_nothing(runs: Seq<Seq<(u32, u64, u64)>>)
    requires
        forall|i: int| 0 <= i < runs.len() ==> (#[trigger] runs[i]).len() == 0,
    ensures
        pooled(runs) == Multiset::<(u32, u64, u64)>::empty(),
    decreases runs.len(),
{
    if runs.len() > 0 {
        let front = runs.drop_last();
        assert forall|i: int| 0 <= i < front.len() implies (#[trigger] front[i]).len() == 0 by {
            assert(front[i] == runs[i]);
        }
        lemma_pooled_nothing(front);
        lemma_nothing();
        assert(runs.last() == runs[runs.len() - 1]);
        assert(runs.last() =~= Seq::empty());
        assert(pooled(runs) =~= Multiset::empty());
    }
}

/// The first record of a run, if it has one from this position on.
spec fn head_at(run: Seq<(u32, u64, u64)>, at: usize) -> Option<(u32, u64, u64)> {
    if at < run.len() {
        Some(run[at as int])
    } else {
        None
    }
}

/// Merge sorted runs.
pub fn merge_runs(runs: &Vec<Vec<(u32, u64, u64)>>) -> (merged: Vec<(u32, u64, u64)>)
    requires
        all_arranged(run_views(runs@)),
    ensures
        membership::arranged(merged@),
        merged@.to_multiset() == pooled(run_views(runs@)),
{
    let ghost views = run_views(runs@);
    let mut at: Vec<usize> = Vec::new();
    let mut heads: Vec<Option<(u32, u64, u64)>> = Vec::new();
    let mut index: usize = 0;
    while index < runs.len()
        invariant
            index <= runs@.len(),
            views == run_views(runs@),
            at@.len() == index,
            heads@.len() == index,
            forall|i: int| 0 <= i < index ==> #[trigger] at@[i] == 0,
            forall|i: int| 0 <= i < index ==> #[trigger] heads@[i] == head_at(views[i], 0),
        decreases runs@.len() - index,
    {
        at.push(0);
        heads.push(
            if runs[index].len() > 0 {
                Some(runs[index][0])
            } else {
                None
            },
        );
        index = index + 1;
    }
    let mut merged: Vec<(u32, u64, u64)> = Vec::new();
    proof {
        lemma_nothing();
        assert forall|i: int| 0 <= i < views.len() implies from_positions(views, at@)[i]
            == views[i] by {
            assert(views[i].skip(0) =~= views[i]);
        }
        assert(from_positions(views, at@) =~= views);
        assert(merged@.to_multiset().add(pooled(views)) =~= pooled(views));
    }
    loop
        invariant
            views == run_views(runs@),
            all_arranged(views),
            at@.len() == runs@.len(),
            heads@.len() == runs@.len(),
            forall|i: int| 0 <= i < views.len() ==> #[trigger] at@[i] <= views[i].len(),
            forall|i: int| 0 <= i < views.len() ==> #[trigger] heads@[i] == head_at(views[i], at@[i]),
            membership::arranged(merged@),
            merged@.len() > 0 ==> forall|i: int|
                0 <= i < views.len() && (#[trigger] heads@[i]) is Some ==> membership::precedes(
                    merged@.last(),
                    heads@[i]->0,
                ),
            merged@.to_multiset().add(pooled(from_positions(views, at@))) == pooled(views),
        decreases pooled(from_positions(views, at@)).len(),
    {
        let run: usize = match smallest(&heads) {
            Some(run) => run,
            None => {
                proof {
                    let rest = from_positions(views, at@);
                    assert forall|i: int| 0 <= i < rest.len() implies (
                    #[trigger] rest[i]).len() == 0 by {
                        assert(heads@[i] is None);
                        assert(at@[i] <= views[i].len());
                    }
                    lemma_pooled_nothing(rest);
                    assert(merged@.to_multiset().add(Multiset::empty())
                        =~= merged@.to_multiset());
                }
                return merged;
            },
        };
        let ghost before = merged@;
        let ghost old_at = at@;
        let ghost old_heads = heads@;
        let ghost rest = from_positions(views, old_at);
        let position: usize = at[run];
        let size: usize = runs[run].len();
        let record: (u32, u64, u64) = runs[run][position];
        proof {
            assert(heads@[run as int] == head_at(views[run as int], at@[run as int]));
            assert(rest[run as int][0] == record);
            lemma_pooled_take(rest, run as int);
            vstd::seq_lib::to_multiset_build(before, record);
        }
        merged.push(record);
        at.set(run, position + 1);
        heads.set(
            run,
            if position + 1 < size {
                Some(runs[run][position + 1])
            } else {
                None
            },
        );
        proof {
            let now = from_positions(views, at@);
            assert(now[run as int] =~= rest[run as int].skip(1));
            assert(now =~= rest.update(run as int, rest[run as int].skip(1)));
            assert(merged@.to_multiset().add(pooled(now)) =~= before.to_multiset().add(
                pooled(rest),
            ));
            assert forall|i: int, j: int| 0 <= i < j < merged@.len() implies membership::precedes(
                #[trigger] merged@[i],
                #[trigger] merged@[j],
            ) by {
                if j == before.len() {
                    assert(membership::precedes(before.last(), old_heads[run as int]->0));
                    if i < before.len() - 1 {
                        assert(membership::precedes(before[i], before[before.len() - 1]));
                    }
                }
            }
            assert forall|i: int|
                0 <= i < views.len() && (#[trigger] heads@[i]) is Some implies membership::precedes(
                merged@.last(),
                heads@[i]->0,
            ) by {
                if i == run {
                    let list = views[run as int];
                    assert(membership::arranged(list));
                    assert(membership::precedes(list[position as int], list[position + 1]));
                } else {
                    assert(old_heads[i] == heads@[i]);
                }
            }
        }
    }
}

/// The directory of a segment that is built from memberships in order.
pub struct DirectoryBuilder {
    entries: Vec<BucketWriteRecord>,
    records: Ghost<Seq<(u32, u64, u64)>>,
}

impl View for DirectoryBuilder {
    type V = Seq<(u32, u64, u64)>;

    closed spec fn view(&self) -> Seq<(u32, u64, u64)> {
        self.records@
    }
}

impl DirectoryBuilder {
    /// The entries describe the buckets of the memberships so far.
    pub closed spec fn wf(&self) -> bool {
        &&& self.entries@ == buckets::entries_of(membership::grouped(self.records@))
        &&& buckets::countable(membership::grouped(self.records@))
    }

    /// The next membership would be one too many for its bucket.
    pub open spec fn overflows(&self, record: (u32, u64, u64)) -> bool {
        let front = membership::grouped(self@);
        front.len() > 0 && front.last().key == membership::bucket_of(record)
            && front.last().members.len() == u32::MAX
    }

    /// A directory without entries.
    pub fn new() -> (builder: DirectoryBuilder)
        ensures
            builder.wf(),
            builder@ == Seq::<(u32, u64, u64)>::empty(),
    {
        let builder = DirectoryBuilder { entries: Vec::new(), records: Ghost(Seq::empty()) };
        assert(builder.entries@ =~= buckets::entries_of(membership::grouped(builder@)));
        builder
    }

    /// Take note of the next membership. The answer is `false`, and nothing is
    /// noted, where the number of members would not fit a directory entry.
    pub fn push(&mut self, record: (u32, u64, u64)) -> (noted: bool)
        requires
            old(self).wf(),
        ensures
            final(self).wf(),
            noted == !old(self).overflows(record),
            noted ==> final(self)@ == old(self)@.push(record),
            !noted ==> final(self)@ == old(self)@,
    {
        let ghost records = self.records@;
        let ghost front = membership::grouped(records);
        let ghost longer = records.push(record);
        let ghost after = membership::grouped(longer);
        let key = BucketKey { band: record.0, hash: record.1 };
        let mut bytes: Vec<u8> = Vec::new();
        le::push_u64(&mut bytes, record.2);
        proof {
            assert(bytes@ =~= le::bytes(record.2 as nat, 8));
            assert(longer.drop_last() =~= records);
            if front.len() > 0 {
                assert(self.entries@.last() == buckets::entry_of(front.last()));
                assert(front.last() == front[front.len() - 1]);
            }
        }
        let count: usize = self.entries.len();
        let joins = count > 0 && self.entries[count - 1].key == key;
        if joins {
            let entry = self.entries[count - 1];
            if entry.member_count == u32::MAX {
                return false;
            }
            let sum: u32 = checksum::extend_checksum(entry.member_checksum, bytes.as_slice());
            proof {
                let members = front.last().members;
                assert(members.push(record.2).drop_last() =~= members);
                assert(sum == checksum::crc32(buckets::members_bytes(members.push(record.2))));
            }
            self.entries.set(
                count - 1,
                BucketWriteRecord {
                    key,
                    member_count: entry.member_count + 1,
                    member_checksum: sum,
                },
            );
        } else {
            let sum: u32 = checksum::checksum(bytes.as_slice());
            proof {
                let members = seq![record.2];
                reveal_with_fuel(buckets::members_bytes, 2);
                assert(members.drop_last() =~= Seq::empty());
                assert(buckets::members_bytes(members) =~= bytes@);
            }
            self.entries.push(BucketWriteRecord { key, member_count: 1, member_checksum: sum });
        }
        self.records = Ghost(longer);
        proof {
            assert(self.entries@ =~= buckets::entries_of(after));
            assert forall|i: int| 0 <= i < after.len() implies (#[trigger] after[i]).members.len()
                <= u32::MAX by {
                if i < front.len() {
                    assert(front[i].members.len() <= u32::MAX);
                }
            }
        }
        true
    }

    /// The entries.
    pub fn entries(&self) -> (entries: &Vec<BucketWriteRecord>)
        requires
            self.wf(),
        ensures
            entries@ == buckets::entries_of(membership::grouped(self@)),
            buckets::countable(membership::grouped(self@)),
    {
        &self.entries
    }
}

/// The next membership adds its key to the end of the member lists.
pub(crate) proof fn lemma_members_grow(records: Seq<(u32, u64, u64)>, record: (u32, u64, u64))
    ensures
        buckets::all_members_bytes(membership::grouped(records.push(record)))
            == buckets::all_members_bytes(membership::grouped(records)) + le::bytes(
            record.2 as nat,
            8,
        ),
{
    let longer = records.push(record);
    let front = membership::grouped(records);
    let after = membership::grouped(longer);
    assert(longer.drop_last() =~= records);
    if front.len() > 0 && front.last().key == membership::bucket_of(record) {
        let members = front.last().members;
        assert(after.drop_last() =~= front.drop_last());
        assert(members.push(record.2).drop_last() =~= members);
        assert(buckets::all_members_bytes(after) =~= buckets::all_members_bytes(front)
            + le::bytes(record.2 as nat, 8));
    } else {
        let members = seq![record.2];
        assert(after.drop_last() =~= front);
        reveal_with_fuel(buckets::members_bytes, 2);
        assert(members.drop_last() =~= Seq::empty());
        assert(buckets::members_bytes(members) =~= le::bytes(record.2 as nat, 8));
    }
}

/// There are as many runs as it takes, and no more: all but the last are full.
pub proof fn law_runs_are_full(count: nat, limit: nat)
    requires
        limit > 0,
    ensures
        run_count(count, limit) * limit >= count,
        run_count(count, limit) > 0 ==> (run_count(count, limit) - 1) * limit < count,
{
    let runs = run_count(count, limit);
    vstd::arithmetic::div_mod::lemma_fundamental_div_mod(count as int, limit as int);
    let whole = count / limit;
    assert(limit * whole == whole * limit) by (nonlinear_arith);
    assert((whole + 1) * limit == whole * limit + limit) by (nonlinear_arith);
    assert((whole - 1) * limit == whole * limit - limit) by (nonlinear_arith);
}

/// Every run is merged, in its place.
pub proof fn law_every_run_is_read(runs: Seq<Vec<(u32, u64, u64)>>)
    ensures
        run_views(runs).len() == runs.len(),
        forall|i: int| 0 <= i < runs.len() ==> #[trigger] run_views(runs)[i] == runs[i]@,
{
}

} // verus!
