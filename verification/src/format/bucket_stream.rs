//! Writing a bucket segment whose member lists come from a stream.
//!
//! A writer that has the member lists in a file asks [`SegmentStream::begin`]
//! for the front of the segment, and then copies the chunks that
//! [`SegmentStream::next_chunk`] asks for. [`write_bucket_segment`] does the
//! same with member lists that are in memory.

use vstd::prelude::*;

use crate::format::buckets;
use crate::format::buckets::{
    BucketError, BucketWriteRecord, BUCKET_DIRECTORY_ENTRY_BYTES, BUCKET_SEGMENT_HEADER_BYTES,
};
use crate::format::checksum;

verus! {

/// The most member bytes that are copied at once.
pub const COPY_BUFFER_BYTES: usize = 65_536;

/// Size and outer CRC-32 of a streamed bucket segment.
#[derive(Debug, Clone, Copy, PartialEq, Eq, Structural)]
pub struct StreamedBucketSegment {
    /// Total payload bytes written.
    pub bytes: u64,
    /// CRC-32 of the complete payload, suitable for the outer section frame.
    pub checksum: u32,
}

/// The number of member bytes of a bucket.
pub open spec fn size_of(record: BucketWriteRecord) -> nat {
    8 * record.member_count as nat
}

/// The error for records whose segment cannot be begun, if it cannot.
pub open spec fn front_error(records: Seq<BucketWriteRecord>) -> Option<BucketError> {
    let start = buckets::members_start(records.len());
    if !buckets::ascending(buckets::entry_keys(records)) {
        Some(
            BucketError::Invalid { reason: "bucket records must be strictly sorted and unique" },
        )
    } else if start > usize::MAX || start + buckets::span(records) > u64::MAX {
        Some(BucketError::LengthOverflow)
    } else {
        None
    }
}

/// The error that a bucket whose bytes are `taken` gives, if it gives one.
pub open spec fn bucket_error(record: BucketWriteRecord, taken: Seq<u8>) -> Option<BucketError> {
    if checksum::crc32(taken) != record.member_checksum {
        Some(
            BucketError::MemberChecksumMismatch {
                expected: record.member_checksum,
                actual: checksum::crc32(taken),
            },
        )
    } else {
        None
    }
}

/// The first error that the buckets from `index` on give, if they give one,
/// where the member lists stand in `members` from offset `at` on.
pub open spec fn members_error(
    records: Seq<BucketWriteRecord>,
    members: Seq<u8>,
    index: int,
    at: int,
) -> Option<BucketError>
    decreases records.len() - index,
{
    if index >= records.len() {
        None
    } else {
        let end = at + size_of(records[index]);
        if end > members.len() {
            Some(BucketError::Invalid { reason: "bucket member stream ended early" })
        } else if bucket_error(records[index], members.subrange(at, end)) is Some {
            bucket_error(records[index], members.subrange(at, end))
        } else {
            members_error(records, members, index + 1, end)
        }
    }
}

/// The state of a stream.
#[verifier::ext_equal]
pub struct StreamView {
    /// The records of the segment.
    pub records: Seq<BucketWriteRecord>,
    /// The bucket that is being copied.
    pub index: nat,
    /// The bytes of that bucket so far.
    pub taken: Seq<u8>,
    /// All bytes of the segment so far.
    pub written: Seq<u8>,
}

impl StreamView {
    /// The bucket that is being copied is complete.
    pub open spec fn bucket_is_complete(self) -> bool {
        self.index < self.records.len() && self.taken.len() == size_of(
            self.records[self.index as int],
        )
    }

    /// No bucket is left.
    pub open spec fn is_complete(self) -> bool {
        self.index >= self.records.len()
    }

    /// The state after the complete buckets have been passed, or the error of
    /// the first whose checksum differs.
    pub open spec fn settled(self) -> Result<StreamView, BucketError>
        decreases self.records.len() - self.index,
    {
        if !self.bucket_is_complete() {
            Ok(self)
        } else {
            match bucket_error(self.records[self.index as int], self.taken) {
                Some(error) => Err(error),
                None => (StreamView {
                    index: self.index + 1,
                    taken: Seq::empty(),
                    ..self
                }).settled(),
            }
        }
    }

    /// How many bytes are copied next.
    pub open spec fn wanted(self) -> nat {
        if self.is_complete() {
            0
        } else {
            let left = size_of(self.records[self.index as int]) - self.taken.len();
            if left < COPY_BUFFER_BYTES {
                left as nat
            } else {
                COPY_BUFFER_BYTES as nat
            }
        }
    }
}

/// A bucket segment that is being written.
pub struct SegmentStream {
    records: Vec<BucketWriteRecord>,
    index: usize,
    remaining: u64,
    bucket: u32,
    outer: u32,
    bytes: u64,
    taken: Ghost<Seq<u8>>,
    written: Ghost<Seq<u8>>,
}

impl View for SegmentStream {
    type V = StreamView;

    closed spec fn view(&self) -> StreamView {
        StreamView {
            records: self.records@,
            index: self.index as nat,
            taken: self.taken@,
            written: self.written@,
        }
    }
}

impl SegmentStream {
    /// The checksums and the counters belong to the bytes so far.
    pub closed spec fn wf(&self) -> bool {
        &&& self.index <= self.records@.len()
        &&& self.index < self.records@.len() ==> self.remaining + self.taken@.len() == size_of(
            self.records@[self.index as int],
        )
        &&& self.bucket == checksum::crc32(self.taken@)
        &&& self.outer == checksum::crc32(self.written@)
        &&& self.bytes == buckets::members_start(self.records@.len()) + buckets::span(
            self.records@,
        )
    }

    /// Start a segment. The bytes that are returned are its header and its
    /// directory.
    pub fn begin(records: &[BucketWriteRecord]) -> (result: Result<
        (Vec<u8>, SegmentStream),
        BucketError,
    >)
        ensures
            match front_error(records@) {
                Some(error) => result == Err::<(Vec<u8>, SegmentStream), BucketError>(error),
                None => result matches Ok((front, stream)) && {
                    &&& front@ == buckets::segment_front(records@)
                    &&& stream.wf()
                    &&& stream@ == (StreamView {
                        records: records@,
                        index: 0,
                        taken: Seq::empty(),
                        written: front@,
                    })
                },
            },
    {
        match validate_records(records) {
            Ok(()) => {},
            Err(error) => {
                return Err(error);
            },
        }
        let count: usize = records.len();
        let start: usize = match count.checked_mul(BUCKET_DIRECTORY_ENTRY_BYTES) {
            Some(size) => match BUCKET_SEGMENT_HEADER_BYTES.checked_add(size) {
                Some(start) => start,
                None => {
                    return Err(BucketError::LengthOverflow);
                },
            },
            None => {
                return Err(BucketError::LengthOverflow);
            },
        };
        let mut directory: Vec<u8> = Vec::new();
        let mut copy: Vec<BucketWriteRecord> = Vec::new();
        let mut offset: u64 = start as u64;
        let mut index: usize = 0;
        proof {
            assert(records@.take(0) =~= Seq::empty());
        }
        while index < count
            invariant
                index <= count == records@.len(),
                start == buckets::members_start(count as nat),
                buckets::ascending(buckets::entry_keys(records@)),
                copy@ =~= records@.take(index as int),
                directory@ == buckets::directory_bytes(records@.take(index as int), start as nat),
                offset == start + buckets::span(records@.take(index as int)),
            decreases count - index,
        {
            let record = records[index];
            proof {
                buckets::lemma_directory_step(records@, start as nat, index as int);
                lemma_span_monotone(records@, index + 1);
            }
            buckets::push_entry(&mut directory, record, offset);
            copy.push(record);
            offset = match offset.checked_add(8 * record.member_count as u64) {
                Some(offset) => offset,
                None => {
                    return Err(BucketError::LengthOverflow);
                },
            };
            index = index + 1;
        }
        assert(records@.take(count as int) =~= records@);
        let mut front: Vec<u8> = buckets::segment_header(count, &directory);
        front.extend_from_slice(directory.as_slice());
        assert(front@ =~= buckets::segment_front(records@));
        let remaining: u64 = if count == 0 {
            0
        } else {
            8 * copy[0].member_count as u64
        };
        let empty: Vec<u8> = Vec::new();
        let stream = SegmentStream {
            records: copy,
            index: 0,
            remaining,
            bucket: checksum::checksum(empty.as_slice()),
            outer: checksum::checksum(front.as_slice()),
            bytes: offset,
            taken: Ghost(Seq::empty()),
            written: Ghost(front@),
        };
        Ok((front, stream))
    }

    /// Pass the complete buckets, verify their checksums, and say how many
    /// member bytes to copy next; none are left where the answer is zero.
    pub fn next_chunk(&mut self) -> (result: Result<usize, BucketError>)
        requires
            old(self).wf(),
        ensures
            match old(self)@.settled() {
                Err(error) => result == Err::<usize, BucketError>(error),
                Ok(state) => {
                    &&& final(self).wf()
                    &&& final(self)@ == state
                    &&& result == Ok::<usize, BucketError>(state.wanted() as usize)
                },
            },
    {
        let empty: Vec<u8> = Vec::new();
        let nothing: u32 = checksum::checksum(empty.as_slice());
        while self.index < self.records.len() && self.remaining == 0
            invariant
                self.wf(),
                nothing == checksum::crc32(Seq::empty()),
                old(self)@.settled() == self@.settled(),
            decreases self.records@.len() - self.index,
        {
            let record = self.records[self.index];
            if self.bucket != record.member_checksum {
                return Err(
                    BucketError::MemberChecksumMismatch {
                        expected: record.member_checksum,
                        actual: self.bucket,
                    },
                );
            }
            self.index = self.index + 1;
            self.bucket = nothing;
            self.taken = Ghost(Seq::empty());
            if self.index < self.records.len() {
                self.remaining = 8 * self.records[self.index].member_count as u64;
            }
        }
        if self.index >= self.records.len() {
            return Ok(0);
        }
        if self.remaining < COPY_BUFFER_BYTES as u64 {
            Ok(self.remaining as usize)
        } else {
            Ok(COPY_BUFFER_BYTES)
        }
    }

    /// Take note of a chunk that has been copied.
    pub fn accept(&mut self, chunk: &[u8])
        requires
            old(self).wf(),
            0 < chunk@.len() <= old(self)@.wanted(),
        ensures
            final(self).wf(),
            final(self)@ == (StreamView {
                taken: old(self)@.taken + chunk@,
                written: old(self)@.written + chunk@,
                ..old(self)@
            }),
    {
        self.bucket = checksum::extend_checksum(self.bucket, chunk);
        self.outer = checksum::extend_checksum(self.outer, chunk);
        self.remaining = self.remaining - chunk.len() as u64;
        self.taken = Ghost(self.taken@ + chunk@);
        self.written = Ghost(self.written@ + chunk@);
    }

    /// The size and the checksum of the segment.
    pub fn finish(&self) -> (segment: StreamedBucketSegment)
        requires
            self.wf(),
        ensures
            segment.bytes == buckets::members_start(self@.records.len()) + buckets::span(
                self@.records,
            ),
            segment.checksum == checksum::crc32(self@.written),
    {
        StreamedBucketSegment { bytes: self.bytes, checksum: self.outer }
    }
}

fn validate_records(records: &[BucketWriteRecord]) -> (result: Result<(), BucketError>)
    ensures
        if buckets::ascending(buckets::entry_keys(records@)) {
            result is Ok
        } else {
            result == Err::<(), BucketError>(
                BucketError::Invalid {
                    reason: "bucket records must be strictly sorted and unique",
                },
            )
        },
{
    let ghost keys = buckets::entry_keys(records@);
    let mut index: usize = 1;
    while index < records.len()
        invariant
            1 <= index,
            keys == buckets::entry_keys(records@),
            forall|i: int, j: int|
                0 <= i < j < index && j < keys.len() ==> (#[trigger] keys[i]).before(
                    #[trigger] keys[j],
                ),
        decreases records@.len() - index,
    {
        let ghost left = keys[index - 1];
        if !records[index - 1].key.is_before(records[index].key) {
            assert(!left.before(keys[index as int]));
            return Err(
                BucketError::Invalid {
                    reason: "bucket records must be strictly sorted and unique",
                },
            );
        }
        assert(left.before(keys[index as int]));
        index = index + 1;
    }
    Ok(())
}

proof fn lemma_span_monotone(records: Seq<BucketWriteRecord>, count: int)
    requires
        0 <= count <= records.len(),
    ensures
        buckets::span(records.take(count)) <= buckets::span(records),
    decreases records.len(),
{
    if count == records.len() {
        assert(records.take(count) =~= records);
    } else {
        assert(records.drop_last().take(count) =~= records.take(count));
        lemma_span_monotone(records.drop_last(), count);
    }
}

/// What writing a segment gives: its bytes, or the first error.
pub open spec fn streamed(records: Seq<BucketWriteRecord>, members: Seq<u8>) -> Result<
    Seq<u8>,
    BucketError,
> {
    if front_error(records) is Some {
        Err(front_error(records)->0)
    } else {
        match members_error(records, members, 0, 0) {
            Some(error) => Err(error),
            None => Ok(
                buckets::segment_front(records) + members.take(buckets::span(records) as int),
            ),
        }
    }
}

/// The stream has copied `members` up to `at` and the bytes of the current
/// bucket after that.
spec fn follows(state: StreamView, members: Seq<u8>, at: int) -> bool {
    let position = at + state.taken.len();
    &&& 0 <= at
    &&& position <= members.len()
    &&& at == buckets::span(state.records.take(state.index as int))
    &&& state.index <= state.records.len()
    &&& state.taken == members.subrange(at, position)
    &&& state.written == buckets::segment_front(state.records) + members.take(position)
}

/// Passing complete buckets keeps the stream in step with the member lists, and
/// gives the error that the member lists give.
proof fn lemma_settled(state: StreamView, members: Seq<u8>, at: int)
    requires
        follows(state, members, at),
        state.is_complete() ==> state.taken.len() == 0,
        !state.is_complete() ==> state.taken.len() <= size_of(state.records[state.index as int]),
    ensures
        match state.settled() {
            Err(error) => members_error(state.records, members, state.index as int, at) == Some(
                error,
            ),
            Ok(next) => {
                let from = buckets::span(next.records.take(next.index as int)) as int;
                &&& next.records == state.records
                &&& follows(next, members, from)
                &&& from + next.taken.len() == at + state.taken.len()
                &&& next.is_complete() ==> next.taken.len() == 0
                &&& !next.is_complete() ==> next.taken.len() < size_of(
                    next.records[next.index as int],
                )
                &&& members_error(state.records, members, state.index as int, at)
                    == members_error(next.records, members, next.index as int, from)
            },
        },
    decreases state.records.len() - state.index,
{
    if state.bucket_is_complete() {
        let index = state.index as int;
        let record = state.records[index];
        let end = at + size_of(record);
        buckets::lemma_directory_step(state.records, 0, index);
        if bucket_error(record, state.taken) is None {
            let next = StreamView { index: state.index + 1, taken: Seq::empty(), ..state };
            assert(next.taken =~= members.subrange(end, end));
            lemma_settled(next, members, end);
        }
    }
}

/// Write one canonical bucket segment. The bytes of the segment are returned
/// with its size and its checksum.
///
/// `members` must begin with the concatenated little-endian member lists that
/// `records` describe. Each list is checked against its CRC-32 while it is
/// copied. Records must be strictly sorted and unique.
pub fn write_bucket_segment(records: &[BucketWriteRecord], members: &[u8]) -> (result: Result<
    (Vec<u8>, StreamedBucketSegment),
    BucketError,
>)
    ensures
        match streamed(records@, members@) {
            Err(error) => result == Err::<(Vec<u8>, StreamedBucketSegment), BucketError>(error),
            Ok(bytes) => result matches Ok((output, segment)) && {
                &&& output@ == bytes
                &&& segment.bytes == bytes.len()
                &&& segment.checksum == checksum::crc32(bytes)
            },
        },
{
    let (front, mut stream) = match SegmentStream::begin(records) {
        Ok(begun) => begun,
        Err(error) => {
            return Err(error);
        },
    };
    let mut output: Vec<u8> = front;
    let mut position: usize = 0;
    let size: usize = members.len();
    let ghost goal = members_error(records@, members@, 0, 0);
    proof {
        assert(records@.take(0) =~= Seq::empty());
        assert(members@.subrange(0, 0) =~= Seq::empty());
        assert(output@ + members@.take(0) =~= output@);
    }
    loop
        invariant
            size == members@.len(),
            front_error(records@) is None,
            goal == members_error(records@, members@, 0, 0),
            stream.wf(),
            stream@.records == records@,
            output@ == stream@.written,
            follows(
                stream@,
                members@,
                buckets::span(records@.take(stream@.index as int)) as int,
            ),
            position == buckets::span(records@.take(stream@.index as int)) + stream@.taken.len(),
            stream@.is_complete() ==> stream@.taken.len() == 0,
            !stream@.is_complete() ==> stream@.taken.len() <= size_of(
                stream@.records[stream@.index as int],
            ),
            goal == members_error(
                records@,
                members@,
                stream@.index as int,
                buckets::span(records@.take(stream@.index as int)) as int,
            ),
        decreases members@.len() - position,
    {
        proof {
            lemma_settled(
                stream@,
                members@,
                buckets::span(records@.take(stream@.index as int)) as int,
            );
        }
        let count: usize = match stream.next_chunk() {
            Ok(count) => count,
            Err(error) => {
                return Err(error);
            },
        };
        let ghost at = buckets::span(records@.take(stream@.index as int)) as int;
        if count == 0 {
            proof {
                assert(records@.take(stream@.index as int) =~= records@);
                lemma_front_len(records@);
            }
            let segment = stream.finish();
            return Ok((output, segment));
        }
        if size - position < count {
            return Err(BucketError::Invalid { reason: "bucket member stream ended early" });
        }
        let chunk = vstd::slice::slice_subrange(members, position, position + count);
        output.extend_from_slice(chunk);
        stream.accept(chunk);
        proof {
            assert(stream@.taken =~= members@.subrange(at, position + count));
            assert(members@.take(position + count) =~= members@.take(position as int) + chunk@);
            assert(stream@.written =~= buckets::segment_front(records@) + members@.take(
                position + count,
            ));
        }
        position = position + count;
    }
}

proof fn lemma_front_len(records: Seq<BucketWriteRecord>)
    ensures
        buckets::segment_front(records).len() == buckets::members_start(records.len()),
{
    broadcast use crate::le::lemma_bytes_len;

    buckets::lemma_directory_len(records, buckets::members_start(records.len()));
}

proof fn lemma_members_accepted(all: Seq<buckets::Bucket>, more: Seq<u8>, index: int)
    requires
        buckets::countable(all),
        0 <= index <= all.len(),
    ensures
        members_error(
            buckets::entries_of(all),
            buckets::all_members_bytes(all) + more,
            index,
            buckets::span(buckets::entries_of(all).take(index)) as int,
        ) is None,
    decreases all.len() - index,
{
    let entries = buckets::entries_of(all);
    let members = buckets::all_members_bytes(all) + more;
    if index < all.len() {
        let at = buckets::span(entries.take(index)) as int;
        let end = at + size_of(entries[index]);
        assert(all[index].members.len() <= u32::MAX);
        buckets::lemma_member_range(all, index);
        buckets::lemma_directory_step(entries, 0, index);
        assert(members.subrange(at, end) =~= buckets::all_members_bytes(all).subrange(at, end));
        lemma_members_accepted(all, more, index + 1);
    }
}

/// Streaming the member lists of some buckets writes the segment that encoding
/// the buckets gives, whatever follows the lists in the stream.
pub proof fn law_streaming_equals_encoding(all: Seq<buckets::Bucket>, more: Seq<u8>)
    requires
        buckets::segment_error(all) is None,
    ensures
        streamed(buckets::entries_of(all), buckets::all_members_bytes(all) + more) == Ok::<
            Seq<u8>,
            BucketError,
        >(buckets::segment_bytes(all)),
{
    let entries = buckets::entries_of(all);
    let members = buckets::all_members_bytes(all) + more;
    buckets::lemma_span_of_buckets(all);
    assert(buckets::entry_keys(entries) =~= buckets::bucket_keys(all));
    assert(entries.take(0) =~= Seq::empty());
    lemma_members_accepted(all, more, 0);
    assert(members.take(buckets::span(entries) as int) =~= buckets::all_members_bytes(all));
}

proof fn lemma_members_are_sound(
    records: Seq<BucketWriteRecord>,
    members: Seq<u8>,
    index: int,
    at: int,
)
    requires
        0 <= index <= records.len(),
        at == buckets::span(records.take(index)),
    ensures
        (members_error(records, members, index, at) is None) == (forall|i: int|
            index <= i < records.len() ==> #[trigger] is_sound(records, members, i)),
    decreases records.len() - index,
{
    if index < records.len() {
        let end = at + size_of(records[index]);
        assert(records.take(index + 1).drop_last() =~= records.take(index));
        assert(records.take(index + 1).last() == records[index]);
        assert(at + 8 * records[index].member_count == end);
        lemma_members_are_sound(records, members, index + 1, end);
        let whole = forall|i: int|
            index <= i < records.len() ==> #[trigger] is_sound(records, members, i);
        if members_error(records, members, index, at) is None {
            assert(is_sound(records, members, index));
        } else if whole {
            assert(is_sound(records, members, index));
        }
    }
}

/// The members of a bucket are there, and their checksum is that of the record. They stand
/// behind the members of all earlier buckets, eight bytes each.
pub open spec fn is_sound(records: Seq<BucketWriteRecord>, members: Seq<u8>, index: int) -> bool {
    let start = buckets::span(records.take(index)) as int;
    let end = start + 8 * records[index].member_count;
    end <= members.len() && checksum::crc32(members.subrange(start, end))
        == records[index].member_checksum
}

/// A segment is written exactly where its buckets are in order, its length can be told, and
/// the members of every bucket are there with the checksum that its record tells.
pub proof fn law_which_segments_are_written(records: Seq<BucketWriteRecord>, members: Seq<u8>)
    ensures
        (streamed(records, members) is Ok) == (front_error(records) is None && forall|i: int|
            0 <= i < records.len() ==> #[trigger] is_sound(records, members, i)),
        front_error(records) is None ==> forall|i: int, j: int|
            0 <= i < j < records.len() ==> (#[trigger] records[i]).key.band < (
            #[trigger] records[j]).key.band || (records[i].key.band == records[j].key.band
                && records[i].key.hash < records[j].key.hash),
{
    assert(records.take(0) =~= Seq::empty());
    lemma_members_are_sound(records, members, 0, 0);
    if front_error(records) is None {
        let keys = buckets::entry_keys(records);
        assert forall|i: int, j: int| 0 <= i < j < records.len() implies (
        #[trigger] records[i]).key.band < (#[trigger] records[j]).key.band || (
        records[i].key.band == records[j].key.band && records[i].key.hash
            < records[j].key.hash) by {
            assert(keys[i] == records[i].key && keys[j] == records[j].key);
        }
    }
}

} // verus!
