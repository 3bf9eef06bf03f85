//! Buckets as the sections of a container.
//!
//! A collection of buckets is cut into segments of a bounded size, and each
//! segment becomes one `Buckets` section. A bucket is never divided, so a
//! single large bucket makes a segment above the target size.

use vstd::prelude::*;

use crate::format::bucket_stream;
use crate::format::buckets;
use crate::format::buckets::{
    Bucket, BucketRecord, BucketWriteRecord, BUCKET_DIRECTORY_ENTRY_BYTES,
    BUCKET_SEGMENT_HEADER_BYTES, BUCKET_SEGMENT_TARGET_BYTES,
};
use crate::format::container;
use crate::format::container::{
    FileView, IndexFile, Section, SectionKind, SectionView, MAX_SECTION_BYTES,
};
use crate::format::error::FormatError;
use crate::format::header::{IndexMetadata, Metadata, MAX_SECTION_COUNT};
use crate::store::membership;
use crate::store::membership::OwnedBucket;
use crate::store::merge::DirectoryBuilder;

verus! {

/// The buckets cut into segments: each bucket joins the last segment, unless
/// that would make the segment larger than the target.
pub open spec fn cut(all: Seq<Bucket>) -> Seq<Seq<Bucket>>
    decreases all.len(),
{
    if all.len() == 0 {
        Seq::empty()
    } else {
        let front = cut(all.drop_last());
        let bucket = all.last();
        if front.len() > 0 && buckets::segment_size(front.last().push(bucket))
            <= BUCKET_SEGMENT_TARGET_BYTES {
            front.drop_last().push(front.last().push(bucket))
        } else {
            front.push(seq![bucket])
        }
    }
}

/// The segments of an index. An index without buckets has one empty segment.
pub open spec fn segments(all: Seq<Bucket>) -> Seq<Seq<Bucket>> {
    if all.len() == 0 {
        seq![Seq::empty()]
    } else {
        cut(all)
    }
}

/// The section of a segment.
pub open spec fn segment_section(segment: Seq<Bucket>) -> SectionView {
    SectionView {
        kind: SectionKind::Buckets,
        required: true,
        payload: buckets::segment_bytes(segment),
    }
}

/// The sections of segments.
pub open spec fn segment_sections(list: Seq<Seq<Bucket>>) -> Seq<SectionView> {
    Seq::new(list.len(), |i: int| segment_section(list[i]))
}

/// The size of the first segment that no section can hold, if there is one.
pub open spec fn oversized(list: Seq<Seq<Bucket>>) -> Option<u64>
    decreases list.len(),
{
    if list.len() == 0 {
        None
    } else {
        match oversized(list.drop_last()) {
            Some(length) => Some(length),
            None => if buckets::segment_size(list.last()) > MAX_SECTION_BYTES {
                Some(buckets::segment_size(list.last()) as u64)
            } else {
                None
            },
        }
    }
}

/// The container of an index: its keys, its band hashes and its buckets.
pub open spec fn packed_file(
    metadata: Metadata,
    keys: Seq<u8>,
    hashes: Seq<u8>,
    all: Seq<Bucket>,
) -> FileView {
    FileView {
        metadata,
        sections: seq![
            SectionView { kind: SectionKind::Keys, required: true, payload: keys },
            SectionView { kind: SectionKind::BandHashes, required: true, payload: hashes },
        ] + segment_sections(segments(all)),
    }
}

/// The encoded container of an index, or the error where the format cannot hold
/// it.
pub open spec fn packed(
    metadata: Metadata,
    keys: Seq<u8>,
    hashes: Seq<u8>,
    all: Seq<Bucket>,
) -> Result<Seq<u8>, FormatError> {
    let file = packed_file(metadata, keys, hashes, all);
    match oversized(segments(all)) {
        Some(length) => Err(FormatError::SectionTooLarge { length }),
        None => if file.sections.len() > MAX_SECTION_COUNT {
            Err(
                FormatError::TooManySections {
                    count: file.sections.len() as usize,
                    max: MAX_SECTION_COUNT,
                },
            )
        } else if container::file_bytes(file).len() > usize::MAX {
            Err(FormatError::LengthOverflow)
        } else {
            Ok(container::file_bytes(file))
        },
    }
}

/// The pieces of a sequence of buckets that end at these positions.
pub open spec fn pieces(all: Seq<Bucket>, ends: Seq<usize>) -> Seq<Seq<Bucket>> {
    Seq::new(ends.len(), |i: int| all.subrange(piece_start(ends, i), ends[i] as int))
}

/// Where a piece begins.
pub open spec fn piece_start(ends: Seq<usize>, index: int) -> int {
    if index == 0 {
        0
    } else {
        ends[index - 1] as int
    }
}

/// Each piece begins where the last one ends, and together they reach `size`.
pub open spec fn are_ends(ends: Seq<usize>, size: nat) -> bool {
    &&& forall|i: int|
        0 <= i < ends.len() ==> piece_start(ends, i) <= #[trigger] ends[i] <= size
    &&& ends.len() > 0 ==> ends.last() == size
}

proof fn lemma_size_of_push(list: Seq<Bucket>, bucket: Bucket)
    ensures
        buckets::segment_size(list.push(bucket)) == buckets::segment_size(list)
            + BUCKET_DIRECTORY_ENTRY_BYTES + 8 * bucket.members.len(),
{
    assert(list.push(bucket).drop_last() =~= list);
    buckets::lemma_members_bytes_len(bucket.members);
}

proof fn lemma_members_of_parts(left: Seq<Bucket>, right: Seq<Bucket>)
    ensures
        buckets::all_members_bytes(left + right) == buckets::all_members_bytes(left)
            + buckets::all_members_bytes(right),
    decreases right.len(),
{
    if right.len() == 0 {
        assert(left + right =~= left);
        assert(buckets::all_members_bytes(left + right) =~= buckets::all_members_bytes(left)
            + buckets::all_members_bytes(right));
    } else {
        lemma_members_of_parts(left, right.drop_last());
        assert((left + right).drop_last() =~= left + right.drop_last());
        assert(buckets::all_members_bytes(left + right) =~= buckets::all_members_bytes(left)
            + buckets::all_members_bytes(right));
    }
}

/// A part of the buckets takes no more room than all of them.
proof fn lemma_part_fits(all: Seq<Bucket>, from: int, to: int)
    requires
        0 <= from <= to <= all.len(),
    ensures
        buckets::segment_size(all.subrange(from, to)) <= buckets::segment_size(all),
        buckets::all_members_bytes(all) == buckets::all_members_bytes(all.take(from))
            + buckets::all_members_bytes(all.subrange(from, to)) + buckets::all_members_bytes(
            all.skip(to),
        ),
{
    let front = all.take(from);
    let part = all.subrange(from, to);
    let rest = all.skip(to);
    assert(front + part =~= all.take(to));
    assert(front + part + rest =~= all);
    lemma_members_of_parts(front, part);
    lemma_members_of_parts(front + part, rest);
}

/// Decide where buckets with these member counts are cut.
#[verifier::rlimit(50)]
pub(crate) fn cut_counts(counts: &Vec<usize>, Ghost(all): Ghost<Seq<Bucket>>) -> (ends: Vec<usize>)
    requires
        counts@.len() == all.len(),
        forall|i: int| 0 <= i < all.len() ==> (#[trigger] counts@[i]) == all[i].members.len(),
        buckets::segment_size(all) <= usize::MAX,
    ensures
        pieces(all, ends@) == cut(all),
        are_ends(ends@, all.len()),
        all.len() > 0 ==> ends@.len() > 0,
{
    let mut ends: Vec<usize> = Vec::new();
    let mut estimated: usize = BUCKET_SEGMENT_HEADER_BYTES;
    let mut index: usize = 0;
    proof {
        assert(pieces(all.take(0), ends@) =~= cut(all.take(0)));
    }
    while index < counts.len()
        invariant
            index <= counts@.len() == all.len(),
            forall|i: int| 0 <= i < all.len() ==> (#[trigger] counts@[i]) == all[i].members.len(),
            buckets::segment_size(all) <= usize::MAX,
            are_ends(ends@, index as nat),
            index > 0 <==> ends@.len() > 0,
            pieces(all.take(index as int), ends@) == cut(all.take(index as int)),
            ends@.len() > 0 ==> estimated == buckets::segment_size(
                cut(all.take(index as int)).last(),
            ),
        decreases counts@.len() - index,
    {
        let ghost bucket = all[index as int];
        let ghost shorter = all.take(index as int);
        let ghost longer = all.take(index + 1);
        let ghost before = ends@;
        let ghost front = cut(shorter);
        proof {
            assert(longer.drop_last() =~= shorter);
            assert(longer.last() == bucket);
            assert(counts@[index as int] == bucket.members.len());
            lemma_part_fits(all, index as int, index + 1);
            assert(all.subrange(index as int, index + 1) =~= Seq::empty().push(bucket));
            lemma_size_of_push(Seq::empty(), bucket);
            if before.len() > 0 {
                let from = piece_start(before, before.len() - 1);
                assert(front.last() == shorter.subrange(from, index as int));
                assert(front.last() =~= all.subrange(from, index as int));
                assert(front.last().push(bucket) =~= all.subrange(from, index + 1));
                lemma_part_fits(all, from, index + 1);
                lemma_size_of_push(front.last(), bucket);
            }
        }
        let contribution: usize = BUCKET_DIRECTORY_ENTRY_BYTES + 8 * counts[index];
        let fresh = ends.len() == 0 || estimated + contribution > BUCKET_SEGMENT_TARGET_BYTES;
        if fresh {
            ends.push(index + 1);
            estimated = BUCKET_SEGMENT_HEADER_BYTES + contribution;
        } else {
            let last: usize = ends.len() - 1;
            ends.set(last, index + 1);
            estimated = estimated + contribution;
        }
        proof {
            let now = ends@;
            assert(Seq::<Bucket>::empty().push(bucket) =~= seq![bucket]);
            assert forall|i: int| 0 <= i < now.len() implies piece_start(now, i) <= #[trigger] now[i]
                <= index + 1 by {
                if i < before.len() {
                    assert(piece_start(before, i) <= before[i] <= index);
                }
                if 0 < i && i - 1 < before.len() {
                    assert(before[i - 1] <= index);
                }
            }
            assert forall|i: int| 0 <= i < now.len() implies pieces(longer, now)[i] == cut(
                longer,
            )[i] by {
                if i < now.len() - 1 {
                    assert(before[i] <= index);
                    assert(pieces(shorter, before)[i] == front[i]);
                    assert(pieces(longer, now)[i] =~= pieces(shorter, before)[i]);
                } else {
                    let from = piece_start(now, i);
                    assert(pieces(longer, now)[i] =~= all.subrange(from, index + 1));
                }
            }
            assert(pieces(longer, now) =~= cut(longer));
        }
        index = index + 1;
    }
    assert(all.take(index as int) =~= all);
    ends
}

/// Decide where the segments of an index with these member counts end.
pub(crate) fn segment_ends(counts: &Vec<usize>, Ghost(all): Ghost<Seq<Bucket>>) -> (ends: Vec<
    usize,
>)
    requires
        counts@.len() == all.len(),
        forall|i: int| 0 <= i < all.len() ==> (#[trigger] counts@[i]) == all[i].members.len(),
        buckets::segment_size(all) <= usize::MAX,
    ensures
        pieces(all, ends@) == segments(all),
        are_ends(ends@, all.len()),
{
    let mut ends = cut_counts(counts, Ghost(all));
    if counts.len() == 0 {
        assert(ends@.len() == 0) by {
            assert(pieces(all, ends@).len() == cut(all).len());
        }
        ends.push(0);
        assert(all.subrange(0, 0) =~= Seq::empty());
        assert(pieces(all, ends@) =~= segments(all));
    }
    ends
}

/// How many members the bucket of each entry has, or `None` where a segment of all of
/// them is larger than memory.
fn count_members(entries: &Vec<BucketWriteRecord>, Ghost(all): Ghost<Seq<Bucket>>) -> (result: Option<
    Vec<usize>,
>)
    requires
        entries@ == buckets::entries_of(all),
        buckets::countable(all),
    ensures
        match result {
            Some(counts) => {
                &&& buckets::segment_size(all) <= usize::MAX
                &&& counts@.len() == all.len()
                &&& forall|i: int|
                    0 <= i < all.len() ==> (#[trigger] counts@[i]) == all[i].members.len()
            },
            None => buckets::segment_size(all) > usize::MAX,
        },
{
    let mut counts: Vec<usize> = Vec::new();
    let mut size: usize = BUCKET_SEGMENT_HEADER_BYTES;
    let mut index: usize = 0;
    proof {
        assert(all.take(0) =~= Seq::empty());
    }
    while index < entries.len()
        invariant
            index <= entries@.len() == all.len(),
            entries@ == buckets::entries_of(all),
            buckets::countable(all),
            size == buckets::segment_size(all.take(index as int)),
            counts@.len() == index,
            forall|i: int| 0 <= i < index ==> (#[trigger] counts@[i]) == all[i].members.len(),
        decreases entries@.len() - index,
    {
        let count: usize = entries[index].member_count as usize;
        proof {
            assert(all[index as int].members.len() <= u32::MAX);
            assert(entries@[index as int] == buckets::entry_of(all[index as int]));
            let shorter = all.take(index as int);
            assert(all.take(index + 1) =~= shorter.push(all[index as int]));
            lemma_size_of_push(shorter, all[index as int]);
            lemma_part_fits(all, 0, index + 1);
            assert(all.subrange(0, index + 1) =~= all.take(index + 1));
        }
        let bytes: usize = match count.checked_mul(8) {
            Some(bytes) => bytes,
            None => {
                return None;
            },
        };
        let longer: usize = match size.checked_add(BUCKET_DIRECTORY_ENTRY_BYTES) {
            Some(longer) => longer,
            None => {
                return None;
            },
        };
        size = match longer.checked_add(bytes) {
            Some(grown) => grown,
            None => {
                return None;
            },
        };
        counts.push(count);
        index = index + 1;
    }
    assert(all.take(index as int) =~= all);
    Some(counts)
}

/// Decide where the segments of the buckets in a directory end. The answer is `None`
/// where they are together larger than memory.
pub fn directory_ends(directory: &DirectoryBuilder) -> (result: Option<Vec<usize>>)
    requires
        directory.wf(),
    ensures
        ({
            let all = membership::grouped(directory@);
            match result {
                Some(ends) => {
                    &&& buckets::segment_size(all) <= usize::MAX
                    &&& pieces(all, ends@) == segments(all)
                    &&& are_ends(ends@, all.len())
                },
                None => buckets::segment_size(all) > usize::MAX,
            }
        }),
{
    let ghost all = membership::grouped(directory@);
    match count_members(directory.entries(), Ghost(all)) {
        Some(counts) => Some(segment_ends(&counts, Ghost(all))),
        None => None,
    }
}

/// The buckets can be encoded, all together or in parts.
pub open spec fn encodable(all: Seq<Bucket>) -> bool {
    &&& buckets::ascending(buckets::bucket_keys(all))
    &&& buckets::countable(all)
    &&& buckets::segment_size(all) <= usize::MAX
}

pub(crate) proof fn lemma_part_is_encodable(all: Seq<Bucket>, from: int, to: int)
    requires
        encodable(all),
        0 <= from <= to <= all.len(),
    ensures
        buckets::segment_error(all.subrange(from, to)) is None,
        buckets::countable(all.subrange(from, to)),
{
    let part = all.subrange(from, to);
    lemma_part_fits(all, from, to);
    assert forall|i: int, j: int| 0 <= i < j < part.len() implies (
    #[trigger] buckets::bucket_keys(part)[i]).before(#[trigger] buckets::bucket_keys(part)[j]) by {
        assert(buckets::bucket_keys(all)[from + i].before(buckets::bucket_keys(all)[from + j]));
    }
    assert forall|i: int| 0 <= i < part.len() implies (#[trigger] part[i]).members.len()
        <= u32::MAX by {
        assert(all[from + i].members.len() <= u32::MAX);
    }
}

pub(crate) proof fn lemma_segment_len(list: Seq<Bucket>)
    ensures
        buckets::segment_bytes(list).len() == buckets::segment_size(list),
{
    broadcast use crate::le::lemma_bytes_len;

    let entries = buckets::entries_of(list);
    buckets::lemma_directory_len(entries, buckets::members_start(entries.len()));
}

/// The sections of a container that is being packed.
spec fn is_front(
    sections: Seq<Section>,
    keys: Seq<u8>,
    hashes: Seq<u8>,
    list: Seq<Seq<Bucket>>,
) -> bool {
    &&& container::views(sections) == seq![
        SectionView { kind: SectionKind::Keys, required: true, payload: keys },
        SectionView { kind: SectionKind::BandHashes, required: true, payload: hashes },
    ] + segment_sections(list)
    &&& forall|i: int| 0 <= i < sections.len() ==> (#[trigger] sections[i]).wf()
    &&& oversized(list) is None
}

/// The first two sections of a container.
fn front_sections(keys: Vec<u8>, hashes: Vec<u8>) -> (sections: Vec<Section>)
    requires
        keys@.len() <= MAX_SECTION_BYTES,
        hashes@.len() <= MAX_SECTION_BYTES,
    ensures
        is_front(sections@, keys@, hashes@, Seq::empty()),
{
    let mut sections: Vec<Section> = Vec::new();
    let ghost first = keys@;
    let ghost second = hashes@;
    sections.push(Section::new(SectionKind::Keys, true, keys).unwrap());
    sections.push(Section::new(SectionKind::BandHashes, true, hashes).unwrap());
    assert(container::views(sections@) =~= seq![
        SectionView { kind: SectionKind::Keys, required: true, payload: first },
        SectionView { kind: SectionKind::BandHashes, required: true, payload: second },
    ] + segment_sections(Seq::empty()));
    sections
}

/// Append the section of the next segment.
fn push_segment(
    sections: &mut Vec<Section>,
    payload: Vec<u8>,
    Ghost(keys): Ghost<Seq<u8>>,
    Ghost(hashes): Ghost<Seq<u8>>,
    Ghost(list): Ghost<Seq<Seq<Bucket>>>,
    Ghost(segment): Ghost<Seq<Bucket>>,
) -> (result: Result<(), FormatError>)
    requires
        is_front(old(sections)@, keys, hashes, list),
        payload@ == buckets::segment_bytes(segment),
    ensures
        match oversized(list.push(segment)) {
            Some(length) => result == Err::<(), FormatError>(
                FormatError::SectionTooLarge { length },
            ),
            None => result is Ok && is_front(final(sections)@, keys, hashes, list.push(segment)),
        },
{
    let ghost before = sections@;
    proof {
        assert(list.push(segment).drop_last() =~= list);
        lemma_segment_len(segment);
    }
    match Section::new(SectionKind::Buckets, true, payload) {
        Ok(section) => {
            sections.push(section);
            proof {
                assert(container::views(sections@) =~= container::views(before).push(
                    segment_section(segment),
                ));
                assert(segment_sections(list.push(segment)) =~= segment_sections(list).push(
                    segment_section(segment),
                ));
                assert(container::views(sections@) =~= seq![
                    SectionView { kind: SectionKind::Keys, required: true, payload: keys },
                    SectionView { kind: SectionKind::BandHashes, required: true, payload: hashes },
                ] + segment_sections(list.push(segment)));
            }
            Ok(())
        },
        Err(error) => Err(error),
    }
}

proof fn lemma_oversized_prefix(list: Seq<Seq<Bucket>>, count: int)
    requires
        0 <= count <= list.len(),
        oversized(list.take(count)) is Some,
    ensures
        oversized(list) == oversized(list.take(count)),
    decreases list.len(),
{
    if count == list.len() {
        assert(list.take(count) =~= list);
    } else {
        assert(list.drop_last().take(count) =~= list.take(count));
        lemma_oversized_prefix(list.drop_last(), count);
    }
}

/// Encode the container once all sections are there.
fn finish(metadata: IndexMetadata, sections: Vec<Section>) -> (result: Result<Vec<u8>, FormatError>)
    requires
        metadata.wf(),
        forall|i: int| 0 <= i < sections@.len() ==> (#[trigger] sections@[i]).wf(),
    ensures
        ({
            let file = FileView {
                metadata: metadata@,
                sections: container::views(sections@),
            };
            if sections@.len() > MAX_SECTION_COUNT {
                result == Err::<Vec<u8>, FormatError>(
                    FormatError::TooManySections {
                        count: sections@.len() as usize,
                        max: MAX_SECTION_COUNT,
                    },
                )
            } else if container::file_bytes(file).len() > usize::MAX {
                result == Err::<Vec<u8>, FormatError>(FormatError::LengthOverflow)
            } else {
                result matches Ok(bytes) && bytes@ == container::file_bytes(file)
            }
        }),
{
    match IndexFile::new(metadata, sections) {
        Ok(file) => file.encode(),
        Err(error) => Err(error),
    }
}

/// Encode the container of an index whose buckets are in memory.
pub(crate) fn pack(
    metadata: IndexMetadata,
    keys: Vec<u8>,
    hashes: Vec<u8>,
    all: &Vec<OwnedBucket>,
) -> (result: Result<Vec<u8>, FormatError>)
    requires
        metadata.wf(),
        keys@.len() <= MAX_SECTION_BYTES,
        hashes@.len() <= MAX_SECTION_BYTES,
        encodable(membership::owned_views(all@)),
    ensures
        match packed(metadata@, keys@, hashes@, membership::owned_views(all@)) {
            Err(error) => result == Err::<Vec<u8>, FormatError>(error),
            Ok(bytes) => result matches Ok(found) && found@ == bytes,
        },
{
    let ghost first = keys@;
    let ghost second = hashes@;
    let ghost views = membership::owned_views(all@);
    let mut counts: Vec<usize> = Vec::new();
    let mut index: usize = 0;
    while index < all.len()
        invariant
            index <= all@.len(),
            views == membership::owned_views(all@),
            counts@.len() == index,
            forall|i: int| 0 <= i < index ==> (#[trigger] counts@[i]) == views[i].members.len(),
        decreases all@.len() - index,
    {
        counts.push(all[index].members.len());
        index = index + 1;
    }
    let ends = segment_ends(&counts, Ghost(views));
    let ghost list = segments(views);
    let mut sections = front_sections(keys, hashes);
    let mut piece: usize = 0;
    let mut from: usize = 0;
    proof {
        assert(list.take(0) =~= Seq::empty());
    }
    while piece < ends.len()
        invariant
            piece <= ends@.len(),
            views == membership::owned_views(all@),
            list == segments(views),
            encodable(views),
            list == pieces(views, ends@),
            are_ends(ends@, views.len()),
            from == piece_start(ends@, piece as int),
            is_front(sections@, first, second, list.take(piece as int)),
        decreases ends@.len() - piece,
    {
        let to: usize = ends[piece];
        let ghost segment = list[piece as int];
        assert(piece_start(ends@, piece as int) <= ends@[piece as int] <= views.len());
        let mut records: Vec<BucketRecord<'_>> = Vec::new();
        let mut next: usize = from;
        while next < to
            invariant
                from <= next <= to <= all@.len(),
                views == membership::owned_views(all@),
                buckets::record_views(records@) =~= views.subrange(from as int, next as int),
            decreases to - next,
        {
            let record = BucketRecord::new(all[next].key, all[next].members.as_slice());
            let ghost before = records@;
            records.push(record);
            proof {
                assert(record@ == views[next as int]);
                assert(buckets::record_views(records@) =~= buckets::record_views(before).push(
                    record@,
                ));
                assert(views.subrange(from as int, next + 1) =~= views.subrange(
                    from as int,
                    next as int,
                ).push(views[next as int]));
            }
            next = next + 1;
        }
        proof {
            assert(segment == views.subrange(from as int, to as int));
            lemma_part_is_encodable(views, from as int, to as int);
            assert(list.take(piece + 1) =~= list.take(piece as int).push(segment));
            if oversized(list.take(piece + 1)) is Some {
                lemma_oversized_prefix(list, piece + 1);
            }
        }
        let payload = buckets::encode_bucket_segment(records.as_slice()).unwrap();
        match push_segment(
            &mut sections,
            payload,
            Ghost(first),
            Ghost(second),
            Ghost(list.take(piece as int)),
            Ghost(segment),
        ) {
            Ok(()) => {},
            Err(error) => {
                return Err(error);
            },
        }
        from = to;
        piece = piece + 1;
    }
    proof {
        assert(list.take(piece as int) =~= list);
    }
    finish(metadata, sections)
}

/// The stream that begins with the members of some of the buckets gives their
/// segment.
proof fn lemma_streamed_piece(all: Seq<Bucket>, from: int, to: int, stream: Seq<u8>)
    requires
        encodable(all),
        0 <= from <= to <= all.len(),
        stream == buckets::all_members_bytes(all).skip(
            buckets::all_members_bytes(all.take(from)).len() as int,
        ),
    ensures
        ({
            let segment = all.subrange(from, to);
            &&& bucket_stream::streamed(buckets::entries_of(segment), stream) == Ok::<
                Seq<u8>,
                buckets::BucketError,
            >(buckets::segment_bytes(segment))
            &&& buckets::segment_bytes(segment).len() == buckets::segment_size(segment)
            &&& buckets::all_members_bytes(all.take(to)).len() == buckets::all_members_bytes(
                all.take(from),
            ).len() + buckets::all_members_bytes(segment).len()
            &&& buckets::all_members_bytes(all.take(to)).len() <= buckets::all_members_bytes(
                all,
            ).len()
        }),
{
    let segment = all.subrange(from, to);
    let more = buckets::all_members_bytes(all.skip(to));
    lemma_part_is_encodable(all, from, to);
    lemma_part_fits(all, from, to);
    assert(stream =~= buckets::all_members_bytes(segment) + more);
    bucket_stream::law_streaming_equals_encoding(segment, more);
    lemma_members_of_parts(all.take(from), segment);
    assert(all.take(from) + segment =~= all.take(to));
    lemma_segment_len(segment);
}

/// Encode the container of an index whose buckets are given by their directory
/// and their concatenated member lists.
pub(crate) fn pack_streamed(
    metadata: IndexMetadata,
    keys: Vec<u8>,
    hashes: Vec<u8>,
    entries: &Vec<BucketWriteRecord>,
    members: &Vec<u8>,
    Ghost(all): Ghost<Seq<Bucket>>,
) -> (result: Result<Vec<u8>, FormatError>)
    requires
        metadata.wf(),
        keys@.len() <= MAX_SECTION_BYTES,
        hashes@.len() <= MAX_SECTION_BYTES,
        encodable(all),
        entries@ == buckets::entries_of(all),
        members@ == buckets::all_members_bytes(all),
    ensures
        match packed(metadata@, keys@, hashes@, all) {
            Err(error) => result == Err::<Vec<u8>, FormatError>(error),
            Ok(bytes) => result matches Ok(found) && found@ == bytes,
        },
{
    let ghost first = keys@;
    let ghost second = hashes@;
    let counts = count_members(entries, Ghost(all)).unwrap();
    let ends = segment_ends(&counts, Ghost(all));
    let ghost list = segments(all);
    let mut sections = front_sections(keys, hashes);
    let mut piece: usize = 0;
    let mut from: usize = 0;
    let mut offset: usize = 0;
    proof {
        assert(list.take(0) =~= Seq::empty());
        assert(all.take(0) =~= Seq::empty());
    }
    while piece < ends.len()
        invariant
            piece <= ends@.len(),
            list == segments(all),
            encodable(all),
            entries@ == buckets::entries_of(all),
            members@ == buckets::all_members_bytes(all),
            list == pieces(all, ends@),
            are_ends(ends@, all.len()),
            from == piece_start(ends@, piece as int),
            from <= all.len(),
            offset == buckets::all_members_bytes(all.take(from as int)).len(),
            offset <= members@.len(),
            is_front(sections@, first, second, list.take(piece as int)),
        decreases ends@.len() - piece,
    {
        let to: usize = ends[piece];
        let ghost segment = list[piece as int];
        assert(piece_start(ends@, piece as int) <= ends@[piece as int] <= all.len());
        let records = vstd::slice::slice_subrange(entries.as_slice(), from, to);
        let stream = vstd::slice::slice_subrange(members.as_slice(), offset, members.len());
        proof {
            assert(segment == all.subrange(from as int, to as int));
            assert(records@ =~= buckets::entries_of(segment));
            lemma_streamed_piece(all, from as int, to as int, stream@);
            assert(list.take(piece + 1) =~= list.take(piece as int).push(segment));
            if oversized(list.take(piece + 1)) is Some {
                lemma_oversized_prefix(list, piece + 1);
            }
        }
        let (payload, _) = bucket_stream::write_bucket_segment(records, stream).unwrap();
        let used: usize = payload.len() - (BUCKET_SEGMENT_HEADER_BYTES
            + BUCKET_DIRECTORY_ENTRY_BYTES * (to - from));
        match push_segment(
            &mut sections,
            payload,
            Ghost(first),
            Ghost(second),
            Ghost(list.take(piece as int)),
            Ghost(segment),
        ) {
            Ok(()) => {},
            Err(error) => {
                return Err(error);
            },
        }
        offset = offset + used;
        from = to;
        piece = piece + 1;
    }
    proof {
        assert(list.take(piece as int) =~= list);
    }
    finish(metadata, sections)
}

/// No segment is oversized exactly where each one is within the bound of a section.
pub proof fn law_no_segment_is_oversized(list: Seq<Seq<Bucket>>)
    ensures
        oversized(list) is None == forall|i: int|
            0 <= i < list.len() ==> buckets::segment_size(#[trigger] list[i]) <= 268_435_456,
    decreases list.len(),
{
    if list.len() > 0 {
        let front = list.drop_last();
        law_no_segment_is_oversized(front);
        assert(list[list.len() - 1] == list.last());
        if oversized(list) is None {
            assert forall|i: int| 0 <= i < list.len() implies buckets::segment_size(
                #[trigger] list[i],
            ) <= 268_435_456 by {
                if i < front.len() {
                    assert(front[i] == list[i]);
                }
            }
        }
        if forall|i: int|
            0 <= i < list.len() ==> buckets::segment_size(#[trigger] list[i]) <= 268_435_456 {
            assert forall|i: int| 0 <= i < front.len() implies buckets::segment_size(
                #[trigger] front[i],
            ) <= 268_435_456 by {
                assert(list[i] == front[i]);
            }
        }
    }
}

/// An index is packed exactly where no segment is larger than a section may be, there are
/// no more sections than a file may have, and the file can be addressed. It then has the
/// keys, the band hashes and the segments, in order.
pub proof fn law_which_indexes_are_packed(
    metadata: Metadata,
    keys: Seq<u8>,
    hashes: Seq<u8>,
    all: Seq<Bucket>,
)
    ensures
        ({
            let list = segments(all);
            let file = packed_file(metadata, keys, hashes, all);
            &&& packed(metadata, keys, hashes, all) is Ok == ((forall|i: int|
                0 <= i < list.len() ==> buckets::segment_size(#[trigger] list[i]) <= 268_435_456)
                && 2 + list.len() <= 1_024 && container::file_bytes(file).len() <= usize::MAX)
            &&& packed(metadata, keys, hashes, all) matches Ok(bytes) ==> bytes
                == container::file_bytes(file)
            &&& file.metadata == metadata
            &&& file.sections.len() == 2 + list.len()
            &&& file.sections[0] == (SectionView {
                kind: SectionKind::Keys,
                required: true,
                payload: keys,
            })
            &&& file.sections[1] == (SectionView {
                kind: SectionKind::BandHashes,
                required: true,
                payload: hashes,
            })
            &&& forall|i: int|
                0 <= i < list.len() ==> file.sections[2 + i] == (SectionView {
                    kind: SectionKind::Buckets,
                    required: true,
                    payload: buckets::segment_bytes(#[trigger] list[i]),
                })
        }),
{
    law_no_segment_is_oversized(segments(all));
}

proof fn lemma_cut_is_greedy(all: Seq<Bucket>)
    ensures
        forall|i: int|
            0 <= i < cut(all).len() ==> (#[trigger] cut(all)[i]).len() > 0,
        forall|i: int|
            #![trigger cut(all)[i]]
            0 <= i < cut(all).len() - 1 ==> buckets::segment_size(
                cut(all)[i].push(cut(all)[i + 1][0]),
            ) > 33_554_432,
        all.len() > 0 ==> cut(all).len() > 0,
    decreases all.len(),
{
    if all.len() > 0 {
        let rest = all.drop_last();
        let front = cut(rest);
        let bucket = all.last();
        lemma_cut_is_greedy(rest);
        let list = cut(all);
        assert forall|i: int| 0 <= i < list.len() implies (#[trigger] list[i]).len() > 0 by {
            if i < front.len() - 1 {
                assert(list[i] == front[i]);
            }
        }
        assert forall|i: int|
            #![trigger list[i]]
            0 <= i < list.len() - 1 implies buckets::segment_size(list[i].push(list[i + 1][0]))
            > 33_554_432 by {
            assert(list[i] == front[i]);
            if i + 1 < front.len() {
                assert(front[i + 1].len() > 0);
                assert(list[i + 1][0] == front[i + 1][0]);
            } else {
                assert(list[i + 1][0] == bucket);
            }
        }
    }
}

/// A segment is as large as it can be: the first bucket of the next one would not have
/// fitted.
pub proof fn law_segments_are_filled(all: Seq<Bucket>, index: int)
    requires
        0 <= index < segments(all).len() - 1,
    ensures
        segments(all)[index].len() > 0,
        segments(all)[index + 1].len() > 0,
        buckets::segment_size(segments(all)[index].push(segments(all)[index + 1][0])) > 33_554_432,
{
    lemma_cut_is_greedy(all);
    assert(cut(all)[index].len() > 0);
    assert(cut(all)[index + 1].len() > 0);
}

} // verus!
