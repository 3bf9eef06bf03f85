//! A paged bucket file: a layout that competes with bucket segments.
//!
//! The file is a header of 16 bytes, a directory with one entry of 40 bytes for
//! each page, and the pages. A page holds bucket records in ascending order;
//! its directory entry tells the first and the last of their identities. All
//! numbers are little-endian.
//!
//! | offset | bytes | header field |
//! |-------:|------:|--------------|
//! | 0 | 8 | the magic bytes `PARIPG1\0` |
//! | 8 | 4 | version |
//! | 12 | 4 | number of pages |
//!
//! | offset | bytes | entry field |
//! |-------:|------:|-------------|
//! | 0 | 4 | band of the first bucket |
//! | 4 | 8 | hash of the first bucket |
//! | 12 | 4 | band of the last bucket |
//! | 16 | 8 | hash of the last bucket |
//! | 24 | 8 | offset of the page |
//! | 32 | 4 | length of the page |
//! | 36 | 4 | reserved, zero |

use vstd::prelude::*;

use crate::format::buckets;
use crate::format::buckets::{Bucket, BucketKey, BucketRecord};
use crate::le;
use crate::order;

verus! {

/// A page is closed before a record that would make it longer than this.
pub const PAGE_TARGET_BYTES: usize = 32_768;

/// The magic bytes `PARIPG1\0`, read as one little-endian number.
pub const PAGE_MAGIC: u64 = 0x0031_4750_4952_4150;

/// The version that this reader understands.
pub const PAGE_VERSION: u32 = 1;

/// The size of the file header in bytes.
pub const PAGE_HEADER_BYTES: usize = 16;

/// The size of a directory entry in bytes.
pub const PAGE_DIRECTORY_BYTES: usize = 40;

/// The size of what precedes the members in a bucket record.
pub const BUCKET_RECORD_HEADER_BYTES: usize = 16;

/// What is wrong with a paged file, or with buckets that are to become one.
#[derive(Debug, Clone, Copy, PartialEq, Eq, Structural)]
pub enum PageError {
    /// A count or a length does not fit the field that holds it.
    TooLarge,
    /// The file begins with other bytes.
    Magic,
    /// The header is cut off.
    Truncated,
    /// The version is unknown.
    Version,
    /// The directory is cut off.
    TruncatedDirectory,
    /// Reserved bytes are not zero.
    Reserved,
    /// The last key of a page comes before its first key.
    ReversedKeys,
    /// A page begins before the one before it ends.
    OverlappingRanges,
    /// The keys of a page do not follow those of the page before it.
    OverlappingKeys,
    /// The end of a page cannot be told.
    RangeOverflow,
    /// A page ends behind the end of the file.
    RangeOutOfFile,
    /// The pages do not fill the file.
    TrailingBytes,
    /// A record header is cut off.
    TruncatedRecord,
    /// The members of a record are cut off.
    TruncatedMembers,
    /// A member list is no sequence of numbers.
    MisalignedMembers,
}

/// The encoded form of one bucket.
pub open spec fn record_bytes(bucket: Bucket) -> Seq<u8> {
    le::bytes(bucket.key.band as nat, 4) + le::bytes(bucket.key.hash as nat, 8) + le::bytes(
        bucket.members.len(),
        4,
    ) + buckets::members_bytes(bucket.members)
}

/// The encoded form of the buckets of one page.
pub open spec fn page_bytes(page: Seq<Bucket>) -> Seq<u8>
    decreases page.len(),
{
    if page.len() == 0 {
        Seq::empty()
    } else {
        page_bytes(page.drop_last()) + record_bytes(page.last())
    }
}

/// The size of the encoded form of one bucket.
pub open spec fn record_size(bucket: Bucket) -> nat {
    16 + 8 * bucket.members.len()
}

proof fn lemma_record_size(bucket: Bucket)
    ensures
        record_bytes(bucket).len() == record_size(bucket),
{
    broadcast use le::lemma_bytes_len;

    buckets::lemma_members_bytes_len(bucket.members);
}

/// Encode one bucket.
pub fn encode_bucket_record(record: &BucketRecord) -> (result: Result<Vec<u8>, PageError>)
    ensures
        if record@.members.len() > u32::MAX || record_size(record@) > usize::MAX {
            result == Err::<Vec<u8>, PageError>(PageError::TooLarge)
        } else {
            result matches Ok(bytes) && bytes@ == record_bytes(record@)
        },
{
    let count: usize = record.members.len();
    if count as u64 > u32::MAX as u64 {
        return Err(PageError::TooLarge);
    }
    let size: Option<usize> = match count.checked_mul(8) {
        Some(size) => size.checked_add(BUCKET_RECORD_HEADER_BYTES),
        None => None,
    };
    if size.is_none() {
        return Err(PageError::TooLarge);
    }
    let mut bytes: Vec<u8> = Vec::new();
    le::push_u32(&mut bytes, record.key.band);
    assert(bytes@ =~= le::bytes(record@.key.band as nat, 4));
    le::push_u64(&mut bytes, record.key.hash);
    le::push_u32(&mut bytes, count as u32);
    buckets::push_members(&mut bytes, record.members);
    Ok(bytes)
}

/// The buckets of each page, filled from the left.
pub open spec fn paged(list: Seq<Bucket>) -> Seq<Seq<Bucket>>
    decreases list.len(),
{
    if list.len() == 0 {
        Seq::empty()
    } else {
        let before = paged(list.drop_last());
        let bucket = list.last();
        if before.len() == 0 || page_bytes(before.last()).len() + record_size(bucket)
            > PAGE_TARGET_BYTES {
            before.push(seq![bucket])
        } else {
            before.drop_last().push(before.last().push(bucket))
        }
    }
}

/// The buckets of all pages, one page after the other.
pub open spec fn joined(pages: Seq<Seq<Bucket>>) -> Seq<Bucket>
    decreases pages.len(),
{
    if pages.len() == 0 {
        Seq::empty()
    } else {
        joined(pages.drop_last()) + pages.last()
    }
}

/// Paging loses and reorders nothing, and no page is empty.
pub proof fn law_pages_hold_the_buckets(list: Seq<Bucket>)
    ensures
        joined(paged(list)) == list,
        forall|i: int| 0 <= i < paged(list).len() ==> (#[trigger] paged(list)[i]).len() > 0,
    decreases list.len(),
{
    if list.len() > 0 {
        let front = list.drop_last();
        law_pages_hold_the_buckets(front);
        let before = paged(front);
        let bucket = list.last();
        let after = paged(list);
        assert(list =~= front.push(bucket));
        if before.len() == 0 || page_bytes(before.last()).len() + record_size(bucket)
            > PAGE_TARGET_BYTES {
            assert(after.drop_last() =~= before);
            assert(after.last() == seq![bucket]);
            assert(joined(after) == joined(before) + seq![bucket]);
            assert(joined(after) =~= list);
        } else {
            assert(after.drop_last() =~= before.drop_last());
            assert(after.last() == before.last().push(bucket));
            assert(joined(before) == joined(before.drop_last()) + before.last());
            assert(joined(after) =~= list);
        }
        assert forall|i: int| 0 <= i < after.len() implies (#[trigger] after[i]).len() > 0 by {
            if i < before.len() {
                assert(before[i].len() > 0);
            }
        }
    }
}

/// One page of a file.
#[derive(Debug)]
pub struct EncodedPage {
    /// The first bucket.
    pub first: BucketKey,
    /// The last bucket.
    pub last: BucketKey,
    /// The records.
    pub bytes: Vec<u8>,
}

/// The page holds these buckets.
pub open spec fn is_page(page: EncodedPage, list: Seq<Bucket>) -> bool {
    &&& list.len() > 0
    &&& page.first == list.first().key
    &&& page.last == list.last().key
    &&& page.bytes@ == page_bytes(list)
}

/// The pages hold these buckets.
pub open spec fn are_pages(pages: Seq<EncodedPage>, lists: Seq<Seq<Bucket>>) -> bool {
    &&& pages.len() == lists.len()
    &&& forall|i: int| 0 <= i < pages.len() ==> is_page(#[trigger] pages[i], lists[i])
}

/// Some bucket has too many members.
pub open spec fn oversized(list: Seq<Bucket>) -> bool {
    exists|i: int|
        0 <= i < list.len() && ((#[trigger] list[i]).members.len() > u32::MAX || record_size(
            list[i],
        ) > usize::MAX)
}

/// Cut encoded buckets into pages.
pub fn encode_pages(records: &[BucketRecord]) -> (result: Result<Vec<EncodedPage>, PageError>)
    ensures
        ({
            let list = buckets::record_views(records@);
            match result {
                Ok(pages) => !oversized(list) && are_pages(pages@, paged(list)),
                Err(error) => oversized(list) && error == PageError::TooLarge,
            }
        }),
{
    let ghost list = buckets::record_views(records@);
    let mut pages: Vec<EncodedPage> = Vec::new();
    let mut index: usize = 0;
    assert(list.take(0) =~= Seq::empty());
    while index < records.len()
        invariant
            index <= records@.len(),
            list == buckets::record_views(records@),
            are_pages(pages@, paged(list.take(index as int))),
            forall|i: int|
                0 <= i < index ==> (#[trigger] list[i]).members.len() <= u32::MAX && record_size(
                    list[i],
                ) <= usize::MAX,
        decreases records@.len() - index,
    {
        let record = &records[index];
        assert(list[index as int] == record@);
        let bytes = match encode_bucket_record(record) {
            Ok(bytes) => bytes,
            Err(error) => {
                return Err(error);
            },
        };
        let ghost done = list.take(index as int);
        let ghost next = list.take(index + 1);
        let ghost before = paged(done);
        let ghost old_pages = pages@;
        proof {
            assert(next.drop_last() =~= done);
            assert(next.last() == record@);
            lemma_record_size(record@);
            law_pages_hold_the_buckets(done);
        }
        let fresh = if pages.len() == 0 {
            true
        } else {
            let filled: usize = pages[pages.len() - 1].bytes.len();
            assert(is_page(pages@[pages@.len() - 1], before.last()));
            match filled.checked_add(bytes.len()) {
                Some(size) => size > PAGE_TARGET_BYTES,
                None => true,
            }
        };
        if fresh {
            let page = EncodedPage { first: record.key, last: record.key, bytes };
            proof {
                let single = seq![record@];
                assert(single.drop_last() =~= Seq::empty());
                assert(page.bytes@ =~= page_bytes(single)) by {
                    assert(page_bytes(single.drop_last()) =~= Seq::empty());
                    assert(single.last() == record@);
                }
            }
            pages.push(page);
        } else {
            let mut page = pages.pop().unwrap();
            proof {
                assert(is_page(page, before.last()));
            }
            page.last = record.key;
            page.bytes.extend_from_slice(bytes.as_slice());
            proof {
                let grown = before.last().push(record@);
                assert(grown.drop_last() =~= before.last());
                assert(page.bytes@ =~= page_bytes(grown));
                assert(grown.first() == before.last().first());
            }
            pages.push(page);
        }
        proof {
            let after = paged(next);
            assert forall|i: int| 0 <= i < pages@.len() implies is_page(
                #[trigger] pages@[i],
                after[i],
            ) by {
                if i < pages@.len() - 1 {
                    assert(pages@[i] == old_pages[i]);
                    assert(is_page(old_pages[i], before[i]));
                }
            }
        }
        index = index + 1;
    }
    assert(list.take(index as int) =~= list);
    Ok(pages)
}

/// Directory entry of one page.
#[derive(Debug, Clone, Copy, PartialEq, Eq, Structural)]
pub struct PageDescriptor {
    /// The first bucket.
    pub first: BucketKey,
    /// The last bucket.
    pub last: BucketKey,
    /// Where the page begins in the file.
    pub offset: u64,
    /// The length of the page.
    pub length: u32,
}

/// The encoded form of a directory entry.
pub open spec fn entry_bytes(entry: PageDescriptor) -> Seq<u8> {
    le::bytes(entry.first.band as nat, 4) + le::bytes(entry.first.hash as nat, 8) + le::bytes(
        entry.last.band as nat,
        4,
    ) + le::bytes(entry.last.hash as nat, 8) + le::bytes(entry.offset as nat, 8) + le::bytes(
        entry.length as nat,
        4,
    ) + le::bytes(0, 4)
}

/// The encoded directory.
pub open spec fn directory_bytes(entries: Seq<PageDescriptor>) -> Seq<u8>
    decreases entries.len(),
{
    if entries.len() == 0 {
        Seq::empty()
    } else {
        directory_bytes(entries.drop_last()) + entry_bytes(entries.last())
    }
}

/// The records of all pages, one page after the other.
pub open spec fn payload(lists: Seq<Seq<Bucket>>) -> Seq<u8>
    decreases lists.len(),
{
    if lists.len() == 0 {
        Seq::empty()
    } else {
        payload(lists.drop_last()) + page_bytes(lists.last())
    }
}

/// Where page number `at` begins.
pub open spec fn page_offset(lists: Seq<Seq<Bucket>>, at: int) -> nat {
    16 + 40 * lists.len() + payload(lists.take(at)).len()
}

/// The directory entry of page number `at`.
pub open spec fn descriptor(lists: Seq<Seq<Bucket>>, at: int) -> PageDescriptor {
    PageDescriptor {
        first: lists[at].first().key,
        last: lists[at].last().key,
        offset: page_offset(lists, at) as u64,
        length: page_bytes(lists[at]).len() as u32,
    }
}

/// The directory of pages.
pub open spec fn descriptors(lists: Seq<Seq<Bucket>>) -> Seq<PageDescriptor> {
    Seq::new(lists.len(), |i: int| descriptor(lists, i))
}

/// The header of a file with so many pages.
pub open spec fn header_bytes(pages: nat) -> Seq<u8> {
    le::bytes(PAGE_MAGIC as nat, 8) + le::bytes(PAGE_VERSION as nat, 4) + le::bytes(pages, 4)
}

/// The file that holds these pages.
pub open spec fn file_bytes(lists: Seq<Seq<Bucket>>) -> Seq<u8> {
    header_bytes(lists.len()) + directory_bytes(descriptors(lists)) + payload(lists)
}

/// Counts, lengths and offsets fit the fields that hold them.
pub open spec fn fits(lists: Seq<Seq<Bucket>>) -> bool {
    &&& lists.len() <= u32::MAX
    &&& 16 + 40 * lists.len() <= usize::MAX
    &&& forall|i: int| 0 <= i < lists.len() ==> page_bytes(#[trigger] lists[i]).len() <= u32::MAX
    &&& page_offset(lists, lists.len() as int) <= u64::MAX
}

proof fn lemma_payload_step(lists: Seq<Seq<Bucket>>, at: int)
    requires
        0 <= at < lists.len(),
    ensures
        payload(lists.take(at + 1)) == payload(lists.take(at)) + page_bytes(lists[at]),
        payload(lists.take(at + 1)).len() <= payload(lists).len(),
    decreases lists.len() - at,
{
    let next = lists.take(at + 1);
    assert(next.drop_last() =~= lists.take(at));
    assert(next.last() == lists[at]);
    if at + 1 < lists.len() {
        lemma_payload_step(lists, at + 1);
    } else {
        assert(next =~= lists);
    }
}

fn push_entry(out: &mut Vec<u8>, entry: &PageDescriptor)
    ensures
        final(out)@ == old(out)@ + entry_bytes(*entry),
{
    le::push_u32(out, entry.first.band);
    le::push_u64(out, entry.first.hash);
    le::push_u32(out, entry.last.band);
    le::push_u64(out, entry.last.hash);
    le::push_u64(out, entry.offset);
    le::push_u32(out, entry.length);
    le::push_u32(out, 0);
    assert(out@ =~= old(out)@ + entry_bytes(*entry));
}

fn describe(pages: &Vec<EncodedPage>, Ghost(lists): Ghost<Seq<Seq<Bucket>>>) -> (result: Result<
    Vec<PageDescriptor>,
    PageError,
>)
    requires
        are_pages(pages@, lists),
    ensures
        match result {
            Ok(entries) => fits(lists) && entries@ == descriptors(lists),
            Err(error) => !fits(lists) && error == PageError::TooLarge,
        },
{
    if pages.len() as u64 > u32::MAX as u64 {
        return Err(PageError::TooLarge);
    }
    let start: Option<usize> = match pages.len().checked_mul(PAGE_DIRECTORY_BYTES) {
        Some(size) => size.checked_add(PAGE_HEADER_BYTES),
        None => None,
    };
    let mut offset: u64 = match start {
        Some(start) => start as u64,
        None => {
            return Err(PageError::TooLarge);
        },
    };
    let mut entries: Vec<PageDescriptor> = Vec::new();
    let mut index: usize = 0;
    assert(lists.take(0) =~= Seq::empty());
    while index < pages.len()
        invariant
            index <= pages@.len(),
            are_pages(pages@, lists),
            lists.len() <= u32::MAX,
            16 + 40 * lists.len() <= usize::MAX,
            offset == page_offset(lists, index as int),
            entries@.len() == index,
            forall|i: int|
                0 <= i < index ==> page_bytes(#[trigger] lists[i]).len() <= u32::MAX,
            forall|i: int| 0 <= i < index ==> #[trigger] entries@[i] == descriptor(lists, i),
        decreases pages@.len() - index,
    {
        let page = &pages[index];
        assert(is_page(pages@[index as int], lists[index as int]));
        proof {
            lemma_payload_step(lists, index as int);
            assert(lists.take(lists.len() as int) =~= lists);
        }
        let size: usize = page.bytes.len();
        if size as u64 > u32::MAX as u64 {
            assert(page_bytes(lists[index as int]).len() > u32::MAX);
            return Err(PageError::TooLarge);
        }
        entries.push(
            PageDescriptor { first: page.first, last: page.last, offset, length: size as u32 },
        );
        offset = match offset.checked_add(size as u64) {
            Some(offset) => offset,
            None => {
                return Err(PageError::TooLarge);
            },
        };
        index = index + 1;
    }
    proof {
        assert(lists.take(index as int) =~= lists);
        assert(entries@ =~= descriptors(lists));
    }
    Ok(entries)
}

/// Encode buckets as a paged file.
pub fn build_page_file(records: &[BucketRecord]) -> (result: Result<Vec<u8>, PageError>)
    ensures
        ({
            let list = buckets::record_views(records@);
            match result {
                Ok(bytes) => !oversized(list) && fits(paged(list)) && bytes@ == file_bytes(
                    paged(list),
                ),
                Err(error) => (oversized(list) || !fits(paged(list))) && error
                    == PageError::TooLarge,
            }
        }),
{
    let ghost lists = paged(buckets::record_views(records@));
    let pages = match encode_pages(records) {
        Ok(pages) => pages,
        Err(error) => {
            return Err(error);
        },
    };
    let entries = match describe(&pages, Ghost(lists)) {
        Ok(entries) => entries,
        Err(error) => {
            return Err(error);
        },
    };
    let mut bytes: Vec<u8> = Vec::new();
    le::push_u64(&mut bytes, PAGE_MAGIC);
    assert(bytes@ =~= le::bytes(PAGE_MAGIC as nat, 8));
    le::push_u32(&mut bytes, PAGE_VERSION);
    le::push_u32(&mut bytes, pages.len() as u32);
    let ghost header = header_bytes(lists.len());
    assert(bytes@ =~= header);
    let mut index: usize = 0;
    assert(entries@.take(0) =~= Seq::empty());
    while index < entries.len()
        invariant
            index <= entries@.len(),
            bytes@ == header + directory_bytes(entries@.take(index as int)),
        decreases entries@.len() - index,
    {
        proof {
            let next = entries@.take(index + 1);
            assert(next.drop_last() =~= entries@.take(index as int));
            assert(next.last() == entries@[index as int]);
        }
        push_entry(&mut bytes, &entries[index]);
        index = index + 1;
        assert(bytes@ =~= header + directory_bytes(entries@.take(index as int)));
    }
    let ghost front = bytes@;
    assert(entries@.take(index as int) =~= entries@);
    let mut index: usize = 0;
    assert(lists.take(0) =~= Seq::empty());
    assert(bytes@ =~= front + payload(lists.take(0)));
    while index < pages.len()
        invariant
            index <= pages@.len(),
            are_pages(pages@, lists),
            bytes@ == front + payload(lists.take(index as int)),
        decreases pages@.len() - index,
    {
        proof {
            lemma_payload_step(lists, index as int);
            assert(is_page(pages@[index as int], lists[index as int]));
        }
        bytes.extend_from_slice(pages[index].bytes.as_slice());
        index = index + 1;
        assert(bytes@ =~= front + payload(lists.take(index as int)));
    }
    assert(lists.take(index as int) =~= lists);
    Ok(bytes)
}

/// The directory entry that stands at position `at` of a directory.
pub open spec fn entry_at(data: Seq<u8>, at: int) -> PageDescriptor {
    let start = 16 + 40 * at;
    PageDescriptor {
        first: BucketKey { band: le::u32_at(data, start), hash: le::u64_at(data, start + 4) },
        last: BucketKey { band: le::u32_at(data, start + 12), hash: le::u64_at(data, start + 16) },
        offset: le::u64_at(data, start + 24),
        length: le::u32_at(data, start + 32),
    }
}

/// Where the page of a directory entry ends.
pub open spec fn end_of(entry: PageDescriptor) -> int {
    entry.offset + entry.length
}

/// Where the pages that were read so far end.
pub open spec fn end_of_all(count: nat, read: Seq<PageDescriptor>) -> int {
    if read.len() == 0 {
        (16 + 40 * count) as int
    } else {
        end_of(read.last())
    }
}

/// What is wrong with entry number `read.len()` of a directory of `count`
/// entries, after the entries that were read before it.
pub open spec fn entry_error(
    data: Seq<u8>,
    count: nat,
    read: Seq<PageDescriptor>,
    file_length: u64,
) -> Option<PageError> {
    let at = read.len() as int;
    let entry = entry_at(data, at);
    if le::u32_at(data, 16 + 40 * at + 36) != 0 {
        Some(PageError::Reserved)
    } else if entry.last.before(entry.first) {
        Some(PageError::ReversedKeys)
    } else if entry.offset < end_of_all(count, read) {
        Some(PageError::OverlappingRanges)
    } else if read.len() > 0 && !read.last().last.before(entry.first) {
        Some(PageError::OverlappingKeys)
    } else if end_of(entry) > u64::MAX {
        Some(PageError::RangeOverflow)
    } else if end_of(entry) > file_length {
        Some(PageError::RangeOutOfFile)
    } else {
        None
    }
}

/// The first `upto` entries of a directory, or the first error in them.
pub open spec fn entries(data: Seq<u8>, count: nat, upto: nat, file_length: u64) -> Result<
    Seq<PageDescriptor>,
    PageError,
>
    decreases upto,
{
    if upto == 0 {
        Ok(Seq::empty())
    } else {
        match entries(data, count, (upto - 1) as nat, file_length) {
            Err(error) => Err(error),
            Ok(read) => match entry_error(data, count, read, file_length) {
                Some(error) => Err(error),
                None => Ok(read.push(entry_at(data, upto - 1))),
            },
        }
    }
}

/// The number of pages that the header of a file announces, or what is wrong with the
/// header.
pub open spec fn announced(data: Seq<u8>) -> Result<u32, PageError> {
    if data.len() < 8 || le::u64_at(data, 0) != PAGE_MAGIC {
        Err(PageError::Magic)
    } else if data.len() < 12 {
        Err(PageError::Truncated)
    } else if le::u32_at(data, 8) != PAGE_VERSION {
        Err(PageError::Version)
    } else if data.len() < 16 {
        Err(PageError::Truncated)
    } else {
        Ok(le::u32_at(data, 12))
    }
}

/// The directory at the beginning of a file, or what is wrong with it.
pub open spec fn directory(data: Seq<u8>, file_length: u64) -> Result<
    Seq<PageDescriptor>,
    PageError,
> {
    match announced(data) {
        Err(error) => Err(error),
        Ok(pages) => {
            let count = pages as nat;
            if 16 + 40 * count > usize::MAX {
                Err(PageError::TooLarge)
            } else if data.len() < 16 + 40 * count {
                Err(PageError::TruncatedDirectory)
            } else {
                match entries(data, count, count, file_length) {
                    Err(error) => Err(error),
                    Ok(read) => if end_of_all(count, read) != file_length {
                        Err(PageError::TrailingBytes)
                    } else {
                        Ok(read)
                    },
                }
            }
        },
    }
}

proof fn lemma_entries_error(data: Seq<u8>, count: nat, upto: nat, all: nat, file_length: u64)
    requires
        upto <= all,
        entries(data, count, upto, file_length) is Err,
    ensures
        entries(data, count, all, file_length) == entries(data, count, upto, file_length),
    decreases all,
{
    if upto < all {
        lemma_entries_error(data, count, upto, (all - 1) as nat, file_length);
    }
}

fn read_entry(data: &[u8], at: usize) -> (entry: PageDescriptor)
    requires
        16 + 40 * at + 40 <= data@.len(),
    ensures
        entry == entry_at(data@, at as int),
{
    let size: usize = data.len();
    assert(16 + 40 * at + 40 <= size);
    let start: usize = PAGE_HEADER_BYTES + PAGE_DIRECTORY_BYTES * at;
    PageDescriptor {
        first: BucketKey { band: le::read_u32(data, start), hash: le::read_u64(data, start + 4) },
        last: BucketKey {
            band: le::read_u32(data, start + 12),
            hash: le::read_u64(data, start + 16),
        },
        offset: le::read_u64(data, start + 24),
        length: le::read_u32(data, start + 32),
    }
}

fn check_entry(
    data: &[u8],
    count: usize,
    read: &Vec<PageDescriptor>,
    file_length: u64,
) -> (error: Option<PageError>)
    requires
        read@.len() < count,
        16 + 40 * count <= data@.len(),
    ensures
        error == entry_error(data@, count as nat, read@, file_length),
{
    let at: usize = read.len();
    let entry = read_entry(data, at);
    let size: usize = data.len();
    assert(16 + 40 * at + 40 <= size);
    if le::read_u32(data, PAGE_HEADER_BYTES + PAGE_DIRECTORY_BYTES * at + 36) != 0 {
        return Some(PageError::Reserved);
    }
    if entry.last.is_before(entry.first) {
        return Some(PageError::ReversedKeys);
    }
    if at == 0 {
        if (entry.offset as u128) < (16 + 40 * count) as u128 {
            return Some(PageError::OverlappingRanges);
        }
    } else {
        let before = &read[at - 1];
        if (entry.offset as u128) < before.offset as u128 + before.length as u128 {
            return Some(PageError::OverlappingRanges);
        }
        if !before.last.is_before(entry.first) {
            return Some(PageError::OverlappingKeys);
        }
    }
    match entry.offset.checked_add(entry.length as u64) {
        None => Some(PageError::RangeOverflow),
        Some(end) => if end > file_length {
            Some(PageError::RangeOutOfFile)
        } else {
            None
        },
    }
}

/// Read the number of pages that the header of a file announces.
pub fn announced_pages(data: &[u8]) -> (result: Result<u32, PageError>)
    ensures
        result == announced(data@),
{
    if data.len() < 8 || le::read_u64(data, 0) != PAGE_MAGIC {
        return Err(PageError::Magic);
    }
    if data.len() < 12 {
        return Err(PageError::Truncated);
    }
    if le::read_u32(data, 8) != PAGE_VERSION {
        return Err(PageError::Version);
    }
    if data.len() < 16 {
        return Err(PageError::Truncated);
    }
    Ok(le::read_u32(data, 12))
}

/// Read the directory at the beginning of a file of so many bytes.
pub fn parse_page_directory(data: &[u8], file_length: u64) -> (result: Result<
    Vec<PageDescriptor>,
    PageError,
>)
    ensures
        match directory(data@, file_length) {
            Err(error) => result == Err::<Vec<PageDescriptor>, PageError>(error),
            Ok(found) => result matches Ok(pages) && pages@ == found,
        },
{
    let announced: u32 = match announced_pages(data) {
        Ok(announced) => announced,
        Err(error) => {
            return Err(error);
        },
    };
    if announced as u128 * 40 + 16 > usize::MAX as u128 {
        return Err(PageError::TooLarge);
    }
    let count: usize = announced as usize;
    if data.len() < 16 + 40 * count {
        return Err(PageError::TruncatedDirectory);
    }
    let mut pages: Vec<PageDescriptor> = Vec::new();
    let mut index: usize = 0;
    while index < count
        invariant
            index <= count,
            16 + 40 * count <= data@.len(),
            16 + 40 * count <= usize::MAX,
            pages@.len() == index,
            entries(data@, count as nat, index as nat, file_length) == Ok::<
                Seq<PageDescriptor>,
                PageError,
            >(pages@),
            directory(data@, file_length) == match entries(
                data@,
                count as nat,
                count as nat,
                file_length,
            ) {
                Err(error) => Err(error),
                Ok(read) => if end_of_all(count as nat, read) != file_length {
                    Err(PageError::TrailingBytes)
                } else {
                    Ok(read)
                },
            },
        decreases count - index,
    {
        match check_entry(data, count, &pages, file_length) {
            Some(error) => {
                proof {
                    lemma_entries_error(
                        data@,
                        count as nat,
                        (index + 1) as nat,
                        count as nat,
                        file_length,
                    );
                }
                return Err(error);
            },
            None => {},
        }
        pages.push(read_entry(data, index));
        index = index + 1;
    }
    let end: u128 = if count == 0 {
        16
    } else {
        let last = &pages[count - 1];
        last.offset as u128 + last.length as u128
    };
    if end != file_length as u128 {
        return Err(PageError::TrailingBytes);
    }
    Ok(pages)
}

/// The key lies between the first and the last bucket of a page.
pub open spec fn covers(page: PageDescriptor, key: BucketKey) -> bool {
    !key.before(page.first) && !page.last.before(key)
}

/// The key ranges of the pages ascend and are disjoint.
pub open spec fn ordered_pages(pages: Seq<PageDescriptor>) -> bool {
    &&& forall|i: int|
        0 <= i < pages.len() ==> !(#[trigger] pages[i]).last.before(pages[i].first)
    &&& forall|i: int, j: int|
        0 <= i < j < pages.len() ==> (#[trigger] pages[i]).last.before(
            (#[trigger] pages[j]).first,
        )
}

proof fn lemma_entries_ordered(data: Seq<u8>, count: nat, upto: nat, file_length: u64)
    requires
        entries(data, count, upto, file_length) is Ok,
    ensures
        entries(data, count, upto, file_length)->Ok_0.len() == upto,
        ordered_pages(entries(data, count, upto, file_length)->Ok_0),
    decreases upto,
{
    if upto > 0 {
        lemma_entries_ordered(data, count, (upto - 1) as nat, file_length);
        let read = entries(data, count, (upto - 1) as nat, file_length)->Ok_0;
        let all = entries(data, count, upto, file_length)->Ok_0;
        let entry = entry_at(data, upto - 1);
        assert forall|i: int, j: int| 0 <= i < j < all.len() implies (
        #[trigger] all[i]).last.before((#[trigger] all[j]).first) by {
            if j == upto - 1 {
                assert(read.last().last.before(entry.first));
                if i < upto - 2 {
                    assert(read[i].last.before(read[upto - 2].first));
                    assert(!read[upto - 2].last.before(read[upto - 2].first));
                }
            }
        }
    }
}

/// The pages of a directory that was read are in order.
pub proof fn law_directory_is_ordered(data: Seq<u8>, file_length: u64)
    requires
        directory(data, file_length) is Ok,
    ensures
        ordered_pages(directory(data, file_length)->Ok_0),
{
    let count = le::u32_at(data, 12) as nat;
    lemma_entries_ordered(data, count, count, file_length);
}

/// The page that covers a key, if there is one.
pub fn find_page(pages: &Vec<PageDescriptor>, key: BucketKey) -> (found: Option<PageDescriptor>)
    requires
        ordered_pages(pages@),
    ensures
        match found {
            Some(page) => pages@.contains(page) && covers(page, key),
            None => forall|i: int| 0 <= i < pages@.len() ==> !covers(#[trigger] pages@[i], key),
        },
{
    let mut low: usize = 0;
    let mut high: usize = pages.len();
    while low < high
        invariant
            low <= high <= pages@.len(),
            ordered_pages(pages@),
            forall|i: int| 0 <= i < low ==> (#[trigger] pages@[i]).last.before(key),
            forall|i: int|
                high <= i < pages@.len() ==> !(#[trigger] pages@[i]).last.before(key),
        decreases high - low,
    {
        let middle: usize = low + (high - low) / 2;
        if pages[middle].last.is_before(key) {
            proof {
                assert forall|i: int| 0 <= i < middle + 1 implies (
                #[trigger] pages@[i]).last.before(key) by {
                    if i < middle {
                        assert(pages@[i].last.before(pages@[middle as int].first));
                        assert(!pages@[middle as int].last.before(pages@[middle as int].first));
                    }
                }
            }
            low = middle + 1;
        } else {
            proof {
                assert forall|i: int| middle <= i < pages@.len() implies !(
                #[trigger] pages@[i]).last.before(key) by {
                    if middle < i {
                        assert(pages@[middle as int].last.before(pages@[i].first));
                        assert(!pages@[i].last.before(pages@[i].first));
                    }
                }
            }
            high = middle;
        }
    }
    if low < pages.len() {
        let page = pages[low];
        if !key.is_before(page.first) {
            assert(pages@[low as int] == page);
            return Some(page);
        }
        proof {
            assert forall|i: int| 0 <= i < pages@.len() implies !covers(
                #[trigger] pages@[i],
                key,
            ) by {
                if i > low {
                    assert(pages@[low as int].last.before(pages@[i].first));
                    assert(!pages@[low as int].last.before(pages@[low as int].first));
                }
            }
        }
    }
    None
}

/// The bucket that the record at position `at` of a page belongs to.
pub open spec fn record_key(page: Seq<u8>, at: int) -> BucketKey {
    BucketKey { band: le::u32_at(page, at), hash: le::u64_at(page, at + 4) }
}

/// The members of a bucket in the records of a page from position `at` on, or
/// what is wrong with the records that come before it.
pub open spec fn scan(page: Seq<u8>, at: int, target: BucketKey) -> Result<
    Option<Seq<u64>>,
    PageError,
>
    decreases page.len() - at,
{
    if at >= page.len() {
        Ok(None)
    } else if page.len() - at < 16 {
        Err(PageError::TruncatedRecord)
    } else {
        let key = record_key(page, at);
        let size = 8 * le::u32_at(page, at + 12);
        if page.len() - at - 16 < size {
            Err(PageError::TruncatedMembers)
        } else if key == target {
            Ok(Some(buckets::members_of(page.subrange(at + 16, at + 16 + size))))
        } else if target.before(key) {
            Ok(None)
        } else {
            scan(page, at + 16 + size, target)
        }
    }
}

/// Append the numbers that a member list encodes.
fn push_numbers(out: &mut Vec<u64>, bytes: &[u8])
    ensures
        final(out)@ == old(out)@ + buckets::members_of(bytes@),
{
    let count: usize = bytes.len() / 8;
    let ghost members = buckets::members_of(bytes@);
    let mut index: usize = 0;
    assert(out@ =~= old(out)@ + members.take(0));
    while index < count
        invariant
            index <= count,
            count == bytes@.len() / 8,
            bytes@.len() <= usize::MAX,
            members == buckets::members_of(bytes@),
            out@ == old(out)@ + members.take(index as int),
        decreases count - index,
    {
        out.push(le::read_u64(bytes, 8 * index));
        index = index + 1;
        assert(out@ =~= old(out)@ + members.take(index as int));
    }
    assert(members.take(index as int) =~= members);
}

/// Append the numbers of an encoded member list of any origin.
pub fn collect_members(bytes: &[u8], candidates: &mut Vec<u64>) -> (result: Result<(), PageError>)
    ensures
        final(candidates)@ == old(candidates)@ + buckets::members_of(bytes@),
        result == (if bytes@.len() % 8 == 0 {
            Ok::<(), PageError>(())
        } else {
            Err(PageError::MisalignedMembers)
        }),
{
    push_numbers(candidates, bytes);
    if bytes.len() % 8 != 0 {
        return Err(PageError::MisalignedMembers);
    }
    Ok(())
}

/// The encoded member list of a bucket.
pub fn encode_members(members: &[u64]) -> (bytes: Vec<u8>)
    ensures
        bytes@ == buckets::members_bytes(members@),
{
    let mut bytes: Vec<u8> = Vec::new();
    buckets::push_members(&mut bytes, members);
    assert(bytes@ =~= buckets::members_bytes(members@));
    bytes
}

/// The identity of a bucket as the key of a table.
pub fn encode_bucket_key(key: BucketKey) -> (bytes: Vec<u8>)
    ensures
        bytes@ == le::bytes(key.band as nat, 4) + le::bytes(key.hash as nat, 8),
{
    let mut bytes: Vec<u8> = Vec::new();
    le::push_u32(&mut bytes, key.band);
    assert(bytes@ =~= le::bytes(key.band as nat, 4));
    le::push_u64(&mut bytes, key.hash);
    bytes
}

/// Append the members of a bucket, if a page holds it.
pub fn collect_bucket(page: &[u8], target: BucketKey, candidates: &mut Vec<u64>) -> (result: Result<
    (),
    PageError,
>)
    ensures
        match scan(page@, 0, target) {
            Err(error) => result == Err::<(), PageError>(error) && final(candidates)@ == old(candidates)@,
            Ok(None) => result is Ok && final(candidates)@ == old(candidates)@,
            Ok(Some(members)) => result is Ok && final(candidates)@ == old(candidates)@ + members,
        },
{
    let size: usize = page.len();
    let mut cursor: usize = 0;
    while cursor < size
        invariant
            cursor <= size == page@.len(),
            candidates@ == old(candidates)@,
            scan(page@, 0, target) == scan(page@, cursor as int, target),
        decreases size - cursor,
    {
        if size - cursor < BUCKET_RECORD_HEADER_BYTES {
            return Err(PageError::TruncatedRecord);
        }
        let key = BucketKey {
            band: le::read_u32(page, cursor),
            hash: le::read_u64(page, cursor + 4),
        };
        let count: u32 = le::read_u32(page, cursor + 12);
        let room: usize = size - cursor - BUCKET_RECORD_HEADER_BYTES;
        if (room as u64) < 8 * count as u64 {
            return Err(PageError::TruncatedMembers);
        }
        let start: usize = cursor + BUCKET_RECORD_HEADER_BYTES;
        let end: usize = start + 8 * count as usize;
        if key == target {
            push_numbers(candidates, vstd::slice::slice_subrange(page, start, end));
            return Ok(());
        }
        if target.is_before(key) {
            return Ok(());
        }
        cursor = end;
    }
    Ok(())
}

/// Some page covers the key.
pub open spec fn covered(pages: Seq<PageDescriptor>, key: BucketKey) -> bool {
    exists|i: int| 0 <= i < pages.len() && covers(#[trigger] pages[i], key)
}

/// The page that covers the key, where there is one.
pub open spec fn covering(pages: Seq<PageDescriptor>, key: BucketKey) -> PageDescriptor {
    pages[choose|i: int| 0 <= i < pages.len() && covers(#[trigger] pages[i], key)]
}

/// The members of a bucket in a file, or what is wrong with the page that
/// should hold it.
pub open spec fn lookup(file: Seq<u8>, pages: Seq<PageDescriptor>, key: BucketKey) -> Result<
    Seq<u64>,
    PageError,
> {
    if !covered(pages, key) {
        Ok(Seq::empty())
    } else {
        let page = covering(pages, key);
        if end_of(page) > file.len() {
            Err(PageError::RangeOutOfFile)
        } else {
            match scan(file.subrange(page.offset as int, end_of(page)), 0, key) {
                Err(error) => Err(error),
                Ok(None) => Ok(Seq::empty()),
                Ok(Some(members)) => Ok(members),
            }
        }
    }
}

/// The members of the first `upto` buckets in a file, bucket by bucket.
pub open spec fn lookups(
    file: Seq<u8>,
    pages: Seq<PageDescriptor>,
    keys: Seq<BucketKey>,
    upto: nat,
) -> Result<Seq<u64>, PageError>
    decreases upto,
{
    if upto == 0 {
        Ok(Seq::empty())
    } else {
        match lookups(file, pages, keys, (upto - 1) as nat) {
            Err(error) => Err(error),
            Ok(found) => match lookup(file, pages, keys[upto - 1]) {
                Err(error) => Err(error),
                Ok(members) => Ok(found + members),
            },
        }
    }
}

proof fn lemma_lookups_error(
    file: Seq<u8>,
    pages: Seq<PageDescriptor>,
    keys: Seq<BucketKey>,
    upto: nat,
    all: nat,
)
    requires
        upto <= all,
        lookups(file, pages, keys, upto) is Err,
    ensures
        lookups(file, pages, keys, all) == lookups(file, pages, keys, upto),
    decreases all,
{
    if upto < all {
        lemma_lookups_error(file, pages, keys, upto, (all - 1) as nat);
    }
}

/// Only one page covers a key.
proof fn lemma_one_page(pages: Seq<PageDescriptor>, at: int, key: BucketKey)
    requires
        ordered_pages(pages),
        0 <= at < pages.len(),
        covers(pages[at], key),
    ensures
        covered(pages, key),
        covering(pages, key) == pages[at],
{
    let i = choose|i: int| 0 <= i < pages.len() && covers(#[trigger] pages[i], key);
    if i < at {
        assert(pages[i].last.before(pages[at].first));
    } else if at < i {
        assert(pages[at].last.before(pages[i].first));
    }
}

/// The members of all wanted buckets, each once, in ascending order.
pub fn query_pages(file: &[u8], pages: &Vec<PageDescriptor>, wanted: &[BucketKey]) -> (result: Result<
    Vec<u64>,
    PageError,
>)
    requires
        ordered_pages(pages@),
    ensures
        match lookups(file@, pages@, wanted@, wanted@.len()) {
            Err(error) => result == Err::<Vec<u64>, PageError>(error),
            Ok(found) => result matches Ok(keys) && order::increasing(keys@) && keys@.to_set()
                == found.to_set(),
        },
{
    let mut found: Vec<u64> = Vec::new();
    let mut index: usize = 0;
    while index < wanted.len()
        invariant
            index <= wanted@.len(),
            ordered_pages(pages@),
            lookups(file@, pages@, wanted@, index as nat) == Ok::<Seq<u64>, PageError>(found@),
        decreases wanted@.len() - index,
    {
        let key = wanted[index];
        let ghost before = found@;
        match find_page(pages, key) {
            Some(page) => {
                proof {
                    let at = choose|at: int| 0 <= at < pages@.len() && pages@[at] == page;
                    lemma_one_page(pages@, at, key);
                }
                let end: u128 = page.offset as u128 + page.length as u128;
                if end > file.len() as u128 {
                    proof {
                        lemma_lookups_error(
                            file@,
                            pages@,
                            wanted@,
                            (index + 1) as nat,
                            wanted@.len(),
                        );
                    }
                    return Err(PageError::RangeOutOfFile);
                }
                let bytes = vstd::slice::slice_subrange(file, page.offset as usize, end as usize);
                match collect_bucket(bytes, key, &mut found) {
                    Ok(()) => {},
                    Err(error) => {
                        proof {
                            lemma_lookups_error(
                                file@,
                                pages@,
                                wanted@,
                                (index + 1) as nat,
                                wanted@.len(),
                            );
                        }
                        return Err(error);
                    },
                }
            },
            None => {},
        }
        assert(lookup(file@, pages@, key) is Ok);
        assert(found@ =~= before + lookup(file@, pages@, key)->Ok_0);
        index = index + 1;
    }
    Ok(order::sorted_unique(found))
}

} // verus!
