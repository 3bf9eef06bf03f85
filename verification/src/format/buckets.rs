//! Bucket segments: the payload of a `Buckets` section.
//!
//! A segment is a header of 40 bytes, a directory with one entry of 32 bytes
//! for each bucket, and the member lists in the order of the directory. All
//! numbers are little-endian.
//!
//! | offset | bytes | header field |
//! |-------:|------:|--------------|
//! | 0 | 8 | the magic bytes `PARIBKT\0` |
//! | 8 | 2 | segment version |
//! | 10 | 2 | header size |
//! | 12 | 8 | number of buckets |
//! | 20 | 8 | directory length |
//! | 28 | 4 | CRC-32 of the directory |
//! | 32 | 4 | CRC-32 of the 32 bytes before it |
//! | 36 | 4 | reserved, zero |
//!
//! | offset | bytes | entry field |
//! |-------:|------:|-------------|
//! | 0 | 4 | band |
//! | 4 | 4 | reserved, zero |
//! | 8 | 8 | band hash |
//! | 16 | 8 | offset of the member list in the segment |
//! | 24 | 4 | number of members |
//! | 28 | 4 | CRC-32 of the member list |

use vstd::prelude::*;

use crate::format::checksum;
use crate::format::container::SectionKind;
use crate::format::layout::{FileLayout, LayoutError, LayoutView, SectionDescriptor};
use crate::le;

verus! {

/// The magic bytes `PARIBKT\0`, read as one little-endian number.
pub const BUCKET_SEGMENT_MAGIC: u64 = 0x0054_4B42_4952_4150;

/// The segment version that this reader understands.
pub const BUCKET_SEGMENT_VERSION: u16 = 1;

/// The size of the segment header in bytes.
pub const BUCKET_SEGMENT_HEADER_BYTES: usize = 40;

/// The size of a directory entry in bytes.
pub const BUCKET_DIRECTORY_ENTRY_BYTES: usize = 32;

/// Target payload size used when splitting large bucket collections into
/// independently checksummed sections.
pub const BUCKET_SEGMENT_TARGET_BYTES: usize = 33_554_432;

/// Stable `(band, hash)` identity of one LSH bucket.
#[derive(Debug, Clone, Copy, PartialEq, Eq, PartialOrd, Ord, Structural)]
pub struct BucketKey {
    /// The zero-based band number.
    pub band: u32,
    /// The stable hash of the values in the band.
    pub hash: u64,
}

impl BucketKey {
    /// The key comes before `other`.
    pub open spec fn before(self, other: BucketKey) -> bool {
        self.band < other.band || (self.band == other.band && self.hash < other.hash)
    }

    /// Construct a bucket identity.
    pub fn new(band: u32, hash: u64) -> (key: BucketKey)
        ensures
            key == (BucketKey { band, hash }),
    {
        BucketKey { band, hash }
    }

    /// The zero-based band number.
    pub fn band(self) -> (band: u32)
        ensures
            band == self.band,
    {
        self.band
    }

    /// The stable hash of the values in the band.
    pub fn hash(self) -> (hash: u64)
        ensures
            hash == self.hash,
    {
        self.hash
    }

    /// Whether the key comes before `other`.
    pub fn is_before(self, other: BucketKey) -> (result: bool)
        ensures
            result == self.before(other),
    {
        self.band < other.band || (self.band == other.band && self.hash < other.hash)
    }
}

/// Each key comes before all that follow it.
pub open spec fn ascending(keys: Seq<BucketKey>) -> bool {
    forall|i: int, j: int|
        0 <= i < j < keys.len() ==> (#[trigger] keys[i]).before(#[trigger] keys[j])
}

/// What a bucket holds.
#[verifier::ext_equal]
pub struct Bucket {
    /// The bucket identity.
    pub key: BucketKey,
    /// The member keys.
    pub members: Seq<u64>,
}

/// The identities of the buckets.
pub open spec fn bucket_keys(buckets: Seq<Bucket>) -> Seq<BucketKey> {
    Seq::new(buckets.len(), |i: int| buckets[i].key)
}

/// Borrowed bucket record used by the encoder.
#[derive(Debug, Clone, Copy)]
pub struct BucketRecord<'a> {
    /// The bucket identity.
    pub key: BucketKey,
    /// The member keys.
    pub members: &'a [u64],
}

impl<'a> View for BucketRecord<'a> {
    type V = Bucket;

    open spec fn view(&self) -> Bucket {
        Bucket { key: self.key, members: self.members@ }
    }
}

impl<'a> BucketRecord<'a> {
    /// Construct one bucket record.
    pub fn new(key: BucketKey, members: &'a [u64]) -> (record: BucketRecord<'a>)
        ensures
            record@ == (Bucket { key, members: members@ }),
    {
        BucketRecord { key, members }
    }

    /// The bucket identity.
    pub fn key(self) -> (key: BucketKey)
        ensures
            key == self@.key,
    {
        self.key
    }

    /// The member keys.
    pub fn members(self) -> (members: &'a [u64])
        ensures
            members@ == self@.members,
    {
        self.members
    }
}

/// What each of the records holds.
pub open spec fn record_views(records: Seq<BucketRecord<'_>>) -> Seq<Bucket> {
    Seq::new(records.len(), |i: int| records[i]@)
}

/// Directory information on one bucket.
#[derive(Debug, Clone, Copy, PartialEq, Eq, Structural)]
pub struct BucketWriteRecord {
    /// The bucket identity.
    pub key: BucketKey,
    /// The number of member keys.
    pub member_count: u32,
    /// The CRC-32 of the encoded member list.
    pub member_checksum: u32,
}

impl BucketWriteRecord {
    /// Construct directory information on one bucket.
    pub fn new(key: BucketKey, member_count: u32, member_checksum: u32) -> (record:
        BucketWriteRecord)
        ensures
            record == (BucketWriteRecord { key, member_count, member_checksum }),
    {
        BucketWriteRecord { key, member_count, member_checksum }
    }

    /// The bucket identity.
    pub fn key(self) -> (key: BucketKey)
        ensures
            key == self.key,
    {
        self.key
    }

    /// The number of encoded members.
    pub fn member_count(self) -> (count: u32)
        ensures
            count == self.member_count,
    {
        self.member_count
    }

    /// The expected CRC-32 of the member bytes.
    pub fn member_checksum(self) -> (sum: u32)
        ensures
            sum == self.member_checksum,
    {
        self.member_checksum
    }
}

/// The identities in a directory.
pub open spec fn entry_keys(entries: Seq<BucketWriteRecord>) -> Seq<BucketKey> {
    Seq::new(entries.len(), |i: int| entries[i].key)
}

/// Exact location of one bucket's member list inside a `Buckets` section.
#[derive(Debug, Clone, Copy, PartialEq, Eq, Structural)]
pub struct BucketLocation {
    /// The bucket identity.
    pub key: BucketKey,
    /// The section that holds the bucket.
    pub section: SectionDescriptor,
    /// The offset of the member list in the section payload.
    pub member_offset: u64,
    /// The number of member keys.
    pub member_count: u32,
    /// The CRC-32 of the encoded member list.
    pub member_checksum: u32,
}

impl BucketLocation {
    /// The bucket identity.
    pub fn key(self) -> (key: BucketKey)
        ensures
            key == self.key,
    {
        self.key
    }

    /// The `Buckets` section that holds the bucket.
    pub fn section(self) -> (section: SectionDescriptor)
        ensures
            section == self.section,
    {
        self.section
    }

    /// The offset of the member list in the section payload.
    pub fn member_offset(self) -> (offset: u64)
        ensures
            offset == self.member_offset,
    {
        self.member_offset
    }

    /// The number of member keys.
    pub fn member_count(self) -> (count: u32)
        ensures
            count == self.member_count,
    {
        self.member_count
    }

    /// The CRC-32 of the encoded member list.
    pub fn member_checksum(self) -> (sum: u32)
        ensures
            sum == self.member_checksum,
    {
        self.member_checksum
    }
}

/// The identities of the located buckets.
pub open spec fn location_keys(locations: Seq<BucketLocation>) -> Seq<BucketKey> {
    Seq::new(locations.len(), |i: int| locations[i].key)
}

/// Errors produced by the bucket-segment codec.
#[derive(Debug, Clone, Copy, PartialEq, Eq)]
pub enum BucketError {
    /// Range validation in the outer container failed.
    Layout(LayoutError),
    /// Bucket bytes violate a structural invariant.
    Invalid { reason: &'static str },
    /// A checksummed bucket directory is corrupt.
    DirectoryChecksumMismatch { expected: u32, actual: u32 },
    /// A checksummed bucket member list is corrupt.
    MemberChecksumMismatch { expected: u32, actual: u32 },
    /// A length does not fit the type that holds it.
    LengthOverflow,
}

/// The encoded form of a member list.
pub open spec fn members_bytes(members: Seq<u64>) -> Seq<u8>
    decreases members.len(),
{
    if members.len() == 0 {
        Seq::empty()
    } else {
        members_bytes(members.drop_last()) + le::bytes(members.last() as nat, 8)
    }
}

/// The member list that a byte string encodes.
pub open spec fn members_of(bytes: Seq<u8>) -> Seq<u64> {
    Seq::new(bytes.len() / 8, |i: int| le::u64_at(bytes, 8 * i))
}

/// The encoded member lists of all buckets, one after the other.
pub open spec fn all_members_bytes(buckets: Seq<Bucket>) -> Seq<u8>
    decreases buckets.len(),
{
    if buckets.len() == 0 {
        Seq::empty()
    } else {
        all_members_bytes(buckets.drop_last()) + members_bytes(buckets.last().members)
    }
}

/// The directory information on a bucket.
pub open spec fn entry_of(bucket: Bucket) -> BucketWriteRecord {
    BucketWriteRecord {
        key: bucket.key,
        member_count: bucket.members.len() as u32,
        member_checksum: checksum::crc32(members_bytes(bucket.members)),
    }
}

/// The directory information on each of the buckets.
pub open spec fn entries_of(buckets: Seq<Bucket>) -> Seq<BucketWriteRecord> {
    Seq::new(buckets.len(), |i: int| entry_of(buckets[i]))
}

/// How many bytes the member lists of these entries take.
pub open spec fn span(entries: Seq<BucketWriteRecord>) -> nat
    decreases entries.len(),
{
    if entries.len() == 0 {
        0
    } else {
        span(entries.drop_last()) + 8 * entries.last().member_count as nat
    }
}

/// The encoded form of a directory entry.
pub open spec fn entry_bytes(entry: BucketWriteRecord, offset: nat) -> Seq<u8> {
    le::bytes(entry.key.band as nat, 4) + le::bytes(0, 4) + le::bytes(entry.key.hash as nat, 8)
        + le::bytes(offset, 8) + le::bytes(entry.member_count as nat, 4) + le::bytes(
        entry.member_checksum as nat,
        4,
    )
}

/// The encoded form of a directory whose first member list begins at `start`.
pub open spec fn directory_bytes(entries: Seq<BucketWriteRecord>, start: nat) -> Seq<u8>
    decreases entries.len(),
{
    if entries.len() == 0 {
        Seq::empty()
    } else {
        directory_bytes(entries.drop_last(), start) + entry_bytes(
            entries.last(),
            start + span(entries.drop_last()),
        )
    }
}

/// The offset of the first member list in a segment with `count` buckets.
pub open spec fn members_start(count: nat) -> nat {
    BUCKET_SEGMENT_HEADER_BYTES as nat + BUCKET_DIRECTORY_ENTRY_BYTES as nat * count
}

/// The part of a segment header that its checksum covers.
pub open spec fn checked_bytes(count: nat, directory: Seq<u8>) -> Seq<u8> {
    le::bytes(BUCKET_SEGMENT_MAGIC as nat, 8) + le::bytes(BUCKET_SEGMENT_VERSION as nat, 2)
        + le::bytes(BUCKET_SEGMENT_HEADER_BYTES as nat, 2) + le::bytes(count, 8) + le::bytes(
        directory.len(),
        8,
    ) + le::bytes(checksum::crc32(directory) as nat, 4)
}

/// The header of a segment.
pub open spec fn segment_header_bytes(count: nat, directory: Seq<u8>) -> Seq<u8> {
    let checked = checked_bytes(count, directory);
    checked + le::bytes(checksum::crc32(checked) as nat, 4) + le::bytes(0, 4)
}

/// The header and the directory of a segment.
pub open spec fn segment_front(entries: Seq<BucketWriteRecord>) -> Seq<u8> {
    let directory = directory_bytes(entries, members_start(entries.len()));
    segment_header_bytes(entries.len(), directory) + directory
}

/// The encoded form of a segment.
pub open spec fn segment_bytes(buckets: Seq<Bucket>) -> Seq<u8> {
    segment_front(entries_of(buckets)) + all_members_bytes(buckets)
}

/// The number of bytes in a segment.
pub open spec fn segment_size(buckets: Seq<Bucket>) -> nat {
    members_start(buckets.len()) + all_members_bytes(buckets).len()
}

/// The number of members of every bucket fits a directory entry.
pub open spec fn countable(buckets: Seq<Bucket>) -> bool {
    forall|i: int| 0 <= i < buckets.len() ==> (#[trigger] buckets[i]).members.len() <= u32::MAX
}

/// The error for buckets that cannot be encoded, if they cannot.
pub open spec fn segment_error(buckets: Seq<Bucket>) -> Option<BucketError> {
    if !ascending(bucket_keys(buckets)) {
        Some(
            BucketError::Invalid { reason: "bucket records must be strictly sorted and unique" },
        )
    } else if segment_size(buckets) > usize::MAX || !countable(buckets) {
        Some(BucketError::LengthOverflow)
    } else {
        None
    }
}

/// The encoded contribution of one bucket to a segment payload.
pub fn bucket_record_size(member_count: usize) -> (result: Result<usize, BucketError>)
    ensures
        if BUCKET_DIRECTORY_ENTRY_BYTES + 8 * member_count > usize::MAX {
            result == Err::<usize, BucketError>(BucketError::LengthOverflow)
        } else {
            result matches Ok(size) && size == BUCKET_DIRECTORY_ENTRY_BYTES + 8 * member_count
        },
{
    match member_count.checked_mul(8) {
        Some(bytes) => match BUCKET_DIRECTORY_ENTRY_BYTES.checked_add(bytes) {
            Some(size) => Ok(size),
            None => Err(BucketError::LengthOverflow),
        },
        None => Err(BucketError::LengthOverflow),
    }
}

pub(crate) proof fn lemma_members_bytes_len(members: Seq<u64>)
    ensures
        members_bytes(members).len() == 8 * members.len(),
    decreases members.len(),
{
    broadcast use le::lemma_bytes_len;

    if members.len() > 0 {
        lemma_members_bytes_len(members.drop_last());
    }
}

pub(crate) proof fn lemma_member_at(members: Seq<u64>, index: int)
    requires
        0 <= index < members.len(),
    ensures
        le::u64_at(members_bytes(members), 8 * index) == members[index],
    decreases members.len(),
{
    broadcast use le::lemma_bytes_len;

    let shorter = members.drop_last();
    let bytes = members_bytes(members);
    lemma_members_bytes_len(members);
    lemma_members_bytes_len(shorter);
    if index < members.len() - 1 {
        lemma_member_at(shorter, index);
        assert(bytes.subrange(8 * index, 8 * index + 8) =~= members_bytes(shorter).subrange(
            8 * index,
            8 * index + 8,
        ));
    } else {
        le::lemma_pow256_values();
        le::lemma_value_of_bytes(members.last() as nat, 8);
        assert(bytes.subrange(8 * index, 8 * index + 8) =~= le::bytes(members.last() as nat, 8));
    }
}

/// Decoding an encoded member list gives the list back.
pub proof fn law_members_round_trip(members: Seq<u64>)
    ensures
        members_of(members_bytes(members)) == members,
{
    lemma_members_bytes_len(members);
    assert forall|i: int| 0 <= i < members.len() implies members_of(members_bytes(members))[i]
        == members[i] by {
        lemma_member_at(members, i);
    }
    assert(members_of(members_bytes(members)) =~= members);
}

pub(crate) proof fn lemma_directory_len(entries: Seq<BucketWriteRecord>, start: nat)
    ensures
        directory_bytes(entries, start).len() == BUCKET_DIRECTORY_ENTRY_BYTES * entries.len(),
    decreases entries.len(),
{
    broadcast use le::lemma_bytes_len;

    if entries.len() > 0 {
        lemma_directory_len(entries.drop_last(), start);
    }
}

/// Append the encoded form of a member list.
pub(crate) fn push_members(out: &mut Vec<u8>, members: &[u64])
    ensures
        final(out)@ == old(out)@ + members_bytes(members@),
{
    let ghost before = out@;
    let mut index: usize = 0;
    assert(out@ =~= before + members_bytes(members@.take(0)));
    while index < members.len()
        invariant
            index <= members@.len(),
            out@ == before + members_bytes(members@.take(index as int)),
        decreases members@.len() - index,
    {
        let ghost done = out@;
        le::push_u64(out, members[index]);
        proof {
            let part = members@.take(index + 1);
            assert(part.drop_last() =~= members@.take(index as int));
            assert(out@ =~= before + members_bytes(part));
        }
        index = index + 1;
    }
    assert(members@.take(index as int) =~= members@);
}

/// Append a directory entry.
pub(crate) fn push_entry(out: &mut Vec<u8>, entry: BucketWriteRecord, offset: u64)
    ensures
        final(out)@ == old(out)@ + entry_bytes(entry, offset as nat),
{
    let ghost before = out@;
    le::push_u32(out, entry.key.band);
    le::push_u32(out, 0);
    le::push_u64(out, entry.key.hash);
    le::push_u64(out, offset);
    le::push_u32(out, entry.member_count);
    le::push_u32(out, entry.member_checksum);
    assert(out@ =~= before + entry_bytes(entry, offset as nat));
}

/// The header of a segment with this directory.
pub(crate) fn segment_header(count: usize, directory: &Vec<u8>) -> (out: Vec<u8>)
    ensures
        out@ == segment_header_bytes(count as nat, directory@),
{
    let mut out: Vec<u8> = Vec::new();
    le::push_u64(&mut out, BUCKET_SEGMENT_MAGIC);
    assert(out@ =~= le::bytes(BUCKET_SEGMENT_MAGIC as nat, 8));
    le::push_u16(&mut out, BUCKET_SEGMENT_VERSION);
    le::push_u16(&mut out, 40);
    le::push_u64(&mut out, count as u64);
    le::push_u64(&mut out, directory.len() as u64);
    le::push_u32(&mut out, checksum::checksum(directory.as_slice()));
    assert(out@ == checked_bytes(count as nat, directory@));
    let sum: u32 = checksum::checksum(out.as_slice());
    le::push_u32(&mut out, sum);
    le::push_u32(&mut out, 0);
    out
}

proof fn lemma_all_members_monotone(buckets: Seq<Bucket>, count: int)
    requires
        0 <= count <= buckets.len(),
    ensures
        all_members_bytes(buckets.take(count)).len() <= all_members_bytes(buckets).len(),
    decreases buckets.len(),
{
    if count == buckets.len() {
        assert(buckets.take(count) =~= buckets);
    } else {
        assert(buckets.drop_last().take(count) =~= buckets.take(count));
        lemma_all_members_monotone(buckets.drop_last(), count);
    }
}

/// One more bucket adds its members at the end.
proof fn lemma_all_members_step(buckets: Seq<Bucket>, index: int)
    requires
        0 <= index < buckets.len(),
    ensures
        all_members_bytes(buckets.take(index + 1)) == all_members_bytes(buckets.take(index))
            + members_bytes(buckets[index].members),
        all_members_bytes(buckets.take(index + 1)).len() == all_members_bytes(
            buckets.take(index),
        ).len() + 8 * buckets[index].members.len(),
        all_members_bytes(buckets.take(index + 1)).len() <= all_members_bytes(buckets).len(),
{
    assert(buckets.take(index + 1).drop_last() =~= buckets.take(index));
    assert(buckets.take(index + 1).last() == buckets[index]);
    lemma_members_bytes_len(buckets[index].members);
    lemma_all_members_monotone(buckets, index + 1);
}

/// One more entry is written after the others.
pub(crate) proof fn lemma_directory_step(
    entries: Seq<BucketWriteRecord>,
    start: nat,
    index: int,
)
    requires
        0 <= index < entries.len(),
    ensures
        directory_bytes(entries.take(index + 1), start) == directory_bytes(
            entries.take(index),
            start,
        ) + entry_bytes(entries[index], start + span(entries.take(index))),
        span(entries.take(index + 1)) == span(entries.take(index)) + 8
            * entries[index].member_count,
{
    assert(entries.take(index + 1).drop_last() =~= entries.take(index));
    assert(entries.take(index + 1).last() == entries[index]);
}

pub(crate) proof fn lemma_span_of_buckets(buckets: Seq<Bucket>)
    requires
        countable(buckets),
    ensures
        span(entries_of(buckets)) == all_members_bytes(buckets).len(),
    decreases buckets.len(),
{
    if buckets.len() > 0 {
        let shorter = buckets.drop_last();
        assert forall|i: int| 0 <= i < shorter.len() implies (
        #[trigger] shorter[i]).members.len() <= u32::MAX by {
            assert(shorter[i] == buckets[i]);
        }
        lemma_span_of_buckets(shorter);
        assert(entries_of(buckets).drop_last() =~= entries_of(shorter));
        lemma_members_bytes_len(buckets.last().members);
        assert(buckets.last() == buckets[buckets.len() - 1]);
    }
}

fn validate_record_order(records: &[BucketRecord<'_>]) -> (result: Result<(), BucketError>)
    ensures
        if ascending(bucket_keys(record_views(records@))) {
            result is Ok
        } else {
            result == Err::<(), BucketError>(
                BucketError::Invalid {
                    reason: "bucket records must be strictly sorted and unique",
                },
            )
        },
{
    let ghost keys = bucket_keys(record_views(records@));
    let mut index: usize = 1;
    while index < records.len()
        invariant
            1 <= index,
            keys == bucket_keys(record_views(records@)),
            forall|i: int, j: int|
                0 <= i < j < index && j < keys.len() ==> (#[trigger] keys[i]).before(
                    #[trigger] keys[j],
                ),
        decreases records@.len() - index,
    {
        let ghost left = keys[index - 1];
        if !records[index - 1].key.is_before(records[index].key) {
            assert(!left.before(keys[index as int]));
            return Err(
                BucketError::Invalid {
                    reason: "bucket records must be strictly sorted and unique",
                },
            );
        }
        assert(left.before(keys[index as int]));
        index = index + 1;
    }
    Ok(())
}

/// The number of bytes that the segment of these records takes.
fn measure(records: &[BucketRecord<'_>]) -> (result: Result<usize, BucketError>)
    ensures
        if segment_size(record_views(records@)) > usize::MAX {
            result == Err::<usize, BucketError>(BucketError::LengthOverflow)
        } else {
            result matches Ok(size) && size == segment_size(record_views(records@))
        },
{
    let ghost buckets = record_views(records@);
    let directory: usize = match records.len().checked_mul(BUCKET_DIRECTORY_ENTRY_BYTES) {
        Some(directory) => directory,
        None => {
            return Err(BucketError::LengthOverflow);
        },
    };
    let mut members: usize = 0;
    let mut index: usize = 0;
    while index < records.len()
        invariant
            index <= records@.len(),
            buckets == record_views(records@),
            members == all_members_bytes(buckets.take(index as int)).len(),
        decreases records@.len() - index,
    {
        proof {
            lemma_all_members_step(buckets, index as int);
        }
        members = match records[index].members.len().checked_mul(8) {
            Some(bytes) => match members.checked_add(bytes) {
                Some(sum) => sum,
                None => {
                    return Err(BucketError::LengthOverflow);
                },
            },
            None => {
                return Err(BucketError::LengthOverflow);
            },
        };
        index = index + 1;
    }
    assert(buckets.take(index as int) =~= buckets);
    match BUCKET_SEGMENT_HEADER_BYTES.checked_add(directory) {
        Some(start) => match start.checked_add(members) {
            Some(total) => Ok(total),
            None => Err(BucketError::LengthOverflow),
        },
        None => Err(BucketError::LengthOverflow),
    }
}

/// Encode one sorted bucket segment in the stable checksummed layout.
///
/// Records must be strictly ordered by `(band, hash)`. Empty segments are
/// valid and are used for empty indexes.
pub fn encode_bucket_segment(records: &[BucketRecord<'_>]) -> (result: Result<
    Vec<u8>,
    BucketError,
>)
    ensures
        match segment_error(record_views(records@)) {
            Some(error) => result == Err::<Vec<u8>, BucketError>(error),
            None => result matches Ok(bytes) && bytes@ == segment_bytes(record_views(records@)),
        },
{
    match validate_record_order(records) {
        Ok(()) => {},
        Err(error) => {
            return Err(error);
        },
    }
    match measure(records) {
        Ok(_) => {},
        Err(error) => {
            return Err(error);
        },
    }
    let ghost buckets = record_views(records@);
    let ghost entries = entries_of(buckets);
    let count: usize = records.len();
    let ghost start = members_start(count as nat);
    let mut directory: Vec<u8> = Vec::new();
    let mut members: Vec<u8> = Vec::new();
    let mut offset: u64 = (BUCKET_SEGMENT_HEADER_BYTES + BUCKET_DIRECTORY_ENTRY_BYTES
        * count) as u64;
    let mut index: usize = 0;
    while index < count
        invariant
            index <= count == records@.len(),
            buckets == record_views(records@),
            entries == entries_of(buckets),
            start == members_start(count as nat),
            segment_size(buckets) <= usize::MAX,
            countable(buckets.take(index as int)),
            ascending(bucket_keys(buckets)),
            directory@ == directory_bytes(entries.take(index as int), start),
            members@ == all_members_bytes(buckets.take(index as int)),
            offset == start + members@.len(),
            offset == start + span(entries.take(index as int)),
        decreases count - index,
    {
        let record = records[index];
        let from: usize = members.len();
        let ghost before = members@;
        proof {
            assert(record@ == buckets[index as int]);
            lemma_all_members_step(buckets, index as int);
            lemma_directory_step(entries, start, index as int);
            lemma_members_bytes_len(record@.members);
        }
        push_members(&mut members, record.members);
        if record.members.len() > u32::MAX as usize {
            assert(!countable(buckets)) by {
                assert(buckets[index as int].members.len() > u32::MAX);
            }
            return Err(BucketError::LengthOverflow);
        }
        let member_count: u32 = record.members.len() as u32;
        let member_checksum: u32 = checksum::checksum(
            vstd::slice::slice_subrange(members.as_slice(), from, members.len()),
        );
        proof {
            assert(members@.subrange(from as int, members@.len() as int) =~= members_bytes(
                record@.members,
            ));
            assert(entries[index as int] == entry_of(buckets[index as int]));
        }
        push_entry(
            &mut directory,
            BucketWriteRecord { key: record.key, member_count, member_checksum },
            offset,
        );
        offset = offset + 8 * member_count as u64;
        proof {
            let longer = buckets.take(index + 1);
            assert forall|i: int| 0 <= i < longer.len() implies (
            #[trigger] longer[i]).members.len() <= u32::MAX by {
                if i < index {
                    assert(longer[i] == buckets.take(index as int)[i]);
                }
            }
        }
        index = index + 1;
    }
    proof {
        assert(buckets.take(count as int) =~= buckets);
        assert(entries.take(count as int) =~= entries);
    }
    let mut output: Vec<u8> = segment_header(count, &directory);
    output.extend_from_slice(directory.as_slice());
    output.extend_from_slice(members.as_slice());
    assert(output@ =~= segment_bytes(buckets));
    Ok(output)
}

/// The number of directory bytes that a segment header announces, or the error
/// in the header.
pub open spec fn announced(header: Seq<u8>, payload_length: u64) -> Result<usize, BucketError> {
    let count = le::u64_at(header, 12);
    let size = le::u64_at(header, 20);
    if le::u64_at(header, 0) != BUCKET_SEGMENT_MAGIC {
        Err(BucketError::Invalid { reason: "invalid bucket segment magic" })
    } else if le::u16_at(header, 8) != BUCKET_SEGMENT_VERSION {
        Err(BucketError::Invalid { reason: "unsupported bucket segment version" })
    } else if le::u16_at(header, 10) != BUCKET_SEGMENT_HEADER_BYTES {
        Err(BucketError::Invalid { reason: "invalid bucket segment header size" })
    } else if le::u32_at(header, 36) != 0 {
        Err(BucketError::Invalid { reason: "bucket segment reserved bytes must be zero" })
    } else if le::u32_at(header, 32) != checksum::crc32(header.subrange(0, 32)) {
        Err(
            BucketError::DirectoryChecksumMismatch {
                expected: le::u32_at(header, 32),
                actual: checksum::crc32(header.subrange(0, 32)),
            },
        )
    } else if count > usize::MAX || size > usize::MAX || count * BUCKET_DIRECTORY_ENTRY_BYTES
        > usize::MAX {
        Err(BucketError::LengthOverflow)
    } else if size != count * BUCKET_DIRECTORY_ENTRY_BYTES {
        Err(
            BucketError::Invalid {
                reason: "bucket directory byte length does not match its record count",
            },
        )
    } else if BUCKET_SEGMENT_HEADER_BYTES + size > usize::MAX {
        Err(BucketError::LengthOverflow)
    } else if BUCKET_SEGMENT_HEADER_BYTES + size > payload_length {
        Err(
            BucketError::Invalid {
                reason: "bucket directory extends past the section payload",
            },
        )
    } else {
        Ok(size as usize)
    }
}

/// The directory entry at `index`.
pub open spec fn entry_at(directory: Seq<u8>, index: int) -> BucketWriteRecord {
    let at = BUCKET_DIRECTORY_ENTRY_BYTES * index;
    BucketWriteRecord {
        key: BucketKey { band: le::u32_at(directory, at), hash: le::u64_at(directory, at + 8) },
        member_count: le::u32_at(directory, at + 24),
        member_checksum: le::u32_at(directory, at + 28),
    }
}

/// The error in the directory entry at `index`, whose members should begin at
/// `offset`, if there is one.
pub open spec fn entry_error(
    directory: Seq<u8>,
    index: int,
    offset: int,
    bands: usize,
    payload_length: u64,
) -> Option<BucketError> {
    let at = BUCKET_DIRECTORY_ENTRY_BYTES * index;
    let entry = entry_at(directory, index);
    if le::u32_at(directory, at + 4) != 0 {
        Some(BucketError::Invalid { reason: "bucket directory reserved bytes must be zero" })
    } else if entry.key.band >= bands {
        Some(BucketError::Invalid { reason: "bucket directory band exceeds index metadata" })
    } else if index > 0 && !entry_at(directory, index - 1).key.before(entry.key) {
        Some(BucketError::Invalid { reason: "bucket segment keys are duplicated or unsorted" })
    } else if le::u64_at(directory, at + 16) != offset {
        Some(
            BucketError::Invalid {
                reason: "bucket member ranges contain a gap, overlap, or invalid offset",
            },
        )
    } else if offset + 8 * entry.member_count > u64::MAX {
        Some(BucketError::LengthOverflow)
    } else if offset + 8 * entry.member_count > payload_length {
        Some(
            BucketError::Invalid {
                reason: "bucket member range extends past the section payload",
            },
        )
    } else {
        None
    }
}

/// The locations of the buckets from directory entry `index` on, or the first
/// error on the way.
pub open spec fn locations_from(
    section: SectionDescriptor,
    directory: Seq<u8>,
    count: nat,
    index: int,
    offset: int,
    bands: usize,
) -> Result<Seq<BucketLocation>, BucketError>
    decreases directory.len() / 32 - index,
{
    let entry = entry_at(directory, index);
    let error = entry_error(directory, index, offset, bands, section.payload_length);
    if index >= directory.len() / 32 {
        if directory.len() / 32 != count {
            Err(
                BucketError::Invalid { reason: "bucket directory record count is inconsistent" },
            )
        } else if offset != section.payload_length {
            Err(BucketError::Invalid { reason: "bucket segment has trailing member bytes" })
        } else {
            Ok(Seq::empty())
        }
    } else if error is Some {
        Err(error->0)
    } else {
        match locations_from(
            section,
            directory,
            count,
            index + 1,
            offset + 8 * entry.member_count,
            bands,
        ) {
            Err(error) => Err(error),
            Ok(rest) => Ok(
                seq![
                    BucketLocation {
                        key: entry.key,
                        section,
                        member_offset: offset as u64,
                        member_count: entry.member_count,
                        member_checksum: entry.member_checksum,
                    },
                ] + rest,
            ),
        }
    }
}

/// The locations of the buckets in a directory, or the first error in it.
pub open spec fn directory_locations(
    section: SectionDescriptor,
    header: Seq<u8>,
    directory: Seq<u8>,
    bands: usize,
) -> Result<Seq<BucketLocation>, BucketError> {
    if le::u32_at(header, 28) != checksum::crc32(directory) {
        Err(
            BucketError::DirectoryChecksumMismatch {
                expected: le::u32_at(header, 28),
                actual: checksum::crc32(directory),
            },
        )
    } else if bands > u32::MAX {
        Err(BucketError::LengthOverflow)
    } else {
        locations_from(
            section,
            directory,
            le::u64_at(header, 12) as nat,
            0,
            BUCKET_SEGMENT_HEADER_BYTES + directory.len(),
            bands,
        )
    }
}

/// The locations of the buckets in a section, or the error that reading its
/// directory gives.
pub open spec fn located(
    layout: LayoutView,
    file: Seq<u8>,
    section: SectionDescriptor,
    bands: usize,
) -> Result<Seq<BucketLocation>, BucketError> {
    match section_error(section) {
        Some(error) => Err(error),
        None => match layout.range(file, section, 0, BUCKET_SEGMENT_HEADER_BYTES) {
            Err(error) => Err(BucketError::Layout(error)),
            Ok(header) => match announced(header, section.payload_length) {
                Err(error) => Err(error),
                Ok(size) => match layout.range(file, section, 40, size) {
                    Err(error) => Err(BucketError::Layout(error)),
                    Ok(directory) => directory_locations(section, header, directory, bands),
                },
            },
        },
    }
}

/// The error for a section that cannot hold a bucket segment, if it cannot.
pub open spec fn section_error(section: SectionDescriptor) -> Option<BucketError> {
    if section.kind != SectionKind::Buckets || !section.required {
        Some(
            BucketError::Invalid { reason: "bucket segment must be a required Buckets section" },
        )
    } else if section.payload_length < BUCKET_SEGMENT_HEADER_BYTES {
        Some(BucketError::Invalid { reason: "bucket segment header is truncated" })
    } else {
        None
    }
}

/// Check that a section can hold a bucket segment.
pub fn check_section(section: SectionDescriptor) -> (result: Result<(), BucketError>)
    ensures
        match section_error(section) {
            Some(error) => result == Err::<(), BucketError>(error),
            None => result is Ok,
        },
{
    if section.kind != SectionKind::Buckets || !section.required {
        return Err(
            BucketError::Invalid { reason: "bucket segment must be a required Buckets section" },
        );
    }
    if section.payload_length < BUCKET_SEGMENT_HEADER_BYTES as u64 {
        return Err(BucketError::Invalid { reason: "bucket segment header is truncated" });
    }
    Ok(())
}

/// Check a segment header and find the size of the directory that follows it.
pub fn read_announced(header: &[u8], payload_length: u64) -> (result: Result<usize, BucketError>)
    requires
        header@.len() == BUCKET_SEGMENT_HEADER_BYTES,
    ensures
        result == announced(header@, payload_length),
{
    if le::read_u64(header, 0) != BUCKET_SEGMENT_MAGIC {
        return Err(BucketError::Invalid { reason: "invalid bucket segment magic" });
    }
    if le::read_u16(header, 8) != BUCKET_SEGMENT_VERSION {
        return Err(BucketError::Invalid { reason: "unsupported bucket segment version" });
    }
    if le::read_u16(header, 10) as usize != BUCKET_SEGMENT_HEADER_BYTES {
        return Err(BucketError::Invalid { reason: "invalid bucket segment header size" });
    }
    if le::read_u32(header, 36) != 0 {
        return Err(
            BucketError::Invalid { reason: "bucket segment reserved bytes must be zero" },
        );
    }
    let expected: u32 = le::read_u32(header, 32);
    let actual: u32 = checksum::checksum(vstd::slice::slice_subrange(header, 0, 32));
    if expected != actual {
        return Err(BucketError::DirectoryChecksumMismatch { expected, actual });
    }
    let count: u64 = le::read_u64(header, 12);
    let size: u64 = le::read_u64(header, 20);
    if count > usize::MAX as u64 || size > usize::MAX as u64 {
        return Err(BucketError::LengthOverflow);
    }
    let expected_size: usize = match (count as usize).checked_mul(BUCKET_DIRECTORY_ENTRY_BYTES) {
        Some(bytes) => bytes,
        None => {
            return Err(BucketError::LengthOverflow);
        },
    };
    if size as usize != expected_size {
        return Err(
            BucketError::Invalid {
                reason: "bucket directory byte length does not match its record count",
            },
        );
    }
    let members_start: usize = match BUCKET_SEGMENT_HEADER_BYTES.checked_add(size as usize) {
        Some(start) => start,
        None => {
            return Err(BucketError::LengthOverflow);
        },
    };
    if members_start as u64 > payload_length {
        return Err(
            BucketError::Invalid {
                reason: "bucket directory extends past the section payload",
            },
        );
    }
    Ok(size as usize)
}

/// Check a directory entry.
fn check_entry(
    directory: &[u8],
    index: usize,
    offset: u64,
    bands: usize,
    payload_length: u64,
) -> (result: Result<BucketWriteRecord, BucketError>)
    requires
        BUCKET_DIRECTORY_ENTRY_BYTES * (index + 1) <= directory@.len(),
    ensures
        match entry_error(directory@, index as int, offset as int, bands, payload_length) {
            Some(error) => result == Err::<BucketWriteRecord, BucketError>(error),
            None => result == Ok::<BucketWriteRecord, BucketError>(
                entry_at(directory@, index as int),
            ),
        },
{
    let size: usize = directory.len();
    let at: usize = BUCKET_DIRECTORY_ENTRY_BYTES * index;
    if le::read_u32(directory, at + 4) != 0 {
        return Err(
            BucketError::Invalid { reason: "bucket directory reserved bytes must be zero" },
        );
    }
    let key = BucketKey {
        band: le::read_u32(directory, at),
        hash: le::read_u64(directory, at + 8),
    };
    if key.band as u64 >= bands as u64 {
        return Err(
            BucketError::Invalid { reason: "bucket directory band exceeds index metadata" },
        );
    }
    if index > 0 {
        let previous = BucketKey {
            band: le::read_u32(directory, at - BUCKET_DIRECTORY_ENTRY_BYTES),
            hash: le::read_u64(directory, at - BUCKET_DIRECTORY_ENTRY_BYTES + 8),
        };
        if !previous.is_before(key) {
            return Err(
                BucketError::Invalid { reason: "bucket segment keys are duplicated or unsorted" },
            );
        }
    }
    if le::read_u64(directory, at + 16) != offset {
        return Err(
            BucketError::Invalid {
                reason: "bucket member ranges contain a gap, overlap, or invalid offset",
            },
        );
    }
    let member_count: u32 = le::read_u32(directory, at + 24);
    let member_end: u64 = match offset.checked_add(8 * member_count as u64) {
        Some(end) => end,
        None => {
            return Err(BucketError::LengthOverflow);
        },
    };
    if member_end > payload_length {
        return Err(
            BucketError::Invalid {
                reason: "bucket member range extends past the section payload",
            },
        );
    }
    Ok(
        BucketWriteRecord {
            key,
            member_count,
            member_checksum: le::read_u32(directory, at + 28),
        },
    )
}

/// Reading `done` and then `rest` is the same as reading `goal`.
spec fn continues(
    goal: Result<Seq<BucketLocation>, BucketError>,
    done: Seq<BucketLocation>,
    rest: Result<Seq<BucketLocation>, BucketError>,
) -> bool {
    match rest {
        Err(error) => goal == Err::<Seq<BucketLocation>, BucketError>(error),
        Ok(rest) => goal == Ok::<Seq<BucketLocation>, BucketError>(done + rest),
    }
}

fn decode_directory_entries(
    section: SectionDescriptor,
    directory: &[u8],
    count: u64,
    bands: usize,
) -> (result: Result<Vec<BucketLocation>, BucketError>)
    requires
        BUCKET_SEGMENT_HEADER_BYTES + directory@.len() <= usize::MAX,
        bands <= u32::MAX,
    ensures
        match locations_from(
            section,
            directory@,
            count as nat,
            0,
            BUCKET_SEGMENT_HEADER_BYTES + directory@.len(),
            bands,
        ) {
            Err(error) => result == Err::<Vec<BucketLocation>, BucketError>(error),
            Ok(found) => result matches Ok(locations) && locations@ == found,
        },
{
    let entries: usize = directory.len() / BUCKET_DIRECTORY_ENTRY_BYTES;
    let mut offset: u64 = (BUCKET_SEGMENT_HEADER_BYTES + directory.len()) as u64;
    let mut locations: Vec<BucketLocation> = Vec::new();
    let ghost goal = locations_from(section, directory@, count as nat, 0, offset as int, bands);
    proof {
        if goal is Ok {
            assert(locations@ + goal->Ok_0 =~= goal->Ok_0);
        }
    }
    let mut index: usize = 0;
    while index < entries
        invariant
            index <= entries,
            entries == directory@.len() / 32,
            goal == locations_from(
                section,
                directory@,
                count as nat,
                0,
                BUCKET_SEGMENT_HEADER_BYTES + directory@.len(),
                bands,
            ),
            continues(
                goal,
                locations@,
                locations_from(
                    section,
                    directory@,
                    count as nat,
                    index as int,
                    offset as int,
                    bands,
                ),
            ),
        decreases entries - index,
    {
        let ghost before = locations@;
        let entry = match check_entry(directory, index, offset, bands, section.payload_length) {
            Ok(entry) => entry,
            Err(error) => {
                return Err(error);
            },
        };
        let location = BucketLocation {
            key: entry.key,
            section,
            member_offset: offset,
            member_count: entry.member_count,
            member_checksum: entry.member_checksum,
        };
        locations.push(location);
        offset = offset + 8 * entry.member_count as u64;
        index = index + 1;
        proof {
            let rest = locations_from(
                section,
                directory@,
                count as nat,
                index as int,
                offset as int,
                bands,
            );
            if rest is Ok {
                assert(before + (seq![location] + rest->Ok_0) =~= locations@ + rest->Ok_0);
            }
        }
    }
    if entries as u64 != count {
        return Err(
            BucketError::Invalid { reason: "bucket directory record count is inconsistent" },
        );
    }
    if offset != section.payload_length {
        return Err(BucketError::Invalid { reason: "bucket segment has trailing member bytes" });
    }
    assert(locations@ + Seq::empty() =~= locations@);
    Ok(locations)
}

/// Check a directory that has been read and locate its buckets.
pub fn decode_directory(
    section: SectionDescriptor,
    header: &[u8],
    directory: &[u8],
    bands: usize,
) -> (result: Result<Vec<BucketLocation>, BucketError>)
    requires
        header@.len() == BUCKET_SEGMENT_HEADER_BYTES,
        BUCKET_SEGMENT_HEADER_BYTES + directory@.len() <= usize::MAX,
    ensures
        match directory_locations(section, header@, directory@, bands) {
            Err(error) => result == Err::<Vec<BucketLocation>, BucketError>(error),
            Ok(found) => result matches Ok(locations) && locations@ == found,
        },
{
    let expected: u32 = le::read_u32(header, 28);
    let actual: u32 = checksum::checksum(directory);
    if expected != actual {
        return Err(BucketError::DirectoryChecksumMismatch { expected, actual });
    }
    if bands > u32::MAX as usize {
        return Err(BucketError::LengthOverflow);
    }
    decode_directory_entries(section, directory, le::read_u64(header, 12), bands)
}

/// Decode and validate one `Buckets` section without reading member lists.
pub fn decode_bucket_segment(
    layout: &FileLayout,
    file: &[u8],
    section: SectionDescriptor,
    bands: usize,
) -> (result: Result<Vec<BucketLocation>, BucketError>)
    ensures
        match located(layout@, file@, section, bands) {
            Err(error) => result == Err::<Vec<BucketLocation>, BucketError>(error),
            Ok(found) => result matches Ok(locations) && locations@ == found,
        },
{
    match check_section(section) {
        Ok(()) => {},
        Err(error) => {
            return Err(error);
        },
    }
    let header = match layout.read_section_range(file, section, 0, BUCKET_SEGMENT_HEADER_BYTES) {
        Ok(header) => header,
        Err(error) => {
            return Err(BucketError::Layout(error));
        },
    };
    let size: usize = match read_announced(header.as_slice(), section.payload_length) {
        Ok(size) => size,
        Err(error) => {
            return Err(error);
        },
    };
    let directory = match layout.read_section_range(file, section, 40, size) {
        Ok(directory) => directory,
        Err(error) => {
            return Err(BucketError::Layout(error));
        },
    };
    decode_directory(section, header.as_slice(), directory.as_slice(), bands)
}

/// The members of a located bucket, given the bytes of its member list.
pub open spec fn checked_members(location: BucketLocation, bytes: Seq<u8>) -> Result<
    Seq<u64>,
    BucketError,
> {
    if checksum::crc32(bytes) != location.member_checksum {
        Err(
            BucketError::MemberChecksumMismatch {
                expected: location.member_checksum,
                actual: checksum::crc32(bytes),
            },
        )
    } else {
        Ok(members_of(bytes))
    }
}

/// The members of a located bucket, or the error that reading them gives.
pub open spec fn members_at(layout: LayoutView, file: Seq<u8>, location: BucketLocation) -> Result<
    Seq<u64>,
    BucketError,
> {
    if 8 * location.member_count > usize::MAX {
        Err(BucketError::LengthOverflow)
    } else {
        match layout.range(
            file,
            location.section,
            location.member_offset,
            (8 * location.member_count) as usize,
        ) {
            Err(error) => Err(BucketError::Layout(error)),
            Ok(bytes) => checked_members(location, bytes),
        }
    }
}

/// Verify the bytes of a member list and decode its keys.
pub fn decode_members(location: BucketLocation, bytes: &[u8]) -> (result: Result<
    Vec<u64>,
    BucketError,
>)
    ensures
        match checked_members(location, bytes@) {
            Err(error) => result == Err::<Vec<u64>, BucketError>(error),
            Ok(found) => result matches Ok(members) && members@ == found,
        },
{
    let actual: u32 = checksum::checksum(bytes);
    if actual != location.member_checksum {
        return Err(
            BucketError::MemberChecksumMismatch { expected: location.member_checksum, actual },
        );
    }
    let count: usize = bytes.len() / 8;
    let mut members: Vec<u64> = Vec::new();
    let mut index: usize = 0;
    while index < count
        invariant
            index <= count,
            count == bytes@.len() / 8,
            bytes@.len() <= usize::MAX,
            members@ =~= members_of(bytes@).take(index as int),
        decreases count - index,
    {
        members.push(le::read_u64(bytes, 8 * index));
        index = index + 1;
    }
    assert(members_of(bytes@).take(index as int) =~= members_of(bytes@));
    Ok(members)
}

/// Verify a bucket member range and return its decoded keys.
pub fn read_bucket_members(
    layout: &FileLayout,
    file: &[u8],
    location: BucketLocation,
) -> (result: Result<Vec<u64>, BucketError>)
    ensures
        match members_at(layout@, file@, location) {
            Err(error) => result == Err::<Vec<u64>, BucketError>(error),
            Ok(found) => result matches Ok(members) && members@ == found,
        },
{
    let length: usize = match (location.member_count as usize).checked_mul(8) {
        Some(length) => length,
        None => {
            return Err(BucketError::LengthOverflow);
        },
    };
    match layout.read_section_range(file, location.section, location.member_offset, length) {
        Ok(bytes) => decode_members(location, bytes.as_slice()),
        Err(error) => Err(BucketError::Layout(error)),
    }
}

/// Ensure that locations from several bucket sections are sorted by their keys
/// and that no key occurs twice.
pub fn validate_global_bucket_order(locations: &[BucketLocation]) -> (result: Result<
    (),
    BucketError,
>)
    ensures
        if ascending(location_keys(locations@)) {
            result is Ok
        } else {
            result == Err::<(), BucketError>(
                BucketError::Invalid {
                    reason: "bucket directory contains duplicate or unsorted bucket keys",
                },
            )
        },
{
    let ghost keys = location_keys(locations@);
    let mut index: usize = 1;
    while index < locations.len()
        invariant
            1 <= index,
            keys == location_keys(locations@),
            forall|i: int, j: int|
                0 <= i < j < index && j < keys.len() ==> (#[trigger] keys[i]).before(
                    #[trigger] keys[j],
                ),
        decreases locations@.len() - index,
    {
        let ghost left = keys[index - 1];
        if !locations[index - 1].key.is_before(locations[index].key) {
            assert(!left.before(keys[index as int]));
            return Err(
                BucketError::Invalid {
                    reason: "bucket directory contains duplicate or unsorted bucket keys",
                },
            );
        }
        assert(left.before(keys[index as int]));
        index = index + 1;
    }
    Ok(())
}

/// The file holds the payload of the section, and the layout belongs to it.
pub open spec fn stored(
    layout: LayoutView,
    file: Seq<u8>,
    section: SectionDescriptor,
    payload: Seq<u8>,
) -> bool {
    &&& file.len() == layout.file_length
    &&& section.payload_offset + section.payload_length <= file.len()
    &&& section.payload_length == payload.len()
    &&& section.payload(file) == payload
}

proof fn lemma_stored_range(
    layout: LayoutView,
    file: Seq<u8>,
    section: SectionDescriptor,
    payload: Seq<u8>,
    offset: u64,
    length: usize,
)
    requires
        stored(layout, file, section, payload),
        offset + length <= payload.len(),
    ensures
        layout.range(file, section, offset, length) == Ok::<Seq<u8>, LayoutError>(
            payload.subrange(offset as int, offset + length),
        ),
{
    let start = section.payload_offset + offset;
    assert(file.subrange(start, start + length) =~= payload.subrange(
        offset as int,
        offset + length,
    ));
}

/// The header of a segment announces its directory.
proof fn lemma_announced(count: nat, directory: Seq<u8>, payload_length: u64)
    requires
        directory.len() == BUCKET_DIRECTORY_ENTRY_BYTES * count,
        BUCKET_SEGMENT_HEADER_BYTES + directory.len() <= usize::MAX,
        BUCKET_SEGMENT_HEADER_BYTES + directory.len() <= payload_length,
    ensures
        ({
            let header = segment_header_bytes(count, directory);
            &&& header.len() == BUCKET_SEGMENT_HEADER_BYTES
            &&& announced(header, payload_length) == Ok::<usize, BucketError>(
                directory.len() as usize,
            )
            &&& le::u64_at(header, 12) == count
            &&& le::u32_at(header, 28) == checksum::crc32(directory)
        }),
{
    broadcast use le::lemma_bytes_len;

    let checked = checked_bytes(count, directory);
    let header = segment_header_bytes(count, directory);
    le::lemma_pow256_values();
    le::lemma_value_of_bytes(BUCKET_SEGMENT_MAGIC as nat, 8);
    le::lemma_value_of_bytes(BUCKET_SEGMENT_VERSION as nat, 2);
    le::lemma_value_of_bytes(BUCKET_SEGMENT_HEADER_BYTES as nat, 2);
    le::lemma_value_of_bytes(count, 8);
    le::lemma_value_of_bytes(directory.len(), 8);
    le::lemma_value_of_bytes(checksum::crc32(directory) as nat, 4);
    le::lemma_value_of_bytes(checksum::crc32(checked) as nat, 4);
    le::lemma_value_of_bytes(0, 4);
    assert(header.subrange(0, 8) =~= le::bytes(BUCKET_SEGMENT_MAGIC as nat, 8));
    assert(header.subrange(8, 10) =~= le::bytes(BUCKET_SEGMENT_VERSION as nat, 2));
    assert(header.subrange(10, 12) =~= le::bytes(BUCKET_SEGMENT_HEADER_BYTES as nat, 2));
    assert(header.subrange(12, 20) =~= le::bytes(count, 8));
    assert(header.subrange(20, 28) =~= le::bytes(directory.len(), 8));
    assert(header.subrange(28, 32) =~= le::bytes(checksum::crc32(directory) as nat, 4));
    assert(header.subrange(32, 36) =~= le::bytes(checksum::crc32(checked) as nat, 4));
    assert(header.subrange(36, 40) =~= le::bytes(0, 4));
    assert(header.subrange(0, 32) =~= checked);
}

/// A directory entry is read back from where it stands.
proof fn lemma_entry_at(entries: Seq<BucketWriteRecord>, start: nat, index: int)
    requires
        0 <= index < entries.len(),
        start + span(entries) <= u64::MAX,
    ensures
        ({
            let directory = directory_bytes(entries, start);
            let at = BUCKET_DIRECTORY_ENTRY_BYTES * index;
            &&& entry_at(directory, index) == entries[index]
            &&& le::u32_at(directory, at + 4) == 0
            &&& le::u64_at(directory, at + 16) == start + span(entries.take(index))
            &&& span(entries.take(index)) + 8 * entries[index].member_count <= span(entries)
        }),
    decreases entries.len(),
{
    broadcast use le::lemma_bytes_len;

    let shorter = entries.drop_last();
    let directory = directory_bytes(entries, start);
    let at = BUCKET_DIRECTORY_ENTRY_BYTES * index;
    lemma_directory_len(entries, start);
    lemma_directory_len(shorter, start);
    if index < entries.len() - 1 {
        let front = directory_bytes(shorter, start);
        lemma_entry_at(shorter, start, index);
        assert(shorter.take(index) =~= entries.take(index));
        assert(directory.subrange(at, at + 4) =~= front.subrange(at, at + 4));
        assert(directory.subrange(at + 4, at + 8) =~= front.subrange(at + 4, at + 8));
        assert(directory.subrange(at + 8, at + 16) =~= front.subrange(at + 8, at + 16));
        assert(directory.subrange(at + 16, at + 24) =~= front.subrange(at + 16, at + 24));
        assert(directory.subrange(at + 24, at + 28) =~= front.subrange(at + 24, at + 28));
        assert(directory.subrange(at + 28, at + 32) =~= front.subrange(at + 28, at + 32));
    } else {
        let entry = entries.last();
        let offset = start + span(shorter);
        assert(entries.take(index) =~= shorter);
        le::lemma_pow256_values();
        le::lemma_value_of_bytes(entry.key.band as nat, 4);
        le::lemma_value_of_bytes(0, 4);
        le::lemma_value_of_bytes(entry.key.hash as nat, 8);
        le::lemma_value_of_bytes(offset, 8);
        le::lemma_value_of_bytes(entry.member_count as nat, 4);
        le::lemma_value_of_bytes(entry.member_checksum as nat, 4);
        assert(directory.subrange(at, at + 4) =~= le::bytes(entry.key.band as nat, 4));
        assert(directory.subrange(at + 4, at + 8) =~= le::bytes(0, 4));
        assert(directory.subrange(at + 8, at + 16) =~= le::bytes(entry.key.hash as nat, 8));
        assert(directory.subrange(at + 16, at + 24) =~= le::bytes(offset, 8));
        assert(directory.subrange(at + 24, at + 28) =~= le::bytes(entry.member_count as nat, 4));
        assert(directory.subrange(at + 28, at + 32) =~= le::bytes(
            entry.member_checksum as nat,
            4,
        ));
    }
}

/// Where the bucket of each directory entry is found.
pub open spec fn expected_location(
    section: SectionDescriptor,
    entries: Seq<BucketWriteRecord>,
    index: int,
) -> BucketLocation {
    BucketLocation {
        key: entries[index].key,
        section,
        member_offset: (members_start(entries.len()) + span(entries.take(index))) as u64,
        member_count: entries[index].member_count,
        member_checksum: entries[index].member_checksum,
    }
}

proof fn lemma_locations(
    section: SectionDescriptor,
    entries: Seq<BucketWriteRecord>,
    index: int,
    bands: usize,
)
    requires
        0 <= index <= entries.len(),
        section.payload_length == members_start(entries.len()) + span(entries),
        ascending(entry_keys(entries)),
        forall|i: int| 0 <= i < entries.len() ==> (#[trigger] entries[i]).key.band < bands,
    ensures
        locations_from(
            section,
            directory_bytes(entries, members_start(entries.len())),
            entries.len(),
            index,
            (members_start(entries.len()) + span(entries.take(index))) as int,
            bands,
        ) == Ok::<Seq<BucketLocation>, BucketError>(
            Seq::new(
                (entries.len() - index) as nat,
                |i: int| expected_location(section, entries, index + i),
            ),
        ),
    decreases entries.len() - index,
{
    let start = members_start(entries.len());
    let directory = directory_bytes(entries, start);
    let offset = start + span(entries.take(index));
    let expected = Seq::new(
        (entries.len() - index) as nat,
        |i: int| expected_location(section, entries, index + i),
    );
    lemma_directory_len(entries, start);
    if index == entries.len() {
        assert(entries.take(index) =~= entries);
        assert(expected =~= Seq::empty());
    } else {
        lemma_entry_at(entries, start, index);
        lemma_directory_step(entries, start, index);
        lemma_locations(section, entries, index + 1, bands);
        if index > 0 {
            lemma_entry_at(entries, start, index - 1);
            assert(entry_keys(entries)[index - 1].before(entry_keys(entries)[index]));
        }
        let rest = Seq::new(
            (entries.len() - index - 1) as nat,
            |i: int| expected_location(section, entries, index + 1 + i),
        );
        assert(seq![expected_location(section, entries, index)] + rest =~= expected);
    }
}

/// The member list of a bucket stands after those of the buckets before it.
pub(crate) proof fn lemma_member_range(buckets: Seq<Bucket>, index: int)
    requires
        0 <= index < buckets.len(),
        countable(buckets),
    ensures
        ({
            let from = span(entries_of(buckets).take(index)) as int;
            let size = 8 * buckets[index].members.len();
            &&& from + size <= all_members_bytes(buckets).len()
            &&& all_members_bytes(buckets).subrange(from, from + size) == members_bytes(
                buckets[index].members,
            )
        }),
    decreases buckets.len(),
{
    let shorter = buckets.drop_last();
    let from = span(entries_of(buckets).take(index)) as int;
    let size = 8 * buckets[index].members.len();
    assert forall|i: int| 0 <= i < shorter.len() implies (
    #[trigger] shorter[i]).members.len() <= u32::MAX by {
        assert(shorter[i] == buckets[i]);
    }
    lemma_members_bytes_len(buckets.last().members);
    lemma_span_of_buckets(shorter);
    if index < buckets.len() - 1 {
        lemma_member_range(shorter, index);
        assert(entries_of(shorter).take(index) =~= entries_of(buckets).take(index));
        assert(all_members_bytes(buckets).subrange(from, from + size) =~= all_members_bytes(
            shorter,
        ).subrange(from, from + size));
    } else {
        assert(entries_of(buckets).take(index) =~= entries_of(shorter));
        assert(all_members_bytes(buckets).subrange(from, from + size) =~= members_bytes(
            buckets.last().members,
        ));
    }
}

proof fn lemma_segment_parts(buckets: Seq<Bucket>)
    requires
        segment_error(buckets) is None,
    ensures
        ({
            let entries = entries_of(buckets);
            let start = members_start(buckets.len());
            let directory = directory_bytes(entries, start);
            let header = segment_header_bytes(entries.len(), directory);
            let payload = segment_bytes(buckets);
            &&& header.len() == BUCKET_SEGMENT_HEADER_BYTES
            &&& directory.len() == BUCKET_DIRECTORY_ENTRY_BYTES * buckets.len()
            &&& payload.len() == start + span(entries)
            &&& payload.len() == segment_size(buckets)
            &&& span(entries) == all_members_bytes(buckets).len()
            &&& payload.subrange(0, 40) == header
            &&& payload.subrange(40, start as int) == directory
            &&& payload.subrange(start as int, payload.len() as int) == all_members_bytes(buckets)
        }),
{
    broadcast use le::lemma_bytes_len;

    let entries = entries_of(buckets);
    let start = members_start(buckets.len());
    let directory = directory_bytes(entries, start);
    let header = segment_header_bytes(entries.len(), directory);
    let payload = segment_bytes(buckets);
    lemma_directory_len(entries, start);
    lemma_span_of_buckets(buckets);
    assert(header.len() == BUCKET_SEGMENT_HEADER_BYTES);
    assert(payload.subrange(0, 40) =~= header);
    assert(payload.subrange(40, start as int) =~= directory);
    assert(payload.subrange(start as int, payload.len() as int) =~= all_members_bytes(buckets));
}

proof fn lemma_located(
    layout: LayoutView,
    file: Seq<u8>,
    section: SectionDescriptor,
    buckets: Seq<Bucket>,
    bands: usize,
)
    requires
        segment_error(buckets) is None,
        section.kind == SectionKind::Buckets,
        section.required,
        stored(layout, file, section, segment_bytes(buckets)),
        bands <= u32::MAX,
        forall|i: int| 0 <= i < buckets.len() ==> (#[trigger] buckets[i]).key.band < bands,
    ensures
        located(layout, file, section, bands) == Ok::<Seq<BucketLocation>, BucketError>(
            Seq::new(
                buckets.len(),
                |i: int| expected_location(section, entries_of(buckets), i),
            ),
        ),
{
    let entries = entries_of(buckets);
    let start = members_start(buckets.len());
    let directory = directory_bytes(entries, start);
    let payload = segment_bytes(buckets);
    lemma_segment_parts(buckets);
    let size = directory.len() as usize;
    lemma_announced(entries.len(), directory, section.payload_length);
    lemma_stored_range(layout, file, section, payload, 0, BUCKET_SEGMENT_HEADER_BYTES);
    lemma_stored_range(layout, file, section, payload, 40, size);
    assert(entry_keys(entries) =~= bucket_keys(buckets));
    assert forall|i: int| 0 <= i < entries.len() implies (#[trigger] entries[i]).key.band
        < bands by {
        assert(buckets[i].key.band < bands);
    }
    assert(entries.take(0) =~= Seq::empty());
    lemma_locations(section, entries, 0, bands);
    assert(Seq::new(entries.len(), |i: int| expected_location(section, entries, 0 + i))
        =~= Seq::new(buckets.len(), |i: int| expected_location(section, entries, i)));
}

proof fn lemma_members_found(
    layout: LayoutView,
    file: Seq<u8>,
    section: SectionDescriptor,
    buckets: Seq<Bucket>,
    index: int,
)
    requires
        segment_error(buckets) is None,
        stored(layout, file, section, segment_bytes(buckets)),
        0 <= index < buckets.len(),
    ensures
        members_at(layout, file, expected_location(section, entries_of(buckets), index)) == Ok::<
            Seq<u64>,
            BucketError,
        >(buckets[index].members),
{
    let entries = entries_of(buckets);
    let payload = segment_bytes(buckets);
    let start = members_start(buckets.len()) as int;
    let location = expected_location(section, entries, index);
    assert(buckets[index].members.len() <= u32::MAX);
    lemma_segment_parts(buckets);
    lemma_member_range(buckets, index);
    let within = span(entries.take(index)) as int;
    let from = location.member_offset as int;
    assert(from == start + within);
    let length = (8 * location.member_count) as usize;
    lemma_stored_range(layout, file, section, payload, location.member_offset, length);
    assert(payload.subrange(from, from + length) =~= payload.subrange(
        start,
        payload.len() as int,
    ).subrange(within, within + length));
    law_members_round_trip(buckets[index].members);
}

/// An encoded segment that stands in a required `Buckets` section is decoded to
/// one location for each bucket, in order, and reading a location gives the
/// members of its bucket back.
pub proof fn law_segment_round_trip(
    layout: LayoutView,
    file: Seq<u8>,
    section: SectionDescriptor,
    buckets: Seq<Bucket>,
    bands: usize,
)
    requires
        segment_error(buckets) is None,
        section.kind == SectionKind::Buckets,
        section.required,
        stored(layout, file, section, segment_bytes(buckets)),
        bands <= u32::MAX,
        forall|i: int| 0 <= i < buckets.len() ==> (#[trigger] buckets[i]).key.band < bands,
    ensures
        located(layout, file, section, bands) matches Ok(locations) && {
            &&& location_keys(locations) == bucket_keys(buckets)
            &&& forall|i: int|
                0 <= i < buckets.len() ==> members_at(layout, file, #[trigger] locations[i])
                    == Ok::<Seq<u64>, BucketError>(buckets[i].members)
        },
{
    lemma_located(layout, file, section, buckets, bands);
    let locations = located(layout, file, section, bands)->Ok_0;
    assert(location_keys(locations) =~= bucket_keys(buckets));
    assert forall|i: int| 0 <= i < buckets.len() implies members_at(
        layout,
        file,
        #[trigger] locations[i],
    ) == Ok::<Seq<u64>, BucketError>(buckets[i].members) by {
        lemma_members_found(layout, file, section, buckets, i);
    }
}

/// Where the member list of a bucket begins in the file.
pub open spec fn members_begin(location: BucketLocation) -> int {
    location.section.payload_offset + location.member_offset
}

/// The byte is one of the member list of a bucket.
pub open spec fn is_member_byte(location: BucketLocation, at: int) -> bool {
    members_begin(location) <= at < members_begin(location) + 8 * location.member_count
}

/// One altered byte of a member list that can be read is always noticed: reading the
/// members then gives a checksum mismatch.
pub proof fn law_altered_member_list_is_rejected(
    layout: LayoutView,
    file: Seq<u8>,
    location: BucketLocation,
    at: int,
    byte: u8,
)
    requires
        members_at(layout, file, location) is Ok,
        is_member_byte(location, at),
        byte != file[at],
    ensures
        members_at(layout, file.update(at, byte), location) matches Err(
            BucketError::MemberChecksumMismatch { expected, actual },
        ) && expected == location.member_checksum && actual != expected,
{
    let altered = file.update(at, byte);
    let start = members_begin(location);
    let end = start + 8 * location.member_count;
    let bytes = file.subrange(start, end);
    assert(altered.subrange(start, end) =~= bytes.update(at - start, byte));
    checksum::law_one_altered_byte_changes_the_checksum(bytes, at - start, byte);
}

/// Of an encoded segment that stands in a required `Buckets` section, one altered
/// byte of a member list is noticed when that list is read, and no other list is
/// affected.
pub proof fn law_altered_segment_is_noticed(
    layout: LayoutView,
    file: Seq<u8>,
    section: SectionDescriptor,
    buckets: Seq<Bucket>,
    bands: usize,
    index: int,
    at: int,
    byte: u8,
)
    requires
        segment_error(buckets) is None,
        section.kind == SectionKind::Buckets,
        section.required,
        stored(layout, file, section, segment_bytes(buckets)),
        bands <= u32::MAX,
        forall|i: int| 0 <= i < buckets.len() ==> (#[trigger] buckets[i]).key.band < bands,
        0 <= index < buckets.len(),
        is_member_byte(located(layout, file, section, bands)->Ok_0[index], at),
        byte != file[at],
    ensures
        ({
            let locations = located(layout, file, section, bands)->Ok_0;
            let altered = file.update(at, byte);
            &&& members_at(layout, altered, locations[index]) matches Err(
                BucketError::MemberChecksumMismatch { .. },
            )
            &&& forall|i: int|
                0 <= i < buckets.len() && !is_member_byte(#[trigger] locations[i], at)
                    ==> members_at(layout, altered, locations[i]) == Ok::<Seq<u64>, BucketError>(
                    buckets[i].members,
                )
        }),
{
    law_segment_round_trip(layout, file, section, buckets, bands);
    let locations = located(layout, file, section, bands)->Ok_0;
    let altered = file.update(at, byte);
    assert(members_at(layout, file, locations[index]) is Ok);
    law_altered_member_list_is_rejected(layout, file, locations[index], at, byte);
    assert forall|i: int|
        0 <= i < buckets.len() && !is_member_byte(#[trigger] locations[i], at) implies members_at(
        layout,
        altered,
        locations[i],
    ) == Ok::<Seq<u64>, BucketError>(buckets[i].members) by {
        let location = locations[i];
        let start = members_begin(location);
        let end = start + 8 * location.member_count;
        assert(members_at(layout, file, location) == Ok::<Seq<u64>, BucketError>(
            buckets[i].members,
        ));
        assert(altered.subrange(start, end) =~= file.subrange(start, end));
    }
}

/// The byte stands behind the directory of a bucket segment, where its member lists
/// are.
pub open spec fn is_list_byte(file: Seq<u8>, section: SectionDescriptor, at: int) -> bool {
    let begin = section.payload_offset + BUCKET_SEGMENT_HEADER_BYTES;
    let header = file.subrange(section.payload_offset as int, begin);
    &&& section_error(section) is None
    &&& announced(header, section.payload_length) matches Ok(size) && begin + size <= at
        < section.payload_offset + section.payload_length
}

/// Finding the buckets of a section does not depend on their member lists.
pub proof fn law_directory_ignores_member_lists(
    layout: LayoutView,
    left: Seq<u8>,
    right: Seq<u8>,
    section: SectionDescriptor,
    bands: usize,
)
    requires
        left.len() == right.len(),
        forall|p: int|
            0 <= p < left.len() && section.payload_offset <= p < section.payload_offset
                + section.payload_length && #[trigger] left[p] != right[p] ==> is_list_byte(
                left,
                section,
                p,
            ),
    ensures
        located(layout, right, section, bands) == located(layout, left, section, bands),
{
    let start = section.payload_offset as int;
    let begin = start + BUCKET_SEGMENT_HEADER_BYTES;
    if section_error(section) is None && layout.range(
        left,
        section,
        0,
        BUCKET_SEGMENT_HEADER_BYTES,
    ) is Ok {
        let header = left.subrange(start, begin);
        assert(right.subrange(start, begin) =~= header);
        let size = announced(header, section.payload_length);
        if size is Ok && layout.range(left, section, 40, size->Ok_0) is Ok {
            let end = begin + size->Ok_0;
            assert(right.subrange(begin, end) =~= left.subrange(begin, end));
        }
    }
}

proof fn lemma_lists_behind_directory(
    section: SectionDescriptor,
    directory: Seq<u8>,
    count: nat,
    index: int,
    offset: int,
    bands: usize,
)
    requires
        0 <= offset,
        locations_from(section, directory, count, index, offset, bands) is Ok,
    ensures
        ({
            let locations = locations_from(section, directory, count, index, offset, bands)->Ok_0;
            forall|i: int|
                0 <= i < locations.len() ==> (#[trigger] locations[i]).section == section && offset
                    <= locations[i].member_offset && locations[i].member_offset + 8
                    * locations[i].member_count <= section.payload_length
        }),
    decreases directory.len() / 32 - index,
{
    if index < directory.len() / 32 {
        let entry = entry_at(directory, index);
        let next = offset + 8 * entry.member_count;
        lemma_lists_behind_directory(section, directory, count, index + 1, next, bands);
        let rest = locations_from(section, directory, count, index + 1, next, bands)->Ok_0;
        let all = locations_from(section, directory, count, index, offset, bands)->Ok_0;
        assert forall|i: int| 0 <= i < all.len() implies (#[trigger] all[i]).section == section
            && offset <= all[i].member_offset && all[i].member_offset + 8 * all[i].member_count
            <= section.payload_length by {
            if i > 0 {
                assert(all[i] == rest[i - 1]);
            }
        }
    }
}

/// The member lists that a directory announces stand behind it, in its section.
pub proof fn law_member_lists_stand_behind_the_directory(
    layout: LayoutView,
    file: Seq<u8>,
    section: SectionDescriptor,
    bands: usize,
    index: int,
    at: int,
)
    requires
        located(layout, file, section, bands) is Ok,
        0 <= index < located(layout, file, section, bands)->Ok_0.len(),
        is_member_byte(located(layout, file, section, bands)->Ok_0[index], at),
    ensures
        located(layout, file, section, bands)->Ok_0[index].section == section,
        is_list_byte(file, section, at),
{
    let start = section.payload_offset as int;
    let begin = start + BUCKET_SEGMENT_HEADER_BYTES;
    let header = file.subrange(start, begin);
    let size = announced(header, section.payload_length)->Ok_0;
    let directory = file.subrange(begin, begin + size);
    lemma_lists_behind_directory(
        section,
        directory,
        le::u64_at(header, 12) as nat,
        0,
        BUCKET_SEGMENT_HEADER_BYTES + directory.len(),
        bands,
    );
}

/// What a directory that is read announces: one location for each entry, with ascending
/// keys in bands below `bands`, and member lists that follow each other without gaps from
/// the end of the directory to the end of the section.
#[verifier::spinoff_prover]
#[verifier::rlimit(40)]
pub proof fn law_read_directories_are_sound(
    layout: LayoutView,
    file: Seq<u8>,
    section: SectionDescriptor,
    bands: usize,
)
    requires
        located(layout, file, section, bands) is Ok,
    ensures
        ({
            let start = section.payload_offset as int;
            let header = file.subrange(start, start + 40);
            let size = le::u64_at(header, 20);
            let directory = file.subrange(start + 40, start + 40 + size);
            let found = located(layout, file, section, bands)->Ok_0;
            &&& section.kind == SectionKind::Buckets
            &&& section.required
            &&& le::u64_at(header, 0) == 0x0054_4B42_4952_4150
            &&& le::u32_at(header, 28) == checksum::crc32(directory)
            &&& le::u32_at(header, 32) == checksum::crc32(header.subrange(0, 32))
            &&& size == 32 * le::u64_at(header, 12)
            &&& found.len() == le::u64_at(header, 12)
            &&& forall|i: int|
                0 <= i < found.len() ==> {
                    let entry = #[trigger] found[i];
                    &&& entry.section == section
                    &&& entry.key.band == le::u32_at(directory, 32 * i)
                    &&& entry.key.band < bands
                    &&& entry.key.hash == le::u64_at(directory, 32 * i + 8)
                    &&& entry.member_offset == le::u64_at(directory, 32 * i + 16)
                    &&& entry.member_count == le::u32_at(directory, 32 * i + 24)
                    &&& entry.member_checksum == le::u32_at(directory, 32 * i + 28)
                }
            &&& forall|i: int|
                #![trigger found[i]]
                0 <= i < found.len() - 1 ==> found[i].key.before(found[i + 1].key)
                    && found[i].member_offset + 8 * found[i].member_count == found[i
                    + 1].member_offset
            &&& found.len() > 0 ==> found[0].member_offset == 40 + size
                && found.last().member_offset + 8 * found.last().member_count
                == section.payload_length
        }),
{
    let start = section.payload_offset as int;
    let header = file.subrange(start, start + 40);
    let size = announced(header, section.payload_length)->Ok_0;
    let directory = file.subrange(start + 40, start + 40 + size);
    let found = located(layout, file, section, bands)->Ok_0;
    let count = le::u64_at(header, 12) as nat;
    assert(section_error(section) is None);
    assert(layout.range(file, section, 0, BUCKET_SEGMENT_HEADER_BYTES) == Ok::<
        Seq<u8>,
        LayoutError,
    >(header));
    assert(layout.range(file, section, 40, size) == Ok::<Seq<u8>, LayoutError>(directory));
    assert(found == locations_from(
        section,
        directory,
        count,
        0,
        (40 + directory.len()) as int,
        bands,
    )->Ok_0);
    lemma_read_entries(section, directory, count, 0, (40 + directory.len()) as int, bands);
    assert forall|i: int| 0 <= i < found.len() implies {
        let entry = #[trigger] found[i];
        &&& entry.section == section
        &&& entry.key.band == le::u32_at(directory, 32 * i)
        &&& entry.key.band < bands
        &&& entry.key.hash == le::u64_at(directory, 32 * i + 8)
        &&& entry.member_offset == le::u64_at(directory, 32 * i + 16)
        &&& entry.member_count == le::u32_at(directory, 32 * i + 24)
        &&& entry.member_checksum == le::u32_at(directory, 32 * i + 28)
    } by {
        assert(is_entry(section, directory, bands, 0 + i, found[i]));
    }
    assert forall|i: int|
        #![trigger found[i]]
        0 <= i < found.len() - 1 implies found[i].key.before(found[i + 1].key)
        && found[i].member_offset + 8 * found[i].member_count == found[i + 1].member_offset by {
        assert(is_followed(found, i));
    }
}

/// The location is what the directory entry at `index` announces.
spec fn is_entry(
    section: SectionDescriptor,
    directory: Seq<u8>,
    bands: usize,
    index: int,
    location: BucketLocation,
) -> bool {
    &&& location.section == section
    &&& location.key.band == le::u32_at(directory, 32 * index)
    &&& location.key.band < bands
    &&& location.key.hash == le::u64_at(directory, 32 * index + 8)
    &&& location.member_offset == le::u64_at(directory, 32 * index + 16)
    &&& location.member_count == le::u32_at(directory, 32 * index + 24)
    &&& location.member_checksum == le::u32_at(directory, 32 * index + 28)
}

/// The next location has a later key and the next members.
spec fn is_followed(locations: Seq<BucketLocation>, index: int) -> bool {
    &&& locations[index].key.before(locations[index + 1].key)
    &&& locations[index].member_offset + 8 * locations[index].member_count == locations[index
        + 1].member_offset
}

#[verifier::spinoff_prover]
#[verifier::rlimit(60)]
proof fn lemma_read_entries(
    section: SectionDescriptor,
    directory: Seq<u8>,
    count: nat,
    index: int,
    offset: int,
    bands: usize,
)
    requires
        0 <= offset,
        0 <= index <= directory.len() / 32,
        locations_from(section, directory, count, index, offset, bands) is Ok,
    ensures
        ({
            let found = locations_from(section, directory, count, index, offset, bands)->Ok_0;
            &&& directory.len() / 32 == count
            &&& found.len() == count - index
            &&& forall|i: int|
                0 <= i < found.len() ==> #[trigger] is_entry(
                    section,
                    directory,
                    bands,
                    index + i,
                    found[i],
                )
            &&& forall|i: int| 0 <= i < found.len() - 1 ==> #[trigger] is_followed(found, i)
            &&& found.len() > 0 ==> found[0].member_offset == offset && found.last().member_offset
                + 8 * found.last().member_count == section.payload_length
            &&& found.len() == 0 ==> offset == section.payload_length
        }),
    decreases directory.len() / 32 - index,
{
    if index < directory.len() / 32 {
        let entry = entry_at(directory, index);
        let next = offset + 8 * entry.member_count;
        let own = BucketLocation {
            key: entry.key,
            section,
            member_offset: offset as u64,
            member_count: entry.member_count,
            member_checksum: entry.member_checksum,
        };
        assert(entry_error(directory, index, offset, bands, section.payload_length) is None);
        lemma_read_entries(section, directory, count, index + 1, next, bands);
        let rest = locations_from(section, directory, count, index + 1, next, bands)->Ok_0;
        let found = locations_from(section, directory, count, index, offset, bands)->Ok_0;
        assert(found == seq![own] + rest);
        assert(found[0] == own);
        assert(is_entry(section, directory, bands, index, own));
        assert forall|i: int| 0 <= i < found.len() implies #[trigger] is_entry(
            section,
            directory,
            bands,
            index + i,
            found[i],
        ) by {
            if i > 0 {
                assert(found[i] == rest[i - 1]);
                assert(is_entry(section, directory, bands, index + 1 + (i - 1), rest[i - 1]));
            }
        }
        assert forall|i: int| 0 <= i < found.len() - 1 implies #[trigger] is_followed(found, i) by {
            assert(found[i + 1] == rest[i]);
            if i > 0 {
                assert(found[i] == rest[i - 1]);
                assert(is_followed(rest, i - 1));
            } else {
                assert(is_entry(section, directory, bands, index + 1 + 0, rest[0]));
                assert(entry_error(
                    directory,
                    index + 1,
                    next,
                    bands,
                    section.payload_length,
                ) is None);
            }
        }
        if rest.len() > 0 {
            assert(found.last() == rest.last());
        } else {
            assert(found.last() == own);
        }
    }
}

/// Buckets are ordered by their band first and then by their hash.
pub proof fn law_order_of_buckets(left: BucketKey, right: BucketKey)
    ensures
        left.before(right) == (left.band < right.band || (left.band == right.band && left.hash
            < right.hash)),
{
}

/// Members that are read have the checksum of their entry, and stand in the file one after
/// the other, eight bytes each.
pub proof fn law_read_members_are_sound(
    layout: LayoutView,
    file: Seq<u8>,
    location: BucketLocation,
)
    requires
        members_at(layout, file, location) is Ok,
    ensures
        ({
            let start = location.section.payload_offset + location.member_offset;
            let bytes = file.subrange(start, start + 8 * location.member_count);
            let members = members_at(layout, file, location)->Ok_0;
            &&& start + 8 * location.member_count <= file.len()
            &&& checksum::crc32(bytes) == location.member_checksum
            &&& members.len() == location.member_count
            &&& forall|i: int|
                0 <= i < members.len() ==> #[trigger] members[i] == le::u64_at(file, start + 8 * i)
        }),
{
    let start = location.section.payload_offset + location.member_offset;
    let bytes = file.subrange(start, start + 8 * location.member_count);
    let members = members_at(layout, file, location)->Ok_0;
    assert forall|i: int| 0 <= i < members.len() implies #[trigger] members[i] == le::u64_at(
        file,
        start + 8 * i,
    ) by {
        assert(bytes.subrange(8 * i, 8 * i + 8) =~= file.subrange(start + 8 * i, start + 8 * i + 8));
    }
}

/// Every record of a list is written, in its place.
pub proof fn law_every_record_is_written(records: Seq<BucketRecord<'_>>)
    ensures
        record_views(records).len() == records.len(),
        forall|i: int| 0 <= i < records.len() ==> #[trigger] record_views(records)[i] == records[i]@,
{
}

} // verus!
