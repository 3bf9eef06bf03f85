//! The in-memory form of an index container.
//!
//! A container is a header followed by its sections. Each section is a frame
//! of 16 bytes followed by its payload; all numbers are little-endian.
//!
//! | offset | bytes | field |
//! |-------:|------:|-------|
//! | 0 | 2 | section kind |
//! | 2 | 2 | flags: bit 0 is set where readers must understand the section |
//! | 4 | 8 | payload length |
//! | 12 | 4 | CRC-32 of the payload |

use vstd::prelude::*;

use crate::format::checksum;
use crate::format::error::FormatError;
use crate::format::header;
use crate::format::header::{IndexMetadata, Metadata, HEADER_SIZE, MAX_SECTION_COUNT};
use crate::le;

verus! {

/// The size of a section frame in bytes.
pub const SECTION_HEADER_SIZE: usize = 16;

/// The longest section payload, in bytes.
pub const MAX_SECTION_BYTES: u64 = 268_435_456;

/// Known section types in an index container.
#[derive(Debug, Clone, Copy, PartialEq, Eq, Structural)]
pub enum SectionKind {
    /// Encoded external keys.
    Keys,
    /// Per-item band hashes used for updates and removals.
    BandHashes,
    /// LSH bucket membership.
    Buckets,
    /// Deletion state for append-oriented stores.
    Tombstones,
}

impl SectionKind {
    /// The number that stands for the kind in a frame.
    pub open spec fn raw(self) -> u16 {
        match self {
            SectionKind::Keys => 1,
            SectionKind::BandHashes => 2,
            SectionKind::Buckets => 3,
            SectionKind::Tombstones => 4,
        }
    }

    /// The kind with this number, if there is one.
    pub open spec fn of_raw(value: u16) -> Option<SectionKind> {
        match value {
            1 => Some(SectionKind::Keys),
            2 => Some(SectionKind::BandHashes),
            3 => Some(SectionKind::Buckets),
            4 => Some(SectionKind::Tombstones),
            _ => None,
        }
    }

    /// The kind with this number, if there is one.
    pub fn from_raw(value: u16) -> (kind: Option<SectionKind>)
        ensures
            kind == SectionKind::of_raw(value),
    {
        match value {
            1 => Some(SectionKind::Keys),
            2 => Some(SectionKind::BandHashes),
            3 => Some(SectionKind::Buckets),
            4 => Some(SectionKind::Tombstones),
            _ => None,
        }
    }

    /// The number that stands for the kind in a frame.
    pub fn as_raw(self) -> (value: u16)
        ensures
            value == self.raw(),
    {
        match self {
            SectionKind::Keys => 1,
            SectionKind::BandHashes => 2,
            SectionKind::Buckets => 3,
            SectionKind::Tombstones => 4,
        }
    }
}

/// What a section holds.
#[verifier::ext_equal]
pub struct SectionView {
    /// The kind.
    pub kind: SectionKind,
    /// Whether readers must understand the section.
    pub required: bool,
    /// The payload.
    pub payload: Seq<u8>,
}

/// What a container holds.
#[verifier::ext_equal]
pub struct FileView {
    /// The metadata.
    pub metadata: Metadata,
    /// The sections, in file order.
    pub sections: Seq<SectionView>,
}

impl FileView {
    /// The metadata are valid, and the number and the sizes of the sections
    /// stay within the limits of the format.
    pub open spec fn valid(self) -> bool {
        &&& self.metadata.valid()
        &&& self.sections.len() <= MAX_SECTION_COUNT
        &&& bounded(self.sections)
    }
}

/// No payload exceeds the limit of the format.
pub open spec fn bounded(sections: Seq<SectionView>) -> bool {
    forall|i: int|
        0 <= i < sections.len() ==> (#[trigger] sections[i]).payload.len() <= MAX_SECTION_BYTES
}

/// The fields of a section frame.
pub struct Frame {
    /// The number of the section kind.
    pub kind: u16,
    /// The flags.
    pub flags: u16,
    /// The payload length.
    pub length: u64,
    /// The checksum of the payload.
    pub checksum: u32,
}

impl Frame {
    /// The first byte after the payload of the frame at `at`.
    pub open spec fn end(self, at: int) -> int {
        at + SECTION_HEADER_SIZE + self.length
    }

    /// The payload of the frame at `at`.
    pub open spec fn payload(self, data: Seq<u8>, at: int) -> Seq<u8> {
        data.subrange(at + SECTION_HEADER_SIZE, self.end(at))
    }
}

/// The frame whose first byte is at offset `at`.
pub open spec fn frame_at(data: Seq<u8>, at: int) -> Frame {
    Frame {
        kind: le::u16_at(data, at),
        flags: le::u16_at(data, at + 2),
        length: le::u64_at(data, at + 4),
        checksum: le::u32_at(data, at + 12),
    }
}

/// The error in the framing of the section at `at`, if there is one.
pub open spec fn frame_error(data: Seq<u8>, at: int) -> Option<FormatError> {
    let frame = frame_at(data, at);
    if at + SECTION_HEADER_SIZE > data.len() {
        Some(FormatError::Truncated { context: "section header" })
    } else if frame.flags > 1 {
        Some(FormatError::InvalidSectionFlags { flags: frame.flags })
    } else if frame.length > MAX_SECTION_BYTES {
        Some(FormatError::SectionTooLarge { length: frame.length })
    } else if frame.end(at) > data.len() {
        Some(FormatError::Truncated { context: "section payload" })
    } else {
        None
    }
}

/// The error of a section that a reader does not understand but must, if the
/// frame is of that sort.
pub open spec fn kind_error(frame: Frame) -> Option<FormatError> {
    if SectionKind::of_raw(frame.kind) is None && frame.flags == 1 {
        Some(FormatError::UnknownRequiredSection { kind: frame.kind })
    } else {
        None
    }
}

/// The understood sections among the `count` sections from offset `at` to the
/// end of `data`, or the first error on the way.
pub open spec fn sections_from(data: Seq<u8>, count: nat, at: int) -> Result<
    Seq<SectionView>,
    FormatError,
>
    decreases count,
{
    if count == 0 {
        if at != data.len() {
            Err(FormatError::TrailingBytes { remaining: (data.len() - at) as usize })
        } else {
            Ok(Seq::empty())
        }
    } else {
        let frame = frame_at(data, at);
        let payload = frame.payload(data, at);
        if frame_error(data, at) is Some {
            Err(frame_error(data, at)->0)
        } else if checksum::crc32(payload) != frame.checksum {
            Err(
                FormatError::SectionChecksumMismatch {
                    expected: frame.checksum,
                    actual: checksum::crc32(payload),
                },
            )
        } else if kind_error(frame) is Some {
            Err(kind_error(frame)->0)
        } else {
            match sections_from(data, (count - 1) as nat, frame.end(at)) {
                Err(error) => Err(error),
                Ok(rest) => match SectionKind::of_raw(frame.kind) {
                    Some(kind) => Ok(
                        seq![SectionView { kind, required: frame.flags == 1, payload }] + rest,
                    ),
                    None => Ok(rest),
                },
            }
        }
    }
}

/// The container that `data` encodes, or the first error in it.
pub open spec fn decoded(data: Seq<u8>) -> Result<FileView, FormatError> {
    match header::header(data) {
        Err(error) => Err(error),
        Ok(found) => match sections_from(data, found.sections as nat, HEADER_SIZE as int) {
            Err(error) => Err(error),
            Ok(sections) => Ok(FileView { metadata: found.metadata, sections }),
        },
    }
}

/// The encoded form of a section.
pub open spec fn section_bytes(section: SectionView) -> Seq<u8> {
    le::bytes(section.kind.raw() as nat, 2) + le::bytes(
        if section.required {
            1
        } else {
            0
        },
        2,
    ) + le::bytes(section.payload.len(), 8) + le::bytes(
        checksum::crc32(section.payload) as nat,
        4,
    ) + section.payload
}

/// The encoded form of a run of sections.
pub open spec fn sections_bytes(sections: Seq<SectionView>) -> Seq<u8>
    decreases sections.len(),
{
    if sections.len() == 0 {
        Seq::empty()
    } else {
        section_bytes(sections[0]) + sections_bytes(sections.skip(1))
    }
}

/// The encoded form of a container.
pub open spec fn file_bytes(file: FileView) -> Seq<u8> {
    header::header_bytes(file.metadata, file.sections.len() as u32) + sections_bytes(file.sections)
}

/// A known framed section in an index container.
#[derive(Debug, Clone, PartialEq, Eq)]
pub struct Section {
    kind: SectionKind,
    required: bool,
    payload: Vec<u8>,
}

impl View for Section {
    type V = SectionView;

    closed spec fn view(&self) -> SectionView {
        SectionView { kind: self.kind, required: self.required, payload: self.payload@ }
    }
}

impl Section {
    /// The payload does not exceed the limit of the format.
    pub open spec fn wf(&self) -> bool {
        self@.payload.len() <= MAX_SECTION_BYTES
    }

    /// Hold a bounded section payload.
    pub fn new(kind: SectionKind, required: bool, payload: Vec<u8>) -> (result: Result<
        Section,
        FormatError,
    >)
        ensures
            if payload@.len() > MAX_SECTION_BYTES {
                result == Err::<Section, FormatError>(
                    FormatError::SectionTooLarge { length: payload@.len() as u64 },
                )
            } else {
                result matches Ok(section) && section.wf() && section@ == (SectionView {
                    kind,
                    required,
                    payload: payload@,
                })
            },
    {
        let length: u64 = payload.len() as u64;
        if length > MAX_SECTION_BYTES {
            return Err(FormatError::SectionTooLarge { length });
        }
        Ok(Section { kind, required, payload })
    }

    /// The section kind.
    pub fn kind(&self) -> (kind: SectionKind)
        ensures
            kind == self@.kind,
    {
        self.kind
    }

    /// Whether readers must understand this section.
    pub fn required(&self) -> (required: bool)
        ensures
            required == self@.required,
    {
        self.required
    }

    /// The section payload.
    pub fn payload(&self) -> (payload: &[u8])
        ensures
            payload@ == self@.payload,
    {
        self.payload.as_slice()
    }
}

/// What each of the sections holds.
pub open spec fn views(sections: Seq<Section>) -> Seq<SectionView> {
    Seq::new(sections.len(), |i: int| sections[i]@)
}

/// A small in-memory representation of the versioned container.
///
/// Persistent readers can use the same header and section framing and stream
/// the payloads in place of holding them.
#[derive(Debug, Clone, PartialEq, Eq)]
pub struct IndexFile {
    metadata: IndexMetadata,
    sections: Vec<Section>,
}

impl View for IndexFile {
    type V = FileView;

    closed spec fn view(&self) -> FileView {
        FileView { metadata: self.metadata@, sections: views(self.sections@) }
    }
}

impl IndexFile {
    /// The container can be written in the format.
    pub open spec fn wf(&self) -> bool {
        self@.valid()
    }

    /// Build a container from validated metadata and known sections.
    pub fn new(metadata: IndexMetadata, sections: Vec<Section>) -> (result: Result<
        IndexFile,
        FormatError,
    >)
        requires
            metadata.wf(),
            forall|i: int| 0 <= i < sections@.len() ==> (#[trigger] sections@[i]).wf(),
        ensures
            if sections@.len() > MAX_SECTION_COUNT {
                result == Err::<IndexFile, FormatError>(
                    FormatError::TooManySections {
                        count: sections@.len() as usize,
                        max: MAX_SECTION_COUNT,
                    },
                )
            } else {
                result matches Ok(file) && file.wf() && file@ == (FileView {
                    metadata: metadata@,
                    sections: views(sections@),
                })
            },
    {
        match header::check_section_count(sections.len()) {
            Ok(_) => Ok(IndexFile { metadata, sections }),
            Err(error) => Err(error),
        }
    }

    /// The index metadata.
    pub fn metadata(&self) -> (metadata: &IndexMetadata)
        ensures
            metadata@ == self@.metadata,
    {
        &self.metadata
    }

    /// The known sections. Unknown optional sections are skipped by `decode`.
    pub fn sections(&self) -> (sections: &[Section])
        ensures
            views(sections@) == self@.sections,
    {
        self.sections.as_slice()
    }

    /// Encode this container to the stable version-1 byte format.
    pub fn encode(&self) -> (result: Result<Vec<u8>, FormatError>)
        requires
            self.wf(),
        ensures
            if file_bytes(self@).len() > usize::MAX {
                result == Err::<Vec<u8>, FormatError>(FormatError::LengthOverflow)
            } else {
                result matches Ok(bytes) && bytes@ == file_bytes(self@)
            },
    {
        let ghost all = self@.sections;
        let count: usize = self.sections.len();
        proof {
            header::law_header_round_trip(self@.metadata, count as u32, Seq::empty());
            assert(all.skip(0) =~= all);
        }
        let mut total: usize = HEADER_SIZE;
        let mut index: usize = 0;
        while index < count
            invariant
                count == self.sections@.len(),
                all == views(self.sections@),
                index <= count,
                total + sections_bytes(all.skip(index as int)).len() == file_bytes(self@).len(),
            decreases count - index,
        {
            proof {
                let rest = all.skip(index as int);
                assert(rest[0] == self.sections@[index as int]@);
                assert(rest.skip(1) =~= all.skip(index + 1));
                lemma_section_bytes_len(rest[0]);
            }
            let length: usize = self.sections[index].payload.len();
            total = match total.checked_add(SECTION_HEADER_SIZE) {
                Some(sum) => match sum.checked_add(length) {
                    Some(sum) => sum,
                    None => {
                        return Err(FormatError::LengthOverflow);
                    },
                },
                None => {
                    return Err(FormatError::LengthOverflow);
                },
            };
            index = index + 1;
        }
        let mut bytes: Vec<u8> = Vec::with_capacity(total);
        header::push_header(&mut bytes, &self.metadata, count as u32);
        let mut index: usize = 0;
        while index < count
            invariant
                self.wf(),
                count == self.sections@.len(),
                all == views(self.sections@),
                all == self@.sections,
                index <= count,
                bytes@ + sections_bytes(all.skip(index as int)) == file_bytes(self@),
            decreases count - index,
        {
            let ghost before = bytes@;
            let ghost rest = all.skip(index as int);
            push_section(&mut bytes, &self.sections[index]);
            proof {
                assert(rest[0] == self.sections@[index as int]@);
                assert(rest.skip(1) =~= all.skip(index + 1));
                assert(before + (section_bytes(rest[0]) + sections_bytes(rest.skip(1)))
                    =~= bytes@ + sections_bytes(rest.skip(1)));
            }
            index = index + 1;
        }
        proof {
            assert(bytes@ + sections_bytes(all.skip(count as int)) =~= bytes@);
        }
        Ok(bytes)
    }

    /// Decode a complete container with bounds and checksum checks.
    pub fn decode(bytes: &[u8]) -> (result: Result<IndexFile, FormatError>)
        ensures
            match decoded(bytes@) {
                Err(error) => result == Err::<IndexFile, FormatError>(error),
                Ok(file) => result matches Ok(found) && found@ == file && found.wf(),
            },
    {
        let (metadata, count) = match header::decode_header(bytes, false) {
            Ok(header) => header,
            Err(error) => {
                return Err(error);
            },
        };
        let ghost goal = sections_from(bytes@, count as nat, HEADER_SIZE as int);
        let mut cursor: usize = HEADER_SIZE;
        let mut sections: Vec<Section> = Vec::new();
        let mut left: usize = count;
        proof {
            assert(views(sections@) =~= Seq::empty());
            if goal is Ok {
                assert(views(sections@) + goal->Ok_0 =~= goal->Ok_0);
            }
        }
        while left > 0
            invariant
                cursor <= bytes@.len(),
                left <= count <= MAX_SECTION_COUNT,
                sections@.len() + left <= count,
                forall|i: int| 0 <= i < sections@.len() ==> (#[trigger] sections@[i]).wf(),
                continues(
                    goal,
                    views(sections@),
                    sections_from(bytes@, left as nat, cursor as int),
                ),
                decoded(bytes@) == (match goal {
                    Err(error) => Err::<FileView, FormatError>(error),
                    Ok(found) => Ok::<FileView, FormatError>(
                        FileView { metadata: metadata@, sections: found },
                    ),
                }),
            decreases left,
        {
            let ghost frame = frame_at(bytes@, cursor as int);
            if bytes.len() - cursor < SECTION_HEADER_SIZE {
                return Err(FormatError::Truncated { context: "section header" });
            }
            let kind_raw: u16 = le::read_u16(bytes, cursor);
            let flags: u16 = le::read_u16(bytes, cursor + 2);
            let length: u64 = le::read_u64(bytes, cursor + 4);
            let expected: u32 = le::read_u32(bytes, cursor + 12);
            if flags > 1 {
                return Err(FormatError::InvalidSectionFlags { flags });
            }
            if length > MAX_SECTION_BYTES {
                return Err(FormatError::SectionTooLarge { length });
            }
            let start: usize = cursor + SECTION_HEADER_SIZE;
            if bytes.len() - start < length as usize {
                return Err(FormatError::Truncated { context: "section payload" });
            }
            let end: usize = start + length as usize;
            let payload = vstd::slice::slice_subrange(bytes, start, end);
            let actual: u32 = checksum::checksum(payload);
            if actual != expected {
                return Err(FormatError::SectionChecksumMismatch { expected, actual });
            }
            let ghost before = views(sections@);
            let ghost rest = sections_from(bytes@, (left - 1) as nat, end as int);
            match SectionKind::from_raw(kind_raw) {
                Some(kind) => {
                    let section = Section {
                        kind,
                        required: flags == 1,
                        payload: vstd::slice::slice_to_vec(payload),
                    };
                    sections.push(section);
                    proof {
                        assert(views(sections@) =~= before + seq![section@]);
                        if rest is Ok {
                            assert(before + (seq![section@] + rest->Ok_0) =~= views(sections@)
                                + rest->Ok_0);
                        }
                    }
                },
                None => {
                    if flags == 1 {
                        return Err(FormatError::UnknownRequiredSection { kind: kind_raw });
                    }
                },
            }
            cursor = end;
            left = left - 1;
        }
        if cursor != bytes.len() {
            return Err(FormatError::TrailingBytes { remaining: bytes.len() - cursor });
        }
        proof {
            assert(views(sections@) + Seq::empty() =~= views(sections@));
        }
        IndexFile::new(metadata, sections)
    }
}

/// Reading `done` and then `rest` is the same as reading `goal`.
spec fn continues(
    goal: Result<Seq<SectionView>, FormatError>,
    done: Seq<SectionView>,
    rest: Result<Seq<SectionView>, FormatError>,
) -> bool {
    match rest {
        Err(error) => goal == Err::<Seq<SectionView>, FormatError>(error),
        Ok(rest) => goal == Ok::<Seq<SectionView>, FormatError>(done + rest),
    }
}

/// Append the encoded form of a section.
/// The encoded form of the frame that stands before a payload of this length and
/// checksum.
pub open spec fn frame_bytes(kind: SectionKind, required: bool, length: u64, sum: u32) -> Seq<u8> {
    le::bytes(kind.raw() as nat, 2) + le::bytes(
        if required {
            1
        } else {
            0
        },
        2,
    ) + le::bytes(length as nat, 8) + le::bytes(sum as nat, 4)
}

/// Append the frame that stands before a payload of this length and checksum.
pub fn push_frame(out: &mut Vec<u8>, kind: SectionKind, required: bool, length: u64, sum: u32)
    ensures
        final(out)@ == old(out)@ + frame_bytes(kind, required, length, sum),
{
    let ghost before = out@;
    le::push_u16(out, kind.as_raw());
    le::push_u16(
        out,
        if required {
            1
        } else {
            0
        },
    );
    le::push_u64(out, length);
    le::push_u32(out, sum);
    assert(out@ =~= before + frame_bytes(kind, required, length, sum));
}

/// A section is its frame and its payload.
pub proof fn law_section_is_framed(section: SectionView)
    requires
        section.payload.len() <= u64::MAX,
    ensures
        section_bytes(section) == frame_bytes(
            section.kind,
            section.required,
            section.payload.len() as u64,
            checksum::crc32(section.payload),
        ) + section.payload,
{
}

fn push_section(out: &mut Vec<u8>, section: &Section)
    requires
        section.wf(),
    ensures
        final(out)@ == old(out)@ + section_bytes(section@),
{
    let ghost before = out@;
    push_frame(
        out,
        section.kind,
        section.required,
        section.payload.len() as u64,
        checksum::checksum(section.payload.as_slice()),
    );
    out.extend_from_slice(section.payload.as_slice());
    assert(out@ =~= before + section_bytes(section@));
}

proof fn lemma_section_bytes_len(section: SectionView)
    ensures
        section_bytes(section).len() == SECTION_HEADER_SIZE + section.payload.len(),
{
    broadcast use le::lemma_bytes_len;

}

/// The frame written for a section is read back from where it stands.
proof fn lemma_frame_of_section(prefix: Seq<u8>, section: SectionView, suffix: Seq<u8>)
    requires
        section.payload.len() <= MAX_SECTION_BYTES,
    ensures
        ({
            let data = prefix + section_bytes(section) + suffix;
            let at = prefix.len() as int;
            let frame = frame_at(data, at);
            &&& frame.kind == section.kind.raw()
            &&& frame.flags == (if section.required {
                1u16
            } else {
                0u16
            })
            &&& frame.length == section.payload.len()
            &&& frame.checksum == checksum::crc32(section.payload)
            &&& frame.payload(data, at) == section.payload
            &&& frame_error(data, at) is None
            &&& frame.end(at) == prefix.len() + section_bytes(section).len()
        }),
{
    broadcast use le::lemma_bytes_len;

    let at = prefix.len() as int;
    let kind = section.kind.raw() as nat;
    let flags: nat = if section.required {
        1
    } else {
        0
    };
    let size = section.payload.len();
    let sum = checksum::crc32(section.payload) as nat;
    let data = prefix + section_bytes(section) + suffix;
    le::lemma_pow256_values();
    le::lemma_value_of_bytes(kind, 2);
    le::lemma_value_of_bytes(flags, 2);
    le::lemma_value_of_bytes(size, 8);
    le::lemma_value_of_bytes(sum, 4);
    assert(data.subrange(at, at + 2) =~= le::bytes(kind, 2));
    assert(data.subrange(at + 2, at + 4) =~= le::bytes(flags, 2));
    assert(data.subrange(at + 4, at + 12) =~= le::bytes(size, 8));
    assert(data.subrange(at + 12, at + 16) =~= le::bytes(sum, 4));
    assert(data.subrange(at + 16, at + 16 + size) =~= section.payload);
}

/// A run of sections is read back from where it stands; what follows it is
/// reported as trailing.
proof fn lemma_sections_round_trip(
    prefix: Seq<u8>,
    sections: Seq<SectionView>,
    suffix: Seq<u8>,
)
    requires
        bounded(sections),
    ensures
        sections_from(
            prefix + sections_bytes(sections) + suffix,
            sections.len(),
            prefix.len() as int,
        ) == (if suffix.len() == 0 {
            Ok::<Seq<SectionView>, FormatError>(sections)
        } else {
            Err(FormatError::TrailingBytes { remaining: suffix.len() as usize })
        }),
    decreases sections.len(),
{
    let data = prefix + sections_bytes(sections) + suffix;
    if sections.len() == 0 {
        assert(data.len() == prefix.len() + suffix.len());
        assert(sections =~= Seq::empty());
    } else {
        let first = sections[0];
        let rest = sections.skip(1);
        let after = sections_bytes(rest) + suffix;
        assert(data =~= prefix + section_bytes(first) + after);
        lemma_frame_of_section(prefix, first, after);
        let next = prefix + section_bytes(first);
        assert(data =~= next + sections_bytes(rest) + suffix);
        assert(forall|i: int| 0 <= i < rest.len() ==> rest[i] == sections[i + 1]);
        lemma_sections_round_trip(next, rest, suffix);
        assert(seq![first] + rest =~= sections);
    }
}

/// Decoding an encoded container gives the container back.
pub proof fn law_container_round_trip(file: FileView)
    requires
        file.valid(),
    ensures
        decoded(file_bytes(file)) == Ok::<FileView, FormatError>(file),
{
    let start = header::header_bytes(file.metadata, file.sections.len() as u32);
    header::law_header_round_trip(
        file.metadata,
        file.sections.len() as u32,
        sections_bytes(file.sections),
    );
    lemma_sections_round_trip(start, file.sections, Seq::empty());
    assert(start + sections_bytes(file.sections) + Seq::empty() =~= file_bytes(file));
}

/// The framing of the section at `at` is the same in every extension of `data`
/// that it fits in.
proof fn lemma_frame_of_extension(data: Seq<u8>, more: Seq<u8>, at: int)
    requires
        0 <= at,
        frame_error(data, at) is None,
    ensures
        frame_at(data + more, at) == frame_at(data, at),
        frame_error(data + more, at) is None,
        frame_at(data + more, at).payload(data + more, at) == frame_at(data, at).payload(data, at),
{
    let whole = data + more;
    assert(whole.subrange(at, at + 2) =~= data.subrange(at, at + 2));
    assert(whole.subrange(at + 2, at + 4) =~= data.subrange(at + 2, at + 4));
    assert(whole.subrange(at + 4, at + 12) =~= data.subrange(at + 4, at + 12));
    assert(whole.subrange(at + 12, at + 16) =~= data.subrange(at + 12, at + 16));
    let frame = frame_at(data, at);
    assert(whole.subrange(at + 16, frame.end(at)) =~= data.subrange(at + 16, frame.end(at)));
}

proof fn lemma_sections_of_extension(data: Seq<u8>, more: Seq<u8>, count: nat, at: int)
    requires
        0 <= at <= data.len(),
        more.len() > 0,
        sections_from(data, count, at) is Ok,
    ensures
        sections_from(data + more, count, at) == Err::<Seq<SectionView>, FormatError>(
            FormatError::TrailingBytes { remaining: more.len() as usize },
        ),
    decreases count,
{
    if count > 0 {
        lemma_frame_of_extension(data, more, at);
        lemma_sections_of_extension(data, more, (count - 1) as nat, frame_at(data, at).end(at));
    }
}

/// Bytes after the last section of a container are rejected, and counted in
/// the error.
pub proof fn law_trailing_bytes_are_rejected(data: Seq<u8>, more: Seq<u8>)
    requires
        decoded(data) is Ok,
        more.len() > 0,
    ensures
        decoded(data + more) == Err::<FileView, FormatError>(
            FormatError::TrailingBytes { remaining: more.len() as usize },
        ),
{
    header::lemma_header_of_extension(data, more);
    lemma_sections_of_extension(
        data,
        more,
        header::header(data)->Ok_0.sections as nat,
        HEADER_SIZE as int,
    );
}

/// Every proper prefix of a container is rejected.
pub proof fn law_truncation_is_rejected(data: Seq<u8>, kept: nat)
    requires
        decoded(data) is Ok,
        kept < data.len(),
    ensures
        decoded(data.take(kept as int)) is Err,
{
    let part = data.take(kept as int);
    if decoded(part) is Ok {
        assert(part + data.skip(kept as int) =~= data);
        law_trailing_bytes_are_rejected(part, data.skip(kept as int));
    }
}

/// Sections are read one after the other. Each has a frame whose flags are known, and a
/// payload of at most 256 MiB that is within the file and has the checksum of the frame.
/// A section of an unknown kind is passed over, unless it is required.
pub proof fn law_sections_are_read_in_turn(data: Seq<u8>, count: nat, at: int)
    requires
        0 <= at,
        count > 0,
        sections_from(data, count, at) is Ok,
    ensures
        ({
            let length = le::u64_at(data, at + 4);
            let end = at + 16 + length;
            let kind = SectionKind::of_raw(le::u16_at(data, at));
            let rest = sections_from(data, (count - 1) as nat, end);
            &&& end <= data.len()
            &&& length <= 268_435_456
            &&& le::u16_at(data, at + 2) <= 1
            &&& le::u32_at(data, at + 12) == checksum::crc32(data.subrange(at + 16, end))
            &&& rest is Ok
            &&& kind is None ==> le::u16_at(data, at + 2) == 0 && sections_from(data, count, at)
                == rest
            &&& kind matches Some(known) ==> sections_from(data, count, at) == Ok::<
                Seq<SectionView>,
                FormatError,
            >(
                seq![
                    SectionView {
                        kind: known,
                        required: le::u16_at(data, at + 2) == 1,
                        payload: data.subrange(at + 16, end),
                    },
                ] + rest->Ok_0,
            )
        }),
{
}

/// What makes the next section unreadable, and nothing else does where the rest can be read.
pub proof fn law_which_sections_are_rejected(data: Seq<u8>, count: nat, at: int)
    requires
        0 <= at,
        count > 0,
        at + 16 <= data.len(),
        le::u16_at(data, at + 2) <= 1,
        le::u64_at(data, at + 4) <= 268_435_456,
        at + 16 + le::u64_at(data, at + 4) <= data.len(),
        le::u32_at(data, at + 12) == checksum::crc32(
            data.subrange(at + 16, at + 16 + le::u64_at(data, at + 4)),
        ),
        le::u16_at(data, at + 2) == 1 ==> SectionKind::of_raw(le::u16_at(data, at)) is Some,
        sections_from(data, (count - 1) as nat, at + 16 + le::u64_at(data, at + 4)) is Ok,
    ensures
        sections_from(data, count, at) is Ok,
{
}

/// A file is read exactly where its header is and as many sections as it announces follow
/// and nothing else.
pub proof fn law_files_are_headers_and_sections(data: Seq<u8>)
    ensures
        decoded(data) is Ok == (header::header(data) is Ok && sections_from(
            data,
            header::header(data)->Ok_0.sections as nat,
            72,
        ) is Ok),
        decoded(data) matches Ok(file) ==> file.metadata == header::header(data)->Ok_0.metadata
            && sections_from(data, header::header(data)->Ok_0.sections as nat, 72) == Ok::<
            Seq<SectionView>,
            FormatError,
        >(file.sections),
        forall|at: int| #[trigger]
            sections_from(data, 0, at) == (if at == data.len() {
                Ok::<Seq<SectionView>, FormatError>(Seq::empty())
            } else {
                Err(FormatError::TrailingBytes { remaining: (data.len() - at) as usize })
            }),
{
}

/// The encoded sections of a file follow each other, in order.
pub proof fn law_encoded_sections_follow_each_other(sections: Seq<SectionView>, more: SectionView)
    ensures
        sections_bytes(sections.push(more)) == sections_bytes(sections) + section_bytes(more),
    decreases sections.len(),
{
    let all = sections.push(more);
    if sections.len() == 0 {
        assert(all[0] == more);
        assert(all.skip(1) =~= Seq::empty());
        assert(sections_bytes(all.skip(1)) == Seq::<u8>::empty());
        assert(sections_bytes(all) == section_bytes(all[0]) + sections_bytes(all.skip(1)));
        assert(sections_bytes(sections) == Seq::<u8>::empty());
        assert(sections_bytes(all) =~= sections_bytes(sections) + section_bytes(more));
    } else {
        assert(all[0] == sections[0]);
        assert(all.skip(1) =~= sections.skip(1).push(more));
        law_encoded_sections_follow_each_other(sections.skip(1), more);
        assert(sections_bytes(all) =~= sections_bytes(sections) + section_bytes(more));
    }
}

/// The numbers that stand for the kinds of sections.
pub proof fn law_numbers_of_kinds()
    ensures
        SectionKind::Keys.raw() == 1,
        SectionKind::BandHashes.raw() == 2,
        SectionKind::Buckets.raw() == 3,
        SectionKind::Tombstones.raw() == 4,
        forall|kind: SectionKind| #[trigger] SectionKind::of_raw(kind.raw()) == Some(kind),
        forall|value: u16| #[trigger]
            SectionKind::of_raw(value) matches Some(kind) ==> kind.raw() == value,
{
}

/// Every section of a container is written, in its place.
pub proof fn law_every_section_is_written(sections: Seq<Section>)
    ensures
        views(sections).len() == sections.len(),
        forall|i: int| 0 <= i < sections.len() ==> #[trigger] views(sections)[i] == sections[i]@,
{
}

} // verus!
