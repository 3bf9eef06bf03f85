//! Section locations of an index container, without its payloads.
//!
//! A reader that holds a container in a file scans it frame by frame: it reads
//! the header, hands it to [`LayoutScan::begin`], and then reads each frame
//! that [`LayoutScan::wanted`] asks for. [`FileLayout::read_from`] does the
//! same on a container that is in memory.

use vstd::prelude::*;

use crate::format::checksum;
use crate::format::container;
use crate::format::container::{SectionKind, MAX_SECTION_BYTES, SECTION_HEADER_SIZE};
use crate::format::error::FormatError;
use crate::format::header;
use crate::format::header::{IndexMetadata, Metadata, HEADER_SIZE};
use crate::le;

verus! {

/// Structural errors produced by the lazy container reader.
#[derive(Debug, Clone, Copy, PartialEq, Eq)]
pub enum LayoutError {
    /// The bytes violate the versioned container format.
    Format(FormatError),
    /// A requested byte range falls outside its section payload.
    RangeOutOfBounds {
        /// Offset relative to the beginning of the section payload.
        offset: u64,
        /// Requested number of bytes.
        length: usize,
        /// Total section payload length.
        section_length: u64,
    },
}

/// Location and integrity metadata for one understood section.
#[derive(Debug, Clone, Copy, PartialEq, Eq, Structural)]
pub struct SectionDescriptor {
    /// The section kind.
    pub kind: SectionKind,
    /// Whether a reader must understand the section.
    pub required: bool,
    /// The file offset at which the payload begins.
    pub payload_offset: u64,
    /// The payload length in bytes.
    pub payload_length: u64,
    /// The CRC-32 stored in the section frame.
    pub checksum: u32,
}

impl SectionDescriptor {
    /// The known section kind.
    pub fn kind(self) -> (kind: SectionKind)
        ensures
            kind == self.kind,
    {
        self.kind
    }

    /// Whether a reader must understand this section.
    pub fn required(self) -> (required: bool)
        ensures
            required == self.required,
    {
        self.required
    }

    /// The file offset at which the payload begins.
    pub fn payload_offset(self) -> (offset: u64)
        ensures
            offset == self.payload_offset,
    {
        self.payload_offset
    }

    /// The payload length in bytes.
    pub fn payload_length(self) -> (length: u64)
        ensures
            length == self.payload_length,
    {
        self.payload_length
    }

    /// The CRC-32 stored in the section frame.
    pub fn checksum(self) -> (sum: u32)
        ensures
            sum == self.checksum,
    {
        self.checksum
    }

    /// Where the payload lies in the file.
    pub open spec fn payload(self, file: Seq<u8>) -> Seq<u8> {
        file.subrange(
            self.payload_offset as int,
            self.payload_offset as int + self.payload_length as int,
        )
    }
}

/// The error of a file of `size` bytes that has no room for a frame at `at`,
/// if it has none.
pub open spec fn frame_start_error(at: int, size: int) -> Option<FormatError> {
    if at + SECTION_HEADER_SIZE > u64::MAX {
        Some(FormatError::LengthOverflow)
    } else if at + SECTION_HEADER_SIZE > size {
        Some(FormatError::Truncated { context: "section header" })
    } else {
        None
    }
}

/// The error in a frame that stands at `at` in a file of `size` bytes, if there
/// is one.
pub open spec fn frame_fault(frame: container::Frame, at: int, size: int) -> Option<FormatError> {
    if frame.flags > 1 {
        Some(FormatError::InvalidSectionFlags { flags: frame.flags })
    } else if frame.length > MAX_SECTION_BYTES {
        Some(FormatError::SectionTooLarge { length: frame.length })
    } else if frame.end(at) > u64::MAX {
        Some(FormatError::LengthOverflow)
    } else if frame.end(at) > size {
        Some(FormatError::Truncated { context: "section payload" })
    } else {
        container::kind_error(frame)
    }
}

/// The descriptor of a frame that stands at `at`, as a sequence; it is empty
/// where the section kind is not understood.
pub open spec fn described(frame: container::Frame, at: int) -> Seq<SectionDescriptor> {
    match SectionKind::of_raw(frame.kind) {
        Some(kind) => seq![
            SectionDescriptor {
                kind,
                required: frame.flags == 1,
                payload_offset: (at + SECTION_HEADER_SIZE) as u64,
                payload_length: frame.length,
                checksum: frame.checksum,
            },
        ],
        None => Seq::empty(),
    }
}

/// The error of a file of `size` bytes whose sections end at `at`, if bytes
/// remain.
pub open spec fn end_error(at: int, size: int) -> Option<FormatError> {
    if at == size {
        None
    } else if size - at > usize::MAX {
        Some(FormatError::LengthOverflow)
    } else {
        Some(FormatError::TrailingBytes { remaining: (size - at) as usize })
    }
}

/// The descriptors of the understood sections among the `count` sections from
/// offset `at` to the end of `file`, or the first error on the way.
pub open spec fn descriptors_from(file: Seq<u8>, count: nat, at: int) -> Result<
    Seq<SectionDescriptor>,
    FormatError,
>
    decreases count,
{
    let size = file.len() as int;
    let frame = container::frame_at(file, at);
    if count == 0 {
        match end_error(at, size) {
            Some(error) => Err(error),
            None => Ok(Seq::empty()),
        }
    } else if frame_start_error(at, size) is Some {
        Err(frame_start_error(at, size)->0)
    } else if frame_fault(frame, at, size) is Some {
        Err(frame_fault(frame, at, size)->0)
    } else {
        match descriptors_from(file, (count - 1) as nat, frame.end(at)) {
            Err(error) => Err(error),
            Ok(rest) => Ok(described(frame, at) + rest),
        }
    }
}

/// What a layout holds.
#[verifier::ext_equal]
pub struct LayoutView {
    /// The metadata.
    pub metadata: Metadata,
    /// The understood sections, in file order.
    pub sections: Seq<SectionDescriptor>,
    /// The length of the file.
    pub file_length: u64,
}

impl LayoutView {
    /// The error for a range that cannot be read, if it cannot.
    pub open spec fn range_error(
        self,
        descriptor: SectionDescriptor,
        offset: u64,
        length: usize,
    ) -> Option<LayoutError> {
        let start = descriptor.payload_offset + offset;
        if offset + length > u64::MAX {
            Some(LayoutError::Format(FormatError::LengthOverflow))
        } else if offset + length > descriptor.payload_length {
            Some(
                LayoutError::RangeOutOfBounds {
                    offset,
                    length,
                    section_length: descriptor.payload_length,
                },
            )
        } else if start + length > u64::MAX {
            Some(LayoutError::Format(FormatError::LengthOverflow))
        } else if start + length > self.file_length {
            Some(LayoutError::Format(FormatError::Truncated { context: "section range" }))
        } else {
            None
        }
    }

    /// The bytes of a range, or the error that a read of it gives.
    pub open spec fn range(
        self,
        file: Seq<u8>,
        descriptor: SectionDescriptor,
        offset: u64,
        length: usize,
    ) -> Result<Seq<u8>, LayoutError> {
        let start = descriptor.payload_offset + offset;
        match self.range_error(descriptor, offset, length) {
            Some(error) => Err(error),
            None => if start + length > file.len() {
                Err(LayoutError::Format(FormatError::Truncated { context: "section range" }))
            } else {
                Ok(file.subrange(start, start + length))
            },
        }
    }

    /// The payload of a section, or the error that a complete read of it gives.
    pub open spec fn payload(self, file: Seq<u8>, descriptor: SectionDescriptor) -> Result<
        Seq<u8>,
        LayoutError,
    > {
        if descriptor.payload_length > usize::MAX {
            Err(LayoutError::Format(FormatError::LengthOverflow))
        } else {
            match self.range(file, descriptor, 0, descriptor.payload_length as usize) {
                Err(error) => Err(error),
                Ok(bytes) => if checksum::crc32(bytes) != descriptor.checksum {
                    Err(
                        LayoutError::Format(
                            FormatError::SectionChecksumMismatch {
                                expected: descriptor.checksum,
                                actual: checksum::crc32(bytes),
                            },
                        ),
                    )
                } else {
                    Ok(bytes)
                },
            }
        }
    }
}

/// The layout of a file, or the first error in its framing.
pub open spec fn layout_of(file: Seq<u8>) -> Result<LayoutView, FormatError> {
    match header::features_first_header(file) {
        Err(error) => Err(error),
        Ok(found) => match descriptors_from(file, found.sections as nat, HEADER_SIZE as int) {
            Err(error) => Err(error),
            Ok(sections) => Ok(
                LayoutView { metadata: found.metadata, sections, file_length: file.len() as u64 },
            ),
        },
    }
}

/// The state of a scan.
#[verifier::ext_equal]
pub struct ScanView {
    /// The metadata.
    pub metadata: Metadata,
    /// The length of the file.
    pub file_length: u64,
    /// How many sections are still to be scanned.
    pub left: nat,
    /// The offset of the next frame.
    pub cursor: u64,
    /// The understood sections so far.
    pub sections: Seq<SectionDescriptor>,
}

/// A scan through the frames of a container.
#[derive(Debug, Clone)]
pub struct LayoutScan {
    metadata: IndexMetadata,
    file_length: u64,
    left: usize,
    cursor: u64,
    sections: Vec<SectionDescriptor>,
}

impl View for LayoutScan {
    type V = ScanView;

    closed spec fn view(&self) -> ScanView {
        ScanView {
            metadata: self.metadata@,
            file_length: self.file_length,
            left: self.left as nat,
            cursor: self.cursor,
            sections: self.sections@,
        }
    }
}

impl LayoutScan {
    /// The metadata are valid.
    pub open spec fn wf(&self) -> bool {
        self@.metadata.valid()
    }

    /// Start to scan a file of `file_length` bytes that begins with `data`.
    pub fn begin(data: &[u8], file_length: u64) -> (result: Result<LayoutScan, FormatError>)
        ensures
            match header::features_first_header(data@) {
                Err(error) => result == Err::<LayoutScan, FormatError>(error),
                Ok(found) => result matches Ok(scan) && scan.wf() && scan@ == (ScanView {
                    metadata: found.metadata,
                    file_length,
                    left: found.sections as nat,
                    cursor: HEADER_SIZE as u64,
                    sections: Seq::empty(),
                }),
            },
    {
        match header::decode_header(data, true) {
            Err(error) => Err(error),
            Ok((metadata, left)) => Ok(
                LayoutScan {
                    metadata,
                    file_length,
                    left,
                    cursor: HEADER_SIZE as u64,
                    sections: Vec::new(),
                },
            ),
        }
    }

    /// The offset of the next frame to read; `None` once all are read.
    pub fn wanted(&self) -> (result: Result<Option<u64>, FormatError>)
        ensures
            if self@.left == 0 {
                result == Ok::<Option<u64>, FormatError>(None)
            } else {
                match frame_start_error(self@.cursor as int, self@.file_length as int) {
                    Some(error) => result == Err::<Option<u64>, FormatError>(error),
                    None => result == Ok::<Option<u64>, FormatError>(Some(self@.cursor)),
                }
            },
    {
        if self.left == 0 {
            return Ok(None);
        }
        if self.cursor > u64::MAX - SECTION_HEADER_SIZE as u64 {
            return Err(FormatError::LengthOverflow);
        }
        if self.cursor + SECTION_HEADER_SIZE as u64 > self.file_length {
            return Err(FormatError::Truncated { context: "section header" });
        }
        Ok(Some(self.cursor))
    }

    /// Take the frame that stands at the wanted offset.
    pub fn supply(&mut self, frame: &[u8]) -> (result: Result<(), FormatError>)
        requires
            old(self).wf(),
            old(self)@.left > 0,
            frame_start_error(old(self)@.cursor as int, old(self)@.file_length as int) is None,
            frame@.len() == SECTION_HEADER_SIZE,
        ensures
            final(self).wf(),
            ({
                let found = container::frame_at(frame@, 0);
                let before = old(self)@;
                let at = before.cursor as int;
                match frame_fault(found, at, before.file_length as int) {
                    Some(error) => result == Err::<(), FormatError>(error) && final(self)@
                        == before,
                    None => result is Ok && final(self)@ == (ScanView {
                        left: (before.left - 1) as nat,
                        cursor: found.end(at) as u64,
                        sections: before.sections + described(found, at),
                        ..before
                    }),
                }
            }),
    {
        let ghost before = self@;
        let kind_raw: u16 = le::read_u16(frame, 0);
        let flags: u16 = le::read_u16(frame, 2);
        let payload_length: u64 = le::read_u64(frame, 4);
        let checksum: u32 = le::read_u32(frame, 12);
        if flags > 1 {
            return Err(FormatError::InvalidSectionFlags { flags });
        }
        if payload_length > MAX_SECTION_BYTES {
            return Err(FormatError::SectionTooLarge { length: payload_length });
        }
        let payload_offset: u64 = self.cursor + SECTION_HEADER_SIZE as u64;
        let payload_end: u64 = match payload_offset.checked_add(payload_length) {
            Some(end) => end,
            None => {
                return Err(FormatError::LengthOverflow);
            },
        };
        if payload_end > self.file_length {
            return Err(FormatError::Truncated { context: "section payload" });
        }
        let required = flags == 1;
        match SectionKind::from_raw(kind_raw) {
            Some(kind) => {
                self.sections.push(
                    SectionDescriptor { kind, required, payload_offset, payload_length, checksum },
                );
            },
            None => {
                if required {
                    return Err(FormatError::UnknownRequiredSection { kind: kind_raw });
                }
            },
        }
        self.cursor = payload_end;
        self.left = self.left - 1;
        assert(self@.sections =~= before.sections + described(
            container::frame_at(frame@, 0),
            before.cursor as int,
        ));
        Ok(())
    }

    /// The layout, once every frame has been read.
    pub fn finish(self) -> (result: Result<FileLayout, FormatError>)
        requires
            self.wf(),
            self@.left == 0,
            self@.cursor <= self@.file_length,
        ensures
            match end_error(self@.cursor as int, self@.file_length as int) {
                Some(error) => result == Err::<FileLayout, FormatError>(error),
                None => result matches Ok(layout) && layout.wf() && layout@ == (LayoutView {
                    metadata: self@.metadata,
                    sections: self@.sections,
                    file_length: self@.file_length,
                }),
            },
    {
        if self.cursor != self.file_length {
            let remaining: u64 = self.file_length - self.cursor;
            if remaining > usize::MAX as u64 {
                return Err(FormatError::LengthOverflow);
            }
            return Err(FormatError::TrailingBytes { remaining: remaining as usize });
        }
        Ok(
            FileLayout {
                metadata: self.metadata,
                sections: self.sections,
                file_length: self.file_length,
            },
        )
    }
}

/// Validated metadata and section locations without materialized payloads.
#[derive(Debug, Clone, PartialEq, Eq)]
pub struct FileLayout {
    metadata: IndexMetadata,
    sections: Vec<SectionDescriptor>,
    file_length: u64,
}

impl View for FileLayout {
    type V = LayoutView;

    closed spec fn view(&self) -> LayoutView {
        LayoutView {
            metadata: self.metadata@,
            sections: self.sections@,
            file_length: self.file_length,
        }
    }
}

impl FileLayout {
    /// The metadata are valid.
    pub open spec fn wf(&self) -> bool {
        self@.metadata.valid()
    }

    /// Scan a container without copying its payloads.
    ///
    /// Unknown optional sections are validated and skipped; unknown required
    /// sections are rejected.
    pub fn read_from(file: &[u8]) -> (result: Result<FileLayout, FormatError>)
        ensures
            match layout_of(file@) {
                Err(error) => result == Err::<FileLayout, FormatError>(error),
                Ok(layout) => result matches Ok(found) && found@ == layout && found.wf(),
            },
    {
        let size: usize = file.len();
        let mut scan = match LayoutScan::begin(file, size as u64) {
            Ok(scan) => scan,
            Err(error) => {
                return Err(error);
            },
        };
        let ghost metadata = scan@.metadata;
        let ghost goal = descriptors_from(file@, scan@.left, HEADER_SIZE as int);
        proof {
            if goal is Ok {
                assert(scan@.sections + goal->Ok_0 =~= goal->Ok_0);
            }
        }
        loop
            invariant
                scan.wf(),
                size == file@.len(),
                scan@.metadata == metadata,
                scan@.file_length == file@.len(),
                scan@.cursor <= file@.len(),
                continues(
                    goal,
                    scan@.sections,
                    descriptors_from(file@, scan@.left, scan@.cursor as int),
                ),
                layout_of(file@) == (match goal {
                    Err(error) => Err::<LayoutView, FormatError>(error),
                    Ok(sections) => Ok::<LayoutView, FormatError>(
                        LayoutView { metadata, sections, file_length: file@.len() as u64 },
                    ),
                }),
            decreases scan@.left,
        {
            let ghost before = scan@;
            let at: u64 = match scan.wanted() {
                Err(error) => {
                    return Err(error);
                },
                Ok(None) => {
                    proof {
                        assert(scan@.sections + Seq::empty() =~= scan@.sections);
                    }
                    return scan.finish();
                },
                Ok(Some(at)) => at,
            };
            let start: usize = at as usize;
            let frame = vstd::slice::slice_subrange(file, start, start + SECTION_HEADER_SIZE);
            proof {
                lemma_frame_of_part(file@, start as int);
            }
            match scan.supply(frame) {
                Err(error) => {
                    return Err(error);
                },
                Ok(()) => {},
            }
            proof {
                let found = container::frame_at(file@, start as int);
                let rest = descriptors_from(file@, scan@.left, scan@.cursor as int);
                if rest is Ok {
                    assert(before.sections + (described(found, start as int) + rest->Ok_0)
                        =~= scan@.sections + rest->Ok_0);
                }
            }
        }
    }

    /// The validated metadata.
    pub fn metadata(&self) -> (metadata: &IndexMetadata)
        ensures
            metadata@ == self@.metadata,
    {
        &self.metadata
    }

    /// Descriptors for the understood sections, in file order.
    pub fn sections(&self) -> (sections: &[SectionDescriptor])
        ensures
            sections@ == self@.sections,
    {
        self.sections.as_slice()
    }

    /// The length of the file.
    pub fn file_length(&self) -> (length: u64)
        ensures
            length == self@.file_length,
    {
        self.file_length
    }

    /// The first understood section of `kind`, if there is one.
    pub fn section(&self, kind: SectionKind) -> (found: Option<SectionDescriptor>)
        ensures
            match found {
                Some(descriptor) => exists|i: int|
                    {
                        &&& 0 <= i < self@.sections.len()
                        &&& #[trigger] self@.sections[i] == descriptor
                        &&& descriptor.kind == kind
                        &&& forall|j: int| 0 <= j < i ==> (#[trigger] self@.sections[j]).kind != kind
                    },
                None => forall|j: int|
                    0 <= j < self@.sections.len() ==> (#[trigger] self@.sections[j]).kind != kind,
            },
    {
        let mut index: usize = 0;
        while index < self.sections.len()
            invariant
                index <= self.sections@.len(),
                forall|j: int| 0 <= j < index ==> (#[trigger] self@.sections[j]).kind != kind,
            decreases self.sections@.len() - index,
        {
            if self.sections[index].kind == kind {
                assert(self@.sections[index as int].kind == kind);
                return Some(self.sections[index]);
            }
            index = index + 1;
        }
        None
    }

    /// The file offset of a byte range in a section.
    pub fn range_start(
        &self,
        descriptor: SectionDescriptor,
        offset: u64,
        length: usize,
    ) -> (result: Result<u64, LayoutError>)
        ensures
            match self@.range_error(descriptor, offset, length) {
                Some(error) => result == Err::<u64, LayoutError>(error),
                None => result matches Ok(start) && start == descriptor.payload_offset + offset,
            },
    {
        let range_end: u64 = match offset.checked_add(length as u64) {
            Some(end) => end,
            None => {
                return Err(LayoutError::Format(FormatError::LengthOverflow));
            },
        };
        if range_end > descriptor.payload_length {
            return Err(
                LayoutError::RangeOutOfBounds {
                    offset,
                    length,
                    section_length: descriptor.payload_length,
                },
            );
        }
        let start: u64 = match descriptor.payload_offset.checked_add(offset) {
            Some(start) => start,
            None => {
                return Err(LayoutError::Format(FormatError::LengthOverflow));
            },
        };
        let end: u64 = match start.checked_add(length as u64) {
            Some(end) => end,
            None => {
                return Err(LayoutError::Format(FormatError::LengthOverflow));
            },
        };
        if end > self.file_length {
            return Err(LayoutError::Format(FormatError::Truncated { context: "section range" }));
        }
        Ok(start)
    }

    /// Read a bounded byte range from a section.
    ///
    /// The section checksum covers the whole payload, so it is not verified
    /// here.
    pub fn read_section_range(
        &self,
        file: &[u8],
        descriptor: SectionDescriptor,
        offset: u64,
        length: usize,
    ) -> (result: Result<Vec<u8>, LayoutError>)
        ensures
            match self@.range(file@, descriptor, offset, length) {
                Err(error) => result == Err::<Vec<u8>, LayoutError>(error),
                Ok(bytes) => result matches Ok(found) && found@ == bytes,
            },
    {
        let start: u64 = match self.range_start(descriptor, offset, length) {
            Ok(start) => start,
            Err(error) => {
                return Err(error);
            },
        };
        if start + length as u64 > file.len() as u64 {
            return Err(LayoutError::Format(FormatError::Truncated { context: "section range" }));
        }
        let from: usize = start as usize;
        Ok(vstd::slice::slice_to_vec(vstd::slice::slice_subrange(file, from, from + length)))
    }

    /// Look at one complete section in place and verify its stored checksum.
    pub fn borrow_section<'a>(&self, file: &'a [u8], descriptor: SectionDescriptor) -> (result:
        Result<&'a [u8], LayoutError>)
        ensures
            match self@.payload(file@, descriptor) {
                Err(error) => result == Err::<&'a [u8], LayoutError>(error),
                Ok(bytes) => result matches Ok(found) && found@ == bytes,
            },
    {
        if descriptor.payload_length > usize::MAX as u64 {
            return Err(LayoutError::Format(FormatError::LengthOverflow));
        }
        let length: usize = descriptor.payload_length as usize;
        let start: u64 = match self.range_start(descriptor, 0, length) {
            Ok(start) => start,
            Err(error) => {
                return Err(error);
            },
        };
        if start + length as u64 > file.len() as u64 {
            return Err(LayoutError::Format(FormatError::Truncated { context: "section range" }));
        }
        let from: usize = start as usize;
        let payload = vstd::slice::slice_subrange(file, from, from + length);
        match check_payload(descriptor, payload) {
            Ok(()) => Ok(payload),
            Err(error) => Err(LayoutError::Format(error)),
        }
    }

    /// Read one complete section and verify its stored checksum.
    pub fn read_section(&self, file: &[u8], descriptor: SectionDescriptor) -> (result: Result<
        Vec<u8>,
        LayoutError,
    >)
        ensures
            match self@.payload(file@, descriptor) {
                Err(error) => result == Err::<Vec<u8>, LayoutError>(error),
                Ok(bytes) => result matches Ok(found) && found@ == bytes,
            },
    {
        match self.borrow_section(file, descriptor) {
            Ok(payload) => Ok(vstd::slice::slice_to_vec(payload)),
            Err(error) => Err(error),
        }
    }
}

/// Verify the checksum of a payload that has been read.
pub fn check_payload(descriptor: SectionDescriptor, payload: &[u8]) -> (result: Result<
    (),
    FormatError,
>)
    ensures
        if checksum::crc32(payload@) != descriptor.checksum {
            result == Err::<(), FormatError>(
                FormatError::SectionChecksumMismatch {
                    expected: descriptor.checksum,
                    actual: checksum::crc32(payload@),
                },
            )
        } else {
            result is Ok
        },
{
    let actual: u32 = checksum::checksum(payload);
    if actual != descriptor.checksum {
        return Err(
            FormatError::SectionChecksumMismatch { expected: descriptor.checksum, actual },
        );
    }
    Ok(())
}

/// Reading `done` and then `rest` is the same as reading `goal`.
spec fn continues(
    goal: Result<Seq<SectionDescriptor>, FormatError>,
    done: Seq<SectionDescriptor>,
    rest: Result<Seq<SectionDescriptor>, FormatError>,
) -> bool {
    match rest {
        Err(error) => goal == Err::<Seq<SectionDescriptor>, FormatError>(error),
        Ok(rest) => goal == Ok::<Seq<SectionDescriptor>, FormatError>(done + rest),
    }
}

proof fn lemma_frame_of_part(file: Seq<u8>, at: int)
    requires
        0 <= at,
        at + SECTION_HEADER_SIZE <= file.len(),
    ensures
        container::frame_at(file.subrange(at, at + SECTION_HEADER_SIZE), 0)
            == container::frame_at(file, at),
{
    let part = file.subrange(at, at + SECTION_HEADER_SIZE);
    assert(part.subrange(0, 2) =~= file.subrange(at, at + 2));
    assert(part.subrange(2, 4) =~= file.subrange(at + 2, at + 4));
    assert(part.subrange(4, 12) =~= file.subrange(at + 4, at + 12));
    assert(part.subrange(12, 16) =~= file.subrange(at + 12, at + 16));
}

/// The descriptor locates the section and carries its checksum.
pub open spec fn locates(
    file: Seq<u8>,
    descriptor: SectionDescriptor,
    section: container::SectionView,
) -> bool {
    &&& descriptor.kind == section.kind
    &&& descriptor.required == section.required
    &&& descriptor.payload_offset + descriptor.payload_length <= file.len()
    &&& descriptor.payload(file) == section.payload
    &&& descriptor.checksum == checksum::crc32(section.payload)
}

/// The descriptors locate the sections, one for one.
pub open spec fn locate(
    file: Seq<u8>,
    descriptors: Seq<SectionDescriptor>,
    sections: Seq<container::SectionView>,
) -> bool {
    &&& descriptors.len() == sections.len()
    &&& forall|i: int|
        0 <= i < sections.len() ==> locates(file, #[trigger] descriptors[i], sections[i])
}

proof fn lemma_descriptors_locate(file: Seq<u8>, count: nat, at: int)
    requires
        0 <= at,
        file.len() <= u64::MAX,
        container::sections_from(file, count, at) is Ok,
    ensures
        descriptors_from(file, count, at) is Ok,
        locate(
            file,
            descriptors_from(file, count, at)->Ok_0,
            container::sections_from(file, count, at)->Ok_0,
        ),
    decreases count,
{
    if count > 0 {
        let frame = container::frame_at(file, at);
        let next = frame.end(at);
        lemma_descriptors_locate(file, (count - 1) as nat, next);
        let descriptors = descriptors_from(file, count, at)->Ok_0;
        let sections = container::sections_from(file, count, at)->Ok_0;
        let later = descriptors_from(file, (count - 1) as nat, next)->Ok_0;
        let later_sections = container::sections_from(file, (count - 1) as nat, next)->Ok_0;
        let skipped: int = if SectionKind::of_raw(frame.kind) is Some {
            1
        } else {
            0
        };
        assert forall|i: int| 0 <= i < sections.len() implies locates(
            file,
            #[trigger] descriptors[i],
            sections[i],
        ) by {
            if i >= skipped {
                assert(descriptors[i] == later[i - skipped]);
                assert(sections[i] == later_sections[i - skipped]);
            }
        }
    }
}

/// Wherever the container decodes, its layout is found as well, has the same
/// metadata, and locates every section that decoding gives.
pub proof fn law_layout_agrees_with_decoding(file: Seq<u8>)
    requires
        file.len() <= u64::MAX,
        container::decoded(file) is Ok,
    ensures
        layout_of(file) matches Ok(layout) && {
            &&& layout.metadata == container::decoded(file)->Ok_0.metadata
            &&& locate(file, layout.sections, container::decoded(file)->Ok_0.sections)
        },
{
    lemma_descriptors_locate(
        file,
        header::header(file)->Ok_0.sections as nat,
        HEADER_SIZE as int,
    );
}

/// Reading a section through the layout of a file gives the payload that
/// decoding the file gives.
pub proof fn law_sections_are_read_back(file: Seq<u8>, layout: LayoutView, index: int)
    requires
        file.len() <= usize::MAX,
        container::decoded(file) is Ok,
        layout_of(file) == Ok::<LayoutView, FormatError>(layout),
        0 <= index < layout.sections.len(),
    ensures
        index < container::decoded(file)->Ok_0.sections.len(),
        layout.payload(file, layout.sections[index]) == Ok::<Seq<u8>, LayoutError>(
            container::decoded(file)->Ok_0.sections[index].payload,
        ),
{
    law_layout_agrees_with_decoding(file);
    assert(locates(
        file,
        layout.sections[index],
        container::decoded(file)->Ok_0.sections[index],
    ));
}

proof fn lemma_descriptors_of_extension(file: Seq<u8>, more: Seq<u8>, count: nat, at: int)
    requires
        0 <= at <= file.len(),
        more.len() > 0,
        descriptors_from(file, count, at) is Ok,
    ensures
        descriptors_from(file + more, count, at) is Err,
    decreases count,
{
    if count > 0 {
        let whole = file + more;
        assert(whole.subrange(at, at + SECTION_HEADER_SIZE) =~= file.subrange(
            at,
            at + SECTION_HEADER_SIZE,
        ));
        lemma_frame_of_part(whole, at);
        lemma_frame_of_part(file, at);
        lemma_descriptors_of_extension(
            file,
            more,
            (count - 1) as nat,
            container::frame_at(file, at).end(at),
        );
    }
}

/// Every proper prefix of a file that has a layout is rejected.
pub proof fn law_layout_rejects_truncation(file: Seq<u8>, kept: nat)
    requires
        layout_of(file) is Ok,
        kept < file.len(),
    ensures
        layout_of(file.take(kept as int)) is Err,
{
    let part = file.take(kept as int);
    if layout_of(part) is Ok {
        let more = file.skip(kept as int);
        assert(part + more =~= file);
        header::lemma_header_of_extension(part, more);
        lemma_descriptors_of_extension(
            part,
            more,
            header::header(part)->Ok_0.sections as nat,
            HEADER_SIZE as int,
        );
    }
}

/// The byte is one of the payload of a section.
pub open spec fn is_payload_byte(section: SectionDescriptor, at: int) -> bool {
    section.payload_offset <= at < section.payload_offset + section.payload_length
}

/// The sections stand one behind the other, each behind a frame, from `at` to the end
/// of a file of `size` bytes.
pub open spec fn in_file_order(sections: Seq<SectionDescriptor>, at: int, size: int) -> bool {
    &&& forall|i: int|
        0 <= i < sections.len() ==> at + SECTION_HEADER_SIZE <= (
        #[trigger] sections[i]).payload_offset && sections[i].payload_offset
            + sections[i].payload_length <= size
    &&& forall|i: int, j: int|
        0 <= i < j < sections.len() ==> (#[trigger] sections[i]).payload_offset
            + sections[i].payload_length <= (#[trigger] sections[j]).payload_offset
}

/// The payloads of the sections that are found do not overlap each other, the frames
/// or the header.
pub(crate) proof fn lemma_in_file_order(file: Seq<u8>, count: nat, at: int)
    requires
        0 <= at,
        descriptors_from(file, count, at) is Ok,
    ensures
        in_file_order(descriptors_from(file, count, at)->Ok_0, at, file.len() as int),
    decreases count,
{
    if count > 0 {
        let frame = container::frame_at(file, at);
        let next = frame.end(at);
        lemma_in_file_order(file, (count - 1) as nat, next);
        let first = described(frame, at);
        let rest = descriptors_from(file, (count - 1) as nat, next)->Ok_0;
        let all = first + rest;
        assert forall|i: int| 0 <= i < all.len() implies at + SECTION_HEADER_SIZE <= (
        #[trigger] all[i]).payload_offset && all[i].payload_offset + all[i].payload_length
            <= file.len() by {
            if i >= first.len() {
                assert(all[i] == rest[i - first.len()]);
            }
        }
        assert forall|i: int, j: int| 0 <= i < j < all.len() implies (
        #[trigger] all[i]).payload_offset + all[i].payload_length <= (
        #[trigger] all[j]).payload_offset by {
            assert(all[j] == rest[j - first.len()]);
            if i >= first.len() {
                assert(all[i] == rest[i - first.len()]);
            }
        }
    }
}

/// The sections of a layout do not overlap.
pub(crate) proof fn lemma_sections_in_file_order(file: Seq<u8>, layout: LayoutView)
    requires
        layout_of(file) == Ok::<LayoutView, FormatError>(layout),
    ensures
        in_file_order(layout.sections, HEADER_SIZE as int, file.len() as int),
{
    let count = header::features_first_header(file)->Ok_0.sections as nat;
    lemma_in_file_order(file, count, HEADER_SIZE as int);
}

/// A byte is in the payload of one section only.
pub(crate) proof fn lemma_one_payload(
    sections: Seq<SectionDescriptor>,
    at: int,
    size: int,
    left: int,
    right: int,
    byte: int,
)
    requires
        in_file_order(sections, at, size),
        0 <= left < sections.len(),
        0 <= right < sections.len(),
        is_payload_byte(sections[left], byte),
        is_payload_byte(sections[right], byte),
    ensures
        left == right,
{
    if left < right {
        assert(sections[left].payload_offset + sections[left].payload_length
            <= sections[right].payload_offset);
    } else if right < left {
        assert(sections[right].payload_offset + sections[right].payload_length
            <= sections[left].payload_offset);
    }
}

/// From `at` on, the files differ only in the payloads of these sections.
pub open spec fn differ_in_payloads(
    left: Seq<u8>,
    right: Seq<u8>,
    sections: Seq<SectionDescriptor>,
    at: int,
) -> bool {
    &&& left.len() == right.len()
    &&& forall|p: int|
        at <= p < left.len() && #[trigger] left[p] != right[p] ==> exists|i: int|
            0 <= i < sections.len() && is_payload_byte(#[trigger] sections[i], p)
}

proof fn lemma_descriptors_ignore_payloads(left: Seq<u8>, right: Seq<u8>, count: nat, at: int)
    requires
        0 <= at,
        descriptors_from(left, count, at) is Ok,
        differ_in_payloads(left, right, descriptors_from(left, count, at)->Ok_0, at),
    ensures
        descriptors_from(right, count, at) == descriptors_from(left, count, at),
    decreases count,
{
    if count > 0 {
        let all = descriptors_from(left, count, at)->Ok_0;
        lemma_in_file_order(left, count, at);
        let end = at + SECTION_HEADER_SIZE;
        assert forall|p: int| at <= p < end implies left[p] == right[p] by {
            if left[p] != right[p] {
                let i = choose|i: int|
                    0 <= i < all.len() && is_payload_byte(#[trigger] all[i], p);
                assert(end <= all[i].payload_offset);
            }
        }
        assert(left.subrange(at, end) =~= right.subrange(at, end));
        lemma_frame_of_part(left, at);
        lemma_frame_of_part(right, at);
        let frame = container::frame_at(left, at);
        let next = frame.end(at);
        let first = described(frame, at);
        let rest = descriptors_from(left, (count - 1) as nat, next)->Ok_0;
        assert forall|p: int| next <= p < left.len() && #[trigger] left[p] != right[p] implies exists|
            i: int,
        |
            0 <= i < rest.len() && is_payload_byte(#[trigger] rest[i], p) by {
            let i = choose|i: int| 0 <= i < all.len() && is_payload_byte(#[trigger] all[i], p);
            assert(i >= first.len());
            assert(all[i] == rest[i - first.len()]);
            assert(is_payload_byte(rest[i - first.len()], p));
        }
        lemma_descriptors_ignore_payloads(left, right, (count - 1) as nat, next);
    }
}

/// Finding the sections of a file does not depend on their payloads: what is damaged
/// there shows when it is read.
pub proof fn law_layout_ignores_payloads(left: Seq<u8>, right: Seq<u8>, layout: LayoutView)
    requires
        layout_of(left) == Ok::<LayoutView, FormatError>(layout),
        differ_in_payloads(left, right, layout.sections, 0),
    ensures
        layout_of(right) == Ok::<LayoutView, FormatError>(layout),
{
    let count = header::features_first_header(left)->Ok_0.sections as nat;
    let start = HEADER_SIZE as int;
    lemma_in_file_order(left, count, start);
    assert(left.len() >= HEADER_SIZE);
    assert forall|p: int| 0 <= p < start implies left[p] == right[p] by {
        if left[p] != right[p] {
            let i = choose|i: int|
                0 <= i < layout.sections.len() && is_payload_byte(
                    #[trigger] layout.sections[i],
                    p,
                );
            assert(start + SECTION_HEADER_SIZE <= layout.sections[i].payload_offset);
        }
    }
    assert(left.take(start) =~= right.take(start));
    header::lemma_header_of_front(left, right);
    lemma_descriptors_ignore_payloads(left, right, count, start);
}

/// One altered byte of a payload that can be read is always noticed: the file still has
/// its layout, and reading the section gives a checksum mismatch.
pub proof fn law_altered_payload_is_rejected(
    file: Seq<u8>,
    layout: LayoutView,
    index: int,
    at: int,
    byte: u8,
)
    requires
        layout_of(file) == Ok::<LayoutView, FormatError>(layout),
        0 <= index < layout.sections.len(),
        layout.payload(file, layout.sections[index]) is Ok,
        is_payload_byte(layout.sections[index], at),
        byte != file[at],
    ensures
        layout_of(file.update(at, byte)) == Ok::<LayoutView, FormatError>(layout),
        layout.payload(file.update(at, byte), layout.sections[index]) matches Err(
            LayoutError::Format(FormatError::SectionChecksumMismatch { .. }),
        ),
{
    let altered = file.update(at, byte);
    let section = layout.sections[index];
    let start = section.payload_offset as int;
    let end = start + section.payload_length;
    let payload = file.subrange(start, end);
    assert(altered.subrange(start, end) =~= payload.update(at - start, byte));
    checksum::law_one_altered_byte_changes_the_checksum(payload, at - start, byte);
    assert(differ_in_payloads(file, altered, layout.sections, 0)) by {
        assert forall|p: int|
            0 <= p < file.len() && #[trigger] file[p] != altered[p] implies exists|i: int|
            0 <= i < layout.sections.len() && is_payload_byte(#[trigger] layout.sections[i], p) by {
            assert(p == at);
            assert(is_payload_byte(layout.sections[index], p));
        }
    }
    law_layout_ignores_payloads(file, altered, layout);
}

/// One altered byte of a payload makes decoding the whole file fail.
pub proof fn law_altered_payload_is_not_decoded(
    file: Seq<u8>,
    layout: LayoutView,
    index: int,
    at: int,
    byte: u8,
)
    requires
        file.len() <= usize::MAX,
        container::decoded(file) is Ok,
        layout_of(file) == Ok::<LayoutView, FormatError>(layout),
        0 <= index < layout.sections.len(),
        is_payload_byte(layout.sections[index], at),
        byte != file[at],
    ensures
        container::decoded(file.update(at, byte)) is Err,
{
    let altered = file.update(at, byte);
    law_sections_are_read_back(file, layout, index);
    law_altered_payload_is_rejected(file, layout, index, at, byte);
    if container::decoded(altered) is Ok {
        law_sections_are_read_back(altered, layout, index);
    }
}

/// A range of a section can be read exactly when it ends within the section and the file,
/// and is then the bytes that stand there.
pub proof fn law_ranges_are_the_bytes_in_place(
    layout: LayoutView,
    file: Seq<u8>,
    descriptor: SectionDescriptor,
    offset: u64,
    length: usize,
)
    ensures
        (layout.range(file, descriptor, offset, length) is Ok) == (offset + length
            <= descriptor.payload_length && descriptor.payload_offset + offset + length
            <= layout.file_length && descriptor.payload_offset + offset + length <= file.len()
            && descriptor.payload_offset + offset + length <= u64::MAX),
        layout.range(file, descriptor, offset, length) matches Ok(bytes) ==> bytes.len() == length
            && forall|i: int|
            0 <= i < length ==> #[trigger] bytes[i] == file[descriptor.payload_offset + offset + i],
{
}

/// A payload that is read is what stands in its section, and has the checksum of the
/// section.
pub proof fn law_read_payloads_are_sound(
    layout: LayoutView,
    file: Seq<u8>,
    descriptor: SectionDescriptor,
)
    requires
        layout.payload(file, descriptor) is Ok,
    ensures
        ({
            let start = descriptor.payload_offset as int;
            let end = start + descriptor.payload_length;
            let payload = layout.payload(file, descriptor)->Ok_0;
            &&& end <= file.len()
            &&& payload == file.subrange(start, end)
            &&& checksum::crc32(payload) == descriptor.checksum
        }),
{
}

} // verus!
