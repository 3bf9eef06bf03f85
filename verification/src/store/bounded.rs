//! Construction of the lazy format from sorted runs of bounded size.
//!
//! The memberships of a committed snapshot go through a buffer of bounded size,
//! which is sorted and given out as a run whenever it is full. The runs are merged,
//! and the buckets of the result are streamed into the sections of the container.
//! What is bounded is the size of each run: [`build_external`] holds the snapshot,
//! all runs and the file that it makes in memory. A program that keeps them in
//! files opens the snapshot in place with [`BuildSource`] and drives the spill
//! buffer, the merge, the directory and the segment stream itself.

use vstd::prelude::*;

use crate::format::buckets;
use crate::format::checksum;
use crate::format::codec::CodecId;
use crate::format::container::SectionKind;
use crate::format::error::FormatError;
use crate::format::header::{Algorithm, IndexMetadata, Metadata, SignatureScheme};
use crate::format::layout;
use crate::format::layout::{FileLayout, LayoutError, LayoutView, SectionDescriptor};
use crate::le;
use crate::order;
use crate::store::convert;
use crate::store::convert::SnapshotView;
use crate::store::membership;
use crate::store::merge;
use crate::store::merge::DirectoryBuilder;
use crate::store::segments;
use crate::store::snapshot;

verus! {

/// Configuration for the bounded builder.
#[derive(Debug, Clone, Copy, PartialEq, Eq, Structural)]
pub struct BuildOptions {
    /// Maximum number of `(band, hash, key)` records held before a sorted spill.
    pub max_buffer_records: usize,
}

impl Default for BuildOptions {
    fn default() -> (options: BuildOptions)
        ensures
            options.max_buffer_records == 262_144,
    {
        BuildOptions { max_buffer_records: 262_144 }
    }
}

/// Measured construction state.
#[derive(Debug, Clone, Copy, PartialEq, Eq, Structural)]
pub struct BuildStats {
    /// Total fixed-width records emitted from the source band hashes.
    pub records: u64,
    /// Number of sorted spill runs created.
    pub spill_runs: usize,
    /// Maximum number of records simultaneously held in the spill buffer.
    pub peak_buffered_records: usize,
    /// Number of distinct output buckets.
    pub buckets: u64,
    /// Final file size.
    pub output_bytes: u64,
}

impl BuildStats {
    /// The measurements of a run that spilled so many records from a buffer of
    /// `limit` records. The buffer is full once as many records have come.
    pub fn of_run(
        records: usize,
        spill_runs: usize,
        limit: usize,
        buckets: usize,
        output_bytes: u64,
    ) -> (stats: BuildStats)
        ensures
            stats == (BuildStats {
                records: records as u64,
                spill_runs,
                peak_buffered_records: if records < limit {
                    records
                } else {
                    limit
                },
                buckets: buckets as u64,
                output_bytes,
            }),
    {
        let peak_buffered_records: usize = if records < limit {
            records
        } else {
            limit
        };
        BuildStats {
            records: records as u64,
            spill_runs,
            peak_buffered_records,
            buckets: buckets as u64,
            output_bytes,
        }
    }
}

/// Errors returned by bounded construction.
#[derive(Debug, Clone, Copy, PartialEq, Eq)]
pub enum BuildError {
    /// The source layout reader rejected the container.
    Layout(LayoutError),
    /// Source or output metadata violates the stable format.
    Format(FormatError),
    /// The source ends inside a record count.
    SourceEnded,
    /// The source snapshot violates the storage contract.
    InvalidSource { reason: &'static str },
    /// Builder configuration is invalid.
    InvalidOptions { reason: &'static str },
    /// A length does not fit the type that holds it.
    LengthOverflow,
}

/// The error for metadata that the builder does not serve, if it does not.
pub open spec fn metadata_error(metadata: Metadata) -> Option<BuildError> {
    if metadata.algorithm != Algorithm::MinHashLsh {
        Some(BuildError::InvalidSource { reason: "algorithm is not MinHash LSH" })
    } else if metadata.scheme != SignatureScheme::PariAffine32V1 {
        Some(BuildError::InvalidSource { reason: "signature scheme is not pari-affine32-v1" })
    } else if metadata.codec != CodecId::U64 {
        Some(BuildError::InvalidSource { reason: "bounded builder currently requires u64 keys" })
    } else if metadata.features != 0 {
        Some(
            BuildError::InvalidSource { reason: "bounded builder does not support feature flags" },
        )
    } else {
        None
    }
}

/// Check that the builder serves a snapshot with these metadata.
pub fn validate_source_metadata(metadata: &IndexMetadata) -> (result: Result<(), BuildError>)
    ensures
        match metadata_error(metadata@) {
            Some(error) => result == Err::<(), BuildError>(error),
            None => result is Ok,
        },
{
    if metadata.algorithm() != Algorithm::MinHashLsh {
        return Err(BuildError::InvalidSource { reason: "algorithm is not MinHash LSH" });
    }
    if metadata.signature_scheme() != SignatureScheme::PariAffine32V1 {
        return Err(
            BuildError::InvalidSource { reason: "signature scheme is not pari-affine32-v1" },
        );
    }
    if metadata.key_codec() != CodecId::U64 {
        return Err(
            BuildError::InvalidSource { reason: "bounded builder currently requires u64 keys" },
        );
    }
    if metadata.feature_flags() != 0 {
        return Err(
            BuildError::InvalidSource { reason: "bounded builder does not support feature flags" },
        );
    }
    Ok(())
}

/// The first section of a kind.
pub open spec fn first_section(
    sections: Seq<SectionDescriptor>,
    kind: SectionKind,
    reason: &'static str,
) -> Result<SectionDescriptor, BuildError> {
    let found = snapshot::of_kind(sections, kind);
    if found.len() == 0 {
        Err(BuildError::InvalidSource { reason })
    } else {
        Ok(found[0])
    }
}

proof fn lemma_first(sections: Seq<SectionDescriptor>, kind: SectionKind, index: int)
    requires
        0 <= index <= sections.len(),
        index < sections.len() ==> sections[index].kind == kind,
        forall|j: int| 0 <= j < index ==> (#[trigger] sections[j]).kind != kind,
    ensures
        index == sections.len() ==> snapshot::of_kind(sections, kind).len() == 0,
        index < sections.len() ==> snapshot::of_kind(sections, kind).len() > 0
            && snapshot::of_kind(sections, kind)[0] == sections[index],
    decreases sections.len(),
{
    if sections.len() > 0 {
        let front = sections.drop_last();
        if index < sections.len() {
            lemma_first(front, kind, index);
        } else {
            assert(sections[sections.len() - 1].kind != kind);
            lemma_first(front, kind, front.len() as int);
        }
    }
}

/// Find the first section of a kind.
pub fn required_section(layout: &FileLayout, kind: SectionKind, reason: &'static str) -> (result:
    Result<SectionDescriptor, BuildError>)
    ensures
        result == first_section(layout@.sections, kind, reason),
{
    match layout.section(kind) {
        Some(section) => {
            proof {
                let i = choose|i: int|
                    {
                        &&& 0 <= i < layout@.sections.len()
                        &&& #[trigger] layout@.sections[i] == section
                        &&& section.kind == kind
                        &&& forall|j: int|
                            0 <= j < i ==> (#[trigger] layout@.sections[j]).kind != kind
                    };
                lemma_first(layout@.sections, kind, i);
            }
            Ok(section)
        },
        None => {
            proof {
                lemma_first(layout@.sections, kind, layout@.sections.len() as int);
            }
            Err(BuildError::InvalidSource { reason })
        },
    }
}

/// The record count at the front of a section.
pub open spec fn count_at(source: Seq<u8>, section: SectionDescriptor) -> Result<
    usize,
    BuildError,
> {
    let at = section.payload_offset as int;
    if at + 8 > source.len() {
        Err(BuildError::SourceEnded)
    } else if le::u64_at(source, at) > usize::MAX {
        Err(BuildError::LengthOverflow)
    } else {
        Ok(le::u64_at(source, at) as usize)
    }
}

/// Read the record count at the front of a section.
pub fn read_record_count(source: &[u8], section: SectionDescriptor) -> (result: Result<
    usize,
    BuildError,
>)
    ensures
        result == count_at(source@, section),
{
    if source.len() < 8 || section.payload_offset > (source.len() - 8) as u64 {
        return Err(BuildError::SourceEnded);
    }
    let count: u64 = le::read_u64(source, section.payload_offset as usize);
    if count > usize::MAX as u64 {
        return Err(BuildError::LengthOverflow);
    }
    Ok(count as usize)
}

/// The error for sections whose lengths do not belong to their record count, if
/// they do not.
pub open spec fn length_error(
    keys: SectionDescriptor,
    hashes: SectionDescriptor,
    count: usize,
    bands: usize,
) -> Option<BuildError> {
    if 8 + 8 * count > usize::MAX || 8 * bands > usize::MAX || 8 + count * (8 * bands)
        > usize::MAX {
        Some(BuildError::LengthOverflow)
    } else if keys.payload_length != 8 + 8 * count {
        Some(
            BuildError::InvalidSource {
                reason: "keys section length disagrees with its record count",
            },
        )
    } else if hashes.payload_length != 8 + count * (8 * bands) {
        Some(
            BuildError::InvalidSource {
                reason: "band-hash section length disagrees with its record count",
            },
        )
    } else {
        None
    }
}

/// Check that the lengths of the sections belong to their record count.
pub fn validate_source_lengths(
    keys: SectionDescriptor,
    hashes: SectionDescriptor,
    count: usize,
    bands: usize,
) -> (result: Result<(), BuildError>)
    ensures
        match length_error(keys, hashes, count, bands) {
            Some(error) => result == Err::<(), BuildError>(error),
            None => result is Ok,
        },
{
    let keys_expected: usize = match count.checked_mul(8) {
        Some(bytes) => match bytes.checked_add(8) {
            Some(expected) => expected,
            None => {
                return Err(BuildError::LengthOverflow);
            },
        },
        None => {
            return Err(BuildError::LengthOverflow);
        },
    };
    let row_bytes: usize = match bands.checked_mul(8) {
        Some(bytes) => bytes,
        None => {
            return Err(BuildError::LengthOverflow);
        },
    };
    let hashes_expected: usize = match count.checked_mul(row_bytes) {
        Some(bytes) => match bytes.checked_add(8) {
            Some(expected) => expected,
            None => {
                return Err(BuildError::LengthOverflow);
            },
        },
        None => {
            return Err(BuildError::LengthOverflow);
        },
    };
    if keys.payload_length != keys_expected as u64 {
        return Err(
            BuildError::InvalidSource {
                reason: "keys section length disagrees with its record count",
            },
        );
    }
    if hashes.payload_length != hashes_expected as u64 {
        return Err(
            BuildError::InvalidSource {
                reason: "band-hash section length disagrees with its record count",
            },
        );
    }
    Ok(())
}

/// The payload of a section, or the error where its checksum differs.
pub open spec fn checked_payload(
    layout: LayoutView,
    source: Seq<u8>,
    section: SectionDescriptor,
) -> Result<Seq<u8>, BuildError> {
    match layout.payload(source, section) {
        Ok(payload) => Ok(payload),
        Err(LayoutError::Format(error)) => Err(BuildError::Format(error)),
        Err(error) => Err(BuildError::Layout(error)),
    }
}

fn borrow_checked<'a>(layout: &FileLayout, source: &'a [u8], section: SectionDescriptor) -> (result:
    Result<&'a [u8], BuildError>)
    ensures
        match checked_payload(layout@, source@, section) {
            Err(error) => result == Err::<&'a [u8], BuildError>(error),
            Ok(payload) => result matches Ok(found) && found@ == payload,
        },
{
    match layout.borrow_section(source, section) {
        Ok(payload) => Ok(payload),
        Err(LayoutError::Format(error)) => Err(BuildError::Format(error)),
        Err(error) => Err(BuildError::Layout(error)),
    }
}

/// The items in these sections, or the first error in them.
pub open spec fn source_items(
    layout: LayoutView,
    source: Seq<u8>,
    keys: SectionDescriptor,
    hashes: SectionDescriptor,
) -> Result<SnapshotView, BuildError> {
    let bands = layout.metadata.bands as usize;
    match checked_payload(layout, source, keys) {
        Err(error) => Err(error),
        Ok(keys_payload) => match checked_payload(layout, source, hashes) {
            Err(error) => Err(error),
            Ok(hashes_payload) => match count_at(source, keys) {
                Err(error) => Err(error),
                Ok(count) => match count_at(source, hashes) {
                    Err(error) => Err(error),
                    Ok(other) => if count != other {
                        Err(
                            BuildError::InvalidSource {
                                reason: "key and band-hash record counts differ",
                            },
                        )
                    } else if length_error(keys, hashes, count, bands) is Some {
                        Err(length_error(keys, hashes, count, bands)->0)
                    } else {
                        Ok(
                            SnapshotView {
                                metadata: layout.metadata,
                                keys_payload,
                                hashes_payload,
                                keys: snapshot::numbers(keys_payload, 0, count as nat),
                                rows: Seq::new(
                                    count as nat,
                                    |i: int|
                                        snapshot::numbers(
                                            hashes_payload,
                                            i * bands,
                                            bands as nat,
                                        ),
                                ),
                            },
                        )
                    },
                },
            },
        },
    }
}

/// The snapshot that the builder finds in a file with this layout, or the first
/// error in it.
pub open spec fn source_in(layout: LayoutView, source: Seq<u8>) -> Result<
    SnapshotView,
    BuildError,
> {
    if metadata_error(layout.metadata) is Some {
        Err(metadata_error(layout.metadata)->0)
    } else {
        match first_section(layout.sections, SectionKind::Keys, "missing keys section") {
            Err(error) => Err(error),
            Ok(keys) => match first_section(
                layout.sections,
                SectionKind::BandHashes,
                "missing band-hash section",
            ) {
                Err(error) => Err(error),
                Ok(hashes) => source_items(layout, source, keys, hashes),
            },
        }
    }
}

/// The snapshot that the builder finds in a file, or the first error.
pub open spec fn source_of(source: Seq<u8>, options: BuildOptions) -> Result<
    SnapshotView,
    BuildError,
> {
    if options.max_buffer_records == 0 {
        Err(BuildError::InvalidOptions { reason: "max_buffer_records must be positive" })
    } else {
        match layout::layout_of(source) {
            Err(error) => Err(BuildError::Layout(LayoutError::Format(error))),
            Ok(layout) => source_in(layout, source),
        }
    }
}

/// The lazy file that the builder makes of a file, or its error.
pub open spec fn built(source: Seq<u8>, options: BuildOptions) -> Result<Seq<u8>, BuildError> {
    match source_of(source, options) {
        Err(error) => Err(error),
        Ok(found) => match segments::packed(
            found.metadata,
            found.keys_payload,
            found.hashes_payload,
            membership::buckets_by_key(found.keys, found.rows),
        ) {
            Err(error) => Err(BuildError::Format(error)),
            Ok(bytes) => Ok(bytes),
        },
    }
}

/// The measurements of building a snapshot with `limit` buffered records.
pub open spec fn stats_of(found: SnapshotView, limit: usize, output: nat) -> BuildStats {
    let records = membership::memberships(found.keys, found.rows).len();
    BuildStats {
        records: records as u64,
        spill_runs: merge::run_count(records, limit as nat) as usize,
        peak_buffered_records: if records < limit {
            records as usize
        } else {
            limit
        },
        buckets: membership::buckets_by_key(found.keys, found.rows).len() as u64,
        output_bytes: output as u64,
    }
}

/// In a file with a layout, the number at the front of a section is the number
/// at the front of its payload.
proof fn lemma_count_of_payload(
    source: Seq<u8>,
    layout: LayoutView,
    section: SectionDescriptor,
    payload: Seq<u8>,
)
    requires
        checked_payload(layout, source, section) == Ok::<Seq<u8>, BuildError>(payload),
        section.payload_length >= 8,
    ensures
        payload.len() == section.payload_length,
        section.payload_offset + 8 <= source.len(),
        le::u64_at(source, section.payload_offset as int) == le::u64_at(payload, 0),
{
    let at = section.payload_offset as int;
    assert(source.subrange(at, at + 8) =~= payload.subrange(0, 8));
}

/// What the builder accepts is what reading the payloads gives.
proof fn lemma_items(
    layout: LayoutView,
    source: Seq<u8>,
    keys: SectionDescriptor,
    hashes: SectionDescriptor,
)
    requires
        source_items(layout, source, keys, hashes) is Ok,
    ensures
        ({
            let found = source_items(layout, source, keys, hashes)->Ok_0;
            convert::items_of(
                layout.metadata,
                found.keys_payload,
                found.hashes_payload,
            ) == Ok::<SnapshotView, snapshot::LazyStoreError>(found)
        }),
{
    let found = source_items(layout, source, keys, hashes)->Ok_0;
    lemma_count_of_payload(source, layout, keys, found.keys_payload);
    lemma_count_of_payload(source, layout, hashes, found.hashes_payload);
    let count = count_at(source, keys)->Ok_0;
    let bands = layout.metadata.bands as usize;
    assert(count * (8 * bands) >= 0) by (nonlinear_arith);
    let other = convert::items_of(
        layout.metadata,
        found.keys_payload,
        found.hashes_payload,
    )->Ok_0;
    assert(other.rows =~= found.rows);
}

/// A snapshot that the builder accepts is complete.
pub proof fn law_source_is_complete(source: Seq<u8>, options: BuildOptions)
    requires
        source_of(source, options) is Ok,
    ensures
        source_of(source, options)->Ok_0.valid(),
{
    let layout = layout::layout_of(source)->Ok_0;
    let found = source_of(source, options)->Ok_0;
    let keys = snapshot::of_kind(layout.sections, SectionKind::Keys)[0];
    let hashes = snapshot::of_kind(layout.sections, SectionKind::BandHashes)[0];
    convert::lemma_payload_bounded(source, layout, SectionKind::Keys);
    convert::lemma_payload_bounded(source, layout, SectionKind::BandHashes);
    lemma_items(layout, source, keys, hashes);
    assert(found.keys_payload.len() == keys.payload_length);
    assert(found.hashes_payload.len() == hashes.payload_length);
    convert::lemma_items_valid(layout.metadata, found.keys_payload, found.hashes_payload);
}

/// The payload of the keys that the builder accepts can be decoded.
pub(crate) proof fn lemma_source_decodes(source: Seq<u8>, options: BuildOptions)
    requires
        source_of(source, options) is Ok,
    ensures
        snapshot::decoded_keys(source_of(source, options)->Ok_0.keys_payload) is Ok,
        snapshot::metadata_error(source_of(source, options)->Ok_0.metadata) is None,
{
    let layout = layout::layout_of(source)->Ok_0;
    lemma_items(
        layout,
        source,
        snapshot::of_kind(layout.sections, SectionKind::Keys)[0],
        snapshot::of_kind(layout.sections, SectionKind::BandHashes)[0],
    );
}

/// Where the keys of a snapshot ascend within each bucket, the bounded builder makes
/// the file that the conversion in memory makes, byte for byte, whatever the size of
/// its runs.
pub proof fn law_bounded_building_equals_conversion(source: Seq<u8>, options: BuildOptions)
    requires
        options.max_buffer_records > 0,
        convert::snapshot_of(source) is Ok,
        ({
            let found = convert::snapshot_of(source)->Ok_0;
            membership::ascends_within_buckets(found.keys, found.rows)
        }),
    ensures
        match convert::converted(source) {
            Ok(bytes) => built(source, options) == Ok::<Seq<u8>, BuildError>(bytes),
            Err(snapshot::LazyStoreError::Format(error)) => built(source, options) == Err::<
                Seq<u8>,
                BuildError,
            >(BuildError::Format(error)),
            Err(_) => false,
        },
{
    let found = convert::snapshot_of(source)->Ok_0;
    let layout = layout::layout_of(source)->Ok_0;
    let keys = snapshot::of_kind(layout.sections, SectionKind::Keys)[0];
    let hashes = snapshot::of_kind(layout.sections, SectionKind::BandHashes)[0];
    convert::law_snapshot_is_complete(source);
    let bands = layout.metadata.bands as usize;
    let rows = found.rows.len() as int;
    assert(rows * (8 * bands) >= 0) by (nonlinear_arith)
        requires
            rows >= 0,
    ;
    lemma_count_of_payload(source, layout, keys, found.keys_payload);
    lemma_count_of_payload(source, layout, hashes, found.hashes_payload);
    let other = source_of(source, options)->Ok_0;
    assert(other.keys =~= found.keys);
    assert(other.rows =~= found.rows);
    assert forall|i: int| 0 <= i < found.rows.len() implies (#[trigger] found.rows[i]).len()
        <= u32::MAX by {
        assert(found.rows[i].len() == found.metadata.bands);
    }
    membership::law_ascending_keys_follow_positions(found.keys, found.rows);
}

/// A committed snapshot that has been checked, in place.
pub struct BuildSource<'a> {
    metadata: IndexMetadata,
    keys: &'a [u8],
    hashes: &'a [u8],
    count: usize,
    bands: usize,
}

impl<'a> View for BuildSource<'a> {
    type V = SnapshotView;

    closed spec fn view(&self) -> SnapshotView {
        SnapshotView {
            metadata: self.metadata@,
            keys_payload: self.keys@,
            hashes_payload: self.hashes@,
            keys: snapshot::numbers(self.keys@, 0, self.count as nat),
            rows: Seq::new(
                self.count as nat,
                |i: int| snapshot::numbers(self.hashes@, i * self.bands, self.bands as nat),
            ),
        }
    }
}

impl<'a> BuildSource<'a> {
    /// The payloads hold as many keys and rows as they say.
    pub closed spec fn wf(&self) -> bool {
        &&& self.metadata@.valid()
        &&& self.bands == self.metadata@.bands
        &&& self.keys@.len() == 8 + 8 * self.count
        &&& self.hashes@.len() == 8 + self.count * (8 * self.bands)
    }

    /// Check a committed snapshot with sections for the keys and the band hashes.
    pub fn open(source: &'a [u8], options: BuildOptions) -> (result: Result<
        BuildSource<'a>,
        BuildError,
    >)
        ensures
            match source_of(source@, options) {
                Err(error) => result == Err::<BuildSource<'a>, BuildError>(error),
                Ok(found) => result matches Ok(opened) && opened.wf() && opened@ == found,
            },
    {
        if options.max_buffer_records == 0 {
            return Err(BuildError::InvalidOptions { reason: "max_buffer_records must be positive" });
        }
        let layout = match FileLayout::read_from(source) {
            Ok(layout) => layout,
            Err(error) => {
                return Err(BuildError::Layout(LayoutError::Format(error)));
            },
        };
        match validate_source_metadata(layout.metadata()) {
            Ok(()) => {},
            Err(error) => {
                return Err(error);
            },
        }
        let keys_section = match required_section(
            &layout,
            SectionKind::Keys,
            "missing keys section",
        ) {
            Ok(section) => section,
            Err(error) => {
                return Err(error);
            },
        };
        let hashes_section = match required_section(
            &layout,
            SectionKind::BandHashes,
            "missing band-hash section",
        ) {
            Ok(section) => section,
            Err(error) => {
                return Err(error);
            },
        };
        let keys = match borrow_checked(&layout, source, keys_section) {
            Ok(payload) => payload,
            Err(error) => {
                return Err(error);
            },
        };
        let hashes = match borrow_checked(&layout, source, hashes_section) {
            Ok(payload) => payload,
            Err(error) => {
                return Err(error);
            },
        };
        let count: usize = match read_record_count(source, keys_section) {
            Ok(count) => count,
            Err(error) => {
                return Err(error);
            },
        };
        let other: usize = match read_record_count(source, hashes_section) {
            Ok(other) => other,
            Err(error) => {
                return Err(error);
            },
        };
        if count != other {
            return Err(
                BuildError::InvalidSource { reason: "key and band-hash record counts differ" },
            );
        }
        let bands: usize = layout.metadata().bands() as usize;
        match validate_source_lengths(keys_section, hashes_section, count, bands) {
            Ok(()) => {},
            Err(error) => {
                return Err(error);
            },
        }
        proof {
            law_source_is_complete(source@, options);
            lemma_count_of_payload(source@, layout@, keys_section, keys@);
            lemma_count_of_payload(source@, layout@, hashes_section, hashes@);
        }
        let opened = BuildSource { metadata: *layout.metadata(), keys, hashes, count, bands };
        proof {
            let found = source_of(source@, options)->Ok_0;
            assert(opened@.rows =~= found.rows);
            assert(opened@ == found);
        }
        Ok(opened)
    }

    /// The metadata of the snapshot.
    pub fn metadata(&self) -> (metadata: &IndexMetadata)
        ensures
            metadata@ == self@.metadata,
    {
        &self.metadata
    }

    /// The payload of the section with the keys.
    pub fn keys_payload(&self) -> (payload: &'a [u8])
        ensures
            payload@ == self@.keys_payload,
    {
        self.keys
    }

    /// The payload of the section with the band hashes.
    pub fn hashes_payload(&self) -> (payload: &'a [u8])
        ensures
            payload@ == self@.hashes_payload,
    {
        self.hashes
    }

    /// The number of items.
    pub fn items(&self) -> (count: usize)
        ensures
            count == self@.keys.len(),
            count == self@.rows.len(),
    {
        self.count
    }

    /// The key of an item.
    pub fn key(&self, item: usize) -> (key: u64)
        requires
            self.wf(),
            item < self@.keys.len(),
        ensures
            key == self@.keys[item as int],
    {
        snapshot::read_numbers(self.keys, item, 1)[0]
    }

    /// The keys and the band hashes of all items.
    fn read(&self) -> (items: (Vec<u64>, Vec<Vec<u64>>))
        requires
            self.wf(),
        ensures
            items.0@ == self@.keys,
            membership::row_views(items.1@) == self@.rows,
    {
        let mut keys: Vec<u64> = Vec::new();
        let mut rows: Vec<Vec<u64>> = Vec::new();
        let mut item: usize = 0;
        while item < self.count
            invariant
                self.wf(),
                item <= self.count,
                self.count == self@.keys.len(),
                self.count == self@.rows.len(),
                keys@ == self@.keys.take(item as int),
                rows@.len() == item,
                membership::row_views(rows@) == self@.rows.take(item as int),
            decreases self.count - item,
        {
            let ghost before = rows@;
            keys.push(self.key(item));
            let row = self.row(item);
            assert(row@ == self@.rows[item as int]);
            rows.push(row);
            item = item + 1;
            proof {
                let views = membership::row_views(rows@);
                assert forall|i: int| 0 <= i < item implies views[i] == self@.rows[i] by {
                    if i < before.len() {
                        assert(rows@[i] == before[i]);
                        assert(membership::row_views(before)[i] == before[i]@);
                        assert(membership::row_views(before)[i] == self@.rows.take(
                            before.len() as int,
                        )[i]);
                    } else {
                        assert(rows@[i]@ == self@.rows[i]);
                    }
                }
                assert(keys@ =~= self@.keys.take(item as int));
                assert(views =~= self@.rows.take(item as int));
            }
        }
        assert(self@.keys.take(item as int) =~= self@.keys);
        assert(self@.rows.take(item as int) =~= self@.rows);
        (keys, rows)
    }

    /// The band hashes of an item.
    pub fn row(&self, item: usize) -> (row: Vec<u64>)
        requires
            self.wf(),
            item < self@.rows.len(),
        ensures
            row@ == self@.rows[item as int],
    {
        proof {
            let count = self.count as int;
            let bands = self.bands as int;
            let at = item as int;
            assert(count * (8 * bands) == 8 * (count * bands)) by (nonlinear_arith);
            assert(0 <= at * bands && at * bands + bands <= count * bands) by (nonlinear_arith)
                requires
                    0 <= at < count,
                    0 <= bands,
            ;
        }
        assert(self.hashes.len() == self.hashes@.len());
        snapshot::read_numbers(self.hashes, item * self.bands, self.bands)
    }
}

/// The directory and the member lists of memberships in order.
fn describe(records: &Vec<(u32, u64, u64)>) -> (described: (DirectoryBuilder, Vec<u8>))
    requires
        records@.len() < u32::MAX,
    ensures
        described.0.wf(),
        described.0@ == records@,
        described.1@ == buckets::all_members_bytes(membership::grouped(records@)),
{
    let mut builder = DirectoryBuilder::new();
    let mut members: Vec<u8> = Vec::new();
    let mut index: usize = 0;
    assert(records@.take(0) =~= Seq::empty());
    while index < records.len()
        invariant
            index <= records@.len() < u32::MAX,
            builder.wf(),
            builder@ == records@.take(index as int),
            members@ == buckets::all_members_bytes(membership::grouped(builder@)),
        decreases records@.len() - index,
    {
        let record = records[index];
        proof {
            merge::lemma_members_grow(builder@, record);
            membership::lemma_grouped_size(builder@);
            assert(records@.take(index + 1) =~= records@.take(index as int).push(record));
            let front = membership::grouped(builder@);
            if front.len() > 0 {
                assert(front.last() == front[front.len() - 1]);
                assert(front[front.len() - 1].members.len() <= builder@.len());
            }
        }
        let noted = builder.push(record);
        le::push_u64(&mut members, record.2);
        index = index + 1;
    }
    assert(records@.take(index as int) =~= records@);
    (builder, members)
}

/// Build a lazy index from sorted runs of at most `max_buffer_records` records.
///
/// The source must be a committed snapshot with sections for the keys and the
/// band hashes. The source, the runs and the output are all held in memory.
pub fn build_external(source: &[u8], options: BuildOptions) -> (result: Result<
    (Vec<u8>, BuildStats),
    BuildError,
>)
    ensures
        match built(source@, options) {
            Err(error) => result == Err::<(Vec<u8>, BuildStats), BuildError>(error),
            Ok(bytes) => result matches Ok((output, stats)) && {
                &&& output@ == bytes
                &&& stats == stats_of(
                    source_of(source@, options)->Ok_0,
                    options.max_buffer_records,
                    bytes.len(),
                )
            },
        },
{
    let opened = match BuildSource::open(source, options) {
        Ok(opened) => opened,
        Err(error) => {
            return Err(error);
        },
    };
    let ghost found = source_of(source@, options)->Ok_0;
    proof {
        law_source_is_complete(source@, options);
        lemma_source_decodes(source@, options);
    }
    let (keys, rows) = opened.read();
    proof {
        assert forall|i: int| 0 <= i < rows@.len() implies (#[trigger] rows@[i])@.len()
            <= u32::MAX by {
            assert(found.rows[i].len() == found.metadata.bands);
            assert(membership::row_views(rows@)[i] == rows@[i]@);
        }
    }
    let runs = merge::spill_runs(&keys, &rows, options.max_buffer_records);
    let merged = merge::merge_runs(&runs);
    let ghost items = membership::memberships(found.keys, found.rows);
    proof {
        membership::law_in_order(items);
        assert(membership::is_arrangement(merged@, items));
        order::lemma_same_multiset_same_set(merged@, items);
        convert::lemma_memberships_bounded(found, found.keys);
        convert::lemma_grouped_encodable(merged@);
        membership::lemma_grouped_size(merged@);
    }
    let (builder, members) = describe(&merged);
    let entries = builder.entries();
    let bucket_count: usize = entries.len();
    let output = match segments::pack_streamed(
        *opened.metadata(),
        vstd::slice::slice_to_vec(opened.keys_payload()),
        vstd::slice::slice_to_vec(opened.hashes_payload()),
        entries,
        &members,
        Ghost(membership::grouped(merged@)),
    ) {
        Ok(output) => output,
        Err(error) => {
            return Err(BuildError::Format(error));
        },
    };
    let stats = BuildStats::of_run(
        merged.len(),
        runs.len(),
        options.max_buffer_records,
        bucket_count,
        output.len() as u64,
    );
    Ok((output, stats))
}

/// A source that the builder accepts is what its file holds: the payloads of its two
/// sections have the checksums that their frames tell, and the keys and the rows of hashes
/// are the numbers in them, one row for each key.
pub proof fn law_read_sources_are_sound(source: Seq<u8>, options: BuildOptions) -> (sections: (SectionDescriptor, SectionDescriptor))
    requires
        source_of(source, options) is Ok,
    ensures
        layout::layout_of(source) is Ok,
        ({
            let layout = layout::layout_of(source)->Ok_0;
            let found = source_of(source, options)->Ok_0;
            let (keys, hashes) = sections;
            &&& layout.sections.contains(keys) && keys.kind == SectionKind::Keys
            &&& layout.sections.contains(hashes) && hashes.kind == SectionKind::BandHashes
            &&& found.metadata == layout.metadata
            &&& found.keys_payload == source.subrange(
                keys.payload_offset as int,
                keys.payload_offset + keys.payload_length,
            )
            &&& checksum::crc32(found.keys_payload) == keys.checksum
            &&& found.hashes_payload == source.subrange(
                hashes.payload_offset as int,
                hashes.payload_offset + hashes.payload_length,
            )
            &&& checksum::crc32(found.hashes_payload) == hashes.checksum
            &&& found.keys.len() == le::u64_at(found.keys_payload, 0)
            &&& found.rows.len() == found.keys.len()
            &&& forall|i: int|
                0 <= i < found.keys.len() ==> #[trigger] found.keys[i] == le::u64_at(
                    found.keys_payload,
                    8 + 8 * i,
                )
            &&& forall|i: int, band: int|
                0 <= i < found.rows.len() && 0 <= band < layout.metadata.bands
                    ==> #[trigger] found.rows[i][band] == le::u64_at(
                    found.hashes_payload,
                    8 + 8 * (i * layout.metadata.bands + band),
                )
        }),
{
    let layout = layout::layout_of(source)->Ok_0;
    let keys = snapshot::of_kind(layout.sections, SectionKind::Keys)[0];
    let hashes = snapshot::of_kind(layout.sections, SectionKind::BandHashes)[0];
    let found = source_of(source, options)->Ok_0;
    convert::lemma_of_kind(layout.sections, SectionKind::Keys, 0);
    convert::lemma_of_kind(layout.sections, SectionKind::BandHashes, 0);
    layout::law_read_payloads_are_sound(layout, source, keys);
    layout::law_read_payloads_are_sound(layout, source, hashes);
    law_source_is_complete(source, options);
    lemma_items(layout, source, keys, hashes);
    snapshot::law_decoded_keys(found.keys_payload);
    snapshot::law_decoded_rows(found.hashes_payload, layout.metadata.bands as usize);
    (keys, hashes)
}

/// The measurements of a build follow from the items and the buffer: one record for each
/// item and band, and never more buffered records than the buffer holds.
pub proof fn law_builds_are_measured(found: SnapshotView, limit: usize, output: nat)
    requires
        found.valid(),
        limit > 0,
    ensures
        ({
            let stats = stats_of(found, limit, output);
            let records = membership::memberships(found.keys, found.rows).len();
            &&& records <= u64::MAX ==> stats.records == records
            &&& stats.peak_buffered_records <= limit
            &&& stats.peak_buffered_records <= records
            &&& stats.peak_buffered_records == limit || stats.peak_buffered_records == records
            &&& output <= u64::MAX ==> stats.output_bytes == output
        }),
{
}

} // verus!
