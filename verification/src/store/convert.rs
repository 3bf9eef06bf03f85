//! Converting a committed snapshot to the lazy format, with all buckets in
//! memory.

use vstd::prelude::*;

use crate::format::buckets;
use crate::format::checksum;
use crate::format::container::{SectionKind, MAX_SECTION_BYTES};
use crate::format::header::Metadata;
use crate::format::layout;
use crate::format::layout::{FileLayout, LayoutError, LayoutView, SectionDescriptor};
use crate::le;
use crate::store::membership;
use crate::store::segments;
use crate::store::snapshot;
use crate::store::snapshot::LazyStoreError;

verus! {

/// What a snapshot holds.
#[verifier::ext_equal]
pub struct SnapshotView {
    /// The metadata.
    pub metadata: Metadata,
    /// The payload of the section with the keys.
    pub keys_payload: Seq<u8>,
    /// The payload of the section with the band hashes.
    pub hashes_payload: Seq<u8>,
    /// The keys of the items.
    pub keys: Seq<u64>,
    /// The band hashes of each item.
    pub rows: Seq<Seq<u64>>,
}

impl SnapshotView {
    /// There is one row for each key and one hash for each band, and the
    /// payloads fit in sections.
    pub open spec fn valid(self) -> bool {
        &&& self.metadata.valid()
        &&& self.keys.len() == self.rows.len()
        &&& self.keys_payload.len() <= MAX_SECTION_BYTES
        &&& self.hashes_payload.len() == 8 + 8 * (self.rows.len() * self.metadata.bands)
        &&& self.hashes_payload.len() <= MAX_SECTION_BYTES
        &&& forall|i: int|
            0 <= i < self.rows.len() ==> (#[trigger] self.rows[i]).len() == self.metadata.bands
    }
}

/// The items in these payloads, or the first error in them.
pub open spec fn items_of(
    metadata: Metadata,
    keys_payload: Seq<u8>,
    hashes_payload: Seq<u8>,
) -> Result<SnapshotView, LazyStoreError> {
    match snapshot::decoded_keys(keys_payload) {
        Err(error) => Err(error),
        Ok(keys) => match snapshot::decoded_rows(hashes_payload, metadata.bands as usize) {
            Err(error) => Err(error),
            Ok(rows) => if keys.len() != rows.len() {
                Err(
                    LazyStoreError::InvalidSnapshot {
                        reason: "phase-1 key and band-hash counts differ",
                    },
                )
            } else {
                Ok(SnapshotView { metadata, keys_payload, hashes_payload, keys, rows })
            },
        },
    }
}

/// The snapshot in a file with this layout, or the first error in it.
pub open spec fn snapshot_in(source: Seq<u8>, layout: LayoutView) -> Result<
    SnapshotView,
    LazyStoreError,
> {
    if snapshot::metadata_error(layout.metadata) is Some {
        Err(snapshot::metadata_error(layout.metadata)->0)
    } else {
        match snapshot::only_section(layout.sections, SectionKind::Keys) {
            Err(error) => Err(error),
            Ok(keys) => match snapshot::only_section(layout.sections, SectionKind::BandHashes) {
                Err(error) => Err(error),
                Ok(hashes) => match layout.payload(source, keys) {
                    Err(error) => Err(LazyStoreError::Layout(error)),
                    Ok(keys_payload) => match layout.payload(source, hashes) {
                        Err(error) => Err(LazyStoreError::Layout(error)),
                        Ok(hashes_payload) => items_of(
                            layout.metadata,
                            keys_payload,
                            hashes_payload,
                        ),
                    },
                },
            },
        }
    }
}

/// The snapshot in a file, or the first error in it.
pub open spec fn snapshot_of(source: Seq<u8>) -> Result<SnapshotView, LazyStoreError> {
    match layout::layout_of(source) {
        Err(error) => Err(LazyStoreError::Layout(LayoutError::Format(error))),
        Ok(layout) => snapshot_in(source, layout),
    }
}

/// The lazy file that a snapshot is converted to, or the error of the
/// conversion.
pub open spec fn converted(source: Seq<u8>) -> Result<Seq<u8>, LazyStoreError> {
    match snapshot_of(source) {
        Err(error) => Err(error),
        Ok(found) => match segments::packed(
            found.metadata,
            found.keys_payload,
            found.hashes_payload,
            membership::buckets_by_position(found.keys, found.rows),
        ) {
            Err(error) => Err(LazyStoreError::Format(error)),
            Ok(bytes) => Ok(bytes),
        },
    }
}

pub(crate) proof fn lemma_of_kind(sections: Seq<layout::SectionDescriptor>, kind: SectionKind, index: int)
    requires
        0 <= index < snapshot::of_kind(sections, kind).len(),
    ensures
        sections.contains(snapshot::of_kind(sections, kind)[index]),
        snapshot::of_kind(sections, kind)[index].kind == kind,
    decreases sections.len(),
{
    let front = snapshot::of_kind(sections.drop_last(), kind);
    let found = snapshot::of_kind(sections, kind)[index];
    if index < front.len() {
        lemma_of_kind(sections.drop_last(), kind, index);
        let at = choose|at: int|
            0 <= at < sections.drop_last().len() && sections.drop_last()[at] == found;
        assert(sections[at] == found);
    } else {
        assert(sections[sections.len() - 1] == found);
    }
}

proof fn lemma_sections_bounded(file: Seq<u8>, count: nat, at: int)
    requires
        layout::descriptors_from(file, count, at) is Ok,
    ensures
        forall|i: int|
            0 <= i < layout::descriptors_from(file, count, at)->Ok_0.len() ==> (
            #[trigger] layout::descriptors_from(file, count, at)->Ok_0[i]).payload_length
                <= MAX_SECTION_BYTES,
    decreases count,
{
    if count > 0 {
        let frame = crate::format::container::frame_at(file, at);
        lemma_sections_bounded(file, (count - 1) as nat, frame.end(at));
        let all = layout::descriptors_from(file, count, at)->Ok_0;
        let rest = layout::descriptors_from(file, (count - 1) as nat, frame.end(at))->Ok_0;
        let own = layout::described(frame, at);
        assert forall|i: int| 0 <= i < all.len() implies (#[trigger] all[i]).payload_length
            <= MAX_SECTION_BYTES by {
            if i >= own.len() {
                assert(all[i] == rest[i - own.len()]);
            }
        }
    }
}

/// A section of a file stays within the limit of the format.
pub(crate) proof fn lemma_payload_bounded(
    file: Seq<u8>,
    layout: LayoutView,
    kind: SectionKind,
)
    requires
        layout::layout_of(file) == Ok::<LayoutView, crate::format::error::FormatError>(layout),
    ensures
        forall|i: int|
            0 <= i < snapshot::of_kind(layout.sections, kind).len() ==> (
            #[trigger] snapshot::of_kind(layout.sections, kind)[i]).payload_length
                <= MAX_SECTION_BYTES,
        layout.metadata.valid(),
{
    let count = crate::format::header::features_first_header(file)->Ok_0.sections as nat;
    lemma_sections_bounded(file, count, crate::format::header::HEADER_SIZE as int);
    assert forall|i: int| 0 <= i < snapshot::of_kind(layout.sections, kind).len() implies (
    #[trigger] snapshot::of_kind(layout.sections, kind)[i]).payload_length
        <= MAX_SECTION_BYTES by {
        lemma_of_kind(layout.sections, kind, i);
    }
}

/// Items that were read from payloads are complete.
pub(crate) proof fn lemma_items_valid(
    metadata: Metadata,
    keys_payload: Seq<u8>,
    hashes_payload: Seq<u8>,
)
    requires
        metadata.valid(),
        keys_payload.len() <= MAX_SECTION_BYTES,
        hashes_payload.len() <= MAX_SECTION_BYTES,
        items_of(metadata, keys_payload, hashes_payload) is Ok,
    ensures
        items_of(metadata, keys_payload, hashes_payload)->Ok_0.valid(),
{
    let found = items_of(metadata, keys_payload, hashes_payload)->Ok_0;
    let count = found.rows.len() as int;
    let bands = metadata.bands as int;
    assert(count * (8 * bands) == 8 * (count * bands)) by (nonlinear_arith);
}

/// A snapshot that was read is complete.
pub proof fn law_snapshot_is_complete(source: Seq<u8>)
    requires
        snapshot_of(source) is Ok,
    ensures
        snapshot_of(source)->Ok_0.valid(),
{
    let layout = layout::layout_of(source)->Ok_0;
    let keys = snapshot::only_section(layout.sections, SectionKind::Keys)->Ok_0;
    let hashes = snapshot::only_section(layout.sections, SectionKind::BandHashes)->Ok_0;
    lemma_payload_bounded(source, layout, SectionKind::Keys);
    lemma_payload_bounded(source, layout, SectionKind::BandHashes);
    assert(keys == snapshot::of_kind(layout.sections, SectionKind::Keys)[0]);
    assert(hashes == snapshot::of_kind(layout.sections, SectionKind::BandHashes)[0]);
    lemma_items_valid(
        layout.metadata,
        layout.payload(source, keys)->Ok_0,
        layout.payload(source, hashes)->Ok_0,
    );
}

/// The number of memberships of a complete snapshot fits its section.
pub(crate) proof fn lemma_memberships_bounded(found: SnapshotView, keys: Seq<u64>)
    requires
        found.valid(),
    ensures
        8 * membership::memberships(keys, found.rows).len() < MAX_SECTION_BYTES,
{
    membership::lemma_memberships_len(keys, found.rows, found.metadata.bands as nat);
}

/// Buckets of memberships that fit a section can be encoded.
pub(crate) proof fn lemma_grouped_encodable(records: Seq<(u32, u64, u64)>)
    requires
        membership::arranged(records),
        8 * records.len() < MAX_SECTION_BYTES,
    ensures
        segments::encodable(membership::grouped(records)),
{
    membership::law_grouping_keeps_memberships(records);
    membership::lemma_grouped_size(records);
    let all = membership::grouped(records);
    assert forall|i: int| 0 <= i < all.len() implies (#[trigger] all[i]).members.len()
        <= u32::MAX by {
        assert(membership::grouped(records)[i].members.len() <= records.len());
    }
}

proof fn lemma_named_size(all: Seq<buckets::Bucket>, keys: Seq<u64>)
    ensures
        buckets::all_members_bytes(membership::named_buckets(all, keys)).len()
            == buckets::all_members_bytes(all).len(),
    decreases all.len(),
{
    let named = membership::named_buckets(all, keys);
    if all.len() > 0 {
        lemma_named_size(all.drop_last(), keys);
        assert(named.drop_last() =~= membership::named_buckets(all.drop_last(), keys));
        buckets::lemma_members_bytes_len(all.last().members);
        buckets::lemma_members_bytes_len(named.last().members);
    }
}

pub(crate) proof fn lemma_buckets_encodable(found: SnapshotView)
    requires
        found.valid(),
    ensures
        segments::encodable(membership::buckets_by_position(found.keys, found.rows)),
{
    let items = membership::memberships(membership::positions(found.keys.len()), found.rows);
    let records = membership::in_order(items);
    lemma_memberships_bounded(found, membership::positions(found.keys.len()));
    membership::law_in_order(items);
    crate::order::lemma_same_multiset_same_set(records, items);
    lemma_grouped_encodable(records);
    let all = membership::grouped(records);
    let named = membership::named_buckets(all, found.keys);
    lemma_named_size(all, found.keys);
    assert(buckets::bucket_keys(named) =~= buckets::bucket_keys(all));
    assert forall|i: int| 0 <= i < named.len() implies (#[trigger] named[i]).members.len()
        <= u32::MAX by {
        assert(all[i].members.len() <= u32::MAX);
    }
}

/// Convert one committed snapshot to the lazy format.
///
/// The buckets are built in memory. The bounded builder gives the same file for
/// a snapshot whose keys ascend, with a buffer of bounded size.
pub fn build_from_snapshot(source: &[u8]) -> (result: Result<Vec<u8>, LazyStoreError>)
    ensures
        match converted(source@) {
            Err(error) => result == Err::<Vec<u8>, LazyStoreError>(error),
            Ok(bytes) => result matches Ok(found) && found@ == bytes,
        },
{
    let layout = match FileLayout::read_from(source) {
        Ok(layout) => layout,
        Err(error) => {
            return Err(LazyStoreError::Layout(LayoutError::Format(error)));
        },
    };
    match snapshot::validate_metadata(layout.metadata()) {
        Ok(()) => {},
        Err(error) => {
            return Err(error);
        },
    }
    let keys_section = match snapshot::required_unique_section(&layout, SectionKind::Keys) {
        Ok(section) => section,
        Err(error) => {
            return Err(error);
        },
    };
    let hashes_section = match snapshot::required_unique_section(
        &layout,
        SectionKind::BandHashes,
    ) {
        Ok(section) => section,
        Err(error) => {
            return Err(error);
        },
    };
    let keys_payload = match layout.read_section(source, keys_section) {
        Ok(payload) => payload,
        Err(error) => {
            return Err(LazyStoreError::Layout(error));
        },
    };
    let hashes_payload = match layout.read_section(source, hashes_section) {
        Ok(payload) => payload,
        Err(error) => {
            return Err(LazyStoreError::Layout(error));
        },
    };
    let keys = match snapshot::decode_phase1_keys(keys_payload.as_slice()) {
        Ok(keys) => keys,
        Err(error) => {
            return Err(error);
        },
    };
    let bands: usize = layout.metadata().bands() as usize;
    let rows = match snapshot::decode_phase1_band_hashes(hashes_payload.as_slice(), bands) {
        Ok(rows) => rows,
        Err(error) => {
            return Err(error);
        },
    };
    if keys.len() != rows.len() {
        return Err(
            LazyStoreError::InvalidSnapshot { reason: "phase-1 key and band-hash counts differ" },
        );
    }
    proof {
        let found = snapshot_of(source@)->Ok_0;
        law_snapshot_is_complete(source@);
        lemma_buckets_encodable(found);
        assert(found.rows == membership::row_views(rows@));
        assert forall|i: int| 0 <= i < rows@.len() implies (#[trigger] rows@[i])@.len()
            <= u32::MAX by {
            assert(found.rows[i].len() == found.metadata.bands);
        }
    }
    let all = membership::bucket_items(&keys, &rows);
    match segments::pack(*layout.metadata(), keys_payload, hashes_payload, &all) {
        Ok(bytes) => Ok(bytes),
        Err(error) => Err(LazyStoreError::Format(error)),
    }
}

/// A snapshot that was read is what its file holds: the payloads of its two sections have
/// the checksums that their frames tell, and the keys and the rows of hashes are the numbers
/// in them, one row for each key.
pub proof fn law_read_snapshots_are_sound(source: Seq<u8>) -> (sections: (SectionDescriptor, SectionDescriptor))
    requires
        snapshot_of(source) is Ok,
    ensures
        layout::layout_of(source) is Ok,
        ({
            let layout = layout::layout_of(source)->Ok_0;
            let found = snapshot_of(source)->Ok_0;
            let (keys, hashes) = sections;
            &&& layout.sections.contains(keys) && keys.kind == SectionKind::Keys
            &&& layout.sections.contains(hashes) && hashes.kind == SectionKind::BandHashes
            &&& found.metadata == layout.metadata
            &&& found.keys_payload == source.subrange(
                keys.payload_offset as int,
                keys.payload_offset + keys.payload_length,
            )
            &&& checksum::crc32(found.keys_payload) == keys.checksum
            &&& found.hashes_payload == source.subrange(
                hashes.payload_offset as int,
                hashes.payload_offset + hashes.payload_length,
            )
            &&& checksum::crc32(found.hashes_payload) == hashes.checksum
            &&& found.keys.len() == le::u64_at(found.keys_payload, 0)
            &&& found.rows.len() == found.keys.len()
            &&& forall|i: int|
                0 <= i < found.keys.len() ==> #[trigger] found.keys[i] == le::u64_at(
                    found.keys_payload,
                    8 + 8 * i,
                )
            &&& forall|i: int, band: int|
                0 <= i < found.rows.len() && 0 <= band < layout.metadata.bands
                    ==> #[trigger] found.rows[i][band] == le::u64_at(
                    found.hashes_payload,
                    8 + 8 * (i * layout.metadata.bands + band),
                )
        }),
{
    let layout = layout::layout_of(source)->Ok_0;
    let keys = snapshot::only_section(layout.sections, SectionKind::Keys)->Ok_0;
    let hashes = snapshot::only_section(layout.sections, SectionKind::BandHashes)->Ok_0;
    let found = snapshot_of(source)->Ok_0;
    lemma_of_kind(layout.sections, SectionKind::Keys, 0);
    lemma_of_kind(layout.sections, SectionKind::BandHashes, 0);
    assert(keys == snapshot::of_kind(layout.sections, SectionKind::Keys)[0]);
    assert(hashes == snapshot::of_kind(layout.sections, SectionKind::BandHashes)[0]);
    layout::law_read_payloads_are_sound(layout, source, keys);
    layout::law_read_payloads_are_sound(layout, source, hashes);
    law_snapshot_is_complete(source);
    snapshot::law_decoded_keys(found.keys_payload);
    snapshot::law_decoded_rows(found.hashes_payload, layout.metadata.bands as usize);
    (keys, hashes)
}

} // verus!
