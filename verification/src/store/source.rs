//! Writing the items of an index as a snapshot.
//!
//! A snapshot is a container with the keys and the band hashes of all items.
//! Bucket directories are built from it.

use vstd::prelude::*;

use crate::format::buckets;
use crate::format::container;
use crate::format::container::{
    FileView, IndexFile, Section, SectionKind, SectionView, MAX_SECTION_BYTES,
};
use crate::format::error::FormatError;
use crate::format::header::IndexMetadata;
use crate::format::layout;
use crate::format::layout::SectionDescriptor;
use crate::le;
use crate::store::convert;
use crate::store::convert::SnapshotView;
use crate::store::membership;
use crate::store::parity;
use crate::store::snapshot;
use crate::store::snapshot::LazyStoreError;

verus! {

/// All hashes of all items, one item after the other.
pub open spec fn flattened(rows: Seq<Seq<u64>>) -> Seq<u64>
    decreases rows.len(),
{
    if rows.len() == 0 {
        Seq::empty()
    } else {
        flattened(rows.drop_last()) + rows.last()
    }
}

/// The payload that announces `count` records and holds these numbers.
#[verifier::opaque]
pub open spec fn payload_of(count: nat, numbers: Seq<u64>) -> Seq<u8> {
    le::bytes(count, 8) + buckets::members_bytes(numbers)
}

proof fn lemma_payload(count: nat, numbers: Seq<u64>)
    requires
        count <= u64::MAX,
    ensures
        payload_of(count, numbers).len() == 8 + 8 * numbers.len(),
        le::u64_at(payload_of(count, numbers), 0) == count,
        forall|i: int|
            0 <= i < numbers.len() ==> #[trigger] snapshot::number_at(
                payload_of(count, numbers),
                i,
            ) == numbers[i],
{
    broadcast use le::lemma_bytes_len;

    reveal(payload_of);
    let payload = payload_of(count, numbers);
    let tail = buckets::members_bytes(numbers);
    buckets::lemma_members_bytes_len(numbers);
    le::lemma_pow256_values();
    le::lemma_value_of_bytes(count, 8);
    assert(payload.subrange(0, 8) =~= le::bytes(count, 8));
    assert forall|i: int| 0 <= i < numbers.len() implies #[trigger] snapshot::number_at(payload, i)
        == numbers[i] by {
        buckets::lemma_member_at(numbers, i);
        assert(payload.subrange(8 + 8 * i, 8 + 8 * i + 8) =~= tail.subrange(8 * i, 8 * i + 8));
    }
}

/// Decoding the encoded keys gives the keys back.
pub proof fn law_keys_round_trip(keys: Seq<u64>)
    requires
        8 + 8 * keys.len() <= usize::MAX,
    ensures
        snapshot::decoded_keys(payload_of(keys.len(), keys)) == Ok::<Seq<u64>, LazyStoreError>(
            keys,
        ),
{
    let payload = payload_of(keys.len(), keys);
    lemma_payload(keys.len(), keys);
    assert(snapshot::numbers(payload, 0, keys.len()) =~= keys);
}

proof fn lemma_flattened(rows: Seq<Seq<u64>>, bands: nat, row: int)
    requires
        forall|i: int| 0 <= i < rows.len() ==> (#[trigger] rows[i]).len() == bands,
        0 <= row < rows.len(),
    ensures
        flattened(rows).len() == rows.len() * bands,
        0 <= row * bands,
        row * bands + bands <= flattened(rows).len(),
        flattened(rows).subrange(row * bands, row * bands + bands) == rows[row],
    decreases rows.len(),
{
    let last = rows.len() - 1;
    let front = rows.drop_last();
    assert(rows[last].len() == bands);
    if front.len() > 0 {
        let inner = if row < last {
            row
        } else {
            0
        };
        lemma_flattened(front, bands, inner);
    }
    assert(last * bands + bands == rows.len() * bands) by (nonlinear_arith)
        requires
            last == rows.len() - 1,
    ;
    assert(flattened(front).len() == last * bands) by {
        if front.len() == 0 {
            assert(last * bands == 0) by (nonlinear_arith)
                requires
                    last == 0,
            ;
        }
    }
    assert(0 <= row * bands) by (nonlinear_arith)
        requires
            0 <= row,
            0 <= bands,
    ;
    if row < last {
        assert(flattened(rows).subrange(row * bands, row * bands + bands) =~= flattened(
            front,
        ).subrange(row * bands, row * bands + bands));
    } else {
        assert(flattened(rows).subrange(row * bands, row * bands + bands) =~= rows[row]);
    }
}

/// Decoding the encoded band hashes gives the band hashes back.
pub proof fn law_band_hashes_round_trip(rows: Seq<Seq<u64>>, bands: usize)
    requires
        forall|i: int| 0 <= i < rows.len() ==> (#[trigger] rows[i]).len() == bands,
        8 * bands <= usize::MAX,
        8 + rows.len() * (8 * bands) <= usize::MAX,
        rows.len() <= usize::MAX,
    ensures
        snapshot::decoded_rows(payload_of(rows.len(), flattened(rows)), bands) == Ok::<
            Seq<Seq<u64>>,
            LazyStoreError,
        >(rows),
{
    let flat = flattened(rows);
    let payload = payload_of(rows.len(), flat);
    lemma_payload(rows.len(), flat);
    let count = rows.len();
    if count == 0 {
        assert(count * (8 * bands) == 0) by (nonlinear_arith)
            requires
                count == 0,
        ;
    } else {
        lemma_flattened(rows, bands as nat, 0);
        assert(8 * (count * bands) == count * (8 * bands)) by (nonlinear_arith);
    }
    assert(payload.len() == 8 + count * (8 * bands));
    assert(snapshot::record_count(payload) == Ok::<usize, LazyStoreError>(count as usize));
    let decoded = Seq::new(
        count as usize as nat,
        |i: int| snapshot::numbers(payload, i * bands, bands as nat),
    );
    assert forall|i: int| 0 <= i < count implies decoded[i] == #[trigger] rows[i] by {
        lemma_flattened(rows, bands as nat, i);
        let found = snapshot::numbers(payload, i * bands, bands as nat);
        assert forall|j: int| 0 <= j < bands implies found[j] == rows[i][j] by {
            assert(snapshot::number_at(payload, i * bands + j) == flat[i * bands + j]);
            assert(flat.subrange(i * bands, i * bands + bands)[j] == flat[i * bands + j]);
        }
        assert(found =~= rows[i]);
    }
    assert(decoded =~= rows);
}

/// The keys section of a snapshot.
pub fn encode_keys(keys: &[u64]) -> (payload: Vec<u8>)
    ensures
        payload@ == payload_of(keys@.len(), keys@),
{
    proof {
        reveal(payload_of);
    }
    let mut payload: Vec<u8> = Vec::new();
    le::push_u64(&mut payload, keys.len() as u64);
    buckets::push_members(&mut payload, keys);
    assert(payload@ =~= payload_of(keys@.len(), keys@));
    payload
}

proof fn lemma_members_append(left: Seq<u64>, right: Seq<u64>)
    ensures
        buckets::members_bytes(left + right) == buckets::members_bytes(left)
            + buckets::members_bytes(right),
    decreases right.len(),
{
    if right.len() == 0 {
        assert(left + right =~= left);
        assert(buckets::members_bytes(left) + Seq::empty() =~= buckets::members_bytes(left));
    } else {
        lemma_members_append(left, right.drop_last());
        assert((left + right).drop_last() =~= left + right.drop_last());
        assert(buckets::members_bytes(left + right) =~= buckets::members_bytes(left)
            + buckets::members_bytes(right));
    }
}

/// The band-hash section of a snapshot.
pub fn encode_band_hashes(rows: &Vec<Vec<u64>>) -> (payload: Vec<u8>)
    ensures
        payload@ == payload_of(rows@.len(), flattened(membership::row_views(rows@))),
{
    let ghost views = membership::row_views(rows@);
    proof {
        reveal(payload_of);
    }
    let mut payload: Vec<u8> = Vec::new();
    le::push_u64(&mut payload, rows.len() as u64);
    let mut index: usize = 0;
    assert(views.take(0) =~= Seq::empty());
    assert(payload@ =~= payload_of(rows@.len(), flattened(views.take(0))));
    while index < rows.len()
        invariant
            index <= rows@.len(),
            views == membership::row_views(rows@),
            payload@ == payload_of(rows@.len(), flattened(views.take(index as int))),
        decreases rows@.len() - index,
    {
        buckets::push_members(&mut payload, rows[index].as_slice());
        proof {
            reveal(payload_of);
            let before = views.take(index as int);
            let after = views.take(index + 1);
            assert(after.drop_last() =~= before);
            lemma_members_append(flattened(before), rows@[index as int]@);
            assert(payload@ =~= payload_of(rows@.len(), flattened(after)));
        }
        index = index + 1;
    }
    assert(views.take(rows@.len() as int) =~= views);
    payload
}

/// The container of a snapshot.
#[verifier::opaque]
pub open spec fn snapshot_file(
    metadata: IndexMetadata,
    keys: Seq<u64>,
    rows: Seq<Seq<u64>>,
) -> FileView {
    FileView {
        metadata: metadata@,
        sections: seq![
            SectionView {
                kind: SectionKind::Keys,
                required: true,
                payload: payload_of(keys.len(), keys),
            },
            SectionView {
                kind: SectionKind::BandHashes,
                required: true,
                payload: payload_of(rows.len(), flattened(rows)),
            },
        ],
    }
}

/// Encode the items of an index as a snapshot.
pub fn encode_snapshot(metadata: IndexMetadata, keys: &[u64], rows: &Vec<Vec<u64>>) -> (result:
    Result<Vec<u8>, FormatError>)
    requires
        metadata.wf(),
    ensures
        ({
            let file = snapshot_file(metadata, keys@, membership::row_views(rows@));
            let first = file.sections[0].payload.len();
            let second = file.sections[1].payload.len();
            if first > MAX_SECTION_BYTES {
                result == Err::<Vec<u8>, FormatError>(
                    FormatError::SectionTooLarge { length: first as u64 },
                )
            } else if second > MAX_SECTION_BYTES {
                result == Err::<Vec<u8>, FormatError>(
                    FormatError::SectionTooLarge { length: second as u64 },
                )
            } else if container::file_bytes(file).len() > usize::MAX {
                result == Err::<Vec<u8>, FormatError>(FormatError::LengthOverflow)
            } else {
                result matches Ok(bytes) && bytes@ == container::file_bytes(file)
            }
        }),
{
    let ghost file = snapshot_file(metadata, keys@, membership::row_views(rows@));
    proof {
        reveal(snapshot_file);
    }
    let first = match Section::new(SectionKind::Keys, true, encode_keys(keys)) {
        Ok(section) => section,
        Err(error) => {
            return Err(error);
        },
    };
    let second = match Section::new(SectionKind::BandHashes, true, encode_band_hashes(rows)) {
        Ok(section) => section,
        Err(error) => {
            return Err(error);
        },
    };
    let mut sections: Vec<Section> = Vec::new();
    sections.push(first);
    sections.push(second);
    match IndexFile::new(metadata, sections) {
        Ok(encoded) => {
            assert(encoded@.sections =~= file.sections);
            encoded.encode()
        },
        Err(error) => Err(error),
    }
}

/// The section kinds of two sections lead to each of them.
proof fn lemma_two_sections(sections: Seq<SectionDescriptor>)
    requires
        sections.len() == 2,
        sections[0].kind == SectionKind::Keys,
        sections[1].kind == SectionKind::BandHashes,
        sections[0].required,
        sections[1].required,
    ensures
        snapshot::only_section(sections, SectionKind::Keys) == Ok::<
            SectionDescriptor,
            LazyStoreError,
        >(sections[0]),
        snapshot::only_section(sections, SectionKind::BandHashes) == Ok::<
            SectionDescriptor,
            LazyStoreError,
        >(sections[1]),
{
    reveal_with_fuel(snapshot::of_kind, 3);
    let front = sections.drop_last();
    assert(front.drop_last() =~= Seq::empty());
    assert(snapshot::of_kind(sections, SectionKind::Keys) =~= seq![sections[0]]);
    assert(snapshot::of_kind(sections, SectionKind::BandHashes) =~= seq![sections[1]]);
}

proof fn lemma_items_read_back(bands: usize, keys: Seq<u64>, rows: Seq<Seq<u64>>)
    requires
        keys.len() == rows.len(),
        forall|i: int| 0 <= i < rows.len() ==> (#[trigger] rows[i]).len() == bands,
        0 < bands,
        8 * bands <= usize::MAX,
        payload_of(keys.len(), keys).len() <= MAX_SECTION_BYTES,
        payload_of(rows.len(), flattened(rows)).len() <= MAX_SECTION_BYTES,
    ensures
        snapshot::decoded_keys(payload_of(keys.len(), keys)) == Ok::<Seq<u64>, LazyStoreError>(
            keys,
        ),
        snapshot::decoded_rows(payload_of(rows.len(), flattened(rows)), bands) == Ok::<
            Seq<Seq<u64>>,
            LazyStoreError,
        >(rows),
{
    let count = rows.len();
    reveal(payload_of);
    buckets::lemma_members_bytes_len(keys);
    buckets::lemma_members_bytes_len(flattened(rows));
    le::lemma_bytes_len(keys.len(), 8);
    le::lemma_bytes_len(rows.len(), 8);
    if count > 0 {
        lemma_flattened(rows, bands as nat, 0);
        assert(count * (8 * bands) == 8 * (count * bands)) by (nonlinear_arith);
        assert(8 * bands <= count * (8 * bands)) by (nonlinear_arith)
            requires
                count >= 1,
                bands >= 1,
        ;
    } else {
        assert(count * (8 * bands) == 0) by (nonlinear_arith)
            requires
                count == 0,
        ;
    }
    law_keys_round_trip(keys);
    law_band_hashes_round_trip(rows, bands);
}

proof fn lemma_read(file: FileView, bytes: Seq<u8>, items: SnapshotView)
    requires
        file.valid(),
        bytes == container::file_bytes(file),
        bytes.len() <= usize::MAX,
        file.sections.len() == 2,
        file.metadata == items.metadata,
        file.sections[0] == (SectionView {
            kind: SectionKind::Keys,
            required: true,
            payload: items.keys_payload,
        }),
        file.sections[1] == (SectionView {
            kind: SectionKind::BandHashes,
            required: true,
            payload: items.hashes_payload,
        }),
        snapshot::metadata_error(items.metadata) is None,
        convert::items_of(items.metadata, items.keys_payload, items.hashes_payload) == Ok::<
            SnapshotView,
            LazyStoreError,
        >(items),
    ensures
        convert::snapshot_of(bytes) == Ok::<SnapshotView, LazyStoreError>(items),
{
    parity::lemma_encoded_is_located(file, bytes);
    let found = layout::layout_of(bytes)->Ok_0;
    assert(layout::locates(bytes, found.sections[0], file.sections[0]));
    assert(layout::locates(bytes, found.sections[1], file.sections[1]));
    lemma_two_sections(found.sections);
    layout::law_sections_are_read_back(bytes, found, 0);
    layout::law_sections_are_read_back(bytes, found, 1);
}

proof fn lemma_snapshot_file(metadata: IndexMetadata, keys: Seq<u64>, rows: Seq<Seq<u64>>)
    requires
        metadata.wf(),
        payload_of(keys.len(), keys).len() <= MAX_SECTION_BYTES,
        payload_of(rows.len(), flattened(rows)).len() <= MAX_SECTION_BYTES,
    ensures
        ({
            let file = snapshot_file(metadata, keys, rows);
            &&& file.valid()
            &&& file.metadata == metadata@
            &&& file.sections.len() == 2
            &&& file.sections[0] == (SectionView {
                kind: SectionKind::Keys,
                required: true,
                payload: payload_of(keys.len(), keys),
            })
            &&& file.sections[1] == (SectionView {
                kind: SectionKind::BandHashes,
                required: true,
                payload: payload_of(rows.len(), flattened(rows)),
            })
        }),
{
    reveal(snapshot_file);
    let sections = snapshot_file(metadata, keys, rows).sections;
    assert forall|i: int| 0 <= i < sections.len() implies (#[trigger] sections[i]).payload.len()
        <= MAX_SECTION_BYTES by {
        assert(i == 0 || i == 1);
    }
}

/// The items of a snapshot as they are read.
pub open spec fn written(metadata: IndexMetadata, keys: Seq<u64>, rows: Seq<Seq<u64>>) -> SnapshotView {
    SnapshotView {
        metadata: metadata@,
        keys_payload: payload_of(keys.len(), keys),
        hashes_payload: payload_of(rows.len(), flattened(rows)),
        keys,
        rows,
    }
}

proof fn lemma_items_of(items: SnapshotView, bands: usize)
    requires
        bands == items.metadata.bands as usize,
        items.keys.len() == items.rows.len(),
        snapshot::decoded_keys(items.keys_payload) == Ok::<Seq<u64>, LazyStoreError>(items.keys),
        snapshot::decoded_rows(items.hashes_payload, bands) == Ok::<
            Seq<Seq<u64>>,
            LazyStoreError,
        >(items.rows),
    ensures
        convert::items_of(items.metadata, items.keys_payload, items.hashes_payload) == Ok::<
            SnapshotView,
            LazyStoreError,
        >(items),
{
}

/// Reading a written snapshot gives its items back.
pub proof fn law_snapshot_round_trip(
    metadata: IndexMetadata,
    keys: Seq<u64>,
    rows: Seq<Seq<u64>>,
)
    requires
        metadata.wf(),
        snapshot::metadata_error(metadata@) is None,
        keys.len() == rows.len(),
        8 * metadata@.bands <= usize::MAX,
        forall|i: int| 0 <= i < rows.len() ==> (#[trigger] rows[i]).len() == metadata@.bands,
        payload_of(keys.len(), keys).len() <= MAX_SECTION_BYTES,
        payload_of(rows.len(), flattened(rows)).len() <= MAX_SECTION_BYTES,
        container::file_bytes(snapshot_file(metadata, keys, rows)).len() <= usize::MAX,
    ensures
        convert::snapshot_of(container::file_bytes(snapshot_file(metadata, keys, rows))) == Ok::<
            SnapshotView,
            LazyStoreError,
        >(written(metadata, keys, rows)),
{
    let file = snapshot_file(metadata, keys, rows);
    let items = written(metadata, keys, rows);
    let bands = metadata@.bands as usize;
    lemma_snapshot_file(metadata, keys, rows);
    lemma_items_read_back(bands, keys, rows);
    lemma_items_of(items, bands);
    lemma_read(file, container::file_bytes(file), items);
}

} // verus!
