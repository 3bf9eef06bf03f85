//! What a lazy file answers is what its items answer.

use vstd::prelude::*;

use crate::format::buckets;
use crate::format::buckets::{Bucket, BucketError, BucketKey, BucketLocation};
use crate::format::container;
use crate::format::container::{SectionKind, MAX_SECTION_BYTES};
use crate::format::error::FormatError;
use crate::format::header::Metadata;
use crate::format::layout;
use crate::format::layout::{LayoutView, SectionDescriptor};
use crate::index::lsh::LshState;
use crate::index::params;
use crate::index::params::LshParams;
use crate::order;
use crate::sketch::minhash32::Sketch32;
use crate::store::bounded;
use crate::store::bounded::BuildOptions;
use crate::store::convert;
use crate::store::convert::SnapshotView;
use crate::store::lazy;
use crate::store::lazy::LazyState;
use crate::store::membership;
use crate::store::segments;
use crate::store::snapshot;
use crate::store::snapshot::LazyStoreError;

verus! {

/// The buckets of all segments, one segment after the other.
pub open spec fn joined(list: Seq<Seq<Bucket>>) -> Seq<Bucket>
    decreases list.len(),
{
    if list.len() == 0 {
        Seq::empty()
    } else {
        joined(list.drop_last()) + list.last()
    }
}

/// Cutting buckets into segments loses none and keeps their order, and a
/// segment of more than one bucket stays within the target size.
pub proof fn law_segments_keep_the_buckets(all: Seq<Bucket>)
    ensures
        joined(segments::segments(all)) == all,
        forall|i: int|
            0 <= i < segments::segments(all).len() && (#[trigger] segments::segments(
                all,
            )[i]).len() > 1 ==> buckets::segment_size(segments::segments(all)[i])
                <= buckets::BUCKET_SEGMENT_TARGET_BYTES,
{
    lemma_cut(all);
    if all.len() == 0 {
        let list = segments::segments(all);
        assert(list.drop_last() =~= Seq::empty());
        assert(joined(list.drop_last()) =~= Seq::empty());
        assert(joined(list) =~= all);
    }
}

proof fn lemma_cut(all: Seq<Bucket>)
    ensures
        joined(segments::cut(all)) == all,
        forall|i: int|
            0 <= i < segments::cut(all).len() && (#[trigger] segments::cut(all)[i]).len() > 1
                ==> buckets::segment_size(segments::cut(all)[i])
                <= buckets::BUCKET_SEGMENT_TARGET_BYTES,
    decreases all.len(),
{
    let list = segments::cut(all);
    if all.len() == 0 {
        assert(joined(list) =~= all);
    } else {
        let front = segments::cut(all.drop_last());
        let bucket = all.last();
        lemma_cut(all.drop_last());
        if front.len() > 0 && buckets::segment_size(front.last().push(bucket))
            <= buckets::BUCKET_SEGMENT_TARGET_BYTES {
            assert(list.drop_last() =~= front.drop_last());
            assert(list.last() == front.last().push(bucket));
            assert(joined(front) == joined(front.drop_last()) + front.last());
            assert(joined(front.drop_last()) + front.last().push(bucket) =~= joined(front).push(
                bucket,
            ));
            assert(joined(list) =~= all);
        } else {
            assert(list.drop_last() =~= front);
            assert(joined(list) =~= all);
        }
        assert forall|i: int|
            0 <= i < list.len() && (#[trigger] list[i]).len() > 1 implies buckets::segment_size(
            list[i],
        ) <= buckets::BUCKET_SEGMENT_TARGET_BYTES by {
            if i < list.len() - 1 {
                assert(list[i] == front[i]);
            }
        }
    }
}

/// Where each segment begins among the buckets.
proof fn lemma_joined_part(list: Seq<Seq<Bucket>>, index: int)
    requires
        0 <= index < list.len(),
    ensures
        ({
            let from = joined(list.take(index)).len() as int;
            &&& from + list[index].len() <= joined(list).len()
            &&& joined(list).subrange(from, from + list[index].len()) == list[index]
            &&& joined(list.take(index + 1)) == joined(list.take(index)) + list[index]
        }),
    decreases list.len(),
{
    let from = joined(list.take(index)).len() as int;
    let last = list.len() - 1;
    assert(list.take(index + 1).drop_last() =~= list.take(index));
    if index < last {
        let front = list.drop_last();
        lemma_joined_part(front, index);
        assert(front.take(index) =~= list.take(index));
        assert(joined(list).subrange(from, from + list[index].len()) =~= joined(front).subrange(
            from,
            from + list[index].len(),
        ));
    } else {
        assert(list.take(index) =~= list.drop_last());
        assert(joined(list).subrange(from, from + list[index].len()) =~= list[index]);
    }
}

proof fn lemma_not_oversized(list: Seq<Seq<Bucket>>, index: int)
    requires
        segments::oversized(list) is None,
        0 <= index < list.len(),
    ensures
        buckets::segment_size(list[index]) <= MAX_SECTION_BYTES,
    decreases list.len(),
{
    if index < list.len() - 1 {
        lemma_not_oversized(list.drop_last(), index);
    }
}

/// An index that can be packed.
pub open spec fn packable(
    metadata: Metadata,
    keys: Seq<u8>,
    hashes: Seq<u8>,
    all: Seq<Bucket>,
) -> bool {
    &&& metadata.valid()
    &&& snapshot::metadata_error(metadata) is None
    &&& keys.len() <= MAX_SECTION_BYTES
    &&& hashes.len() <= MAX_SECTION_BYTES
    &&& snapshot::decoded_keys(keys) is Ok
    &&& segments::encodable(all)
    &&& segments::packed(metadata, keys, hashes, all) is Ok
    &&& forall|i: int| 0 <= i < all.len() ==> (#[trigger] all[i]).key.band < metadata.bands
}

/// The sections of an encoded container are located in it.
#[verifier::spinoff_prover]
pub(crate) proof fn lemma_encoded_is_located(file: container::FileView, bytes: Seq<u8>)
    requires
        file.valid(),
        bytes == container::file_bytes(file),
        bytes.len() <= usize::MAX,
    ensures
        container::decoded(bytes) == Ok::<container::FileView, FormatError>(file),
        layout::layout_of(bytes) is Ok,
        layout::layout_of(bytes)->Ok_0.metadata == file.metadata,
        layout::layout_of(bytes)->Ok_0.file_length == bytes.len(),
        layout::locate(bytes, layout::layout_of(bytes)->Ok_0.sections, file.sections),
{
    container::law_container_round_trip(file);
    layout::law_layout_agrees_with_decoding(bytes);
}

/// The sections of a packed index stay within the limits of the format.
proof fn lemma_packed_valid(
    metadata: Metadata,
    keys: Seq<u8>,
    hashes: Seq<u8>,
    all: Seq<Bucket>,
)
    requires
        metadata.valid(),
        keys.len() <= MAX_SECTION_BYTES,
        hashes.len() <= MAX_SECTION_BYTES,
        segments::packed(metadata, keys, hashes, all) is Ok,
    ensures
        segments::packed_file(metadata, keys, hashes, all).valid(),
        segments::packed(metadata, keys, hashes, all)->Ok_0 == container::file_bytes(
            segments::packed_file(metadata, keys, hashes, all),
        ),
        segments::packed(metadata, keys, hashes, all)->Ok_0.len() <= usize::MAX,
{
    let file = segments::packed_file(metadata, keys, hashes, all);
    let list = segments::segments(all);
    let sections = segments::segment_sections(list);
    assert forall|i: int| 0 <= i < file.sections.len() implies (
    #[trigger] file.sections[i]).payload.len() <= MAX_SECTION_BYTES by {
        if i >= 2 {
            assert(file.sections[i] == sections[i - 2]);
            lemma_not_oversized(list, i - 2);
            segments::lemma_segment_len(list[i - 2]);
        }
    }
}

proof fn lemma_packed_decodes(
    metadata: Metadata,
    keys: Seq<u8>,
    hashes: Seq<u8>,
    all: Seq<Bucket>,
)
    requires
        packable(metadata, keys, hashes, all),
    ensures
        ({
            let bytes = segments::packed(metadata, keys, hashes, all)->Ok_0;
            let file = segments::packed_file(metadata, keys, hashes, all);
            &&& bytes == container::file_bytes(file)
            &&& bytes.len() <= usize::MAX
            &&& container::decoded(bytes) == Ok::<container::FileView, FormatError>(file)
            &&& layout::layout_of(bytes) is Ok
            &&& layout::layout_of(bytes)->Ok_0.metadata == metadata
            &&& layout::layout_of(bytes)->Ok_0.file_length == bytes.len()
            &&& layout::locate(bytes, layout::layout_of(bytes)->Ok_0.sections, file.sections)
        }),
{
    lemma_packed_valid(metadata, keys, hashes, all);
    lemma_encoded_is_located(
        segments::packed_file(metadata, keys, hashes, all),
        segments::packed(metadata, keys, hashes, all)->Ok_0,
    );
}

/// The first section is the only one of its kind.
proof fn lemma_only_first(sections: Seq<SectionDescriptor>, kind: SectionKind)
    requires
        sections.len() > 0,
        sections[0].kind == kind,
        forall|i: int| 1 <= i < sections.len() ==> (#[trigger] sections[i]).kind != kind,
    ensures
        snapshot::of_kind(sections, kind) == seq![sections[0]],
    decreases sections.len(),
{
    if sections.len() == 1 {
        assert(sections.drop_last() =~= Seq::empty());
        assert(snapshot::of_kind(sections.drop_last(), kind) =~= Seq::empty());
        assert(snapshot::of_kind(sections, kind) =~= seq![sections[0]]);
    } else {
        assert(sections[sections.len() - 1].kind != kind);
        lemma_only_first(sections.drop_last(), kind);
    }
}

/// The bucket sections are those after the first two.
proof fn lemma_bucket_sections(sections: Seq<SectionDescriptor>)
    requires
        sections.len() >= 2,
        sections[0].kind == SectionKind::Keys,
        sections[1].kind == SectionKind::BandHashes,
        forall|i: int|
            2 <= i < sections.len() ==> (#[trigger] sections[i]).kind == SectionKind::Buckets
                && sections[i].required,
    ensures
        snapshot::bucket_sections(sections) == Ok::<Seq<SectionDescriptor>, LazyStoreError>(
            sections.skip(2),
        ),
    decreases sections.len(),
{
    if sections.len() == 2 {
        reveal_with_fuel(snapshot::bucket_sections, 3);
        assert(sections.skip(2) =~= Seq::empty());
        assert(sections.drop_last().drop_last() =~= Seq::empty());
    } else {
        let n = sections.len() - 1;
        assert(sections[n].kind == SectionKind::Buckets && sections[n].required);
        lemma_bucket_sections(sections.drop_last());
        assert(sections.drop_last().skip(2).push(sections[n]) =~= sections.skip(2));
    }
}

/// The locations lead to the buckets, one for one.
pub open spec fn leads_to(
    layout: LayoutView,
    file: Seq<u8>,
    directory: Seq<BucketLocation>,
    all: Seq<Bucket>,
) -> bool {
    &&& buckets::location_keys(directory) == buckets::bucket_keys(all)
    &&& directory.len() == all.len()
    &&& forall|i: int|
        0 <= i < all.len() ==> buckets::members_at(layout, file, #[trigger] directory[i]) == Ok::<
            Seq<u64>,
            BucketError,
        >(all[i].members)
}

#[verifier::spinoff_prover]
#[verifier::rlimit(40)]
proof fn lemma_directory(
    layout: LayoutView,
    file: Seq<u8>,
    sections: Seq<SectionDescriptor>,
    list: Seq<Seq<Bucket>>,
    all: Seq<Bucket>,
    bands: usize,
    count: int,
)
    requires
        0 <= count <= sections.len() == list.len(),
        file.len() == layout.file_length,
        layout::locate(file, sections, segments::segment_sections(list)),
        joined(list) == all,
        segments::encodable(all),
        bands <= u32::MAX,
        forall|i: int| 0 <= i < all.len() ==> (#[trigger] all[i]).key.band < bands,
    ensures
        lazy::directory_of(layout, file, sections.take(count), bands) is Ok,
        leads_to(
            layout,
            file,
            lazy::directory_of(layout, file, sections.take(count), bands)->Ok_0,
            joined(list.take(count)),
        ),
    decreases count,
{
    if count == 0 {
        let directory = lazy::directory_of(layout, file, sections.take(0), bands)->Ok_0;
        assert(list.take(0) =~= Seq::empty());
        assert(sections.take(0) =~= Seq::empty());
        assert(buckets::location_keys(directory) =~= buckets::bucket_keys(joined(list.take(0))));
    } else {
        let index = count - 1;
        lemma_directory(layout, file, sections, list, all, bands, index);
        lemma_joined_part(list, index);
        let section = sections[index];
        let segment = list[index];
        let from = joined(list.take(index)).len() as int;
        assert(layout::locates(file, section, segments::segment_sections(list)[index]));
        segments::lemma_part_is_encodable(all, from, from + segment.len());
        assert forall|i: int| 0 <= i < segment.len() implies (#[trigger] segment[i]).key.band
            < bands by {
            assert(segment[i] == all[from + i]);
        }
        buckets::law_segment_round_trip(layout, file, section, segment, bands);
        let front = lazy::directory_of(layout, file, sections.take(index), bands)->Ok_0;
        let more = buckets::located(layout, file, section, bands)->Ok_0;
        let before = joined(list.take(index));
        assert(sections.take(count).drop_last() =~= sections.take(index));
        assert(sections.take(count).last() == section);
        assert(buckets::location_keys(more).len() == buckets::bucket_keys(segment).len());
        assert(buckets::location_keys(front + more) =~= buckets::bucket_keys(before + segment)) by {
            assert forall|i: int|
                0 <= i < front.len() + more.len() implies buckets::location_keys(front + more)[i]
                == buckets::bucket_keys(before + segment)[i] by {
                if i < front.len() {
                    assert(buckets::location_keys(front)[i] == buckets::bucket_keys(before)[i]);
                } else {
                    assert(buckets::location_keys(more)[i - front.len()] == buckets::bucket_keys(
                        segment,
                    )[i - front.len()]);
                }
            }
        }
        assert forall|i: int| 0 <= i < (before + segment).len() implies buckets::members_at(
            layout,
            file,
            #[trigger] (front + more)[i],
        ) == Ok::<Seq<u64>, BucketError>((before + segment)[i].members) by {
            if i < front.len() {
                assert(buckets::members_at(layout, file, front[i]) == Ok::<Seq<u64>, BucketError>(
                    before[i].members,
                ));
            } else {
                assert(buckets::members_at(layout, file, more[i - front.len()]) == Ok::<
                    Seq<u64>,
                    BucketError,
                >(segment[i - front.len()].members));
            }
        }
    }
}

/// The sections of a packed index are found where they are expected.
#[verifier::spinoff_prover]
#[verifier::rlimit(40)]
proof fn lemma_packed_sections(
    metadata: Metadata,
    keys: Seq<u8>,
    hashes: Seq<u8>,
    all: Seq<Bucket>,
)
    requires
        packable(metadata, keys, hashes, all),
    ensures
        ({
            let bytes = segments::packed(metadata, keys, hashes, all)->Ok_0;
            let found = layout::layout_of(bytes)->Ok_0;
            let list = segments::segments(all);
            &&& found.sections.len() == list.len() + 2
            &&& list.len() > 0
            &&& snapshot::only_section(found.sections, SectionKind::Keys) == Ok::<
                SectionDescriptor,
                LazyStoreError,
            >(found.sections[0])
            &&& snapshot::bucket_sections(found.sections) == Ok::<
                Seq<SectionDescriptor>,
                LazyStoreError,
            >(found.sections.skip(2))
            &&& snapshot::source_count(found, bytes, found.sections[0])
                == snapshot::record_count(keys)
            &&& layout::locate(bytes, found.sections.skip(2), segments::segment_sections(list))
        }),
{
    let bytes = segments::packed(metadata, keys, hashes, all)->Ok_0;
    let file = segments::packed_file(metadata, keys, hashes, all);
    let list = segments::segments(all);
    lemma_packed_decodes(metadata, keys, hashes, all);
    let found = layout::layout_of(bytes)->Ok_0;
    let sections = found.sections;
    law_segments_keep_the_buckets(all);
    assert(list.len() > 0);
    assert(layout::locates(bytes, sections[0], file.sections[0]));
    assert(layout::locates(bytes, sections[1], file.sections[1]));
    assert forall|i: int| 2 <= i < sections.len() implies (#[trigger] sections[i]).kind
        == SectionKind::Buckets && sections[i].required by {
        assert(layout::locates(bytes, sections[i], file.sections[i]));
    }
    assert forall|i: int| 1 <= i < sections.len() implies (#[trigger] sections[i]).kind
        != SectionKind::Keys by {
        if i >= 2 {
            assert(sections[i].kind == SectionKind::Buckets);
        }
    }
    lemma_only_first(sections, SectionKind::Keys);
    lemma_bucket_sections(sections);
    let start = sections[0].payload_offset as int;
    assert(sections[0].payload(bytes) == keys);
    assert(bytes.subrange(start, start + 8) =~= keys.subrange(0, 8));
    assert(keys.subrange(0, 8).subrange(0, 8) =~= keys.subrange(0, 8));
    let rest = sections.skip(2);
    assert forall|i: int| 0 <= i < list.len() implies layout::locates(
        bytes,
        #[trigger] rest[i],
        segments::segment_sections(list)[i],
    ) by {
        assert(layout::locates(bytes, sections[i + 2], file.sections[i + 2]));
        assert(file.sections[i + 2] == segments::segment_sections(list)[i]);
    }
}

/// A file whose sections are found where they are expected can be opened.
#[verifier::spinoff_prover]
proof fn lemma_opened(
    bytes: Seq<u8>,
    found: LayoutView,
    keys: Seq<u8>,
    list: Seq<Seq<Bucket>>,
    all: Seq<Bucket>,
)
    requires
        layout::layout_of(bytes) == Ok::<LayoutView, FormatError>(found),
        found.file_length == bytes.len(),
        found.metadata.valid(),
        snapshot::metadata_error(found.metadata) is None,
        found.sections.len() == list.len() + 2,
        list.len() > 0,
        joined(list) == all,
        segments::encodable(all),
        forall|i: int|
            0 <= i < all.len() ==> (#[trigger] all[i]).key.band < found.metadata.bands,
        snapshot::decoded_keys(keys) is Ok,
        snapshot::only_section(found.sections, SectionKind::Keys) == Ok::<
            SectionDescriptor,
            LazyStoreError,
        >(found.sections[0]),
        snapshot::bucket_sections(found.sections) == Ok::<
            Seq<SectionDescriptor>,
            LazyStoreError,
        >(found.sections.skip(2)),
        snapshot::source_count(found, bytes, found.sections[0]) == snapshot::record_count(keys),
        layout::locate(bytes, found.sections.skip(2), segments::segment_sections(list)),
    ensures
        lazy::opened(bytes) matches Ok(state) && {
            &&& state.file == bytes
            &&& state.items == snapshot::decoded_keys(keys)->Ok_0.len()
            &&& state.num_perm == found.metadata.num_perm
            &&& state.seed == found.metadata.seed
            &&& state.params == (LshParams {
                bands: found.metadata.bands as usize,
                rows: found.metadata.rows as usize,
            })
            &&& leads_to(state.layout, state.file, state.directory, all)
            &&& state.valid()
        },
{
    let rest = found.sections.skip(2);
    let bands = found.metadata.bands as usize;
    lemma_directory(found, bytes, rest, list, all, bands, list.len() as int);
    assert(rest.take(list.len() as int) =~= rest);
    assert(list.take(list.len() as int) =~= list);
    let directory = lazy::directory_of(found, bytes, rest, bands);
    assert(directory is Ok);
    assert(buckets::ascending(buckets::location_keys(directory->Ok_0)));
    let items = snapshot::record_count(keys)->Ok_0;
    assert(lazy::opened_layout(bytes, found) == lazy::opened_sections(bytes, found, rest, items));
}

/// A packed index can be opened, and its directory leads to its buckets.
pub proof fn law_packed_index_opens(
    metadata: Metadata,
    keys: Seq<u8>,
    hashes: Seq<u8>,
    all: Seq<Bucket>,
)
    requires
        packable(metadata, keys, hashes, all),
    ensures
        lazy::opened(segments::packed(metadata, keys, hashes, all)->Ok_0) matches Ok(state) && {
            &&& state.file == segments::packed(metadata, keys, hashes, all)->Ok_0
            &&& state.items == snapshot::decoded_keys(keys)->Ok_0.len()
            &&& state.num_perm == metadata.num_perm
            &&& state.seed == metadata.seed
            &&& state.params == (LshParams {
                bands: metadata.bands as usize,
                rows: metadata.rows as usize,
            })
            &&& leads_to(state.layout, state.file, state.directory, all)
            &&& state.valid()
        },
{
    let bytes = segments::packed(metadata, keys, hashes, all)->Ok_0;
    lemma_packed_decodes(metadata, keys, hashes, all);
    lemma_packed_sections(metadata, keys, hashes, all);
    law_segments_keep_the_buckets(all);
    lemma_opened(bytes, layout::layout_of(bytes)->Ok_0, keys, segments::segments(all), all);
}

/// Some band of the hashes falls into a bucket that holds the key.
pub open spec fn is_held(all: Seq<Bucket>, hashes: Seq<u64>, bands: nat, key: u64) -> bool {
    exists|band: int|
        0 <= band < bands && #[trigger] membership::holds(
            all,
            BucketKey { band: band as u32, hash: hashes[band] },
            key,
        )
}

proof fn lemma_candidates(state: LazyState, all: Seq<Bucket>, hashes: Seq<u64>, bands: nat)
    requires
        state.valid(),
        leads_to(state.layout, state.file, state.directory, all),
        bands <= u32::MAX,
    ensures
        state.candidates(hashes, bands) matches Ok(found) && forall|key: u64|
            #[trigger] found.contains(key) <==> is_held(all, hashes, bands, key),
    decreases bands,
{
    if bands > 0 {
        let band = bands - 1;
        lemma_candidates(state, all, hashes, band as nat);
        let before = state.candidates(hashes, band as nat)->Ok_0;
        let wanted = BucketKey { band: band as u32, hash: hashes[band] };
        let members = state.members(wanted)->Ok_0;
        assert(state.members(wanted) is Ok && forall|key: u64| #[trigger]
            members.contains(key) <==> membership::holds(all, wanted, key)) by {
            let keys = buckets::bucket_keys(all);
            if exists|index: int| state.is_at(wanted, index) {
                let index = choose|index: int| state.is_at(wanted, index);
                assert(buckets::location_keys(state.directory)[index] == keys[index]);
                assert(state.members(wanted) == Ok::<Seq<u64>, BucketError>(all[index].members));
                assert forall|key: u64| #[trigger]
                    members.contains(key) <==> membership::holds(all, wanted, key) by {
                    if members.contains(key) {
                        assert(all[index].key == wanted && all[index].members.contains(key));
                    }
                    if membership::holds(all, wanted, key) {
                        let i = choose|i: int|
                            0 <= i < all.len() && (#[trigger] all[i]).key == wanted
                                && all[i].members.contains(key);
                        let places = buckets::location_keys(state.directory);
                        assert(places[i] == keys[i] && places[index] == keys[index]);
                        assert(i < index ==> places[i].before(places[index]));
                        assert(index < i ==> places[index].before(places[i]));
                    }
                }
            } else {
                assert forall|key: u64| #[trigger]
                    members.contains(key) <==> membership::holds(all, wanted, key) by {
                    if membership::holds(all, wanted, key) {
                        let i = choose|i: int|
                            0 <= i < all.len() && (#[trigger] all[i]).key == wanted
                                && all[i].members.contains(key);
                        assert(buckets::location_keys(state.directory)[i] == keys[i]);
                        assert(state.is_at(wanted, i));
                    }
                }
            }
        }
        let found = state.candidates(hashes, bands)->Ok_0;
        assert forall|key: u64| #[trigger] found.contains(key) <==> is_held(
            all,
            hashes,
            bands,
            key,
        ) by {
            if before.contains(key) {
                assert(is_held(all, hashes, band as nat, key));
                let b = choose|b: int|
                    0 <= b < band && #[trigger] membership::holds(
                        all,
                        BucketKey { band: b as u32, hash: hashes[b] },
                        key,
                    );
                assert(0 <= b < bands);
            }
            if members.contains(key) {
                assert(membership::holds(
                    all,
                    BucketKey { band: band as u32, hash: hashes[band] },
                    key,
                ));
            }
            if is_held(all, hashes, bands, key) {
                let b = choose|b: int|
                    0 <= b < bands && #[trigger] membership::holds(
                        all,
                        BucketKey { band: b as u32, hash: hashes[b] },
                        key,
                    );
                if b < band {
                    assert(is_held(all, hashes, band as nat, key));
                } else {
                    assert(members.contains(key));
                }
            }
            assert(members.to_set().contains(key) == members.contains(key));
        }
    }
}

/// An item with this key shares the hash of at least one band.
pub open spec fn collides(
    keys: Seq<u64>,
    rows: Seq<Seq<u64>>,
    hashes: Seq<u64>,
    key: u64,
) -> bool {
    exists|item: int, band: int|
        0 <= item < rows.len() && 0 <= band < hashes.len() && keys[item] == key && (
        #[trigger] rows[item][band]) == hashes[band]
}

/// The buckets hold exactly the items.
pub open spec fn are_buckets_of(all: Seq<Bucket>, keys: Seq<u64>, rows: Seq<Seq<u64>>) -> bool {
    forall|record: (u32, u64, u64)| #[trigger]
        membership::holds(all, membership::bucket_of(record), record.2)
            <==> membership::has_membership(keys, rows, record)
}

proof fn lemma_held_collides(
    all: Seq<Bucket>,
    keys: Seq<u64>,
    rows: Seq<Seq<u64>>,
    hashes: Seq<u64>,
    key: u64,
)
    requires
        are_buckets_of(all, keys, rows),
        hashes.len() <= u32::MAX,
        forall|i: int| 0 <= i < rows.len() ==> (#[trigger] rows[i]).len() == hashes.len(),
    ensures
        is_held(all, hashes, hashes.len(), key) <==> collides(keys, rows, hashes, key),
{
    if is_held(all, hashes, hashes.len(), key) {
        let band = choose|band: int|
            0 <= band < hashes.len() && #[trigger] membership::holds(
                all,
                BucketKey { band: band as u32, hash: hashes[band] },
                key,
            );
        let record = (band as u32, hashes[band], key);
        assert(membership::holds(all, membership::bucket_of(record), record.2));
        assert(membership::has_membership(keys, rows, record));
        let item = choose|item: int|
            0 <= item < rows.len() && record.0 < (#[trigger] rows[item]).len()
                && rows[item][record.0 as int] == record.1 && keys[item] == record.2;
        assert(rows[item][band] == hashes[band]);
    }
    if collides(keys, rows, hashes, key) {
        let (item, band) = choose|item: int, band: int|
            0 <= item < rows.len() && 0 <= band < hashes.len() && keys[item] == key && (
            #[trigger] rows[item][band]) == hashes[band];
        let record = (band as u32, hashes[band], key);
        assert(rows[item].len() == hashes.len());
        assert(record.0 as int == band);
        assert(membership::has_membership(keys, rows, record));
        assert(membership::holds(all, membership::bucket_of(record), record.2));
        assert(is_held(all, hashes, hashes.len(), key));
    }
}

/// A lazy index over the buckets of some items answers a query with exactly
/// the keys of the items that share the hash of at least one band.
pub proof fn law_lazy_answer(
    state: LazyState,
    all: Seq<Bucket>,
    keys: Seq<u64>,
    rows: Seq<Seq<u64>>,
    sketch: Sketch32,
)
    requires
        state.valid(),
        state.sketch_error(sketch) is None,
        leads_to(state.layout, state.file, state.directory, all),
        are_buckets_of(all, keys, rows),
        forall|i: int| 0 <= i < rows.len() ==> (#[trigger] rows[i]).len() == state.params.bands,
    ensures
        state.answer(sketch) matches Ok(found) && forall|key: u64| #[trigger]
            found.contains(key) <==> collides(
                keys,
                rows,
                params::spec_band_hashes(sketch.values, state.params),
                key,
            ),
{
    let hashes = params::spec_band_hashes(sketch.values, state.params);
    assert(hashes.len() == state.params.bands);
    lemma_candidates(state, all, hashes, hashes.len());
    let found = state.answer(sketch)->Ok_0;
    assert forall|key: u64| #[trigger] found.contains(key) <==> collides(
        keys,
        rows,
        hashes,
        key,
    ) by {
        lemma_held_collides(all, keys, rows, hashes, key);
    }
}

/// The in-memory index holds the items of the snapshot.
pub open spec fn holds_the_items(index: LshState, found: SnapshotView) -> bool {
    &&& index.seed == found.metadata.seed
    &&& index.num_perm == found.metadata.num_perm
    &&& index.params == (LshParams {
        bands: found.metadata.bands as usize,
        rows: found.metadata.rows as usize,
    })
    &&& forall|key: u64| #[trigger]
        index.items.contains_key(key) <==> found.keys.contains(key)
    &&& forall|i: int|
        0 <= i < found.keys.len() ==> index.items[#[trigger] found.keys[i]] == found.rows[i]
}

proof fn lemma_parity(
    found: SnapshotView,
    all: Seq<Bucket>,
    index: LshState,
    sketch: Sketch32,
    answer: Seq<u64>,
)
    requires
        found.valid(),
        packable(found.metadata, found.keys_payload, found.hashes_payload, all),
        are_buckets_of(all, found.keys, found.rows),
        holds_the_items(index, found),
        index.sketch_error(sketch) is None,
        index.is_answer(sketch, answer),
    ensures
        lazy::opened(
            segments::packed(found.metadata, found.keys_payload, found.hashes_payload, all)->Ok_0,
        ) matches Ok(state) && state.is_answer(sketch, answer),
{
    let bytes = segments::packed(
        found.metadata,
        found.keys_payload,
        found.hashes_payload,
        all,
    )->Ok_0;
    law_packed_index_opens(found.metadata, found.keys_payload, found.hashes_payload, all);
    let state = lazy::opened(bytes)->Ok_0;
    law_lazy_answer(state, all, found.keys, found.rows, sketch);
    let hashes = index.hashes(sketch);
    let set = state.answer(sketch)->Ok_0;
    assert forall|key: u64| set.contains(key) <==> answer.to_set().contains(key) by {
        assert(answer.contains(key) <==> index.is_candidate(key, hashes));
        if index.is_candidate(key, hashes) {
            let band = choose|band: int|
                0 <= band < index.params.bands && #[trigger] index.items[key][band]
                    == hashes[band];
            assert(found.keys.contains(key));
            let item = choose|item: int| 0 <= item < found.keys.len() && found.keys[item] == key;
            assert(index.items[found.keys[item]] == found.rows[item]);
            assert(found.rows[item][band] == hashes[band]);
            assert(collides(found.keys, found.rows, hashes, key));
        }
        if collides(found.keys, found.rows, hashes, key) {
            let (item, band) = choose|item: int, band: int|
                0 <= item < found.rows.len() && 0 <= band < hashes.len() && found.keys[item] == key
                    && (#[trigger] found.rows[item][band]) == hashes[band];
            assert(found.keys[item] == key);
            assert(found.keys.contains(key));
            assert(index.items[found.keys[item]] == found.rows[item]);
            assert(index.items[key][band] == hashes[band]);
            assert(index.is_candidate(key, hashes));
        }
    }
    assert(set =~= answer.to_set());
}

proof fn lemma_bands_bounded(found: SnapshotView, all: Seq<Bucket>)
    requires
        found.valid(),
        membership::inhabited(all),
        are_buckets_of(all, found.keys, found.rows),
    ensures
        forall|i: int| 0 <= i < all.len() ==> (#[trigger] all[i]).key.band < found.metadata.bands,
{
    assert forall|i: int| 0 <= i < all.len() implies (#[trigger] all[i]).key.band
        < found.metadata.bands by {
        let bucket = all[i];
        assert(bucket.members.len() > 0);
        let record = (bucket.key.band, bucket.key.hash, bucket.members[0]);
        assert(all[i].key == membership::bucket_of(record) && all[i].members.contains(record.2));
        assert(membership::holds(all, membership::bucket_of(record), record.2));
        assert(membership::has_membership(found.keys, found.rows, record));
        let item = choose|item: int|
            0 <= item < found.rows.len() && record.0 < (#[trigger] found.rows[item]).len()
                && found.rows[item][record.0 as int] == record.1 && found.keys[item] == record.2;
        assert(found.rows[item].len() == found.metadata.bands);
    }
}

/// The file that a snapshot is converted to can be opened, and it answers every
/// query as an in-memory index with the same items does.
pub proof fn law_converted_queries_match_memory(
    source: Seq<u8>,
    index: LshState,
    sketch: Sketch32,
    answer: Seq<u64>,
)
    requires
        convert::converted(source) is Ok,
        holds_the_items(index, convert::snapshot_of(source)->Ok_0),
        index.sketch_error(sketch) is None,
        index.is_answer(sketch, answer),
    ensures
        lazy::opened(convert::converted(source)->Ok_0) matches Ok(state) && state.is_answer(
            sketch,
            answer,
        ),
{
    let found = convert::snapshot_of(source)->Ok_0;
    let all = membership::buckets_by_position(found.keys, found.rows);
    convert::law_snapshot_is_complete(source);
    convert::lemma_buckets_encodable(found);
    assert forall|i: int| 0 <= i < found.rows.len() implies (#[trigger] found.rows[i]).len()
        <= u32::MAX by {
        assert(found.rows[i].len() == found.metadata.bands);
    }
    membership::law_buckets_by_position_hold_the_items(found.keys, found.rows);
    lemma_bands_bounded(found, all);
    lemma_parity(found, all, index, sketch, answer);
}

/// The file that the bounded builder makes can be opened, and it answers every
/// query as an in-memory index with the same items does.
pub proof fn law_built_queries_match_memory(
    source: Seq<u8>,
    options: BuildOptions,
    index: LshState,
    sketch: Sketch32,
    answer: Seq<u64>,
)
    requires
        bounded::built(source, options) is Ok,
        holds_the_items(index, bounded::source_of(source, options)->Ok_0),
        index.sketch_error(sketch) is None,
        index.is_answer(sketch, answer),
    ensures
        lazy::opened(bounded::built(source, options)->Ok_0) matches Ok(state) && state.is_answer(
            sketch,
            answer,
        ),
{
    let found = bounded::source_of(source, options)->Ok_0;
    let items = membership::memberships(found.keys, found.rows);
    let all = membership::buckets_by_key(found.keys, found.rows);
    bounded::law_source_is_complete(source, options);
    convert::lemma_memberships_bounded(found, found.keys);
    membership::law_in_order(items);
    order::lemma_same_multiset_same_set(membership::in_order(items), items);
    convert::lemma_grouped_encodable(membership::in_order(items));
    assert forall|i: int| 0 <= i < found.rows.len() implies (#[trigger] found.rows[i]).len()
        <= u32::MAX by {
        assert(found.rows[i].len() == found.metadata.bands);
    }
    membership::law_buckets_by_key_hold_the_items(found.keys, found.rows);
    lemma_bands_bounded(found, all);
    bounded::lemma_source_decodes(source, options);
    lemma_parity(found, all, index, sketch, answer);
}

} // verus!
