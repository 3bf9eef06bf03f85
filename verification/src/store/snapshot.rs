//! What the stores read out of a committed snapshot.
//!
//! A snapshot holds the keys of its items in one section and their band hashes
//! in another. The payload of the first is the number of items and the keys;
//! that of the second is the number of items and, for each item, one hash for
//! each band. All numbers are little-endian and have eight bytes.

use vstd::prelude::*;

use crate::format::buckets::BucketError;
use crate::format::codec::CodecId;
use crate::format::container::SectionKind;
use crate::format::error::FormatError;
use crate::format::header::{Algorithm, IndexMetadata, Metadata, SignatureScheme};
use crate::format::layout::{FileLayout, LayoutError, LayoutView, SectionDescriptor};
use crate::index::params::LshError;
use crate::le;
use crate::store::membership;

verus! {

/// Errors returned by the lazy local store.
#[derive(Debug, Clone, Copy, PartialEq, Eq)]
pub enum LazyStoreError {
    /// The lazy file-layout reader rejected the outer container.
    Layout(LayoutError),
    /// Encoding a versioned container failed.
    Format(FormatError),
    /// The bucket-segment codec rejected persisted bucket data.
    Bucket(BucketError),
    /// LSH metadata is invalid or incompatible.
    Index(LshError),
    /// Storage-specific payload invariants were violated.
    InvalidSnapshot { reason: &'static str },
    /// A length does not fit the type that holds it.
    LengthOverflow,
    /// A supplied sketch uses a different `MinHash` seed.
    IncompatibleSeed { expected: u64, actual: u64 },
    /// A supplied sketch uses a different signature length.
    IncompatiblePermutationCount { expected: usize, actual: usize },
}

/// The error for metadata that the lazy store does not serve, if it does not.
pub open spec fn metadata_error(metadata: Metadata) -> Option<LazyStoreError> {
    if metadata.algorithm != Algorithm::MinHashLsh {
        Some(LazyStoreError::InvalidSnapshot { reason: "algorithm is not MinHash LSH" })
    } else if metadata.scheme != SignatureScheme::PariAffine32V1 {
        Some(
            LazyStoreError::InvalidSnapshot { reason: "signature scheme is not pari-affine32-v1" },
        )
    } else if metadata.codec != CodecId::U64 {
        Some(LazyStoreError::InvalidSnapshot { reason: "lazy v1 store requires u64 keys" })
    } else if metadata.features != 0 {
        Some(
            LazyStoreError::InvalidSnapshot {
                reason: "lazy v1 store does not support feature flags",
            },
        )
    } else {
        None
    }
}

/// Check that the lazy store serves an index with these metadata.
pub fn validate_metadata(metadata: &IndexMetadata) -> (result: Result<(), LazyStoreError>)
    ensures
        match metadata_error(metadata@) {
            Some(error) => result == Err::<(), LazyStoreError>(error),
            None => result is Ok,
        },
{
    if metadata.algorithm() != Algorithm::MinHashLsh {
        return Err(LazyStoreError::InvalidSnapshot { reason: "algorithm is not MinHash LSH" });
    }
    if metadata.signature_scheme() != SignatureScheme::PariAffine32V1 {
        return Err(
            LazyStoreError::InvalidSnapshot { reason: "signature scheme is not pari-affine32-v1" },
        );
    }
    if metadata.key_codec() != CodecId::U64 {
        return Err(LazyStoreError::InvalidSnapshot { reason: "lazy v1 store requires u64 keys" });
    }
    if metadata.feature_flags() != 0 {
        return Err(
            LazyStoreError::InvalidSnapshot {
                reason: "lazy v1 store does not support feature flags",
            },
        );
    }
    Ok(())
}

/// The sections of one kind, in file order.
pub open spec fn of_kind(sections: Seq<SectionDescriptor>, kind: SectionKind) -> Seq<
    SectionDescriptor,
>
    decreases sections.len(),
{
    if sections.len() == 0 {
        Seq::empty()
    } else {
        let front = of_kind(sections.drop_last(), kind);
        if sections.last().kind == kind {
            front.push(sections.last())
        } else {
            front
        }
    }
}

/// What a store says when a section of this kind is missing.
pub open spec fn missing_reason(kind: SectionKind) -> &'static str {
    match kind {
        SectionKind::Keys => "missing required keys section",
        SectionKind::BandHashes => "missing required band-hash section",
        SectionKind::Buckets => "missing required bucket section",
        SectionKind::Tombstones => "missing required tombstone section",
    }
}

/// What a store says when a section of this kind occurs twice.
pub open spec fn duplicate_reason(kind: SectionKind) -> &'static str {
    match kind {
        SectionKind::Keys => "duplicate keys section",
        SectionKind::BandHashes => "duplicate band-hash section",
        SectionKind::Buckets => "duplicate singleton bucket section",
        SectionKind::Tombstones => "duplicate tombstone section",
    }
}

/// What a store says when a section of this kind is missing.
pub fn missing_section_reason(kind: SectionKind) -> (reason: &'static str)
    ensures
        reason == missing_reason(kind),
{
    match kind {
        SectionKind::Keys => "missing required keys section",
        SectionKind::BandHashes => "missing required band-hash section",
        SectionKind::Buckets => "missing required bucket section",
        SectionKind::Tombstones => "missing required tombstone section",
    }
}

/// What a store says when a section of this kind occurs twice.
pub fn duplicate_section_reason(kind: SectionKind) -> (reason: &'static str)
    ensures
        reason == duplicate_reason(kind),
{
    match kind {
        SectionKind::Keys => "duplicate keys section",
        SectionKind::BandHashes => "duplicate band-hash section",
        SectionKind::Buckets => "duplicate singleton bucket section",
        SectionKind::Tombstones => "duplicate tombstone section",
    }
}

/// The one required section of a kind, or the error where there is not exactly
/// one or it is optional.
pub open spec fn only_section(sections: Seq<SectionDescriptor>, kind: SectionKind) -> Result<
    SectionDescriptor,
    LazyStoreError,
> {
    let found = of_kind(sections, kind);
    if found.len() == 0 {
        Err(LazyStoreError::InvalidSnapshot { reason: missing_reason(kind) })
    } else if found.len() > 1 {
        Err(LazyStoreError::InvalidSnapshot { reason: duplicate_reason(kind) })
    } else if !found[0].required {
        Err(
            LazyStoreError::InvalidSnapshot {
                reason: "required metadata section is marked optional",
            },
        )
    } else {
        Ok(found[0])
    }
}

/// Find the one required section of a kind.
pub fn required_unique_section(layout: &FileLayout, kind: SectionKind) -> (result: Result<
    SectionDescriptor,
    LazyStoreError,
>)
    ensures
        result == only_section(layout@.sections, kind),
{
    let sections = layout.sections();
    let mut found: Vec<SectionDescriptor> = Vec::new();
    let mut index: usize = 0;
    assert(sections@.take(0) =~= Seq::empty());
    while index < sections.len()
        invariant
            index <= sections@.len(),
            found@ == of_kind(sections@.take(index as int), kind),
        decreases sections@.len() - index,
    {
        proof {
            let longer = sections@.take(index + 1);
            assert(longer.drop_last() =~= sections@.take(index as int));
            assert(longer.last() == sections@[index as int]);
        }
        let descriptor = sections[index];
        if descriptor.kind == kind {
            found.push(descriptor);
        }
        index = index + 1;
    }
    assert(sections@.take(index as int) =~= sections@);
    if found.len() == 0 {
        return Err(LazyStoreError::InvalidSnapshot { reason: missing_section_reason(kind) });
    }
    if found.len() > 1 {
        return Err(LazyStoreError::InvalidSnapshot { reason: duplicate_section_reason(kind) });
    }
    if !found[0].required {
        return Err(
            LazyStoreError::InvalidSnapshot {
                reason: "required metadata section is marked optional",
            },
        );
    }
    Ok(found[0])
}

/// The bucket sections, in file order, or the first error on the way.
pub open spec fn bucket_sections(sections: Seq<SectionDescriptor>) -> Result<
    Seq<SectionDescriptor>,
    LazyStoreError,
>
    decreases sections.len(),
{
    if sections.len() == 0 {
        Ok(Seq::empty())
    } else {
        let last = sections.last();
        match bucket_sections(sections.drop_last()) {
            Err(error) => Err(error),
            Ok(front) => if last.kind == SectionKind::Buckets {
                if last.required {
                    Ok(front.push(last))
                } else {
                    Err(
                        LazyStoreError::InvalidSnapshot {
                            reason: "bucket sections must be required",
                        },
                    )
                }
            } else if last.kind == SectionKind::Tombstones && last.required {
                Err(
                    LazyStoreError::InvalidSnapshot {
                        reason: "required tombstone sections are not supported",
                    },
                )
            } else {
                Ok(front)
            },
        }
    }
}

proof fn lemma_first_error(sections: Seq<SectionDescriptor>, count: int)
    requires
        0 <= count <= sections.len(),
        bucket_sections(sections.take(count)) is Err,
    ensures
        bucket_sections(sections) == bucket_sections(sections.take(count)),
    decreases sections.len(),
{
    if count == sections.len() {
        assert(sections.take(count) =~= sections);
    } else {
        assert(sections.drop_last().take(count) =~= sections.take(count));
        lemma_first_error(sections.drop_last(), count);
    }
}

/// Collect the bucket sections.
pub fn collect_bucket_sections(layout: &FileLayout) -> (result: Result<
    Vec<SectionDescriptor>,
    LazyStoreError,
>)
    ensures
        match bucket_sections(layout@.sections) {
            Err(error) => result == Err::<Vec<SectionDescriptor>, LazyStoreError>(error),
            Ok(list) => result matches Ok(found) && found@ == list,
        },
{
    let sections = layout.sections();
    let mut found: Vec<SectionDescriptor> = Vec::new();
    let mut index: usize = 0;
    assert(sections@.take(0) =~= Seq::empty());
    while index < sections.len()
        invariant
            index <= sections@.len(),
            sections@ == layout@.sections,
            bucket_sections(sections@.take(index as int)) == Ok::<
                Seq<SectionDescriptor>,
                LazyStoreError,
            >(found@),
        decreases sections@.len() - index,
    {
        let descriptor = sections[index];
        proof {
            let longer = sections@.take(index + 1);
            assert(longer.drop_last() =~= sections@.take(index as int));
            assert(longer.last() == descriptor);
            if bucket_sections(longer) is Err {
                lemma_first_error(sections@, index + 1);
            }
        }
        match descriptor.kind {
            SectionKind::Buckets => {
                if !descriptor.required {
                    return Err(
                        LazyStoreError::InvalidSnapshot {
                            reason: "bucket sections must be required",
                        },
                    );
                }
                found.push(descriptor);
            },
            SectionKind::Tombstones => {
                if descriptor.required {
                    return Err(
                        LazyStoreError::InvalidSnapshot {
                            reason: "required tombstone sections are not supported",
                        },
                    );
                }
            },
            SectionKind::Keys => {},
            SectionKind::BandHashes => {},
        }
        index = index + 1;
    }
    assert(sections@.take(index as int) =~= sections@);
    Ok(found)
}

/// The number of records that a payload announces.
pub open spec fn record_count(payload: Seq<u8>) -> Result<usize, LazyStoreError> {
    if payload.len() < 8 {
        Err(
            LazyStoreError::InvalidSnapshot {
                reason: "phase-1 section is missing its record count",
            },
        )
    } else if le::u64_at(payload, 0) > usize::MAX {
        Err(LazyStoreError::LengthOverflow)
    } else {
        Ok(le::u64_at(payload, 0) as usize)
    }
}

/// Read the number of records that a payload announces.
pub fn read_record_count(payload: &[u8]) -> (result: Result<usize, LazyStoreError>)
    ensures
        result == record_count(payload@),
{
    if payload.len() < 8 {
        return Err(
            LazyStoreError::InvalidSnapshot {
                reason: "phase-1 section is missing its record count",
            },
        );
    }
    let count: u64 = le::read_u64(payload, 0);
    if count > usize::MAX as u64 {
        return Err(LazyStoreError::LengthOverflow);
    }
    Ok(count as usize)
}

/// The number at position `index` after the record count.
pub open spec fn number_at(payload: Seq<u8>, index: int) -> u64 {
    le::u64_at(payload, 8 + 8 * index)
}

/// The `count` numbers from position `from` on.
pub open spec fn numbers(payload: Seq<u8>, from: int, count: nat) -> Seq<u64> {
    Seq::new(count, |i: int| number_at(payload, from + i))
}

/// Read numbers behind the count at the front of a payload.
pub fn read_numbers(payload: &[u8], from: usize, count: usize) -> (found: Vec<u64>)
    requires
        8 + 8 * (from + count) <= payload@.len(),
    ensures
        found@ == numbers(payload@, from as int, count as nat),
{
    let size: usize = payload.len();
    let mut found: Vec<u64> = Vec::new();
    let mut index: usize = 0;
    while index < count
        invariant
            index <= count,
            size == payload@.len(),
            8 + 8 * (from + count) <= size,
            found@ =~= numbers(payload@, from as int, count as nat).take(index as int),
        decreases count - index,
    {
        found.push(le::read_u64(payload, 8 + 8 * (from + index)));
        index = index + 1;
    }
    assert(found@ =~= numbers(payload@, from as int, count as nat));
    found
}

/// The keys that a payload holds, or the error in it.
pub open spec fn decoded_keys(payload: Seq<u8>) -> Result<Seq<u64>, LazyStoreError> {
    match record_count(payload) {
        Err(error) => Err(error),
        Ok(count) => if 8 + 8 * count > usize::MAX {
            Err(LazyStoreError::LengthOverflow)
        } else if payload.len() != 8 + 8 * count {
            Err(
                LazyStoreError::InvalidSnapshot {
                    reason: "phase-1 keys payload length is invalid",
                },
            )
        } else {
            Ok(numbers(payload, 0, count as nat))
        },
    }
}

/// Decode the keys of a snapshot.
pub fn decode_phase1_keys(payload: &[u8]) -> (result: Result<Vec<u64>, LazyStoreError>)
    ensures
        match decoded_keys(payload@) {
            Err(error) => result == Err::<Vec<u64>, LazyStoreError>(error),
            Ok(keys) => result matches Ok(found) && found@ == keys,
        },
{
    let count: usize = match read_record_count(payload) {
        Ok(count) => count,
        Err(error) => {
            return Err(error);
        },
    };
    let expected: usize = match count.checked_mul(8) {
        Some(bytes) => match bytes.checked_add(8) {
            Some(expected) => expected,
            None => {
                return Err(LazyStoreError::LengthOverflow);
            },
        },
        None => {
            return Err(LazyStoreError::LengthOverflow);
        },
    };
    if payload.len() != expected {
        return Err(
            LazyStoreError::InvalidSnapshot { reason: "phase-1 keys payload length is invalid" },
        );
    }
    Ok(read_numbers(payload, 0, count))
}

/// The rows of band hashes that a payload holds, or the error in it.
pub open spec fn decoded_rows(payload: Seq<u8>, bands: usize) -> Result<
    Seq<Seq<u64>>,
    LazyStoreError,
> {
    match record_count(payload) {
        Err(error) => Err(error),
        Ok(count) => if 8 * bands > usize::MAX || 8 + count * (8 * bands) > usize::MAX {
            Err(LazyStoreError::LengthOverflow)
        } else if payload.len() != 8 + count * (8 * bands) {
            Err(
                LazyStoreError::InvalidSnapshot {
                    reason: "phase-1 band-hash payload length is invalid",
                },
            )
        } else {
            Ok(Seq::new(count as nat, |i: int| numbers(payload, i * bands, bands as nat)))
        },
    }
}

/// Decode the band hashes of a snapshot.
pub fn decode_phase1_band_hashes(payload: &[u8], bands: usize) -> (result: Result<
    Vec<Vec<u64>>,
    LazyStoreError,
>)
    requires
        bands > 0,
    ensures
        match decoded_rows(payload@, bands) {
            Err(error) => result == Err::<Vec<Vec<u64>>, LazyStoreError>(error),
            Ok(rows) => result matches Ok(found) && membership::row_views(found@) == rows,
        },
{
    let count: usize = match read_record_count(payload) {
        Ok(count) => count,
        Err(error) => {
            return Err(error);
        },
    };
    let row_bytes: usize = match bands.checked_mul(8) {
        Some(bytes) => bytes,
        None => {
            return Err(LazyStoreError::LengthOverflow);
        },
    };
    let expected: usize = match count.checked_mul(row_bytes) {
        Some(bytes) => match bytes.checked_add(8) {
            Some(expected) => expected,
            None => {
                return Err(LazyStoreError::LengthOverflow);
            },
        },
        None => {
            return Err(LazyStoreError::LengthOverflow);
        },
    };
    if payload.len() != expected {
        return Err(
            LazyStoreError::InvalidSnapshot {
                reason: "phase-1 band-hash payload length is invalid",
            },
        );
    }
    let size: usize = payload.len();
    let mut rows: Vec<Vec<u64>> = Vec::new();
    let mut item: usize = 0;
    let mut from: usize = 0;
    while item < count
        invariant
            item <= count,
            bands > 0,
            size == payload@.len(),
            size == 8 + count * (8 * bands),
            from == item * bands,
            membership::row_views(rows@) =~= Seq::new(
                item as nat,
                |i: int| numbers(payload@, i * bands, bands as nat),
            ),
        decreases count - item,
    {
        proof {
            assert((item + 1) * bands == item * bands + bands) by (nonlinear_arith);
            assert(8 + 8 * ((item + 1) * bands) <= size) by (nonlinear_arith)
                requires
                    item + 1 <= count,
                    size == 8 + count * (8 * bands),
            ;
        }
        let row = read_numbers(payload, from, bands);
        let ghost before = membership::row_views(rows@);
        rows.push(row);
        proof {
            assert(membership::row_views(rows@) =~= before.push(row@));
            assert(row@ == numbers(payload@, item * bands, bands as nat));
        }
        from = from + bands;
        item = item + 1;
    }
    Ok(rows)
}

/// The number of items that a layout announces.
pub open spec fn source_count(
    layout: LayoutView,
    file: Seq<u8>,
    keys: SectionDescriptor,
) -> Result<usize, LazyStoreError> {
    match layout.range(file, keys, 0, 8) {
        Err(error) => Err(LazyStoreError::Layout(error)),
        Ok(bytes) => record_count(bytes),
    }
}

/// Read the number of items that a layout announces.
pub fn read_source_count(layout: &FileLayout, file: &[u8], keys: SectionDescriptor) -> (result:
    Result<usize, LazyStoreError>)
    ensures
        result == source_count(layout@, file@, keys),
{
    match layout.read_section_range(file, keys, 0, 8) {
        Err(error) => Err(LazyStoreError::Layout(error)),
        Ok(bytes) => read_record_count(bytes.as_slice()),
    }
}

/// The sections of one kind are among the sections.
pub(crate) proof fn lemma_of_kind(sections: Seq<SectionDescriptor>, kind: SectionKind)
    ensures
        forall|i: int|
            0 <= i < of_kind(sections, kind).len() ==> (#[trigger] of_kind(sections, kind)[i]).kind
                == kind && sections.contains(of_kind(sections, kind)[i]),
    decreases sections.len(),
{
    if sections.len() > 0 {
        let rest = sections.drop_last();
        lemma_of_kind(rest, kind);
        let front = of_kind(rest, kind);
        let all = of_kind(sections, kind);
        assert forall|i: int| 0 <= i < all.len() implies (#[trigger] all[i]).kind == kind
            && sections.contains(all[i]) by {
            if i < front.len() {
                assert(all[i] == front[i]);
                let at = choose|at: int| 0 <= at < rest.len() && rest[at] == front[i];
                assert(sections[at] == all[i]);
            } else {
                assert(sections[sections.len() - 1] == all[i]);
            }
        }
    }
}

/// The bucket sections are among the sections.
pub(crate) proof fn lemma_bucket_sections(sections: Seq<SectionDescriptor>)
    requires
        bucket_sections(sections) is Ok,
    ensures
        forall|i: int|
            0 <= i < bucket_sections(sections)->Ok_0.len() ==> sections.contains(
                #[trigger] bucket_sections(sections)->Ok_0[i],
            ),
    decreases sections.len(),
{
    if sections.len() > 0 {
        let rest = sections.drop_last();
        lemma_bucket_sections(rest);
        let front = bucket_sections(rest)->Ok_0;
        let all = bucket_sections(sections)->Ok_0;
        assert forall|i: int| 0 <= i < all.len() implies sections.contains(#[trigger] all[i]) by {
            if i < front.len() {
                assert(all[i] == front[i]);
                let at = choose|at: int| 0 <= at < rest.len() && rest[at] == front[i];
                assert(sections[at] == all[i]);
            } else {
                assert(sections[sections.len() - 1] == all[i]);
            }
        }
    }
}

/// The sections of one kind are those sections that have it, in file order.
pub proof fn law_sections_of_a_kind(sections: Seq<SectionDescriptor>, kind: SectionKind)
    ensures
        of_kind(sections, kind) == sections.filter(
            |section: SectionDescriptor| section.kind == kind,
        ),
    decreases sections.len(),
{
    reveal(Seq::filter);
    if sections.len() > 0 {
        law_sections_of_a_kind(sections.drop_last(), kind);
    }
}

/// The section of a kind is found exactly where there is one and it is required.
pub proof fn law_the_only_section(sections: Seq<SectionDescriptor>, kind: SectionKind)
    ensures
        ({
            let found = sections.filter(|section: SectionDescriptor| section.kind == kind);
            if found.len() == 1 && found[0].required {
                only_section(sections, kind) == Ok::<SectionDescriptor, LazyStoreError>(found[0])
            } else {
                only_section(sections, kind) is Err
            }
        }),
{
    law_sections_of_a_kind(sections, kind);
}

/// The bucket sections are all the sections of that kind, in file order. They are found
/// exactly where every one is required and no required section holds tombstones.
pub proof fn law_all_bucket_sections(sections: Seq<SectionDescriptor>)
    ensures
        bucket_sections(sections) is Ok == forall|i: int|
            0 <= i < sections.len() ==> ((#[trigger] sections[i]).kind == SectionKind::Buckets
                ==> sections[i].required) && (sections[i].kind == SectionKind::Tombstones
                ==> !sections[i].required),
        bucket_sections(sections) matches Ok(list) ==> list == sections.filter(
            |section: SectionDescriptor| section.kind == SectionKind::Buckets,
        ),
    decreases sections.len(),
{
    reveal(Seq::filter);
    if sections.len() > 0 {
        let front = sections.drop_last();
        law_all_bucket_sections(front);
        assert forall|i: int| 0 <= i < front.len() implies front[i] == #[trigger] sections[i] by {}
        assert(sections[sections.len() - 1] == sections.last());
        if bucket_sections(sections) is Ok {
            assert forall|i: int| 0 <= i < sections.len() implies ((#[trigger] sections[i]).kind
                == SectionKind::Buckets ==> sections[i].required) && (sections[i].kind
                == SectionKind::Tombstones ==> !sections[i].required) by {
                if i < front.len() {
                    assert(front[i] == sections[i]);
                }
            }
        }
        if forall|i: int|
            0 <= i < sections.len() ==> ((#[trigger] sections[i]).kind == SectionKind::Buckets
                ==> sections[i].required) && (sections[i].kind == SectionKind::Tombstones
                ==> !sections[i].required) {
            assert forall|i: int| 0 <= i < front.len() implies ((#[trigger] front[i]).kind
                == SectionKind::Buckets ==> front[i].required) && (front[i].kind
                == SectionKind::Tombstones ==> !front[i].required) by {
                assert(sections[i].kind == front[i].kind);
            }
        }
    }
}

/// A payload of keys is a count and that many keys of eight bytes each.
pub proof fn law_decoded_keys(payload: Seq<u8>)
    ensures
        decoded_keys(payload) is Ok == (payload.len() >= 8 && payload.len() == 8 + 8 * le::u64_at(
            payload,
            0,
        ) && payload.len() <= usize::MAX),
        decoded_keys(payload) matches Ok(keys) ==> keys.len() == le::u64_at(payload, 0)
            && forall|i: int|
            0 <= i < keys.len() ==> #[trigger] keys[i] == le::u64_at(payload, 8 + 8 * i),
{
}

/// A payload of band hashes is a count and that many rows of `bands` hashes of eight bytes
/// each.
pub proof fn law_decoded_rows(payload: Seq<u8>, bands: usize)
    requires
        payload.len() <= usize::MAX,
    ensures
        decoded_rows(payload, bands) matches Ok(rows) ==> {
            &&& rows.len() == le::u64_at(payload, 0)
            &&& payload.len() == 8 + rows.len() * (8 * bands)
            &&& forall|i: int| 0 <= i < rows.len() ==> (#[trigger] rows[i]).len() == bands
            &&& forall|i: int, j: int|
                0 <= i < rows.len() && 0 <= j < bands ==> #[trigger] rows[i][j] == le::u64_at(
                    payload,
                    8 + 8 * (i * bands + j),
                )
        },
        payload.len() >= 8 && payload.len() == 8 + le::u64_at(payload, 0) * (8 * bands) && 8 * bands
            <= usize::MAX && le::u64_at(payload, 0) <= usize::MAX ==> decoded_rows(
            payload,
            bands,
        ) is Ok,
{
}

/// A lazy store takes MinHash LSH snapshots of the 32-bit affine scheme with integer keys
/// and no features, and no others.
pub proof fn law_which_metadata_are_taken(metadata: Metadata)
    ensures
        metadata_error(metadata) is None == (metadata.algorithm == Algorithm::MinHashLsh
            && metadata.scheme == SignatureScheme::PariAffine32V1 && metadata.codec == CodecId::U64
            && metadata.features == 0),
{
}

} // verus!
