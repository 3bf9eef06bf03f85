//! Validating a whole index file.

use vstd::prelude::*;

use crate::format::buckets;
use crate::format::buckets::{BucketError, BucketLocation};
use crate::format::checksum;
use crate::format::container::SectionKind;
use crate::format::error::FormatError;
use crate::format::layout;
use crate::format::layout::{FileLayout, LayoutError, LayoutView, SectionDescriptor};

verus! {

/// Why a file is not valid.
#[derive(Debug, Clone, Copy, PartialEq, Eq)]
pub enum VerifyError {
    /// The container is malformed.
    Format(FormatError),
    /// A section cannot be read.
    Layout(LayoutError),
    /// A bucket section is malformed.
    Bucket(BucketError),
    /// The members cannot be counted.
    MemberOverflow,
}

/// What a valid file holds.
#[derive(Debug, Clone, Copy, PartialEq, Eq, Structural)]
pub struct VerifyResult {
    /// Understood sections.
    pub sections: usize,
    /// Bucket sections.
    pub bucket_sections: usize,
    /// Buckets.
    pub buckets: usize,
    /// Members of all buckets.
    pub members_checked: u64,
}

/// The bucket sections among the first `upto` sections and the locations of
/// their buckets, or the first error in them.
pub open spec fn sections_checked(layout: LayoutView, file: Seq<u8>, upto: nat) -> Result<
    (nat, Seq<BucketLocation>),
    VerifyError,
>
    decreases upto,
{
    if upto == 0 {
        Ok((0, Seq::empty()))
    } else {
        match sections_checked(layout, file, (upto - 1) as nat) {
            Err(error) => Err(error),
            Ok((count, locations)) => {
                let section = layout.sections[upto - 1];
                match layout.payload(file, section) {
                    Err(error) => Err(VerifyError::Layout(error)),
                    Ok(_) => if section.kind != SectionKind::Buckets {
                        Ok((count, locations))
                    } else {
                        match buckets::located(
                            layout,
                            file,
                            section,
                            layout.metadata.bands as usize,
                        ) {
                            Err(error) => Err(VerifyError::Bucket(error)),
                            Ok(found) => Ok((count + 1, locations + found)),
                        }
                    },
                }
            },
        }
    }
}

/// The members of the first `upto` buckets, or the first error in them.
pub open spec fn members_counted(
    layout: LayoutView,
    file: Seq<u8>,
    locations: Seq<BucketLocation>,
    upto: nat,
) -> Result<nat, VerifyError>
    decreases upto,
{
    if upto == 0 {
        Ok(0)
    } else {
        match members_counted(layout, file, locations, (upto - 1) as nat) {
            Err(error) => Err(error),
            Ok(count) => match buckets::members_at(layout, file, locations[upto - 1]) {
                Err(error) => Err(VerifyError::Bucket(error)),
                Ok(members) => if count + members.len() > u64::MAX {
                    Err(VerifyError::MemberOverflow)
                } else {
                    Ok(count + members.len())
                },
            },
        }
    }
}

/// The layout of a file, its bucket sections and the locations of its buckets, or
/// the first error in them: the container, the sections one by one, and the order
/// of the buckets.
pub open spec fn directory(file: Seq<u8>) -> Result<
    (LayoutView, nat, Seq<BucketLocation>),
    VerifyError,
> {
    match layout::layout_of(file) {
        Err(error) => Err(VerifyError::Format(error)),
        Ok(layout) => match sections_checked(layout, file, layout.sections.len()) {
            Err(error) => Err(error),
            Ok((count, locations)) => if !buckets::ascending(buckets::location_keys(locations)) {
                Err(
                    VerifyError::Bucket(
                        BucketError::Invalid {
                            reason: "bucket directory contains duplicate or unsorted bucket keys",
                        },
                    ),
                )
            } else {
                Ok((layout, count, locations))
            },
        },
    }
}

/// The members of the first `upto` buckets of a file, or the first error on the
/// way to them.
pub open spec fn counted(file: Seq<u8>, upto: nat) -> Result<nat, VerifyError> {
    match directory(file) {
        Err(error) => Err(error),
        Ok((layout, _, locations)) => members_counted(layout, file, locations, upto),
    }
}

/// What a file holds, or the first error in it: the directory, and the members
/// bucket by bucket.
pub open spec fn verified(file: Seq<u8>) -> Result<VerifyResult, VerifyError> {
    match directory(file) {
        Err(error) => Err(error),
        Ok((layout, count, locations)) => match counted(file, locations.len()) {
            Err(error) => Err(error),
            Ok(members) => Ok(
                VerifyResult {
                    sections: layout.sections.len() as usize,
                    bucket_sections: count as usize,
                    buckets: locations.len() as usize,
                    members_checked: members as u64,
                },
            ),
        },
    }
}

proof fn lemma_section_error(layout: LayoutView, file: Seq<u8>, upto: nat, all: nat)
    requires
        upto <= all,
        sections_checked(layout, file, upto) is Err,
    ensures
        sections_checked(layout, file, all) == sections_checked(layout, file, upto),
    decreases all,
{
    if upto < all {
        lemma_section_error(layout, file, upto, (all - 1) as nat);
    }
}

proof fn lemma_member_error(
    layout: LayoutView,
    file: Seq<u8>,
    locations: Seq<BucketLocation>,
    upto: nat,
    all: nat,
)
    requires
        upto <= all,
        members_counted(layout, file, locations, upto) is Err,
    ensures
        members_counted(layout, file, locations, all) == members_counted(
            layout,
            file,
            locations,
            upto,
        ),
    decreases all,
{
    if upto < all {
        lemma_member_error(layout, file, locations, upto, (all - 1) as nat);
    }
}

fn check_sections(layout: &FileLayout, file: &[u8]) -> (result: Result<
    (usize, Vec<BucketLocation>),
    VerifyError,
>)
    ensures
        match sections_checked(layout@, file@, layout@.sections.len()) {
            Err(error) => result == Err::<(usize, Vec<BucketLocation>), VerifyError>(error),
            Ok((count, locations)) => result matches Ok(found) && found.0 == count && found.1@
                == locations,
        },
{
    let bands: usize = layout.metadata().bands() as usize;
    let sections = layout.sections();
    let mut count: usize = 0;
    let mut locations: Vec<BucketLocation> = Vec::new();
    let mut index: usize = 0;
    let size: usize = sections.len();
    while index < size
        invariant
            index <= size == sections@.len(),
            sections@ == layout@.sections,
            bands == layout@.metadata.bands as usize,
            count <= index,
            sections_checked(layout@, file@, index as nat) == Ok::<
                (nat, Seq<BucketLocation>),
                VerifyError,
            >((count as nat, locations@)),
        decreases size - index,
    {
        let section = sections[index];
        proof {
            if sections_checked(layout@, file@, (index + 1) as nat) is Err {
                lemma_section_error(layout@, file@, (index + 1) as nat, size as nat);
            }
        }
        match layout.read_section(file, section) {
            Ok(_) => {},
            Err(error) => {
                return Err(VerifyError::Layout(error));
            },
        }
        if section.kind == SectionKind::Buckets {
            let mut found = match buckets::decode_bucket_segment(layout, file, section, bands) {
                Ok(found) => found,
                Err(error) => {
                    return Err(VerifyError::Bucket(error));
                },
            };
            locations.append(&mut found);
            count = count + 1;
        }
        index = index + 1;
    }
    Ok((count, locations))
}

/// A verification under way: the sections are checked, and the members are
/// counted bucket by bucket.
#[derive(Debug)]
pub struct Verification<'a> {
    file: &'a [u8],
    layout: FileLayout,
    bucket_sections: usize,
    locations: Vec<BucketLocation>,
    completed: usize,
    members: u64,
}

impl<'a> Verification<'a> {
    /// The file.
    pub closed spec fn source(&self) -> Seq<u8> {
        self.file@
    }

    /// How many buckets have been checked.
    pub closed spec fn spec_completed(&self) -> usize {
        self.completed
    }

    /// How many buckets there are.
    pub closed spec fn spec_total(&self) -> usize {
        self.locations@.len() as usize
    }

    /// How many members have been checked.
    pub closed spec fn spec_members(&self) -> u64 {
        self.members
    }

    /// The sections are in order, and so are the buckets that have been checked.
    pub closed spec fn wf(&self) -> bool {
        &&& directory(self.file@) == Ok::<(LayoutView, nat, Seq<BucketLocation>), VerifyError>(
            (self.layout@, self.bucket_sections as nat, self.locations@),
        )
        &&& self.completed <= self.locations@.len()
        &&& counted(self.file@, self.completed as nat) == Ok::<nat, VerifyError>(
            self.members as nat,
        )
    }

    /// Check the container and its sections.
    pub fn begin(file: &'a [u8]) -> (result: Result<Verification<'a>, VerifyError>)
        ensures
            match directory(file@) {
                Ok((_, _, locations)) => result matches Ok(verification) && verification.wf()
                    && verification.source() == file@ && verification.spec_completed() == 0
                    && verification.spec_members() == 0 && verification.spec_total()
                    == locations.len(),
                Err(error) => result == Err::<Verification<'a>, VerifyError>(error),
            },
    {
        let layout = match FileLayout::read_from(file) {
            Ok(layout) => layout,
            Err(error) => {
                return Err(VerifyError::Format(error));
            },
        };
        let (bucket_sections, locations) = match check_sections(&layout, file) {
            Ok(checked) => checked,
            Err(error) => {
                return Err(error);
            },
        };
        match buckets::validate_global_bucket_order(locations.as_slice()) {
            Ok(()) => {},
            Err(error) => {
                return Err(VerifyError::Bucket(error));
            },
        }
        assert(locations.len() as nat == locations@.len());
        Ok(Verification { file, layout, bucket_sections, locations, completed: 0, members: 0 })
    }

    /// Check the next bucket; `false` means that there is none.
    pub fn step(&mut self) -> (result: Result<bool, VerifyError>)
        requires
            old(self).wf(),
        ensures
            final(self).source() == old(self).source(),
            final(self).spec_total() == old(self).spec_total(),
            old(self).spec_completed() == old(self).spec_total() ==> result == Ok::<
                bool,
                VerifyError,
            >(false) && *final(self) == *old(self),
            old(self).spec_completed() < old(self).spec_total() ==> match counted(
                old(self).source(),
                old(self).spec_completed() as nat + 1,
            ) {
                Ok(members) => result == Ok::<bool, VerifyError>(true) && final(self).wf()
                    && final(self).spec_completed() == old(self).spec_completed() + 1
                    && final(self).spec_members() == members,
                Err(error) => result == Err::<bool, VerifyError>(error) && verified(
                    old(self).source(),
                ) == Err::<VerifyResult, VerifyError>(error),
            },
            old(self).spec_completed() <= old(self).spec_total(),
    {
        if self.completed == self.locations.len() {
            return Ok(false);
        }
        proof {
            let upto = (self.completed + 1) as nat;
            if members_counted(self.layout@, self.file@, self.locations@, upto) is Err {
                lemma_member_error(
                    self.layout@,
                    self.file@,
                    self.locations@,
                    upto,
                    self.locations@.len(),
                );
            }
        }
        let location = self.locations[self.completed];
        let members = match buckets::read_bucket_members(&self.layout, self.file, location) {
            Ok(members) => members,
            Err(error) => {
                return Err(VerifyError::Bucket(error));
            },
        };
        match self.members.checked_add(members.len() as u64) {
            Some(count) => {
                self.members = count;
            },
            None => {
                return Err(VerifyError::MemberOverflow);
            },
        }
        self.completed = self.completed + 1;
        Ok(true)
    }

    /// How many buckets have been checked.
    pub fn completed(&self) -> (completed: usize)
        ensures
            completed == self.spec_completed(),
    {
        self.completed
    }

    /// How many buckets there are.
    pub fn total(&self) -> (total: usize)
        ensures
            total == self.spec_total(),
    {
        self.locations.len()
    }

    /// How many members have been checked.
    pub fn members(&self) -> (members: u64)
        ensures
            members == self.spec_members(),
    {
        self.members
    }

    /// What the file holds, once every bucket has been checked.
    pub fn result(&self) -> (result: VerifyResult)
        requires
            self.wf(),
            self.spec_completed() == self.spec_total(),
        ensures
            verified(self.source()) == Ok::<VerifyResult, VerifyError>(result),
            result.members_checked == self.spec_members(),
            result.buckets == self.spec_total(),
    {
        VerifyResult {
            sections: self.layout.sections().len(),
            bucket_sections: self.bucket_sections,
            buckets: self.locations.len(),
            members_checked: self.members,
        }
    }
}

/// Validate the structure of a file and all its checksums.
pub fn verify(file: &[u8]) -> (result: Result<VerifyResult, VerifyError>)
    ensures
        result == verified(file@),
{
    let mut verification = match Verification::begin(file) {
        Ok(verification) => verification,
        Err(error) => {
            return Err(error);
        },
    };
    let mut more = true;
    while more
        invariant
            verification.wf(),
            verification.source() == file@,
            !more ==> verification.spec_completed() == verification.spec_total(),
        decreases
                verification.spec_total() - verification.spec_completed(),
                if more {
                    1int
                } else {
                    0
                },
    {
        match verification.step() {
            Ok(found) => {
                more = found;
            },
            Err(error) => {
                return Err(error);
            },
        }
    }
    Ok(verification.result())
}

proof fn lemma_checked_sections(layout: LayoutView, file: Seq<u8>, upto: nat)
    requires
        upto <= layout.sections.len(),
        sections_checked(layout, file, upto) is Ok,
    ensures
        forall|i: int|
            0 <= i < upto ==> layout.payload(file, #[trigger] layout.sections[i]) is Ok,
        forall|i: int|
            0 <= i < upto && (#[trigger] layout.sections[i]).kind == SectionKind::Buckets
                ==> buckets::located(
                layout,
                file,
                layout.sections[i],
                layout.metadata.bands as usize,
            ) is Ok,
        sections_checked(layout, file, upto)->Ok_0.0 == layout.sections.take(upto as int).filter(
            |section: SectionDescriptor| section.kind == SectionKind::Buckets,
        ).len(),
    decreases upto,
{
    reveal(Seq::filter);
    let front = layout.sections.take(upto as int);
    if upto > 0 {
        lemma_checked_sections(layout, file, (upto - 1) as nat);
        assert(front.drop_last() =~= layout.sections.take(upto - 1));
        assert(front.last() == layout.sections[upto - 1]);
    }
}

proof fn lemma_checked_locations(
    layout: LayoutView,
    file: Seq<u8>,
    upto: nat,
    location: BucketLocation,
)
    requires
        upto <= layout.sections.len(),
        sections_checked(layout, file, upto) is Ok,
    ensures
        sections_checked(layout, file, upto)->Ok_0.1.contains(location) == exists|i: int|
            0 <= i < upto && (#[trigger] layout.sections[i]).kind == SectionKind::Buckets
                && buckets::located(
                layout,
                file,
                layout.sections[i],
                layout.metadata.bands as usize,
            )->Ok_0.contains(location),
    decreases upto,
{
    if upto > 0 {
        let before = (upto - 1) as nat;
        lemma_checked_locations(layout, file, before, location);
        let section = layout.sections[upto - 1];
        let bands = layout.metadata.bands as usize;
        let old = sections_checked(layout, file, before)->Ok_0.1;
        let all = sections_checked(layout, file, upto)->Ok_0.1;
        if section.kind == SectionKind::Buckets {
            let more = buckets::located(layout, file, section, bands)->Ok_0;
            assert(all == old + more);
            if all.contains(location) {
                let k = choose|k: int| 0 <= k < all.len() && all[k] == location;
                if k < old.len() {
                    assert(old[k] == location);
                } else {
                    assert(more[k - old.len()] == location);
                }
            }
            if old.contains(location) {
                let k = choose|k: int| 0 <= k < old.len() && old[k] == location;
                assert(all[k] == location);
            }
            if more.contains(location) {
                let k = choose|k: int| 0 <= k < more.len() && more[k] == location;
                assert(all[old.len() + k] == location);
            }
        }
    }
}

proof fn lemma_counted_members(
    layout: LayoutView,
    file: Seq<u8>,
    locations: Seq<BucketLocation>,
    upto: nat,
)
    requires
        upto <= locations.len(),
        members_counted(layout, file, locations, upto) is Ok,
    ensures
        forall|i: int|
            0 <= i < upto ==> buckets::members_at(layout, file, #[trigger] locations[i]) is Ok,
        members_counted(layout, file, locations, upto)->Ok_0 == locations.take(
            upto as int,
        ).fold_left(
            0nat,
            |sum: nat, location: BucketLocation|
                sum + buckets::members_at(layout, file, location)->Ok_0.len(),
        ),
        members_counted(layout, file, locations, upto)->Ok_0 <= u64::MAX,
    decreases upto,
{
    let front = locations.take(upto as int);
    if upto > 0 {
        lemma_counted_members(layout, file, locations, (upto - 1) as nat);
        assert(front.drop_last() =~= locations.take(upto - 1));
        assert(front.last() == locations[upto - 1]);
    }
}

/// In a file that is reported valid, every section has the checksum that its frame
/// records, whatever its kind is. Every bucket section has a sound directory, and every
/// bucket in it has the members that its entry announces.
pub proof fn law_verified_files_are_sound(file: Seq<u8>)
    requires
        verified(file) is Ok,
    ensures
        layout::layout_of(file) is Ok,
        ({
            let layout = layout::layout_of(file)->Ok_0;
            let bands = layout.metadata.bands as usize;
            &&& forall|i: int|
                0 <= i < layout.sections.len() ==> checksum::crc32(
                    file.subrange(
                        (#[trigger] layout.sections[i]).payload_offset as int,
                        layout.sections[i].payload_offset + layout.sections[i].payload_length,
                    ),
                ) == layout.sections[i].checksum && layout.sections[i].payload_offset
                    + layout.sections[i].payload_length <= file.len()
            &&& forall|i: int|
                0 <= i < layout.sections.len() && (#[trigger] layout.sections[i]).kind
                    == SectionKind::Buckets ==> buckets::located(
                    layout,
                    file,
                    layout.sections[i],
                    bands,
                ) is Ok
            &&& forall|i: int, j: int|
                0 <= i < layout.sections.len() && layout.sections[i].kind == SectionKind::Buckets
                    && 0 <= j < buckets::located(
                    layout,
                    file,
                    layout.sections[i],
                    bands,
                )->Ok_0.len() ==> buckets::members_at(
                    layout,
                    file,
                    #[trigger] buckets::located(layout, file, layout.sections[i], bands)->Ok_0[j],
                ) is Ok
        }),
{
    let layout = layout::layout_of(file)->Ok_0;
    let bands = layout.metadata.bands as usize;
    let size = layout.sections.len();
    let locations = sections_checked(layout, file, size)->Ok_0.1;
    lemma_checked_sections(layout, file, size);
    lemma_counted_members(layout, file, locations, locations.len());
    assert forall|i: int| 0 <= i < layout.sections.len() implies checksum::crc32(
        file.subrange(
            (#[trigger] layout.sections[i]).payload_offset as int,
            layout.sections[i].payload_offset + layout.sections[i].payload_length,
        ),
    ) == layout.sections[i].checksum && layout.sections[i].payload_offset
        + layout.sections[i].payload_length <= file.len() by {
        assert(layout.payload(file, layout.sections[i]) is Ok);
    }
    assert forall|i: int, j: int|
        0 <= i < layout.sections.len() && layout.sections[i].kind == SectionKind::Buckets && 0 <= j
            < buckets::located(layout, file, layout.sections[i], bands)->Ok_0.len() implies buckets::members_at(
        layout,
        file,
        #[trigger] buckets::located(layout, file, layout.sections[i], bands)->Ok_0[j],
    ) is Ok by {
        let found = buckets::located(layout, file, layout.sections[i], bands)->Ok_0;
        assert(found.contains(found[j]));
        lemma_checked_locations(layout, file, size, found[j]);
        assert(layout.sections[i].kind == SectionKind::Buckets);
        let k = choose|k: int| 0 <= k < locations.len() && locations[k] == found[j];
        assert(buckets::members_at(layout, file, locations[k]) is Ok);
    }
}

/// What is reported of a valid file are its sections, its bucket sections, the buckets in
/// them, which stand in ascending order, and the members of those.
pub proof fn law_verification_counts_what_is_there(file: Seq<u8>)
    requires
        verified(file) is Ok,
    ensures
        directory(file) is Ok,
        ({
            let layout = layout::layout_of(file)->Ok_0;
            let bands = layout.metadata.bands as usize;
            let locations = directory(file)->Ok_0.2;
            let result = verified(file)->Ok_0;
            &&& result.sections == layout.sections.len() as usize
            &&& result.bucket_sections == layout.sections.filter(
                |section: SectionDescriptor| section.kind == SectionKind::Buckets,
            ).len() as usize
            &&& result.buckets == locations.len() as usize
            &&& result.members_checked as nat == locations.fold_left(
                0nat,
                |sum: nat, location: BucketLocation|
                    sum + buckets::members_at(layout, file, location)->Ok_0.len(),
            )
            &&& forall|i: int, j: int|
                0 <= i < j < locations.len() ==> (#[trigger] locations[i]).key.before(
                    (#[trigger] locations[j]).key,
                )
            &&& forall|location: BucketLocation| #[trigger]
                locations.contains(location) == exists|i: int|
                    0 <= i < layout.sections.len() && (#[trigger] layout.sections[i]).kind
                        == SectionKind::Buckets && buckets::located(
                        layout,
                        file,
                        layout.sections[i],
                        bands,
                    )->Ok_0.contains(location)
        }),
{
    let layout = layout::layout_of(file)->Ok_0;
    let size = layout.sections.len();
    let locations = sections_checked(layout, file, size)->Ok_0.1;
    lemma_checked_sections(layout, file, size);
    lemma_counted_members(layout, file, locations, locations.len());
    assert(layout.sections.take(size as int) =~= layout.sections);
    assert(locations.take(locations.len() as int) =~= locations);
    assert forall|i: int, j: int| 0 <= i < j < locations.len() implies (
    #[trigger] locations[i]).key.before((#[trigger] locations[j]).key) by {
        let keys = buckets::location_keys(locations);
        assert(keys[i].before(keys[j]));
    }
    assert forall|location: BucketLocation| #[trigger]
        locations.contains(location) == exists|i: int|
            0 <= i < layout.sections.len() && (#[trigger] layout.sections[i]).kind
                == SectionKind::Buckets && buckets::located(
                layout,
                file,
                layout.sections[i],
                layout.metadata.bands as usize,
            )->Ok_0.contains(location) by {
        lemma_checked_locations(layout, file, size, location);
    }
}

/// Altering one byte of any section of a valid file makes verification fail, whatever the
/// kind of the section is.
pub proof fn law_altered_sections_fail_verification(file: Seq<u8>, index: int, at: int, byte: u8)
    requires
        verified(file) is Ok,
        0 <= index < layout::layout_of(file)->Ok_0.sections.len(),
        layout::is_payload_byte(layout::layout_of(file)->Ok_0.sections[index], at),
        byte != file[at],
    ensures
        verified(file.update(at, byte)) is Err,
{
    let layout = layout::layout_of(file)->Ok_0;
    let altered = file.update(at, byte);
    lemma_checked_sections(layout, file, layout.sections.len());
    assert(layout.payload(file, layout.sections[index]) is Ok);
    layout::law_altered_payload_is_rejected(file, layout, index, at, byte);
    if verified(altered) is Ok {
        lemma_checked_sections(layout, altered, layout.sections.len());
        assert(layout.payload(altered, layout.sections[index]) is Ok);
    }
}

proof fn lemma_sections_pass(layout: LayoutView, file: Seq<u8>, upto: nat)
    requires
        upto <= layout.sections.len(),
        forall|i: int|
            0 <= i < layout.sections.len() ==> layout.payload(
                file,
                #[trigger] layout.sections[i],
            ) is Ok,
        forall|i: int|
            0 <= i < layout.sections.len() && (#[trigger] layout.sections[i]).kind
                == SectionKind::Buckets ==> buckets::located(
                layout,
                file,
                layout.sections[i],
                layout.metadata.bands as usize,
            ) is Ok,
    ensures
        sections_checked(layout, file, upto) is Ok,
    decreases upto,
{
    if upto > 0 {
        lemma_sections_pass(layout, file, (upto - 1) as nat);
        assert(layout.payload(file, layout.sections[upto - 1]) is Ok);
    }
}

/// The sections of a file pass where every section has its checksum and every bucket
/// section a sound directory, and the file passes where the buckets are in order and
/// their members can be read and counted.
pub proof fn law_sound_files_are_verified(file: Seq<u8>, layout: LayoutView)
    requires
        layout::layout_of(file) == Ok::<LayoutView, FormatError>(layout),
        forall|i: int|
            0 <= i < layout.sections.len() ==> layout.payload(
                file,
                #[trigger] layout.sections[i],
            ) is Ok,
        forall|i: int|
            0 <= i < layout.sections.len() && (#[trigger] layout.sections[i]).kind
                == SectionKind::Buckets ==> buckets::located(
                layout,
                file,
                layout.sections[i],
                layout.metadata.bands as usize,
            ) is Ok,
    ensures
        sections_checked(layout, file, layout.sections.len()) is Ok,
        ({
            let locations = sections_checked(layout, file, layout.sections.len())->Ok_0.1;
            (forall|i: int, j: int|
                0 <= i < j < locations.len() ==> (#[trigger] locations[i]).key.before(
                    (#[trigger] locations[j]).key,
                )) && (forall|i: int|
                0 <= i < locations.len() ==> buckets::members_at(
                    layout,
                    file,
                    #[trigger] locations[i],
                ) is Ok) ==> verified(file) is Ok || verified(file) == Err::<
                VerifyResult,
                VerifyError,
            >(VerifyError::MemberOverflow)
        }),
{
    lemma_sections_pass(layout, file, layout.sections.len());
    let locations = sections_checked(layout, file, layout.sections.len())->Ok_0.1;
    if (forall|i: int, j: int|
        0 <= i < j < locations.len() ==> (#[trigger] locations[i]).key.before(
            (#[trigger] locations[j]).key,
        )) && (forall|i: int|
        0 <= i < locations.len() ==> buckets::members_at(
            layout,
            file,
            #[trigger] locations[i],
        ) is Ok) {
        let keys = buckets::location_keys(locations);
        assert forall|i: int, j: int| 0 <= i < j < keys.len() implies (#[trigger] keys[i]).before(
            #[trigger] keys[j],
        ) by {
            assert(locations[i].key.before(locations[j].key));
        }
        lemma_members_pass(layout, file, locations, locations.len());
    }
}

proof fn lemma_members_pass(
    layout: LayoutView,
    file: Seq<u8>,
    locations: Seq<BucketLocation>,
    upto: nat,
)
    requires
        upto <= locations.len(),
        forall|i: int|
            0 <= i < locations.len() ==> buckets::members_at(
                layout,
                file,
                #[trigger] locations[i],
            ) is Ok,
    ensures
        members_counted(layout, file, locations, upto) is Ok || members_counted(
            layout,
            file,
            locations,
            upto,
        ) == Err::<nat, VerifyError>(VerifyError::MemberOverflow),
    decreases upto,
{
    if upto > 0 {
        lemma_members_pass(layout, file, locations, (upto - 1) as nat);
        assert(buckets::members_at(layout, file, locations[upto - 1]) is Ok);
    }
}

} // verus!
