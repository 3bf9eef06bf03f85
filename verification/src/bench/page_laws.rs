//! A paged file gives back what was put into it.

use vstd::prelude::*;

use crate::bench::pages;
use crate::bench::pages::{PageDescriptor, PageError};
use crate::format::buckets;
use crate::format::buckets::{Bucket, BucketKey};
use crate::le;

verus! {

/// The members of a bucket in a list of buckets, none where it is not there.
pub open spec fn members_in(list: Seq<Bucket>, key: BucketKey) -> Seq<u64> {
    if exists|i: int| 0 <= i < list.len() && (#[trigger] list[i]).key == key {
        list[choose|i: int| 0 <= i < list.len() && (#[trigger] list[i]).key == key].members
    } else {
        Seq::empty()
    }
}

proof fn lemma_members_in(list: Seq<Bucket>, at: int)
    requires
        buckets::ascending(buckets::bucket_keys(list)),
        0 <= at < list.len(),
    ensures
        members_in(list, list[at].key) == list[at].members,
{
    let key = list[at].key;
    let keys = buckets::bucket_keys(list);
    let i = choose|i: int| 0 <= i < list.len() && (#[trigger] list[i]).key == key;
    assert(list[at].key == key);
    if i < at {
        assert(keys[i].before(keys[at]));
    } else if at < i {
        assert(keys[at].before(keys[i]));
    }
}

/// What stands at the position of record number `at` of a page.
proof fn lemma_record_read(page: Seq<Bucket>, at: int)
    requires
        0 <= at < page.len(),
        page[at].members.len() <= u32::MAX,
    ensures
        ({
            let bytes = pages::page_bytes(page);
            let start = pages::page_bytes(page.take(at)).len() as int;
            let count = page[at].members.len();
            &&& start + 16 + 8 * count <= bytes.len()
            &&& start + 16 + 8 * count == pages::page_bytes(page.take(at + 1)).len()
            &&& pages::record_key(bytes, start) == page[at].key
            &&& le::u32_at(bytes, start + 12) == count
            &&& buckets::members_of(bytes.subrange(start + 16, start + 16 + 8 * count))
                == page[at].members
        }),
{
    broadcast use le::lemma_bytes_len;

    let bytes = pages::page_bytes(page);
    let start = pages::page_bytes(page.take(at)).len() as int;
    let bucket = page[at];
    let record = pages::record_bytes(bucket);
    let count = bucket.members.len();
    lemma_page_part(page, at);
    buckets::lemma_members_bytes_len(bucket.members);
    le::lemma_pow256_values();
    le::lemma_value_of_bytes(bucket.key.band as nat, 4);
    le::lemma_value_of_bytes(bucket.key.hash as nat, 8);
    le::lemma_value_of_bytes(count, 4);
    assert(bytes.subrange(start, start + record.len()) == record);
    assert(bytes.subrange(start, start + 4) =~= record.subrange(0, 4));
    assert(record.subrange(0, 4) =~= le::bytes(bucket.key.band as nat, 4));
    assert(bytes.subrange(start + 4, start + 12) =~= record.subrange(4, 12));
    assert(record.subrange(4, 12) =~= le::bytes(bucket.key.hash as nat, 8));
    assert(bytes.subrange(start + 12, start + 16) =~= record.subrange(12, 16));
    assert(record.subrange(12, 16) =~= le::bytes(count, 4));
    assert(bytes.subrange(start + 16, start + 16 + 8 * count) =~= record.subrange(
        16,
        16 + 8 * count as int,
    ));
    assert(record.subrange(16, 16 + 8 * count as int) =~= buckets::members_bytes(bucket.members));
    buckets::law_members_round_trip(bucket.members);
}

/// The bytes of record number `at` stand behind those of the records before it.
proof fn lemma_page_part(page: Seq<Bucket>, at: int)
    requires
        0 <= at < page.len(),
    ensures
        ({
            let bytes = pages::page_bytes(page);
            let start = pages::page_bytes(page.take(at)).len() as int;
            let record = pages::record_bytes(page[at]);
            &&& start + record.len() <= bytes.len()
            &&& bytes.subrange(start, start + record.len()) == record
            &&& pages::page_bytes(page.take(at + 1)).len() == start + record.len()
        }),
    decreases page.len(),
{
    let bytes = pages::page_bytes(page);
    let front = page.drop_last();
    let start = pages::page_bytes(page.take(at)).len() as int;
    let record = pages::record_bytes(page[at]);
    let next = page.take(at + 1);
    assert(next.drop_last() =~= page.take(at));
    assert(next.last() == page[at]);
    if at < front.len() {
        lemma_page_part(front, at);
        assert(front.take(at) =~= page.take(at));
        assert(front.take(at + 1) =~= page.take(at + 1));
        assert(bytes.subrange(start, start + record.len()) =~= pages::page_bytes(front).subrange(
            start,
            start + record.len(),
        ));
    } else {
        assert(page.take(at) =~= front);
        assert(bytes.subrange(start, start + record.len()) =~= record);
    }
}

/// Scanning a page from record number `at` on finds the bucket among the
/// records from there on.
proof fn lemma_scan(page: Seq<Bucket>, at: int, target: BucketKey)
    requires
        buckets::ascending(buckets::bucket_keys(page)),
        forall|i: int| 0 <= i < page.len() ==> (#[trigger] page[i]).members.len() <= u32::MAX,
        0 <= at <= page.len(),
        forall|i: int| 0 <= i < at ==> (#[trigger] page[i]).key != target,
    ensures
        ({
            let start = pages::page_bytes(page.take(at)).len() as int;
            let found = pages::scan(pages::page_bytes(page), start, target);
            if exists|i: int| 0 <= i < page.len() && (#[trigger] page[i]).key == target {
                found == Ok::<Option<Seq<u64>>, PageError>(Some(members_in(page, target)))
            } else {
                found == Ok::<Option<Seq<u64>>, PageError>(None)
            }
        }),
    decreases page.len() - at,
{
    let bytes = pages::page_bytes(page);
    let start = pages::page_bytes(page.take(at)).len() as int;
    let keys = buckets::bucket_keys(page);
    if at == page.len() {
        assert(page.take(at) =~= page);
    } else {
        lemma_record_read(page, at);
        let key = page[at].key;
        let size = 8 * page[at].members.len();
        if key == target {
            lemma_members_in(page, at);
        } else if target.before(key) {
            assert forall|i: int| 0 <= i < page.len() implies (#[trigger] page[i]).key
                != target by {
                if i > at {
                    assert(keys[at].before(keys[i]));
                }
            }
        } else {
            lemma_scan(page, at + 1, target);
            assert(pages::scan(bytes, start, target) == pages::scan(
                bytes,
                start + 16 + size,
                target,
            ));
        }
    }
}

proof fn lemma_directory_len(list: Seq<PageDescriptor>)
    ensures
        pages::directory_bytes(list).len() == 40 * list.len(),
    decreases list.len(),
{
    broadcast use le::lemma_bytes_len;

    if list.len() > 0 {
        lemma_directory_len(list.drop_last());
    }
}

proof fn lemma_directory_part(list: Seq<PageDescriptor>, at: int)
    requires
        0 <= at < list.len(),
    ensures
        pages::directory_bytes(list).len() == 40 * list.len(),
        pages::directory_bytes(list).subrange(40 * at, 40 * at + 40) == pages::entry_bytes(
            list[at],
        ),
    decreases list.len(),
{
    broadcast use le::lemma_bytes_len;

    lemma_directory_len(list);
    let front = list.drop_last();
    lemma_directory_len(front);
    let bytes = pages::directory_bytes(list);
    if at < front.len() {
        lemma_directory_part(front, at);
        assert(bytes.subrange(40 * at, 40 * at + 40) =~= pages::directory_bytes(front).subrange(
            40 * at,
            40 * at + 40,
        ));
    } else {
        assert(bytes.subrange(40 * at, 40 * at + 40) =~= pages::entry_bytes(list[at]));
    }
}

/// What stands at the position of directory entry number `at` of a file.
proof fn lemma_entry_read(lists: Seq<Seq<Bucket>>, at: int)
    requires
        pages::fits(lists),
        0 <= at < lists.len(),
    ensures
        pages::entry_at(pages::file_bytes(lists), at) == pages::descriptor(lists, at),
        le::u32_at(pages::file_bytes(lists), 16 + 40 * at + 36) == 0,
{
    broadcast use le::lemma_bytes_len;

    let all = pages::descriptors(lists);
    let file = pages::file_bytes(lists);
    let entry = all[at];
    let bytes = pages::entry_bytes(entry);
    let start = 16 + 40 * at;
    lemma_directory_part(all, at);
    assert(file.subrange(start, start + 40) =~= pages::directory_bytes(all).subrange(
        40 * at,
        40 * at + 40,
    ));
    le::lemma_pow256_values();
    le::lemma_value_of_bytes(entry.first.band as nat, 4);
    le::lemma_value_of_bytes(entry.first.hash as nat, 8);
    le::lemma_value_of_bytes(entry.last.band as nat, 4);
    le::lemma_value_of_bytes(entry.last.hash as nat, 8);
    le::lemma_value_of_bytes(entry.offset as nat, 8);
    le::lemma_value_of_bytes(entry.length as nat, 4);
    le::lemma_value_of_bytes(0, 4);
    lemma_subrange(file, bytes, start, 0, 4);
    assert(bytes.subrange(0, 4) =~= le::bytes(entry.first.band as nat, 4));
    lemma_subrange(file, bytes, start, 4, 12);
    assert(bytes.subrange(4, 12) =~= le::bytes(entry.first.hash as nat, 8));
    lemma_subrange(file, bytes, start, 12, 16);
    assert(bytes.subrange(12, 16) =~= le::bytes(entry.last.band as nat, 4));
    lemma_subrange(file, bytes, start, 16, 24);
    assert(bytes.subrange(16, 24) =~= le::bytes(entry.last.hash as nat, 8));
    lemma_subrange(file, bytes, start, 24, 32);
    assert(bytes.subrange(24, 32) =~= le::bytes(entry.offset as nat, 8));
    lemma_subrange(file, bytes, start, 32, 36);
    assert(bytes.subrange(32, 36) =~= le::bytes(entry.length as nat, 4));
    lemma_subrange(file, bytes, start, 36, 40);
    assert(bytes.subrange(36, 40) =~= le::bytes(0, 4));
}

proof fn lemma_subrange(whole: Seq<u8>, part: Seq<u8>, start: int, from: int, to: int)
    requires
        0 <= start,
        start + part.len() <= whole.len(),
        whole.subrange(start, start + part.len()) == part,
        0 <= from <= to <= part.len(),
    ensures
        whole.subrange(start + from, start + to) == part.subrange(from, to),
{
    assert(whole.subrange(start + from, start + to) =~= whole.subrange(
        start,
        start + part.len(),
    ).subrange(from, to));
}

/// Where the buckets of a page stand among all buckets.
proof fn lemma_joined(lists: Seq<Seq<Bucket>>, at: int, within: int)
    requires
        0 <= at < lists.len(),
        0 <= within < lists[at].len(),
    ensures
        ({
            let index = pages::joined(lists.take(at)).len() + within;
            &&& index < pages::joined(lists).len()
            &&& pages::joined(lists)[index] == lists[at][within]
            &&& index < pages::joined(lists.take(at + 1)).len()
        }),
    decreases lists.len(),
{
    let front = lists.drop_last();
    let next = lists.take(at + 1);
    assert(next.drop_last() =~= lists.take(at));
    if at < front.len() {
        lemma_joined(front, at, within);
        assert(front.take(at) =~= lists.take(at));
        assert(front[at] == lists[at]);
    } else {
        assert(lists.take(at) =~= front);
    }
}

proof fn lemma_joined_grows(lists: Seq<Seq<Bucket>>, from: int, to: int)
    requires
        0 <= from <= to <= lists.len(),
    ensures
        pages::joined(lists.take(from)).len() <= pages::joined(lists.take(to)).len(),
    decreases to - from,
{
    if from < to {
        lemma_joined_grows(lists, from, to - 1);
        assert(lists.take(to).drop_last() =~= lists.take(to - 1));
    }
}

/// Some page holds each bucket.
proof fn lemma_some_page(lists: Seq<Seq<Bucket>>, index: int) -> (place: (int, int))
    requires
        0 <= index < pages::joined(lists).len(),
    ensures
        0 <= place.0 < lists.len(),
        0 <= place.1 < lists[place.0].len(),
        lists[place.0][place.1] == pages::joined(lists)[index],
    decreases lists.len(),
{
    let front = lists.drop_last();
    let before = pages::joined(front).len() as int;
    if index < before {
        lemma_some_page(front, index)
    } else {
        (lists.len() - 1, index - before)
    }
}

/// Buckets of one page, and of an earlier and a later page, are in order.
proof fn lemma_pages_ascend(list: Seq<Bucket>, a: int, i: int, b: int, j: int)
    requires
        buckets::ascending(buckets::bucket_keys(list)),
        0 <= a <= b < pages::paged(list).len(),
        0 <= i < pages::paged(list)[a].len(),
        0 <= j < pages::paged(list)[b].len(),
        a < b || i < j,
    ensures
        pages::paged(list)[a][i].key.before(pages::paged(list)[b][j].key),
{
    let lists = pages::paged(list);
    let keys = buckets::bucket_keys(list);
    pages::law_pages_hold_the_buckets(list);
    lemma_joined(lists, a, i);
    lemma_joined(lists, b, j);
    let x = pages::joined(lists.take(a)).len() + i;
    let y = pages::joined(lists.take(b)).len() + j;
    if a < b {
        lemma_joined_grows(lists, a + 1, b);
    }
    assert(x < y);
    assert(keys[x as int].before(keys[y as int]));
}

/// The entries that were written are read back.
proof fn lemma_entries(list: Seq<Bucket>, upto: nat)
    requires
        buckets::ascending(buckets::bucket_keys(list)),
        pages::fits(pages::paged(list)),
        upto <= pages::paged(list).len(),
    ensures
        ({
            let lists = pages::paged(list);
            pages::entries(
                pages::file_bytes(lists),
                lists.len(),
                upto,
                pages::page_offset(lists, lists.len() as int) as u64,
            ) == Ok::<Seq<PageDescriptor>, PageError>(
                pages::descriptors(lists).take(upto as int),
            )
        }),
    decreases upto,
{
    let lists = pages::paged(list);
    let all = pages::descriptors(lists);
    let file = pages::file_bytes(lists);
    let length = pages::page_offset(lists, lists.len() as int) as u64;
    if upto == 0 {
        assert(all.take(0) =~= Seq::empty());
    } else {
        let at = upto - 1;
        lemma_entries(list, at as nat);
        let read = all.take(at);
        pages::law_pages_hold_the_buckets(list);
        lemma_entry_read(lists, at);
        let entry = all[at];
        assert(lists[at].len() > 0);
        if lists[at].len() > 1 {
            lemma_pages_ascend(list, at, 0, at, lists[at].len() - 1);
        }
        assert(!entry.last.before(entry.first));
        lemma_offsets(lists, at);
        if at > 0 {
            lemma_offsets(lists, at - 1);
            assert(lists[at - 1].len() > 0);
            lemma_pages_ascend(list, at - 1, lists[at - 1].len() - 1, at, 0);
            assert(read.last() == all[at - 1]);
        } else {
            assert(lists.take(0) =~= Seq::empty());
        }
        assert(pages::entry_error(file, lists.len(), read, length) is None);
        assert(read.push(entry) =~= all.take(upto as int));
    }
}

/// A page ends where the next one begins, before the end of the file.
proof fn lemma_offsets(lists: Seq<Seq<Bucket>>, at: int)
    requires
        pages::fits(lists),
        0 <= at < lists.len(),
    ensures
        pages::page_offset(lists, at + 1) == pages::page_offset(lists, at) + pages::page_bytes(
            lists[at],
        ).len(),
        pages::page_offset(lists, at + 1) <= pages::page_offset(lists, lists.len() as int),
        pages::page_offset(lists, at) <= u64::MAX,
        pages::page_bytes(lists[at]).len() <= u32::MAX,
    decreases lists.len() - at,
{
    let next = lists.take(at + 1);
    assert(next.drop_last() =~= lists.take(at));
    assert(next.last() == lists[at]);
    if at + 1 < lists.len() {
        lemma_offsets(lists, at + 1);
    }
}

/// The bytes of a page stand where its directory entry says.
proof fn lemma_page_slice(lists: Seq<Seq<Bucket>>, at: int)
    requires
        pages::fits(lists),
        0 <= at < lists.len(),
    ensures
        ({
            let file = pages::file_bytes(lists);
            let entry = pages::descriptor(lists, at);
            &&& pages::end_of(entry) <= file.len()
            &&& file.subrange(entry.offset as int, pages::end_of(entry)) == pages::page_bytes(
                lists[at],
            )
        }),
{
    broadcast use le::lemma_bytes_len;

    lemma_directory_len(pages::descriptors(lists));
    lemma_offsets(lists, at);
    lemma_payload_part(lists, at);
    let file = pages::file_bytes(lists);
    let start = 16 + 40 * lists.len();
    let payload = pages::payload(lists);
    let from = pages::payload(lists.take(at)).len() as int;
    let size = pages::page_bytes(lists[at]).len() as int;
    assert(file.len() == start + payload.len());
    assert(file.subrange(start + from, start + from + size) =~= payload.subrange(
        from,
        from + size,
    ));
}

proof fn lemma_payload_part(lists: Seq<Seq<Bucket>>, at: int)
    requires
        0 <= at < lists.len(),
    ensures
        ({
            let payload = pages::payload(lists);
            let from = pages::payload(lists.take(at)).len() as int;
            let size = pages::page_bytes(lists[at]).len() as int;
            &&& from + size <= payload.len()
            &&& payload.subrange(from, from + size) == pages::page_bytes(lists[at])
        }),
    decreases lists.len(),
{
    let payload = pages::payload(lists);
    let front = lists.drop_last();
    let from = pages::payload(lists.take(at)).len() as int;
    let size = pages::page_bytes(lists[at]).len() as int;
    if at < front.len() {
        lemma_payload_part(front, at);
        assert(front.take(at) =~= lists.take(at));
        assert(payload.subrange(from, from + size) =~= pages::payload(front).subrange(
            from,
            from + size,
        ));
    } else {
        assert(lists.take(at) =~= front);
        assert(payload.subrange(from, from + size) =~= pages::page_bytes(lists[at]));
    }
}

/// Reading the directory of a file that was built gives the entries that were
/// written.
pub proof fn law_directory_round_trip(list: Seq<Bucket>)
    requires
        buckets::ascending(buckets::bucket_keys(list)),
        pages::fits(pages::paged(list)),
    ensures
        ({
            let lists = pages::paged(list);
            let file = pages::file_bytes(lists);
            &&& file.len() == pages::page_offset(lists, lists.len() as int)
            &&& pages::directory(file, file.len() as u64) == Ok::<Seq<PageDescriptor>, PageError>(
                pages::descriptors(lists),
            )
        }),
{
    broadcast use le::lemma_bytes_len;

    let lists = pages::paged(list);
    let file = pages::file_bytes(lists);
    let all = pages::descriptors(lists);
    let count = lists.len();
    lemma_directory_len(all);
    assert(lists.take(count as int) =~= lists);
    assert(file.len() == pages::page_offset(lists, count as int));
    le::lemma_pow256_values();
    le::lemma_value_of_bytes(pages::PAGE_MAGIC as nat, 8);
    le::lemma_value_of_bytes(pages::PAGE_VERSION as nat, 4);
    le::lemma_value_of_bytes(count, 4);
    assert(file.subrange(0, 8) =~= le::bytes(pages::PAGE_MAGIC as nat, 8));
    assert(file.subrange(8, 12) =~= le::bytes(pages::PAGE_VERSION as nat, 4));
    assert(file.subrange(12, 16) =~= le::bytes(count, 4));
    lemma_entries(list, count);
    assert(all.take(count as int) =~= all);
    if count > 0 {
        lemma_offsets(lists, count - 1);
        assert(all.last() == pages::descriptor(lists, count - 1));
    } else {
        assert(lists.take(0) =~= Seq::empty());
    }
}

/// Looking a bucket up in a file that was built gives its members, and nothing
/// where there is no such bucket.
pub proof fn law_lookup_finds_the_members(list: Seq<Bucket>, key: BucketKey)
    requires
        buckets::ascending(buckets::bucket_keys(list)),
        !pages::oversized(list),
        pages::fits(pages::paged(list)),
    ensures
        pages::lookup(
            pages::file_bytes(pages::paged(list)),
            pages::descriptors(pages::paged(list)),
            key,
        ) == Ok::<Seq<u64>, PageError>(members_in(list, key)),
{
    let lists = pages::paged(list);
    let file = pages::file_bytes(lists);
    let all = pages::descriptors(lists);
    pages::law_pages_hold_the_buckets(list);
    law_directory_round_trip(list);
    pages::law_directory_is_ordered(file, file.len() as u64);
    if pages::covered(all, key) {
        let at = choose|at: int| 0 <= at < all.len() && pages::covers(#[trigger] all[at], key);
        lemma_one(all, at, key);
        lemma_page_slice(lists, at);
        lemma_in_page(list, at, key);
        let page = lists[at];
        assert(page.take(0) =~= Seq::empty());
        lemma_page_is_regular(list, at);
        lemma_scan(page, 0, key);
        if exists|i: int| 0 <= i < page.len() && (#[trigger] page[i]).key == key {
            let i = choose|i: int| 0 <= i < page.len() && (#[trigger] page[i]).key == key;
            lemma_members_in(page, i);
            lemma_joined(lists, at, i);
            let index = pages::joined(lists.take(at)).len() + i;
            lemma_members_in(list, index as int);
        }
    } else {
        assert forall|index: int| 0 <= index < list.len() implies (#[trigger] list[index]).key
            != key by {
            if list[index].key == key {
                let place = lemma_some_page(lists, index);
                lemma_bucket_is_covered(list, place.0, place.1);
                assert(pages::covers(all[place.0], key));
            }
        }
    }
}

proof fn lemma_one(all: Seq<PageDescriptor>, at: int, key: BucketKey)
    requires
        pages::ordered_pages(all),
        0 <= at < all.len(),
        pages::covers(all[at], key),
    ensures
        pages::covering(all, key) == all[at],
{
    let i = choose|i: int| 0 <= i < all.len() && pages::covers(#[trigger] all[i], key);
    if i < at {
        assert(all[i].last.before(all[at].first));
    } else if at < i {
        assert(all[at].last.before(all[i].first));
    }
}

proof fn lemma_bucket_is_covered(list: Seq<Bucket>, at: int, within: int)
    requires
        buckets::ascending(buckets::bucket_keys(list)),
        0 <= at < pages::paged(list).len(),
        0 <= within < pages::paged(list)[at].len(),
    ensures
        pages::covers(
            pages::descriptor(pages::paged(list), at),
            pages::paged(list)[at][within].key,
        ),
{
    let page = pages::paged(list)[at];
    if within > 0 {
        lemma_pages_ascend(list, at, 0, at, within);
    }
    if within < page.len() - 1 {
        lemma_pages_ascend(list, at, within, at, page.len() - 1);
    }
}

/// A bucket that is there is on the page that covers it.
proof fn lemma_in_page(list: Seq<Bucket>, at: int, key: BucketKey)
    requires
        buckets::ascending(buckets::bucket_keys(list)),
        0 <= at < pages::paged(list).len(),
        pages::ordered_pages(pages::descriptors(pages::paged(list))),
        pages::covers(pages::descriptor(pages::paged(list), at), key),
    ensures
        forall|index: int|
            0 <= index < list.len() && (#[trigger] list[index]).key == key ==> exists|i: int|
                0 <= i < pages::paged(list)[at].len() && (#[trigger] pages::paged(list)[at][i]).key
                    == key,
{
    let lists = pages::paged(list);
    let all = pages::descriptors(lists);
    pages::law_pages_hold_the_buckets(list);
    assert forall|index: int| 0 <= index < list.len() && (#[trigger] list[index]).key
        == key implies exists|i: int|
        0 <= i < lists[at].len() && (#[trigger] lists[at][i]).key == key by {
        let place = lemma_some_page(lists, index);
        lemma_bucket_is_covered(list, place.0, place.1);
        assert(pages::covers(all[place.0], key));
        assert(pages::covers(all[at], key));
        if place.0 < at {
            assert(all[place.0].last.before(all[at].first));
        } else if at < place.0 {
            assert(all[at].last.before(all[place.0].first));
        }
        assert(lists[at][place.1].key == key);
    }
}

/// The buckets of a page ascend, and none has too many members.
proof fn lemma_page_is_regular(list: Seq<Bucket>, at: int)
    requires
        buckets::ascending(buckets::bucket_keys(list)),
        !pages::oversized(list),
        0 <= at < pages::paged(list).len(),
    ensures
        buckets::ascending(buckets::bucket_keys(pages::paged(list)[at])),
        forall|i: int|
            0 <= i < pages::paged(list)[at].len() ==> (#[trigger] pages::paged(
                list,
            )[at][i]).members.len() <= u32::MAX,
{
    let lists = pages::paged(list);
    let page = lists[at];
    let keys = buckets::bucket_keys(page);
    pages::law_pages_hold_the_buckets(list);
    assert forall|i: int, j: int| 0 <= i < j < keys.len() implies (#[trigger] keys[i]).before(
        #[trigger] keys[j],
    ) by {
        lemma_pages_ascend(list, at, i, at, j);
    }
    assert forall|i: int| 0 <= i < page.len() implies (#[trigger] page[i]).members.len()
        <= u32::MAX by {
        lemma_joined(lists, at, i);
        let index = pages::joined(lists.take(at)).len() + i;
        assert(list[index as int] == page[i]);
    }
}

/// A page stands where the bytes of its directory entry say, behind the directory and
/// within the file, and its first bucket is not behind its last.
pub open spec fn is_sound(
    data: Seq<u8>,
    count: nat,
    pages: Seq<PageDescriptor>,
    file_length: u64,
    at: int,
) -> bool {
    let start = 16 + 40 * at;
    let page = pages[at];
    &&& page.first.band == le::u32_at(data, start) && page.first.hash == le::u64_at(data, start + 4)
    &&& page.last.band == le::u32_at(data, start + 12) && page.last.hash == le::u64_at(
        data,
        start + 16,
    )
    &&& page.offset == le::u64_at(data, start + 24)
    &&& page.length == le::u32_at(data, start + 32)
    &&& le::u32_at(data, start + 36) == 0
    &&& page.first.band < page.last.band || (page.first.band == page.last.band && page.first.hash
        <= page.last.hash)
    &&& 16 + 40 * count <= page.offset
    &&& page.offset + page.length <= file_length
    &&& at > 0 ==> pages[at - 1].offset + pages[at - 1].length <= page.offset
}

proof fn lemma_sound_entries(data: Seq<u8>, count: nat, upto: nat, file_length: u64)
    requires
        pages::entries(data, count, upto, file_length) is Ok,
    ensures
        pages::entries(data, count, upto, file_length)->Ok_0.len() == upto,
        forall|at: int|
            0 <= at < upto ==> #[trigger] is_sound(
                data,
                count,
                pages::entries(data, count, upto, file_length)->Ok_0,
                file_length,
                at,
            ),
    decreases upto,
{
    if upto > 0 {
        let before = (upto - 1) as nat;
        lemma_sound_entries(data, count, before, file_length);
        let read = pages::entries(data, count, before, file_length)->Ok_0;
        let all = pages::entries(data, count, upto, file_length)->Ok_0;
        assert forall|at: int| 0 <= at < upto implies #[trigger] is_sound(
            data,
            count,
            all,
            file_length,
            at,
        ) by {
            if at < before {
                assert(is_sound(data, count, read, file_length, at));
            } else if before > 0 {
                assert(is_sound(data, count, read, file_length, before - 1));
            }
        }
    }
}

/// A directory that was read has the magic number and the version, as many pages as it
/// announces, and every page stands where its entry says, behind all earlier ones.
pub proof fn law_read_page_directories_are_sound(data: Seq<u8>, file_length: u64)
    requires
        pages::directory(data, file_length) is Ok,
    ensures
        le::u64_at(data, 0) == pages::PAGE_MAGIC,
        le::u32_at(data, 8) == pages::PAGE_VERSION,
        pages::directory(data, file_length)->Ok_0.len() == le::u32_at(data, 12),
        16 + 40 * le::u32_at(data, 12) <= data.len(),
        forall|at: int|
            0 <= at < le::u32_at(data, 12) ==> #[trigger] is_sound(
                data,
                le::u32_at(data, 12) as nat,
                pages::directory(data, file_length)->Ok_0,
                file_length,
                at,
            ),
{
    let count = le::u32_at(data, 12) as nat;
    lemma_sound_entries(data, count, count, file_length);
}

/// Members that are read for buckets are those of every bucket, bucket by bucket.
pub proof fn law_every_bucket_is_looked_up(
    file: Seq<u8>,
    list: Seq<PageDescriptor>,
    keys: Seq<BucketKey>,
    upto: nat,
)
    requires
        pages::lookups(file, list, keys, upto) is Ok,
        upto <= keys.len(),
    ensures
        forall|i: int|
            0 <= i < upto ==> pages::lookup(file, list, #[trigger] keys[i]) is Ok,
        pages::lookups(file, list, keys, upto)->Ok_0 == keys.take(upto as int).fold_left(
            Seq::<u64>::empty(),
            |found: Seq<u64>, key: BucketKey| found + pages::lookup(file, list, key)->Ok_0,
        ),
    decreases upto,
{
    let part = keys.take(upto as int);
    if upto > 0 {
        law_every_bucket_is_looked_up(file, list, keys, (upto - 1) as nat);
        assert(part.drop_last() =~= keys.take(upto - 1));
        assert(part.last() == keys[upto - 1]);
    }
}

} // verus!
