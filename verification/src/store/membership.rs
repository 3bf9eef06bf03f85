//! Bucket memberships: which item falls into which bucket.
//!
//! A membership is the triple of a band, a band hash and the key of an item
//! that has this hash in this band. The buckets of an index are its memberships
//! in order, cut wherever the band or the hash changes.

use vstd::prelude::*;

use crate::format::buckets;
use crate::format::buckets::{Bucket, BucketKey};
use crate::order;

verus! {

/// The bucket that a membership belongs to.
pub open spec fn bucket_of(record: (u32, u64, u64)) -> BucketKey {
    BucketKey { band: record.0, hash: record.1 }
}

/// The lexicographic order of memberships.
pub open spec fn precedes(left: (u32, u64, u64), right: (u32, u64, u64)) -> bool {
    left.0 < right.0 || (left.0 == right.0 && (left.1 < right.1 || (left.1 == right.1 && left.2
        <= right.2)))
}

/// The memberships are in lexicographic order.
pub open spec fn arranged(records: Seq<(u32, u64, u64)>) -> bool {
    forall|i: int, j: int|
        0 <= i < j < records.len() ==> precedes(#[trigger] records[i], #[trigger] records[j])
}

/// The first sequence has the memberships of the second, in lexicographic
/// order.
pub open spec fn is_arrangement(
    records: Seq<(u32, u64, u64)>,
    of: Seq<(u32, u64, u64)>,
) -> bool {
    arranged(records) && records.to_multiset() == of.to_multiset()
}

/// Calls `sort_unstable` on a slice of integer triples. The contract says that
/// it arranges the same triples in lexicographic order.
#[verifier::external_body]
pub(crate) fn sort(records: &mut Vec<(u32, u64, u64)>)
    ensures
        arranged(final(records)@),
        final(records)@.to_multiset() == old(records)@.to_multiset(),
{
    records.sort_unstable();
}

/// Memberships have only one arrangement in lexicographic order.
pub proof fn law_arrangement_is_unique(
    left: Seq<(u32, u64, u64)>,
    right: Seq<(u32, u64, u64)>,
)
    requires
        arranged(left),
        arranged(right),
        left.to_multiset() == right.to_multiset(),
    ensures
        left == right,
    decreases left.len(),
{
    order::lemma_same_multiset_same_set(left, right);
    if left.len() == 0 {
        assert(left =~= right);
    } else {
        let n = left.len() - 1;
        assert(left.to_set().contains(left[n]));
        assert(right.to_set().contains(left[n]));
        assert(right.to_set().contains(right[n]));
        assert(left.to_set().contains(right[n]));
        let i = choose|i: int| 0 <= i < right.len() && right[i] == left[n];
        let j = choose|j: int| 0 <= j < left.len() && left[j] == right[n];
        assert(i < n ==> precedes(right[i], right[n]));
        assert(j < n ==> precedes(left[j], left[n]));
        left.to_multiset_ensures();
        right.to_multiset_ensures();
        assert(left[n] == right[n]);
        assert(left.remove(n) =~= left.drop_last());
        assert(right.remove(n) =~= right.drop_last());
        law_arrangement_is_unique(left.drop_last(), right.drop_last());
        assert(left =~= left.drop_last().push(left[n]));
        assert(right =~= right.drop_last().push(right[n]));
    }
}

/// The memberships in lexicographic order.
pub open spec fn in_order(records: Seq<(u32, u64, u64)>) -> Seq<(u32, u64, u64)> {
    choose|other: Seq<(u32, u64, u64)>| is_arrangement(other, records)
}

/// Where a membership belongs among memberships that are in order.
proof fn place(records: Seq<(u32, u64, u64)>, record: (u32, u64, u64)) -> (at: int)
    requires
        arranged(records),
    ensures
        0 <= at <= records.len(),
        forall|i: int| 0 <= i < at ==> precedes(#[trigger] records[i], record),
        forall|i: int| at <= i < records.len() ==> precedes(record, #[trigger] records[i]),
    decreases records.len(),
{
    if records.len() == 0 {
        0
    } else if precedes(records.last(), record) {
        assert forall|i: int| 0 <= i < records.len() implies precedes(
            #[trigger] records[i],
            record,
        ) by {
            assert(i < records.len() - 1 ==> precedes(records[i], records[records.len() - 1]));
        }
        records.len() as int
    } else {
        let front = records.drop_last();
        let at = place(front, record);
        assert forall|i: int| 0 <= i < at implies precedes(#[trigger] records[i], record) by {
            assert(front[i] == records[i]);
        }
        assert forall|i: int| at <= i < records.len() implies precedes(
            record,
            #[trigger] records[i],
        ) by {
            if i < front.len() {
                assert(front[i] == records[i]);
            }
        }
        at
    }
}

proof fn arrange(records: Seq<(u32, u64, u64)>) -> (other: Seq<(u32, u64, u64)>)
    ensures
        is_arrangement(other, records),
    decreases records.len(),
{
    if records.len() == 0 {
        records
    } else {
        let front = arrange(records.drop_last());
        let record = records.last();
        let at = place(front, record);
        let other = front.insert(at, record);
        front.to_multiset_ensures();
        vstd::seq_lib::to_multiset_insert(front, at, record);
        vstd::seq_lib::to_multiset_build(records.drop_last(), record);
        assert(records.drop_last().push(record) =~= records);
        assert forall|i: int, j: int| 0 <= i < j < other.len() implies precedes(
            #[trigger] other[i],
            #[trigger] other[j],
        ) by {
            if i < at {
                assert(other[i] == front[i]);
            } else if i > at {
                assert(other[i] == front[i - 1]);
            }
            if j < at {
                assert(other[j] == front[j]);
            } else if j > at {
                assert(other[j] == front[j - 1]);
            }
        }
        other
    }
}

/// Every sequence of memberships has exactly one arrangement in lexicographic
/// order.
pub proof fn law_in_order(records: Seq<(u32, u64, u64)>)
    ensures
        is_arrangement(in_order(records), records),
        forall|other: Seq<(u32, u64, u64)>| #[trigger]
            is_arrangement(other, records) ==> other == in_order(records),
{
    let witness = arrange(records);
    assert(is_arrangement(witness, records));
    assert forall|other: Seq<(u32, u64, u64)>| #[trigger]
        is_arrangement(other, records) implies other == in_order(records) by {
        law_arrangement_is_unique(other, in_order(records));
    }
}

/// The memberships of one item.
pub open spec fn item_memberships(key: u64, row: Seq<u64>) -> Seq<(u32, u64, u64)> {
    Seq::new(row.len(), |band: int| (band as u32, row[band], key))
}

/// The memberships of items with these keys and these rows of band hashes, item
/// by item.
pub open spec fn memberships(keys: Seq<u64>, rows: Seq<Seq<u64>>) -> Seq<(u32, u64, u64)>
    decreases rows.len(),
{
    if rows.len() == 0 {
        Seq::empty()
    } else {
        memberships(keys, rows.drop_last()) + item_memberships(
            keys[rows.len() - 1],
            rows.last(),
        )
    }
}

/// The buckets of memberships in lexicographic order.
pub open spec fn grouped(records: Seq<(u32, u64, u64)>) -> Seq<Bucket>
    decreases records.len(),
{
    if records.len() == 0 {
        Seq::empty()
    } else {
        let front = grouped(records.drop_last());
        let record = records.last();
        if front.len() > 0 && front.last().key == bucket_of(record) {
            front.drop_last().push(
                Bucket { key: front.last().key, members: front.last().members.push(record.2) },
            )
        } else {
            front.push(Bucket { key: bucket_of(record), members: seq![record.2] })
        }
    }
}

/// A bucket with this key holds this member.
pub open spec fn holds(all: Seq<Bucket>, key: BucketKey, member: u64) -> bool {
    exists|i: int|
        0 <= i < all.len() && (#[trigger] all[i]).key == key && all[i].members.contains(member)
}

/// No bucket is empty.
pub open spec fn inhabited(all: Seq<Bucket>) -> bool {
    forall|i: int| 0 <= i < all.len() ==> (#[trigger] all[i]).members.len() > 0
}

proof fn lemma_grouped_last(records: Seq<(u32, u64, u64)>)
    requires
        records.len() > 0,
    ensures
        grouped(records).len() > 0,
        grouped(records).last().key == bucket_of(records.last()),
{
}

/// Grouping loses no membership and invents none, and it keeps the order.
pub proof fn law_grouping_keeps_memberships(records: Seq<(u32, u64, u64)>)
    requires
        arranged(records),
    ensures
        buckets::ascending(buckets::bucket_keys(grouped(records))),
        inhabited(grouped(records)),
        forall|record: (u32, u64, u64)|
            records.contains(record) <==> #[trigger] holds(
                grouped(records),
                bucket_of(record),
                record.2,
            ),
    decreases records.len(),
{
    let all = grouped(records);
    if records.len() == 0 {
    } else {
        let front = grouped(records.drop_last());
        let last = records.last();
        law_grouping_keeps_memberships(records.drop_last());
        if records.len() > 1 {
            lemma_grouped_last(records.drop_last());
            assert(precedes(records[records.len() - 2], records[records.len() - 1]));
        }
        let joins = front.len() > 0 && front.last().key == bucket_of(last);
        let n = all.len() - 1;
        assert(all[n].members[all[n].members.len() - 1] == last.2);
        assert forall|i: int, j: int| 0 <= i < j < all.len() implies (
        #[trigger] buckets::bucket_keys(all)[i]).before(
            #[trigger] buckets::bucket_keys(all)[j],
        ) by {
            let keys = buckets::bucket_keys(front);
            if joins || j < n {
                assert(keys[i].before(keys[j]));
            } else if i < n - 1 {
                assert(keys[i].before(keys[n - 1]));
            }
        }
        assert forall|record: (u32, u64, u64)| records.contains(record) implies #[trigger] holds(
            all,
            bucket_of(record),
            record.2,
        ) by {
            if record == last {
                assert(all[n].key == bucket_of(last) && all[n].members.contains(last.2));
            } else {
                let at = choose|at: int| 0 <= at < records.len() && records[at] == record;
                assert(records.drop_last()[at] == record);
                assert(records.drop_last().contains(record));
                assert(holds(front, bucket_of(record), record.2));
                let i = choose|i: int|
                    0 <= i < front.len() && (#[trigger] front[i]).key == bucket_of(record)
                        && front[i].members.contains(record.2);
                let m = choose|m: int|
                    0 <= m < front[i].members.len() && front[i].members[m] == record.2;
                assert(all[i].key == front[i].key);
                assert(all[i].members[m] == record.2);
            }
        }
        assert forall|record: (u32, u64, u64)| #[trigger]
            holds(all, bucket_of(record), record.2) implies records.contains(record) by {
            let i = choose|i: int|
                0 <= i < all.len() && (#[trigger] all[i]).key == bucket_of(record)
                    && all[i].members.contains(record.2);
            let m = choose|m: int|
                0 <= m < all[i].members.len() && all[i].members[m] == record.2;
            if i == n && m == all[n].members.len() - 1 {
                assert(record == last);
                assert(records[records.len() - 1] == record);
            } else {
                assert(front[i].key == all[i].key);
                assert(front[i].members[m] == record.2);
                assert(holds(front, bucket_of(record), record.2));
                assert(records.drop_last().contains(record));
                let at = choose|at: int|
                    0 <= at < records.drop_last().len() && records.drop_last()[at] == record;
                assert(records[at] == record);
            }
        }
    }
}

/// Grouping spreads the memberships over the buckets.
pub(crate) proof fn lemma_grouped_size(records: Seq<(u32, u64, u64)>)
    ensures
        grouped(records).len() <= records.len(),
        buckets::all_members_bytes(grouped(records)).len() == 8 * records.len(),
        forall|i: int|
            0 <= i < grouped(records).len() ==> (#[trigger] grouped(records)[i]).members.len()
                <= records.len(),
    decreases records.len(),
{
    let all = grouped(records);
    if records.len() > 0 {
        let front = grouped(records.drop_last());
        let record = records.last();
        lemma_grouped_size(records.drop_last());
        if front.len() > 0 && front.last().key == bucket_of(record) {
            assert(all.drop_last() =~= front.drop_last());
            buckets::lemma_members_bytes_len(front.last().members);
            buckets::lemma_members_bytes_len(all.last().members);
        } else {
            assert(all.drop_last() =~= front);
            buckets::lemma_members_bytes_len(all.last().members);
        }
        assert forall|i: int| 0 <= i < all.len() implies (#[trigger] all[i]).members.len()
            <= records.len() by {
            if i < front.len() {
                assert(front[i].members.len() <= records.len() - 1);
            }
        }
    }
}

pub(crate) proof fn lemma_memberships_len(keys: Seq<u64>, rows: Seq<Seq<u64>>, bands: nat)
    requires
        forall|i: int| 0 <= i < rows.len() ==> (#[trigger] rows[i]).len() == bands,
    ensures
        memberships(keys, rows).len() == rows.len() * bands,
    decreases rows.len(),
{
    if rows.len() > 0 {
        let front = rows.drop_last();
        assert forall|i: int| 0 <= i < front.len() implies (#[trigger] front[i]).len()
            == bands by {
            assert(front[i] == rows[i]);
        }
        lemma_memberships_len(keys, front, bands);
        assert(rows.last() == rows[rows.len() - 1]);
        assert(rows.len() * bands == (rows.len() - 1) * bands + bands) by (nonlinear_arith);
    } else {
        assert(rows.len() * bands == 0) by (nonlinear_arith)
            requires
                rows.len() == 0,
        ;
    }
}

/// An item with this key has this hash in this band.
pub open spec fn has_membership(
    keys: Seq<u64>,
    rows: Seq<Seq<u64>>,
    record: (u32, u64, u64),
) -> bool {
    exists|i: int|
        0 <= i < rows.len() && record.0 < (#[trigger] rows[i]).len() && rows[i][record.0 as int]
            == record.1 && keys[i] == record.2
}

/// The memberships are those of the items.
pub(crate) proof fn lemma_memberships_contain(
    keys: Seq<u64>,
    rows: Seq<Seq<u64>>,
    record: (u32, u64, u64),
)
    requires
        forall|i: int| 0 <= i < rows.len() ==> (#[trigger] rows[i]).len() <= u32::MAX,
    ensures
        memberships(keys, rows).contains(record) <==> has_membership(keys, rows, record),
    decreases rows.len(),
{
    let all = memberships(keys, rows);
    if rows.len() > 0 {
        let front = rows.drop_last();
        let n = rows.len() - 1;
        let before = memberships(keys, front);
        let own = item_memberships(keys[n], rows.last());
        assert forall|i: int| 0 <= i < front.len() implies (#[trigger] front[i]).len()
            <= u32::MAX by {
            assert(front[i] == rows[i]);
        }
        lemma_memberships_contain(keys, front, record);
        assert(rows.last() == rows[n]);
        if all.contains(record) {
            let at = choose|at: int| 0 <= at < all.len() && all[at] == record;
            if at < before.len() {
                assert(before[at] == record);
                let i = choose|i: int|
                    0 <= i < front.len() && record.0 < (#[trigger] front[i]).len()
                        && front[i][record.0 as int] == record.1 && keys[i] == record.2;
                assert(rows[i] == front[i]);
            } else {
                assert(own[at - before.len()] == record);
                assert(rows[n][record.0 as int] == record.1);
            }
        }
        if has_membership(keys, rows, record) {
            let i = choose|i: int|
                0 <= i < rows.len() && record.0 < (#[trigger] rows[i]).len()
                    && rows[i][record.0 as int] == record.1 && keys[i] == record.2;
            if i < n {
                assert(front[i] == rows[i]);
                let at = choose|at: int| 0 <= at < before.len() && before[at] == record;
                assert(all[at] == record);
            } else {
                assert(own[record.0 as int] == record);
                assert(all[before.len() + record.0] == record);
            }
        }
    }
}

/// The positions of `count` items.
pub open spec fn positions(count: nat) -> Seq<u64> {
    Seq::new(count, |i: int| i as u64)
}

/// A membership with the key of an item in place of its position.
pub open spec fn named(record: (u32, u64, u64), keys: Seq<u64>) -> (u32, u64, u64) {
    (record.0, record.1, keys[record.2 as int])
}

/// Memberships with keys in place of positions.
pub open spec fn all_named(records: Seq<(u32, u64, u64)>, keys: Seq<u64>) -> Seq<
    (u32, u64, u64),
> {
    Seq::new(records.len(), |i: int| named(records[i], keys))
}

/// A bucket with keys in place of positions.
pub open spec fn named_bucket(bucket: Bucket, keys: Seq<u64>) -> Bucket {
    Bucket {
        key: bucket.key,
        members: Seq::new(bucket.members.len(), |i: int| keys[bucket.members[i] as int]),
    }
}

/// Buckets with keys in place of positions.
pub open spec fn named_buckets(all: Seq<Bucket>, keys: Seq<u64>) -> Seq<Bucket> {
    Seq::new(all.len(), |i: int| named_bucket(all[i], keys))
}

pub(crate) proof fn lemma_grouped_named(records: Seq<(u32, u64, u64)>, keys: Seq<u64>)
    ensures
        grouped(all_named(records, keys)) == named_buckets(grouped(records), keys),
    decreases records.len(),
{
    let renamed = all_named(records, keys);
    if records.len() == 0 {
        assert(grouped(renamed) =~= named_buckets(grouped(records), keys));
    } else {
        lemma_grouped_named(records.drop_last(), keys);
        assert(renamed.drop_last() =~= all_named(records.drop_last(), keys));
        let front = grouped(records.drop_last());
        let record = records.last();
        let goal = named_buckets(grouped(records), keys);
        if front.len() > 0 && front.last().key == bucket_of(record) {
            assert(named_buckets(front, keys).last() == named_bucket(front.last(), keys));
            assert(named_bucket(front.last(), keys).members.push(keys[record.2 as int])
                =~= goal.last().members);
            assert(grouped(renamed) =~= goal);
        } else {
            assert(seq![keys[record.2 as int]] =~= goal.last().members);
            assert(grouped(renamed) =~= goal);
        }
    }
}

proof fn lemma_named_multiset(
    left: Seq<(u32, u64, u64)>,
    right: Seq<(u32, u64, u64)>,
    keys: Seq<u64>,
)
    requires
        left.to_multiset() == right.to_multiset(),
    ensures
        all_named(left, keys).to_multiset() == all_named(right, keys).to_multiset(),
    decreases left.len(),
{
    order::lemma_same_multiset_same_set(left, right);
    left.to_multiset_ensures();
    right.to_multiset_ensures();
    if left.len() == 0 {
        assert(all_named(left, keys) =~= all_named(right, keys));
    } else {
        let n = left.len() - 1;
        assert(left.to_set().contains(left[n]));
        assert(right.to_set().contains(left[n]));
        let at = choose|at: int| 0 <= at < right.len() && right[at] == left[n];
        lemma_named_multiset(left.remove(n), right.remove(at), keys);
        let all_left = all_named(left, keys);
        let all_right = all_named(right, keys);
        all_left.to_multiset_ensures();
        all_right.to_multiset_ensures();
        assert(all_left.remove(n) =~= all_named(left.remove(n), keys));
        assert(all_right.remove(at) =~= all_named(right.remove(at), keys));
        assert(all_left.contains(all_left[n]));
        assert(all_right.contains(all_right[at]));
        assert(all_left.to_multiset() =~= all_left.remove(n).to_multiset().insert(all_left[n]));
        assert(all_right.to_multiset() =~= all_right.remove(at).to_multiset().insert(
            all_right[at],
        ));
    }
}

proof fn lemma_memberships_named(keys: Seq<u64>, count: nat, rows: Seq<Seq<u64>>)
    requires
        rows.len() <= count == keys.len(),
        keys.len() <= u64::MAX,
    ensures
        all_named(memberships(positions(count), rows), keys) == memberships(keys, rows),
        forall|i: int|
            0 <= i < memberships(positions(count), rows).len() ==> (#[trigger] memberships(
                positions(count),
                rows,
            )[i]).2 < rows.len(),
    decreases rows.len(),
{
    let all = memberships(positions(count), rows);
    if rows.len() > 0 {
        lemma_memberships_named(keys, count, rows.drop_last());
        let front = memberships(positions(count), rows.drop_last());
        assert forall|i: int| 0 <= i < all.len() implies (#[trigger] all[i]).2 < rows.len() by {
            if i < front.len() {
                assert(front[i].2 < rows.drop_last().len());
            }
        }
    }
    assert(all_named(all, keys) =~= memberships(keys, rows));
}

/// The buckets of items, with the members of each in ascending order.
pub open spec fn buckets_by_key(keys: Seq<u64>, rows: Seq<Seq<u64>>) -> Seq<Bucket> {
    grouped(in_order(memberships(keys, rows)))
}

/// The buckets of items, with the members of each in the order of the items.
pub open spec fn buckets_by_position(keys: Seq<u64>, rows: Seq<Seq<u64>>) -> Seq<Bucket> {
    named_buckets(grouped(in_order(memberships(positions(keys.len()), rows))), keys)
}

/// Within each bucket the keys of the items ascend.
pub open spec fn ascends_within_buckets(keys: Seq<u64>, rows: Seq<Seq<u64>>) -> bool {
    forall|i: int, j: int, band: int|
        #![trigger rows[i][band], rows[j][band]]
        0 <= i < j < rows.len() && 0 <= band < rows[i].len() && band < rows[j].len()
            && rows[i][band] == rows[j][band] ==> keys[i] <= keys[j]
}

/// Where the keys of the items ascend within each bucket, both orders give the same
/// buckets.
pub proof fn law_ascending_keys_follow_positions(keys: Seq<u64>, rows: Seq<Seq<u64>>)
    requires
        ascends_within_buckets(keys, rows),
        keys.len() == rows.len(),
        keys.len() <= u64::MAX,
        forall|i: int| 0 <= i < rows.len() ==> (#[trigger] rows[i]).len() <= u32::MAX,
    ensures
        buckets_by_key(keys, rows) == buckets_by_position(keys, rows),
{
    let all = memberships(positions(keys.len()), rows);
    let by_position = in_order(all);
    let by_key = in_order(memberships(keys, rows));
    law_in_order(all);
    law_in_order(memberships(keys, rows));
    let renamed = all_named(by_position, keys);
    lemma_memberships_named(keys, keys.len(), rows);
    lemma_named_multiset(by_position, all, keys);
    order::lemma_same_multiset_same_set(by_position, all);
    assert forall|i: int| 0 <= i < by_position.len() implies {
        let record = #[trigger] by_position[i];
        &&& record.2 < keys.len()
        &&& record.0 < rows[record.2 as int].len()
        &&& rows[record.2 as int][record.0 as int] == record.1
    } by {
        let record = by_position[i];
        assert(by_position.to_set().contains(record));
        assert(all.to_set().contains(record));
        lemma_memberships_contain(positions(keys.len()), rows, record);
        let at = choose|at: int|
            0 <= at < rows.len() && record.0 < (#[trigger] rows[at]).len()
                && rows[at][record.0 as int] == record.1 && positions(keys.len())[at]
                == record.2;
        assert(record.2 == at);
    }
    assert forall|i: int, j: int| 0 <= i < j < renamed.len() implies precedes(
        #[trigger] renamed[i],
        #[trigger] renamed[j],
    ) by {
        assert(precedes(by_position[i], by_position[j]));
        let left = by_position[i].2 as int;
        let right = by_position[j].2 as int;
        let band = by_position[i].0 as int;
        if by_position[i].0 == by_position[j].0 && by_position[i].1 == by_position[j].1 && left
            < right {
            assert(rows[left][band] == rows[right][band]);
            assert(keys[left] <= keys[right]);
        }
    }
    law_arrangement_is_unique(renamed, by_key);
    lemma_grouped_named(by_position, keys);
}

/// A bucket with its members.
#[derive(Debug, Clone, PartialEq, Eq)]
pub struct OwnedBucket {
    /// The bucket identity.
    pub key: BucketKey,
    /// The member keys.
    pub members: Vec<u64>,
}

impl View for OwnedBucket {
    type V = Bucket;

    open spec fn view(&self) -> Bucket {
        Bucket { key: self.key, members: self.members@ }
    }
}

/// What each of the buckets holds.
pub open spec fn owned_views(all: Seq<OwnedBucket>) -> Seq<Bucket> {
    Seq::new(all.len(), |i: int| all[i]@)
}

/// Cut memberships in lexicographic order into buckets.
pub fn group(records: &[(u32, u64, u64)]) -> (all: Vec<OwnedBucket>)
    ensures
        owned_views(all@) == grouped(records@),
{
    let mut all: Vec<OwnedBucket> = Vec::new();
    let mut index: usize = 0;
    assert(owned_views(all@) =~= grouped(records@.take(0)));
    while index < records.len()
        invariant
            index <= records@.len(),
            owned_views(all@) == grouped(records@.take(index as int)),
        decreases records@.len() - index,
    {
        let record = records[index];
        let ghost front = grouped(records@.take(index as int));
        let ghost before = all@;
        proof {
            assert(records@.take(index + 1).drop_last() =~= records@.take(index as int));
            assert(records@.take(index + 1).last() == record);
            if before.len() > 0 {
                assert(front.last() == before.last()@);
            }
        }
        let joins = all.len() > 0 && all[all.len() - 1].key.band == record.0 && all[all.len()
            - 1].key.hash == record.1;
        if joins {
            let mut bucket = match all.pop() {
                Some(bucket) => bucket,
                None => OwnedBucket {
                    key: BucketKey { band: record.0, hash: record.1 },
                    members: Vec::new(),
                },
            };
            bucket.members.push(record.2);
            all.push(bucket);
            assert(owned_views(all@) =~= grouped(records@.take(index + 1)));
        } else {
            let mut members: Vec<u64> = Vec::new();
            members.push(record.2);
            all.push(OwnedBucket { key: BucketKey { band: record.0, hash: record.1 }, members });
            assert(members@ =~= seq![record.2]);
            assert(owned_views(all@) =~= grouped(records@.take(index + 1)));
        }
        index = index + 1;
    }
    assert(records@.take(index as int) =~= records@);
    all
}

/// What each of the rows holds.
pub open spec fn row_views(rows: Seq<Vec<u64>>) -> Seq<Seq<u64>> {
    Seq::new(rows.len(), |i: int| rows[i]@)
}

/// Append the memberships of one item.
pub fn push_item(records: &mut Vec<(u32, u64, u64)>, key: u64, row: &Vec<u64>)
    requires
        row@.len() <= u32::MAX,
    ensures
        final(records)@ == old(records)@ + item_memberships(key, row@),
{
    let ghost before = records@;
    let mut band: usize = 0;
    while band < row.len()
        invariant
            band <= row@.len() <= u32::MAX,
            records@ =~= before + item_memberships(key, row@).take(band as int),
        decreases row@.len() - band,
    {
        records.push((band as u32, row[band], key));
        band = band + 1;
    }
    assert(item_memberships(key, row@).take(band as int) =~= item_memberships(key, row@));
}

/// The buckets of items, with the members of each in the order of the items.
pub fn bucket_items(keys: &Vec<u64>, rows: &Vec<Vec<u64>>) -> (all: Vec<OwnedBucket>)
    requires
        keys@.len() == rows@.len(),
        forall|i: int| 0 <= i < rows@.len() ==> (#[trigger] rows@[i])@.len() <= u32::MAX,
    ensures
        owned_views(all@) == buckets_by_position(keys@, row_views(rows@)),
{
    let ghost all_rows = row_views(rows@);
    let ghost items = memberships(positions(keys@.len()), all_rows);
    let mut records: Vec<(u32, u64, u64)> = Vec::new();
    let mut item: usize = 0;
    assert(all_rows.take(0) =~= Seq::empty());
    while item < rows.len()
        invariant
            item <= rows@.len() == keys@.len(),
            all_rows == row_views(rows@),
            forall|i: int| 0 <= i < rows@.len() ==> (#[trigger] rows@[i])@.len() <= u32::MAX,
            records@ == memberships(positions(keys@.len()), all_rows.take(item as int)),
        decreases rows@.len() - item,
    {
        proof {
            let longer = all_rows.take(item + 1);
            assert(longer.drop_last() =~= all_rows.take(item as int));
            assert(longer.last() == rows@[item as int]@);
        }
        push_item(&mut records, item as u64, &rows[item]);
        item = item + 1;
    }
    assert(all_rows.take(item as int) =~= all_rows);
    sort(&mut records);
    let ghost by_position = records@;
    proof {
        lemma_memberships_named(keys@, keys@.len(), all_rows);
        order::lemma_same_multiset_same_set(by_position, items);
        assert forall|i: int| 0 <= i < by_position.len() implies (#[trigger] by_position[i]).2
            < keys@.len() by {
            assert(by_position.to_set().contains(by_position[i]));
            assert(items.to_set().contains(by_position[i]));
        }
    }
    let mut renamed: Vec<(u32, u64, u64)> = Vec::new();
    let mut index: usize = 0;
    while index < records.len()
        invariant
            index <= records@.len(),
            records@ == by_position,
            keys@.len() <= usize::MAX,
            forall|i: int| 0 <= i < by_position.len() ==> (#[trigger] by_position[i]).2 < keys@.len(),
            renamed@ =~= all_named(by_position, keys@).take(index as int),
        decreases records@.len() - index,
    {
        let record = records[index];
        assert(record == by_position[index as int]);
        renamed.push((record.0, record.1, keys[record.2 as usize]));
        index = index + 1;
    }
    assert(renamed@ =~= all_named(by_position, keys@));
    let all = group(renamed.as_slice());
    proof {
        lemma_grouped_named(by_position, keys@);
        assert(is_arrangement(by_position, items));
        law_in_order(items);
    }
    all
}

proof fn lemma_in_order_contains(records: Seq<(u32, u64, u64)>, record: (u32, u64, u64))
    ensures
        in_order(records).contains(record) == records.contains(record),
{
    law_in_order(records);
    order::lemma_same_multiset_same_set(in_order(records), records);
    assert(in_order(records).to_set().contains(record) == records.to_set().contains(record));
}

/// The buckets have ascending keys, none is empty, and a key is a member of
/// the bucket of a band and a hash exactly where an item with this key has this
/// hash in this band.
pub proof fn law_buckets_by_key_hold_the_items(keys: Seq<u64>, rows: Seq<Seq<u64>>)
    requires
        forall|i: int| 0 <= i < rows.len() ==> (#[trigger] rows[i]).len() <= u32::MAX,
    ensures
        buckets::ascending(buckets::bucket_keys(buckets_by_key(keys, rows))),
        inhabited(buckets_by_key(keys, rows)),
        forall|record: (u32, u64, u64)| #[trigger]
            holds(buckets_by_key(keys, rows), bucket_of(record), record.2) <==> has_membership(
                keys,
                rows,
                record,
            ),
{
    let items = memberships(keys, rows);
    law_in_order(items);
    law_grouping_keeps_memberships(in_order(items));
    assert forall|record: (u32, u64, u64)| #[trigger]
        holds(buckets_by_key(keys, rows), bucket_of(record), record.2) <==> has_membership(
            keys,
            rows,
            record,
        ) by {
        lemma_in_order_contains(items, record);
        lemma_memberships_contain(keys, rows, record);
    }
}

/// As for the buckets by key: the order of the members makes no difference to
/// what the buckets hold.
pub proof fn law_buckets_by_position_hold_the_items(keys: Seq<u64>, rows: Seq<Seq<u64>>)
    requires
        keys.len() == rows.len(),
        keys.len() <= u64::MAX,
        forall|i: int| 0 <= i < rows.len() ==> (#[trigger] rows[i]).len() <= u32::MAX,
    ensures
        buckets::ascending(buckets::bucket_keys(buckets_by_position(keys, rows))),
        inhabited(buckets_by_position(keys, rows)),
        forall|record: (u32, u64, u64)| #[trigger]
            holds(buckets_by_position(keys, rows), bucket_of(record), record.2)
                <==> has_membership(keys, rows, record),
{
    let places = positions(keys.len());
    law_buckets_by_key_hold_the_items(places, rows);
    let plain = buckets_by_key(places, rows);
    let all = buckets_by_position(keys, rows);
    assert(buckets::bucket_keys(all) =~= buckets::bucket_keys(plain));
    assert forall|i: int| 0 <= i < all.len() implies (#[trigger] all[i]).members.len() > 0 by {
        assert(plain[i].members.len() > 0);
    }
    assert forall|record: (u32, u64, u64)| #[trigger]
        holds(all, bucket_of(record), record.2) <==> has_membership(keys, rows, record) by {
        let key = bucket_of(record);
        if holds(all, key, record.2) {
            let i = choose|i: int|
                0 <= i < all.len() && (#[trigger] all[i]).key == key && all[i].members.contains(
                    record.2,
                );
            let m = choose|m: int|
                0 <= m < all[i].members.len() && all[i].members[m] == record.2;
            let place = plain[i].members[m];
            let found = (record.0, record.1, place);
            assert(plain[i].key == bucket_of(found) && plain[i].members.contains(place));
            assert(holds(plain, bucket_of(found), found.2));
            assert(has_membership(places, rows, found));
            let item = choose|item: int|
                0 <= item < rows.len() && found.0 < (#[trigger] rows[item]).len()
                    && rows[item][found.0 as int] == found.1 && places[item] == found.2;
            assert(keys[item] == record.2);
        }
        if has_membership(keys, rows, record) {
            let item = choose|item: int|
                0 <= item < rows.len() && record.0 < (#[trigger] rows[item]).len()
                    && rows[item][record.0 as int] == record.1 && keys[item] == record.2;
            let found = (record.0, record.1, item as u64);
            assert(places[item] == found.2);
            assert(has_membership(places, rows, found));
            assert(holds(plain, bucket_of(found), found.2));
            let i = choose|i: int|
                0 <= i < plain.len() && (#[trigger] plain[i]).key == key
                    && plain[i].members.contains(found.2);
            let m = choose|m: int|
                0 <= m < plain[i].members.len() && plain[i].members[m] == found.2;
            assert(all[i].key == key);
            assert(all[i].members[m] == record.2);
        }
    }
}

/// Every item is a member of the bucket that its hash selects in each band.
pub proof fn law_every_item_is_in_its_buckets(
    keys: Seq<u64>,
    rows: Seq<Seq<u64>>,
    item: int,
    band: int,
)
    requires
        keys.len() == rows.len(),
        keys.len() <= u64::MAX,
        forall|i: int| 0 <= i < rows.len() ==> (#[trigger] rows[i]).len() <= u32::MAX,
        0 <= item < rows.len(),
        0 <= band < rows[item].len(),
    ensures
        exists|i: int|
            0 <= i < buckets_by_key(keys, rows).len() && (#[trigger] buckets_by_key(
                keys,
                rows,
            )[i]).key == (BucketKey { band: band as u32, hash: rows[item][band] })
                && buckets_by_key(keys, rows)[i].members.contains(keys[item]),
        exists|i: int|
            0 <= i < buckets_by_position(keys, rows).len() && (#[trigger] buckets_by_position(
                keys,
                rows,
            )[i]).key == (BucketKey { band: band as u32, hash: rows[item][band] })
                && buckets_by_position(keys, rows)[i].members.contains(keys[item]),
{
    let record = (band as u32, rows[item][band], keys[item]);
    law_buckets_by_key_hold_the_items(keys, rows);
    law_buckets_by_position_hold_the_items(keys, rows);
    assert(has_membership(keys, rows, record));
    assert(holds(buckets_by_key(keys, rows), bucket_of(record), record.2));
    assert(holds(buckets_by_position(keys, rows), bucket_of(record), record.2));
}

/// A bucket has no other members than the items that have its hash in its band.
pub proof fn law_buckets_have_no_other_members(
    keys: Seq<u64>,
    rows: Seq<Seq<u64>>,
    bucket: Bucket,
    member: int,
)
    requires
        keys.len() == rows.len(),
        keys.len() <= u64::MAX,
        forall|i: int| 0 <= i < rows.len() ==> (#[trigger] rows[i]).len() <= u32::MAX,
        buckets_by_key(keys, rows).contains(bucket) || buckets_by_position(keys, rows).contains(
            bucket,
        ),
        0 <= member < bucket.members.len(),
    ensures
        exists|k: int|
            0 <= k < rows.len() && bucket.key.band < (#[trigger] rows[k]).len()
                && rows[k][bucket.key.band as int] == bucket.key.hash && keys[k]
                == bucket.members[member],
{
    law_buckets_by_key_hold_the_items(keys, rows);
    law_buckets_by_position_hold_the_items(keys, rows);
    let own = (bucket.key.band, bucket.key.hash, bucket.members[member]);
    assert(bucket.members.contains(bucket.members[member]));
    assert(bucket_of(own) == bucket.key);
    if buckets_by_key(keys, rows).contains(bucket) {
        assert(holds(buckets_by_key(keys, rows), bucket_of(own), own.2));
    } else {
        assert(holds(buckets_by_position(keys, rows), bucket_of(own), own.2));
    }
    assert(has_membership(keys, rows, own));
}

/// Every row is read, in its place.
pub proof fn law_every_row_is_read(rows: Seq<Vec<u64>>)
    ensures
        row_views(rows).len() == rows.len(),
        forall|i: int| 0 <= i < rows.len() ==> #[trigger] row_views(rows)[i] == rows[i]@,
{
}


/// Every bucket is read, in its place.
pub proof fn law_every_bucket_is_read(all: Seq<OwnedBucket>)
    ensures
        owned_views(all).len() == all.len(),
        forall|i: int| 0 <= i < all.len() ==> #[trigger] owned_views(all)[i] == all[i]@,
{
}

} // verus!
