//! Buckets of keys, ordered by bucket identity.

use vstd::prelude::*;

use crate::format::buckets::BucketKey;
use crate::order;

verus! {

/// One bucket and its members.
#[derive(Debug)]
struct Bucket {
    key: BucketKey,
    members: Vec<u64>,
}

/// The members of buckets. The buckets are in ascending order and none is
/// empty; the members of each are in ascending order.
#[derive(Debug)]
pub struct BucketTable {
    buckets: Vec<Bucket>,
}

/// Position `at` divides increasing members into the smaller ones and the
/// others.
spec fn divides(members: Seq<u64>, member: u64, at: int) -> bool {
    &&& 0 <= at <= members.len()
    &&& forall|i: int| 0 <= i < at ==> #[trigger] members[i] < member
    &&& forall|i: int| at <= i < members.len() ==> member <= #[trigger] members[i]
}

fn member_position(members: &Vec<u64>, member: u64) -> (at: usize)
    requires
        order::increasing(members@),
    ensures
        divides(members@, member, at as int),
{
    let mut low: usize = 0;
    let mut high: usize = members.len();
    while low < high
        invariant
            low <= high <= members@.len(),
            order::increasing(members@),
            forall|i: int| 0 <= i < low ==> #[trigger] members@[i] < member,
            forall|i: int| high <= i < members@.len() ==> member <= #[trigger] members@[i],
        decreases high - low,
    {
        let middle: usize = low + (high - low) / 2;
        if members[middle] < member {
            low = middle + 1;
        } else {
            high = middle;
        }
    }
    low
}

impl BucketTable {
    /// The bucket holds the member.
    pub closed spec fn holds(&self, key: BucketKey, member: u64) -> bool {
        exists|i: int|
            0 <= i < self.buckets@.len() && (#[trigger] self.buckets@[i]).key == key
                && self.buckets@[i].members@.contains(member)
    }

    /// The bucket has a member.
    pub open spec fn occupied(&self, key: BucketKey) -> bool {
        exists|member: u64| #[trigger] self.holds(key, member)
    }

    /// The members of a bucket.
    pub open spec fn members(&self, key: BucketKey) -> Set<u64> {
        Set::new(|member: u64| self.holds(key, member))
    }

    /// Buckets and members are in order, and no bucket is empty.
    pub closed spec fn wf(&self) -> bool {
        &&& forall|i: int, j: int|
            0 <= i < j < self.buckets@.len() ==> (#[trigger] self.buckets@[i]).key.before(
                (#[trigger] self.buckets@[j]).key,
            )
        &&& forall|i: int|
            0 <= i < self.buckets@.len() ==> (#[trigger] self.buckets@[i]).members@.len() > 0
                && order::increasing(self.buckets@[i].members@)
    }

    /// A table without buckets.
    pub fn new() -> (table: BucketTable)
        ensures
            table.wf(),
            forall|key: BucketKey, member: u64| !#[trigger] table.holds(key, member),
    {
        BucketTable { buckets: Vec::new() }
    }

    /// Position `at` divides the buckets into the earlier ones and the others.
    spec fn divides(&self, key: BucketKey, at: int) -> bool {
        &&& 0 <= at <= self.buckets@.len()
        &&& forall|i: int| 0 <= i < at ==> (#[trigger] self.buckets@[i]).key.before(key)
        &&& forall|i: int|
            at <= i < self.buckets@.len() ==> !(#[trigger] self.buckets@[i]).key.before(key)
    }

    fn position(&self, key: BucketKey) -> (at: usize)
        requires
            self.wf(),
        ensures
            self.divides(key, at as int),
    {
        let mut low: usize = 0;
        let mut high: usize = self.buckets.len();
        while low < high
            invariant
                low <= high <= self.buckets@.len(),
                self.wf(),
                forall|i: int| 0 <= i < low ==> (#[trigger] self.buckets@[i]).key.before(key),
                forall|i: int|
                    high <= i < self.buckets@.len() ==> !(#[trigger] self.buckets@[i]).key.before(
                        key,
                    ),
            decreases high - low,
        {
            let middle: usize = low + (high - low) / 2;
            if self.buckets[middle].key.is_before(key) {
                low = middle + 1;
            } else {
                high = middle;
            }
        }
        low
    }

    /// Only the bucket at the dividing position can have the key.
    proof fn lemma_at(&self, key: BucketKey, at: int)
        requires
            self.wf(),
            self.divides(key, at),
        ensures
            forall|i: int|
                0 <= i < self.buckets@.len() && (#[trigger] self.buckets@[i]).key == key ==> i
                    == at,
            forall|i: int|
                at < i < self.buckets@.len() ==> key.before((#[trigger] self.buckets@[i]).key),
            at < self.buckets@.len() && self.buckets@[at].key != key ==> key.before(
                self.buckets@[at].key,
            ),
    {
        if at < self.buckets@.len() {
            let here = self.buckets@[at];
            assert(!here.key.before(key));
        }
        assert forall|i: int|
            at < i < self.buckets@.len() implies key.before((#[trigger] self.buckets@[i]).key) by {
            assert(self.buckets@[at].key.before(self.buckets@[i].key));
        }
    }

    /// The members of a bucket, in ascending order.
    pub fn read(&self, key: BucketKey) -> (members: Vec<u64>)
        requires
            self.wf(),
        ensures
            order::increasing(members@),
            forall|member: u64| #[trigger] members@.contains(member) <==> self.holds(key, member),
    {
        let at = self.position(key);
        proof {
            self.lemma_at(key, at as int);
        }
        if at < self.buckets.len() && self.buckets[at].key == key {
            let members = vstd::slice::slice_to_vec(self.buckets[at].members.as_slice());
            proof {
                let here = self.buckets@[at as int];
                assert forall|member: u64| #[trigger]
                    members@.contains(member) <==> self.holds(key, member) by {
                    if self.holds(key, member) {
                        let i = choose|i: int|
                            0 <= i < self.buckets@.len() && (#[trigger] self.buckets@[i]).key
                                == key && self.buckets@[i].members@.contains(member);
                        assert(i == at);
                    }
                }
            }
            members
        } else {
            Vec::new()
        }
    }

    /// Put a member into a bucket.
    pub fn put(&mut self, key: BucketKey, member: u64)
        requires
            old(self).wf(),
        ensures
            final(self).wf(),
            forall|k: BucketKey, m: u64| #[trigger]
                final(self).holds(k, m) <==> old(self).holds(k, m) || (k == key && m == member),
    {
        let at = self.position(key);
        let ghost before = self.buckets@;
        proof {
            self.lemma_at(key, at as int);
        }
        if at < self.buckets.len() && self.buckets[at].key == key {
            let place = member_position(&self.buckets[at].members, member);
            if place < self.buckets[at].members.len() && self.buckets[at].members[place] == member {
                assert(before[at as int].members@.contains(member));
                return;
            }
            let ghost old_members = before[at as int].members@;
            let mut bucket = self.buckets.remove(at);
            bucket.members.insert(place, member);
            let ghost grown = bucket;
            self.buckets.insert(at, bucket);
            proof {
                assert(grown.members@ =~= old_members.insert(place as int, member));
                assert(self.buckets@ =~= before.update(at as int, grown));
                lemma_grown(old_members, place as int, member);
                assert forall|k: BucketKey, m: u64| #[trigger]
                    self.holds(k, m) <==> old(self).holds(k, m) || (k == key && m == member) by {
                    lemma_updated(*old(self), *self, at as int, k, m);
                }
            }
        } else {
            let mut members: Vec<u64> = Vec::new();
            members.push(member);
            let bucket = Bucket { key, members };
            let ghost fresh = bucket;
            self.buckets.insert(at, bucket);
            proof {
                assert(self.buckets@ =~= before.insert(at as int, fresh));
                assert(fresh.members@[0] == member);
                assert(forall|m: u64| #[trigger] fresh.members@.contains(m) <==> m == member);
                assert forall|i: int, j: int| 0 <= i < j < self.buckets@.len() implies (
                #[trigger] self.buckets@[i]).key.before((#[trigger] self.buckets@[j]).key) by {
                    let from = if i < at { i } else { i - 1 };
                    let to = if j < at { j } else { j - 1 };
                    if i != at && j != at {
                        assert(before[from].key.before(before[to].key));
                    } else if i == at {
                        assert(key.before(before[to].key));
                    } else {
                        assert(before[from].key.before(key));
                    }
                }
                assert forall|i: int| 0 <= i < self.buckets@.len() implies (
                #[trigger] self.buckets@[i]).members@.len() > 0 && order::increasing(
                    self.buckets@[i].members@,
                ) by {
                    let from = if i < at { i } else { i - 1 };
                    if i != at {
                        assert(self.buckets@[i] == before[from]);
                    }
                }
                assert forall|k: BucketKey, m: u64| #[trigger]
                    self.holds(k, m) <==> old(self).holds(k, m) || (k == key && m == member) by {
                    lemma_inserted(*old(self), *self, at as int, fresh, k, m);
                }
            }
        }
    }

    /// The sizes belong to the occupied buckets, each bucket once.
    pub open spec fn are_sizes(&self, keys: Seq<BucketKey>, sizes: Seq<usize>) -> bool {
        &&& sizes.len() == keys.len()
        &&& keys.no_duplicates()
        &&& forall|key: BucketKey| keys.contains(key) <==> #[trigger] self.occupied(key)
        &&& forall|i: int|
            0 <= i < sizes.len() ==> (#[trigger] sizes[i]) == self.members(keys[i]).len()
    }

    /// The number of members of each bucket, in the order of the buckets.
    pub fn sizes(&self) -> (sizes: Vec<usize>)
        requires
            self.wf(),
        ensures
            exists|keys: Seq<BucketKey>| #[trigger] self.are_sizes(keys, sizes@),
    {
        let mut sizes: Vec<usize> = Vec::new();
        let mut index: usize = 0;
        while index < self.buckets.len()
            invariant
                index <= self.buckets@.len(),
                sizes@.len() == index,
                forall|i: int|
                    0 <= i < index ==> (#[trigger] sizes@[i]) == self.buckets@[i].members@.len(),
            decreases self.buckets@.len() - index,
        {
            sizes.push(self.buckets[index].members.len());
            index = index + 1;
        }
        proof {
            let keys = Seq::new(self.buckets@.len(), |i: int| self.buckets@[i].key);
            assert forall|i: int, j: int| 0 <= i < j < keys.len() implies keys[i] != keys[j] by {
                assert(self.buckets@[i].key.before(self.buckets@[j].key));
            }
            assert forall|key: BucketKey| keys.contains(key) <==> #[trigger] self.occupied(key) by {
                if keys.contains(key) {
                    let i = choose|i: int| 0 <= i < keys.len() && keys[i] == key;
                    let member = self.buckets@[i].members@[0];
                    assert(self.buckets@[i].members@.contains(member));
                    assert(self.holds(key, member));
                }
                if self.occupied(key) {
                    let member = choose|member: u64| #[trigger] self.holds(key, member);
                    let i = choose|i: int|
                        0 <= i < self.buckets@.len() && (#[trigger] self.buckets@[i]).key == key
                            && self.buckets@[i].members@.contains(member);
                    assert(keys[i] == key);
                }
            }
            assert forall|i: int| 0 <= i < sizes@.len() implies (#[trigger] sizes@[i])
                == self.members(keys[i]).len() by {
                let bucket = self.buckets@[i];
                assert forall|member: u64| self.holds(keys[i], member) <==> bucket.members@.contains(
                    member,
                ) by {
                    if self.holds(keys[i], member) {
                        let j = choose|j: int|
                            0 <= j < self.buckets@.len() && (#[trigger] self.buckets@[j]).key
                                == keys[i] && self.buckets@[j].members@.contains(member);
                        assert(j == i) by {
                            if j < i {
                                assert(self.buckets@[j].key.before(self.buckets@[i].key));
                            } else if i < j {
                                assert(self.buckets@[i].key.before(self.buckets@[j].key));
                            }
                        }
                    }
                }
                assert(self.members(keys[i]) =~= bucket.members@.to_set());
                assert(bucket.members@.no_duplicates());
                bucket.members@.unique_seq_to_set();
            }
            assert(self.are_sizes(keys, sizes@));
        }
        sizes
    }

    /// Take a member out of a bucket.
    pub fn take(&mut self, key: BucketKey, member: u64)
        requires
            old(self).wf(),
        ensures
            final(self).wf(),
            forall|k: BucketKey, m: u64| #[trigger]
                final(self).holds(k, m) <==> old(self).holds(k, m) && !(k == key && m == member),
    {
        let at = self.position(key);
        let ghost before = self.buckets@;
        proof {
            self.lemma_at(key, at as int);
        }
        if at >= self.buckets.len() || self.buckets[at].key != key {
            return;
        }
        let place = member_position(&self.buckets[at].members, member);
        let ghost old_members = before[at as int].members@;
        if place >= self.buckets[at].members.len() || self.buckets[at].members[place] != member {
            proof {
                if old_members.contains(member) {
                    let i = choose|i: int| 0 <= i < old_members.len() && old_members[i] == member;
                    assert(old_members[i] == member);
                    assert(place <= i);
                    assert(old_members[place as int] <= old_members[i]);
                    assert(false);
                }
            }
            return;
        }
        let mut bucket = self.buckets.remove(at);
        bucket.members.remove(place);
        proof {
            assert(bucket.members@ =~= old_members.remove(place as int));
            lemma_shrunk(old_members, place as int);
        }
        if bucket.members.len() == 0 {
            proof {
                assert(before =~= self.buckets@.insert(at as int, before[at as int]));
                assert forall|i: int, j: int| 0 <= i < j < self.buckets@.len() implies (
                #[trigger] self.buckets@[i]).key.before((#[trigger] self.buckets@[j]).key) by {
                    let from = if i < at { i } else { i + 1 };
                    let to = if j < at { j } else { j + 1 };
                    assert(before[from].key.before(before[to].key));
                }
                assert forall|i: int| 0 <= i < self.buckets@.len() implies (
                #[trigger] self.buckets@[i]).members@.len() > 0 && order::increasing(
                    self.buckets@[i].members@,
                ) by {
                    let from = if i < at { i } else { i + 1 };
                    assert(self.buckets@[i] == before[from]);
                }
                assert(old_members.len() == 1);
                assert forall|k: BucketKey, m: u64| #[trigger]
                    self.holds(k, m) <==> old(self).holds(k, m) && !(k == key && m == member) by {
                    lemma_inserted(*self, *old(self), at as int, before[at as int], k, m);
                    if old_members.contains(m) {
                        assert(m == member);
                    }
                    if k == key && self.holds(k, m) {
                        let i = choose|i: int|
                            0 <= i < self.buckets@.len() && (#[trigger] self.buckets@[i]).key
                                == k && self.buckets@[i].members@.contains(m);
                        let from = if i < at { i } else { i + 1 };
                        assert(before[from].key == key);
                        assert(false);
                    }
                }
            }
            return;
        }
        let ghost smaller = bucket;
        self.buckets.insert(at, bucket);
        proof {
            assert(self.buckets@ =~= before.update(at as int, smaller));
            assert forall|k: BucketKey, m: u64| #[trigger]
                self.holds(k, m) <==> old(self).holds(k, m) && !(k == key && m == member) by {
                lemma_updated(*old(self), *self, at as int, k, m);
                if k == key && old(self).holds(k, m) {
                    let i = choose|i: int|
                        0 <= i < before.len() && (#[trigger] before[i]).key == k
                            && before[i].members@.contains(m);
                    assert(i == at);
                }
            }
        }
    }
}

/// What a bucket that replaces another one at its position holds.
proof fn lemma_updated(old_table: BucketTable, new_table: BucketTable, at: int, k: BucketKey, m: u64)
    requires
        0 <= at < old_table.buckets@.len(),
        new_table.buckets@.len() == old_table.buckets@.len(),
        new_table.buckets@[at].key == old_table.buckets@[at].key,
        forall|i: int|
            0 <= i < old_table.buckets@.len() && i != at ==> #[trigger] new_table.buckets@[i]
                == old_table.buckets@[i],
        forall|i: int|
            0 <= i < old_table.buckets@.len() && (#[trigger] old_table.buckets@[i]).key
                == old_table.buckets@[at].key ==> i == at,
    ensures
        new_table.holds(k, m) == (if k == old_table.buckets@[at].key {
            new_table.buckets@[at].members@.contains(m)
        } else {
            old_table.holds(k, m)
        }),
{
    if new_table.holds(k, m) {
        let i = choose|i: int|
            0 <= i < new_table.buckets@.len() && (#[trigger] new_table.buckets@[i]).key == k
                && new_table.buckets@[i].members@.contains(m);
        assert(old_table.buckets@[i].key == k);
    }
    if k != old_table.buckets@[at].key && old_table.holds(k, m) {
        let i = choose|i: int|
            0 <= i < old_table.buckets@.len() && (#[trigger] old_table.buckets@[i]).key == k
                && old_table.buckets@[i].members@.contains(m);
        assert(new_table.buckets@[i] == old_table.buckets@[i]);
    }
    if k == old_table.buckets@[at].key && new_table.buckets@[at].members@.contains(m) {
        assert(new_table.buckets@[at].key == k);
    }
}

/// What a table holds that has one bucket more.
proof fn lemma_inserted(
    old_table: BucketTable,
    new_table: BucketTable,
    at: int,
    fresh: Bucket,
    k: BucketKey,
    m: u64,
)
    requires
        0 <= at <= old_table.buckets@.len(),
        new_table.buckets@ == old_table.buckets@.insert(at, fresh),
    ensures
        new_table.holds(k, m) == (old_table.holds(k, m) || (k == fresh.key
            && fresh.members@.contains(m))),
{
    let shorter = old_table.buckets@;
    let longer = new_table.buckets@;
    if new_table.holds(k, m) {
        let i = choose|i: int|
            0 <= i < longer.len() && (#[trigger] longer[i]).key == k
                && longer[i].members@.contains(m);
        if i < at {
            assert(shorter[i] == longer[i]);
        } else if i > at {
            assert(shorter[i - 1] == longer[i]);
        }
    }
    if old_table.holds(k, m) {
        let i = choose|i: int|
            0 <= i < shorter.len() && (#[trigger] shorter[i]).key == k
                && shorter[i].members@.contains(m);
        if i < at {
            assert(longer[i] == shorter[i]);
        } else {
            assert(longer[i + 1] == shorter[i]);
        }
    }
    if k == fresh.key && fresh.members@.contains(m) {
        assert(longer[at] == fresh);
    }
}

/// A member that is put where it belongs keeps the order.
proof fn lemma_grown(members: Seq<u64>, at: int, member: u64)
    requires
        order::increasing(members),
        divides(members, member, at),
        at < members.len() ==> members[at] != member,
    ensures
        order::increasing(members.insert(at, member)),
        forall|m: u64| #[trigger]
            members.insert(at, member).contains(m) <==> members.contains(m) || m == member,
{
    let grown = members.insert(at, member);
    assert forall|i: int, j: int| 0 <= i < j < grown.len() implies grown[i] < grown[j] by {
        let from = if i < at { i } else { i - 1 };
        let to = if j < at { j } else { j - 1 };
        if i != at && j != at {
            assert(members[from] < members[to]);
        } else if i == at {
            assert(member <= members[at]);
            assert(at == to || members[at] < members[to]);
        } else {
            assert(members[from] < member);
        }
    }
    assert forall|m: u64| #[trigger]
        grown.contains(m) <==> members.contains(m) || m == member by {
        if grown.contains(m) {
            let i = choose|i: int| 0 <= i < grown.len() && grown[i] == m;
            if i != at {
                assert(members[if i < at { i } else { i - 1 }] == m);
            }
        }
        if members.contains(m) {
            let i = choose|i: int| 0 <= i < members.len() && members[i] == m;
            assert(grown[if i < at { i } else { i + 1 }] == m);
        }
        assert(grown[at] == member);
    }
}

/// Members without one of them are in order still.
proof fn lemma_shrunk(members: Seq<u64>, at: int)
    requires
        order::increasing(members),
        0 <= at < members.len(),
    ensures
        order::increasing(members.remove(at)),
        forall|m: u64| #[trigger]
            members.remove(at).contains(m) <==> members.contains(m) && m != members[at],
{
    let shrunk = members.remove(at);
    assert forall|i: int, j: int| 0 <= i < j < shrunk.len() implies shrunk[i] < shrunk[j] by {
        assert(members[if i < at { i } else { i + 1 }] < members[if j < at { j } else { j + 1 }]);
    }
    assert forall|m: u64| #[trigger]
        shrunk.contains(m) <==> members.contains(m) && m != members[at] by {
        if shrunk.contains(m) {
            let i = choose|i: int| 0 <= i < shrunk.len() && shrunk[i] == m;
            let from = if i < at { i } else { i + 1 };
            assert(members[from] == m);
        }
        if members.contains(m) && m != members[at] {
            let i = choose|i: int| 0 <= i < members.len() && members[i] == m;
            assert(shrunk[if i < at { i } else { i - 1 }] == m);
        }
    }
}

} // verus!
