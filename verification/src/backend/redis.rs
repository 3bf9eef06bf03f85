//! The Redis layout of a shared index: names, requests and replies.
//!
//! A namespace owns exactly three Redis keys: immutable index metadata, a hash
//! of live external keys, and one lexicographically indexed sorted set of
//! bucket memberships. Fixed namespace ownership makes cleanup and retention
//! deterministic and avoids one Redis key for each LSH bucket.
//!
//! A [`RedisSession`] knows what to send for an operation and what a reply
//! means; sending and receiving is left to its owner.

use vstd::prelude::*;
use vstd::string::*;

use crate::backend::contract;
use crate::backend::contract::{BackendStats, Item, StoredItem};
use crate::backend::descriptor;
use crate::backend::descriptor::{Descriptor, IndexDescriptor};
use crate::backend::error::{BackendError, Corruption};
use crate::format::buckets::BucketKey;
use crate::le;
use crate::text;

verus! {

/// The size of a bucket member.
pub const MEMBER_BYTES: usize = 20;

/// The size of the part of a bucket member that names the bucket.
pub const BUCKET_PREFIX_BYTES: usize = 12;

/// The longest namespace.
pub const MAX_NAMESPACE_BYTES: usize = 128;

/// The character `[`, which marks the bound of a range as inclusive.
pub const INCLUSIVE: u8 = 0x5B;

/// A character that a namespace may hold.
pub open spec fn namespace_char(c: char) -> bool {
    ('a' <= c <= 'z') || ('A' <= c <= 'Z') || ('0' <= c <= '9') || c == '.' || c == '_' || c == '-'
}

/// The namespace can be used.
pub open spec fn valid_namespace(namespace: Seq<char>) -> bool {
    &&& 1 <= namespace.len() <= MAX_NAMESPACE_BYTES
    &&& forall|i: int| 0 <= i < namespace.len() ==> namespace_char(#[trigger] namespace[i])
}

/// Accept a namespace of ASCII letters, digits, `.`, `_` and `-`.
pub fn validate_namespace(namespace: &str) -> (result: Result<(), BackendError>)
    ensures
        result is Ok <==> valid_namespace(namespace@),
        result matches Err(error) ==> error matches BackendError::InvalidNamespace { reason }
            && reason@ == "must be 1..=128 ASCII alphanumeric, '.', '_' or '-' bytes"@,
{
    let chars = text::chars_of(namespace);
    let mut valid = chars.len() >= 1 && chars.len() <= MAX_NAMESPACE_BYTES;
    let mut index: usize = 0;
    while index < chars.len()
        invariant
            index <= chars@.len(),
            valid == (1 <= chars@.len() <= MAX_NAMESPACE_BYTES && forall|i: int|
                0 <= i < index ==> namespace_char(#[trigger] chars@[i])),
        decreases chars@.len() - index,
    {
        let c = chars[index];
        if !(('a' <= c && c <= 'z') || ('A' <= c && c <= 'Z') || ('0' <= c && c <= '9') || c == '.'
            || c == '_' || c == '-') {
            valid = false;
        }
        index = index + 1;
    }
    if !valid {
        return Err(
            BackendError::InvalidNamespace {
                reason: "must be 1..=128 ASCII alphanumeric, '.', '_' or '-' bytes",
            },
        );
    }
    Ok(())
}

/// The bytes of a fixed-width number, most significant byte first.
pub open spec fn ordered_bytes(number: nat, width: nat) -> Seq<u8> {
    le::bytes(number, width).reverse()
}

/// The bytes that all members of a bucket begin with.
pub open spec fn prefix(bucket: BucketKey) -> Seq<u8> {
    ordered_bytes(bucket.band as nat, 4) + ordered_bytes(bucket.hash as nat, 8)
}

/// The member of a bucket that stands for a key.
pub open spec fn member_bytes(bucket: BucketKey, key: u64) -> Seq<u8> {
    prefix(bucket) + le::bytes(key as nat, 8)
}

fn push_reversed(out: &mut Vec<u8>, digits: &Vec<u8>)
    ensures
        final(out)@ == old(out)@ + digits@.reverse(),
{
    let mut left: usize = digits.len();
    assert(digits@.reverse().take(0) =~= Seq::empty());
    assert(out@ =~= old(out)@ + digits@.reverse().take(0));
    while left > 0
        invariant
            left <= digits@.len(),
            out@ == old(out)@ + digits@.reverse().take(digits@.len() - left),
        decreases left,
    {
        left = left - 1;
        out.push(digits[left]);
        assert(out@ =~= old(out)@ + digits@.reverse().take(digits@.len() - left));
    }
    assert(digits@.reverse().take(digits@.len() as int) =~= digits@.reverse());
}

/// The bytes that all members of a bucket begin with.
pub fn bucket_prefix(bucket: BucketKey) -> (bytes: Vec<u8>)
    ensures
        bytes@ == prefix(bucket),
{
    let mut band: Vec<u8> = Vec::new();
    le::push_u32(&mut band, bucket.band);
    assert(band@ =~= le::bytes(bucket.band as nat, 4));
    let mut hash: Vec<u8> = Vec::new();
    le::push_u64(&mut hash, bucket.hash);
    assert(hash@ =~= le::bytes(bucket.hash as nat, 8));
    let mut bytes: Vec<u8> = Vec::new();
    push_reversed(&mut bytes, &band);
    assert(bytes@ =~= ordered_bytes(bucket.band as nat, 4));
    push_reversed(&mut bytes, &hash);
    bytes
}

/// The member of a bucket that stands for a key.
pub fn encode_bucket_member(bucket: BucketKey, key: u64) -> (member: Vec<u8>)
    ensures
        member@ == member_bytes(bucket, key),
{
    let mut member = bucket_prefix(bucket);
    le::push_u64(&mut member, key);
    member
}

/// The key that a member of a bucket stands for, or what is wrong with it.
pub open spec fn decoded_member(bucket: BucketKey, member: Seq<u8>) -> Result<u64, BackendError> {
    if member.len() != MEMBER_BYTES {
        Err(
            BackendError::CorruptData {
                reason: Corruption::MemberSize { found: member.len() as usize },
            },
        )
    } else if member.take(12) != prefix(bucket) {
        Err(BackendError::CorruptData { reason: Corruption::MemberPrefix })
    } else {
        Ok(le::u64_at(member, 12))
    }
}

/// Whether a byte string begins with another one.
fn begins_with(bytes: &[u8], start: &Vec<u8>) -> (result: bool)
    requires
        start@.len() <= bytes@.len(),
    ensures
        result == (bytes@.take(start@.len() as int) == start@),
{
    let mut index: usize = 0;
    while index < start.len()
        invariant
            index <= start@.len() <= bytes@.len(),
            forall|i: int| 0 <= i < index ==> bytes@[i] == start@[i],
        decreases start@.len() - index,
    {
        if bytes[index] != start[index] {
            assert(bytes@.take(start@.len() as int)[index as int] != start@[index as int]);
            return false;
        }
        index = index + 1;
    }
    assert(bytes@.take(start@.len() as int) =~= start@);
    true
}

proof fn lemma_prefix_len(bucket: BucketKey)
    ensures
        prefix(bucket).len() == 12,
{
    broadcast use le::lemma_bytes_len;

}

/// The key that a member of a bucket stands for.
pub fn decode_bucket_member(bucket: BucketKey, member: &[u8]) -> (result: Result<
    u64,
    BackendError,
>)
    ensures
        result == decoded_member(bucket, member@),
{
    if member.len() != MEMBER_BYTES {
        return Err(
            BackendError::CorruptData { reason: Corruption::MemberSize { found: member.len() } },
        );
    }
    let expected = bucket_prefix(bucket);
    proof {
        lemma_prefix_len(bucket);
    }
    if !begins_with(member, &expected) {
        return Err(BackendError::CorruptData { reason: Corruption::MemberPrefix });
    }
    Ok(le::read_u64(member, BUCKET_PREFIX_BYTES))
}

/// Decoding a member in its own bucket gives its key back.
pub proof fn law_member_round_trip(bucket: BucketKey, key: u64)
    ensures
        decoded_member(bucket, member_bytes(bucket, key)) == Ok::<u64, BackendError>(key),
{
    broadcast use le::lemma_bytes_len;

    lemma_prefix_len(bucket);
    le::lemma_pow256_values();
    le::lemma_value_of_bytes(key as nat, 8);
    let member = member_bytes(bucket, key);
    assert(member.take(12) =~= prefix(bucket));
    assert(member.subrange(12, 20) =~= le::bytes(key as nat, 8));
}

/// Two buckets whose members begin alike are the same.
pub proof fn law_prefix_names_the_bucket(left: BucketKey, right: BucketKey)
    requires
        prefix(left) == prefix(right),
    ensures
        left == right,
{
    broadcast use le::lemma_bytes_len;

    le::lemma_pow256_values();
    let a = le::bytes(left.band as nat, 4);
    let b = le::bytes(right.band as nat, 4);
    let c = le::bytes(left.hash as nat, 8);
    let d = le::bytes(right.hash as nat, 8);
    assert(a.reverse() =~= prefix(left).take(4));
    assert(b.reverse() =~= prefix(right).take(4));
    assert(c.reverse() =~= prefix(left).skip(4));
    assert(d.reverse() =~= prefix(right).skip(4));
    assert(a =~= b) by {
        assert forall|i: int| 0 <= i < 4 implies a[i] == b[i] by {
            assert(a.reverse()[3 - i] == b.reverse()[3 - i]);
        }
    }
    assert(c =~= d) by {
        assert forall|i: int| 0 <= i < 8 implies c[i] == d[i] by {
            assert(c.reverse()[7 - i] == d.reverse()[7 - i]);
        }
    }
    le::lemma_bytes_injective(left.band as nat, right.band as nat, 4);
    le::lemma_bytes_injective(left.hash as nat, right.hash as nat, 8);
}

/// The byte strings are in lexicographic order.
pub open spec fn lex_le(left: Seq<u8>, right: Seq<u8>) -> bool
    decreases left.len(),
{
    left.len() == 0 || (right.len() > 0 && (left[0] < right[0] || (left[0] == right[0] && lex_le(
        left.skip(1),
        right.skip(1),
    ))))
}

/// The smallest member that a bucket can have.
pub open spec fn first_member(bucket: BucketKey) -> Seq<u8> {
    prefix(bucket) + Seq::new(8, |i: int| 0u8)
}

/// The largest member that a bucket can have.
pub open spec fn last_member(bucket: BucketKey) -> Seq<u8> {
    prefix(bucket) + Seq::new(8, |i: int| 0xFFu8)
}

proof fn lemma_bounds(member: Seq<u8>, low: Seq<u8>, high: Seq<u8>, width: nat)
    requires
        member.len() == low.len() == high.len(),
        width <= member.len(),
        low.take(width as int) == high.take(width as int),
        forall|i: int| width <= i < low.len() ==> low[i] == 0,
        forall|i: int| width <= i < high.len() ==> high[i] == 0xFF,
    ensures
        (lex_le(low, member) && lex_le(member, high)) <==> member.take(width as int) == low.take(
            width as int,
        ),
    decreases member.len(),
{
    if member.len() == 0 {
        assert(member.take(width as int) =~= low.take(width as int));
    } else if width == 0 {
        assert(member.take(0) =~= low.take(0));
        assert(low.skip(1).take(0) =~= high.skip(1).take(0));
        assert(member.skip(1).take(0) =~= low.skip(1).take(0));
        lemma_bounds(member.skip(1), low.skip(1), high.skip(1), 0);
        assert(low[0] == 0 && high[0] == 0xFF);
    } else {
        let inner = (width - 1) as nat;
        assert(low[0] == low.take(width as int)[0]);
        assert(high[0] == high.take(width as int)[0]);
        assert(low.skip(1).take(inner as int) =~= low.take(width as int).skip(1));
        assert(high.skip(1).take(inner as int) =~= high.take(width as int).skip(1));
        assert(member.skip(1).take(inner as int) =~= member.take(width as int).skip(1));
        lemma_bounds(member.skip(1), low.skip(1), high.skip(1), inner);
        if member[0] == low[0] && member.skip(1).take(inner as int) == low.skip(1).take(
            inner as int,
        ) {
            assert forall|i: int| 0 <= i < width implies member[i] == low[i] by {
                if i > 0 {
                    assert(member.skip(1).take(inner as int)[i - 1] == low.skip(1).take(
                        inner as int,
                    )[i - 1]);
                }
            }
            assert(member.take(width as int) =~= low.take(width as int));
        }
        assert(low[0] == high[0]);
        if member.take(width as int) == low.take(width as int) {
            assert(member.take(width as int)[0] == low.take(width as int)[0]);
            assert(member[0] == low[0]);
            assert(lex_le(low.skip(1), member.skip(1)));
            assert(lex_le(low, member));
            assert(lex_le(member, high));
        } else if lex_le(low, member) && lex_le(member, high) {
            assert(member[0] == low[0]);
            assert(lex_le(low.skip(1), member.skip(1)));
            assert(lex_le(member.skip(1), high.skip(1)));
        }
    }
}

/// The lexicographic range of a bucket holds exactly the member-sized byte
/// strings that begin like its members.
pub proof fn law_range_holds_the_bucket(bucket: BucketKey, member: Seq<u8>)
    requires
        member.len() == MEMBER_BYTES,
    ensures
        (lex_le(first_member(bucket), member) && lex_le(member, last_member(bucket)))
            <==> member.take(12) == prefix(bucket),
{
    lemma_prefix_len(bucket);
    let low = first_member(bucket);
    let high = last_member(bucket);
    assert(low.take(12) =~= prefix(bucket));
    assert(high.take(12) =~= prefix(bucket));
    lemma_bounds(member, low, high, 12);
}

/// The range of members of a bucket, as inclusive lexicographic bounds.
pub fn bucket_lex_range(bucket: BucketKey) -> (range: (Vec<u8>, Vec<u8>))
    ensures
        range.0@ == seq![INCLUSIVE] + first_member(bucket),
        range.1@ == seq![INCLUSIVE] + last_member(bucket),
{
    let prefix = bucket_prefix(bucket);
    let mut lower: Vec<u8> = Vec::with_capacity(1 + MEMBER_BYTES);
    lower.push(INCLUSIVE);
    lower.extend_from_slice(prefix.as_slice());
    let zeros: [u8; 8] = [0, 0, 0, 0, 0, 0, 0, 0];
    lower.extend_from_slice(zeros.as_slice());
    let mut upper: Vec<u8> = Vec::with_capacity(1 + MEMBER_BYTES);
    upper.push(INCLUSIVE);
    upper.extend_from_slice(prefix.as_slice());
    let ones: [u8; 8] = [0xFF, 0xFF, 0xFF, 0xFF, 0xFF, 0xFF, 0xFF, 0xFF];
    upper.extend_from_slice(ones.as_slice());
    assert(lower@ =~= seq![INCLUSIVE] + first_member(bucket));
    assert(upper@ =~= seq![INCLUSIVE] + last_member(bucket));
    (lower, upper)
}

/// The Redis key of a part of a namespace.
pub open spec fn key_name(namespace: Seq<char>, part: Seq<char>) -> Seq<char> {
    "pari:"@ + namespace + part
}

fn part_of(namespace: &str, part: &str) -> (name: String)
    ensures
        name@ == key_name(namespace@, part@),
{
    let mut name = "pari:".to_owned();
    name.append(namespace);
    name.append(part);
    name
}

/// What a session knows.
#[verifier::ext_equal]
pub struct SessionState {
    /// The namespace.
    pub namespace: Seq<char>,
    /// The retention period of the namespace in seconds, where one is known.
    pub retention_seconds: Option<u64>,
    /// The number of round trips.
    pub round_trips: u64,
}

/// One namespace as a connection sees it.
#[derive(Debug)]
pub struct RedisSession {
    namespace: String,
    meta: String,
    records: String,
    buckets: String,
    retention_seconds: Option<u64>,
    round_trips: u64,
}

impl View for RedisSession {
    type V = SessionState;

    closed spec fn view(&self) -> SessionState {
        SessionState {
            namespace: self.namespace@,
            retention_seconds: self.retention_seconds,
            round_trips: self.round_trips,
        }
    }
}

/// A bucket membership record for each band of an item.
pub open spec fn blob(item: Item, upto: nat) -> Seq<u8>
    decreases upto,
{
    if upto == 0 {
        Seq::empty()
    } else {
        blob(item, (upto - 1) as nat) + member_bytes(
            BucketKey { band: (upto - 1) as u32, hash: item.hashes[upto - 1] },
            item.key,
        )
    }
}

/// What the reply to an insertion means.
pub open spec fn insertion_outcome(items: Seq<Item>, code: i64, detail: i64) -> Result<
    (),
    BackendError,
> {
    let at = detail - 1;
    if code == 1 {
        Ok(())
    } else if code == 0 {
        Err(BackendError::NotFound)
    } else if code == 2 {
        if at < 0 || at > usize::MAX {
            Err(BackendError::LengthOverflow)
        } else if at >= items.len() {
            Err(BackendError::CorruptData { reason: Corruption::DuplicatePosition })
        } else {
            Err(BackendError::DuplicateKey { key: items[at].key })
        }
    } else if code == 3 {
        Err(BackendError::CorruptData { reason: Corruption::MalformedRecord })
    } else {
        Err(BackendError::CorruptData { reason: Corruption::InsertStatus { code } })
    }
}

/// What the reply to a deletion means.
pub open spec fn deletion_outcome(code: i64) -> Result<usize, BackendError> {
    if code == -1 {
        Err(BackendError::NotFound)
    } else if code == -2 {
        Err(BackendError::CorruptData { reason: Corruption::RecordWidth })
    } else if code < 0 {
        Err(BackendError::CorruptData { reason: Corruption::DeleteStatus { code } })
    } else if code > usize::MAX {
        Err(BackendError::LengthOverflow)
    } else {
        Ok(code as usize)
    }
}

/// The error in the first of the first `upto` members of a bucket that has
/// one.
pub open spec fn row_error(bucket: BucketKey, members: Seq<Vec<u8>>, upto: nat) -> Option<
    BackendError,
>
    decreases upto,
{
    if upto == 0 {
        None
    } else {
        match row_error(bucket, members, (upto - 1) as nat) {
            Some(error) => Some(error),
            None => match decoded_member(bucket, members[upto - 1]@) {
                Err(error) => Some(error),
                Ok(_) => None,
            },
        }
    }
}

/// The error in the first of the first `upto` rows that has one.
pub open spec fn rows_error(buckets: Seq<BucketKey>, raw: Seq<Vec<Vec<u8>>>, upto: nat) -> Option<
    BackendError,
>
    decreases upto,
{
    if upto == 0 {
        None
    } else {
        match rows_error(buckets, raw, (upto - 1) as nat) {
            Some(error) => Some(error),
            None => row_error(buckets[upto - 1], raw[upto - 1]@, raw[upto - 1]@.len()),
        }
    }
}

/// The keys that the members of a bucket stand for.
pub open spec fn row_keys(members: Seq<Vec<u8>>) -> Seq<u64> {
    Seq::new(members.len(), |i: int| le::u64_at(members[i]@, 12))
}

proof fn lemma_first_row_error(bucket: BucketKey, members: Seq<Vec<u8>>, upto: nat, all: nat)
    requires
        upto <= all,
        row_error(bucket, members, upto) is Some,
    ensures
        row_error(bucket, members, all) == row_error(bucket, members, upto),
    decreases all,
{
    if upto < all {
        lemma_first_row_error(bucket, members, upto, (all - 1) as nat);
    }
}

proof fn lemma_first_rows_error(
    buckets: Seq<BucketKey>,
    raw: Seq<Vec<Vec<u8>>>,
    upto: nat,
    all: nat,
)
    requires
        upto <= all,
        rows_error(buckets, raw, upto) is Some,
    ensures
        rows_error(buckets, raw, all) == rows_error(buckets, raw, upto),
    decreases all,
{
    if upto < all {
        lemma_first_rows_error(buckets, raw, upto, (all - 1) as nat);
    }
}

fn decode_row(bucket: BucketKey, members: &Vec<Vec<u8>>) -> (result: Result<
    Vec<u64>,
    BackendError,
>)
    ensures
        match row_error(bucket, members@, members@.len()) {
            Some(error) => result == Err::<Vec<u64>, BackendError>(error),
            None => result matches Ok(keys) && keys@ == row_keys(members@),
        },
{
    let mut keys: Vec<u64> = Vec::new();
    let mut index: usize = 0;
    while index < members.len()
        invariant
            index <= members@.len(),
            row_error(bucket, members@, index as nat) is None,
            keys@.len() == index,
            forall|i: int| 0 <= i < index ==> (#[trigger] keys@[i]) == row_keys(members@)[i],
        decreases members@.len() - index,
    {
        match decode_bucket_member(bucket, members[index].as_slice()) {
            Ok(key) => {
                keys.push(key);
            },
            Err(error) => {
                proof {
                    assert(row_error(bucket, members@, (index + 1) as nat) == Some(error));
                    lemma_first_row_error(bucket, members@, (index + 1) as nat, members@.len());
                }
                return Err(error);
            },
        }
        index = index + 1;
    }
    assert(keys@ =~= row_keys(members@));
    Ok(keys)
}

/// The Redis form of a user key.
pub fn encode_user_key(key: u64) -> (bytes: Vec<u8>)
    ensures
        bytes@ == le::bytes(key as nat, 8),
{
    let mut bytes: Vec<u8> = Vec::new();
    le::push_u64(&mut bytes, key);
    assert(bytes@ =~= le::bytes(key as nat, 8));
    bytes
}

/// The Redis forms of user keys.
pub fn encode_user_keys(keys: &[u64]) -> (fields: Vec<Vec<u8>>)
    ensures
        fields@.len() == keys@.len(),
        forall|i: int|
            0 <= i < keys@.len() ==> (#[trigger] fields@[i])@ == le::bytes(keys@[i] as nat, 8),
{
    let mut fields: Vec<Vec<u8>> = Vec::new();
    let mut index: usize = 0;
    while index < keys.len()
        invariant
            index <= keys@.len(),
            fields@.len() == index,
            forall|i: int|
                0 <= i < index ==> (#[trigger] fields@[i])@ == le::bytes(keys@[i] as nat, 8),
        decreases keys@.len() - index,
    {
        fields.push(encode_user_key(keys[index]));
        index = index + 1;
    }
    fields
}

/// The bucket membership records of one item.
pub fn record_blob(item: &StoredItem) -> (result: Result<Vec<u8>, BackendError>)
    ensures
        if too_long(item@) {
            result == Err::<Vec<u8>, BackendError>(BackendError::LengthOverflow)
        } else {
            result matches Ok(bytes) && bytes@ == blob(item@, item@.hashes.len())
        },
{
    let hashes = item.band_hashes();
    let size: usize = hashes.len();
    match size.checked_mul(MEMBER_BYTES) {
        Some(_) => {},
        None => {
            return Err(BackendError::LengthOverflow);
        },
    }
    let mut bytes: Vec<u8> = Vec::new();
    let mut band: usize = 0;
    while band < size
        invariant
            band <= size == hashes@.len(),
            band <= 0x1_0000_0000,
            hashes@ == item@.hashes,
            bytes@ == blob(item@, band as nat),
        decreases size - band,
    {
        if band as u64 > u32::MAX as u64 {
            return Err(BackendError::LengthOverflow);
        }
        let member = encode_bucket_member(BucketKey::new(band as u32, hashes[band]), item.key());
        bytes.extend_from_slice(member.as_slice());
        band = band + 1;
    }
    Ok(bytes)
}

impl RedisSession {
    /// The names of the three keys of the namespace.
    pub closed spec fn names(&self) -> (Seq<char>, Seq<char>, Seq<char>) {
        (self.meta@, self.records@, self.buckets@)
    }

    /// The namespace is valid, and the keys are named after it.
    pub open spec fn wf(&self) -> bool {
        &&& valid_namespace(self@.namespace)
        &&& self.names() == (
            key_name(self@.namespace, ":meta"@),
            key_name(self@.namespace, ":records"@),
            key_name(self@.namespace, ":buckets"@),
        )
    }

    /// A session for a namespace.
    pub fn new(namespace: &str) -> (result: Result<RedisSession, BackendError>)
        ensures
            match result {
                Ok(session) => session.wf() && session@ == (SessionState {
                    namespace: namespace@,
                    retention_seconds: None,
                    round_trips: 0,
                }),
                Err(error) => !valid_namespace(namespace@) && (error matches
                    BackendError::InvalidNamespace { reason } && reason@
                    == "must be 1..=128 ASCII alphanumeric, '.', '_' or '-' bytes"@),
            },
    {
        match validate_namespace(namespace) {
            Ok(()) => {},
            Err(error) => {
                return Err(error);
            },
        }
        Ok(
            RedisSession {
                namespace: namespace.to_owned(),
                meta: part_of(namespace, ":meta"),
                records: part_of(namespace, ":records"),
                buckets: part_of(namespace, ":buckets"),
                retention_seconds: None,
                round_trips: 0,
            },
        )
    }

    /// The isolated namespace of this session.
    pub fn namespace(&self) -> (namespace: &str)
        ensures
            namespace@ == self@.namespace,
    {
        self.namespace.as_str()
    }

    /// The Redis key of the index metadata.
    pub fn meta_key(&self) -> (name: &str)
        ensures
            name@ == self.names().0,
    {
        self.meta.as_str()
    }

    /// The Redis key of the records.
    pub fn records_key(&self) -> (name: &str)
        ensures
            name@ == self.names().1,
    {
        self.records.as_str()
    }

    /// The Redis key of the bucket memberships.
    pub fn buckets_key(&self) -> (name: &str)
        ensures
            name@ == self.names().2,
    {
        self.buckets.as_str()
    }

    /// The retention period as a script argument; zero stands for none.
    pub fn retention_argument(&self) -> (seconds: u64)
        ensures
            seconds == (match self@.retention_seconds {
                Some(seconds) => seconds,
                None => 0,
            }),
    {
        match self.retention_seconds {
            Some(seconds) => seconds,
            None => 0,
        }
    }

    /// Count one more round trip.
    pub fn bump_round_trip(&mut self)
        ensures
            final(self).names() == old(self).names(),
            final(self)@ == (SessionState {
                round_trips: if old(self)@.round_trips == u64::MAX {
                    u64::MAX
                } else {
                    (old(self)@.round_trips + 1) as u64
                },
                ..old(self)@
            }),
    {
        self.round_trips = self.round_trips.saturating_add(1);
    }

    /// The payload and the retention argument that initialize the namespace.
    pub fn initialize_arguments(&self, descriptor: &IndexDescriptor) -> (arguments: (Vec<u8>, u64))
        ensures
            arguments.0@ == descriptor::descriptor_bytes(descriptor@),
            arguments.1 == (match descriptor@.retention {
                Some(span) => span.seconds,
                None => 0,
            }),
    {
        let seconds: u64 = match descriptor.retention() {
            Some(span) => span.as_secs(),
            None => 0,
        };
        (descriptor::encode_descriptor(descriptor), seconds)
    }

    /// Take note of the reply to an initialization.
    pub fn initialized(&mut self, descriptor: &IndexDescriptor, code: i64) -> (result: Result<
        (),
        BackendError,
    >)
        ensures
            final(self).names() == old(self).names(),
            if code == 1 {
                result is Ok && final(self)@ == old(self)@.retaining(descriptor@)
            } else {
                result == Err::<(), BackendError>(BackendError::AlreadyExists) && *final(self)
                    == *old(self)
            },
    {
        if code != 1 {
            return Err(BackendError::AlreadyExists);
        }
        self.remember(descriptor);
        Ok(())
    }

    fn remember(&mut self, descriptor: &IndexDescriptor)
        ensures
            final(self).names() == old(self).names(),
            final(self)@ == old(self)@.retaining(descriptor@),
    {
        self.retention_seconds = match descriptor.retention() {
            Some(span) => Some(span.as_secs()),
            None => None,
        };
    }

    /// Take note of the descriptor that the namespace holds.
    pub fn loaded(&mut self, payload: Option<Vec<u8>>) -> (result: Result<
        IndexDescriptor,
        BackendError,
    >)
        ensures
            final(self).names() == old(self).names(),
            match payload {
                None => result == Err::<IndexDescriptor, BackendError>(BackendError::NotFound)
                    && *final(self) == *old(self),
                Some(bytes) => match descriptor::decoded(bytes@) {
                    Err(error) => result == Err::<IndexDescriptor, BackendError>(error)
                        && *final(self) == *old(self),
                    Ok(found) => {
                        &&& result matches Ok(descriptor)
                        &&& descriptor@ == found
                        &&& final(self)@ == old(self)@.retaining(found)
                    },
                },
            },
    {
        let payload = match payload {
            Some(payload) => payload,
            None => {
                return Err(BackendError::NotFound);
            },
        };
        match descriptor::decode_descriptor(payload.as_slice()) {
            Ok(descriptor) => {
                self.remember(&descriptor);
                Ok(descriptor)
            },
            Err(error) => Err(error),
        }
    }

    /// The field and the membership records of each item of a batch.
    pub fn insert_arguments(&self, items: &[StoredItem]) -> (result: Result<
        Vec<(Vec<u8>, Vec<u8>)>,
        BackendError,
    >)
        ensures
            match result {
                Ok(arguments) => {
                    &&& !overlong(contract::item_views(items@))
                    &&& arguments@.len() == items@.len()
                    &&& forall|i: int|
                        0 <= i < items@.len() ==> (#[trigger] arguments@[i]).0@ == le::bytes(
                            items@[i]@.key as nat,
                            8,
                        ) && arguments@[i].1@ == blob(items@[i]@, items@[i]@.hashes.len())
                },
                Err(error) => error == BackendError::LengthOverflow && overlong(
                    contract::item_views(items@),
                ),
            },
    {
        let mut arguments: Vec<(Vec<u8>, Vec<u8>)> = Vec::new();
        let mut index: usize = 0;
        let ghost views = contract::item_views(items@);
        while index < items.len()
            invariant
                index <= items@.len(),
                views == contract::item_views(items@),
                arguments@.len() == index,
                forall|i: int| 0 <= i < index ==> !too_long(#[trigger] views[i]),
                forall|i: int|
                    0 <= i < index ==> (#[trigger] arguments@[i]).0@ == le::bytes(
                        items@[i]@.key as nat,
                        8,
                    ) && arguments@[i].1@ == blob(items@[i]@, items@[i]@.hashes.len()),
            decreases items@.len() - index,
        {
            let item = &items[index];
            assert(views[index as int] == item@);
            match record_blob(item) {
                Ok(bytes) => {
                    arguments.push((encode_user_key(item.key()), bytes));
                },
                Err(error) => {
                    return Err(error);
                },
            }
            index = index + 1;
        }
        Ok(arguments)
    }

    /// What the reply to an insertion means.
    pub fn inserted(&self, items: &[StoredItem], code: i64, detail: i64) -> (result: Result<
        (),
        BackendError,
    >)
        ensures
            result == insertion_outcome(contract::item_views(items@), code, detail),
    {
        if code == 1 {
            Ok(())
        } else if code == 0 {
            Err(BackendError::NotFound)
        } else if code == 2 {
            if detail <= 0 {
                return Err(BackendError::LengthOverflow);
            }
            let at: i64 = detail - 1;
            if at as u64 > usize::MAX as u64 {
                Err(BackendError::LengthOverflow)
            } else if at as usize >= items.len() {
                Err(BackendError::CorruptData { reason: Corruption::DuplicatePosition })
            } else {
                Err(BackendError::DuplicateKey { key: items[at as usize].key() })
            }
        } else if code == 3 {
            Err(BackendError::CorruptData { reason: Corruption::MalformedRecord })
        } else {
            Err(BackendError::CorruptData { reason: Corruption::InsertStatus { code } })
        }
    }

    /// The keys in the rows that were read for buckets.
    pub fn found(&self, buckets: &[BucketKey], raw: &Vec<Vec<Vec<u8>>>) -> (result: Result<
        Vec<Vec<u64>>,
        BackendError,
    >)
        ensures
            if raw@.len() != buckets@.len() {
                result == Err::<Vec<Vec<u64>>, BackendError>(
                    BackendError::CorruptData { reason: Corruption::ResultRows },
                )
            } else {
                match rows_error(buckets@, raw@, raw@.len()) {
                    Some(error) => result == Err::<Vec<Vec<u64>>, BackendError>(error),
                    None => result matches Ok(rows) && rows@.len() == raw@.len() && forall|i: int|
                        0 <= i < raw@.len() ==> (#[trigger] rows@[i])@ == row_keys(raw@[i]@),
                }
            },
    {
        if raw.len() != buckets.len() {
            return Err(BackendError::CorruptData { reason: Corruption::ResultRows });
        }
        let mut rows: Vec<Vec<u64>> = Vec::new();
        let mut index: usize = 0;
        while index < raw.len()
            invariant
                index <= raw@.len() == buckets@.len(),
                rows_error(buckets@, raw@, index as nat) is None,
                rows@.len() == index,
                forall|i: int|
                    0 <= i < index ==> (#[trigger] rows@[i])@ == row_keys(raw@[i]@),
            decreases raw@.len() - index,
        {
            match decode_row(buckets[index], &raw[index]) {
                Ok(keys) => {
                    rows.push(keys);
                },
                Err(error) => {
                    proof {
                        assert(rows_error(buckets@, raw@, (index + 1) as nat) == Some(error));
                        lemma_first_rows_error(buckets@, raw@, (index + 1) as nat, raw@.len());
                    }
                    return Err(error);
                },
            }
            index = index + 1;
        }
        Ok(rows)
    }

    /// What the reply to a deletion means.
    pub fn deleted(&self, code: i64) -> (result: Result<usize, BackendError>)
        ensures
            result == deletion_outcome(code),
    {
        if code == -1 {
            Err(BackendError::NotFound)
        } else if code == -2 {
            Err(BackendError::CorruptData { reason: Corruption::RecordWidth })
        } else if code < 0 {
            Err(BackendError::CorruptData { reason: Corruption::DeleteStatus { code } })
        } else if code as u64 > usize::MAX as u64 {
            Err(BackendError::LengthOverflow)
        } else {
            Ok(code as usize)
        }
    }

    /// What the answer to a completion barrier means.
    pub fn flushed(&self, response: &str) -> (result: Result<(), BackendError>)
        ensures
            result == (if response@ == "PONG"@ {
                Ok::<(), BackendError>(())
            } else {
                Err(BackendError::CorruptData { reason: Corruption::FlushResponse })
            }),
    {
        if text::spells(&text::chars_of(response), "PONG") {
            Ok(())
        } else {
            Err(BackendError::CorruptData { reason: Corruption::FlushResponse })
        }
    }

    /// What the answer to a health probe means.
    pub fn probed(&self, response: &str) -> (result: Result<(), BackendError>)
        ensures
            result is Ok <==> response@ == "PONG"@,
            result matches Err(error) ==> error matches BackendError::Transport {
                operation,
                message,
            } && operation@ == "health check"@ && message@ == "unexpected Redis PING response"@,
    {
        if text::spells(&text::chars_of(response), "PONG") {
            Ok(())
        } else {
            Err(
                BackendError::Transport {
                    operation: "health check",
                    message: "unexpected Redis PING response".to_owned(),
                },
            )
        }
    }

    /// The statistics that item and membership counts and the remaining
    /// lifetime of the namespace stand for.
    pub fn counted(&self, items: u64, memberships: u64, ttl: i64) -> (result: Result<
        BackendStats,
        BackendError,
    >)
        ensures
            if ttl == -2 {
                result == Err::<BackendStats, BackendError>(BackendError::NotFound)
            } else {
                result == Ok::<BackendStats, BackendError>(
                    BackendStats {
                        items,
                        bucket_memberships: memberships,
                        round_trips: self@.round_trips,
                        ttl_seconds_remaining: if ttl < 0 {
                            None
                        } else {
                            Some(ttl as u64)
                        },
                        bucket_distribution: None,
                        queries: None,
                    },
                )
            },
    {
        if ttl == -2 {
            return Err(BackendError::NotFound);
        }
        Ok(
            BackendStats {
                items,
                bucket_memberships: memberships,
                round_trips: self.round_trips,
                ttl_seconds_remaining: if ttl < 0 {
                    None
                } else {
                    Some(ttl as u64)
                },
                bucket_distribution: None,
                queries: None,
            },
        )
    }

    /// Take note that the namespace has been deleted.
    pub fn cleaned(&mut self)
        ensures
            final(self).names() == old(self).names(),
            final(self)@ == (SessionState { retention_seconds: None, ..old(self)@ }),
    {
        self.retention_seconds = None;
    }
}

impl SessionState {
    /// The state once the retention period of a descriptor is known.
    pub open spec fn retaining(self, descriptor: Descriptor) -> SessionState {
        SessionState {
            retention_seconds: match descriptor.retention {
                Some(span) => Some(span.seconds),
                None => None,
            },
            ..self
        }
    }
}

/// The item has more bands than its membership records can number or memory
/// can hold.
pub open spec fn too_long(item: Item) -> bool {
    item.hashes.len() > 0x1_0000_0000 || item.hashes.len() * MEMBER_BYTES > usize::MAX
}

/// Some item of a batch is too long.
pub open spec fn overlong(items: Seq<Item>) -> bool {
    exists|i: int| 0 <= i < items.len() && too_long(#[trigger] items[i])
}

/// A row of members that were all written for the bucket that is read gives
/// their keys back, in order.
pub proof fn law_row_round_trip(bucket: BucketKey, keys: Seq<u64>, members: Seq<Vec<u8>>)
    requires
        members.len() == keys.len(),
        forall|i: int|
            0 <= i < keys.len() ==> (#[trigger] members[i])@ == member_bytes(bucket, keys[i]),
    ensures
        row_error(bucket, members, members.len()) is None,
        row_keys(members) == keys,
{
    lemma_row_accepted(bucket, keys, members, members.len());
    assert forall|i: int| 0 <= i < keys.len() implies row_keys(members)[i] == keys[i] by {
        law_member_round_trip(bucket, keys[i]);
        assert(members[i]@ == member_bytes(bucket, keys[i]));
    }
    assert(row_keys(members) =~= keys);
}

proof fn lemma_row_accepted(bucket: BucketKey, keys: Seq<u64>, members: Seq<Vec<u8>>, upto: nat)
    requires
        members.len() == keys.len(),
        upto <= members.len(),
        forall|i: int|
            0 <= i < keys.len() ==> (#[trigger] members[i])@ == member_bytes(bucket, keys[i]),
    ensures
        row_error(bucket, members, upto) is None,
    decreases upto,
{
    if upto > 0 {
        lemma_row_accepted(bucket, keys, members, (upto - 1) as nat);
        law_member_round_trip(bucket, keys[upto - 1]);
        assert(members[upto - 1]@ == member_bytes(bucket, keys[upto - 1]));
    }
}

/// A namespace has from one to 128 characters, each a letter, a digit, a dot, an underscore
/// or a hyphen.
pub proof fn law_which_namespaces_are_valid(namespace: Seq<char>)
    ensures
        valid_namespace(namespace) == (1 <= namespace.len() <= 128 && forall|i: int|
            0 <= i < namespace.len() ==> {
                let c = #[trigger] namespace[i];
                ('a' <= c <= 'z') || ('A' <= c <= 'Z') || ('0' <= c <= '9') || c == '.' || c == '_'
                    || c == '-'
            }),
{
    if valid_namespace(namespace) {
        assert forall|i: int| 0 <= i < namespace.len() implies {
            let c = #[trigger] namespace[i];
            ('a' <= c <= 'z') || ('A' <= c <= 'Z') || ('0' <= c <= '9') || c == '.' || c == '_' || c
                == '-'
        } by {
            assert(namespace_char(namespace[i]));
        }
    }
}

/// The prefix of a bucket has the band in four bytes and the hash in eight, the high byte
/// first.
pub proof fn law_prefix_is_big_endian(bucket: BucketKey)
    ensures
        prefix(bucket).len() == 12,
        forall|i: int|
            0 <= i < 4 ==> prefix(bucket)[i] as nat == (bucket.band as nat / le::pow256(
                (3 - i) as nat,
            )) % 256,
        forall|i: int|
            4 <= i < 12 ==> prefix(bucket)[i] as nat == (bucket.hash as nat / le::pow256(
                (11 - i) as nat,
            )) % 256,
{
    broadcast use le::lemma_bytes_len;

    assert forall|i: int| 0 <= i < 4 implies prefix(bucket)[i] as nat == (bucket.band as nat
        / le::pow256((3 - i) as nat)) % 256 by {
        le::law_written_digits(bucket.band as nat, 4, 3 - i);
    }
    assert forall|i: int| 4 <= i < 12 implies prefix(bucket)[i] as nat == (bucket.hash as nat
        / le::pow256((11 - i) as nat)) % 256 by {
        le::law_written_digits(bucket.hash as nat, 8, 11 - i);
    }
}

/// The record of an item holds a member for every band: of the bucket that its hash selects
/// there, with its key.
pub proof fn law_record_holds_every_band(item: Item, upto: nat, band: int)
    requires
        0 <= band < upto,
    ensures
        blob(item, upto).len() == 20 * upto,
        blob(item, upto).subrange(20 * band, 20 * band + 20) == member_bytes(
            BucketKey { band: band as u32, hash: item.hashes[band] },
            item.key,
        ),
    decreases upto,
{
    broadcast use le::lemma_bytes_len;

    let last = (upto - 1) as nat;
    let front = blob(item, last);
    let member = member_bytes(
        BucketKey { band: last as u32, hash: item.hashes[last as int] },
        item.key,
    );
    assert(member.len() == 20);
    assert(blob(item, upto) == front + member);
    if last == 0 {
        assert(front.len() == 0);
    } else {
        law_record_holds_every_band(item, last, if band < last {
            band
        } else {
            0
        });
    }
    if band < last {
        assert(blob(item, upto).subrange(20 * band, 20 * band + 20) =~= front.subrange(
            20 * band,
            20 * band + 20,
        ));
    } else {
        assert(blob(item, upto).subrange(20 * band, 20 * band + 20) =~= member);
    }
}

/// A row is read exactly where every member has its size and the prefix of the bucket, and
/// then gives the key of every member, in order.
pub proof fn law_which_rows_are_read(bucket: BucketKey, members: Seq<Vec<u8>>, upto: nat)
    requires
        upto <= members.len(),
    ensures
        row_error(bucket, members, upto) is None == forall|i: int|
            0 <= i < upto ==> (#[trigger] members[i])@.len() == 20 && members[i]@.take(12)
                == prefix(bucket),
        row_keys(members).len() == members.len(),
        forall|i: int|
            0 <= i < members.len() ==> #[trigger] row_keys(members)[i] == le::u64_at(
                members[i]@,
                12,
            ),
    decreases upto,
{
    if upto > 0 {
        law_which_rows_are_read(bucket, members, (upto - 1) as nat);
        if row_error(bucket, members, upto) is Some && row_error(
            bucket,
            members,
            (upto - 1) as nat,
        ) is None {
            assert(decoded_member(bucket, members[upto - 1]@) is Err);
        }
    }
}

/// Rows are read exactly where each one is.
pub proof fn law_all_rows_are_read(buckets: Seq<BucketKey>, raw: Seq<Vec<Vec<u8>>>, upto: nat)
    requires
        upto <= raw.len(),
        upto <= buckets.len(),
    ensures
        rows_error(buckets, raw, upto) is None == forall|i: int|
            0 <= i < upto ==> row_error(
                buckets[i],
                (#[trigger] raw[i])@,
                raw[i]@.len(),
            ) is None,
    decreases upto,
{
    if upto > 0 {
        law_all_rows_are_read(buckets, raw, (upto - 1) as nat);
        if rows_error(buckets, raw, upto) is Some && rows_error(
            buckets,
            raw,
            (upto - 1) as nat,
        ) is None {
            assert(row_error(buckets[upto - 1], raw[upto - 1]@, raw[upto - 1]@.len()) is Some);
        }
    }
}

/// What the replies of the scripts mean: an insertion succeeds with the one code and names
/// the duplicate by its position, and a deletion succeeds with the number of keys.
pub proof fn law_replies(items: Seq<Item>, code: i64, detail: i64)
    ensures
        insertion_outcome(items, code, detail) is Ok == (code == 1),
        code == 2 && 1 <= detail <= items.len() && detail <= usize::MAX ==> insertion_outcome(
            items,
            code,
            detail,
        ) == Err::<(), BackendError>(BackendError::DuplicateKey { key: items[detail - 1].key }),
        deletion_outcome(code) is Ok == (0 <= code <= usize::MAX),
        deletion_outcome(code) matches Ok(count) ==> count == code,
{
}

/// The parts of a namespace are stored under names that begin alike, and the names of one
/// part differ for different namespaces.
pub proof fn law_names_tell_the_namespace(left: Seq<char>, right: Seq<char>, part: Seq<char>)
    ensures
        (key_name(left, part) == key_name(right, part)) == (left == right),
        key_name(left, part).len() == 5 + left.len() + part.len(),
        key_name(left, part).subrange(5, 5 + left.len() as int) == left,
        key_name(left, part).skip(5 + left.len() as int) == part,
{
    reveal_strlit("pari:");
    assert("pari:"@.len() == 5);
    assert(key_name(left, part).subrange(5, 5 + left.len() as int) =~= left);
    assert(key_name(left, part).skip(5 + left.len() as int) =~= part);
    assert(key_name(right, part).subrange(5, 5 + right.len() as int) =~= right);
}

} // verus!
