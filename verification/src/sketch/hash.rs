//! SHA-1 based input hashes.

use sha1::{Digest, Sha1};
use vstd::prelude::*;

use crate::le;

verus! {

/// The SHA-1 digest of a byte string, as `sha1::Sha1` computes it.
pub uninterp spec fn sha1_digest(data: Seq<u8>) -> Seq<u8>;

/// Calls `sha1::Sha1::digest`. The contract names the digest and says that it
/// has the twenty bytes of a SHA-1 digest.
#[verifier::external_body]
fn digest(data: &[u8]) -> (result: Vec<u8>)
    ensures
        result@ == sha1_digest(data@),
        result@.len() == 20,
{
    Sha1::digest(data).to_vec()
}

/// The 32-bit input hash that belongs to a SHA-1 digest: its first four bytes
/// in little-endian order.
pub open spec fn digest_hash32(digest: Seq<u8>) -> u32 {
    le::u32_at(digest, 0)
}

/// The 64-bit input hash that belongs to a SHA-1 digest: its first eight bytes
/// in little-endian order.
pub open spec fn digest_hash64(digest: Seq<u8>) -> u64 {
    le::u64_at(digest, 0)
}

/// Read the 32-bit input hash out of a digest.
pub fn hash32_of_digest(digest: &[u8]) -> (hash: u32)
    requires
        digest@.len() >= 4,
    ensures
        hash == digest_hash32(digest@),
{
    le::read_u32(digest, 0)
}

/// Read the 64-bit input hash out of a digest.
pub fn hash64_of_digest(digest: &[u8]) -> (hash: u64)
    requires
        digest@.len() >= 8,
    ensures
        hash == digest_hash64(digest@),
{
    le::read_u64(digest, 0)
}

/// Hash bytes to a 32-bit value: the first four bytes of the SHA-1 digest in
/// little-endian order.
pub fn sha1_hash32(data: &[u8]) -> (hash: u32)
    ensures
        hash == digest_hash32(sha1_digest(data@)),
{
    let digest = digest(data);
    hash32_of_digest(digest.as_slice())
}

/// Hash bytes to a 64-bit value: the first eight bytes of the SHA-1 digest in
/// little-endian order.
pub fn sha1_hash64(data: &[u8]) -> (hash: u64)
    ensures
        hash == digest_hash64(sha1_digest(data@)),
{
    let digest = digest(data);
    hash64_of_digest(digest.as_slice())
}

/// The hash of a digest has the first bytes of the digest as its bytes, lowest first, so
/// digests have one hash exactly where these bytes are the same.
pub proof fn law_hashes_hold_the_first_bytes(left: Seq<u8>, right: Seq<u8>)
    requires
        left.len() == 20,
        right.len() == 20,
    ensures
        digest_hash32(left) as int == left[0] + 0x100 * left[1] + 0x1_0000 * left[2] + 0x100_0000
            * left[3],
        (digest_hash32(left) == digest_hash32(right)) == (left.take(4) == right.take(4)),
        digest_hash64(left) as int == digest_hash32(left) + 0x1_0000_0000 * (left[4] + 0x100
            * left[5] + 0x1_0000 * left[6] + 0x100_0000 * left[7]),
        (digest_hash64(left) == digest_hash64(right)) == (left.take(8) == right.take(8)),
{
    le::law_u32_is_little_endian(left, 0);
    le::law_u32_is_little_endian(right, 0);
    le::law_u64_is_little_endian(left, 0);
    le::law_u64_is_little_endian(right, 0);
    le::law_u32_is_little_endian(left, 4);
    le::law_u32_is_little_endian(right, 4);
    if left.take(4) == right.take(4) {
        assert forall|i: int| 0 <= i < 4 implies left[i] == right[i] by {
            assert(left.take(4)[i] == right.take(4)[i]);
        }
    }
    if left.take(8) == right.take(8) {
        assert forall|i: int| 0 <= i < 8 implies left[i] == right[i] by {
            assert(left.take(8)[i] == right.take(8)[i]);
        }
    }
    if digest_hash32(left) == digest_hash32(right) {
        assert(left.take(4) =~= right.take(4));
    }
    if digest_hash64(left) == digest_hash64(right) {
        assert(le::u32_at(left, 0) == le::u32_at(right, 0));
        assert(le::u32_at(left, 4) == le::u32_at(right, 4));
        assert(left.take(8) =~= right.take(8));
    }
}

} // verus!
