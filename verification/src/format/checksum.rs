//! CRC-32 checksums.

use vstd::prelude::*;

verus! {

/// The polynomial of CRC-32 (IEEE), lowest degree in the highest bit.
pub const POLYNOMIAL: u32 = 0xEDB8_8320;

/// The state after one bit.
pub open spec fn shifted(state: u32) -> u32 {
    if state & 1 == 1 {
        (state >> 1) ^ POLYNOMIAL
    } else {
        state >> 1
    }
}

/// The state after so many bits.
pub open spec fn shifted_by(state: u32, bits: nat) -> u32
    decreases bits,
{
    if bits == 0 {
        state
    } else {
        shifted(shifted_by(state, (bits - 1) as nat))
    }
}

/// The state after a byte.
pub open spec fn fed_byte(state: u32, byte: u8) -> u32 {
    shifted_by(state ^ (byte as u32), 8)
}

/// The state after bytes.
#[verifier::opaque]
pub open spec fn fed(state: u32, data: Seq<u8>) -> u32
    decreases data.len(),
{
    if data.len() == 0 {
        state
    } else {
        fed_byte(fed(state, data.drop_last()), data.last())
    }
}

/// The checksum of bytes that follow bytes with the checksum `sum`.
pub open spec fn continued(sum: u32, data: Seq<u8>) -> u32 {
    !fed(!sum, data)
}

/// The CRC-32 (IEEE) checksum of a byte string.
pub open spec fn crc32(data: Seq<u8>) -> u32 {
    continued(0, data)
}

/// Calls `crc32fast::hash`. The contract says that it computes the CRC-32 (IEEE)
/// checksum.
#[verifier::external_body]
pub(crate) fn checksum(data: &[u8]) -> (sum: u32)
    ensures
        sum == crc32(data@),
{
    crc32fast::hash(data)
}

/// Calls `crc32fast::Hasher` with an initial checksum. The contract says that the
/// hasher continues from there.
#[verifier::external_body]
fn continue_checksum(sum: u32, data: &[u8]) -> (extended: u32)
    ensures
        extended == continued(sum, data@),
{
    let mut hasher = crc32fast::Hasher::new_with_initial(sum);
    hasher.update(data);
    hasher.finalize()
}

/// The checksum of bytes with the checksum `sum` and of more bytes behind them.
pub(crate) fn extend_checksum(sum: u32, data: &[u8]) -> (extended: u32)
    ensures
        extended == continued(sum, data@),
        forall|prefix: Seq<u8>| #[trigger]
            crc32(prefix) == sum ==> extended == crc32(prefix + data@),
{
    let extended: u32 = continue_checksum(sum, data);
    proof {
        assert forall|prefix: Seq<u8>| #[trigger] crc32(prefix) == sum implies extended == crc32(
            prefix + data@,
        ) by {
            law_checksums_continue(prefix, data@);
        }
    }
    extended
}

proof fn lemma_fed_parts(state: u32, front: Seq<u8>, back: Seq<u8>)
    ensures
        fed(fed(state, front), back) == fed(state, front + back),
    decreases back.len(),
{
    reveal(fed);
    if back.len() == 0 {
        assert(front + back =~= front);
    } else {
        lemma_fed_parts(state, front, back.drop_last());
        assert((front + back).drop_last() =~= front + back.drop_last());
    }
}

/// The checksum of two byte strings in a row continues the checksum of the first.
pub proof fn law_checksums_continue(front: Seq<u8>, back: Seq<u8>)
    ensures
        crc32(front + back) == continued(crc32(front), back),
{
    let state = fed(!0u32, front);
    assert(!(!state) == state) by (bit_vector);
    lemma_fed_parts(!0u32, front, back);
}

proof fn lemma_shifted_injective(left: u32, right: u32)
    requires
        shifted(left) == shifted(right),
    ensures
        left == right,
{
    assert(shifted(left) == shifted(right) ==> left == right) by (bit_vector);
}

proof fn lemma_shifted_by_injective(left: u32, right: u32, bits: nat)
    requires
        shifted_by(left, bits) == shifted_by(right, bits),
    ensures
        left == right,
    decreases bits,
{
    if bits > 0 {
        let shorter = (bits - 1) as nat;
        lemma_shifted_injective(shifted_by(left, shorter), shifted_by(right, shorter));
        lemma_shifted_by_injective(left, right, shorter);
    }
}

/// The same byte keeps different states apart.
proof fn lemma_state_survives(left: u32, right: u32, byte: u8)
    requires
        fed_byte(left, byte) == fed_byte(right, byte),
    ensures
        left == right,
{
    lemma_shifted_by_injective(left ^ (byte as u32), right ^ (byte as u32), 8);
    assert(left ^ (byte as u32) == right ^ (byte as u32) ==> left == right) by (bit_vector);
}

/// Different bytes lead from one state to different ones.
proof fn lemma_byte_matters(state: u32, left: u8, right: u8)
    requires
        fed_byte(state, left) == fed_byte(state, right),
    ensures
        left == right,
{
    lemma_shifted_by_injective(state ^ (left as u32), state ^ (right as u32), 8);
    assert(state ^ (left as u32) == state ^ (right as u32) ==> left == right) by (bit_vector);
}

proof fn lemma_fed_injective(left: u32, right: u32, data: Seq<u8>)
    requires
        fed(left, data) == fed(right, data),
    ensures
        left == right,
    decreases data.len(),
{
    reveal(fed);
    if data.len() > 0 {
        let front = data.drop_last();
        lemma_state_survives(fed(left, front), fed(right, front), data.last());
        lemma_fed_injective(left, right, front);
    }
}

/// One altered byte always changes the checksum.
pub proof fn law_one_altered_byte_changes_the_checksum(data: Seq<u8>, at: int, byte: u8)
    requires
        0 <= at < data.len(),
        byte != data[at],
    ensures
        crc32(data.update(at, byte)) != crc32(data),
{
    reveal(fed);
    let altered = data.update(at, byte);
    let front = data.take(at);
    let back = data.skip(at + 1);
    let state = fed(!0u32, front);
    let one = front.push(data[at]);
    let other = front.push(byte);
    assert(one.drop_last() =~= front);
    assert(other.drop_last() =~= front);
    assert(one + back =~= data);
    assert(other + back =~= altered);
    lemma_fed_parts(!0u32, one, back);
    lemma_fed_parts(!0u32, other, back);
    let left = fed(!0u32, data);
    let right = fed(!0u32, altered);
    assert(!left == !right ==> left == right) by (bit_vector);
    if crc32(altered) == crc32(data) {
        lemma_fed_injective(fed(!0u32, one), fed(!0u32, other), back);
        lemma_byte_matters(state, data[at], byte);
    }
}

} // verus!
