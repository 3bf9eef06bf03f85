//! Fixed-width unsigned integers as byte strings, least significant byte first.

use vstd::prelude::*;

verus! {

/// `256` to the power of `exponent`.
pub open spec fn pow256(exponent: nat) -> nat
    decreases exponent,
{
    if exponent == 0 {
        1
    } else {
        256 * pow256((exponent - 1) as nat)
    }
}

/// The low `width` base-256 digits of `value`, least significant digit first.
pub open spec fn bytes(value: nat, width: nat) -> Seq<u8>
    decreases width,
{
    if width == 0 {
        Seq::empty()
    } else {
        seq![(value % 256) as u8] + bytes(value / 256, (width - 1) as nat)
    }
}

/// The number whose base-256 digits are `digits`, least significant digit first.
pub open spec fn value(digits: Seq<u8>) -> nat
    decreases digits.len(),
{
    if digits.len() == 0 {
        0
    } else {
        digits[0] as nat + 256 * value(digits.skip(1))
    }
}

/// The `u16` held by the two bytes of `data` from offset `at`.
pub open spec fn u16_at(data: Seq<u8>, at: int) -> u16 {
    value(data.subrange(at, at + 2)) as u16
}

/// The `u32` held by the four bytes of `data` from offset `at`.
pub open spec fn u32_at(data: Seq<u8>, at: int) -> u32 {
    value(data.subrange(at, at + 4)) as u32
}

/// The `u64` held by the eight bytes of `data` from offset `at`.
pub open spec fn u64_at(data: Seq<u8>, at: int) -> u64 {
    value(data.subrange(at, at + 8)) as u64
}

pub proof fn lemma_pow256_values()
    ensures
        pow256(0) == 1,
        pow256(1) == 0x100,
        pow256(2) == 0x1_0000,
        pow256(4) == 0x1_0000_0000,
        pow256(8) == 0x1_0000_0000_0000_0000,
{
    reveal_with_fuel(pow256, 9);
}

pub proof fn lemma_pow256_positive(exponent: nat)
    ensures
        pow256(exponent) >= 1,
    decreases exponent,
{
    if exponent > 0 {
        lemma_pow256_positive((exponent - 1) as nat);
    }
}

/// Encoding to `width` digits gives exactly `width` bytes.
pub broadcast proof fn lemma_bytes_len(number: nat, width: nat)
    ensures
        #[trigger] bytes(number, width).len() == width,
    decreases width,
{
    if width > 0 {
        lemma_bytes_len(number / 256, (width - 1) as nat);
    }
}

/// A string of `n` digits denotes a number below `256` to the power of `n`.
pub proof fn lemma_value_bound(digits: Seq<u8>)
    ensures
        value(digits) < pow256(digits.len()),
    decreases digits.len(),
{
    if digits.len() > 0 {
        lemma_value_bound(digits.skip(1));
    }
}

/// Decoding gives back every number that fits in `width` digits.
pub proof fn lemma_value_of_bytes(number: nat, width: nat)
    requires
        number < pow256(width),
    ensures
        value(bytes(number, width)) == number,
    decreases width,
{
    if width > 0 {
        let rest = bytes(number / 256, (width - 1) as nat);
        assert(number / 256 < pow256((width - 1) as nat)) by (nonlinear_arith)
            requires
                number < 256 * pow256((width - 1) as nat),
        ;
        lemma_value_of_bytes(number / 256, (width - 1) as nat);
        assert(bytes(number, width).skip(1) =~= rest);
    }
}

/// Encoding gives back every digit string.
pub proof fn lemma_bytes_of_value(digits: Seq<u8>)
    ensures
        bytes(value(digits), digits.len()) == digits,
    decreases digits.len(),
{
    if digits.len() == 0 {
        assert(bytes(value(digits), 0) =~= digits);
    } else {
        let rest = digits.skip(1);
        lemma_bytes_of_value(rest);
        assert(value(digits) / 256 == value(rest) && value(digits) % 256 == digits[0] as nat)
            by (nonlinear_arith)
            requires
                value(digits) == digits[0] as nat + 256 * value(rest),
                (digits[0] as nat) < 256,
        ;
        assert(bytes(value(digits), digits.len()) =~= digits);
    }
}

/// Two numbers that fit in `width` digits and have the same digits are equal.
pub proof fn lemma_bytes_injective(left: nat, right: nat, width: nat)
    requires
        left < pow256(width),
        right < pow256(width),
        bytes(left, width) == bytes(right, width),
    ensures
        left == right,
{
    lemma_value_of_bytes(left, width);
    lemma_value_of_bytes(right, width);
}

fn push(out: &mut Vec<u8>, number: u64, width: usize)
    ensures
        final(out)@ == old(out)@ + bytes(number as nat, width as nat),
{
    let mut rest: u64 = number;
    let mut done: usize = 0;
    while done < width
        invariant
            done <= width,
            out@ + bytes(rest as nat, (width - done) as nat) == old(out)@ + bytes(
                number as nat,
                width as nat,
            ),
        decreases width - done,
    {
        let ghost before = out@;
        let ghost tail = bytes((rest / 256) as nat, (width - done - 1) as nat);
        out.push((rest % 256) as u8);
        assert(before + (seq![(rest % 256) as u8] + tail) =~= out@ + tail);
        rest = rest / 256;
        done = done + 1;
    }
    assert(out@ + bytes(rest as nat, 0) =~= out@);
}

/// Append `number` as two bytes.
pub fn push_u16(out: &mut Vec<u8>, number: u16)
    ensures
        final(out)@ == old(out)@ + bytes(number as nat, 2),
{
    push(out, number as u64, 2);
}

/// Append `number` as four bytes.
pub fn push_u32(out: &mut Vec<u8>, number: u32)
    ensures
        final(out)@ == old(out)@ + bytes(number as nat, 4),
{
    push(out, number as u64, 4);
}

/// Append `number` as eight bytes.
pub fn push_u64(out: &mut Vec<u8>, number: u64)
    ensures
        final(out)@ == old(out)@ + bytes(number as nat, 8),
{
    push(out, number, 8);
}

fn read(data: &[u8], at: usize, width: usize) -> (number: u64)
    requires
        at + width <= data@.len(),
        width <= 8,
    ensures
        number as nat == value(data@.subrange(at as int, at + width)),
        number < pow256(width as nat),
{
    let size: usize = data.len();
    let mut left: usize = width;
    let mut number: u64 = 0;
    proof {
        lemma_pow256_values();
        assert(data@.subrange(at + width, at + width).len() == 0);
    }
    while left > 0
        invariant
            left <= width,
            width <= 8,
            at + width <= size,
            size == data@.len(),
            number as nat == value(data@.subrange(at + left, at + width)),
        decreases left,
    {
        let ghost tail = data@.subrange(at + left, at + width);
        let ghost whole = data@.subrange(at + left - 1, at + width);
        proof {
            lemma_value_bound(tail);
            lemma_value_bound(whole);
            lemma_pow256_small((width - left + 1) as nat);
            assert(whole.skip(1) =~= tail);
            assert(whole[0] == data@[at + left - 1]);
        }
        let digit: u64 = data[at + left - 1] as u64;
        number = number * 256 + digit;
        left = left - 1;
    }
    proof {
        lemma_value_bound(data@.subrange(at as int, at + width));
    }
    number
}

proof fn lemma_pow256_small(exponent: nat)
    requires
        exponent <= 8,
    ensures
        pow256(exponent) <= 0x1_0000_0000_0000_0000,
{
    reveal_with_fuel(pow256, 9);
}

/// Read the two bytes at `at`.
pub fn read_u16(data: &[u8], at: usize) -> (number: u16)
    requires
        at + 2 <= data@.len(),
    ensures
        number == u16_at(data@, at as int),
        number as nat == value(data@.subrange(at as int, at + 2)),
{
    proof {
        lemma_pow256_values();
    }
    read(data, at, 2) as u16
}

/// Read the four bytes at `at`.
pub fn read_u32(data: &[u8], at: usize) -> (number: u32)
    requires
        at + 4 <= data@.len(),
    ensures
        number == u32_at(data@, at as int),
        number as nat == value(data@.subrange(at as int, at + 4)),
{
    proof {
        lemma_pow256_values();
    }
    read(data, at, 4) as u32
}

/// Read the eight bytes at `at`.
pub fn read_u64(data: &[u8], at: usize) -> (number: u64)
    requires
        at + 8 <= data@.len(),
    ensures
        number == u64_at(data@, at as int),
        number as nat == value(data@.subrange(at as int, at + 8)),
{
    read(data, at, 8)
}

/// Two bytes hold a number, the low byte first.
pub proof fn law_u16_is_little_endian(data: Seq<u8>, at: int)
    requires
        0 <= at,
        at + 2 <= data.len(),
    ensures
        u16_at(data, at) == data[at] + 0x100 * data[at + 1],
{
    let digits = data.subrange(at, at + 2);
    reveal_with_fuel(value, 3);
    assert(digits.skip(1)[0] == data[at + 1]);
    assert(digits.skip(1).skip(1) =~= Seq::empty());
}

/// Four bytes hold a number, the low byte first.
pub proof fn law_u32_is_little_endian(data: Seq<u8>, at: int)
    requires
        0 <= at,
        at + 4 <= data.len(),
    ensures
        u32_at(data, at) == data[at] + 0x100 * data[at + 1] + 0x1_0000 * data[at + 2]
            + 0x100_0000 * data[at + 3],
{
    let digits = data.subrange(at, at + 4);
    let high = data.subrange(at + 2, at + 4);
    law_u16_is_little_endian(data, at + 2);
    lemma_value_bound(high);
    lemma_pow256_values();
    assert(digits.skip(1).skip(1) =~= high);
    assert(digits.skip(1)[0] == data[at + 1]);
    assert(value(digits) == digits[0] + 256 * value(digits.skip(1)));
    assert(value(digits.skip(1)) == data[at + 1] + 256 * value(high));
}

/// Eight bytes hold a number, the low half first.
pub proof fn law_u64_is_little_endian(data: Seq<u8>, at: int)
    requires
        0 <= at,
        at + 8 <= data.len(),
    ensures
        u64_at(data, at) == u32_at(data, at) + 0x1_0000_0000 * u32_at(data, at + 4),
{
    let digits = data.subrange(at, at + 8);
    let high = data.subrange(at + 4, at + 8);
    law_u32_is_little_endian(data, at);
    lemma_value_bound(high);
    lemma_value_bound(digits);
    lemma_pow256_values();
    let a = digits.skip(1);
    let b = a.skip(1);
    let c = b.skip(1);
    assert(c.skip(1) =~= high);
    assert(a[0] == data[at + 1]);
    assert(b[0] == data[at + 2]);
    assert(c[0] == data[at + 3]);
    assert(value(digits) == digits[0] + 256 * value(a));
    assert(value(a) == a[0] + 256 * value(b));
    assert(value(b) == b[0] + 256 * value(c));
    assert(value(c) == c[0] + 256 * value(high));
}

/// Written bytes are the digits of the number: each is what is left of the number after
/// the digits before it.
pub proof fn law_written_digits(number: nat, width: nat, index: int)
    requires
        0 <= index < width,
    ensures
        bytes(number, width).len() == width,
        bytes(number, width)[index] as nat == (number / pow256(index as nat)) % 256,
    decreases width,
{
    let rest = (width - 1) as nat;
    lemma_bytes_len(number, width);
    lemma_bytes_len(number / 256, rest);
    assert(bytes(number, width) == seq![(number % 256) as u8] + bytes(number / 256, rest));
    if index > 0 {
        let before = (index - 1) as nat;
        law_written_digits(number / 256, rest, index - 1);
        lemma_pow256_positive(before);
        assert(pow256(index as nat) == 256 * pow256(before));
        vstd::arithmetic::div_mod::lemma_div_denominator(
            number as int,
            256,
            pow256(before) as int,
        );
        assert(bytes(number, width)[index] == bytes(number / 256, rest)[index - 1]);
    } else {
        assert(pow256(0) == 1);
        assert(number / 1 == number);
        assert(bytes(number, width)[0] == (number % 256) as u8);
    }
}

} // verus!
