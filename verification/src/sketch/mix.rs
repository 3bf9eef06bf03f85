//! Bit mixers and the seed expansion of the permutation families.

use vstd::arithmetic::div_mod;
use vstd::arithmetic::power2;
use vstd::prelude::*;

verus! {

/// The `MurmurHash3` finalizer on 32-bit words.
pub open spec fn spec_fmix32(value: u32) -> u32 {
    let a = value ^ (value >> 16);
    let b = a.wrapping_mul(0x85EB_CA6B);
    let c = b ^ (b >> 13);
    let d = c.wrapping_mul(0xC2B2_AE35);
    d ^ (d >> 16)
}

/// The `MurmurHash3` finalizer on 64-bit words.
pub open spec fn spec_fmix64(value: u64) -> u64 {
    let a = value ^ (value >> 33);
    let b = a.wrapping_mul(0xFF51_AFD7_ED55_8CCD);
    let c = b ^ (b >> 33);
    let d = c.wrapping_mul(0xC4CE_B9FE_1A85_EC53);
    d ^ (d >> 33)
}

/// The output function of `SplitMix64`.
pub open spec fn spec_mix64(value: u64) -> u64 {
    let a = (value ^ (value >> 30)).wrapping_mul(0xBF58_476D_1CE4_E5B9);
    let b = (a ^ (a >> 27)).wrapping_mul(0x94D0_49BB_1331_11EB);
    b ^ (b >> 31)
}

/// The state of a `SplitMix64` generator seeded with `seed` after `steps` draws.
pub open spec fn generator_state(seed: u64, steps: nat) -> u64
    decreases steps,
{
    if steps == 0 {
        seed
    } else {
        generator_state(seed, (steps - 1) as nat).wrapping_add(0x9E37_79B9_7F4A_7C15)
    }
}

/// Draw number `index` of the generator seeded with `seed`.
pub open spec fn draw64(seed: u64, index: nat) -> u64 {
    spec_mix64(generator_state(seed, index + 1))
}

/// The low half of draw number `index`.
pub open spec fn draw32(seed: u64, index: nat) -> u32 {
    (draw64(seed, index) % 0x1_0000_0000) as u32
}

/// The `MurmurHash3` finalizer on 32-bit words.
pub fn fmix32(value: u32) -> (mixed: u32)
    ensures
        mixed == spec_fmix32(value),
{
    let a: u32 = value ^ (value >> 16);
    let b: u32 = a.wrapping_mul(0x85EB_CA6B);
    let c: u32 = b ^ (b >> 13);
    let d: u32 = c.wrapping_mul(0xC2B2_AE35);
    d ^ (d >> 16)
}

/// The `MurmurHash3` finalizer on 64-bit words.
pub fn fmix64(value: u64) -> (mixed: u64)
    ensures
        mixed == spec_fmix64(value),
{
    let a: u64 = value ^ (value >> 33);
    let b: u64 = a.wrapping_mul(0xFF51_AFD7_ED55_8CCD);
    let c: u64 = b ^ (b >> 33);
    let d: u64 = c.wrapping_mul(0xC4CE_B9FE_1A85_EC53);
    d ^ (d >> 33)
}

/// The output function of `SplitMix64`.
pub fn mix64(value: u64) -> (mixed: u64)
    ensures
        mixed == spec_mix64(value),
{
    let a: u64 = (value ^ (value >> 30)).wrapping_mul(0xBF58_476D_1CE4_E5B9);
    let b: u64 = (a ^ (a >> 27)).wrapping_mul(0x94D0_49BB_1331_11EB);
    b ^ (b >> 31)
}

/// A `SplitMix64` generator.
#[derive(Debug, Clone, Copy)]
pub struct SplitMix64 {
    state: u64,
}

impl SplitMix64 {
    /// The generator was seeded with `seed` and has made `drawn` draws.
    pub closed spec fn at(self, seed: u64, drawn: nat) -> bool {
        self.state == generator_state(seed, drawn)
    }

    /// A generator that has made no draw yet.
    pub fn new(seed: u64) -> (generator: Self)
        ensures
            generator.at(seed, 0),
    {
        SplitMix64 { state: seed }
    }

    /// Make one draw.
    pub fn next_u64(&mut self) -> (drawn: u64)
        ensures
            forall|seed: u64, index: nat| #[trigger]
                old(self).at(seed, index) ==> final(self).at(seed, index + 1) && drawn == draw64(
                    seed,
                    index,
                ),
    {
        self.state = self.state.wrapping_add(0x9E37_79B9_7F4A_7C15);
        mix64(self.state)
    }

    /// Make one draw and keep its low half.
    pub fn next_u32(&mut self) -> (drawn: u32)
        ensures
            forall|seed: u64, index: nat| #[trigger]
                old(self).at(seed, index) ==> final(self).at(seed, index + 1) && drawn == draw32(
                    seed,
                    index,
                ),
    {
        (self.next_u64() % 0x1_0000_0000) as u32
    }
}

/// An odd factor takes no part in the divisibility by a power of two.
proof fn lemma_odd_factor(number: int, odd: int, bits: nat)
    requires
        odd % 2 == 1,
        (number * odd) % (power2::pow2(bits) as int) == 0,
    ensures
        number % (power2::pow2(bits) as int) == 0,
    decreases bits,
{
    power2::lemma2_to64();
    if bits > 0 {
        let rest = (bits - 1) as nat;
        let half = power2::pow2(rest) as int;
        let whole = power2::pow2(bits) as int;
        power2::lemma_pow2_pos(rest);
        power2::lemma_pow2_unfold(bits);
        div_mod::lemma_fundamental_div_mod(number * odd, whole);
        let times = (number * odd) / whole;
        let less = odd / 2;
        assert(number * odd == 2 * (number * less) + number) by (nonlinear_arith)
            requires
                odd == 2 * less + 1,
        ;
        assert(number * odd == 2 * (half * times)) by (nonlinear_arith)
            requires
                number * odd == whole * times,
                whole == 2 * half,
        ;
        let part = number / 2;
        assert(number == 2 * part);
        assert(part * odd == half * times) by (nonlinear_arith)
            requires
                number == 2 * part,
                number * odd == 2 * (half * times),
        ;
        assert(half * times == times * half) by (nonlinear_arith);
        div_mod::lemma_mod_multiples_basic(times, half);
        lemma_odd_factor(part, odd, rest);
        div_mod::lemma_fundamental_div_mod(part, half);
        let count = part / half;
        assert(number == count * whole) by (nonlinear_arith)
            requires
                number == 2 * part,
                part == half * count,
                whole == 2 * half,
        ;
        div_mod::lemma_mod_multiples_basic(count, whole);
    }
}

proof fn lemma_odd_products(left: int, right: int, odd: int, bits: nat)
    requires
        0 <= left < power2::pow2(bits),
        0 <= right < power2::pow2(bits),
        odd % 2 == 1,
        (left * odd) % (power2::pow2(bits) as int) == (right * odd) % (power2::pow2(bits) as int),
    ensures
        left == right,
{
    let whole = power2::pow2(bits) as int;
    power2::lemma_pow2_pos(bits);
    div_mod::lemma_mod_equivalence(left * odd, right * odd, whole);
    assert((left - right) * odd == left * odd - right * odd) by (nonlinear_arith);
    lemma_odd_factor(left - right, odd, bits);
    div_mod::lemma_mod_equivalence(left, right, whole);
    div_mod::lemma_small_mod(left as nat, whole as nat);
    div_mod::lemma_small_mod(right as nat, whole as nat);
}

/// Wrapping multiplication by an odd number loses nothing.
pub proof fn law_odd_multiplication_is_injective32(left: u32, right: u32, odd: u32)
    requires
        odd % 2 == 1,
        left.wrapping_mul(odd) == right.wrapping_mul(odd),
    ensures
        left == right,
{
    power2::lemma2_to64();
    lemma_odd_products(left as int, right as int, odd as int, 32);
}

/// Wrapping multiplication by an odd number loses nothing.
pub proof fn law_odd_multiplication_is_injective64(left: u64, right: u64, odd: u64)
    requires
        odd % 2 == 1,
        left.wrapping_mul(odd) == right.wrapping_mul(odd),
    ensures
        left == right,
{
    power2::lemma2_to64();
    lemma_odd_products(left as int, right as int, odd as int, 64);
}

/// The 32-bit finalizer is a permutation: different words stay different.
pub proof fn law_fmix32_is_injective(left: u32, right: u32)
    requires
        spec_fmix32(left) == spec_fmix32(right),
    ensures
        left == right,
{
    assert(forall|x: u32, y: u32| #[trigger] (x ^ (x >> 16)) == #[trigger] (y ^ (y >> 16)) ==> x == y)
        by (bit_vector);
    assert(forall|x: u32, y: u32| #[trigger] (x ^ (x >> 13)) == #[trigger] (y ^ (y >> 13)) ==> x == y)
        by (bit_vector);
    let a = left ^ (left >> 16);
    let b = right ^ (right >> 16);
    let c = a.wrapping_mul(0x85EB_CA6B);
    let d = b.wrapping_mul(0x85EB_CA6B);
    law_odd_multiplication_is_injective32(c ^ (c >> 13), d ^ (d >> 13), 0xC2B2_AE35);
    law_odd_multiplication_is_injective32(a, b, 0x85EB_CA6B);
}

/// The 64-bit finalizer is a permutation: different words stay different.
pub proof fn law_fmix64_is_injective(left: u64, right: u64)
    requires
        spec_fmix64(left) == spec_fmix64(right),
    ensures
        left == right,
{
    assert(forall|x: u64, y: u64| #[trigger] (x ^ (x >> 33)) == #[trigger] (y ^ (y >> 33)) ==> x == y)
        by (bit_vector);
    let a = left ^ (left >> 33);
    let b = right ^ (right >> 33);
    let c = a.wrapping_mul(0xFF51_AFD7_ED55_8CCD);
    let d = b.wrapping_mul(0xFF51_AFD7_ED55_8CCD);
    law_odd_multiplication_is_injective64(c ^ (c >> 33), d ^ (d >> 33), 0xC4CE_B9FE_1A85_EC53);
    law_odd_multiplication_is_injective64(a, b, 0xFF51_AFD7_ED55_8CCD);
}

/// The output function of the generator is a permutation.
pub proof fn law_mix64_is_injective(left: u64, right: u64)
    requires
        spec_mix64(left) == spec_mix64(right),
    ensures
        left == right,
{
    assert(forall|x: u64, y: u64| #[trigger] (x ^ (x >> 30)) == #[trigger] (y ^ (y >> 30)) ==> x == y)
        by (bit_vector);
    assert(forall|x: u64, y: u64| #[trigger] (x ^ (x >> 27)) == #[trigger] (y ^ (y >> 27)) ==> x == y)
        by (bit_vector);
    assert(forall|x: u64, y: u64| #[trigger] (x ^ (x >> 31)) == #[trigger] (y ^ (y >> 31)) ==> x == y)
        by (bit_vector);
    let a = left ^ (left >> 30);
    let b = right ^ (right >> 30);
    let c = a.wrapping_mul(0xBF58_476D_1CE4_E5B9);
    let d = b.wrapping_mul(0xBF58_476D_1CE4_E5B9);
    law_odd_multiplication_is_injective64(c ^ (c >> 27), d ^ (d >> 27), 0x94D0_49BB_1331_11EB);
    law_odd_multiplication_is_injective64(a, b, 0xBF58_476D_1CE4_E5B9);
}

/// Draw number `index` comes from the seed and `index + 1` steps of the golden ratio.
pub proof fn law_states_are_multiples(seed: u64, steps: nat)
    ensures
        generator_state(seed, steps) as int == (seed + steps * 0x9E37_79B9_7F4A_7C15)
            % 0x1_0000_0000_0000_0000,
    decreases steps,
{
    let golden: int = 0x9E37_79B9_7F4A_7C15;
    let whole: int = 0x1_0000_0000_0000_0000;
    if steps == 0 {
        div_mod::lemma_small_mod(seed as nat, whole as nat);
    } else {
        let before = (steps - 1) as nat;
        law_states_are_multiples(seed, before);
        let state = generator_state(seed, before) as int;
        let reached = seed + before * golden;
        assert(seed + steps * golden == reached + golden) by (nonlinear_arith)
            requires
                reached == seed + before * golden,
                steps == before + 1,
        ;
        div_mod::lemma_small_mod(golden as nat, whole as nat);
        div_mod::lemma_add_mod_noop(reached, golden, whole);
        if state + golden < whole {
            div_mod::lemma_small_mod((state + golden) as nat, whole as nat);
        } else {
            div_mod::lemma_small_mod((state + golden - whole) as nat, whole as nat);
            div_mod::lemma_mod_add_multiples_vanish(state + golden - whole, whole);
        }
    }
}

/// A generator does not repeat itself: draws that are less than `2^64` apart differ.
pub proof fn law_draws_do_not_repeat(seed: u64, left: nat, right: nat)
    requires
        draw64(seed, left) == draw64(seed, right),
        left <= right < left + 0x1_0000_0000_0000_0000,
    ensures
        left == right,
{
    power2::lemma2_to64();
    law_mix64_is_injective(generator_state(seed, left + 1), generator_state(seed, right + 1));
    law_states_are_multiples(seed, left + 1);
    law_states_are_multiples(seed, right + 1);
    let golden: int = 0x9E37_79B9_7F4A_7C15;
    let whole: int = 0x1_0000_0000_0000_0000;
    let first = seed + (left + 1) * golden;
    let second = seed + (right + 1) * golden;
    div_mod::lemma_mod_equivalence(second, first, whole);
    assert(second - first == (right - left) * golden);
    lemma_odd_factor(right - left, golden, 64);
    div_mod::lemma_small_mod((right - left) as nat, whole as nat);
}

} // verus!
