//! `MinHash` sketches with 32-bit values.

use vstd::prelude::*;

use crate::ratio::Ratio;
use crate::sketch;
use crate::sketch::hash;
use crate::sketch::mix;
use crate::sketch::mix::SplitMix64;
use crate::sketch::MinHashError;

verus! {

/// Stable identifier of the 32-bit affine `MinHash` scheme.
pub const AFFINE32_SCHEME: &'static str = "pari-affine32-v1";

/// What a 32-bit sketch stands for: the permutation family that its seed and
/// length select, the smallest permuted value seen under each permutation, and
/// whether any value was added.
#[verifier::ext_equal]
pub struct Sketch32 {
    pub seed: u64,
    pub values: Seq<u32>,
    pub added: bool,
}

impl Sketch32 {
    /// The sketch of the empty set.
    pub open spec fn blank(num_perm: nat, seed: u64) -> Sketch32 {
        Sketch32 { seed, values: Seq::new(num_perm, |i: int| u32::MAX), added: false }
    }

    /// The sketch that a signature is read back as. Only a signature of nothing
    /// but the maximum can stand for the empty set.
    pub open spec fn loaded(values: Seq<u32>, seed: u64) -> Sketch32 {
        Sketch32 {
            seed,
            values,
            added: exists|i: int| 0 <= i < values.len() && #[trigger] values[i] != u32::MAX,
        }
    }

    /// The seed and the signature are the same. Whether a value was added does not
    /// tell two sketches apart.
    pub open spec fn same(self, other: Sketch32) -> bool {
        self.seed == other.seed && self.values == other.values
    }

    /// Multiplier of permutation `index`, always odd.
    pub open spec fn multiplier(seed: u64, index: int) -> u32 {
        mix::draw32(seed, index as nat) | 1
    }

    /// Offset of permutation `index` in a family of `num_perm`.
    pub open spec fn offset(seed: u64, num_perm: nat, index: int) -> u32 {
        mix::draw32(seed, num_perm + index as nat)
    }

    /// The value that permutation `index` gives to an input hash.
    pub open spec fn permuted(seed: u64, num_perm: nat, index: int, hash: u32) -> u32 {
        Self::multiplier(seed, index).wrapping_mul(mix::spec_fmix32(hash)).wrapping_add(
            Self::offset(seed, num_perm, index),
        )
    }

    pub open spec fn min(left: u32, right: u32) -> u32 {
        if right < left {
            right
        } else {
            left
        }
    }

    /// The sketch after the input hash `hash` has been added.
    pub open spec fn add_hash(self, hash: u32) -> Sketch32 {
        Sketch32 {
            seed: self.seed,
            values: Seq::new(
                self.values.len(),
                |i: int|
                    Self::min(
                        self.values[i],
                        Self::permuted(self.seed, self.values.len(), i, hash),
                    ),
            ),
            added: true,
        }
    }

    /// The sketch after one byte string has been added.
    pub open spec fn add(self, item: Seq<u8>) -> Sketch32 {
        self.add_hash(hash::digest_hash32(hash::sha1_digest(item)))
    }

    /// The sketch after all of `items` have been added, in order.
    pub open spec fn add_all(self, items: Seq<Seq<u8>>) -> Sketch32
        decreases items.len(),
    {
        if items.len() == 0 {
            self
        } else {
            self.add_all(items.drop_last()).add(items.last())
        }
    }

    /// The pointwise minimum of two sketches. A value was added where one was
    /// added to either.
    pub open spec fn merge(self, other: Sketch32) -> Sketch32 {
        Sketch32 {
            seed: self.seed,
            values: Seq::new(
                self.values.len(),
                |i: int| Self::min(self.values[i], other.values[i]),
            ),
            added: self.added || other.added,
        }
    }

    /// Both sketches have the same permutation family.
    pub open spec fn compatible(self, other: Sketch32) -> bool {
        self.seed == other.seed && self.values.len() == other.values.len()
    }

    /// At how many of the first `upto` positions two signatures agree.
    pub open spec fn agreement(left: Seq<u32>, right: Seq<u32>, upto: nat) -> nat
        decreases upto,
    {
        if upto == 0 {
            0
        } else {
            Self::agreement(left, right, (upto - 1) as nat) + if left[upto - 1] == right[upto - 1] {
                1nat
            } else {
                0nat
            }
        }
    }

    /// Position `index` after adding `items`: the smallest of what was there
    /// and of the permuted hashes.
    proof fn lemma_add_all_value(self, items: Seq<Seq<u8>>, index: int)
        requires
            0 <= index < self.values.len(),
        ensures
            self.add_all(items).seed == self.seed,
            self.add_all(items).values.len() == self.values.len(),
            self.add_all(items).values[index] <= self.values[index],
            forall|k: int|
                0 <= k < items.len() ==> self.add_all(items).values[index] <= #[trigger] self.item(
                    items[k],
                    index,
                ),
            self.add_all(items).values[index] == self.values[index] || exists|k: int|
                0 <= k < items.len() && self.add_all(items).values[index]
                    == #[trigger] self.item(items[k], index),
        decreases items.len(),
    {
        if items.len() > 0 {
            let front = items.drop_last();
            self.lemma_add_all_value(front, index);
            let before = self.add_all(front).values[index];
            assert forall|k: int| 0 <= k < items.len() implies self.add_all(items).values[index]
                <= #[trigger] self.item(items[k], index) by {
                if k < front.len() {
                    assert(front[k] == items[k]);
                }
            }
            if self.add_all(items).values[index] != self.values[index] {
                if self.add_all(items).values[index] == self.item(items.last(), index) {
                    assert(items[items.len() - 1] == items.last());
                } else {
                    let k = choose|k: int|
                        0 <= k < front.len() && before == #[trigger] self.item(front[k], index);
                    assert(front[k] == items[k]);
                }
            }
        }
    }

    /// The value that permutation `index` of this sketch's family gives to a
    /// byte string.
    pub open spec fn item(self, item: Seq<u8>, index: int) -> u32 {
        Self::permuted(
            self.seed,
            self.values.len(),
            index,
            hash::digest_hash32(hash::sha1_digest(item)),
        )
    }

    /// Adding byte strings changes neither the seed nor the length.
    pub(crate) proof fn lemma_add_all_shape(self, items: Seq<Seq<u8>>)
        ensures
            self.add_all(items).seed == self.seed,
            self.add_all(items).values.len() == self.values.len(),
            self.add_all(items).added == (self.added || items.len() > 0),
        decreases items.len(),
    {
        if items.len() > 0 {
            self.lemma_add_all_shape(items.drop_last());
        }
    }

    /// A sketch is equal to the one that is read back from its own signature, even
    /// where every value in it permuted to the maximum.
    pub proof fn law_a_sketch_equals_its_loaded_signature(self)
        ensures
            Self::loaded(self.values, self.seed).same(self),
    {
    }

    /// A value counts as added exactly where a byte string was added since the
    /// sketch was blank, whatever its hash is.
    pub proof fn law_empty_until_a_value_is_added(
        num_perm: nat,
        seed: u64,
        items: Seq<Seq<u8>>,
    )
        ensures
            Self::blank(num_perm, seed).add_all(items).added == (items.len() > 0),
    {
        Self::blank(num_perm, seed).lemma_add_all_shape(items);
    }

    /// Only the set of the added byte strings matters: neither their order nor
    /// how often each occurs.
    pub proof fn law_order_and_repetition_are_irrelevant(
        self,
        left: Seq<Seq<u8>>,
        right: Seq<Seq<u8>>,
    )
        requires
            left.to_set() == right.to_set(),
        ensures
            self.add_all(left) == self.add_all(right),
    {
        self.lemma_add_all_shape(left);
        self.lemma_add_all_shape(right);
        if left.len() > 0 {
            assert(right.to_set().contains(left[0]));
        }
        if right.len() > 0 {
            assert(left.to_set().contains(right[0]));
        }
        assert forall|i: int| 0 <= i < self.values.len() implies self.add_all(left).values[i]
            == self.add_all(right).values[i] by {
            self.lemma_add_all_value(left, i);
            self.lemma_add_all_value(right, i);
            self.lemma_covered(left, right, i);
            self.lemma_covered(right, left, i);
        }
        assert(self.add_all(left) =~= self.add_all(right));
    }

    proof fn lemma_covered(self, left: Seq<Seq<u8>>, right: Seq<Seq<u8>>, index: int)
        requires
            0 <= index < self.values.len(),
            left.to_set() == right.to_set(),
        ensures
            self.add_all(left).values[index] >= self.add_all(right).values[index],
    {
        self.lemma_add_all_value(left, index);
        self.lemma_add_all_value(right, index);
        if self.add_all(left).values[index] != self.values[index] {
            let k = choose|k: int|
                0 <= k < left.len() && self.add_all(left).values[index] == #[trigger] self.item(
                    left[k],
                    index,
                );
            assert(left.to_set().contains(left[k]));
            assert(right.to_set().contains(left[k]));
            let j = choose|j: int| 0 <= j < right.len() && right[j] == left[k];
            assert(self.add_all(right).values[index] <= self.item(right[j], index));
        }
    }

    /// Merging the sketches of two collections gives the sketch of their union.
    pub proof fn law_merge_is_union(
        num_perm: nat,
        seed: u64,
        left: Seq<Seq<u8>>,
        right: Seq<Seq<u8>>,
    )
        ensures
            Self::blank(num_perm, seed).add_all(left).merge(
                Self::blank(num_perm, seed).add_all(right),
            ) == Self::blank(num_perm, seed).add_all(left + right),
    {
        let blank = Self::blank(num_perm, seed);
        blank.lemma_add_all_shape(left);
        blank.lemma_merge_add_all(blank.add_all(left), right);
        assert(blank.add_all(left).merge(blank) =~= blank.add_all(left));
        lemma_add_all_concat32(blank, left, right);
    }

    proof fn lemma_merge_add_all(self, other: Sketch32, items: Seq<Seq<u8>>)
        requires
            self.compatible(other),
        ensures
            other.merge(self.add_all(items)) == other.merge(self).add_all(items),
        decreases items.len(),
    {
        if items.len() > 0 {
            let front = items.drop_last();
            self.lemma_merge_add_all(other, front);
            self.lemma_add_all_shape(front);
            other.merge(self).lemma_add_all_shape(front);
            assert(other.merge(self.add_all(items)) =~= other.merge(self.add_all(front)).add(
                items.last(),
            ));
        }
    }

    /// Merging is commutative, associative and idempotent.
    pub proof fn law_merge_is_a_semilattice(a: Sketch32, b: Sketch32, c: Sketch32)
        requires
            a.compatible(b),
            b.compatible(c),
        ensures
            a.merge(b) == b.merge(a),
            a.merge(b).merge(c) == a.merge(b.merge(c)),
            a.merge(a) == a,
    {
        assert(a.merge(b) =~= b.merge(a));
        assert(a.merge(b).merge(c) =~= a.merge(b.merge(c)));
        assert(a.merge(a) =~= a);
    }

    /// Adding a hash keeps at each position the smaller of the value there and the value
    /// that the permutation gives to the hash.
    pub proof fn law_adding_keeps_the_smaller_values(self, hash: u32, index: int)
        requires
            0 <= index < self.values.len(),
        ensures
            ({
                let given = Self::permuted(self.seed, self.values.len(), index, hash);
                let after = self.add_hash(hash);
                &&& after.seed == self.seed
                &&& after.values.len() == self.values.len()
                &&& after.added
                &&& after.values[index] <= self.values[index]
                &&& after.values[index] <= given
                &&& after.values[index] == self.values[index] || after.values[index] == given
            }),
    {
    }

    /// Merging keeps the smaller value at each position.
    pub proof fn law_merge_keeps_the_smaller_values(self, other: Sketch32, index: int)
        requires
            self.compatible(other),
            0 <= index < self.values.len(),
        ensures
            self.merge(other).seed == self.seed,
            self.merge(other).values.len() == self.values.len(),
            self.merge(other).values[index] <= self.values[index],
            self.merge(other).values[index] <= other.values[index],
            self.merge(other).values[index] == self.values[index] || self.merge(
                other,
            ).values[index] == other.values[index],
            self.merge(other).added == (self.added || other.added),
    {
    }

    /// Sketches are the same exactly where the seeds are the same and the signatures
    /// have the same length and the same value at each position.
    pub proof fn law_sameness(self, other: Sketch32)
        ensures
            self.same(other) == (self.seed == other.seed && self.values.len()
                == other.values.len() && forall|i: int|
                0 <= i < self.values.len() ==> self.values[i] == other.values[i]),
    {
        if self.seed == other.seed && self.values.len() == other.values.len() && forall|i: int|
            0 <= i < self.values.len() ==> self.values[i] == other.values[i] {
            assert(self.values =~= other.values);
        }
    }

    /// Permutation `index` of a family of `num_perm` is affine. Its odd multiplier comes
    /// from draw number `index` of the seed's generator, and its offset from the draw
    /// `num_perm` later.
    pub proof fn law_permutations_are_affine(
        seed: u64,
        num_perm: nat,
        index: int,
        hash: u32,
    )
        requires
            0 <= index,
        ensures
            Self::permuted(seed, num_perm, index, hash) as int == ((mix::draw32(
                seed,
                index as nat,
            ) | 1) * mix::spec_fmix32(hash) + mix::draw32(seed, num_perm + index as nat))
                % 0x1_0000_0000,
    {
        let odd = mix::draw32(seed, index as nat) | 1;
        let mixed = mix::spec_fmix32(hash);
        let offset = mix::draw32(seed, num_perm + index as nat);
        let whole: int = 0x1_0000_0000;
        let product = odd.wrapping_mul(mixed) as int;
        let sum = product + offset;
        vstd::arithmetic::div_mod::lemma_small_mod(offset as nat, whole as nat);
        vstd::arithmetic::div_mod::lemma_add_mod_noop(odd * mixed, offset as int, whole);
        if sum < whole {
            vstd::arithmetic::div_mod::lemma_small_mod(sum as nat, whole as nat);
        } else {
            vstd::arithmetic::div_mod::lemma_small_mod((sum - whole) as nat, whole as nat);
            vstd::arithmetic::div_mod::lemma_mod_add_multiples_vanish(sum - whole, whole);
        }
    }

    /// Every permutation is one: it gives different hashes different values.
    pub proof fn law_permutations_are_injective(
        seed: u64,
        num_perm: nat,
        index: int,
        left: u32,
        right: u32,
    )
        requires
            Self::permuted(seed, num_perm, index, left) == Self::permuted(
                seed,
                num_perm,
                index,
                right,
            ),
        ensures
            left == right,
    {
        let drawn = mix::draw32(seed, index as nat);
        let odd = Self::multiplier(seed, index);
        assert((drawn | 1) % 2 == 1) by (bit_vector);
        let one = mix::spec_fmix32(left);
        let other = mix::spec_fmix32(right);
        assert(one.wrapping_mul(odd) == odd.wrapping_mul(one)) by {
            assert(one as nat * odd as nat == odd as nat * one as nat) by (nonlinear_arith);
        }
        assert(other.wrapping_mul(odd) == odd.wrapping_mul(other)) by {
            assert(other as nat * odd as nat == odd as nat * other as nat) by (nonlinear_arith);
        }
        assert(odd.wrapping_mul(one) == odd.wrapping_mul(other));
        mix::law_odd_multiplication_is_injective32(one, other, odd);
        mix::law_fmix32_is_injective(left, right);
    }

    /// The sketch of a collection holds every byte string of it: at each position it is
    /// the smallest of the values that the permutation gives to their hashes, and the
    /// maximum where there is none.
    pub proof fn law_sketch_holds_every_item(
        num_perm: nat,
        seed: u64,
        items: Seq<Seq<u8>>,
        index: int,
    )
        requires
            0 <= index < num_perm,
        ensures
            Self::blank(num_perm, seed).add_all(items).seed == seed,
            Self::blank(num_perm, seed).add_all(items).values.len() == num_perm,
            forall|k: int|
                0 <= k < items.len() ==> Self::blank(num_perm, seed).add_all(items).values[index]
                    <= Self::permuted(
                    seed,
                    num_perm,
                    index,
                    hash::digest_hash32(hash::sha1_digest(#[trigger] items[k])),
                ),
            items.len() == 0 ==> Self::blank(num_perm, seed).add_all(items).values[index]
                == u32::MAX,
            items.len() > 0 ==> exists|k: int|
                0 <= k < items.len() && Self::blank(num_perm, seed).add_all(items).values[index]
                    == Self::permuted(
                    seed,
                    num_perm,
                    index,
                    hash::digest_hash32(hash::sha1_digest(#[trigger] items[k])),
                ),
    {
        let blank = Self::blank(num_perm, seed);
        blank.lemma_add_all_value(items, index);
        let found = blank.add_all(items).values[index];
        assert forall|k: int| 0 <= k < items.len() implies found <= Self::permuted(
            seed,
            num_perm,
            index,
            hash::digest_hash32(hash::sha1_digest(#[trigger] items[k])),
        ) by {
            assert(found <= blank.item(items[k], index));
        }
        if items.len() > 0 {
            if found == blank.values[index] {
                assert(found <= blank.item(items[0], index));
                assert(found == Self::permuted(
                    seed,
                    num_perm,
                    index,
                    hash::digest_hash32(hash::sha1_digest(items[0])),
                ));
            } else {
                let k = choose|k: int|
                    0 <= k < items.len() && found == #[trigger] blank.item(items[k], index);
                assert(found == Self::permuted(
                    seed,
                    num_perm,
                    index,
                    hash::digest_hash32(hash::sha1_digest(items[k])),
                ));
            }
        }
    }

    /// Adding a byte string that is already in a sketch leaves it as it is.
    pub proof fn law_adding_again_changes_nothing(self, items: Seq<Seq<u8>>, again: int)
        requires
            0 <= again < items.len(),
        ensures
            self.add_all(items).add(items[again]) == self.add_all(items),
    {
        let repeated = items.push(items[again]);
        assert(repeated.drop_last() =~= items);
        assert forall|item: Seq<u8>| repeated.to_set().contains(item) == items.to_set().contains(
            item,
        ) by {
            if repeated.to_set().contains(item) {
                let k = choose|k: int| 0 <= k < repeated.len() && repeated[k] == item;
                if k == items.len() {
                    assert(items[again] == item);
                } else {
                    assert(items[k] == item);
                }
            }
            if items.to_set().contains(item) {
                let k = choose|k: int| 0 <= k < items.len() && items[k] == item;
                assert(repeated[k] == item);
            }
        }
        assert(repeated.to_set() =~= items.to_set());
        self.law_order_and_repetition_are_irrelevant(repeated, items);
    }

    /// Agreement is the number of the positions at which the signatures have the same
    /// value.
    pub proof fn law_agreement_counts_the_equal_positions(
        left: Seq<u32>,
        right: Seq<u32>,
        upto: nat,
    )
        ensures
            Set::<int>::new(|i: int| 0 <= i < upto && left[i] == right[i]).finite(),
            Self::agreement(left, right, upto) == Set::<int>::new(
                |i: int| 0 <= i < upto && left[i] == right[i],
            ).len(),
        decreases upto,
    {
        let all = Set::<int>::new(|i: int| 0 <= i < upto && left[i] == right[i]);
        if upto == 0 {
            assert(all =~= Set::<int>::empty());
        } else {
            let shorter = (upto - 1) as nat;
            Self::law_agreement_counts_the_equal_positions(left, right, shorter);
            let front = Set::<int>::new(|i: int| 0 <= i < shorter && left[i] == right[i]);
            if left[upto - 1] == right[upto - 1] {
                assert(all =~= front.insert(upto - 1));
            } else {
                assert(all =~= front);
            }
        }
    }

    /// Changing one value of a signature changes the agreement by what that position
    /// gains or loses.
    pub proof fn law_one_value_changes_the_agreement_by_one(
        left: Seq<u32>,
        right: Seq<u32>,
        upto: nat,
        at: int,
        value: u32,
    )
        requires
            0 <= at < upto <= left.len(),
        ensures
            Self::agreement(left.update(at, value), right, upto) == Self::agreement(
                left,
                right,
                upto,
            ) + (if value == right[at] {
                1int
            } else {
                0
            }) - (if left[at] == right[at] {
                1int
            } else {
                0
            }),
        decreases upto,
    {
        if at == upto - 1 {
            Self::lemma_agreement_of_prefix(left.update(at, value), left, right, at as nat);
        } else {
            Self::law_one_value_changes_the_agreement_by_one(
                left,
                right,
                (upto - 1) as nat,
                at,
                value,
            );
        }
    }

    proof fn lemma_agreement_of_prefix(
        one: Seq<u32>,
        other: Seq<u32>,
        right: Seq<u32>,
        upto: nat,
    )
        requires
            forall|i: int| 0 <= i < upto ==> one[i] == other[i],
        ensures
            Self::agreement(one, right, upto) == Self::agreement(other, right, upto),
        decreases upto,
    {
        if upto > 0 {
            Self::lemma_agreement_of_prefix(one, other, right, (upto - 1) as nat);
        }
    }

    /// Agreement is symmetric, never more than the number of positions, and
    /// complete exactly for equal signatures.
    pub proof fn law_agreement(left: Seq<u32>, right: Seq<u32>, upto: nat)
        requires
            upto <= left.len(),
            upto <= right.len(),
        ensures
            Self::agreement(left, right, upto) == Self::agreement(right, left, upto),
            Self::agreement(left, right, upto) <= upto,
            (Self::agreement(left, right, upto) == upto) == (left.take(upto as int) == right.take(
                upto as int,
            )),
        decreases upto,
    {
        if upto > 0 {
            let shorter = (upto - 1) as nat;
            Self::law_agreement(left, right, shorter);
            if left.take(upto as int) == right.take(upto as int) {
                assert(left.take(upto as int)[upto - 1] == right.take(upto as int)[upto - 1]);
                assert(left.take(shorter as int) =~= left.take(upto as int).take(shorter as int));
                assert(right.take(shorter as int) =~= right.take(upto as int).take(
                    shorter as int,
                ));
            }
            if Self::agreement(left, right, upto) == upto {
                assert forall|i: int| 0 <= i < upto implies left[i] == right[i] by {
                    if i < shorter {
                        assert(left.take(shorter as int)[i] == right.take(shorter as int)[i]);
                    }
                }
                assert(left.take(upto as int) =~= right.take(upto as int));
            }
        } else {
            assert(left.take(0) =~= right.take(0));
        }
    }
}

proof fn lemma_add_all_concat32(sketch: Sketch32, left: Seq<Seq<u8>>, right: Seq<Seq<u8>>)
    ensures
        sketch.add_all(left).add_all(right) == sketch.add_all(left + right),
    decreases right.len(),
{
    if right.len() == 0 {
        assert(left + right =~= left);
    } else {
        lemma_add_all_concat32(sketch, left, right.drop_last());
        assert((left + right).drop_last() =~= left + right.drop_last());
    }
}

fn differs_from_maximum(values: &Vec<u32>) -> (differs: bool)
    ensures
        differs == (exists|i: int| 0 <= i < values@.len() && #[trigger] values@[i] != u32::MAX),
{
    let mut index: usize = 0;
    while index < values.len()
        invariant
            index <= values@.len(),
            forall|i: int| 0 <= i < index ==> values@[i] == u32::MAX,
        decreases values@.len() - index,
    {
        if values[index] != u32::MAX {
            assert(values@[index as int] != u32::MAX);
            return true;
        }
        index = index + 1;
    }
    false
}

/// Return whether two signatures are the same.
fn same_values(left: &Vec<u32>, right: &Vec<u32>) -> (same: bool)
    ensures
        same == (left@ == right@),
{
    if left.len() != right.len() {
        return false;
    }
    let mut index: usize = 0;
    while index < left.len()
        invariant
            index <= left@.len(),
            left@.len() == right@.len(),
            left@.take(index as int) == right@.take(index as int),
        decreases left@.len() - index,
    {
        if left[index] != right[index] {
            return false;
        }
        assert(left@.take(index + 1) =~= left@.take(index as int).push(left@[index as int]));
        assert(right@.take(index + 1) =~= right@.take(index as int).push(right@[index as int]));
        index = index + 1;
    }
    assert(left@.take(index as int) =~= left@);
    assert(right@.take(index as int) =~= right@);
    true
}

/// A 32-bit `MinHash` using affine permutations modulo `2^32`.
///
/// Inputs are mixed with the `MurmurHash3` finalizer, then mapped by
/// `a * h + b` with wrapping arithmetic and odd multipliers that a `SplitMix64`
/// generator draws from the seed.
#[derive(Debug, Clone, Eq)]
pub struct MinHash32 {
    seed: u64,
    hashvalues: Vec<u32>,
    multipliers: Vec<u32>,
    offsets: Vec<u32>,
    added: bool,
}

impl View for MinHash32 {
    type V = Sketch32;

    closed spec fn view(&self) -> Sketch32 {
        Sketch32 { seed: self.seed, values: self.hashvalues@, added: self.added }
    }
}

/// Two sketches are equal where their seeds and their signatures are. The seed and
/// the length of the signature determine the permutations.
impl PartialEq for MinHash32 {
    fn eq(&self, other: &MinHash32) -> (equal: bool) {
        self.seed == other.seed && same_values(&self.hashvalues, &other.hashvalues)
    }
}

impl vstd::std_specs::cmp::PartialEqSpecImpl for MinHash32 {
    open spec fn obeys_eq_spec() -> bool {
        true
    }

    open spec fn eq_spec(&self, other: &MinHash32) -> bool {
        self@.same(other@)
    }
}

impl MinHash32 {
    /// The permutation parameters are those of the seed, the permutation count
    /// is a valid one, and only a value that was added changes the signature.
    pub closed spec fn wf(&self) -> bool {
        &&& sketch::valid_num_perm(self.hashvalues@.len())
        &&& self.multipliers@.len() == self.hashvalues@.len()
        &&& self.offsets@.len() == self.hashvalues@.len()
        &&& forall|i: int|
            0 <= i < self.multipliers@.len() ==> self.multipliers@[i] == Sketch32::multiplier(
                self.seed,
                i,
            )
        &&& forall|i: int|
            0 <= i < self.offsets@.len() ==> self.offsets@[i] == Sketch32::offset(
                self.seed,
                self.hashvalues@.len(),
                i,
            )
        &&& !self.added ==> forall|i: int|
            0 <= i < self.hashvalues@.len() ==> self.hashvalues@[i] == u32::MAX
    }

    pub proof fn lemma_wf(&self)
        requires
            self.wf(),
        ensures
            sketch::valid_num_perm(self@.values.len()),
            self@.values.len() <= usize::MAX,
            !self@.added ==> self@ == Sketch32::blank(self@.values.len(), self@.seed),
    {
        assert(self.hashvalues.len() == self.hashvalues@.len());
        if !self.added {
            assert(self@ =~= Sketch32::blank(self@.values.len(), self@.seed));
        }
    }

    /// Create an empty sketch with `num_perm` deterministic permutations.
    pub fn new(num_perm: usize, seed: u64) -> (result: Result<Self, MinHashError>)
        ensures
            match result {
                Ok(sketch) => sketch::valid_num_perm(num_perm as nat) && sketch.wf() && sketch@
                    == Sketch32::blank(num_perm as nat, seed),
                Err(error) => !sketch::valid_num_perm(num_perm as nat) && error
                    == MinHashError::InvalidPermutationCount { requested: num_perm },
            },
    {
        match sketch::validate_num_perm(num_perm) {
            Ok(()) => {},
            Err(error) => {
                return Err(error);
            },
        }
        let mut generator = SplitMix64::new(seed);
        let mut multipliers: Vec<u32> = Vec::with_capacity(num_perm);
        let mut offsets: Vec<u32> = Vec::with_capacity(num_perm);
        let mut hashvalues: Vec<u32> = Vec::with_capacity(num_perm);
        let mut drawn: usize = 0;
        while drawn < num_perm
            invariant
                drawn <= num_perm,
                generator.at(seed, drawn as nat),
                multipliers@.len() == drawn,
                forall|i: int|
                    0 <= i < multipliers@.len() ==> multipliers@[i] == Sketch32::multiplier(
                        seed,
                        i,
                    ),
            decreases num_perm - drawn,
        {
            multipliers.push(generator.next_u32() | 1);
            drawn = drawn + 1;
        }
        drawn = 0;
        while drawn < num_perm
            invariant
                drawn <= num_perm,
                generator.at(seed, num_perm as nat + drawn as nat),
                offsets@.len() == drawn,
                hashvalues@.len() == drawn,
                forall|i: int|
                    0 <= i < offsets@.len() ==> offsets@[i] == Sketch32::offset(
                        seed,
                        num_perm as nat,
                        i,
                    ),
                forall|i: int| 0 <= i < hashvalues@.len() ==> hashvalues@[i] == u32::MAX,
            decreases num_perm - drawn,
        {
            offsets.push(generator.next_u32());
            hashvalues.push(u32::MAX);
            drawn = drawn + 1;
        }
        let sketch = MinHash32 { seed, hashvalues, multipliers, offsets, added: false };
        assert(sketch@ =~= Sketch32::blank(num_perm as nat, seed));
        Ok(sketch)
    }

    /// Reconstruct a sketch from an already computed signature.
    ///
    /// The seed recreates the permutations, so the sketch can be updated and
    /// merged after loading. The signature length is the permutation count. A
    /// signature of nothing but the maximum is that of an empty sketch.
    pub fn from_signature(signature: Vec<u32>, seed: u64) -> (result: Result<Self, MinHashError>)
        ensures
            match result {
                Ok(sketch) => sketch::valid_num_perm(signature@.len()) && sketch.wf() && sketch@
                    == Sketch32::loaded(signature@, seed),
                Err(error) => !sketch::valid_num_perm(signature@.len()) && error
                    == MinHashError::InvalidPermutationCount { requested: signature.len() },
            },
    {
        match Self::new(signature.len(), seed) {
            Ok(sketch) => {
                let added = differs_from_maximum(&signature);
                Ok(
                    MinHash32 {
                        seed,
                        hashvalues: signature,
                        multipliers: sketch.multipliers,
                        offsets: sketch.offsets,
                        added,
                    },
                )
            },
            Err(error) => Err(error),
        }
    }

    /// Update the sketch with one byte string.
    pub fn update(&mut self, value: &[u8])
        requires
            old(self).wf(),
        ensures
            final(self).wf(),
            final(self)@ == old(self)@.add(value@),
    {
        self.update_hashed(hash::sha1_hash32(value));
    }

    /// Update the sketch with many byte strings.
    pub fn update_many(&mut self, values: &[&[u8]])
        requires
            old(self).wf(),
        ensures
            final(self).wf(),
            final(self)@ == old(self)@.add_all(values@.map_values(|value: &[u8]| value@)),
    {
        let ghost items = values@.map_values(|value: &[u8]| value@);
        let ghost start = self@;
        let mut index: usize = 0;
        assert(items.take(0) =~= Seq::empty());
        while index < values.len()
            invariant
                index <= values@.len(),
                items == values@.map_values(|value: &[u8]| value@),
                self.wf(),
                self@ == start.add_all(items.take(index as int)),
            decreases values@.len() - index,
        {
            self.update(values[index]);
            proof {
                let next = items.take(index + 1);
                assert(next.drop_last() =~= items.take(index as int));
                assert(next.last() == values@[index as int]@);
            }
            index = index + 1;
        }
        assert(items.take(index as int) =~= items);
    }

    /// Estimate the Jaccard similarity with another compatible sketch: the
    /// number of agreeing signature positions over the number of permutations.
    pub fn jaccard(&self, other: &Self) -> (result: Result<Ratio, MinHashError>)
        requires
            self.wf(),
            other.wf(),
        ensures
            match result {
                Ok(ratio) => self@.compatible(other@) && ratio.numerator as nat
                    == Sketch32::agreement(self@.values, other@.values, self@.values.len())
                    && ratio.denominator as nat == self@.values.len() && ratio.numerator as nat
                    == Set::<int>::new(
                    |i: int| 0 <= i < self@.values.len() && self@.values[i] == other@.values[i],
                ).len(),
                Err(error) => Some(error) == sketch::incompatibility(
                    self@.seed,
                    self@.values.len() as usize,
                    other@.seed,
                    other@.values.len() as usize,
                ),
            },
    {
        match self.ensure_compatible(other) {
            Ok(()) => {},
            Err(error) => {
                return Err(error);
            },
        }
        let total: usize = self.hashvalues.len();
        let mut matches: u64 = 0;
        let mut index: usize = 0;
        while index < total
            invariant
                index <= total,
                total <= u32::MAX,
                total == self.hashvalues@.len(),
                total == other.hashvalues@.len(),
                matches <= index,
                matches as nat == Sketch32::agreement(
                    self.hashvalues@,
                    other.hashvalues@,
                    index as nat,
                ),
            decreases total - index,
        {
            if self.hashvalues[index] == other.hashvalues[index] {
                matches = matches + 1;
            }
            index = index + 1;
        }
        proof {
            Sketch32::law_agreement_counts_the_equal_positions(
                self.hashvalues@,
                other.hashvalues@,
                total as nat,
            );
        }
        Ok(Ratio { numerator: matches, denominator: total as u64 })
    }

    /// Merge another compatible sketch into this one, representing the union
    /// of the two source sets.
    pub fn merge(&mut self, other: &Self) -> (result: Result<(), MinHashError>)
        requires
            old(self).wf(),
            other.wf(),
        ensures
            final(self).wf(),
            match result {
                Ok(()) => old(self)@.compatible(other@) && final(self)@ == old(self)@.merge(other@),
                Err(error) => final(self)@ == old(self)@ && Some(error) == sketch::incompatibility(
                    old(self)@.seed,
                    old(self)@.values.len() as usize,
                    other@.seed,
                    other@.values.len() as usize,
                ),
            },
    {
        match self.ensure_compatible(other) {
            Ok(()) => {},
            Err(error) => {
                return Err(error);
            },
        }
        let ghost before = *self;
        let total: usize = self.hashvalues.len();
        let mut index: usize = 0;
        while index < total
            invariant
                index <= total,
                total == self.hashvalues@.len(),
                total == other.hashvalues@.len(),
                total == before.hashvalues@.len(),
                before.wf(),
                self.seed == before.seed,
                self.multipliers == before.multipliers,
                self.offsets == before.offsets,
                self.added == before.added,
                forall|i: int|
                    0 <= i < index ==> self.hashvalues@[i] == Sketch32::min(
                        before.hashvalues@[i],
                        other.hashvalues@[i],
                    ),
                forall|i: int|
                    index <= i < total ==> self.hashvalues@[i] == before.hashvalues@[i],
            decreases total - index,
        {
            if other.hashvalues[index] < self.hashvalues[index] {
                self.hashvalues[index] = other.hashvalues[index];
            }
            index = index + 1;
        }
        if other.added {
            self.added = true;
        }
        assert(self@ =~= before@.merge(other@));
        Ok(())
    }

    /// Reset the sketch to its empty state without rebuilding permutations.
    pub fn clear(&mut self)
        requires
            old(self).wf(),
        ensures
            final(self).wf(),
            final(self)@ == Sketch32::blank(old(self)@.values.len(), old(self)@.seed),
    {
        let ghost before = *self;
        let total: usize = self.hashvalues.len();
        let mut index: usize = 0;
        while index < total
            invariant
                index <= total,
                total == self.hashvalues@.len(),
                total == before.hashvalues@.len(),
                before.wf(),
                self.seed == before.seed,
                self.multipliers == before.multipliers,
                self.offsets == before.offsets,
                self.added == before.added,
                forall|i: int| 0 <= i < index ==> self.hashvalues@[i] == u32::MAX,
            decreases total - index,
        {
            self.hashvalues[index] = u32::MAX;
            index = index + 1;
        }
        self.added = false;
        assert(self@ =~= Sketch32::blank(before@.values.len(), before@.seed));
    }

    /// Return whether no values have been added since construction or reset.
    pub fn is_empty(&self) -> (empty: bool)
        ensures
            empty == !self@.added,
    {
        !self.added
    }

    /// Borrow the signature values.
    pub fn signature(&self) -> (signature: &[u32])
        ensures
            signature@ == self@.values,
    {
        self.hashvalues.as_slice()
    }

    /// Borrow the multipliers and the offsets of the permutations.
    pub fn permutations(&self) -> (result: (&[u32], &[u32]))
        requires
            self.wf(),
        ensures
            result.0@ == Seq::new(
                self@.values.len(),
                |i: int| Sketch32::multiplier(self@.seed, i),
            ),
            result.1@ == Seq::new(
                self@.values.len(),
                |i: int| Sketch32::offset(self@.seed, self@.values.len(), i),
            ),
    {
        (self.multipliers.as_slice(), self.offsets.as_slice())
    }

    /// Return the permutation seed.
    pub fn seed(&self) -> (seed: u64)
        ensures
            seed == self@.seed,
    {
        self.seed
    }

    /// Return the number of permutation values in the signature.
    pub fn num_perm(&self) -> (num_perm: usize)
        ensures
            num_perm == self@.values.len(),
    {
        self.hashvalues.len()
    }

    /// Return the stable scheme identifier.
    pub fn scheme(&self) -> (scheme: &'static str)
        ensures
            scheme@ == AFFINE32_SCHEME@,
    {
        AFFINE32_SCHEME
    }

    /// Update the sketch with an input hash.
    pub fn update_hashed(&mut self, hash: u32)
        requires
            old(self).wf(),
        ensures
            final(self).wf(),
            final(self)@ == old(self)@.add_hash(hash),
    {
        let ghost before = *self;
        let mixed: u32 = mix::fmix32(hash);
        let total: usize = self.hashvalues.len();
        let mut index: usize = 0;
        while index < total
            invariant
                index <= total,
                total == self.hashvalues@.len(),
                total == before.hashvalues@.len(),
                mixed == mix::spec_fmix32(hash),
                before.wf(),
                self.seed == before.seed,
                self.multipliers == before.multipliers,
                self.offsets == before.offsets,
                self.added == before.added,
                forall|i: int|
                    0 <= i < index ==> self.hashvalues@[i] == Sketch32::min(
                        before.hashvalues@[i],
                        Sketch32::permuted(before.seed, total as nat, i, hash),
                    ),
                forall|i: int|
                    index <= i < total ==> self.hashvalues@[i] == before.hashvalues@[i],
            decreases total - index,
        {
            let permuted: u32 = self.multipliers[index].wrapping_mul(mixed).wrapping_add(
                self.offsets[index],
            );
            if permuted < self.hashvalues[index] {
                self.hashvalues[index] = permuted;
            }
            index = index + 1;
        }
        self.added = true;
        assert(self@ =~= before@.add_hash(hash));
    }

    fn ensure_compatible(&self, other: &Self) -> (result: Result<(), MinHashError>)
        ensures
            result == (match sketch::incompatibility(
                self@.seed,
                self@.values.len() as usize,
                other@.seed,
                other@.values.len() as usize,
            ) {
                Some(error) => Err::<(), MinHashError>(error),
                None => Ok::<(), MinHashError>(()),
            }),
            result is Ok == self@.compatible(other@),
    {
        sketch::ensure_compatible(
            self.seed,
            self.hashvalues.len(),
            other.seed,
            other.hashvalues.len(),
        )
    }
}

} // verus!
