//! Banding parameters, band hashes and their errors.

use vstd::prelude::*;

use crate::sketch;
use crate::sketch::mix;
use crate::threshold::Threshold;

verus! {

/// The largest permutation count for which parameters are tuned automatically.
pub const MAX_AUTO_TUNE_PERMUTATIONS: usize = 4_096;

/// Start value of the band hash.
pub const FNV_OFFSET_BASIS: u64 = 0xCBF2_9CE4_8422_2325;

/// Multiplier of the band hash.
pub const FNV_PRIME: u64 = 0x0000_0100_0000_01B3;

/// Errors returned by the LSH index and its parameters.
#[derive(Debug, Clone, Copy, PartialEq, Eq, Structural)]
pub enum LshError {
    /// The requested similarity threshold is not finite or is outside `(0, 1]`.
    InvalidThreshold { threshold: Threshold },
    /// The requested signature length is zero or does not fit in 32 bits.
    InvalidPermutationCount { requested: usize },
    /// Automatic parameter tuning is bounded; callers with very large
    /// signatures supply explicit [`LshParams`].
    AutomaticTuningTooLarge { requested: usize, max: usize },
    /// Bands and rows are zero, overflow, or consume more values than the
    /// configured signature length.
    InvalidParams { bands: usize, rows: usize, num_perm: usize },
    /// A supplied sketch was built from a different permutation seed.
    IncompatibleSeed { expected: u64, actual: u64 },
    /// A supplied sketch has a different signature length.
    IncompatiblePermutationCount { expected: usize, actual: usize },
    /// The external key already exists in the index or appears twice in one
    /// insertion batch.
    DuplicateKey { key: u64 },
    /// The append-only internal identifier space would be exhausted.
    TooManyItems,
}

/// The number of LSH bands and rows used from each `MinHash` signature.
#[derive(Debug, Clone, Copy, PartialEq, Eq, Structural)]
pub struct LshParams {
    /// Number of independent hash tables.
    pub bands: usize,
    /// Number of consecutive signature values in each band.
    pub rows: usize,
}

impl LshParams {
    /// Both counts are positive and the bands fit in a signature of `num_perm`
    /// values.
    pub open spec fn fits(self, num_perm: nat) -> bool {
        &&& self.bands > 0
        &&& self.rows > 0
        &&& self.bands * self.rows <= num_perm
    }

    /// Construct explicit LSH parameters.
    pub fn new(bands: usize, rows: usize) -> (params: LshParams)
        ensures
            params == (LshParams { bands, rows }),
    {
        LshParams { bands, rows }
    }

    /// The number of signature values consumed by the bands, if it fits in a
    /// `usize`.
    pub fn used_permutations(self) -> (used: Option<usize>)
        ensures
            used == (if self.bands * self.rows <= usize::MAX {
                Some((self.bands * self.rows) as usize)
            } else {
                None::<usize>
            }),
    {
        self.bands.checked_mul(self.rows)
    }

    /// The parameters to which a candidate list and its error estimates lead.
    ///
    /// An estimate is the bit pattern of a non-negative double, so patterns are
    /// ordered as the estimates are. The smallest estimate wins; among equal
    /// ones the candidate that uses more permutations wins, and among those the
    /// one that comes first.
    pub open spec fn best(candidates: Seq<LshParams>, errors: Seq<u64>, upto: nat) -> int
        decreases upto,
    {
        if upto <= 1 {
            0
        } else {
            let champion = Self::best(candidates, errors, (upto - 1) as nat);
            let challenger = upto - 1;
            if errors[challenger] < errors[champion] || (errors[challenger] == errors[champion]
                && candidates[challenger].bands * candidates[challenger].rows
                > candidates[champion].bands * candidates[champion].rows) {
                challenger
            } else {
                champion
            }
        }
    }
}

impl LshParams {
    /// Choose bands and rows among the tuning candidates by their error
    /// estimates.
    pub fn tune(
        threshold: Threshold,
        num_perm: usize,
        candidates: &[LshParams],
        errors: &[u64],
    ) -> (result: Result<LshParams, LshError>)
        requires
            candidates@.len() == errors@.len(),
            tuning_error(threshold, num_perm) is None ==> is_candidate_list(
                candidates@,
                num_perm as nat,
            ),
        ensures
            match result {
                Ok(params) => tuning_error(threshold, num_perm) is None && params.fits(
                    num_perm as nat,
                ) && params == candidates@[LshParams::best(
                    candidates@,
                    errors@,
                    candidates@.len(),
                )],
                Err(error) => tuning_error(threshold, num_perm) == Some(error),
            },
    {
        match validate_tuning(threshold, num_perm) {
            Ok(()) => {},
            Err(error) => {
                return Err(error);
            },
        }
        proof {
            assert((LshParams { bands: 1, rows: 1 }).fits(num_perm as nat));
            assert(candidates@.contains(LshParams { bands: 1, rows: 1 }));
        }
        Ok(select_params(candidates, errors, num_perm))
    }
}

/// Why no parameters can be tuned for a threshold and a permutation count, if
/// they cannot.
pub open spec fn tuning_error(threshold: Threshold, num_perm: usize) -> Option<LshError> {
    if !threshold.valid() {
        Some(LshError::InvalidThreshold { threshold })
    } else if !sketch::valid_num_perm(num_perm as nat) {
        Some(LshError::InvalidPermutationCount { requested: num_perm })
    } else if num_perm > MAX_AUTO_TUNE_PERMUTATIONS {
        Some(
            LshError::AutomaticTuningTooLarge {
                requested: num_perm,
                max: MAX_AUTO_TUNE_PERMUTATIONS,
            },
        )
    } else {
        None
    }
}

/// Why an index cannot be created with these parameters, if it cannot.
pub open spec fn configuration_error(
    threshold: Threshold,
    num_perm: usize,
    params: LshParams,
) -> Option<LshError> {
    if !threshold.valid() {
        Some(LshError::InvalidThreshold { threshold })
    } else if !sketch::valid_num_perm(num_perm as nat) {
        Some(LshError::InvalidPermutationCount { requested: num_perm })
    } else if !params.fits(num_perm as nat) {
        Some(LshError::InvalidParams { bands: params.bands, rows: params.rows, num_perm })
    } else {
        None
    }
}

/// `Err` of an error that is there, `Ok` where there is none.
pub open spec fn outcome(error: Option<LshError>) -> Result<(), LshError> {
    match error {
        Some(error) => Err(error),
        None => Ok(()),
    }
}

/// Accept the thresholds in `(0, 1]`.
pub fn validate_threshold(threshold: Threshold) -> (result: Result<(), LshError>)
    ensures
        result == (if threshold.valid() {
            Ok::<(), LshError>(())
        } else {
            Err(LshError::InvalidThreshold { threshold })
        }),
{
    if !threshold.is_valid() {
        return Err(LshError::InvalidThreshold { threshold });
    }
    Ok(())
}

/// Accept the permutation counts that a sketch can have.
pub fn validate_num_perm(num_perm: usize) -> (result: Result<(), LshError>)
    ensures
        result == (if sketch::valid_num_perm(num_perm as nat) {
            Ok::<(), LshError>(())
        } else {
            Err(LshError::InvalidPermutationCount { requested: num_perm })
        }),
{
    if num_perm == 0 || num_perm as u64 > u32::MAX as u64 {
        return Err(LshError::InvalidPermutationCount { requested: num_perm });
    }
    Ok(())
}

/// Accept the parameters that fit in a signature of `num_perm` values.
pub fn validate_params(params: LshParams, num_perm: usize) -> (result: Result<(), LshError>)
    ensures
        result == (if params.fits(num_perm as nat) {
            Ok::<(), LshError>(())
        } else {
            Err(LshError::InvalidParams { bands: params.bands, rows: params.rows, num_perm })
        }),
{
    let refused = LshError::InvalidParams { bands: params.bands, rows: params.rows, num_perm };
    match params.used_permutations() {
        None => Err(refused),
        Some(used) => {
            if params.bands == 0 || params.rows == 0 || used > num_perm {
                Err(refused)
            } else {
                Ok(())
            }
        },
    }
}

/// Accept exactly the requests for which parameters can be tuned.
pub fn validate_tuning(threshold: Threshold, num_perm: usize) -> (result: Result<(), LshError>)
    ensures
        result == outcome(tuning_error(threshold, num_perm)),
{
    match validate_threshold(threshold) {
        Ok(()) => {},
        Err(error) => {
            return Err(error);
        },
    }
    match validate_num_perm(num_perm) {
        Ok(()) => {},
        Err(error) => {
            return Err(error);
        },
    }
    if num_perm > MAX_AUTO_TUNE_PERMUTATIONS {
        return Err(
            LshError::AutomaticTuningTooLarge {
                requested: num_perm,
                max: MAX_AUTO_TUNE_PERMUTATIONS,
            },
        );
    }
    Ok(())
}

/// The running value of the band hash after `values`.
pub open spec fn fnv(values: Seq<u32>) -> u64
    decreases values.len(),
{
    if values.len() == 0 {
        FNV_OFFSET_BASIS
    } else {
        (fnv(values.drop_last()) ^ (values.last() as u64)).wrapping_mul(FNV_PRIME)
    }
}

/// The hash of one band of signature values.
pub open spec fn spec_hash_band(values: Seq<u32>) -> u64 {
    mix::spec_fmix64(fnv(values) ^ (values.len() as u64))
}

/// The values of band `band` when every band has `rows` values.
pub open spec fn band_values(signature: Seq<u32>, rows: nat, band: int) -> Seq<u32> {
    signature.subrange(band * rows, (band + 1) * rows)
}

/// The hashes of all bands of a signature.
pub open spec fn spec_band_hashes(signature: Seq<u32>, params: LshParams) -> Seq<u64> {
    Seq::new(
        params.bands as nat,
        |band: int| spec_hash_band(band_values(signature, params.rows as nat, band)),
    )
}

/// Hash one band of signature values.
pub fn hash_band(values: &[u32]) -> (hash: u64)
    ensures
        hash == spec_hash_band(values@),
{
    let mut hash: u64 = FNV_OFFSET_BASIS;
    let mut index: usize = 0;
    assert(values@.take(0) =~= Seq::empty());
    while index < values.len()
        invariant
            index <= values@.len(),
            hash == fnv(values@.take(index as int)),
        decreases values@.len() - index,
    {
        proof {
            let next = values@.take(index + 1);
            assert(next.drop_last() =~= values@.take(index as int));
            assert(next.last() == values@[index as int]);
        }
        hash = (hash ^ (values[index] as u64)).wrapping_mul(FNV_PRIME);
        index = index + 1;
    }
    assert(values@.take(index as int) =~= values@);
    mix::fmix64(hash ^ (values.len() as u64))
}

/// Band number `band` lies within the signature.
pub proof fn lemma_band_range(params: LshParams, num_perm: nat, band: int)
    requires
        params.fits(num_perm),
        0 <= band < params.bands,
    ensures
        0 <= band * params.rows,
        (band + 1) * params.rows == band * params.rows + params.rows,
        (band + 1) * params.rows <= params.bands * params.rows,
{
    assert(0 <= band * params.rows && (band + 1) * params.rows == band * params.rows + params.rows
        && (band + 1) * params.rows <= params.bands * params.rows) by (nonlinear_arith)
        requires
            0 <= band < params.bands,
            params.rows > 0,
    ;
}

/// Hash every band of a signature.
pub fn band_hashes(signature: &[u32], params: LshParams) -> (hashes: Vec<u64>)
    requires
        params.fits(signature@.len()),
    ensures
        hashes@ == spec_band_hashes(signature@, params),
{
    let mut hashes: Vec<u64> = Vec::with_capacity(params.bands);
    let size: usize = signature.len();
    let mut band: usize = 0;
    let mut start: usize = 0;
    while band < params.bands
        invariant
            band <= params.bands,
            size == signature@.len(),
            params.fits(size as nat),
            start == band * params.rows,
            hashes@.len() == band,
            forall|b: int|
                0 <= b < band ==> hashes@[b] == spec_hash_band(
                    band_values(signature@, params.rows as nat, b),
                ),
        decreases params.bands - band,
    {
        proof {
            lemma_band_range(params, size as nat, band as int);
        }
        let end: usize = start + params.rows;
        hashes.push(hash_band(vstd::slice::slice_subrange(signature, start, end)));
        band = band + 1;
        start = end;
    }
    assert(hashes@ =~= spec_band_hashes(signature@, params));
    hashes
}

/// Every pair of bands and rows that fits in `num_perm` values, in the order in
/// which the tuner weighs them: by bands, then by rows.
pub open spec fn is_candidate_list(candidates: Seq<LshParams>, num_perm: nat) -> bool {
    &&& forall|i: int| 0 <= i < candidates.len() ==> (#[trigger] candidates[i]).fits(num_perm)
    &&& forall|params: LshParams| #[trigger]
        params.fits(num_perm) ==> candidates.contains(params)
    &&& forall|i: int, j: int|
        0 <= i < j < candidates.len() ==> (#[trigger] candidates[i]).bands < (
        #[trigger] candidates[j]).bands || (candidates[i].bands == candidates[j].bands
            && candidates[i].rows < candidates[j].rows)
}

/// List the candidates that the tuner weighs.
pub fn candidate_params(num_perm: usize) -> (candidates: Vec<LshParams>)
    requires
        num_perm < usize::MAX,
    ensures
        is_candidate_list(candidates@, num_perm as nat),
{
    let mut candidates: Vec<LshParams> = Vec::new();
    let mut bands: usize = 1;
    while bands <= num_perm
        invariant
            1 <= bands <= num_perm + 1,
            num_perm < usize::MAX,
            forall|i: int|
                0 <= i < candidates@.len() ==> (#[trigger] candidates@[i]).fits(num_perm as nat)
                    && candidates@[i].bands < bands,
            forall|params: LshParams| #[trigger]
                params.fits(num_perm as nat) && params.bands < bands ==> candidates@.contains(
                    params,
                ),
            forall|i: int, j: int|
                0 <= i < j < candidates@.len() ==> (#[trigger] candidates@[i]).bands < (
                #[trigger] candidates@[j]).bands || (candidates@[i].bands == candidates@[j].bands
                    && candidates@[i].rows < candidates@[j].rows),
        decreases num_perm + 1 - bands,
    {
        let most: usize = num_perm / bands;
        let mut rows: usize = 1;
        while rows <= most
            invariant
                1 <= bands <= num_perm,
                num_perm < usize::MAX,
                most == num_perm / bands,
                1 <= rows <= most + 1,
                forall|i: int|
                    0 <= i < candidates@.len() ==> (#[trigger] candidates@[i]).fits(
                        num_perm as nat,
                    ) && (candidates@[i].bands < bands || (candidates@[i].bands == bands
                        && candidates@[i].rows < rows)),
                forall|params: LshParams| #[trigger]
                    params.fits(num_perm as nat) && (params.bands < bands || (params.bands == bands
                        && params.rows < rows)) ==> candidates@.contains(params),
                forall|i: int, j: int|
                    0 <= i < j < candidates@.len() ==> (#[trigger] candidates@[i]).bands < (
                    #[trigger] candidates@[j]).bands || (candidates@[i].bands
                        == candidates@[j].bands && candidates@[i].rows < candidates@[j].rows),
            decreases most + 1 - rows,
        {
            let ghost before = candidates@;
            let next = LshParams { bands, rows };
            proof {
                assert(bands * rows <= num_perm) by (nonlinear_arith)
                    requires
                        rows <= num_perm / bands,
                        bands > 0,
                ;
                assert(next.fits(num_perm as nat));
                assert(most <= num_perm) by (nonlinear_arith)
                    requires
                        most == num_perm / bands,
                        bands > 0,
                ;
            }
            candidates.push(next);
            rows = rows + 1;
            proof {
                assert forall|params: LshParams| #[trigger]
                    params.fits(num_perm as nat) && (params.bands < bands || (params.bands == bands
                        && params.rows < rows)) implies candidates@.contains(params) by {
                    if params == next {
                        assert(candidates@[before.len() as int] == params);
                    } else {
                        assert(before.contains(params));
                        let k = choose|k: int| 0 <= k < before.len() && before[k] == params;
                        assert(candidates@[k] == params);
                    }
                }
            }
        }
        proof {
            assert forall|params: LshParams| #[trigger]
                params.fits(num_perm as nat) && params.bands < bands + 1 implies candidates@.contains(
                params,
            ) by {
                if params.bands == bands {
                    assert(params.rows <= most) by (nonlinear_arith)
                        requires
                            params.bands == bands,
                            params.bands * params.rows <= num_perm,
                            most == num_perm / bands,
                            bands > 0,
                    ;
                }
            }
        }
        bands = bands + 1;
    }
    proof {
        assert forall|params: LshParams| #[trigger] params.fits(num_perm as nat) implies candidates@.contains(
            params,
        ) by {
            assert(params.bands <= num_perm) by (nonlinear_arith)
                requires
                    params.bands * params.rows <= num_perm,
                    params.rows >= 1,
                    params.bands >= 0,
            ;
        }
    }
    candidates
}

/// Choose among tuning candidates by their error estimates.
pub fn select_params(candidates: &[LshParams], errors: &[u64], num_perm: usize) -> (params:
    LshParams)
    requires
        candidates@.len() > 0,
        candidates@.len() == errors@.len(),
        forall|i: int|
            0 <= i < candidates@.len() ==> (#[trigger] candidates@[i]).fits(num_perm as nat),
    ensures
        params == candidates@[LshParams::best(candidates@, errors@, candidates@.len())],
        params.fits(num_perm as nat),
{
    let mut best: usize = 0;
    let mut index: usize = 1;
    while index < candidates.len()
        invariant
            1 <= index <= candidates@.len(),
            best < index,
            best == LshParams::best(candidates@, errors@, index as nat),
            candidates@.len() == errors@.len(),
            forall|i: int|
                0 <= i < candidates@.len() ==> (#[trigger] candidates@[i]).fits(num_perm as nat),
        decreases candidates@.len() - index,
    {
        let challenger = candidates[index];
        let champion = candidates[best];
        assert(candidates@[index as int].fits(num_perm as nat));
        assert(candidates@[best as int].fits(num_perm as nat));
        if errors[index] < errors[best] || (errors[index] == errors[best] && challenger.bands
            * challenger.rows > champion.bands * champion.rows) {
            best = index;
        }
        index = index + 1;
    }
    assert(candidates@[best as int].fits(num_perm as nat));
    candidates[best]
}

/// The choice has the smallest error estimate, and of the candidates that share
/// it none uses more permutations.
pub proof fn law_selection_is_optimal(candidates: Seq<LshParams>, errors: Seq<u64>, upto: nat)
    requires
        0 < upto <= candidates.len(),
        candidates.len() == errors.len(),
    ensures
        0 <= LshParams::best(candidates, errors, upto) < upto,
        forall|i: int|
            0 <= i < upto ==> {
                let best = LshParams::best(candidates, errors, upto);
                errors[best] < #[trigger] errors[i] || (errors[best] == errors[i]
                    && candidates[i].bands * candidates[i].rows <= candidates[best].bands
                    * candidates[best].rows)
            },
    decreases upto,
{
    if upto > 1 {
        law_selection_is_optimal(candidates, errors, (upto - 1) as nat);
    }
}

/// The band hash is one fold over all values of the band, in order, with the length
/// mixed in.
pub proof fn law_band_hash_folds_every_value(values: Seq<u32>)
    ensures
        spec_hash_band(values) == mix::spec_fmix64(
            values.fold_left(
                0xCBF2_9CE4_8422_2325u64,
                |hash: u64, value: u32| (hash ^ (value as u64)).wrapping_mul(0x0000_0100_0000_01B3),
            ) ^ (values.len() as u64),
        ),
{
    lemma_fnv_folds(values);
}

proof fn lemma_fnv_folds(values: Seq<u32>)
    ensures
        fnv(values) == values.fold_left(
            0xCBF2_9CE4_8422_2325u64,
            |hash: u64, value: u32| (hash ^ (value as u64)).wrapping_mul(0x0000_0100_0000_01B3),
        ),
    decreases values.len(),
{
    if values.len() > 0 {
        lemma_fnv_folds(values.drop_last());
    }
}

/// The same value keeps different running hashes apart.
proof fn lemma_running_hash_survives(left: u64, right: u64, value: u32)
    requires
        (left ^ (value as u64)).wrapping_mul(FNV_PRIME) == (right ^ (value as u64)).wrapping_mul(
            FNV_PRIME,
        ),
    ensures
        left == right,
{
    mix::law_odd_multiplication_is_injective64(
        left ^ (value as u64),
        right ^ (value as u64),
        FNV_PRIME,
    );
    assert(left ^ (value as u64) == right ^ (value as u64) ==> left == right) by (bit_vector);
}

/// Different values lead from one running hash to different ones.
proof fn lemma_value_matters(hash: u64, left: u32, right: u32)
    requires
        (hash ^ (left as u64)).wrapping_mul(FNV_PRIME) == (hash ^ (right as u64)).wrapping_mul(
            FNV_PRIME,
        ),
    ensures
        left == right,
{
    mix::law_odd_multiplication_is_injective64(
        hash ^ (left as u64),
        hash ^ (right as u64),
        FNV_PRIME,
    );
    assert(hash ^ (left as u64) == hash ^ (right as u64) ==> left == right) by (bit_vector);
}

proof fn lemma_fnv_of_one_difference(values: Seq<u32>, at: int, value: u32)
    requires
        0 <= at < values.len(),
        value != values[at],
    ensures
        fnv(values.update(at, value)) != fnv(values),
    decreases values.len(),
{
    let other = values.update(at, value);
    let front = values.drop_last();
    if at == values.len() - 1 {
        assert(other.drop_last() =~= front);
        if fnv(other) == fnv(values) {
            lemma_value_matters(fnv(front), value, values[at]);
        }
    } else {
        assert(other.drop_last() =~= front.update(at, value));
        lemma_fnv_of_one_difference(front, at, value);
        if fnv(other) == fnv(values) {
            lemma_running_hash_survives(
                fnv(front.update(at, value)),
                fnv(front),
                values.last(),
            );
        }
    }
}

/// Every value of a band counts: two bands of the same length that differ in exactly
/// one position have different hashes.
pub proof fn law_every_value_of_a_band_counts(values: Seq<u32>, at: int, value: u32)
    requires
        0 <= at < values.len(),
        value != values[at],
    ensures
        spec_hash_band(values.update(at, value)) != spec_hash_band(values),
{
    let other = values.update(at, value);
    lemma_fnv_of_one_difference(values, at, value);
    if spec_hash_band(other) == spec_hash_band(values) {
        let size = values.len() as u64;
        let left = fnv(other);
        let right = fnv(values);
        mix::law_fmix64_is_injective(left ^ size, right ^ size);
        assert(left ^ size == right ^ size ==> left == right) by (bit_vector);
    }
}

/// There is one hash for each band. The hash of a band depends on the values at its own
/// positions and on nothing else: two signatures that agree there have the same hash in
/// that band.
pub proof fn law_bands_are_hashed_alone(
    left: Seq<u32>,
    right: Seq<u32>,
    params: LshParams,
    band: int,
)
    requires
        params.fits(left.len()),
        params.fits(right.len()),
        0 <= band < params.bands,
        forall|i: int|
            band * params.rows <= i < (band + 1) * params.rows ==> left[i] == right[i],
    ensures
        spec_band_hashes(left, params).len() == params.bands,
        spec_band_hashes(right, params).len() == params.bands,
        spec_band_hashes(left, params)[band] == spec_band_hashes(right, params)[band],
{
    lemma_band_range(params, left.len(), band);
    lemma_band_range(params, right.len(), band);
    let rows = params.rows as nat;
    assert(band_values(left, rows, band) =~= band_values(right, rows, band));
}

/// The hash of a band is the hash of its own values in their order.
pub proof fn law_band_hash_of_a_signature(signature: Seq<u32>, params: LshParams, band: int)
    requires
        params.fits(signature.len()),
        0 <= band < params.bands,
    ensures
        spec_band_hashes(signature, params)[band] == spec_hash_band(
            signature.skip(band * params.rows).take(params.rows as int),
        ),
{
    lemma_band_range(params, signature.len(), band);
    assert(signature.skip(band * params.rows).take(params.rows as int) =~= band_values(
        signature,
        params.rows as nat,
        band,
    ));
}

/// Changing one value of a band changes the hash of that band, wherever in the band the
/// value stands.
pub proof fn law_one_changed_value_changes_its_band(
    signature: Seq<u32>,
    params: LshParams,
    band: int,
    at: int,
    value: u32,
)
    requires
        params.fits(signature.len()),
        0 <= band < params.bands,
        band * params.rows <= at < (band + 1) * params.rows,
        value != signature[at],
    ensures
        spec_band_hashes(signature.update(at, value), params)[band] != spec_band_hashes(
            signature,
            params,
        )[band],
{
    lemma_band_range(params, signature.len(), band);
    let rows = params.rows as nat;
    let start = band * params.rows;
    let own = band_values(signature, rows, band);
    assert(band_values(signature.update(at, value), rows, band) =~= own.update(at - start, value));
    law_every_value_of_a_band_counts(own, at - start, value);
}

/// Of the candidates that are as good, the first one is chosen: whatever comes before the
/// choice is worse.
pub proof fn law_selection_takes_the_first(candidates: Seq<LshParams>, errors: Seq<u64>, upto: nat)
    requires
        0 < upto <= candidates.len(),
        candidates.len() == errors.len(),
    ensures
        forall|i: int|
            0 <= i < LshParams::best(candidates, errors, upto) ==> {
                let best = LshParams::best(candidates, errors, upto);
                errors[best] < #[trigger] errors[i] || (errors[best] == errors[i]
                    && candidates[i].bands * candidates[i].rows < candidates[best].bands
                    * candidates[best].rows)
            },
    decreases upto,
{
    if upto > 1 {
        law_selection_is_optimal(candidates, errors, (upto - 1) as nat);
        law_selection_takes_the_first(candidates, errors, (upto - 1) as nat);
    }
}

/// Parameters fit exactly where there is a band and a row and the bands together take no
/// more values than a signature has.
pub proof fn law_which_parameters_fit(params: LshParams, num_perm: nat)
    ensures
        params.fits(num_perm) == (params.bands >= 1 && params.rows >= 1 && params.bands
            * params.rows <= num_perm),
{
}

/// An index can be created exactly with a threshold above zero and up to one, a signature
/// length from one to `u32::MAX`, and parameters that fit; it can be tuned exactly with
/// such a threshold and a length up to the bound of the tuner.
pub proof fn law_which_configurations_are_valid(
    threshold: Threshold,
    num_perm: usize,
    params: LshParams,
)
    ensures
        configuration_error(threshold, num_perm, params) is None == (0 < threshold.bits
            <= 0x3FF0_0000_0000_0000 && 1 <= num_perm <= u32::MAX && params.bands >= 1
            && params.rows >= 1 && params.bands * params.rows <= num_perm),
        tuning_error(threshold, num_perm) is None == (0 < threshold.bits
            <= 0x3FF0_0000_0000_0000 && 1 <= num_perm <= 4_096),
{
}

/// The candidates of the tuner are all parameters that fit, each once, by their bands and
/// then by their rows.
pub proof fn law_every_fitting_parameter_is_weighed(
    candidates: Seq<LshParams>,
    num_perm: nat,
    params: LshParams,
)
    requires
        is_candidate_list(candidates, num_perm),
    ensures
        candidates.contains(params) == (params.bands > 0 && params.rows > 0 && params.bands
            * params.rows <= num_perm),
        candidates.no_duplicates(),
{
    if candidates.contains(params) {
        let i = choose|i: int| 0 <= i < candidates.len() && candidates[i] == params;
        assert(candidates[i].fits(num_perm));
    }
    assert(params.fits(num_perm) ==> candidates.contains(params));
}

} // verus!
