//! Input hashing and `MinHash` sketches.

pub mod hash;
pub mod minhash32;
pub mod minhash64;
pub mod mix;

use vstd::prelude::*;

verus! {

/// Errors returned by `MinHash` construction and compatibility checks.
#[derive(Debug, Clone, Copy, PartialEq, Eq, Structural)]
pub enum MinHashError {
    /// The requested permutation count is zero or does not fit in 32 bits.
    InvalidPermutationCount { requested: usize },
    /// Two sketches use different seeds and therefore different permutation
    /// families.
    IncompatibleSeed { left: u64, right: u64 },
    /// Two sketches contain different numbers of permutations.
    IncompatiblePermutationCount { left: usize, right: usize },
}

/// A permutation count that a sketch can have.
pub open spec fn valid_num_perm(num_perm: nat) -> bool {
    1 <= num_perm <= u32::MAX
}

/// Accept exactly the permutation counts from one to `u32::MAX`.
pub fn validate_num_perm(num_perm: usize) -> (result: Result<(), MinHashError>)
    ensures
        result == (if valid_num_perm(num_perm as nat) {
            Ok::<(), MinHashError>(())
        } else {
            Err(MinHashError::InvalidPermutationCount { requested: num_perm })
        }),
{
    if num_perm == 0 || num_perm as u64 > u32::MAX as u64 {
        return Err(MinHashError::InvalidPermutationCount { requested: num_perm });
    }
    Ok(())
}

/// Why two sketches cannot be compared or merged, if they cannot: the seeds are
/// looked at before the permutation counts.
pub open spec fn incompatibility(
    left_seed: u64,
    left_perm: usize,
    right_seed: u64,
    right_perm: usize,
) -> Option<MinHashError> {
    if left_seed != right_seed {
        Some(MinHashError::IncompatibleSeed { left: left_seed, right: right_seed })
    } else if left_perm != right_perm {
        Some(MinHashError::IncompatiblePermutationCount { left: left_perm, right: right_perm })
    } else {
        None
    }
}

/// Accept exactly the sketches that share both seed and permutation count.
pub(crate) fn ensure_compatible(
    left_seed: u64,
    left_perm: usize,
    right_seed: u64,
    right_perm: usize,
) -> (result: Result<(), MinHashError>)
    ensures
        result == (match incompatibility(left_seed, left_perm, right_seed, right_perm) {
            Some(error) => Err::<(), MinHashError>(error),
            None => Ok::<(), MinHashError>(()),
        }),
{
    if left_seed != right_seed {
        return Err(MinHashError::IncompatibleSeed { left: left_seed, right: right_seed });
    }
    if left_perm != right_perm {
        return Err(
            MinHashError::IncompatiblePermutationCount { left: left_perm, right: right_perm },
        );
    }
    Ok(())
}

/// Sketches can be compared and merged exactly where they have the same seed and the same
/// number of permutations.
pub proof fn law_which_sketches_are_compatible(
    left_seed: u64,
    left_perm: usize,
    right_seed: u64,
    right_perm: usize,
)
    ensures
        incompatibility(left_seed, left_perm, right_seed, right_perm) is None == (left_seed
            == right_seed && left_perm == right_perm),
        left_seed != right_seed ==> incompatibility(left_seed, left_perm, right_seed, right_perm)
            == Some(MinHashError::IncompatibleSeed { left: left_seed, right: right_seed }),
{
}

/// A sketch has from one to `u32::MAX` permutations.
pub proof fn law_which_permutation_counts_are_valid(num_perm: nat)
    ensures
        valid_num_perm(num_perm) == (1 <= num_perm <= 0xFFFF_FFFF),
{
}

} // verus!
