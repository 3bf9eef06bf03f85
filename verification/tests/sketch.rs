//! Sketches and their hash functions.

use pari::ratio::Ratio;
use pari::sketch::hash::{hash32_of_digest, hash64_of_digest, sha1_hash32, sha1_hash64};
use pari::sketch::minhash32::{MinHash32, AFFINE32_SCHEME};
use pari::sketch::minhash64::{MinHash64, AFFINE64_SCHEME};
use pari::sketch::mix::{fmix32, fmix64, mix64, SplitMix64};
use pari::sketch::{validate_num_perm, MinHashError};
use pari::ENGINE_NAME;

fn value(ratio: Ratio) -> f64 {
    ratio.numerator as f64 / ratio.denominator as f64
}

#[test]
fn engine_name_is_stable() {
    assert_eq!(ENGINE_NAME, "Pari");
}

#[test]
fn sha1_helpers_match_datasketch_byte_order() {
    assert_eq!(sha1_hash32(b"hello"), 499_578_026);
    assert_eq!(sha1_hash64(b"hello"), 11_738_849_977_924_252_842);
    assert_eq!(sha1_hash32(b"pari"), 1_875_174_344);
    assert_eq!(sha1_hash64(b"pari"), 9_885_447_646_909_621_192);
}

#[test]
fn digest_prefixes_are_little_endian() {
    let mut digest = [0_u8; 20];
    for (index, byte) in digest.iter_mut().enumerate() {
        *byte = index as u8 + 1;
    }
    assert_eq!(hash32_of_digest(&digest), 0x0403_0201);
    assert_eq!(hash64_of_digest(&digest), 0x0807_0605_0403_0201);
}

#[test]
fn rejects_zero_permutations() {
    assert_eq!(
        MinHash32::new(0, 1),
        Err(MinHashError::InvalidPermutationCount { requested: 0 })
    );
    assert_eq!(
        MinHash64::new(0, 1),
        Err(MinHashError::InvalidPermutationCount { requested: 0 })
    );
    assert_eq!(
        MinHash32::from_signature(Vec::new(), 1),
        Err(MinHashError::InvalidPermutationCount { requested: 0 })
    );
}

#[test]
fn permutation_counts_stay_within_32_bits() {
    assert_eq!(validate_num_perm(1), Ok(()));
    assert_eq!(validate_num_perm(u32::MAX as usize), Ok(()));
    assert_eq!(
        validate_num_perm(u32::MAX as usize + 1),
        Err(MinHashError::InvalidPermutationCount {
            requested: u32::MAX as usize + 1
        })
    );
}

#[test]
fn scheme_identifiers_are_explicit() {
    let minhash32 = MinHash32::new(8, 42).expect("valid sketch");
    let minhash64 = MinHash64::new(8, 42).expect("valid sketch");
    assert_eq!(minhash32.scheme(), AFFINE32_SCHEME);
    assert_eq!(minhash64.scheme(), AFFINE64_SCHEME);
    assert_eq!(AFFINE32_SCHEME, "pari-affine32-v1");
    assert_eq!(AFFINE64_SCHEME, "pari-affine64-v1");
}

#[test]
fn precomputed_affine32_signature_round_trips_and_remains_updatable() {
    let mut original = MinHash32::new(32, 42).expect("valid sketch");
    original.update_many(&[&b"alpha"[..], &b"beta"[..]]);
    let signature = original.signature().to_vec();

    let mut reconstructed =
        MinHash32::from_signature(signature.clone(), 42).expect("valid signature");
    assert_eq!(reconstructed.signature(), signature);
    assert_eq!(reconstructed.seed(), original.seed());
    assert_eq!(reconstructed.num_perm(), original.num_perm());

    original.update(b"gamma");
    reconstructed.update(b"gamma");
    assert_eq!(reconstructed, original);
}

#[test]
fn affine32_seed_mapping_has_golden_signature() {
    let mut sketch = MinHash32::new(8, 42).expect("valid sketch");
    sketch.update_many(&[&b"a"[..], &b"b"[..], &b"c"[..]]);
    assert_eq!(
        sketch.signature(),
        &[
            555_478_325,
            368_287_343,
            517_307_743,
            440_211_845,
            1_088_094_199,
            1_274_094_295,
            904_708_659,
            327_688_530,
        ]
    );
    assert!(sketch.permutations().0.iter().all(|value| value & 1 == 1));
}

#[test]
fn affine64_seed_mapping_has_golden_signature() {
    let mut sketch = MinHash64::new(8, 42).expect("valid sketch");
    sketch.update_many(&[&b"a"[..], &b"b"[..], &b"c"[..]]);
    assert_eq!(
        sketch.signature(),
        &[
            398_824_617_996_340_472,
            4_985_036_841_737_875_763,
            430_169_245_876_064_069,
            4_830_488_362_799_227_617,
            9_007_712_658_965_612_972,
            6_350_542_169_249_656_984,
            14_245_705_141_267_314_417,
            3_755_630_306_339_185_935,
        ]
    );
    assert!(sketch.permutations().0.iter().all(|value| value & 1 == 1));
}

#[test]
fn update_many_matches_scalar_updates() {
    let values = [&b"alpha"[..], &b"beta"[..], &b"gamma"[..]];
    let mut batched = MinHash32::new(128, 7).expect("valid sketch");
    batched.update_many(&values);

    let mut scalar = MinHash32::new(128, 7).expect("valid sketch");
    for value in values {
        scalar.update(value);
    }

    assert_eq!(batched, scalar);
}

#[test]
fn merge_matches_direct_union() {
    let mut left = MinHash32::new(128, 5).expect("valid sketch");
    left.update_many(&[&b"a"[..], &b"b"[..]]);
    let mut right = MinHash32::new(128, 5).expect("valid sketch");
    right.update_many(&[&b"b"[..], &b"c"[..]]);

    left.merge(&right).expect("compatible sketches");

    let mut direct = MinHash32::new(128, 5).expect("valid sketch");
    direct.update_many(&[&b"a"[..], &b"b"[..], &b"c"[..]]);
    assert_eq!(left, direct);
}

#[test]
fn wide_merge_matches_direct_union_and_is_idempotent() {
    let mut left = MinHash64::new(64, 5).expect("valid sketch");
    left.update(b"a");
    let mut right = MinHash64::new(64, 5).expect("valid sketch");
    right.update(b"b");
    left.merge(&right).expect("compatible sketches");

    let mut direct = MinHash64::new(64, 5).expect("valid sketch");
    direct.update_many(&[&b"b"[..], &b"a"[..], &b"b"[..]]);
    assert_eq!(left, direct);

    let again = left.clone();
    left.merge(&again).expect("compatible sketches");
    assert_eq!(left, again);
    assert_eq!(
        left.jaccard(&again),
        Ok(Ratio {
            numerator: 64,
            denominator: 64
        })
    );
}

#[test]
fn incompatible_sketches_fail_before_similarity_or_merge() {
    let seed_one = MinHash32::new(64, 1).expect("valid sketch");
    let seed_two = MinHash32::new(64, 2).expect("valid sketch");
    assert_eq!(
        seed_one.jaccard(&seed_two),
        Err(MinHashError::IncompatibleSeed { left: 1, right: 2 })
    );

    let perm_64 = MinHash32::new(64, 1).expect("valid sketch");
    let perm_128 = MinHash32::new(128, 1).expect("valid sketch");
    assert_eq!(
        perm_64.jaccard(&perm_128),
        Err(MinHashError::IncompatiblePermutationCount {
            left: 64,
            right: 128,
        })
    );
}

#[test]
fn failed_merge_leaves_the_sketch_unchanged() {
    let mut sketch = MinHash32::new(16, 1).expect("valid sketch");
    sketch.update(b"kept");
    let before = sketch.clone();
    let other = MinHash32::new(16, 2).expect("valid sketch");
    assert_eq!(
        sketch.merge(&other),
        Err(MinHashError::IncompatibleSeed { left: 1, right: 2 })
    );
    assert_eq!(sketch, before);
}

#[test]
fn clear_reuses_permutations_and_resets_signature() {
    let mut sketch = MinHash64::new(64, 11).expect("valid sketch");
    assert!(sketch.is_empty());
    sketch.update(b"not empty");
    assert!(!sketch.is_empty());
    sketch.clear();
    assert!(sketch.is_empty());
    assert!(sketch.signature().iter().all(|value| *value == u64::MAX));
}

#[test]
fn affine32_estimate_tracks_exact_jaccard() {
    let mut left = MinHash32::new(1_024, 7).expect("valid sketch");
    let mut right = MinHash32::new(1_024, 7).expect("valid sketch");

    for value in 0_u64..1_000 {
        left.update(&value.to_le_bytes());
    }
    for value in 500_u64..1_500 {
        right.update(&value.to_le_bytes());
    }

    let estimate = value(left.jaccard(&right).expect("compatible sketches"));
    let exact = 1.0 / 3.0;
    assert!((estimate - exact).abs() < 0.05, "estimate={estimate}");
}

#[test]
fn affine64_estimate_tracks_exact_jaccard() {
    let mut left = MinHash64::new(1_024, 7).expect("valid sketch");
    let mut right = MinHash64::new(1_024, 7).expect("valid sketch");

    for value in 0_u64..1_000 {
        left.update(&value.to_le_bytes());
    }
    for value in 500_u64..1_500 {
        right.update(&value.to_le_bytes());
    }

    let estimate = value(left.jaccard(&right).expect("compatible sketches"));
    let exact = 1.0 / 3.0;
    assert!((estimate - exact).abs() < 0.05, "estimate={estimate}");
}

#[test]
fn update_hashes_the_value_with_sha1() {
    let mut direct = MinHash32::new(16, 3).expect("valid sketch");
    direct.update(b"hello");
    let mut hashed = MinHash32::new(16, 3).expect("valid sketch");
    hashed.update_hashed(499_578_026);
    assert_eq!(direct, hashed);

    let mut wide = MinHash64::new(16, 3).expect("valid sketch");
    wide.update(b"hello");
    let mut wide_hashed = MinHash64::new(16, 3).expect("valid sketch");
    wide_hashed.update_hashed(11_738_849_977_924_252_842);
    assert_eq!(wide, wide_hashed);
}

#[test]
fn order_of_updates_does_not_matter() {
    let mut forward = MinHash32::new(64, 9).expect("valid sketch");
    forward.update_many(&[&b"x"[..], &b"y"[..], &b"z"[..]]);
    let mut backward = MinHash32::new(64, 9).expect("valid sketch");
    backward.update_many(&[&b"z"[..], &b"y"[..], &b"x"[..], &b"y"[..]]);
    assert_eq!(forward, backward);
}

#[test]
fn mixers_have_known_values() {
    assert_eq!(fmix32(0), 0);
    assert_eq!(fmix32(1), 0x514E_28B7);
    assert_eq!(fmix64(0), 0);
    assert_eq!(fmix64(1), 0xB456_BCFC_34C2_CB2C);
    let mut generator = SplitMix64::new(0);
    assert_eq!(generator.next_u64(), 0xE220_A839_7B1D_CDAF);
    assert_eq!(generator.next_u64(), 0x6E78_9E6A_A1B9_65F4);
    let mut narrow = SplitMix64::new(0);
    assert_eq!(narrow.next_u32(), 0x7B1D_CDAF);
    assert_eq!(mix64(0), 0);
    assert_eq!(mix64(0x9E37_79B9_7F4A_7C15), 0xE220_A839_7B1D_CDAF);
}

/// The number that `value` has to be multiplied with to give one.
fn inverse(value: u32) -> u32 {
    let mut inverse: u32 = 1;
    for _ in 0..5 {
        inverse = inverse.wrapping_mul(2u32.wrapping_sub(value.wrapping_mul(inverse)));
    }
    inverse
}

/// The input hash that the finalizer mixes into `mixed`.
fn unmixed(mixed: u32) -> u32 {
    let mut hash = mixed ^ (mixed >> 16);
    hash = hash.wrapping_mul(inverse(0xC2B2_AE35));
    hash ^= (hash >> 13) ^ (hash >> 26);
    hash = hash.wrapping_mul(inverse(0x85EB_CA6B));
    hash ^ (hash >> 16)
}

#[test]
fn added_values_are_seen_whatever_their_hash() {
    let mut sketch = MinHash32::new(1, 7).expect("valid sketch");
    let (multiplier, offset) = {
        let (multipliers, offsets) = sketch.permutations();
        (multipliers[0], offsets[0])
    };
    let mixed = u32::MAX.wrapping_sub(offset).wrapping_mul(inverse(multiplier));
    sketch.update_hashed(unmixed(mixed));
    assert_eq!(sketch.signature(), &[u32::MAX]);
    assert!(!sketch.is_empty());

    let mut merged = MinHash32::new(1, 7).expect("valid sketch");
    assert!(merged.merge(&MinHash32::new(1, 7).expect("valid sketch")).is_ok());
    assert!(merged.is_empty());
    merged.merge(&sketch).expect("compatible");
    assert!(!merged.is_empty());
    merged.clear();
    assert!(merged.is_empty());
}

#[test]
fn a_loaded_signature_is_empty_where_it_is_blank() {
    assert!(MinHash32::from_signature(vec![u32::MAX; 3], 7).expect("blank").is_empty());
    assert!(!MinHash32::from_signature(vec![u32::MAX, 5], 7).expect("filled").is_empty());
}

#[test]
fn wide_sketches_are_empty_until_a_value_is_added() {
    let mut sketch = MinHash64::new(8, 7).expect("valid sketch");
    assert!(sketch.is_empty());
    sketch.update(b"value");
    assert!(!sketch.is_empty());
    sketch.clear();
    assert!(sketch.is_empty());
}

#[test]
fn sketches_are_compared_by_seed_and_signature() {
    let mut sketch = MinHash32::new(1, 7).expect("valid sketch");
    let (multiplier, offset) = {
        let (multipliers, offsets) = sketch.permutations();
        (multipliers[0], offsets[0])
    };
    let mixed = u32::MAX.wrapping_sub(offset).wrapping_mul(inverse(multiplier));
    sketch.update_hashed(unmixed(mixed));
    let loaded =
        MinHash32::from_signature(sketch.signature().to_vec(), 7).expect("valid signature");
    assert_eq!(sketch, loaded);
    assert_eq!(sketch, MinHash32::new(1, 7).expect("blank"));
    assert!(!sketch.is_empty());
    assert!(loaded.is_empty());

    assert_ne!(sketch, MinHash32::new(1, 8).expect("another seed"));
    assert_ne!(sketch, MinHash32::new(2, 7).expect("another length"));
    let other = MinHash32::from_signature(vec![u32::MAX - 1], 7).expect("another value");
    assert_ne!(sketch, other);
}

/// The number that `value` has to be multiplied with to give one.
fn wide_inverse(value: u64) -> u64 {
    let mut inverse: u64 = 1;
    for _ in 0..6 {
        inverse = inverse.wrapping_mul(2u64.wrapping_sub(value.wrapping_mul(inverse)));
    }
    inverse
}

#[test]
fn wide_sketches_are_compared_by_seed_and_signature() {
    let mut sketch = MinHash64::new(1, 7).expect("valid sketch");
    let (multiplier, offset) = {
        let (multipliers, offsets) = sketch.permutations();
        (multipliers[0], offsets[0])
    };
    let mixed = u64::MAX.wrapping_sub(offset).wrapping_mul(wide_inverse(multiplier));
    let mut hash = mixed ^ (mixed >> 33);
    hash = hash.wrapping_mul(wide_inverse(0xC4CE_B9FE_1A85_EC53));
    hash ^= hash >> 33;
    hash = hash.wrapping_mul(wide_inverse(0xFF51_AFD7_ED55_8CCD));
    hash ^= hash >> 33;
    assert_eq!(fmix64(hash), mixed);
    sketch.update_hashed(hash);
    assert_eq!(sketch.signature(), &[u64::MAX]);
    assert!(!sketch.is_empty());
    assert_eq!(sketch, MinHash64::new(1, 7).expect("blank"));

    assert_ne!(sketch, MinHash64::new(1, 8).expect("another seed"));
    assert_ne!(sketch, MinHash64::new(2, 7).expect("another length"));
    let mut other = MinHash64::new(1, 7).expect("valid sketch");
    other.update(b"value");
    assert_ne!(sketch, other);
}
