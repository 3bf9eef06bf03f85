//! Capacity planning and storage recommendations.

use vstd::prelude::*;

use crate::index::lsh::LshIndex32;
use crate::index::params;
use crate::index::params::{LshError, LshParams};
use crate::text;
use crate::threshold::Threshold;

verus! {

/// Version label of the planning model.
pub const LSH_PLANNER_MODEL: &'static str = "pari-lsh-planner-v1";

pub const MINHASH_VALUE_BYTES: u64 = 4;

pub const EXTERNAL_KEY_BYTES: u64 = 8;

pub const BAND_HASH_AND_MEMBERSHIP_BYTES: u64 = 16;

pub const IN_MEMORY_BASE_BYTES_PER_ITEM: u64 = 64;

pub const IN_MEMORY_BYTES_PER_BAND_ITEM: u64 = 112;

pub const PERSISTENT_BYTES_PER_BAND_ITEM: u64 = 48;

pub const PERSISTENT_FIXED_BYTES: u64 = 736;

pub const LAZY_RESIDENT_BYTES_PER_BAND_ITEM: u64 = 56;

/// Storage intent supplied to the planner or recommended by its policy.
#[derive(Debug, Clone, Copy, PartialEq, Eq, Structural)]
pub enum StorageMode {
    /// Let the planner choose from the supplied capacity information.
    Auto,
    /// Keep the complete mutable index in the current process.
    Memory,
    /// Use the mutable local `.pari` store.
    Persistent,
    /// Use the read-only lazy `.pari` query path.
    Lazy,
    /// Use the shared Redis backend.
    Redis,
}

impl StorageMode {
    /// The machine-readable spelling.
    pub open spec fn spelling(self) -> Seq<char> {
        match self {
            StorageMode::Auto => "auto"@,
            StorageMode::Memory => "memory"@,
            StorageMode::Persistent => "persistent"@,
            StorageMode::Lazy => "lazy"@,
            StorageMode::Redis => "redis"@,
        }
    }

    /// The mode that a normalized word names, if it names one.
    pub open spec fn named(word: Seq<char>) -> Option<StorageMode> {
        if word == "auto"@ {
            Some(StorageMode::Auto)
        } else if word == "memory"@ || word == "in-memory"@ || word == "in_memory"@ {
            Some(StorageMode::Memory)
        } else if word == "persistent"@ || word == "local"@ {
            Some(StorageMode::Persistent)
        } else if word == "lazy"@ || word == "read-only"@ || word == "read_only"@ {
            Some(StorageMode::Lazy)
        } else if word == "redis"@ || word == "shared"@ {
            Some(StorageMode::Redis)
        } else {
            None
        }
    }

    /// Stable machine-readable spelling.
    pub fn as_str(self) -> (spelling: &'static str)
        ensures
            spelling@ == self.spelling(),
    {
        match self {
            StorageMode::Auto => "auto",
            StorageMode::Memory => "memory",
            StorageMode::Persistent => "persistent",
            StorageMode::Lazy => "lazy",
            StorageMode::Redis => "redis",
        }
    }

    /// Parse a mode; surrounding whitespace and the case of ASCII letters do
    /// not matter.
    pub fn parse(value: &str) -> (result: Result<StorageMode, LshPlanError>)
        ensures
            match result {
                Ok(mode) => StorageMode::named(text::lowered(text::trimmed(value@))) == Some(mode),
                Err(LshPlanError::InvalidStorageMode { value: given }) => given@ == value@
                    && StorageMode::named(text::lowered(text::trimmed(value@))) is None,
                Err(_) => false,
            },
    {
        let chars = text::chars_of(value);
        let word = text::normalize(&chars);
        if text::spells(&word, "auto") {
            Ok(StorageMode::Auto)
        } else if text::spells(&word, "memory") || text::spells(&word, "in-memory")
            || text::spells(&word, "in_memory") {
            Ok(StorageMode::Memory)
        } else if text::spells(&word, "persistent") || text::spells(&word, "local") {
            Ok(StorageMode::Persistent)
        } else if text::spells(&word, "lazy") || text::spells(&word, "read-only") || text::spells(
            &word,
            "read_only",
        ) {
            Ok(StorageMode::Lazy)
        } else if text::spells(&word, "redis") || text::spells(&word, "shared") {
            Ok(StorageMode::Redis)
        } else {
            Err(LshPlanError::InvalidStorageMode { value: value.to_owned() })
        }
    }
}

/// Every mode is named by its own spelling.
pub proof fn law_spelling_names_the_mode(mode: StorageMode)
    ensures
        StorageMode::named(mode.spelling()) == Some(mode),
{
    reveal_strlit("auto");
    reveal_strlit("memory");
    reveal_strlit("in-memory");
    reveal_strlit("in_memory");
    reveal_strlit("persistent");
    reveal_strlit("local");
    reveal_strlit("lazy");
    reveal_strlit("read-only");
    reveal_strlit("read_only");
    reveal_strlit("redis");
    reveal_strlit("shared");
    assert("auto"@[0] == 'a' && "lazy"@[0] == 'l');
    assert("memory"@[0] == 'm' && "shared"@[0] == 's');
    assert("local"@[0] == 'l' && "redis"@[0] == 'r');
    assert("auto"@.len() == 4 && "lazy"@.len() == 4 && "memory"@.len() == 6 && "redis"@.len() == 5
        && "persistent"@.len() == 10);
    assert("in-memory"@.len() == 9 && "in_memory"@.len() == 9 && "read-only"@.len() == 9
        && "read_only"@.len() == 9 && "local"@.len() == 5 && "shared"@.len() == 6);
    match mode {
        StorageMode::Auto => {},
        StorageMode::Memory => {},
        StorageMode::Persistent => {},
        StorageMode::Lazy => {},
        StorageMode::Redis => {},
    }
}

/// Whether parameters were tuned for a new plan or read from an existing index.
#[derive(Debug, Clone, Copy, PartialEq, Eq, Structural)]
pub enum ParameterSource {
    /// Parameters came from the tuner.
    Tuned,
    /// Parameters came from an existing or explicitly configured index.
    Existing,
}

impl ParameterSource {
    /// The text of the spelling.
    pub open spec fn spelling(self) -> Seq<char> {
        match self {
            ParameterSource::Tuned => "tuned"@,
            ParameterSource::Existing => "existing"@,
        }
    }

    /// Stable machine-readable spelling.
    pub fn as_str(self) -> (spelling: &'static str)
        ensures
            spelling@ == self.spelling(),
    {
        match self {
            ParameterSource::Tuned => "tuned",
            ParameterSource::Existing => "existing",
        }
    }
}

/// Explainable policy decision behind a storage recommendation.
#[derive(Debug, Clone, Copy, PartialEq, Eq, Structural)]
pub enum RecommendationReason {
    /// The caller explicitly selected a mode and its modeled capacity fits.
    ExplicitMode,
    /// The in-memory model, including 50% headroom, fits the supplied budget.
    InMemoryFitsBudget,
    /// In-memory does not fit, but persistent/lazy resident metadata does.
    InMemoryExceedsBudget,
    /// Neither modeled local path fits, so external storage is recommended.
    LocalMetadataExceedsBudget,
    /// No budget was supplied, so the policy chooses the safer mutable local path.
    CapacityUnknown,
    /// An explicit local mode exceeds the supplied modeled capacity.
    ExplicitModeExceedsBudget,
}

impl RecommendationReason {
    /// Stable machine-readable spelling.
    pub fn as_str(self) -> (spelling: &'static str)
        ensures
            spelling@ == (match self {
                RecommendationReason::ExplicitMode => "explicit_mode"@,
                RecommendationReason::InMemoryFitsBudget => "in_memory_fits_budget"@,
                RecommendationReason::InMemoryExceedsBudget => "in_memory_exceeds_budget"@,
                RecommendationReason::LocalMetadataExceedsBudget =>
                    "local_metadata_exceeds_budget"@,
                RecommendationReason::CapacityUnknown => "capacity_unknown"@,
                RecommendationReason::ExplicitModeExceedsBudget => "explicit_mode_exceeds_budget"@,
            }),
    {
        match self {
            RecommendationReason::ExplicitMode => "explicit_mode",
            RecommendationReason::InMemoryFitsBudget => "in_memory_fits_budget",
            RecommendationReason::InMemoryExceedsBudget => "in_memory_exceeds_budget",
            RecommendationReason::LocalMetadataExceedsBudget => "local_metadata_exceeds_budget",
            RecommendationReason::CapacityUnknown => "capacity_unknown",
            RecommendationReason::ExplicitModeExceedsBudget => "explicit_mode_exceeds_budget",
        }
    }

    /// The text of the guidance.
    pub open spec fn spec_guidance(self) -> Seq<char> {
        match self {
            RecommendationReason::ExplicitMode =>
                "The requested storage mode is retained; its modeled resident size fits the supplied budget when one was provided."@,
            RecommendationReason::InMemoryFitsBudget =>
                "The modeled in-memory index fits the supplied budget with 50% operational headroom."@,
            RecommendationReason::InMemoryExceedsBudget =>
                "The in-memory model exceeds the budget, while persistent/lazy resident metadata fits with 50% headroom."@,
            RecommendationReason::LocalMetadataExceedsBudget =>
                "Neither modeled local path fits with 50% headroom; Redis is suggested only when operating an external shared backend is acceptable."@,
            RecommendationReason::CapacityUnknown =>
                "No memory budget was supplied, so the mutable persistent store is the conservative default."@,
            RecommendationReason::ExplicitModeExceedsBudget =>
                "The requested local mode is retained, but its modeled resident size exceeds the supplied budget with 50% headroom."@,
        }
    }

    /// Human explanation of the policy decision.
    pub fn guidance(self) -> (guidance: &'static str)
        ensures
            guidance@ == self.spec_guidance(),
    {
        match self {
            RecommendationReason::ExplicitMode =>
                "The requested storage mode is retained; its modeled resident size fits the supplied budget when one was provided.",
            RecommendationReason::InMemoryFitsBudget =>
                "The modeled in-memory index fits the supplied budget with 50% operational headroom.",
            RecommendationReason::InMemoryExceedsBudget =>
                "The in-memory model exceeds the budget, while persistent/lazy resident metadata fits with 50% headroom.",
            RecommendationReason::LocalMetadataExceedsBudget =>
                "Neither modeled local path fits with 50% headroom; Redis is suggested only when operating an external shared backend is acceptable.",
            RecommendationReason::CapacityUnknown =>
                "No memory budget was supplied, so the mutable persistent store is the conservative default.",
            RecommendationReason::ExplicitModeExceedsBudget =>
                "The requested local mode is retained, but its modeled resident size exceeds the supplied budget with 50% headroom.",
        }
    }
}

/// Inputs for a deterministic LSH plan or explanation.
#[derive(Debug, Clone, Copy, PartialEq, Eq, Structural)]
pub struct LshPlanOptions {
    /// Expected number of indexed items.
    pub expected_items: u64,
    /// Desired similarity threshold.
    pub threshold: Threshold,
    /// `MinHash` signature length.
    pub num_perm: usize,
    /// Optional local resident-memory budget.
    pub memory_budget_bytes: Option<u64>,
    /// Requested storage policy.
    pub storage_mode: StorageMode,
}

impl LshPlanOptions {
    /// Create options with automatic storage selection and no memory budget.
    pub fn new(expected_items: u64, threshold: Threshold, num_perm: usize) -> (options: Self)
        ensures
            options == (LshPlanOptions {
                expected_items,
                threshold,
                num_perm,
                memory_budget_bytes: None,
                storage_mode: StorageMode::Auto,
            }),
    {
        LshPlanOptions {
            expected_items,
            threshold,
            num_perm,
            memory_budget_bytes: None,
            storage_mode: StorageMode::Auto,
        }
    }

    /// Add a local resident-memory budget in bytes.
    pub fn memory_budget_bytes(self, bytes: u64) -> (options: Self)
        ensures
            options == (LshPlanOptions { memory_budget_bytes: Some(bytes), ..self }),
    {
        LshPlanOptions { memory_budget_bytes: Some(bytes), ..self }
    }

    /// Set the requested storage mode.
    pub fn storage_mode(self, mode: StorageMode) -> (options: Self)
        ensures
            options == (LshPlanOptions { storage_mode: mode, ..self }),
    {
        LshPlanOptions { storage_mode: mode, ..self }
    }
}

/// Model-based size estimates for a planned index.
#[derive(Debug, Clone, Copy, PartialEq, Eq, Structural)]
pub struct LshSizeEstimates {
    /// Bytes in one materialized `MinHash32` signature.
    pub signature_bytes_per_item: u64,
    /// Bytes in all materialized signatures.
    pub signature_bytes: u64,
    /// Compact key, band-hash, and membership payload bytes per item.
    pub index_metadata_bytes_per_item: u64,
    /// Compact key, band-hash, and membership payload bytes.
    pub index_metadata_bytes: u64,
    /// Calibrated in-memory index working-set bytes per item.
    pub in_memory_index_bytes_per_item: u64,
    /// Calibrated in-memory index working-set bytes.
    pub in_memory_index_bytes: u64,
    /// Modeled `.pari` bytes per item for a mostly distinct-bucket corpus.
    pub persistent_index_bytes_per_item: u64,
    /// Modeled `.pari` bytes for a mostly distinct-bucket corpus.
    pub persistent_index_bytes: u64,
    /// Calibrated resident directory/key metadata bytes per item for lazy/local reads.
    pub lazy_resident_bytes_per_item: u64,
    /// Calibrated resident directory/key metadata bytes for lazy/local reads.
    pub lazy_resident_bytes: u64,
    /// In-memory estimate with 50% operational headroom.
    pub in_memory_with_headroom_bytes: u64,
    /// Lazy/local resident estimate with 50% operational headroom.
    pub lazy_with_headroom_bytes: u64,
}

/// The bytes that `count` things of `size` bytes each and a fixed part take.
pub open spec fn modeled(fixed: int, count: int, size: int) -> int {
    fixed + count * size
}

/// One and a half times a byte count, rounded up.
pub open spec fn headroom(bytes: int) -> int {
    (bytes * 3 + 1) / 2
}

/// Every modeled byte count, and three times every count that gets headroom,
/// fits in 64 bits.
pub open spec fn estimates_fit(items: int, num_perm: int, bands: int) -> bool {
    let max = u64::MAX as int;
    &&& modeled(0, num_perm, 4) <= max
    &&& modeled(8, bands, 16) <= max
    &&& modeled(64, bands, 112) <= max
    &&& modeled(8, bands, 48) <= max
    &&& modeled(8, bands, 56) <= max
    &&& modeled(0, items, modeled(0, num_perm, 4)) <= max
    &&& modeled(0, items, modeled(8, bands, 16)) <= max
    &&& modeled(736, items, modeled(8, bands, 48)) <= max
    &&& modeled(0, items, modeled(64, bands, 112)) * 3 <= max
    &&& modeled(0, items, modeled(8, bands, 56)) * 3 <= max
}

/// The estimates of the model.
pub open spec fn estimates(items: int, num_perm: int, bands: int) -> LshSizeEstimates {
    let signature = modeled(0, num_perm, 4);
    let metadata = modeled(8, bands, 16);
    let memory = modeled(64, bands, 112);
    let persistent = modeled(8, bands, 48);
    let lazy = modeled(8, bands, 56);
    LshSizeEstimates {
        signature_bytes_per_item: signature as u64,
        signature_bytes: modeled(0, items, signature) as u64,
        index_metadata_bytes_per_item: metadata as u64,
        index_metadata_bytes: modeled(0, items, metadata) as u64,
        in_memory_index_bytes_per_item: memory as u64,
        in_memory_index_bytes: modeled(0, items, memory) as u64,
        persistent_index_bytes_per_item: persistent as u64,
        persistent_index_bytes: modeled(736, items, persistent) as u64,
        lazy_resident_bytes_per_item: lazy as u64,
        lazy_resident_bytes: modeled(0, items, lazy) as u64,
        in_memory_with_headroom_bytes: headroom(modeled(0, items, memory)) as u64,
        lazy_with_headroom_bytes: headroom(modeled(0, items, lazy)) as u64,
    }
}

/// Deterministic LSH configuration, size model, and storage guidance.
#[derive(Debug, Clone, Copy, PartialEq)]
pub struct LshPlan {
    /// Planning model version.
    pub model: &'static str,
    /// Expected or current number of indexed items.
    pub expected_items: u64,
    /// Similarity threshold used by the configuration.
    pub threshold: Threshold,
    /// Signature length.
    pub num_perm: usize,
    /// Bands and rows used by the index.
    pub params: LshParams,
    /// Whether parameters were tuned or loaded from an existing index.
    pub parameter_source: ParameterSource,
    /// Number of signature values consumed by banding.
    pub used_permutations: usize,
    /// Signature values left unused by banding.
    pub unused_permutations: usize,
    /// Number of bucket memberships written per item.
    pub bucket_memberships_per_item: u64,
    /// Size estimates under the versioned model.
    pub sizes: LshSizeEstimates,
    /// Optional local resident-memory budget.
    pub memory_budget_bytes: Option<u64>,
    /// Whether the in-memory estimate plus headroom fits, if a budget was supplied.
    pub in_memory_fits_budget: Option<bool>,
    /// Whether local/lazy resident metadata plus headroom fits, if supplied.
    pub persistent_fits_budget: Option<bool>,
    /// Requested storage mode.
    pub requested_storage: StorageMode,
    /// Policy recommendation.
    pub recommended_storage: StorageMode,
    /// Explainable recommendation rule.
    pub recommendation_reason: RecommendationReason,
}

impl LshPlan {
    /// Human explanation of the storage recommendation.
    pub fn recommendation_guidance(&self) -> (guidance: &'static str)
        ensures
            guidance@ == self.recommendation_reason.spec_guidance(),
    {
        self.recommendation_reason.guidance()
    }

    /// The probability that a pair at `similarity` shares at least one band,
    /// given the value of the candidate curve there: none outside `[0, 1]`.
    pub fn candidate_probability(&self, similarity: Threshold, curve: u64) -> (probability: Option<
        u64,
    >)
        ensures
            probability == (if similarity.similarity() {
                Some(curve)
            } else {
                None
            }),
    {
        if similarity.is_similarity() {
            Some(curve)
        } else {
            None
        }
    }
}

/// Errors returned by the planner before it emits a potentially misleading estimate.
#[derive(Debug, Clone, PartialEq, Eq)]
pub enum LshPlanError {
    /// Expected item count must be positive.
    InvalidExpectedItems { expected_items: u64 },
    /// A supplied memory budget must be positive.
    InvalidMemoryBudget { bytes: u64 },
    /// The storage-mode spelling is unknown.
    InvalidStorageMode { value: String },
    /// An input configuration is not a valid LSH configuration.
    Lsh(LshError),
    /// A modeled byte count exceeds `u64`.
    EstimateOverflow,
}

/// Whether a byte count fits a budget, if there is one.
pub open spec fn fits_budget(bytes: u64, budget: Option<u64>) -> Option<bool> {
    match budget {
        Some(budget) => Some(bytes <= budget),
        None => None,
    }
}

/// The storage policy.
///
/// A memory index is kept in memory where it fits and moved to the persistent
/// store, or else to the shared backend, where it does not. An explicit
/// persistent, lazy or shared mode is kept.
pub open spec fn recommendation(
    requested: StorageMode,
    in_memory_fits: Option<bool>,
    persistent_fits: Option<bool>,
) -> (StorageMode, RecommendationReason) {
    match requested {
        StorageMode::Auto | StorageMode::Memory => match in_memory_fits {
            None => if requested == StorageMode::Auto {
                (StorageMode::Persistent, RecommendationReason::CapacityUnknown)
            } else {
                (StorageMode::Memory, RecommendationReason::ExplicitMode)
            },
            Some(true) => (StorageMode::Memory, RecommendationReason::InMemoryFitsBudget),
            Some(false) => if persistent_fits == Some(true) {
                (StorageMode::Persistent, RecommendationReason::InMemoryExceedsBudget)
            } else {
                (StorageMode::Redis, RecommendationReason::LocalMetadataExceedsBudget)
            },
        },
        StorageMode::Persistent | StorageMode::Lazy => (
            requested,
            if persistent_fits == Some(false) {
                RecommendationReason::ExplicitModeExceedsBudget
            } else {
                RecommendationReason::ExplicitMode
            },
        ),
        StorageMode::Redis => (StorageMode::Redis, RecommendationReason::ExplicitMode),
    }
}

/// Why parameters cannot be explained, if they cannot.
pub open spec fn plan_error(options: LshPlanOptions, params: LshParams) -> Option<LshPlanError> {
    if options.memory_budget_bytes == Some(0u64) {
        Some(LshPlanError::InvalidMemoryBudget { bytes: 0 })
    } else {
        match params::configuration_error(options.threshold, options.num_perm, params) {
            Some(error) => Some(LshPlanError::Lsh(error)),
            None => if estimates_fit(
                options.expected_items as int,
                options.num_perm as int,
                params.bands as int,
            ) {
                None
            } else {
                Some(LshPlanError::EstimateOverflow)
            },
        }
    }
}

/// The plan for a valid configuration.
pub open spec fn plan_of(
    options: LshPlanOptions,
    params: LshParams,
    parameter_source: ParameterSource,
) -> LshPlan {
    let sizes = estimates(
        options.expected_items as int,
        options.num_perm as int,
        params.bands as int,
    );
    let in_memory = fits_budget(sizes.in_memory_with_headroom_bytes, options.memory_budget_bytes);
    let persistent = fits_budget(sizes.lazy_with_headroom_bytes, options.memory_budget_bytes);
    let (recommended_storage, recommendation_reason) = recommendation(
        options.storage_mode,
        in_memory,
        persistent,
    );
    LshPlan {
        model: LSH_PLANNER_MODEL,
        expected_items: options.expected_items,
        threshold: options.threshold,
        num_perm: options.num_perm,
        params,
        parameter_source,
        used_permutations: (params.bands * params.rows) as usize,
        unused_permutations: (options.num_perm - params.bands * params.rows) as usize,
        bucket_memberships_per_item: params.bands as u64,
        sizes,
        memory_budget_bytes: options.memory_budget_bytes,
        in_memory_fits_budget: in_memory,
        persistent_fits_budget: persistent,
        requested_storage: options.storage_mode,
        recommended_storage,
        recommendation_reason,
    }
}

/// Plan a new index with the parameters that the tuner selects among its
/// candidates by their error estimates.
pub fn plan_lsh(options: LshPlanOptions, candidates: &[LshParams], errors: &[u64]) -> (result:
    Result<LshPlan, LshPlanError>)
    requires
        candidates@.len() == errors@.len(),
        params::tuning_error(options.threshold, options.num_perm) is None
            ==> params::is_candidate_list(candidates@, options.num_perm as nat),
    ensures
        ({
            let best = candidates@[LshParams::best(candidates@, errors@, candidates@.len())];
            if options.expected_items == 0 {
                result == Err::<LshPlan, _>(
                    LshPlanError::InvalidExpectedItems { expected_items: 0 },
                )
            } else {
                match params::tuning_error(options.threshold, options.num_perm) {
                    Some(error) => result == Err::<LshPlan, _>(LshPlanError::Lsh(error)),
                    None => match plan_error(options, best) {
                        Some(error) => result == Err::<LshPlan, _>(error),
                        None => result == Ok::<_, LshPlanError>(
                            plan_of(options, best, ParameterSource::Tuned),
                        ),
                    },
                }
            }
        }),
{
    if options.expected_items == 0 {
        return Err(
            LshPlanError::InvalidExpectedItems { expected_items: options.expected_items },
        );
    }
    match LshParams::tune(options.threshold, options.num_perm, candidates, errors) {
        Ok(params) => build_plan(options, params, ParameterSource::Tuned),
        Err(error) => Err(LshPlanError::Lsh(error)),
    }
}

/// Explain explicit or persisted LSH parameters without reading bucket memberships.
pub fn explain_lsh(options: LshPlanOptions, params: LshParams) -> (result: Result<
    LshPlan,
    LshPlanError,
>)
    ensures
        match plan_error(options, params) {
            Some(error) => result == Err::<LshPlan, _>(error),
            None => result == Ok::<_, LshPlanError>(
                plan_of(options, params, ParameterSource::Existing),
            ),
        },
{
    build_plan(options, params, ParameterSource::Existing)
}

fn build_plan(
    options: LshPlanOptions,
    params: LshParams,
    parameter_source: ParameterSource,
) -> (result: Result<LshPlan, LshPlanError>)
    ensures
        match plan_error(options, params) {
            Some(error) => result == Err::<LshPlan, _>(error),
            None => result == Ok::<_, LshPlanError>(plan_of(options, params, parameter_source)),
        },
{
    match options.memory_budget_bytes {
        Some(bytes) => {
            if bytes == 0 {
                return Err(LshPlanError::InvalidMemoryBudget { bytes: 0 });
            }
        },
        None => {},
    }
    match params::validate_threshold(options.threshold) {
        Ok(()) => {},
        Err(error) => {
            return Err(LshPlanError::Lsh(error));
        },
    }
    match params::validate_num_perm(options.num_perm) {
        Ok(()) => {},
        Err(error) => {
            return Err(LshPlanError::Lsh(error));
        },
    }
    match params::validate_params(params, options.num_perm) {
        Ok(()) => {},
        Err(error) => {
            return Err(LshPlanError::Lsh(error));
        },
    }
    let used_permutations: usize = params.bands * params.rows;
    let sizes = match size_estimates(options.expected_items, options.num_perm, params.bands) {
        Ok(sizes) => sizes,
        Err(error) => {
            return Err(error);
        },
    };
    let (in_memory, persistent): (Option<bool>, Option<bool>) = match options.memory_budget_bytes {
        Some(budget) => (
            Some(sizes.in_memory_with_headroom_bytes <= budget),
            Some(sizes.lazy_with_headroom_bytes <= budget),
        ),
        None => (None, None),
    };
    let (recommended_storage, recommendation_reason) = recommend_storage(
        options.storage_mode,
        in_memory,
        persistent,
    );
    Ok(
        LshPlan {
            model: LSH_PLANNER_MODEL,
            expected_items: options.expected_items,
            threshold: options.threshold,
            num_perm: options.num_perm,
            params,
            parameter_source,
            used_permutations,
            unused_permutations: options.num_perm - used_permutations,
            bucket_memberships_per_item: params.bands as u64,
            sizes,
            memory_budget_bytes: options.memory_budget_bytes,
            in_memory_fits_budget: in_memory,
            persistent_fits_budget: persistent,
            requested_storage: options.storage_mode,
            recommended_storage,
            recommendation_reason,
        },
    )
}

/// `fixed` and `count` times `size` bytes, if they fit in 64 bits.
fn model(fixed: u64, count: u64, size: u64) -> (bytes: Option<u64>)
    ensures
        bytes == (if modeled(fixed as int, count as int, size as int) <= u64::MAX {
            Some(modeled(fixed as int, count as int, size as int) as u64)
        } else {
            None::<u64>
        }),
{
    proof {
        assert(count * size >= 0) by (nonlinear_arith)
            requires
                count >= 0,
                size >= 0,
        ;
    }
    match count.checked_mul(size) {
        Some(product) => fixed.checked_add(product),
        None => None,
    }
}

/// One and a half times a byte count, if three times the count fits.
pub fn with_headroom(bytes: u64) -> (result: Result<u64, LshPlanError>)
    ensures
        match result {
            Ok(scaled) => bytes * 3 <= u64::MAX && scaled == headroom(bytes as int),
            Err(error) => bytes * 3 > u64::MAX && error == LshPlanError::EstimateOverflow,
        },
{
    match bytes.checked_mul(3) {
        Some(scaled) => Ok(scaled / 2 + scaled % 2),
        None => Err(LshPlanError::EstimateOverflow),
    }
}

/// Model the sizes of an index.
pub fn size_estimates(expected_items: u64, num_perm: usize, bands: usize) -> (result: Result<
    LshSizeEstimates,
    LshPlanError,
>)
    ensures
        match result {
            Ok(sizes) => estimates_fit(expected_items as int, num_perm as int, bands as int)
                && sizes == estimates(expected_items as int, num_perm as int, bands as int),
            Err(error) => !estimates_fit(expected_items as int, num_perm as int, bands as int)
                && error == LshPlanError::EstimateOverflow,
        },
{
    let signature: u64 = match model(0, num_perm as u64, MINHASH_VALUE_BYTES) {
        Some(bytes) => bytes,
        None => {
            return Err(LshPlanError::EstimateOverflow);
        },
    };
    let metadata: u64 = match model(
        EXTERNAL_KEY_BYTES,
        bands as u64,
        BAND_HASH_AND_MEMBERSHIP_BYTES,
    ) {
        Some(bytes) => bytes,
        None => {
            return Err(LshPlanError::EstimateOverflow);
        },
    };
    let memory: u64 = match model(
        IN_MEMORY_BASE_BYTES_PER_ITEM,
        bands as u64,
        IN_MEMORY_BYTES_PER_BAND_ITEM,
    ) {
        Some(bytes) => bytes,
        None => {
            return Err(LshPlanError::EstimateOverflow);
        },
    };
    let persistent: u64 = match model(
        EXTERNAL_KEY_BYTES,
        bands as u64,
        PERSISTENT_BYTES_PER_BAND_ITEM,
    ) {
        Some(bytes) => bytes,
        None => {
            return Err(LshPlanError::EstimateOverflow);
        },
    };
    let lazy: u64 = match model(
        EXTERNAL_KEY_BYTES,
        bands as u64,
        LAZY_RESIDENT_BYTES_PER_BAND_ITEM,
    ) {
        Some(bytes) => bytes,
        None => {
            return Err(LshPlanError::EstimateOverflow);
        },
    };
    let all_memory: u64 = match model(0, expected_items, memory) {
        Some(bytes) => bytes,
        None => {
            return Err(LshPlanError::EstimateOverflow);
        },
    };
    let all_lazy: u64 = match model(0, expected_items, lazy) {
        Some(bytes) => bytes,
        None => {
            return Err(LshPlanError::EstimateOverflow);
        },
    };
    let all_signatures: u64 = match model(0, expected_items, signature) {
        Some(bytes) => bytes,
        None => {
            return Err(LshPlanError::EstimateOverflow);
        },
    };
    let all_metadata: u64 = match model(0, expected_items, metadata) {
        Some(bytes) => bytes,
        None => {
            return Err(LshPlanError::EstimateOverflow);
        },
    };
    let all_persistent: u64 = match model(PERSISTENT_FIXED_BYTES, expected_items, persistent) {
        Some(bytes) => bytes,
        None => {
            return Err(LshPlanError::EstimateOverflow);
        },
    };
    let memory_headroom: u64 = match with_headroom(all_memory) {
        Ok(bytes) => bytes,
        Err(error) => {
            return Err(error);
        },
    };
    let lazy_headroom: u64 = match with_headroom(all_lazy) {
        Ok(bytes) => bytes,
        Err(error) => {
            return Err(error);
        },
    };
    Ok(
        LshSizeEstimates {
            signature_bytes_per_item: signature,
            signature_bytes: all_signatures,
            index_metadata_bytes_per_item: metadata,
            index_metadata_bytes: all_metadata,
            in_memory_index_bytes_per_item: memory,
            in_memory_index_bytes: all_memory,
            persistent_index_bytes_per_item: persistent,
            persistent_index_bytes: all_persistent,
            lazy_resident_bytes_per_item: lazy,
            lazy_resident_bytes: all_lazy,
            in_memory_with_headroom_bytes: memory_headroom,
            lazy_with_headroom_bytes: lazy_headroom,
        },
    )
}

/// Recommend where to keep an index.
pub fn recommend_storage(
    requested: StorageMode,
    in_memory_fits: Option<bool>,
    persistent_fits: Option<bool>,
) -> (result: (StorageMode, RecommendationReason))
    ensures
        result == recommendation(requested, in_memory_fits, persistent_fits),
{
    match requested {
        StorageMode::Auto | StorageMode::Memory => match in_memory_fits {
            None => {
                if requested == StorageMode::Auto {
                    (StorageMode::Persistent, RecommendationReason::CapacityUnknown)
                } else {
                    (StorageMode::Memory, RecommendationReason::ExplicitMode)
                }
            },
            Some(true) => (StorageMode::Memory, RecommendationReason::InMemoryFitsBudget),
            Some(false) => match persistent_fits {
                Some(true) => (StorageMode::Persistent, RecommendationReason::InMemoryExceedsBudget),
                _ => (StorageMode::Redis, RecommendationReason::LocalMetadataExceedsBudget),
            },
        },
        StorageMode::Persistent | StorageMode::Lazy => {
            let reason = match persistent_fits {
                Some(false) => RecommendationReason::ExplicitModeExceedsBudget,
                _ => RecommendationReason::ExplicitMode,
            };
            (requested, reason)
        },
        StorageMode::Redis => (StorageMode::Redis, RecommendationReason::ExplicitMode),
    }
}

/// A local recommendation with a known budget never exceeds it, unless the
/// caller insisted on that mode.
pub proof fn law_recommended_local_storage_fits(
    options: LshPlanOptions,
    params: LshParams,
    source: ParameterSource,
)
    requires
        options.memory_budget_bytes is Some,
    ensures
        ({
            let plan = plan_of(options, params, source);
            &&& plan.recommended_storage == StorageMode::Memory ==> plan.in_memory_fits_budget
                == Some(true)
            &&& plan.recommended_storage == StorageMode::Persistent && plan.requested_storage
                != StorageMode::Persistent ==> plan.persistent_fits_budget == Some(true)
            &&& plan.recommendation_reason == RecommendationReason::ExplicitModeExceedsBudget
                <==> (plan.persistent_fits_budget == Some(false) && (plan.requested_storage
                == StorageMode::Persistent || plan.requested_storage == StorageMode::Lazy))
            &&& plan.recommended_storage != StorageMode::Auto
        }),
{
}

impl LshIndex32 {
    /// Explain the configuration of this index and its modeled storage
    /// implications from its current item count.
    pub fn explain(&self) -> (result: Result<LshPlan, LshPlanError>)
        requires
            self.wf(),
        ensures
            ({
                let options = LshPlanOptions {
                    expected_items: self@.items.dom().len() as u64,
                    threshold: self@.threshold,
                    num_perm: self@.num_perm,
                    memory_budget_bytes: None,
                    storage_mode: StorageMode::Memory,
                };
                match plan_error(options, self@.params) {
                    Some(error) => result == Err::<LshPlan, _>(error),
                    None => result == Ok::<_, LshPlanError>(
                        plan_of(options, self@.params, ParameterSource::Existing),
                    ),
                }
            }),
    {
        explain_lsh(
            LshPlanOptions::new(self.len() as u64, self.threshold(), self.num_perm()).storage_mode(
                StorageMode::Memory,
            ),
            self.params(),
        )
    }
}

/// The sizes of a plan are those of the model: four bytes for each value of a signature;
/// for each item in each mode a fixed part and a part for each band; and one and a half
/// times as much, rounded up, where there is headroom.
pub proof fn law_plan_sizes_follow_the_model(
    options: LshPlanOptions,
    params: LshParams,
    source: ParameterSource,
)
    requires
        plan_error(options, params) is None,
    ensures
        ({
            let plan = plan_of(options, params, source);
            let sizes = plan.sizes;
            let items = options.expected_items as int;
            let bands = params.bands as int;
            &&& sizes.signature_bytes_per_item == 4 * options.num_perm
            &&& sizes.signature_bytes == items * (4 * options.num_perm)
            &&& sizes.index_metadata_bytes_per_item == 8 + 16 * bands
            &&& sizes.index_metadata_bytes == items * (8 + 16 * bands)
            &&& sizes.in_memory_index_bytes_per_item == 64 + 112 * bands
            &&& sizes.in_memory_index_bytes == items * (64 + 112 * bands)
            &&& sizes.persistent_index_bytes_per_item == 8 + 48 * bands
            &&& sizes.persistent_index_bytes == 736 + items * (8 + 48 * bands)
            &&& sizes.lazy_resident_bytes_per_item == 8 + 56 * bands
            &&& sizes.lazy_resident_bytes == items * (8 + 56 * bands)
            &&& 3 * sizes.in_memory_index_bytes <= 2 * sizes.in_memory_with_headroom_bytes <= 3
                * sizes.in_memory_index_bytes + 1
            &&& 3 * sizes.lazy_resident_bytes <= 2 * sizes.lazy_with_headroom_bytes <= 3
                * sizes.lazy_resident_bytes + 1
            &&& plan.used_permutations == params.bands * params.rows
            &&& plan.used_permutations + plan.unused_permutations == options.num_perm
            &&& plan.bucket_memberships_per_item == params.bands
            &&& plan.params == params
            &&& plan.expected_items == options.expected_items
            &&& plan.threshold == options.threshold
            &&& plan.num_perm == options.num_perm
            &&& plan.parameter_source == source
            &&& plan.memory_budget_bytes == options.memory_budget_bytes
            &&& plan.requested_storage == options.storage_mode
        }),
{
    let items = options.expected_items as int;
    let num_perm = options.num_perm as int;
    let bands = params.bands as int;
    assert(num_perm * 4 == 4 * num_perm);
    assert(items * (num_perm * 4) == items * (4 * num_perm));
    assert(items >= 0 && bands >= 0 && num_perm >= 0);
    lemma_product(items, num_perm * 4);
    lemma_product(items, 8 + bands * 16);
    lemma_product(items, 64 + bands * 112);
    lemma_product(items, 8 + bands * 48);
    lemma_product(items, 8 + bands * 56);
}

proof fn lemma_product(left: int, right: int)
    requires
        left >= 0,
        right >= 0,
    ensures
        left * right >= 0,
{
    assert(left * right >= 0) by (nonlinear_arith)
        requires
            left >= 0,
            right >= 0,
    ;
}

/// Memory is recommended where the index fits in the budget with headroom, the persistent
/// store where it does not and the resident part of that does, and the shared backend
/// where neither does. An explicit choice of another mode is kept.
pub proof fn law_recommendation_follows_the_budget(
    options: LshPlanOptions,
    params: LshParams,
    source: ParameterSource,
    budget: u64,
)
    requires
        plan_error(options, params) is None,
        options.memory_budget_bytes == Some(budget),
    ensures
        ({
            let plan = plan_of(options, params, source);
            let items = options.expected_items as int;
            let bands = params.bands as int;
            let memory = 3 * (items * (64 + 112 * bands)) <= 2 * budget;
            let resident = 3 * (items * (8 + 56 * bands)) <= 2 * budget;
            &&& plan.in_memory_fits_budget == Some(memory)
            &&& plan.persistent_fits_budget == Some(resident)
            &&& plan.recommended_storage == match options.storage_mode {
                StorageMode::Auto | StorageMode::Memory => if memory {
                    StorageMode::Memory
                } else if resident {
                    StorageMode::Persistent
                } else {
                    StorageMode::Redis
                },
                StorageMode::Persistent => StorageMode::Persistent,
                StorageMode::Lazy => StorageMode::Lazy,
                StorageMode::Redis => StorageMode::Redis,
            }
        }),
{
    law_plan_sizes_follow_the_model(options, params, source);
}

/// Without a budget the persistent store is recommended where nothing else was asked for,
/// and what was asked for otherwise.
pub proof fn law_recommendation_without_a_budget(
    options: LshPlanOptions,
    params: LshParams,
    source: ParameterSource,
)
    requires
        options.memory_budget_bytes is None,
    ensures
        ({
            let plan = plan_of(options, params, source);
            &&& plan.in_memory_fits_budget is None
            &&& plan.persistent_fits_budget is None
            &&& options.storage_mode == StorageMode::Auto ==> plan.recommended_storage
                == StorageMode::Persistent && plan.recommendation_reason
                == RecommendationReason::CapacityUnknown
            &&& options.storage_mode != StorageMode::Auto ==> plan.recommended_storage
                == options.storage_mode && plan.recommendation_reason
                == RecommendationReason::ExplicitMode
        }),
{
}

/// A plan is refused for a budget of nothing, for a configuration that is not valid, or
/// where an estimate does not fit in 64 bits, and for nothing else.
pub proof fn law_which_plans_are_refused(options: LshPlanOptions, params: LshParams)
    ensures
        ({
            let items = options.expected_items as int;
            let bands = params.bands as int;
            let limit = u64::MAX as int;
            options.memory_budget_bytes != Some(0u64) && params::configuration_error(
                options.threshold,
                options.num_perm,
                params,
            ) is None && items * (4 * options.num_perm) <= limit && 736 + items * (8 + 48 * bands)
                <= limit && 3 * (items * (64 + 112 * bands)) <= limit && 4 * options.num_perm
                <= limit && 64 + 112 * bands <= limit ==> plan_error(options, params) is None
        }),
{
    let items = options.expected_items as int;
    let bands = params.bands as int;
    let limit = u64::MAX as int;
    if 736 + items * (8 + 48 * bands) <= limit && 3 * (items * (64 + 112 * bands)) <= limit {
        assert(items * (8 + bands * 16) <= items * (64 + 112 * bands) && items * (8 + bands * 56)
            <= items * (64 + 112 * bands)) by (nonlinear_arith)
            requires
                items >= 0,
                bands >= 0,
        ;
        assert(0 <= items * (64 + 112 * bands)) by (nonlinear_arith)
            requires
                items >= 0,
                bands >= 0,
        ;
    }
}

} // verus!
