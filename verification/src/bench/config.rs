//! Benchmark configurations.

use vstd::prelude::*;

use crate::threshold::Threshold;

verus! {

/// The longest signature that the benchmark harness takes.
pub const MAX_NUM_PERM: usize = 4_096;

/// Workload parameters recorded with each run.
#[derive(Debug, Clone, PartialEq, Eq)]
pub struct BenchmarkConfig {
    /// Number of corpus items.
    pub items: usize,
    /// Number of queries.
    pub queries: usize,
    /// Number of features in each synthetic set.
    pub set_size: usize,
    /// Number of source features retained in each synthetic query.
    pub overlap: usize,
    /// LSH target threshold.
    pub threshold: Threshold,
    /// `MinHash` signature length.
    pub num_perm: usize,
    /// Deterministic workload and signature seed.
    pub seed: u64,
    /// Worker threads that were asked for. A run sketches on one thread, whatever is
    /// asked for.
    pub threads: Option<usize>,
    /// Optional dataset path used instead of the synthetic corpus.
    pub dataset: Option<String>,
}

/// Why a configuration cannot be run.
#[derive(Debug, Clone, Copy, PartialEq, Eq, Structural)]
pub enum ConfigError {
    /// There are no items.
    NoItems,
    /// There are no queries.
    NoQueries,
    /// The synthetic sets are empty.
    EmptySets,
    /// A query would retain more features than a synthetic set has.
    OverlapTooLarge,
    /// The threshold is not finite or not in `(0, 1]`.
    Threshold,
    /// The signature length is zero or too large.
    NumPerm,
}

impl BenchmarkConfig {
    /// Why the configuration cannot be run, if it cannot: the first of the
    /// conditions that it does not meet.
    pub open spec fn error(&self) -> Option<ConfigError> {
        if self.items == 0 {
            Some(ConfigError::NoItems)
        } else if self.queries == 0 {
            Some(ConfigError::NoQueries)
        } else if self.set_size == 0 && self.dataset is None {
            Some(ConfigError::EmptySets)
        } else if self.overlap > self.set_size && self.dataset is None {
            Some(ConfigError::OverlapTooLarge)
        } else if !self.threshold.valid() {
            Some(ConfigError::Threshold)
        } else if self.num_perm == 0 || self.num_perm > MAX_NUM_PERM {
            Some(ConfigError::NumPerm)
        } else {
            None
        }
    }

    /// The configuration that runs where nothing else is asked for.
    pub fn standard(threshold: Threshold) -> (config: BenchmarkConfig)
        ensures
            config.items == 5_000,
            config.queries == 100,
            config.set_size == 100,
            config.overlap == 90,
            config.threshold == threshold,
            config.num_perm == 128,
            config.seed == 7,
            config.threads is None,
            config.dataset is None,
    {
        BenchmarkConfig {
            items: 5_000,
            queries: 100,
            set_size: 100,
            overlap: 90,
            threshold,
            num_perm: 128,
            seed: 7,
            threads: None,
            dataset: None,
        }
    }
}

/// Check a configuration.
pub fn validate_config(config: &BenchmarkConfig) -> (result: Result<(), ConfigError>)
    ensures
        match config.error() {
            Some(error) => result == Err::<(), ConfigError>(error),
            None => result is Ok,
        },
{
    if config.items == 0 {
        return Err(ConfigError::NoItems);
    }
    if config.queries == 0 {
        return Err(ConfigError::NoQueries);
    }
    if config.set_size == 0 && config.dataset.is_none() {
        return Err(ConfigError::EmptySets);
    }
    if config.overlap > config.set_size && config.dataset.is_none() {
        return Err(ConfigError::OverlapTooLarge);
    }
    if !config.threshold.is_valid() {
        return Err(ConfigError::Threshold);
    }
    if config.num_perm == 0 || config.num_perm > MAX_NUM_PERM {
        return Err(ConfigError::NumPerm);
    }
    Ok(())
}

impl ConfigError {
    /// What the error tells.
    pub open spec fn text(self) -> Seq<char> {
        match self {
            ConfigError::NoItems => "items must be positive"@,
            ConfigError::NoQueries => "queries must be positive"@,
            ConfigError::EmptySets => "set_size must be positive for synthetic workloads"@,
            ConfigError::OverlapTooLarge => "overlap cannot exceed synthetic set_size"@,
            ConfigError::Threshold => "threshold must be finite and in (0, 1]"@,
            ConfigError::NumPerm => "num_perm must be in 1..=4096 for the benchmark harness"@,
        }
    }

    /// The error in words.
    pub fn message(self) -> (message: &'static str)
        ensures
            message@ == self.text(),
    {
        match self {
            ConfigError::NoItems => "items must be positive",
            ConfigError::NoQueries => "queries must be positive",
            ConfigError::EmptySets => "set_size must be positive for synthetic workloads",
            ConfigError::OverlapTooLarge => "overlap cannot exceed synthetic set_size",
            ConfigError::Threshold => "threshold must be finite and in (0, 1]",
            ConfigError::NumPerm => "num_perm must be in 1..=4096 for the benchmark harness",
        }
    }
}

/// Why a comparison of storage layouts cannot be run.
#[derive(Debug, Clone, Copy, PartialEq, Eq, Structural)]
pub enum LayoutConfigError {
    /// There are no items or no queries.
    Empty,
    /// There are more queries than items.
    TooManyQueries,
    /// The number of items does not fit in 32 bits.
    Items,
}

/// Why layouts cannot be compared with so many items and queries, if they
/// cannot.
pub open spec fn layout_config_error(items: usize, queries: usize) -> Option<LayoutConfigError> {
    if items == 0 || queries == 0 {
        Some(LayoutConfigError::Empty)
    } else if queries > items {
        Some(LayoutConfigError::TooManyQueries)
    } else if items > u32::MAX {
        Some(LayoutConfigError::Items)
    } else {
        None
    }
}

/// Check the size of a comparison of storage layouts.
pub fn validate_layout_config(items: usize, queries: usize) -> (result: Result<
    (),
    LayoutConfigError,
>)
    ensures
        match layout_config_error(items, queries) {
            Some(error) => result == Err::<(), LayoutConfigError>(error),
            None => result is Ok && queries <= u32::MAX,
        },
{
    if items == 0 || queries == 0 {
        return Err(LayoutConfigError::Empty);
    }
    if queries > items {
        return Err(LayoutConfigError::TooManyQueries);
    }
    if items as u64 > u32::MAX as u64 {
        return Err(LayoutConfigError::Items);
    }
    Ok(())
}

impl LayoutConfigError {
    /// What the error tells.
    pub open spec fn text(self) -> Seq<char> {
        match self {
            LayoutConfigError::Empty => "items and queries must be positive"@,
            LayoutConfigError::TooManyQueries => "queries cannot exceed items"@,
            LayoutConfigError::Items => "items must fit in u32"@,
        }
    }

    /// The error in words.
    pub fn message(self) -> (message: &'static str)
        ensures
            message@ == self.text(),
    {
        match self {
            LayoutConfigError::Empty => "items and queries must be positive",
            LayoutConfigError::TooManyQueries => "queries cannot exceed items",
            LayoutConfigError::Items => "items must fit in u32",
        }
    }
}

/// A benchmark can run exactly with items, queries, sets that are not empty and overlap no
/// more than they hold, where no dataset gives them, a threshold above zero and up to one,
/// and from one to 4096 permutations.
pub proof fn law_which_benchmarks_can_run(config: BenchmarkConfig)
    ensures
        config.error() is None == (config.items > 0 && config.queries > 0 && (config.dataset is None
            ==> config.set_size > 0 && config.overlap <= config.set_size) && 0
            < config.threshold.bits <= 0x3FF0_0000_0000_0000 && 1 <= config.num_perm <= 4_096),
{
}

/// Layouts can be compared exactly with items and queries, no more queries than items, and
/// items that 32 bits can count.
pub proof fn law_which_layouts_can_be_compared(items: usize, queries: usize)
    ensures
        layout_config_error(items, queries) is None == (1 <= queries <= items && items <= u32::MAX),
{
}

} // verus!
