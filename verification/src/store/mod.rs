//! Local stores of indexes in the container format.

pub mod bounded;
pub mod convert;
pub mod creation;
pub mod lazy;
pub mod membership;
pub mod merge;
pub mod overlay;
pub mod parity;
pub mod segments;
pub mod snapshot;
pub mod source;
