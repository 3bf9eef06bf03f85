//! Locality-sensitive hashing of sketches.

pub mod grouping;
pub mod lsh;
pub mod metrics;
pub mod params;
pub mod planner;
pub mod union_find;
