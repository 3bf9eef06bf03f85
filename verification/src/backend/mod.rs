//! Storage backends for shared similarity indexes.

pub mod capability;
pub mod conformance;
pub mod contract;
pub mod descriptor;
pub mod error;
pub mod exercise;
pub mod index;
pub mod laws;
pub mod memory;
pub mod parity;
pub mod query;
pub mod redis;
pub mod table;
