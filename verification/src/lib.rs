//! Similarity indexing with MinHash signatures.

use vstd::prelude::*;

pub mod backend;
pub mod bench;
pub mod binding;
pub mod cli;
pub mod clock;
pub mod format;
pub mod index;
pub mod le;
pub mod message;
pub mod order;
pub mod ratio;
pub mod sketch;
pub mod store;
pub mod text;
pub mod threshold;

verus! {

/// The name of the engine.
pub const ENGINE_NAME: &'static str = "Pari";

} // verus!
