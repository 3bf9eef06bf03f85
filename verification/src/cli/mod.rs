//! Rules of the command-line program.

pub mod dedup;
pub mod output;
pub mod progress;
pub mod record;
pub mod session;
pub mod transaction;
pub mod verify;
