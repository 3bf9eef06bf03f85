//! Elapsed wall-clock time.

use std::time::{Duration, Instant};
use vstd::prelude::*;

verus! {

/// `std::time::Instant`, an opaque point in time.
#[verifier::external_type_specification]
#[verifier::external_body]
pub struct ExInstant(Instant);

/// `std::time::Instant::now`. What it returns depends on the clock, so nothing
/// is claimed of it.
pub assume_specification[ Instant::now ]() -> (instant: Instant)
;

/// `std::time::Instant::elapsed`. What it returns depends on the clock, so
/// nothing is claimed of it.
pub assume_specification[ Instant::elapsed ](instant: &Instant) -> (span: Duration)
;

/// `std::time::Duration::as_nanos`. A span is only ever read off the clock, so
/// nothing is claimed of it.
pub assume_specification[ Duration::as_nanos ](span: &Duration) -> (nanos: u128)
;

} // verus!
