//! Reading the clock, for the timings that reports carry.

use vstd::prelude::*;
use std::time::{Duration, Instant};

verus! {

#[verifier::external_type_specification]
#[verifier::external_body]
pub struct ExInstant(Instant);

/// `Instant::now`: the current time. Nothing is stated of the result.
#[verifier::external_body]
pub(crate) fn now() -> Instant {
    Instant::now()
}

/// `Instant::elapsed`: the time since `started`. Nothing is stated of the
/// result, which depends on the clock.
#[verifier::external_body]
pub(crate) fn elapsed_since(started: &Instant) -> Duration {
    started.elapsed()
}

/// `Duration::as_millis`: the whole milliseconds of a duration. Verus sees
/// nothing inside a `Duration`, so nothing is stated of the result.
#[verifier::external_body]
pub(crate) fn millis(duration: &Duration) -> u128 {
    duration.as_millis()
}

} // verus!
