//! Reading the monotonic clock for search time control.

use std::time::{Duration, Instant};
use vstd::prelude::*;

verus! {

/// A point of the monotonic clock (`std::time::Instant`), carried opaque.
#[verifier::external_type_specification]
#[verifier::external_body]
pub struct ExInstant(Instant);

/// Calls `Instant::now`. What it returns depends on when it is called, so
/// nothing is stated of it.
#[verifier::external_body]
pub(crate) fn clock_now() -> (t: Instant) {
    Instant::now()
}

/// Calls `Instant::elapsed`: the time since `start`. It depends on when it
/// is called, so nothing is stated of it.
#[verifier::external_body]
pub(crate) fn time_since(start: &Instant) -> (d: Duration) {
    start.elapsed()
}

/// Calls `Duration::as_millis`: the whole milliseconds of `d`. The duration
/// is opaque here, so nothing is stated of the result.
#[verifier::external_body]
pub(crate) fn whole_millis(d: &Duration) -> (ms: u128) {
    d.as_millis()
}

/// Whole milliseconds since `start`, cut to 64 bits.
pub(crate) fn millis_since(start: &Instant) -> (ms: u64) {
    let d = time_since(start);
    let total = whole_millis(&d);
    total as u64
}

} // verus!
