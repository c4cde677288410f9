//! The wall clock, as far as the library reads it.

use vstd::prelude::*;
use std::time::Instant;

verus! {

/// A point in time of the standard library's monotonic clock,
/// `std::time::Instant`. Nothing is known of what it holds.
#[verifier::external_type_specification]
#[verifier::external_body]
pub struct ExInstant(Instant);

/// The current point in time, from `Instant::now`. Nothing is promised of
/// it.
#[verifier::external_body]
pub(crate) fn now() -> (t: Instant) {
    Instant::now()
}

/// Nanoseconds passed since `start`, from `Instant::elapsed`. Nothing is
/// promised of the number: it depends on when the call is made.
#[verifier::external_body]
pub(crate) fn elapsed_nanos(start: &Instant) -> (nanos: u128) {
    start.elapsed().as_nanos()
}

} // verus!
