//! Wall-clock timing of workload phases.

use vstd::prelude::*;

verus! {

/// A point in time of the monotonic clock.
#[verifier::external_type_specification]
#[verifier::external_body]
pub struct ExInstant(std::time::Instant);

/// The current time: `std::time::Instant::now`. Nothing is claimed of it.
#[verifier::external_body]
pub(crate) fn instant_now() -> std::time::Instant {
    std::time::Instant::now()
}

/// Time since `start`: `std::time::Instant::elapsed`. Nothing is claimed of it.
#[verifier::external_body]
pub(crate) fn instant_elapsed(start: &std::time::Instant) -> std::time::Duration {
    start.elapsed()
}

/// Whole nanoseconds of a duration: `std::time::Duration::as_nanos`.
/// Nothing is claimed of the value.
#[verifier::external_body]
pub(crate) fn duration_as_nanos(d: &std::time::Duration) -> u128 {
    d.as_nanos()
}

/// Nanoseconds since `start`, truncated to 64 bits.
pub(crate) fn elapsed_ns(start: &std::time::Instant) -> u64 {
    let d = instant_elapsed(start);
    duration_as_nanos(&d) as u64
}

} // verus!
