//! Declarations for the standard library's clock types.
//!
//! Instants and durations are carried opaquely: the library stores
//! them and hands them back, but proves nothing about the clock.

use vstd::prelude::*;

verus! {

/// `std::time::Instant`, carried opaquely: a point in time taken from
/// the system's monotonic clock.
#[verifier::external_type_specification]
#[verifier::external_body]
pub struct ExInstant(std::time::Instant);

/// Relies on `std::time::Instant::now`: the result depends on the
/// clock, so nothing is promised of it.
pub assume_specification[ std::time::Instant::now ]() -> std::time::Instant;

/// Relies on `std::time::Instant::duration_since`: the span between
/// two instants, saturating to zero when `earlier` is not earlier;
/// nothing is promised of it.
pub assume_specification[ std::time::Instant::duration_since ](
    a: &std::time::Instant,
    earlier: std::time::Instant,
) -> core::time::Duration;

} // verus!
