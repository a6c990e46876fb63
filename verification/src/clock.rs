//! Trusted access to the monotonic clock.
//!
//! A bucket measures time in whole seconds since its own creation instant.
//! Nothing can be promised about what the clock returns — it depends on when
//! the call happens — so the declarations below carry no `ensures`; callers
//! handle every possible outcome.

use vstd::prelude::*;

verus! {

#[verifier::external_type_specification]
#[verifier::external_body]
pub struct ExInstant(std::time::Instant);

/// Relies on std::time::Instant::now: a reading of the monotonic clock.
/// The value depends on the moment of the call, so nothing is stated of it.
pub assume_specification[ std::time::Instant::now ]() -> (r: std::time::Instant);

/// Relies on std::time::Instant::elapsed: the time since `origin`, saturating
/// to zero. The value depends on the moment of the call, so nothing is stated
/// of it.
pub assume_specification[ std::time::Instant::elapsed ](
    origin: &std::time::Instant,
) -> (r: core::time::Duration);

/// Relies on core::time::Duration::as_secs: the whole seconds of the duration.
/// vstd gives `Duration` no view, so nothing is stated of the value.
pub assume_specification[ core::time::Duration::as_secs ](d: &core::time::Duration) -> (r: u64);

} // verus!
