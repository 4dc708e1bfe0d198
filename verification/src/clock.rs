//! The trusted boundary to the process clock.
//!
//! Expiry logic works on plain millisecond stamps; only the three thin
//! wrappers here touch the clock itself, and nothing is assumed of the
//! instants they hand back beyond what the standard library documents.

use vstd::prelude::*;

verus! {

#[verifier::external_type_specification]
#[verifier::external_body]
pub struct ExInstant(std::time::Instant);

/// Relies on std::time::Instant::now: an opaque reading of the monotonic
/// process clock; nothing is assumed of its value.
#[verifier::external_body]
pub(crate) fn instant_now() -> (r: std::time::Instant) {
    std::time::Instant::now()
}

/// Relies on std::time::Instant::duration_since: the time from `earlier`
/// to `later`, or zero when `earlier` is the later of the two; it does not
/// panic.
#[verifier::external_body]
pub(crate) fn instant_duration_since(
    later: &std::time::Instant,
    earlier: &std::time::Instant,
) -> (r: core::time::Duration) {
    later.duration_since(*earlier)
}

/// Relies on core::time::Duration::as_millis: the duration in whole
/// milliseconds; nothing further is assumed of its value.
#[verifier::external_body]
pub(crate) fn duration_as_millis(d: &core::time::Duration) -> (r: u128) {
    d.as_millis()
}

} // verus!
