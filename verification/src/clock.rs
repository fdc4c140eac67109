//! The monotonic clock and `Duration` conversions used by reassembly timeouts.
use std::time::{Duration, Instant};
use vstd::prelude::*;

verus! {

/// `std::time::Instant`, carried through the assembler as an opaque value.
#[verifier::external_type_specification]
#[verifier::external_body]
pub struct ExInstant(Instant);

/// Calls `Instant::now`. The result depends on the time, so nothing is stated of it.
#[verifier::external_body]
pub(crate) fn instant_now() -> Instant {
    Instant::now()
}

/// Calls `Instant::elapsed` on `epoch`: the time passed since `epoch`. It depends on
/// the time, so nothing is stated.
#[verifier::external_body]
pub(crate) fn elapsed_since(epoch: &Instant) -> Duration {
    epoch.elapsed()
}

/// The whole number of nanoseconds a `Duration` spans, as `Duration::as_nanos`
/// returns it.
pub uninterp spec fn duration_as_nanos(d: Duration) -> u128;

/// Calls `Duration::as_nanos`: the result is the duration's span in nanoseconds.
#[verifier::external_body]
pub(crate) fn duration_nanos(d: Duration) -> (r: u128)
    ensures
        r == duration_as_nanos(d),
{
    d.as_nanos()
}

/// Calls `Duration::from_millis`: the duration spans `ms` milliseconds, that is
/// `ms * 1_000_000` nanoseconds.
#[verifier::external_body]
pub(crate) fn duration_from_millis(ms: u64) -> (r: Duration)
    ensures
        duration_as_nanos(r) == ms as u128 * 1_000_000,
{
    Duration::from_millis(ms)
}

} // verus!
