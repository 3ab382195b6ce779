//! The game's clock: when the session started, and how long ago something
//! happened. Readings come from the machine's monotonic clock.

use vstd::prelude::*;
use std::time::{Duration, Instant};

verus! {

/// A reading of the monotonic clock.
#[verifier::external_type_specification]
#[verifier::external_body]
pub struct ExInstant(Instant);

/// Calls `std::time::Instant::now`. The reading depends on the machine's
/// clock, so nothing is stated of it.
#[verifier::external_body]
pub(crate) fn instant_now() -> (r: Instant) {
    Instant::now()
}

/// Calls `web_time::Instant::now`, the clock the map's tiles are stamped
/// with (on native targets it is `std::time::Instant`). Nothing is stated
/// of the reading.
#[verifier::external_body]
pub(crate) fn tile_clock_now() -> (r: Instant) {
    web_time::Instant::now()
}

/// Calls `std::time::Instant::elapsed`: the time since `start`. It depends
/// on the clock, so nothing is stated of it.
#[verifier::external_body]
pub(crate) fn elapsed_since(start: &Instant) -> (r: Duration) {
    start.elapsed()
}

/// Calls `std::time::Instant::checked_sub`: the reading `d` earlier than
/// `start`, or `None` where the clock cannot represent it. Which of the two
/// comes back depends on the platform's clock, so nothing is stated.
#[verifier::external_body]
pub(crate) fn instant_checked_sub(start: &Instant, d: Duration) -> (r: Option<Instant>) {
    start.checked_sub(d)
}

/// The whole milliseconds of `d`, as `std::time::Duration::as_millis`
/// reads them.
pub uninterp spec fn span_millis(d: Duration) -> u128;

/// Calls `std::time::Duration::as_millis`, whose result is named
/// [`span_millis`], narrowed to `u64` (a span of more than half a billion
/// years would wrap).
#[verifier::external_body]
pub(crate) fn duration_millis(d: &Duration) -> (r: u64)
    ensures
        r == span_millis(*d) as u64,
{
    d.as_millis() as u64
}

/// The whole seconds of `d`, as `std::time::Duration::as_secs` reads them.
pub uninterp spec fn whole_secs(d: Duration) -> u64;

/// Calls `std::time::Duration::as_secs`: the whole seconds of `d`, named
/// [`whole_secs`].
#[verifier::external_body]
pub(crate) fn duration_secs(d: &Duration) -> (r: u64)
    ensures
        r == whole_secs(*d),
{
    d.as_secs()
}

/// The span of `ms` milliseconds, as `std::time::Duration::from_millis`
/// builds it.
pub uninterp spec fn millis_span(ms: u64) -> Duration;

/// Calls `std::time::Duration::from_millis`, which builds the span of `ms`
/// milliseconds from `ms` alone; its result is named [`millis_span`]. As std
/// documents, the span holds `ms / 1000` whole seconds and `ms` whole
/// milliseconds.
#[verifier::external_body]
pub(crate) fn duration_from_millis(ms: u64) -> (r: Duration)
    ensures
        r == millis_span(ms),
        whole_secs(r) == ms / 1000,
        span_millis(r) == ms,
{
    Duration::from_millis(ms)
}

} // verus!
