//! The clock. What stands here is taken on trust of the `instant` crate,
//! whose `Duration` is that of the standard library, as is its `Instant` on
//! every platform but the web.

use vstd::prelude::*;
use instant::{Duration, Instant};

verus! {

/// `instant::Instant`: a point in time, as the clock gave it. Nothing is
/// known of what it holds.
#[verifier::external_type_specification]
#[verifier::external_body]
pub struct ExInstant(Instant);

/// Tells whether a span of time is no time at all: what `Duration::is_zero`
/// returns for it.
pub uninterp spec fn spans_no_time(span: Duration) -> bool;

/// `Duration::from_secs`: the span of `secs` whole seconds, which is no
/// time at all exactly if `secs` is 0.
#[verifier::external_body]
pub(crate) fn seconds(secs: u64) -> (span: Duration)
    ensures
        spans_no_time(span) == (secs == 0),
{
    Duration::from_secs(secs)
}

/// `Duration::is_zero`: whether the span is no time at all.
#[verifier::external_body]
pub(crate) fn is_zero(span: &Duration) -> (zero: bool)
    ensures
        zero == spans_no_time(*span),
{
    span.is_zero()
}

/// `Instant::now`: the time on the clock. Nothing is promised of it.
#[verifier::external_body]
pub(crate) fn now() -> Instant {
    Instant::now()
}

/// `Instant::elapsed`: the time that has passed since `start`. Nothing is
/// promised of it.
#[verifier::external_body]
pub(crate) fn elapsed(start: &Instant) -> Duration {
    start.elapsed()
}

} // verus!
