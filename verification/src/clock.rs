//! Reading the clock.
use vstd::prelude::*;
use std::time::{Duration, SystemTime};

verus! {

/// `std::time::SystemTime`, a point in time as the system's clock has it.
/// Nothing is known of what one holds.
#[verifier::external_type_specification]
#[verifier::external_body]
pub struct ExSystemTime(SystemTime);

/// `SystemTime::now`: the time as the system has it. Nothing is known of
/// it.
#[verifier::external_body]
pub(crate) fn now() -> SystemTime {
    SystemTime::now()
}

/// `SystemTime::duration_since`: the time from `earlier` to `later`, where
/// `later` is not before `earlier`. Nothing is known of the result.
#[verifier::external_body]
pub(crate) fn time_between(earlier: &SystemTime, later: &SystemTime) -> Option<Duration> {
    match later.duration_since(*earlier) {
        Ok(d) => Some(d),
        Err(_) => None,
    }
}

/// `Duration::as_nanos`: a duration in nanoseconds. Nothing is known of
/// the number.
#[verifier::external_body]
pub(crate) fn nanos_of(d: &Duration) -> u128 {
    d.as_nanos()
}

/// The nanoseconds since `start`; the largest number where the clock has
/// gone back behind `start`.
pub(crate) fn elapsed_since(start: &SystemTime) -> u128 {
    let end = now();
    let span = match time_between(start, &end) {
        Some(d) => Some(nanos_of(&d)),
        None => None,
    };
    nanos_or_max(span)
}

/// The build time that is set down for a span of nanoseconds: the span
/// itself, and the largest number where there is no span, because the clock
/// went back while the index was built.
pub fn nanos_or_max(span: Option<u128>) -> (nanos: u128)
    ensures
        nanos == match span {
            Some(t) => t,
            None => u128::MAX,
        },
{
    match span {
        Some(t) => t,
        None => u128::MAX,
    }
}

} // verus!
