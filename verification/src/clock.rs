//! Readings of the clocks.

use vstd::prelude::*;

verus! {

/// A moment of the monotonic clock: `std::time::Instant`, carried opaquely.
#[verifier::external_type_specification]
#[verifier::external_body]
pub struct ExInstant(std::time::Instant);

/// A moment of the wall clock: `std::time::SystemTime`, carried opaquely.
#[verifier::external_type_specification]
#[verifier::external_body]
pub struct ExSystemTime(std::time::SystemTime);

/// The present moment, by `std::time::Instant::now`. Nothing is claimed of it.
#[verifier::external_body]
pub(crate) fn now() -> (r: std::time::Instant) {
    std::time::Instant::now()
}

/// The time since `start`, by `std::time::Instant::elapsed`. Nothing is claimed of
/// it.
#[verifier::external_body]
fn elapsed(start: &std::time::Instant) -> (r: std::time::Duration) {
    start.elapsed()
}

/// A span in whole milliseconds, by `std::time::Duration::as_millis`. Nothing is
/// claimed of the number.
#[verifier::external_body]
fn millis(span: &std::time::Duration) -> (r: u64) {
    span.as_millis() as u64
}

/// A span in whole seconds, by `std::time::Duration::as_secs`. Nothing is claimed of
/// the number.
#[verifier::external_body]
fn seconds(span: &std::time::Duration) -> (r: u64) {
    span.as_secs()
}

/// The present moment of the wall clock, by `std::time::SystemTime::now`. Nothing is
/// claimed of it.
#[verifier::external_body]
fn wall_clock() -> (r: std::time::SystemTime) {
    std::time::SystemTime::now()
}

/// The time from the start of 1970 to `moment`, by
/// `std::time::SystemTime::duration_since`; none where the moment is before it.
/// Nothing is claimed of it.
#[verifier::external_body]
fn since_epoch(moment: &std::time::SystemTime) -> (r: Option<std::time::Duration>) {
    moment.duration_since(std::time::UNIX_EPOCH).ok()
}

/// Whole milliseconds since `start`.
pub(crate) fn millis_since(start: &std::time::Instant) -> (r: u64) {
    millis(&elapsed(start))
}

/// Whole seconds since the start of 1970, by the wall clock; none where it is set to
/// a time before that.
pub(crate) fn unix_seconds() -> (r: Option<u64>) {
    match since_epoch(&wall_clock()) {
        Some(span) => Some(seconds(&span)),
        None => None,
    }
}

} // verus!
