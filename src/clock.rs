//! Timer sources: the wall clock, read in nanoseconds, and a free-running
//! cycle counter whose readings the caller takes and calibrates here.
use vstd::prelude::*;

verus! {

/// Ticks of the wall clock in one second: it counts nanoseconds.
pub const NANOS_PER_SECOND: u64 = 1_000_000_000;

/// The interval, in milliseconds, between the two counter readings that
/// calibrate the cycle counter.
pub const CALIBRATION_MILLIS: u64 = 100;

#[verifier::external_type_specification]
#[verifier::external_body]
pub struct ExInstant(std::time::Instant);

/// Relies on `std::time::Instant::now`: a reading of the monotonic clock.
#[verifier::external_body]
pub(crate) fn clock_now() -> (r: std::time::Instant) {
    std::time::Instant::now()
}

/// Relies on `std::time::Instant::elapsed`: the time passed since `t`.
#[verifier::external_body]
pub(crate) fn time_since(t: &std::time::Instant) -> (r: std::time::Duration) {
    t.elapsed()
}

/// Relies on `std::time::Duration::as_nanos`: the duration in nanoseconds.
#[verifier::external_body]
pub(crate) fn whole_nanos(d: std::time::Duration) -> (r: u128) {
    d.as_nanos()
}

/// The nanoseconds since `t`, kept to 64 bits (about 584 years).
pub(crate) fn nanos_since(t: &std::time::Instant) -> u64 {
    whole_nanos(time_since(t)) as u64
}

/// The counter's ticks per second from two readings taken
/// `CALIBRATION_MILLIS` apart, never below 1 and capped at `u64::MAX`.
pub open spec fn calibrated_rate(start: u64, end: u64) -> u64 {
    if end <= start {
        1
    } else if (end - start) * 10 > u64::MAX {
        u64::MAX
    } else {
        ((end - start) * 10) as u64
    }
}

/// Calibrates the cycle counter from a reading before and a reading after a
/// pause of `CALIBRATION_MILLIS`.
pub fn cycles_per_second(start: u64, end: u64) -> (r: u64)
    ensures
        r == calibrated_rate(start, end),
        r >= 1,
{
    if end <= start {
        1
    } else {
        let d = end - start;
        if d > u64::MAX / 10 {
            u64::MAX
        } else {
            d * 10
        }
    }
}

/// The ticks from reading `start` to reading `now`, none when the clock
/// reads lower than at the start.
pub open spec fn ticks_between(start: u64, now: u64) -> u64 {
    if now >= start {
        (now - start) as u64
    } else {
        0
    }
}

/// The ticks from reading `start` to reading `now`, none when the counter
/// reads lower than at the start.
pub fn elapsed_ticks(start: u64, now: u64) -> (r: u64)
    ensures
        r == ticks_between(start, now),
{
    if now >= start {
        now - start
    } else {
        0
    }
}

} // verus!
