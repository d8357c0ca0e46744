//! Reading the clock: the time that a move took, and the time that a search
//! has left.

use std::time::{Duration, Instant, SystemTime, SystemTimeError};
use vstd::prelude::*;

verus! {

/// `std::time::SystemTime`, a point on the system clock. Nothing is known of
/// what it holds.
#[verifier::external_type_specification]
#[verifier::external_body]
pub struct ExSystemTime(SystemTime);

/// `std::time::SystemTimeError`, the error of a clock that went backwards.
#[verifier::external_type_specification]
#[verifier::external_body]
pub struct ExSystemTimeError(SystemTimeError);

/// `std::time::Instant`, a point on the monotonic clock. Nothing is known of
/// what it holds.
#[verifier::external_type_specification]
#[verifier::external_body]
pub struct ExInstant(Instant);

/// `SystemTime::now` reads the system clock. Nothing is claimed of the result.
pub assume_specification[ SystemTime::now ]() -> (now: SystemTime)
;

/// `SystemTime::elapsed` gives the time since `start`, or an error. Nothing
/// is claimed of the result.
pub assume_specification[ SystemTime::elapsed ](start: &SystemTime) -> (elapsed: Result<
    Duration,
    SystemTimeError,
>)
;

/// `Duration::as_millis` gives a duration in whole milliseconds. Nothing is
/// claimed of the result.
pub assume_specification[ Duration::as_millis ](duration: &Duration) -> (millis: u128)
;

/// `Instant::now` reads the monotonic clock. Nothing is claimed of the result.
pub assume_specification[ Instant::now ]() -> (now: Instant)
;

/// `Instant::elapsed` gives the time since `start`. Nothing is claimed of
/// the result.
pub assume_specification[ Instant::elapsed ](start: &Instant) -> (elapsed: Duration)
;

/// `Duration::as_nanos` gives a duration in whole nanoseconds. Nothing is
/// claimed of the result.
pub assume_specification[ Duration::as_nanos ](duration: &Duration) -> (nanos: u128)
;

/// A stopwatch that runs from the moment it is made.
pub struct StopWatch {
    start_time: Instant,
}

impl StopWatch {
    /// Creates new StopWatch instance
    pub fn new() -> StopWatch {
        let current_instant = Instant::now();
        StopWatch { start_time: current_instant }
    }

    /// Gives the elapsed time since stopwatch is started. The stopwatch
    /// runs on from the moment it was made.
    pub fn get_elapsed_time(&mut self) -> (nanos: u128)
        ensures
            *final(self) == *old(self),
    {
        self.start_time.elapsed().as_nanos()
    }
}

/// The unit in which a time of `elapsed` nanoseconds is shown, as the
/// number of nanoseconds that make it up and its sign: seconds above a
/// second, milliseconds above a millisecond, microseconds above a
/// microsecond, else nanoseconds.
pub open spec fn unit_of(elapsed: u128) -> (u128, Seq<char>) {
    if elapsed > 1_000_000_000 {
        (1_000_000_000, "s"@)
    } else if elapsed > 1_000_000 {
        (1_000_000, "ms"@)
    } else if elapsed > 1_000 {
        (1_000, "\u{b5}s"@)
    } else {
        (1, "ns"@)
    }
}

/// The unit in which a time of `elapsed` nanoseconds is shown.
pub fn time_unit(elapsed: u128) -> (unit: (u128, &'static str))
    ensures
        unit.0 == unit_of(elapsed).0,
        unit.1@ == unit_of(elapsed).1,
{
    if elapsed > 1_000_000_000 {
        (1_000_000_000, "s")
    } else if elapsed > 1_000_000 {
        (1_000_000, "ms")
    } else if elapsed > 1_000 {
        (1_000, "\u{b5}s")
    } else {
        (1, "ns")
    }
}

/// Whether less than `time_limit_in_milli` milliseconds have passed since
/// `start_time`. A clock that cannot tell counts as time that has run out,
/// and a budget of nothing is spent whatever the clock says.
pub fn within_budget(start_time: &SystemTime, time_limit_in_milli: u128) -> (within: bool)
    ensures
        time_limit_in_milli == 0 ==> !within,
{
    let elapsed = match start_time.elapsed() {
        Ok(elapsed) => Some(elapsed.as_millis()),
        Err(_) => None,
    };
    time_is_left(elapsed, time_limit_in_milli)
}

/// A budget of `time_limit_in_milli` milliseconds is not spent after
/// `elapsed` milliseconds: the clock gave a time, and it is below the
/// budget.
pub open spec fn budget_left(elapsed: Option<u128>, time_limit_in_milli: u128) -> bool {
    match elapsed {
        Some(millis) => millis < time_limit_in_milli,
        None => false,
    }
}

/// Whether a budget of `time_limit_in_milli` milliseconds is not spent
/// after the `elapsed` milliseconds that the clock gave, if it gave any.
pub fn time_is_left(elapsed: Option<u128>, time_limit_in_milli: u128) -> (left: bool)
    ensures
        left == budget_left(elapsed, time_limit_in_milli),
{
    match elapsed {
        Some(millis) => millis < time_limit_in_milli,
        None => false,
    }
}

} // verus!
