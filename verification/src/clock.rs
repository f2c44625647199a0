//! The time of day, for the time stamps of file system nodes.

use std::time::{Duration, SystemTime, SystemTimeError};
use vstd::prelude::*;

verus! {

/// A point in time on the system's clock. The library only carries such
/// values from one call to the next.
#[verifier::external_type_specification]
#[verifier::external_body]
pub struct ExSystemTime(SystemTime);

/// How far a point in time lies before the one it was measured from. The
/// library tells it from a duration and reads nothing out of it.
#[verifier::external_type_specification]
#[verifier::external_body]
pub struct ExSystemTimeError(SystemTimeError);

/// `SystemTime::now` reads the system's clock. What it returns changes from
/// call to call, so nothing is claimed of it.
pub assume_specification[ SystemTime::now ]() -> SystemTime;

/// `SystemTime::duration_since` measures how far the one point in time lies
/// behind the other, and fails where it lies before it. Both depend on
/// what the clock said, so nothing is claimed of the result.
pub assume_specification[ SystemTime::duration_since ](
    later: &SystemTime,
    earlier: SystemTime,
) -> Result<Duration, SystemTimeError>;

/// `Duration::as_secs` gives the whole seconds of a duration. The library
/// has no model of durations, so nothing is claimed of the number.
pub assume_specification[ Duration::as_secs ](duration: &Duration) -> u64;

/// The constant `std::time::UNIX_EPOCH`: the start of 1970 in universal
/// time.
#[verifier::external_body]
fn unix_epoch() -> SystemTime {
    std::time::UNIX_EPOCH
}

/// What is reported for a reading of the clock: the whole seconds since
/// the start of 1970 that were measured, and 0 where nothing could be
/// measured because the clock stands before that.
pub fn seconds_or_zero(measured: Option<u64>) -> (r: u64)
    ensures
        r == (match measured {
            Some(seconds) => seconds,
            None => 0,
        }),
{
    match measured {
        Some(seconds) => seconds,
        None => 0,
    }
}

/// The whole seconds that have passed since the start of 1970: 0 where the
/// clock stands before that. The clock decides the result, so nothing is
/// stated of it here; what is made of a reading, `seconds_or_zero` says.
pub fn time() -> u64 {
    let measured: Option<u64> = match SystemTime::now().duration_since(unix_epoch()) {
        Ok(elapsed) => Some(elapsed.as_secs()),
        Err(_) => None,
    };
    seconds_or_zero(measured)
}

} // verus!
