//! The time of the system.

use std::time::{Duration, SystemTime, SystemTimeError};
use vstd::prelude::*;

verus! {

/// A point in time of the system's clock.
#[verifier::external_type_specification]
#[verifier::external_body]
pub struct ExSystemTime(SystemTime);

/// What comes back in place of the time between two points where the second lies before the first.
#[verifier::external_type_specification]
#[verifier::external_body]
pub struct ExSystemTimeError(SystemTimeError);

/// `SystemTime::now`. Nothing is claimed of what the clock says.
pub assume_specification[ std::time::SystemTime::now ]() -> SystemTime;

/// `SystemTime::duration_since`. Nothing is claimed of the time between two points, which depends
/// on the clock.
pub assume_specification[ std::time::SystemTime::duration_since ](
    t: &SystemTime,
    earlier: SystemTime,
) -> Result<Duration, SystemTimeError>;

/// `Duration::as_secs`. Nothing is claimed of the number, which depends on what is inside the
/// duration.
pub assume_specification[ std::time::Duration::as_secs ](d: &Duration) -> u64;

/// The start of 1970, from which `SystemTime` counts: `SystemTime::UNIX_EPOCH`.
#[verifier::external_body]
fn epoch() -> SystemTime {
    SystemTime::UNIX_EPOCH
}

/// The seconds since the start of 1970 that the clock gives, or zero where it gives none, as it
/// stands before that start.
pub fn seconds(t: Option<u64>) -> (r: u64)
    ensures
        r == (match t {
            Some(s) => s,
            None => 0,
        }),
{
    match t {
        Some(s) => s,
        None => 0,
    }
}

/// The seconds since the start of 1970, or zero where the clock stands before it. What the clock
/// says is not known beforehand, so nothing is claimed of the number; `seconds` says what becomes
/// of what the clock gives.
pub fn now() -> u64 {
    match SystemTime::now().duration_since(epoch()) {
        Ok(d) => seconds(Some(d.as_secs())),
        Err(_) => seconds(None),
    }
}

} // verus!
