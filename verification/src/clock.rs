//! The wall clock, as seconds since the Unix epoch.

use vstd::prelude::*;

verus! {

#[verifier::external_type_specification]
#[verifier::external_body]
pub struct ExSystemTime(std::time::SystemTime);

#[verifier::external_type_specification]
#[verifier::external_body]
pub struct ExSystemTimeError(std::time::SystemTimeError);

/// Calls `std::time::SystemTime::now`. Trusted; nothing is claimed of the
/// time that comes back.
#[verifier::external_body]
fn system_time_now() -> std::time::SystemTime {
    std::time::SystemTime::now()
}

/// Calls `SystemTime::duration_since` with the Unix epoch as the earlier
/// time. Trusted; nothing is claimed of the result.
#[verifier::external_body]
fn since_unix_epoch(time: &std::time::SystemTime) -> Result<
    std::time::Duration,
    std::time::SystemTimeError,
> {
    time.duration_since(std::time::SystemTime::UNIX_EPOCH)
}

/// Calls `Duration::as_secs`. Trusted; nothing is claimed of the result.
#[verifier::external_body]
fn whole_seconds(duration: &std::time::Duration) -> u64 {
    duration.as_secs()
}

/// The current time in whole seconds since the Unix epoch, or nothing
/// where the clock reads a time before the epoch.
pub fn unix_timestamp() -> Option<u64> {
    let now = system_time_now();
    match since_unix_epoch(&now) {
        Ok(duration) => Some(whole_seconds(&duration)),
        Err(_) => None,
    }
}

} // verus!
