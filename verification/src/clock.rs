use crate::error::ChainError;
use std::time::{Duration, SystemTime, SystemTimeError, UNIX_EPOCH};
use vstd::prelude::*;

verus! {

/// A moment on the system clock; carried through unopened.
#[verifier::external_type_specification]
#[verifier::external_body]
pub struct ExSystemTime(std::time::SystemTime);

/// Why a moment has no distance from the epoch; carried through unopened.
#[verifier::external_type_specification]
#[verifier::external_body]
pub struct ExSystemTimeError(std::time::SystemTimeError);

/// Calls `SystemTime::now`. Nothing is known of the moment it returns.
#[verifier::external_body]
pub(crate) fn system_now() -> SystemTime {
    SystemTime::now()
}

/// Calls `SystemTime::duration_since` with the Unix epoch, which fails for a
/// moment before the epoch.
#[verifier::external_body]
pub(crate) fn since_epoch(moment: &SystemTime) -> Result<Duration, SystemTimeError> {
    moment.duration_since(UNIX_EPOCH)
}

/// Calls `Duration::as_millis`.
#[verifier::external_body]
pub(crate) fn whole_millis(span: &Duration) -> u128 {
    span.as_millis()
}

/// The milliseconds since the Unix epoch on the system clock, or a storage
/// failure where the clock stands before the epoch.
pub fn now_millis() -> (r: Result<u128, ChainError>)
    ensures
        r matches Err(e) ==> e == ChainError::Storage,
{
    let moment = system_now();
    elapsed_millis(since_epoch(&moment))
}

/// What a reading of the clock gives: the whole milliseconds of the time
/// that has passed since the epoch, or a storage failure where the moment
/// read stands before the epoch.
pub fn elapsed_millis(elapsed: Result<Duration, SystemTimeError>) -> (r: Result<u128, ChainError>)
    ensures
        match elapsed {
            Ok(_) => r is Ok,
            Err(_) => r == Err::<u128, ChainError>(ChainError::Storage),
        },
{
    match elapsed {
        Ok(span) => Ok(whole_millis(&span)),
        Err(_) => Err(ChainError::Storage),
    }
}

} // verus!
