//! The clock on the wall.
use vstd::prelude::*;

verus! {

/// What the clock gives where it stands before the Unix epoch.
#[verifier::external_type_specification]
#[verifier::external_body]
pub struct ExSystemTimeError(std::time::SystemTimeError);

/// `SystemTime::elapsed` of the Unix epoch, in whole seconds: how long ago it
/// was, or an error where the clock stands before it. Nothing is claimed of the
/// value, which is the clock's.
#[verifier::external_body]
pub(crate) fn since_epoch() -> (seconds: Result<u64, std::time::SystemTimeError>)
{
    std::time::UNIX_EPOCH.elapsed().map(|ago| ago.as_secs())
}

/// A reading of the clock, with 0 for one that stands before the Unix epoch.
pub open spec fn reading(clock: Result<u64, std::time::SystemTimeError>) -> u64 {
    match clock {
        Ok(seconds) => seconds,
        Err(_) => 0,
    }
}

/// The seconds that the clock has counted since the Unix epoch, 0 where it
/// stands before it.
pub fn seconds_or_zero(clock: Result<u64, std::time::SystemTimeError>) -> (seconds: u64)
    ensures
        seconds == reading(clock),
        clock is Ok ==> seconds == clock->Ok_0,
        clock is Err ==> seconds == 0,
{
    match clock {
        Ok(seconds) => seconds,
        Err(_) => 0,
    }
}

} // verus!
