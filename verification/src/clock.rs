//! The time of day, in milliseconds since the Unix epoch.

use std::time::{SystemTime, UNIX_EPOCH};
use vstd::prelude::*;

verus! {

/// A reading of the system clock.
#[verifier::external_type_specification]
#[verifier::external_body]
pub struct ExSystemTime(SystemTime);

/// `SystemTime::now`. Which time it gives is up to the clock, so nothing is
/// said of it.
pub assume_specification[ SystemTime::now ]() -> (now: SystemTime)
;

/// Calls `SystemTime::duration_since` with the Unix epoch, and splits the
/// duration into whole seconds and the nanoseconds beyond them; `None` stands
/// for a time before the epoch.
///
/// Believed: the nanoseconds make less than a second. How much time has passed
/// is up to the clock, so nothing more is said of it.
#[verifier::external_body]
fn since_epoch(now: SystemTime) -> (elapsed: Option<(u64, u32)>)
    ensures
        elapsed matches Some((_, nanos)) ==> nanos < 1_000_000_000,
{
    match now.duration_since(UNIX_EPOCH) {
        Ok(elapsed) => Some((elapsed.as_secs(), elapsed.subsec_nanos())),
        Err(_) => None,
    }
}

/// The whole milliseconds in a time given as seconds and nanoseconds; zero for
/// a time before the epoch.
pub open spec fn millis_of(elapsed: Option<(u64, u32)>) -> nat {
    match elapsed {
        Some((secs, nanos)) => (secs * 1000 + nanos as int / 1_000_000) as nat,
        None => 0,
    }
}

/// Counts the whole milliseconds in a time given as seconds and nanoseconds.
pub fn elapsed_millis(elapsed: Option<(u64, u32)>) -> (millis: u128)
    ensures
        millis == millis_of(elapsed),
{
    match elapsed {
        Some((secs, nanos)) => secs as u128 * 1000 + (nanos / 1_000_000) as u128,
        None => 0,
    }
}

/// The milliseconds since the Unix epoch; zero while the clock stands before it.
pub fn unix_now_millis() -> (millis: u128)
    ensures
        exists|secs: u64, nanos: u32|
            nanos < 1_000_000_000 && millis == #[trigger] millis_of(Some((secs, nanos))),
        millis / 1000 <= u64::MAX,
{
    let elapsed = since_epoch(SystemTime::now());
    let millis: u128 = elapsed_millis(elapsed);
    proof {
        match elapsed {
            Some((secs, nanos)) => {
                assert(millis == millis_of(Some((secs, nanos))));
            },
            None => {
                assert(millis == millis_of(Some((0u64, 0u32))));
            },
        }
    }
    millis
}

/// A time in milliseconds leaves out less than a millisecond of the time that it
/// counts, and counts nothing more; before the epoch it is zero.
pub proof fn law_milliseconds_are_whole(secs: u64, nanos: u32)
    ensures
        millis_of(Some((secs, nanos))) * 1_000_000 <= secs * 1_000_000_000 + nanos,
        secs * 1_000_000_000 + nanos < (millis_of(Some((secs, nanos))) + 1) * 1_000_000,
        millis_of(None) == 0,
{
}

} // verus!
