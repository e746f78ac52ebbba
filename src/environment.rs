//! What the library reads from its surroundings: the clock and a random source.
use rand::Rng;
use vstd::prelude::*;

verus! {

#[verifier::external_type_specification]
#[verifier::external_body]
pub struct ExSystemTime(std::time::SystemTime);

#[verifier::external_type_specification]
#[verifier::external_body]
pub struct ExSystemTimeError(std::time::SystemTimeError);

/// Relies on `std::time::SystemTime::now`: the system clock's current reading.
#[verifier::external_body]
fn clock_now() -> (r: std::time::SystemTime) {
    std::time::SystemTime::now()
}

/// Relies on `SystemTime::duration_since(UNIX_EPOCH)`: the time since the Unix
/// epoch, or an error when the reading lies before it.
#[verifier::external_body]
fn since_epoch(t: &std::time::SystemTime) -> (r: Result<core::time::Duration, std::time::SystemTimeError>) {
    t.duration_since(std::time::UNIX_EPOCH)
}

/// Relies on `Duration::as_secs`: the whole seconds of a duration.
#[verifier::external_body]
fn whole_seconds(d: &core::time::Duration) -> (r: u64) {
    d.as_secs()
}

/// Relies on rand's `thread_rng().gen_range(0..bound)`: a value in `0..bound`,
/// which it draws uniformly (it panics on an empty range, hence `bound > 0`).
#[verifier::external_body]
pub(crate) fn random_below(bound: u32) -> (r: u32)
    requires
        bound > 0,
    ensures
        r < bound,
{
    rand::thread_rng().gen_range(0..bound)
}

/// A signed Unix timestamp from the whole seconds since the epoch: the seconds
/// themselves, the largest `i64` when they exceed it, and zero when there are none
/// (a clock before the epoch).
pub fn timestamp_from_secs(secs: Option<u64>) -> (r: i64)
    ensures
        r == match secs {
            Some(s) => if s <= i64::MAX as u64 { s as int } else { i64::MAX as int },
            None => 0,
        },
{
    match secs {
        Some(s) => {
            if s <= i64::MAX as u64 {
                s as i64
            } else {
                i64::MAX
            }
        },
        None => 0,
    }
}

/// The current time as a Unix timestamp in seconds, read from the system clock.
pub fn current_timestamp() -> (r: i64)
    ensures
        r >= 0,
{
    let now = clock_now();
    let secs = match since_epoch(&now) {
        Ok(d) => Some(whole_seconds(&d)),
        Err(_) => None,
    };
    timestamp_from_secs(secs)
}

} // verus!
