//! Time differences against the system clock.
use vstd::prelude::*;
use core::time::Duration;
use std::time::SystemTime;

verus! {

#[verifier::external_type_specification]
#[verifier::external_body]
pub struct ExSystemTime(std::time::SystemTime);

/// The distance between two instants given in milliseconds.
pub open spec fn abs_diff(a: u64, b: u64) -> nat {
    if a >= b {
        (a - b) as nat
    } else {
        (b - a) as nat
    }
}

/// The `Duration` of `ms` milliseconds, as `Duration::from_millis` builds it.
pub uninterp spec fn millis_duration(ms: u64) -> Duration;

/// `SystemTime::now`.
///
/// Trusted: nothing is stated of the reading, which is the machine's clock.
#[verifier::external_body]
fn system_now() -> SystemTime {
    SystemTime::now()
}

/// `SystemTime::duration_since(UNIX_EPOCH)`, without its error.
///
/// Trusted: nothing is stated of the result; std gives an error (here
/// nothing) when the instant is before the epoch.
#[verifier::external_body]
fn since_unix_epoch(t: &SystemTime) -> Option<Duration> {
    t.duration_since(std::time::UNIX_EPOCH).ok()
}

/// `Duration::as_millis`.
///
/// Trusted: nothing is stated of the result, which here only ever comes
/// from a clock reading.
#[verifier::external_body]
fn duration_as_millis(d: &Duration) -> u128 {
    d.as_millis()
}

/// `Duration::from_millis`.
///
/// Trusted: the result is the duration of `ms` milliseconds
/// (`millis_duration`).
#[verifier::external_body]
pub(crate) fn duration_from_millis(ms: u64) -> (r: Duration)
    ensures
        r == millis_duration(ms),
{
    Duration::from_millis(ms)
}

/// `Duration::as_secs`.
///
/// Trusted: for a duration built from `ms` milliseconds, the whole number
/// of seconds it holds is `ms / 1000`.
#[verifier::external_body]
pub(crate) fn duration_as_secs(d: &Duration) -> (r: u64)
    ensures
        forall|ms: u64| #[trigger] millis_duration(ms) == *d ==> r == ms / 1000,
{
    d.as_secs()
}

/// Milliseconds since the Unix epoch by the system clock (cut to 64 bits),
/// or nothing when the clock reads a time before the epoch.
pub fn current_unix_millis() -> Option<u64> {
    let now = system_now();
    match since_unix_epoch(&now) {
        Some(d) => Some(duration_as_millis(&d) as u64),
        None => None,
    }
}

/// The distance in milliseconds between two instants, whichever comes
/// first.
pub fn time_difference_ms(now_ms: u64, timestamp_ms: u64) -> (r: u64)
    ensures
        r == abs_diff(now_ms, timestamp_ms),
{
    if timestamp_ms > now_ms {
        timestamp_ms - now_ms
    } else {
        now_ms - timestamp_ms
    }
}

/// How far the instant `timestamp_ms` lies from the clock reading `now_ms`
/// (both in milliseconds since the Unix epoch), in either direction; nothing
/// without a reading.
pub fn time_difference_since(now_ms: Option<u64>, timestamp_ms: u64) -> (r: Option<Duration>)
    ensures
        match now_ms {
            Some(now) => r == Some(millis_duration(abs_diff(now, timestamp_ms) as u64)),
            None => r is None,
        },
{
    match now_ms {
        Some(now) => Some(duration_from_millis(time_difference_ms(now, timestamp_ms))),
        None => None,
    }
}

/// How far the instant `timestamp_ms` (milliseconds since the Unix epoch)
/// lies from now, in either direction; nothing when the clock reads a time
/// before the epoch.
pub fn calculate_time_difference(timestamp_ms: u64) -> (r: Option<Duration>)
    ensures
        r matches Some(d) ==> exists|now_ms: u64| d == millis_duration(
            #[trigger] abs_diff(now_ms, timestamp_ms) as u64,
        ),
{
    let now = current_unix_millis();
    let r = time_difference_since(now, timestamp_ms);
    proof {
        if let Some(n) = now {
            assert(abs_diff(n, timestamp_ms) == abs_diff(n, timestamp_ms));
        }
    }
    r
}

/// The distance between two instants does not depend on their order.
pub proof fn lemma_time_difference_symmetric(a: u64, b: u64)
    ensures
        abs_diff(a, b) == abs_diff(b, a),
{
}

} // verus!
