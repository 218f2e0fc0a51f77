use vstd::prelude::*;
use std::time::{Duration, SystemTime, UNIX_EPOCH};

verus! {

/// The `Duration` that `Duration::from_secs(secs)` builds. It depends on
/// `secs` alone.
pub uninterp spec fn secs_duration(secs: u64) -> Duration;

/// The `Duration` that `Duration::from_millis(millis)` builds. It depends on
/// `millis` alone; `Duration::ZERO` is `millis_duration(0)`.
pub uninterp spec fn millis_duration(millis: u64) -> Duration;

/// Calls `std::time::Duration::from_secs`, which never fails: the contract
/// claims only that the result is the one value that `secs` determines.
#[verifier::external_body]
pub(crate) fn duration_from_secs(secs: u64) -> (d: Duration)
    ensures
        d == secs_duration(secs),
{
    Duration::from_secs(secs)
}

/// Calls `std::time::Duration::from_millis`, which never fails: the contract
/// claims only that the result is the one value that `millis` determines.
#[verifier::external_body]
pub(crate) fn duration_from_millis(millis: u64) -> (d: Duration)
    ensures
        d == millis_duration(millis),
{
    Duration::from_millis(millis)
}

/// The system clock's type, `std::time::SystemTime`, carried through as it is.
#[verifier::external_type_specification]
#[verifier::external_body]
pub struct ExSystemTime(SystemTime);

/// The whole milliseconds that `Duration::as_millis` reads from `d`. It
/// depends on `d` alone.
pub uninterp spec fn duration_millis(d: Duration) -> u128;

/// Calls `std::time::SystemTime::now`. The reading depends on the time, so
/// nothing is claimed of it.
#[verifier::external_body]
pub(crate) fn system_now() -> SystemTime {
    SystemTime::now()
}

/// Calls `SystemTime::duration_since` with the Unix epoch: the time from the
/// epoch to `t`, or `None` for a `t` before the epoch (the call's error).
/// The outcome is fixed by `t`; nothing is claimed of which one it is, since
/// `SystemTime` is opaque here and only the clock fixes `t`.
#[verifier::external_body]
pub(crate) fn since_unix_epoch(t: SystemTime) -> Option<Duration> {
    match t.duration_since(UNIX_EPOCH) {
        Ok(d) => Some(d),
        Err(_) => None,
    }
}

/// Calls `std::time::Duration::as_millis`, which never fails: the contract
/// claims only that the result is the one value that `d` determines.
#[verifier::external_body]
pub(crate) fn whole_millis(d: Duration) -> (m: u128)
    ensures
        m == duration_millis(d),
{
    d.as_millis()
}

} // verus!
