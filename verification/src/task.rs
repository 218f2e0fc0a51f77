use vstd::prelude::*;
use std::time::Duration;
use crate::clock::{
    duration_from_millis, duration_millis, millis_duration, since_unix_epoch, system_now, whole_millis,
};

verus! {

/// A timestamp for when a task was fired or cooled, in milliseconds since
/// the Unix epoch.
#[derive(Debug, Clone, Copy, PartialEq, Eq, Ord, Hash)]
pub struct Timestamp(u64);

impl View for Timestamp {
    type V = u64;

    closed spec fn view(&self) -> u64 {
        self.0
    }
}

/// The milliseconds of a timestamp read as an offset from the Unix epoch:
/// the offset's whole milliseconds cut to 64 bits, or 0 for a clock set
/// before the epoch.
pub open spec fn epoch_offset_millis(d: Option<Duration>) -> u64 {
    match d {
        Some(d) => duration_millis(d) as u64,
        None => 0,
    }
}

/// `a - b` for naturals, floored at zero.
pub open spec fn saturating_diff(a: u64, b: u64) -> u64 {
    if a >= b { (a - b) as u64 } else { 0 }
}

impl Timestamp {
    /// Create a timestamp from milliseconds since epoch.
    pub fn from_millis(millis: u64) -> (t: Self)
        ensures
            t@ == millis,
    {
        Timestamp(millis)
    }

    /// The timestamp for a clock reading given as its offset from the Unix
    /// epoch: the offset's whole milliseconds (cut to 64 bits, as `as u64`
    /// does), or 0 when the clock reads before the epoch (`None`).
    pub fn from_epoch_offset(d: Option<Duration>) -> (t: Self)
        ensures
            t@ == epoch_offset_millis(d),
    {
        match d {
            Some(d) => Timestamp(whole_millis(d) as u64),
            None => Timestamp(0),
        }
    }

    /// Create a timestamp representing "now": the system clock's
    /// milliseconds since the Unix epoch, 0 for a clock set before it.
    pub fn now() -> (t: Self)
        ensures
            exists|d: Option<Duration>| t@ == epoch_offset_millis(d),
    {
        Timestamp::from_epoch_offset(since_unix_epoch(system_now()))
    }

    /// Get the milliseconds since epoch.
    pub fn as_millis(&self) -> (m: u64)
        ensures
            m == self@,
    {
        self.0
    }

    /// Milliseconds from this timestamp to `later`, zero when `later` is
    /// not after it.
    pub fn millis_until(&self, later: Timestamp) -> (m: u64)
        ensures
            m == saturating_diff(later@, self@),
    {
        later.0.saturating_sub(self.0)
    }

    /// Duration elapsed since this timestamp (zero if the clock reads an
    /// earlier time).
    pub fn elapsed(&self) -> (d: Duration)
        ensures
            exists|now: u64| d == millis_duration(saturating_diff(now, self@)),
    {
        let now = Timestamp::now();
        duration_from_millis(self.millis_until(now))
    }
}

/// Metadata about a task's execution.
#[derive(Debug)]
pub struct TaskMetadata {
    /// When the task was fired.
    pub fired_at: Timestamp,
    /// When the task's cooling phase completed.
    pub cooled_at: Option<Timestamp>,
    /// How long the firing phase took.
    pub fire_duration: Duration,
    /// Name under which the task shows up in pattern reports.
    pub label: String,
}

impl Clone for TaskMetadata {
    fn clone(&self) -> (m: Self)
        ensures
            m == *self,
    {
        TaskMetadata {
            fired_at: self.fired_at,
            cooled_at: self.cooled_at,
            fire_duration: self.fire_duration,
            label: self.label.clone(),
        }
    }
}

impl TaskMetadata {
    /// Metadata that is not cooled, with a zero firing duration, the given
    /// label and fired at `ts`.
    pub open spec fn fresh(self, label: Seq<char>, ts: Timestamp) -> bool {
        &&& self.fired_at == ts
        &&& self.cooled_at is None
        &&& self.fire_duration == millis_duration(0)
        &&& self.label@ == label
    }

    /// Create new metadata with the given label, fired now.
    pub fn new(label: &str) -> (m: Self)
        ensures
            exists|ts: Timestamp| m.fresh(label@, ts),
    {
        TaskMetadata::fired_at(label, Timestamp::now())
    }

    /// Create metadata with a specific fired-at timestamp.
    pub fn fired_at(label: &str, ts: Timestamp) -> (m: Self)
        ensures
            m.fresh(label@, ts),
    {
        TaskMetadata {
            fired_at: ts,
            cooled_at: None,
            fire_duration: duration_from_millis(0),
            label: label.to_owned(),
        }
    }
}

} // verus!
