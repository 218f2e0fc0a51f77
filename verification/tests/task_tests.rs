use crackle_runtime::{CrackleError, PatternKind, TaskMetadata, Timestamp};
use std::fmt;
use std::time::Duration;

#[test]
fn timestamp_now() {
    let ts = Timestamp::now();
    assert!(ts.as_millis() > 0);
}

#[test]
fn timestamp_from_millis() {
    let ts = Timestamp::from_millis(1000);
    assert_eq!(ts.as_millis(), 1000);
}

#[test]
fn timestamp_ordering() {
    let a = Timestamp::from_millis(100);
    let b = Timestamp::from_millis(200);
    assert!(a < b);
}

#[test]
fn timestamp_elapsed() {
    let ts = Timestamp::from_millis(0);
    let elapsed = ts.elapsed();
    assert!(elapsed.as_millis() > 0);
}

#[test]
fn timestamp_millis_until_saturates() {
    let a = Timestamp::from_millis(100);
    let b = Timestamp::from_millis(250);
    assert_eq!(a.millis_until(b), 150);
    assert_eq!(b.millis_until(a), 0);
}

#[test]
fn timestamp_elapsed_of_future_is_zero() {
    let future = Timestamp::from_millis(u64::MAX);
    assert_eq!(future.elapsed(), Duration::from_millis(0));
}

#[test]
fn metadata_new() {
    let m = TaskMetadata::new("test");
    assert_eq!(m.label, "test");
    assert!(m.cooled_at.is_none());
}

#[test]
fn metadata_fired_at() {
    let ts = Timestamp::from_millis(12345);
    let m = TaskMetadata::fired_at("test", ts);
    assert_eq!(m.fired_at, ts);
}

#[test]
fn metadata_fired_at_is_fresh() {
    let m = TaskMetadata::fired_at("job", Timestamp::from_millis(7));
    assert_eq!(m.fire_duration, Duration::ZERO);
    assert!(m.cooled_at.is_none());
    assert_eq!(m.label, "job");
}

#[test]
fn pattern_kind_display() {
    assert_eq!(PatternKind::Clustering.name(), "clustering");
    assert_eq!(PatternKind::PhaseTransition.name(), "phase transition");
    assert_eq!(PatternKind::Conservation.name(), "conservation law");
    assert_eq!(PatternKind::Correlation.name(), "correlation");
}

#[test]
fn error_display() {
    let e = CrackleError::TaskPanicked("boom".into());
    assert!(e.message().contains("boom"));
    let e = CrackleError::KilnCooled;
    assert!(e.message().contains("cooled"));
    let e = CrackleError::InvalidProfile("bad".into());
    assert!(e.message().contains("bad"));
    let e = CrackleError::DetectionFailed("err".into());
    assert!(e.message().contains("err"));
}

#[test]
fn error_messages_exact() {
    assert_eq!(CrackleError::TaskPanicked("boom".into()).message(), "task panicked: boom");
    assert_eq!(
        CrackleError::KilnCooled.message(),
        "kiln has already cooled and cannot accept new tasks"
    );
    assert_eq!(CrackleError::InvalidProfile("bad".into()).message(), "invalid thermal profile: bad");
    assert_eq!(CrackleError::DetectionFailed("err".into()).message(), "pattern detection failed: err");
}

/// A displayable view of a library error, so that it can travel as a
/// `std::error::Error`.
#[derive(Debug)]
struct Shown(CrackleError);

impl fmt::Display for Shown {
    fn fmt(&self, f: &mut fmt::Formatter<'_>) -> fmt::Result {
        f.write_str(&self.0.message())
    }
}

impl std::error::Error for Shown {}

#[test]
fn error_is_std_error() {
    let e: Box<dyn std::error::Error> = Box::new(Shown(CrackleError::KilnCooled));
    assert!(e.to_string().contains("cooled"));
}

#[test]
fn timestamp_now_counts_milliseconds_not_seconds() {
    // Later than September 2020 in milliseconds, and not a count of seconds.
    let ms = Timestamp::now().as_millis();
    assert!(ms > 1_600_000_000_000);
}

#[test]
fn timestamp_from_epoch_offset_counts_whole_milliseconds() {
    assert_eq!(Timestamp::from_epoch_offset(Some(Duration::from_millis(1234))).as_millis(), 1234);
    assert_eq!(Timestamp::from_epoch_offset(Some(Duration::from_secs(2))).as_millis(), 2000);
    assert_eq!(Timestamp::from_epoch_offset(Some(Duration::from_micros(2999))).as_millis(), 2);
    assert_eq!(Timestamp::from_epoch_offset(None).as_millis(), 0);
}
