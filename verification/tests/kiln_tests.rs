use crackle_runtime::{CoolingRate, CrackleError, Kiln, PatternKind, ThermalProfile, Timestamp};
use std::time::Duration;

fn metric(name: &str, v: f64) -> (String, f64) {
    (name.to_string(), v)
}

#[test]
fn kiln_new() {
    let kiln: Kiln<f64> = Kiln::new(ThermalProfile::default());
    assert_eq!(kiln.task_count(), 0);
    assert!(!kiln.is_cooled());
}

#[test]
fn kiln_add_entry() {
    let mut kiln = Kiln::default_profile();
    kiln.add_entry("t1", vec![metric("x", 1.0)]);
    assert_eq!(kiln.task_count(), 1);
}

#[test]
fn kiln_cool_empty() {
    let mut kiln: Kiln<f64> = Kiln::default_profile();
    let detection_due = kiln.begin_cooling();
    assert!(!detection_due);
    assert!(kiln.is_cooled());
}

#[test]
fn kiln_cool_few_tasks() {
    let mut kiln = Kiln::new(ThermalProfile::fast_cooling());
    kiln.add_entry("t1", vec![metric("x", 1.0)]);
    // Fast cooling needs at least 2 tasks before detection runs.
    assert!(!kiln.begin_cooling());
}

#[test]
fn single_task_no_patterns() {
    let mut kiln = Kiln::new(ThermalProfile::default());
    kiln.add_entry("lonely", vec![metric("x", 42.0)]);
    // Normal cooling needs at least 3 tasks.
    assert!(!kiln.begin_cooling());
}

#[test]
fn kiln_reset() {
    let mut kiln = Kiln::default_profile();
    kiln.add_entry("t1", vec![metric("x", 1.0)]);
    kiln.begin_cooling();
    kiln.reset();
    assert_eq!(kiln.task_count(), 0);
    assert!(!kiln.is_cooled());
}

#[test]
fn kiln_entries() {
    let mut kiln = Kiln::default_profile();
    kiln.add_entry("t1", vec![metric("x", 1.0)]);
    kiln.add_entry("t2", vec![metric("y", 2.0)]);
    assert_eq!(kiln.entries().len(), 2);
}

#[test]
fn kiln_profile_accessor() {
    let kiln: Kiln<f64> = Kiln::new(ThermalProfile::fast_cooling());
    assert_eq!(kiln.profile().rate, CoolingRate::Fast);
}

#[test]
fn task_entry_all_metrics_fires_only() {
    let mut kiln = Kiln::default_profile();
    kiln.record_fired("t1".to_string(), vec![metric("value", 5.0)], Timestamp::from_millis(1), Duration::ZERO)
        .unwrap();
    let metrics = kiln.entries()[0].all_metrics();
    assert_eq!(metrics.len(), 1);
    assert_eq!(metrics[0].0, "value");
}

#[test]
fn cooled_metrics_override_fired_metrics() {
    let mut kiln = Kiln::default_profile();
    kiln.add_entry("t", vec![metric("a", 1.0), metric("b", 2.0)]);
    let mut entry = kiln.entries()[0].clone();
    entry.cooled_metrics = vec![metric("b", 20.0), metric("c", 30.0)];
    assert_eq!(entry.all_metrics(), vec![metric("b", 20.0), metric("c", 30.0), metric("a", 1.0)]);
}

#[test]
fn record_after_cooling_is_refused() {
    let mut kiln = Kiln::new(ThermalProfile::fast_cooling());
    kiln.add_entry("a", vec![metric("x", 1.0)]);
    assert!(kiln.ensure_open().is_ok());
    kiln.begin_cooling();
    assert!(matches!(kiln.ensure_open(), Err(CrackleError::KilnCooled)));
    let r = kiln.record_fired("late".to_string(), vec![], Timestamp::from_millis(5), Duration::ZERO);
    assert!(matches!(r, Err(CrackleError::KilnCooled)));
    assert_eq!(kiln.task_count(), 1);
}

#[test]
fn record_fired_keeps_what_it_is_given() {
    let mut kiln = Kiln::default_profile();
    let d = Duration::from_millis(12);
    kiln.record_fired("job".to_string(), vec![metric("x", 3.0)], Timestamp::from_millis(99), d).unwrap();
    let e = &kiln.entries()[0];
    assert_eq!(e.label, "job");
    assert_eq!(e.metadata.label, "job");
    assert_eq!(e.metadata.fired_at, Timestamp::from_millis(99));
    assert_eq!(e.metadata.fire_duration, d);
    assert!(e.metadata.cooled_at.is_none());
    assert!(e.cooled_metrics.is_empty());
    assert_eq!(e.metrics, vec![metric("x", 3.0)]);
}

#[test]
fn begin_cooling_stamps_every_entry_once_ready() {
    let mut kiln = Kiln::new(ThermalProfile::fast_cooling());
    kiln.add_entry("a", vec![metric("x", 1.0)]);
    kiln.add_entry("b", vec![metric("x", 2.0)]);
    assert!(kiln.begin_cooling());
    let first = kiln.entries()[0].metadata.cooled_at;
    assert!(first.is_some());
    assert_eq!(kiln.entries()[1].metadata.cooled_at, first);
}

#[test]
fn begin_cooling_below_minimum_leaves_entries_unstamped() {
    let mut kiln = Kiln::new(ThermalProfile::slow_cooling());
    for i in 0..4 {
        kiln.add_entry(&format!("t{}", i), vec![metric("x", i as f64)]);
    }
    assert!(!kiln.begin_cooling());
    assert!(kiln.entries().iter().all(|e| e.metadata.cooled_at.is_none()));
}

#[test]
fn reset_reopens_the_kiln() {
    let mut kiln = Kiln::default_profile();
    kiln.begin_cooling();
    kiln.reset();
    assert!(kiln.ensure_open().is_ok());
    kiln.record_fired("again".to_string(), vec![metric("x", 1.0)], Timestamp::from_millis(3), Duration::ZERO)
        .unwrap();
    assert_eq!(kiln.task_count(), 1);
}

#[test]
fn kiln_labels_and_metric_lists() {
    let mut kiln = Kiln::default_profile();
    kiln.add_entry("a", vec![metric("x", 1.0), metric("x", 9.0)]);
    kiln.add_entry("b", vec![metric("y", 2.0)]);
    assert_eq!(kiln.labels(), vec!["a".to_string(), "b".to_string()]);
    let lists = kiln.metric_lists();
    assert_eq!(lists, vec![vec![metric("x", 1.0)], vec![metric("y", 2.0)]]);
}

#[test]
fn kiln_collect_metric_names_once_each() {
    let mut kiln = Kiln::default_profile();
    kiln.add_entry("a", vec![metric("x", 1.0), metric("y", 1.0)]);
    kiln.add_entry("b", vec![metric("y", 2.0), metric("z", 2.0)]);
    let mut names = kiln.collect_metric_names();
    names.sort();
    assert_eq!(names, vec!["x".to_string(), "y".to_string(), "z".to_string()]);
}

#[test]
fn half_series_splits_entries_in_two() {
    let mut kiln = Kiln::default_profile();
    kiln.add_entry("a", vec![metric("x", 1.0), metric("y", 7.0)]);
    kiln.add_entry("b", vec![metric("x", 2.0)]);
    kiln.add_entry("c", vec![metric("x", 3.0)]);
    kiln.add_entry("d", vec![metric("x", 4.0), metric("z", 0.5)]);
    kiln.add_entry("e", vec![metric("y", 8.0)]);
    let names = vec!["x".to_string(), "y".to_string(), "z".to_string()];
    // First half: a, b; second half: c, d, e. z appears only in the second half.
    let halves = kiln.half_series(&names);
    assert_eq!(halves, vec![(0, vec![1.0, 2.0], vec![3.0, 4.0]), (1, vec![7.0], vec![8.0])]);
}

#[test]
fn half_series_needs_two_entries() {
    let mut kiln = Kiln::default_profile();
    kiln.add_entry("a", vec![metric("x", 1.0)]);
    assert!(kiln.half_series(&["x".to_string()]).is_empty());
}

#[test]
fn multiple_cycles() {
    let mut kiln = Kiln::new(ThermalProfile::fast_cooling());

    // First cycle
    kiln.add_entry("a1", vec![metric("x", 1.0)]);
    kiln.add_entry("a2", vec![metric("x", 1.0)]);
    assert!(kiln.begin_cooling());
    assert!(kiln.is_cooled());
    kiln.reset();

    // Second cycle
    kiln.add_entry("b1", vec![metric("x", 100.0)]);
    kiln.add_entry("b2", vec![metric("x", 100.0)]);
    assert!(kiln.begin_cooling());
    assert_eq!(kiln.labels(), vec!["b1".to_string(), "b2".to_string()]);
}

#[test]
fn plan_cooling_with_too_few_tasks_runs_nothing() {
    let mut kiln: Kiln<f64> = Kiln::new(ThermalProfile::default());
    kiln.add_entry("t1", vec![metric("x", 1.0)]);
    kiln.add_entry("t2", vec![metric("x", 2.0)]);
    assert!(kiln.plan_cooling().is_empty());
    assert!(kiln.is_cooled());
}

#[test]
fn plan_cooling_runs_the_profile_detectors() {
    let mut kiln: Kiln<f64> = Kiln::new(ThermalProfile::fast_cooling().without_correlations());
    kiln.add_entry("t1", vec![metric("x", 1.0)]);
    kiln.add_entry("t2", vec![metric("x", 2.0)]);
    assert_eq!(
        kiln.plan_cooling(),
        vec![PatternKind::Clustering, PatternKind::PhaseTransition, PatternKind::Conservation]
    );
    assert!(kiln.is_cooled());
}

#[test]
fn plan_cooling_with_no_detection_runs_nothing() {
    let mut kiln: Kiln<f64> = Kiln::new(ThermalProfile::no_detection());
    for i in 0..5 {
        kiln.add_entry(&format!("t{}", i), vec![metric("x", i as f64)]);
    }
    assert!(kiln.plan_cooling().is_empty());
}
