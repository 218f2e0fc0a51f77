use crackle_runtime::{CoolingRate, PatternKind, ThermalProfile};
use std::time::Duration;

#[test]
fn profile_default() {
    let p = ThermalProfile::default();
    assert!(p.detect_clustering);
    assert!(p.detect_phase_transitions);
    assert!(p.detect_conservation);
    assert!(p.detect_correlations);
}

#[test]
fn profile_fast_cooling() {
    let p = ThermalProfile::fast_cooling();
    assert_eq!(p.rate, CoolingRate::Fast);
}

#[test]
fn profile_slow_cooling() {
    let p = ThermalProfile::slow_cooling();
    assert_eq!(p.rate, CoolingRate::Slow);
}

#[test]
fn profile_no_detection() {
    let p = ThermalProfile::no_detection();
    assert!(!p.detect_clustering);
    assert!(!p.detect_phase_transitions);
    assert!(!p.detect_conservation);
    assert!(!p.detect_correlations);
}

#[test]
fn profile_builder_chain() {
    let p = ThermalProfile::default()
        .with_rate(CoolingRate::Fast)
        .without_clustering()
        .without_correlations();
    assert_eq!(p.rate, CoolingRate::Fast);
    assert!(!p.detect_clustering);
    assert!(!p.detect_correlations);
    assert!(p.detect_phase_transitions);
}

#[test]
fn cooling_rate_min_tasks() {
    assert!(CoolingRate::Fast.min_tasks_for_detection() < CoolingRate::Slow.min_tasks_for_detection());
}

#[test]
fn cooling_rate_default() {
    assert_eq!(CoolingRate::default(), CoolingRate::Normal);
}

#[test]
fn cooling_rate_min_tasks_exact() {
    assert_eq!(CoolingRate::Fast.min_tasks_for_detection(), 2);
    assert_eq!(CoolingRate::Normal.min_tasks_for_detection(), 3);
    assert_eq!(CoolingRate::Slow.min_tasks_for_detection(), 5);
}

#[test]
fn profile_cooling_durations() {
    assert_eq!(ThermalProfile::default().max_cooling_duration, Duration::from_secs(60));
    assert_eq!(ThermalProfile::fast_cooling().max_cooling_duration, Duration::from_secs(10));
    assert_eq!(ThermalProfile::slow_cooling().max_cooling_duration, Duration::from_secs(300));
    assert_eq!(ThermalProfile::no_detection().max_cooling_duration, Duration::from_secs(60));
}

#[test]
fn profile_each_without_clears_only_its_flag() {
    let p = ThermalProfile::default().without_phase_transitions();
    assert!(!p.detect_phase_transitions);
    assert!(p.detect_clustering && p.detect_conservation && p.detect_correlations);
    let p = ThermalProfile::default().without_conservation();
    assert!(!p.detect_conservation);
    assert!(p.detect_clustering && p.detect_phase_transitions && p.detect_correlations);
    assert_eq!(p.rate, CoolingRate::Normal);
}

#[test]
fn profile_clone_keeps_fields() {
    let p = ThermalProfile::slow_cooling().without_clustering();
    let q = p.clone();
    assert_eq!(q.rate, CoolingRate::Slow);
    assert!(!q.detect_clustering);
    assert_eq!(q.max_cooling_duration, p.max_cooling_duration);
}

#[test]
fn detectors_follow_the_profile_flags_in_order() {
    assert_eq!(
        ThermalProfile::default().detectors(),
        vec![
            PatternKind::Clustering,
            PatternKind::PhaseTransition,
            PatternKind::Conservation,
            PatternKind::Correlation
        ]
    );
    assert!(ThermalProfile::no_detection().detectors().is_empty());
    let p = ThermalProfile::default().without_clustering().without_conservation();
    assert_eq!(p.detectors(), vec![PatternKind::PhaseTransition, PatternKind::Correlation]);
}
