use crackle_runtime::metrics::{
    distinct_metric_names, find_metric, merge_metrics, metric_pair_lists, metric_pairs, metric_series,
    metric_values,
};
use crackle_runtime::{CorrelationPattern, PhaseTransitionPattern};

fn m(name: &str, v: f64) -> (String, f64) {
    (name.to_string(), v)
}

#[test]
fn find_metric_first_occurrence() {
    let ms = vec![m("a", 1.0), m("b", 2.0), m("a", 3.0)];
    assert_eq!(find_metric(&ms, &"a".to_string()), Some(1.0));
    assert_eq!(find_metric(&ms, &"b".to_string()), Some(2.0));
    assert_eq!(find_metric(&ms, &"c".to_string()), None);
}

#[test]
fn merge_cooled_first_then_new_fired_names() {
    let cooled = vec![m("x", 10.0)];
    let fired = vec![m("x", 1.0), m("y", 2.0), m("y", 3.0)];
    assert_eq!(merge_metrics(&cooled, &fired), vec![m("x", 10.0), m("y", 2.0)]);
}

#[test]
fn merge_with_nothing_cooled_drops_repeated_names() {
    let fired = vec![m("x", 1.0), m("x", 2.0)];
    assert_eq!(merge_metrics(&[], &fired), vec![m("x", 1.0)]);
}

#[test]
fn distinct_names_across_lists() {
    let lists = vec![vec![m("a", 1.0), m("b", 1.0)], vec![m("b", 2.0), m("a", 0.0)], vec![m("c", 3.0)]];
    assert_eq!(distinct_metric_names(&lists), vec!["a".to_string(), "b".to_string(), "c".to_string()]);
    assert_eq!(
        PhaseTransitionPattern::collect_metric_names(&lists),
        vec!["a".to_string(), "b".to_string(), "c".to_string()]
    );
}

#[test]
fn series_skips_lists_without_the_name() {
    let lists = vec![vec![m("x", 1.0)], vec![m("y", 5.0)], vec![m("x", 3.0), m("x", 4.0)]];
    let name = "x".to_string();
    assert_eq!(metric_series(&lists, &name), vec![(0, 1.0), (2, 3.0)]);
    assert_eq!(metric_values(&lists, &name), vec![1.0, 3.0]);
    assert_eq!(metric_values(&lists[1..], &name), vec![3.0]);
}

#[test]
fn pairs_need_both_names() {
    let lists = vec![
        vec![m("a", 1.0), m("b", 2.0)],
        vec![m("a", 5.0)],
        vec![m("b", 4.0), m("a", 3.0)],
    ];
    let pairs = metric_pairs(&lists, &"a".to_string(), &"b".to_string());
    assert_eq!(pairs, vec![(1.0, 2.0), (3.0, 4.0)]);
}

#[test]
fn usable_series_needs_two_reports() {
    let labels: Vec<String> = (0..3).map(|i| format!("t{}", i)).collect();
    let lists = vec![vec![m("x", 1.0), m("y", 1.0)], vec![m("x", 2.0)], vec![m("x", 3.0)]];
    let names = vec!["x".to_string(), "y".to_string()];
    let usable = PhaseTransitionPattern::usable_series(&labels, &lists, &names);
    assert_eq!(usable, vec![(0, vec![(0, 1.0), (1, 2.0), (2, 3.0)])]);
}

#[test]
fn usable_series_needs_two_tasks() {
    let labels = vec!["a".to_string()];
    let lists = vec![vec![m("x", 1.0)]];
    assert!(PhaseTransitionPattern::usable_series(&labels, &lists, &["x".to_string()]).is_empty());
}

#[test]
fn usable_pairs_need_three_tasks_reporting_both() {
    let labels: Vec<String> = (0..4).map(|i| format!("t{}", i)).collect();
    let lists = vec![
        vec![m("a", 1.0), m("b", 2.0), m("c", 0.0)],
        vec![m("a", 2.0), m("b", 4.0)],
        vec![m("a", 3.0), m("b", 6.0), m("c", 1.0)],
        vec![m("a", 4.0), m("c", 2.0)],
    ];
    let names = vec!["a".to_string(), "b".to_string(), "c".to_string()];
    let usable = CorrelationPattern::usable_pairs(&labels, &lists, &names);
    assert_eq!(
        usable,
        vec![(0, 1, vec![(1.0, 2.0), (2.0, 4.0), (3.0, 6.0)]), (0, 2, vec![(1.0, 0.0), (3.0, 1.0), (4.0, 2.0)])]
    );
}

#[test]
fn usable_pairs_need_three_tasks() {
    let labels = vec!["a".to_string(), "b".to_string()];
    let lists = vec![vec![m("a", 1.0), m("b", 2.0)], vec![m("a", 2.0), m("b", 4.0)]];
    let names = vec!["a".to_string(), "b".to_string()];
    assert!(CorrelationPattern::usable_pairs(&labels, &lists, &names).is_empty());
}

#[test]
fn pair_lists_name_the_tasks_behind_each_pair() {
    let lists = vec![
        vec![m("a", 1.0), m("b", 2.0)],
        vec![m("a", 3.0)],
        vec![m("b", 4.0), m("a", 5.0)],
        vec![],
        vec![m("a", 6.0), m("b", 7.0), m("a", 8.0)],
    ];
    let a = "a".to_string();
    let b = "b".to_string();
    let tasks = metric_pair_lists(&lists, &a, &b);
    assert_eq!(tasks, vec![0, 2, 4]);
    let pairs = metric_pairs(&lists, &a, &b);
    assert_eq!(pairs, vec![(1.0, 2.0), (5.0, 4.0), (6.0, 7.0)]);
    for (k, t) in tasks.iter().enumerate() {
        assert_eq!(find_metric(&lists[*t], &a), Some(pairs[k].0));
        assert_eq!(find_metric(&lists[*t], &b), Some(pairs[k].1));
    }
    assert!(metric_pair_lists(&lists, &a, &"z".to_string()).is_empty());
}
