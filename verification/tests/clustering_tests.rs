use crackle_runtime::ClusteringPattern;

/// Builds a closeness matrix from an upper-triangle predicate.
fn matrix(n: usize, close: impl Fn(usize, usize) -> bool) -> Vec<Vec<bool>> {
    (0..n).map(|i| (0..n).map(|j| i < j && close(i, j)).collect()).collect()
}

#[test]
fn group_two_close_one_far() {
    // a and b close, c far from both.
    let close = matrix(3, |i, j| i == 0 && j == 1);
    assert_eq!(ClusteringPattern::group(&close), vec![vec![0, 1]]);
}

#[test]
fn group_none_close() {
    let close = matrix(3, |_, _| false);
    assert!(ClusteringPattern::group(&close).is_empty());
}

#[test]
fn group_too_few() {
    let close = matrix(1, |_, _| true);
    assert!(ClusteringPattern::group(&close).is_empty());
    assert!(ClusteringPattern::group(&[]).is_empty());
}

#[test]
fn group_first_head_takes_its_neighbours() {
    // 0 is close to 1 and 2; 1 is close to 3 but 1 was taken by 0, so 3 starts its own group.
    let close = matrix(5, |i, j| (i == 0 && (j == 1 || j == 2)) || (i == 1 && j == 3) || (i == 3 && j == 4));
    assert_eq!(ClusteringPattern::group(&close), vec![vec![0, 1, 2], vec![3, 4]]);
}

#[test]
fn group_all_close_is_one_group() {
    let close = matrix(4, |_, _| true);
    assert_eq!(ClusteringPattern::group(&close), vec![vec![0, 1, 2, 3]]);
}
