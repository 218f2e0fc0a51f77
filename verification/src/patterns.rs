use vstd::prelude::*;
use vstd::string::*;
use crate::metrics::{
    distinct_metric_names, listed, mentions, metric_pairs, metric_series, paired, series, views,
};

verus! {

/// The kind of pattern detected during cooling.
#[derive(Debug, Clone, PartialEq, Eq, Hash, Structural)]
pub enum PatternKind {
    /// Tasks that cluster together in metric space.
    Clustering,
    /// A shift in output distribution during cooling.
    PhaseTransition,
    /// A conservation law that holds across a group of tasks.
    Conservation,
    /// An unexpected correlation between seemingly unrelated tasks.
    Correlation,
}

/// The human-readable name of a pattern kind.
pub open spec fn kind_name(k: PatternKind) -> Seq<char> {
    match k {
        PatternKind::Clustering => "clustering"@,
        PatternKind::PhaseTransition => "phase transition"@,
        PatternKind::Conservation => "conservation law"@,
        PatternKind::Correlation => "correlation"@,
    }
}

impl PatternKind {
    /// The human-readable name of this kind.
    pub fn name(&self) -> (s: String)
        ensures
            s@ == kind_name(*self),
    {
        match self {
            PatternKind::Clustering => String::from_str("clustering"),
            PatternKind::PhaseTransition => String::from_str("phase transition"),
            PatternKind::Conservation => String::from_str("conservation law"),
            PatternKind::Correlation => String::from_str("correlation"),
        }
    }
}

/// Detector for clustering patterns: tasks that lie near each other in
/// metric space.
#[derive(Debug, Clone, Copy)]
pub struct ClusteringPattern;

/// Detector for phase transitions: shifts in a metric between the first
/// and the second half of the tasks.
#[derive(Debug, Clone, Copy)]
pub struct PhaseTransitionPattern;

/// Detector for conservation laws: metrics that stay near-constant across
/// tasks.
#[derive(Debug, Clone, Copy)]
pub struct ConservationPattern;

/// Detector for correlations between metrics across tasks.
#[derive(Debug, Clone, Copy)]
pub struct CorrelationPattern;

impl PhaseTransitionPattern {
    /// Every metric name across the task metric lists, each once.
    pub fn collect_metric_names<V>(metrics: &[Vec<(String, V)>]) -> (names: Vec<String>)
        ensures
            forall|i: int, j: int| 0 <= i < j < names@.len() ==> names@[i]@ != names@[j]@,
            forall|k: int| 0 <= k < names@.len() ==> mentions(views(metrics@), #[trigger] names@[k]@),
            forall|a: int, b: int|
                0 <= a < metrics@.len() && 0 <= b < views(metrics@)[a].len() ==> listed(
                    names@,
                    #[trigger] views(metrics@)[a][b].0@,
                ),
    {
        distinct_metric_names(metrics)
    }

    /// The series of each named metric that a half-by-half comparison can
    /// use: for each name (by its position in `names`, in order), the
    /// tasks that report it and their values, when at least two tasks do.
    /// With fewer than two tasks there is nothing to compare.
    pub fn usable_series<V: Copy>(
        task_labels: &[String],
        task_metrics: &[Vec<(String, V)>],
        names: &[String],
    ) -> (r: Vec<(usize, Vec<(usize, V)>)>)
        ensures
            task_labels@.len() < 2 ==> r@.len() == 0,
            forall|k: int|
                0 <= k < r@.len() ==> (#[trigger] r@[k]).0 < names@.len() && r@[k].1@ == series(
                    views(task_metrics@),
                    names@[r@[k].0 as int]@,
                ) && r@[k].1@.len() >= 2,
            forall|a: int, b: int| 0 <= a < b < r@.len() ==> (#[trigger] r@[a]).0 < (#[trigger] r@[b]).0,
            task_labels@.len() >= 2 ==> forall|i: int|
                0 <= i < names@.len() && series(views(task_metrics@), #[trigger] names@[i]@).len() >= 2
                    ==> exists|k: int| 0 <= k < r@.len() && r@[k].0 == i,
    {
        let mut r: Vec<(usize, Vec<(usize, V)>)> = Vec::new();
        if task_labels.len() < 2 {
            return r;
        }
        let mut i: usize = 0;
        while i < names.len()
            invariant
                0 <= i <= names@.len(),
                forall|k: int|
                    0 <= k < r@.len() ==> (#[trigger] r@[k]).0 < i && r@[k].1@ == series(
                        views(task_metrics@),
                        names@[r@[k].0 as int]@,
                    ) && r@[k].1@.len() >= 2,
                forall|a: int, b: int|
                    0 <= a < b < r@.len() ==> (#[trigger] r@[a]).0 < (#[trigger] r@[b]).0,
                forall|i2: int|
                    0 <= i2 < i && series(views(task_metrics@), #[trigger] names@[i2]@).len() >= 2
                        ==> exists|k: int| 0 <= k < r@.len() && r@[k].0 == i2,
            decreases names@.len() - i,
        {
            let values = metric_series(task_metrics, &names[i]);
            if values.len() >= 2 {
                let ghost before = r@;
                r.push((i, values));
                assert forall|i2: int|
                    0 <= i2 < i + 1 && series(views(task_metrics@), #[trigger] names@[i2]@).len() >= 2
                        implies exists|k: int| 0 <= k < r@.len() && r@[k].0 == i2 by {
                    if i2 < i {
                        let k = choose|k: int| 0 <= k < before.len() && before[k].0 == i2;
                        assert(r@[k] == before[k]);
                    } else {
                        assert(r@[before.len() as int].0 == i2);
                    }
                }
            }
            i = i + 1;
        }
        r
    }
}

/// `(i1, j1)` comes before `(i2, j2)` in lexicographic order.
pub open spec fn lex_before(i1: usize, j1: usize, i2: usize, j2: usize) -> bool {
    i1 < i2 || (i1 == i2 && j1 < j2)
}

impl CorrelationPattern {
    /// The pairs of metrics that a correlation can be measured on: for each
    /// pair of names (by position in `names`, `i < j`, in lexicographic
    /// order), the values of both in the tasks that report both, when at
    /// least three tasks do. With fewer than three tasks there is nothing to
    /// measure.
    pub fn usable_pairs<V: Copy>(
        task_labels: &[String],
        task_metrics: &[Vec<(String, V)>],
        names: &[String],
    ) -> (r: Vec<(usize, usize, Vec<(V, V)>)>)
        ensures
            task_labels@.len() < 3 ==> r@.len() == 0,
            forall|k: int|
                0 <= k < r@.len() ==> (#[trigger] r@[k]).0 < r@[k].1 < names@.len() && r@[k].2@
                    == paired(views(task_metrics@), names@[r@[k].0 as int]@, names@[r@[k].1 as int]@)
                    && r@[k].2@.len() >= 3,
            forall|a: int, b: int|
                0 <= a < b < r@.len() ==> lex_before(
                    (#[trigger] r@[a]).0,
                    r@[a].1,
                    (#[trigger] r@[b]).0,
                    r@[b].1,
                ),
            task_labels@.len() >= 3 ==> forall|i: int, j: int|
                0 <= i < j < names@.len() && paired(
                    views(task_metrics@),
                    #[trigger] names@[i]@,
                    #[trigger] names@[j]@,
                ).len() >= 3 ==> exists|k: int| 0 <= k < r@.len() && r@[k].0 == i && r@[k].1 == j,
    {
        let mut r: Vec<(usize, usize, Vec<(V, V)>)> = Vec::new();
        if task_labels.len() < 3 {
            return r;
        }
        let n = names.len();
        let mut i: usize = 0;
        while i < n
            invariant
                n == names@.len(),
                0 <= i <= n,
                forall|k: int|
                    0 <= k < r@.len() ==> (#[trigger] r@[k]).0 < r@[k].1 < names@.len() && r@[k].0 < i
                        && r@[k].2@ == paired(
                        views(task_metrics@),
                        names@[r@[k].0 as int]@,
                        names@[r@[k].1 as int]@,
                    ) && r@[k].2@.len() >= 3,
                forall|a: int, b: int|
                    0 <= a < b < r@.len() ==> lex_before(
                        (#[trigger] r@[a]).0,
                        r@[a].1,
                        (#[trigger] r@[b]).0,
                        r@[b].1,
                    ),
                forall|i2: int, j2: int|
                    0 <= i2 < j2 < n && i2 < i && paired(
                        views(task_metrics@),
                        #[trigger] names@[i2]@,
                        #[trigger] names@[j2]@,
                    ).len() >= 3 ==> exists|k: int| 0 <= k < r@.len() && r@[k].0 == i2 && r@[k].1 == j2,
            decreases n - i,
        {
            let mut j: usize = i + 1;
            while j < n
                invariant
                    n == names@.len(),
                    0 <= i < n,
                    i + 1 <= j <= n,
                    forall|k: int|
                        0 <= k < r@.len() ==> (#[trigger] r@[k]).0 < r@[k].1 < names@.len() && (r@[k].0
                            < i || (r@[k].0 == i && r@[k].1 < j)) && r@[k].2@ == paired(
                            views(task_metrics@),
                            names@[r@[k].0 as int]@,
                            names@[r@[k].1 as int]@,
                        ) && r@[k].2@.len() >= 3,
                    forall|a: int, b: int|
                        0 <= a < b < r@.len() ==> lex_before(
                            (#[trigger] r@[a]).0,
                            r@[a].1,
                            (#[trigger] r@[b]).0,
                            r@[b].1,
                        ),
                    forall|i2: int, j2: int|
                        0 <= i2 < j2 < n && (i2 < i || (i2 == i && j2 < j)) && paired(
                            views(task_metrics@),
                            #[trigger] names@[i2]@,
                            #[trigger] names@[j2]@,
                        ).len() >= 3 ==> exists|k: int|
                            0 <= k < r@.len() && r@[k].0 == i2 && r@[k].1 == j2,
                decreases n - j,
            {
                let pairs = metric_pairs(task_metrics, &names[i], &names[j]);
                if pairs.len() >= 3 {
                    let ghost before = r@;
                    r.push((i, j, pairs));
                    assert forall|i2: int, j2: int|
                        0 <= i2 < j2 < n && (i2 < i || (i2 == i && j2 < j + 1)) && paired(
                            views(task_metrics@),
                            #[trigger] names@[i2]@,
                            #[trigger] names@[j2]@,
                        ).len() >= 3 implies exists|k: int|
                        0 <= k < r@.len() && r@[k].0 == i2 && r@[k].1 == j2 by {
                        if i2 < i || j2 < j {
                            let k = choose|k: int|
                                0 <= k < before.len() && before[k].0 == i2 && before[k].1 == j2;
                            assert(r@[k] == before[k]);
                        } else {
                            assert(r@[before.len() as int].0 == i2);
                        }
                    }
                }
                j = j + 1;
            }
            i = i + 1;
        }
        r
    }
}

/// Which of the first `k` tasks head a group. Task `k - 1` heads one when
/// no earlier head is close to it (`close[h][j]`, read for `h < j` only).
pub open spec fn heads_upto(close: Seq<Vec<bool>>, k: nat) -> Seq<bool>
    decreases k,
{
    if k == 0 {
        Seq::empty()
    } else {
        let prev = heads_upto(close, (k - 1) as nat);
        prev.push(!exists|h: int| 0 <= h < k - 1 && #[trigger] prev[h] && close[h]@[k - 1])
    }
}

/// Task `j` heads a group: no earlier head is close to it.
pub open spec fn is_head(close: Seq<Vec<bool>>, j: int) -> bool {
    heads_upto(close, (j + 1) as nat)[j]
}

/// Some head before `h0` is close to task `j`.
pub open spec fn claimed_before(close: Seq<Vec<bool>>, h0: int, j: int) -> bool {
    exists|h: int| 0 <= h < h0 && #[trigger] is_head(close, h) && close[h]@[j]
}

/// Task `j` joins the group headed by `h`: `h` is the first head before
/// `j` that is close to it.
pub open spec fn owns(close: Seq<Vec<bool>>, h: int, j: int) -> bool {
    &&& 0 <= h < j < close.len()
    &&& is_head(close, h)
    &&& close[h]@[j]
    &&& !claimed_before(close, h, j)
}

/// Some position of `g` holds `j`.
pub open spec fn in_group(g: Seq<usize>, j: int) -> bool {
    exists|k: int| 0 <= k < g.len() && g[k] == j
}

/// `g` is the whole group of its head: the head, then every task it owns
/// in increasing order, at least one of them.
pub open spec fn is_group(close: Seq<Vec<bool>>, g: Seq<usize>) -> bool {
    &&& g.len() >= 2
    &&& g[0] < close.len()
    &&& is_head(close, g[0] as int)
    &&& forall|k: int| 1 <= k < g.len() ==> owns(close, g[0] as int, #[trigger] g[k] as int)
    &&& forall|a: int, b: int| 0 <= a < b < g.len() ==> g[a] < g[b]
    &&& forall|j: int| #[trigger] owns(close, g[0] as int, j) ==> in_group(g, j)
}

/// The heads recorded so far do not change as more tasks are considered.
proof fn lemma_heads_upto(close: Seq<Vec<bool>>, k: nat)
    ensures
        heads_upto(close, k).len() == k,
        forall|h: int| 0 <= h < k ==> heads_upto(close, k)[h] == is_head(close, h),
    decreases k,
{
    if k > 0 {
        lemma_heads_upto(close, (k - 1) as nat);
        let prev = heads_upto(close, (k - 1) as nat);
        assert forall|h: int| 0 <= h < k implies heads_upto(close, k)[h] == is_head(close, h) by {
            if h < k - 1 {
                assert(heads_upto(close, k)[h] == prev[h]);
            }
        }
    }
}

/// A task heads a group exactly when no earlier head is close to it.
proof fn lemma_is_head(close: Seq<Vec<bool>>, j: int)
    requires
        0 <= j,
    ensures
        is_head(close, j) == !claimed_before(close, j, j),
{
    lemma_heads_upto(close, j as nat);
    let prev = heads_upto(close, j as nat);
    assert(heads_upto(close, (j + 1) as nat) == prev.push(
        !exists|h: int| 0 <= h < j && #[trigger] prev[h] && close[h]@[j],
    ));
    if exists|h: int| 0 <= h < j && #[trigger] prev[h] && close[h]@[j] {
        let h = choose|h: int| 0 <= h < j && #[trigger] prev[h] && close[h]@[j];
        assert(is_head(close, h));
    }
    if claimed_before(close, j, j) {
        let h = choose|h: int| 0 <= h < j && #[trigger] is_head(close, h) && close[h]@[j];
        assert(prev[h]);
    }
}

/// A task belongs to at most one group: the groups of two different heads
/// share no task.
pub proof fn lemma_groups_disjoint(close: Seq<Vec<bool>>, g1: Seq<usize>, g2: Seq<usize>)
    requires
        is_group(close, g1),
        is_group(close, g2),
        g1[0] != g2[0],
    ensures
        forall|a: int, b: int| 0 <= a < g1.len() && 0 <= b < g2.len() ==> g1[a] != g2[b],
{
    assert forall|a: int, b: int| 0 <= a < g1.len() && 0 <= b < g2.len() implies g1[a]
        != g2[b] by {
        let h1 = g1[0] as int;
        let h2 = g2[0] as int;
        if g1[a] == g2[b] {
            let j = g1[a] as int;
            lemma_is_head(close, h1);
            lemma_is_head(close, h2);
            if a == 0 && b == 0 {
            } else if a == 0 {
                assert(owns(close, h2, g2[b] as int));
                lemma_is_head(close, j);
                assert(is_head(close, h2) && close[h2]@[j] && h2 < j);
            } else if b == 0 {
                assert(owns(close, h1, g1[a] as int));
                lemma_is_head(close, j);
                assert(is_head(close, h1) && close[h1]@[j] && h1 < j);
            } else {
                assert(owns(close, h1, j));
                assert(owns(close, h2, j));
                if h1 < h2 {
                    assert(is_head(close, h1) && close[h1]@[j]);
                } else {
                    assert(is_head(close, h2) && close[h2]@[j]);
                }
            }
        }
    }
}

impl ClusteringPattern {
    /// The greedy grouping of tasks by closeness: in index order, each task
    /// not yet taken heads a group and takes every later task not yet taken
    /// that is close to it. Groups of one are left out.
    ///
    /// `close[i][j]` says whether task `j` lies within the threshold of task
    /// `i`; it is read for `i < j` only.
    pub fn group(close: &[Vec<bool>]) -> (groups: Vec<Vec<usize>>)
        requires
            forall|i: int| 0 <= i < close@.len() ==> (#[trigger] close@[i])@.len() == close@.len(),
        ensures
            forall|x: int| 0 <= x < groups@.len() ==> is_group(close@, (#[trigger] groups@[x])@),
            forall|x: int, y: int|
                0 <= x < y < groups@.len() ==> (#[trigger] groups@[x])@[0] < (#[trigger] groups@[y])@[0],
            forall|h: int, j: int|
                #[trigger] owns(close@, h, j) ==> exists|x: int|
                    0 <= x < groups@.len() && (#[trigger] groups@[x])@[0] == h,
    {
        let n = close.len();
        let mut visited: Vec<bool> = vec![false; n];
        let mut groups: Vec<Vec<usize>> = Vec::new();
        let mut i: usize = 0;
        while i < n
            invariant
                n == close@.len(),
                forall|r: int| 0 <= r < close@.len() ==> (#[trigger] close@[r])@.len() == close@.len(),
                0 <= i <= n,
                visited@.len() == n,
                forall|j: int|
                    0 <= j < n ==> (#[trigger] visited@[j] <==> (j < i || claimed_before(
                        close@,
                        i as int,
                        j,
                    ))),
                forall|x: int|
                    0 <= x < groups@.len() ==> is_group(close@, (#[trigger] groups@[x])@) && groups@[x]@[0]
                        < i,
                forall|x: int, y: int|
                    0 <= x < y < groups@.len() ==> (#[trigger] groups@[x])@[0] < (
                    #[trigger] groups@[y])@[0],
                forall|h: int, j: int|
                    h < i && #[trigger] owns(close@, h, j) ==> exists|x: int|
                        0 <= x < groups@.len() && (#[trigger] groups@[x])@[0] == h,
            decreases n - i,
        {
            proof {
                lemma_is_head(close@, i as int);
            }
            if !visited[i] {
                let mut g: Vec<usize> = Vec::new();
                g.push(i);
                visited.set(i, true);
                let mut j: usize = i + 1;
                while j < n
                    invariant
                        n == close@.len(),
                        forall|r: int|
                            0 <= r < close@.len() ==> (#[trigger] close@[r])@.len() == close@.len(),
                        0 <= i < n,
                        i + 1 <= j <= n,
                        is_head(close@, i as int),
                        visited@.len() == n,
                        forall|j2: int| 0 <= j2 <= i ==> #[trigger] visited@[j2],
                        forall|j2: int|
                            i < j2 < n ==> (#[trigger] visited@[j2] <==> (claimed_before(
                                close@,
                                i as int,
                                j2,
                            ) || (j2 < j && close@[i as int]@[j2]))),
                        g@.len() >= 1,
                        g@[0] == i,
                        forall|k: int|
                            1 <= k < g@.len() ==> i < #[trigger] g@[k] < j && owns(
                                close@,
                                i as int,
                                g@[k] as int,
                            ),
                        forall|a: int, b: int| 0 <= a < b < g@.len() ==> g@[a] < g@[b],
                        forall|j2: int|
                            i < j2 < j && #[trigger] owns(close@, i as int, j2) ==> in_group(g@, j2),
                    decreases n - j,
                {
                    let ghost before = g@;
                    if !visited[j] && close[i][j] {
                        g.push(j);
                        visited.set(j, true);
                        assert(g@[before.len() as int] == j);
                        assert forall|j2: int|
                            i < j2 < j + 1 && #[trigger] owns(close@, i as int, j2) implies in_group(
                            g@,
                            j2,
                        ) by {
                            if j2 < j {
                                let k = choose|k: int| 0 <= k < before.len() && before[k] == j2;
                                assert(g@[k] == before[k]);
                            }
                        }
                    }
                    j = j + 1;
                }
                assert forall|j2: int| 0 <= j2 < n implies (#[trigger] visited@[j2] <==> (j2 < i
                    + 1 || claimed_before(close@, i + 1, j2))) by {
                    if j2 > i && close@[i as int]@[j2] {
                        assert(is_head(close@, i as int));
                    }
                    if claimed_before(close@, i + 1, j2) && !claimed_before(close@, i as int, j2) {
                        let h = choose|h: int|
                            0 <= h < i + 1 && #[trigger] is_head(close@, h) && close@[h]@[j2];
                        assert(h == i);
                    }
                }
                if g.len() > 1 {
                    let ghost old_groups = groups@;
                    groups.push(g);
                    assert forall|h: int, j2: int|
                        h < i + 1 && #[trigger] owns(close@, h, j2) implies exists|x: int|
                            0 <= x < groups@.len() && (#[trigger] groups@[x])@[0] == h by {
                        if h < i {
                            let x = choose|x: int|
                                0 <= x < old_groups.len() && (#[trigger] old_groups[x])@[0] == h;
                            assert(groups@[x] == old_groups[x]);
                        } else {
                            assert(groups@[old_groups.len() as int]@[0] == h);
                        }
                    }
                    assert(is_group(close@, groups@[old_groups.len() as int]@));
                } else {
                    assert forall|h: int, j2: int|
                        h < i + 1 && #[trigger] owns(close@, h, j2) implies exists|x: int|
                            0 <= x < groups@.len() && (#[trigger] groups@[x])@[0] == h by {
                        if h == i {
                            assert(in_group(g@, j2));
                        }
                    }
                }
            } else {
                assert forall|j2: int| 0 <= j2 < n implies (#[trigger] visited@[j2] <==> (j2 < i
                    + 1 || claimed_before(close@, i + 1, j2))) by {
                    if claimed_before(close@, i + 1, j2) && !claimed_before(close@, i as int, j2) {
                        let h = choose|h: int|
                            0 <= h < i + 1 && #[trigger] is_head(close@, h) && close@[h]@[j2];
                        assert(h == i);
                    }
                }
            }
            i = i + 1;
        }
        groups
    }
}

} // verus!
