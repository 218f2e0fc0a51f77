use vstd::prelude::*;
use std::time::Duration;
use crate::error::CrackleError;
use crate::metrics::{
    distinct_metric_names, lemma_series_values_concat, listed, mentions, merge_metrics, merged,
    metric_values, series_values, views,
};
use crate::profile::{spec_min_tasks, ThermalProfile};
use crate::task::{TaskMetadata, Timestamp};
use crate::clock::{millis_duration, secs_duration};
use crate::profile::CoolingRate;
use crate::patterns::PatternKind;

verus! {

/// A completed task stored in the kiln.
#[derive(Debug, Clone)]
pub struct TaskEntry<V> {
    /// The task label.
    pub label: String,
    /// Metrics produced during firing.
    pub metrics: Vec<(String, V)>,
    /// Metrics produced during cooling (may differ from firing).
    pub cooled_metrics: Vec<(String, V)>,
    /// Task metadata.
    pub metadata: TaskMetadata,
}

impl<V> TaskEntry<V> {
    /// The entry's metrics as the detectors see them: cooled metrics first,
    /// then each fired metric whose name is not cooled.
    pub open spec fn spec_all_metrics(&self) -> Seq<(String, V)> {
        merged(self.cooled_metrics@, self.metrics@)
    }

    /// A freshly fired entry: `label`, `metrics`, nothing cooled, and
    /// metadata that records the label, the firing time and duration.
    pub open spec fn is_fired(
        &self,
        label: Seq<char>,
        metrics: Seq<(String, V)>,
        fired_at: Timestamp,
        fire_duration: Duration,
    ) -> bool {
        &&& self.label@ == label
        &&& self.metrics@ == metrics
        &&& self.cooled_metrics@.len() == 0
        &&& self.metadata.fired_at == fired_at
        &&& self.metadata.cooled_at is None
        &&& self.metadata.fire_duration == fire_duration
        &&& self.metadata.label@ == label
    }

    /// This entry with its cooling time set to `ts`.
    pub open spec fn cooled_at(self, ts: Timestamp) -> Self {
        TaskEntry { metadata: TaskMetadata { cooled_at: Some(ts), ..self.metadata }, ..self }
    }
}

/// Every entry with its cooling time set to `ts`.
pub open spec fn stamped<V>(entries: Seq<TaskEntry<V>>, ts: Timestamp) -> Seq<TaskEntry<V>> {
    entries.map_values(|e: TaskEntry<V>| e.cooled_at(ts))
}

impl<V: Copy> TaskEntry<V> {
    /// All metrics: cooled metrics override firing metrics of the same name.
    pub fn all_metrics(&self) -> (r: Vec<(String, V)>)
        ensures
            r@ == self.spec_all_metrics(),
    {
        merge_metrics(self.cooled_metrics.as_slice(), self.metrics.as_slice())
    }
}

/// The kiln: the runtime that records fired tasks and cools them to detect
/// patterns.
///
/// It is open until it cools; then it refuses new fired tasks until it is
/// reset.
pub struct Kiln<V> {
    profile: ThermalProfile,
    entries: Vec<TaskEntry<V>>,
    cooled: bool,
}

impl<V> Kiln<V> {
    /// The thermal profile.
    pub closed spec fn spec_profile(&self) -> ThermalProfile {
        self.profile
    }

    /// The recorded entries, in the order they were recorded.
    pub closed spec fn spec_entries(&self) -> Seq<TaskEntry<V>> {
        self.entries@
    }

    /// Whether the kiln has cooled.
    pub closed spec fn spec_cooled(&self) -> bool {
        self.cooled
    }

    /// Create a new kiln with the given thermal profile.
    pub fn new(profile: ThermalProfile) -> (k: Self)
        ensures
            k.spec_profile() == profile,
            k.spec_entries() == Seq::<TaskEntry<V>>::empty(),
            !k.spec_cooled(),
    {
        Kiln { profile, entries: Vec::new(), cooled: false }
    }

    /// Create a kiln with the default thermal profile.
    pub fn default_profile() -> (k: Self)
        ensures
            k.spec_profile().rate == CoolingRate::Normal,
            k.spec_profile().max_cooling_duration == secs_duration(60),
            k.spec_profile().detects_all(),
            k.spec_entries() == Seq::<TaskEntry<V>>::empty(),
            !k.spec_cooled(),
    {
        Kiln::new(ThermalProfile::default())
    }

    /// Whether the kiln still takes fired tasks: `KilnCooled` once it has
    /// cooled.
    pub fn ensure_open(&self) -> (r: Result<(), CrackleError>)
        ensures
            self.spec_cooled() ==> r matches Err(CrackleError::KilnCooled),
            !self.spec_cooled() ==> r is Ok,
    {
        if self.cooled {
            Err(CrackleError::KilnCooled)
        } else {
            Ok(())
        }
    }

    /// Record a fired task: its label, its firing metrics, when it was
    /// fired and how long firing took.
    ///
    /// # Errors
    ///
    /// `KilnCooled` once the kiln has cooled; nothing is recorded then.
    pub fn record_fired(
        &mut self,
        label: String,
        metrics: Vec<(String, V)>,
        fired_at: Timestamp,
        fire_duration: Duration,
    ) -> (r: Result<(), CrackleError>)
        ensures
            old(self).spec_cooled() ==> r matches Err(CrackleError::KilnCooled),
            old(self).spec_cooled() ==> final(self).spec_entries() == old(self).spec_entries(),
            !old(self).spec_cooled() ==> r is Ok,
            !old(self).spec_cooled() ==> final(self).spec_entries().len() == old(
                self,
            ).spec_entries().len() + 1,
            !old(self).spec_cooled() ==> final(self).spec_entries().drop_last() == old(
                self,
            ).spec_entries(),
            !old(self).spec_cooled() ==> final(self).spec_entries().last().is_fired(
                label@,
                metrics@,
                fired_at,
                fire_duration,
            ),
            final(self).spec_cooled() == old(self).spec_cooled(),
            final(self).spec_profile() == old(self).spec_profile(),
    {
        if self.cooled {
            return Err(CrackleError::KilnCooled);
        }
        let entry = TaskEntry {
            label: label.clone(),
            metrics,
            cooled_metrics: Vec::new(),
            metadata: TaskMetadata { fired_at, cooled_at: None, fire_duration, label },
        };
        self.entries.push(entry);
        assert(self.entries@.drop_last() =~= old(self).entries@);
        Ok(())
    }

    /// Add a pre-computed task entry directly, fired now. This does not
    /// look at whether the kiln has cooled.
    pub fn add_entry(&mut self, label: &str, metrics: Vec<(String, V)>)
        ensures
            final(self).spec_entries().len() == old(self).spec_entries().len() + 1,
            final(self).spec_entries().drop_last() == old(self).spec_entries(),
            exists|ts: Timestamp|
                final(self).spec_entries().last().is_fired(
                    label@,
                    metrics@,
                    ts,
                    millis_duration(0),
                ),
            final(self).spec_cooled() == old(self).spec_cooled(),
            final(self).spec_profile() == old(self).spec_profile(),
    {
        let metadata = TaskMetadata::new(label);
        let ghost ms = metrics@;
        let ghost ts = choose|ts: Timestamp| metadata.fresh(label@, ts);
        let entry = TaskEntry {
            label: label.to_owned(),
            metrics,
            cooled_metrics: Vec::new(),
            metadata,
        };
        self.entries.push(entry);
        assert(self.entries@.drop_last() =~= old(self).entries@);
        assert(self.spec_entries().last().is_fired(
            label@,
            ms,
            ts,
            millis_duration(0),
        ));
    }

    /// The number of tasks currently in the kiln.
    pub fn task_count(&self) -> (n: usize)
        ensures
            n == self.spec_entries().len(),
    {
        self.entries.len()
    }

    /// All task entries.
    pub fn entries(&self) -> (r: &[TaskEntry<V>])
        ensures
            r@ == self.spec_entries(),
    {
        self.entries.as_slice()
    }

    /// Check if the kiln has been cooled.
    pub fn is_cooled(&self) -> (b: bool)
        ensures
            b == self.spec_cooled(),
    {
        self.cooled
    }

    /// The thermal profile.
    pub fn profile(&self) -> (p: &ThermalProfile)
        ensures
            *p == self.spec_profile(),
    {
        &self.profile
    }

    /// Reset the kiln for a new firing cycle: no entries, open again.
    pub fn reset(&mut self)
        ensures
            final(self).spec_entries() == Seq::<TaskEntry<V>>::empty(),
            !final(self).spec_cooled(),
            final(self).spec_profile() == old(self).spec_profile(),
    {
        self.entries.clear();
        self.cooled = false;
    }

    /// The first step of cooling: the kiln cools (and takes no more fired
    /// tasks). Detection is due when the kiln holds at least the profile's
    /// minimum number of tasks; then every entry is stamped with the same
    /// cooling time, and `true` is returned. Otherwise nothing else changes.
    pub fn begin_cooling(&mut self) -> (ready: bool)
        ensures
            final(self).spec_cooled(),
            final(self).spec_profile() == old(self).spec_profile(),
            ready == (old(self).spec_entries().len() >= spec_min_tasks(old(self).spec_profile().rate)),
            !ready ==> final(self).spec_entries() == old(self).spec_entries(),
            ready ==> exists|ts: Timestamp|
                final(self).spec_entries() == #[trigger] stamped(old(self).spec_entries(), ts),
    {
        self.cooled = true;
        if self.entries.len() < self.profile.rate.min_tasks_for_detection() {
            return false;
        }
        let ts = Timestamp::now();
        let ghost before = self.entries@;
        let mut i: usize = 0;
        while i < self.entries.len()
            invariant
                0 <= i <= self.entries@.len(),
                self.entries@.len() == before.len(),
                self.cooled,
                self.profile == old(self).profile,
                before == old(self).entries@,
                forall|j: int| 0 <= j < i ==> self.entries@[j] == before[j].cooled_at(ts),
                forall|j: int| i <= j < before.len() ==> self.entries@[j] == before[j],
            decreases before.len() - i,
        {
            self.entries[i].metadata.cooled_at = Some(ts);
            i = i + 1;
        }
        assert(self.entries@ =~= stamped(before, ts));
        assert(self.spec_entries() == stamped(old(self).spec_entries(), ts));
        true
    }

    /// Cooling's dispatch: the kiln cools (see `begin_cooling`), and the
    /// detectors to run come back in order: none when the kiln holds fewer
    /// tasks than the profile's minimum, otherwise those the profile has on.
    pub fn plan_cooling(&mut self) -> (plan: Vec<PatternKind>)
        ensures
            final(self).spec_cooled(),
            final(self).spec_profile() == old(self).spec_profile(),
            old(self).spec_entries().len() < spec_min_tasks(old(self).spec_profile().rate) ==> {
                &&& plan@ == Seq::<PatternKind>::empty()
                &&& final(self).spec_entries() == old(self).spec_entries()
            },
            old(self).spec_entries().len() >= spec_min_tasks(old(self).spec_profile().rate) ==> {
                &&& plan@ == old(self).spec_profile().planned_detectors()
                &&& (plan@.contains(PatternKind::Clustering) <==> old(self).spec_profile().detect_clustering)
                &&& (plan@.contains(PatternKind::PhaseTransition)
                    <==> old(self).spec_profile().detect_phase_transitions)
                &&& (plan@.contains(PatternKind::Conservation) <==> old(self).spec_profile().detect_conservation)
                &&& (plan@.contains(PatternKind::Correlation) <==> old(self).spec_profile().detect_correlations)
                &&& exists|ts: Timestamp|
                    final(self).spec_entries() == #[trigger] stamped(old(self).spec_entries(), ts)
            },
    {
        if self.begin_cooling() {
            self.profile.detectors()
        } else {
            Vec::new()
        }
    }

    /// The labels of the entries, in order.
    pub fn labels(&self) -> (r: Vec<String>)
        ensures
            r@.len() == self.spec_entries().len(),
            forall|i: int| 0 <= i < r@.len() ==> r@[i] == #[trigger] self.spec_entries()[i].label,
    {
        let mut r: Vec<String> = Vec::new();
        let mut i: usize = 0;
        while i < self.entries.len()
            invariant
                0 <= i <= self.entries@.len(),
                r@.len() == i,
                forall|j: int| 0 <= j < i ==> r@[j] == #[trigger] self.entries@[j].label,
            decreases self.entries@.len() - i,
        {
            r.push(self.entries[i].label.clone());
            i = i + 1;
        }
        r
    }
}

impl<V> Kiln<V> {
    /// The merged metrics of each entry, in order.
    pub open spec fn spec_metric_lists(&self) -> Seq<Seq<(String, V)>> {
        self.spec_entries().map_values(|e: TaskEntry<V>| e.spec_all_metrics())
    }
}

/// The two halves that the shift measures compare partition a metric's
/// values: the first half's values followed by the second half's are all
/// the values of the metric across the kiln's entries, in order.
pub proof fn lemma_halves_partition_values<V>(kiln: Kiln<V>, name: Seq<char>)
    ensures
        ({
            let n = kiln.spec_entries().len() as int;
            let lists = kiln.spec_metric_lists();
            series_values(lists.subrange(0, n / 2), name) + series_values(lists.subrange(n / 2, n), name)
                == series_values(lists, name)
        }),
{
    let n = kiln.spec_entries().len() as int;
    let lists = kiln.spec_metric_lists();
    lemma_series_values_concat(lists.subrange(0, n / 2), lists.subrange(n / 2, n), name);
    assert(lists.subrange(0, n / 2) + lists.subrange(n / 2, n) =~= lists);
}

impl<V: Copy> Kiln<V> {
    /// The merged metrics of each entry, in order.
    pub fn metric_lists(&self) -> (r: Vec<Vec<(String, V)>>)
        ensures
            views(r@) == self.spec_metric_lists(),
    {
        let mut r: Vec<Vec<(String, V)>> = Vec::new();
        let mut i: usize = 0;
        while i < self.entries.len()
            invariant
                0 <= i <= self.entries@.len(),
                r@.len() == i,
                forall|j: int|
                    0 <= j < i ==> (#[trigger] r@[j])@ == self.entries@[j].spec_all_metrics(),
            decreases self.entries@.len() - i,
        {
            r.push(self.entries[i].all_metrics());
            i = i + 1;
        }
        assert(views(r@) =~= self.spec_metric_lists());
        r
    }

    /// Every metric name across all entries, each once.
    pub fn collect_metric_names(&self) -> (names: Vec<String>)
        ensures
            forall|i: int, j: int| 0 <= i < j < names@.len() ==> names@[i]@ != names@[j]@,
            forall|k: int|
                0 <= k < names@.len() ==> mentions(self.spec_metric_lists(), #[trigger] names@[k]@),
            forall|a: int, b: int|
                0 <= a < self.spec_metric_lists().len() && 0 <= b < self.spec_metric_lists()[a].len()
                    ==> listed(names@, #[trigger] self.spec_metric_lists()[a][b].0@),
    {
        let lists = self.metric_lists();
        distinct_metric_names(lists.as_slice())
    }

    /// The values of each named metric in the first and in the second half
    /// of the entries (the first half holds `len / 2` of them), for the
    /// names (by position in `names`, in order) that both halves report.
    /// With fewer than two entries there are no halves to compare.
    pub fn half_series(&self, names: &[String]) -> (r: Vec<(usize, Vec<V>, Vec<V>)>)
        ensures
            self.spec_entries().len() < 2 ==> r@.len() == 0,
            forall|k: int|
                0 <= k < r@.len() ==> {
                    let n = self.spec_entries().len() as int;
                    let lists = self.spec_metric_lists();
                    let name = names@[(#[trigger] r@[k]).0 as int]@;
                    &&& r@[k].0 < names@.len()
                    &&& r@[k].1@ == series_values(lists.subrange(0, n / 2), name)
                    &&& r@[k].2@ == series_values(lists.subrange(n / 2, n), name)
                    &&& r@[k].1@.len() > 0
                    &&& r@[k].2@.len() > 0
                },
            forall|a: int, b: int| 0 <= a < b < r@.len() ==> (#[trigger] r@[a]).0 < (#[trigger] r@[b]).0,
            self.spec_entries().len() >= 2 ==> forall|i: int|
                0 <= i < names@.len() && series_values(
                    self.spec_metric_lists().subrange(0, self.spec_entries().len() as int / 2),
                    #[trigger] names@[i]@,
                ).len() > 0 && series_values(
                    self.spec_metric_lists().subrange(
                        self.spec_entries().len() as int / 2,
                        self.spec_entries().len() as int,
                    ),
                    names@[i]@,
                ).len() > 0 ==> exists|k: int| 0 <= k < r@.len() && r@[k].0 == i,
    {
        let mut r: Vec<(usize, Vec<V>, Vec<V>)> = Vec::new();
        let n = self.entries.len();
        if n < 2 {
            return r;
        }
        let mid = n / 2;
        let lists = self.metric_lists();
        let ghost ls = self.spec_metric_lists();
        assert(lists@.len() == views(lists@).len());
        let (first, second) = lists.as_slice().split_at(mid);
        assert forall|j: int| 0 <= j < mid implies views(first@)[j] == ls.subrange(0, mid as int)[j] by {
            assert(first@[j] == lists@[j]);
            assert(views(lists@)[j] == lists@[j]@);
        }
        assert forall|j: int| 0 <= j < n - mid implies views(second@)[j] == ls.subrange(
            mid as int,
            n as int,
        )[j] by {
            assert(second@[j] == lists@[mid + j]);
            assert(views(lists@)[mid + j] == lists@[mid + j]@);
        }
        assert(views(first@) =~= ls.subrange(0, mid as int));
        assert(views(second@) =~= ls.subrange(mid as int, n as int));
        let mut i: usize = 0;
        while i < names.len()
            invariant
                0 <= i <= names@.len(),
                n == self.spec_entries().len(),
                mid == n / 2,
                ls == self.spec_metric_lists(),
                views(first@) == ls.subrange(0, mid as int),
                views(second@) == ls.subrange(mid as int, n as int),
                forall|k: int|
                    0 <= k < r@.len() ==> {
                        let name = names@[(#[trigger] r@[k]).0 as int]@;
                        &&& r@[k].0 < i
                        &&& r@[k].1@ == series_values(ls.subrange(0, mid as int), name)
                        &&& r@[k].2@ == series_values(ls.subrange(mid as int, n as int), name)
                        &&& r@[k].1@.len() > 0
                        &&& r@[k].2@.len() > 0
                    },
                forall|a: int, b: int|
                    0 <= a < b < r@.len() ==> (#[trigger] r@[a]).0 < (#[trigger] r@[b]).0,
                forall|i2: int|
                    0 <= i2 < i && series_values(ls.subrange(0, mid as int), #[trigger] names@[i2]@).len()
                        > 0 && series_values(ls.subrange(mid as int, n as int), names@[i2]@).len()
                        > 0 ==> exists|k: int| 0 <= k < r@.len() && r@[k].0 == i2,
            decreases names@.len() - i,
        {
            let f = metric_values(first, &names[i]);
            let s = metric_values(second, &names[i]);
            if f.len() > 0 && s.len() > 0 {
                let ghost before = r@;
                r.push((i, f, s));
                assert forall|i2: int|
                    0 <= i2 < i + 1 && series_values(
                        ls.subrange(0, mid as int),
                        #[trigger] names@[i2]@,
                    ).len() > 0 && series_values(ls.subrange(mid as int, n as int), names@[i2]@).len()
                        > 0 implies exists|k: int| 0 <= k < r@.len() && r@[k].0 == i2 by {
                    if i2 < i {
                        let k = choose|k: int| 0 <= k < before.len() && before[k].0 == i2;
                        assert(r@[k] == before[k]);
                    } else {
                        assert(r@[before.len() as int].0 == i2);
                    }
                }
            }
            i = i + 1;
        }
        r
    }
}

} // verus!
