use vstd::prelude::*;
use std::time::Duration;
use crate::clock::{duration_from_secs, secs_duration};
use crate::patterns::PatternKind;

verus! {

/// How fast the kiln cools: the rate sets how sensitive pattern detection is.
///
/// Fast cooling gives many fine cracks (low thresholds); slow cooling gives
/// fewer, larger ones.
#[derive(Debug, Clone, Copy, PartialEq, Eq, Structural)]
pub enum CoolingRate {
    /// Many fine cracks: low thresholds, more patterns.
    Fast,
    /// Balanced detection.
    Normal,
    /// Fewer but more significant patterns.
    Slow,
}

impl Default for CoolingRate {
    fn default() -> (r: CoolingRate)
        ensures
            r == CoolingRate::Normal,
    {
        CoolingRate::Normal
    }
}

/// The fewest tasks with which a cooling rate runs detection.
pub open spec fn spec_min_tasks(rate: CoolingRate) -> nat {
    match rate {
        CoolingRate::Fast => 2,
        CoolingRate::Normal => 3,
        CoolingRate::Slow => 5,
    }
}

impl CoolingRate {
    /// The minimum number of tasks needed before pattern detection activates.
    pub fn min_tasks_for_detection(&self) -> (n: usize)
        ensures
            n == spec_min_tasks(*self),
    {
        match self {
            CoolingRate::Fast => 2,
            CoolingRate::Normal => 3,
            CoolingRate::Slow => 5,
        }
    }
}

/// Slower cooling never asks for fewer tasks before detection starts:
/// the minimum grows strictly from `Fast` to `Normal` to `Slow`.
pub proof fn lemma_min_tasks_grow_with_slower_cooling()
    ensures
        spec_min_tasks(CoolingRate::Fast) < spec_min_tasks(CoolingRate::Normal),
        spec_min_tasks(CoolingRate::Normal) < spec_min_tasks(CoolingRate::Slow),
{
}

} // verus!

verus! {

/// Controls how the kiln cools: the rate and which detectors run.
#[derive(Debug)]
pub struct ThermalProfile {
    /// The cooling rate.
    pub rate: CoolingRate,
    /// Maximum time to spend in cooling phase per task.
    pub max_cooling_duration: Duration,
    /// Whether to enable clustering pattern detection.
    pub detect_clustering: bool,
    /// Whether to enable phase transition detection.
    pub detect_phase_transitions: bool,
    /// Whether to enable conservation law detection.
    pub detect_conservation: bool,
    /// Whether to enable correlation detection.
    pub detect_correlations: bool,
}

impl ThermalProfile {
    /// All four detectors switched on.
    pub open spec fn detects_all(&self) -> bool {
        &&& self.detect_clustering
        &&& self.detect_phase_transitions
        &&& self.detect_conservation
        &&& self.detect_correlations
    }

    /// All four detectors switched off.
    pub open spec fn detects_none(&self) -> bool {
        &&& !self.detect_clustering
        &&& !self.detect_phase_transitions
        &&& !self.detect_conservation
        &&& !self.detect_correlations
    }

    /// The detectors that are switched on, in the order cooling runs them:
    /// clustering, phase transitions, conservation, correlations.
    pub open spec fn planned_detectors(&self) -> Seq<PatternKind> {
        (if self.detect_clustering { seq![PatternKind::Clustering] } else { Seq::empty() }) + (
        if self.detect_phase_transitions {
            seq![PatternKind::PhaseTransition]
        } else {
            Seq::empty()
        }) + (if self.detect_conservation { seq![PatternKind::Conservation] } else { Seq::empty() })
            + (if self.detect_correlations { seq![PatternKind::Correlation] } else { Seq::empty() })
    }
}

/// The place of each detector in cooling's run order.
pub open spec fn detector_rank(k: PatternKind) -> int {
    match k {
        PatternKind::Clustering => 0,
        PatternKind::PhaseTransition => 1,
        PatternKind::Conservation => 2,
        PatternKind::Correlation => 3,
    }
}

/// Each detector is planned exactly when its own flag is on, whatever the
/// other flags say; none is planned twice, and they come in run order.
pub proof fn lemma_planned_detectors_follow_flags(p: ThermalProfile)
    ensures
        p.planned_detectors().contains(PatternKind::Clustering) <==> p.detect_clustering,
        p.planned_detectors().contains(PatternKind::PhaseTransition) <==> p.detect_phase_transitions,
        p.planned_detectors().contains(PatternKind::Conservation) <==> p.detect_conservation,
        p.planned_detectors().contains(PatternKind::Correlation) <==> p.detect_correlations,
        forall|i: int, j: int|
            0 <= i < j < p.planned_detectors().len() ==> detector_rank(#[trigger] p.planned_detectors()[i])
                < detector_rank(#[trigger] p.planned_detectors()[j]),
{
    let s = p.planned_detectors();
    let mut r: Seq<PatternKind> = Seq::empty();
    if p.detect_clustering {
        r = r.push(PatternKind::Clustering);
    }
    if p.detect_phase_transitions {
        r = r.push(PatternKind::PhaseTransition);
    }
    if p.detect_conservation {
        r = r.push(PatternKind::Conservation);
    }
    if p.detect_correlations {
        r = r.push(PatternKind::Correlation);
    }
    assert(s =~= r);
    assert(p.detect_clustering ==> s[0] == PatternKind::Clustering);
    if p.detect_phase_transitions {
        let i = if p.detect_clustering { 1int } else { 0int };
        assert(s[i] == PatternKind::PhaseTransition);
    }
    if p.detect_conservation {
        let i = (if p.detect_clustering { 1int } else { 0int }) + (if p.detect_phase_transitions { 1int } else { 0int });
        assert(s[i] == PatternKind::Conservation);
    }
    if p.detect_correlations {
        assert(s[s.len() - 1] == PatternKind::Correlation);
    }
}

/// A profile with every detector off plans no detection at all, and one
/// with every detector on plans all four, in order.
pub proof fn lemma_planned_detectors_extremes(p: ThermalProfile)
    ensures
        p.detects_none() ==> p.planned_detectors() == Seq::<PatternKind>::empty(),
        p.detects_all() ==> p.planned_detectors() == seq![
            PatternKind::Clustering,
            PatternKind::PhaseTransition,
            PatternKind::Conservation,
            PatternKind::Correlation,
        ],
{
    if p.detects_none() {
        assert(p.planned_detectors() =~= Seq::<PatternKind>::empty());
    }
    if p.detects_all() {
        assert(p.planned_detectors() =~= seq![
            PatternKind::Clustering,
            PatternKind::PhaseTransition,
            PatternKind::Conservation,
            PatternKind::Correlation,
        ]);
    }
}

impl Clone for ThermalProfile {
    fn clone(&self) -> (p: Self)
        ensures
            p == *self,
    {
        ThermalProfile {
            rate: self.rate,
            max_cooling_duration: self.max_cooling_duration,
            detect_clustering: self.detect_clustering,
            detect_phase_transitions: self.detect_phase_transitions,
            detect_conservation: self.detect_conservation,
            detect_correlations: self.detect_correlations,
        }
    }
}

impl Default for ThermalProfile {
    /// Normal cooling, one minute per task, every detector on.
    fn default() -> (p: ThermalProfile)
        ensures
            p.rate == CoolingRate::Normal,
            p.max_cooling_duration == secs_duration(60),
            p.detects_all(),
    {
        ThermalProfile {
            rate: CoolingRate::Normal,
            max_cooling_duration: duration_from_secs(60),
            detect_clustering: true,
            detect_phase_transitions: true,
            detect_conservation: true,
            detect_correlations: true,
        }
    }
}

impl ThermalProfile {
    /// A profile for fast cooling: many fine patterns.
    pub fn fast_cooling() -> (p: Self)
        ensures
            p.rate == CoolingRate::Fast,
            p.max_cooling_duration == secs_duration(10),
            p.detects_all(),
    {
        ThermalProfile {
            rate: CoolingRate::Fast,
            max_cooling_duration: duration_from_secs(10),
            ..ThermalProfile::default()
        }
    }

    /// A profile for slow cooling: fewer, larger patterns.
    pub fn slow_cooling() -> (p: Self)
        ensures
            p.rate == CoolingRate::Slow,
            p.max_cooling_duration == secs_duration(300),
            p.detects_all(),
    {
        ThermalProfile {
            rate: CoolingRate::Slow,
            max_cooling_duration: duration_from_secs(300),
            ..ThermalProfile::default()
        }
    }

    /// A profile with every detector off (useful for benchmarking).
    pub fn no_detection() -> (p: Self)
        ensures
            p.rate == CoolingRate::Normal,
            p.max_cooling_duration == secs_duration(60),
            p.detects_none(),
    {
        ThermalProfile {
            detect_clustering: false,
            detect_phase_transitions: false,
            detect_conservation: false,
            detect_correlations: false,
            ..ThermalProfile::default()
        }
    }

    /// Set the cooling rate.
    pub fn with_rate(self, rate: CoolingRate) -> (p: Self)
        ensures
            p == (ThermalProfile { rate, ..self }),
    {
        ThermalProfile { rate, ..self }
    }

    /// Disable clustering detection.
    pub fn without_clustering(self) -> (p: Self)
        ensures
            p == (ThermalProfile { detect_clustering: false, ..self }),
    {
        ThermalProfile { detect_clustering: false, ..self }
    }

    /// Disable phase transition detection.
    pub fn without_phase_transitions(self) -> (p: Self)
        ensures
            p == (ThermalProfile { detect_phase_transitions: false, ..self }),
    {
        ThermalProfile { detect_phase_transitions: false, ..self }
    }

    /// Disable conservation law detection.
    pub fn without_conservation(self) -> (p: Self)
        ensures
            p == (ThermalProfile { detect_conservation: false, ..self }),
    {
        ThermalProfile { detect_conservation: false, ..self }
    }

    /// The detectors this profile runs, in the order cooling runs them.
    pub fn detectors(&self) -> (r: Vec<PatternKind>)
        ensures
            r@ == self.planned_detectors(),
            r@.contains(PatternKind::Clustering) <==> self.detect_clustering,
            r@.contains(PatternKind::PhaseTransition) <==> self.detect_phase_transitions,
            r@.contains(PatternKind::Conservation) <==> self.detect_conservation,
            r@.contains(PatternKind::Correlation) <==> self.detect_correlations,
            forall|i: int, j: int|
                0 <= i < j < r@.len() ==> detector_rank(#[trigger] r@[i]) < detector_rank(#[trigger] r@[j]),
    {
        let mut r: Vec<PatternKind> = Vec::new();
        if self.detect_clustering {
            r.push(PatternKind::Clustering);
        }
        if self.detect_phase_transitions {
            r.push(PatternKind::PhaseTransition);
        }
        if self.detect_conservation {
            r.push(PatternKind::Conservation);
        }
        if self.detect_correlations {
            r.push(PatternKind::Correlation);
        }
        assert(r@ =~= self.planned_detectors());
        proof {
            lemma_planned_detectors_follow_flags(*self);
        }
        r
    }

    /// Disable correlation detection.
    pub fn without_correlations(self) -> (p: Self)
        ensures
            p == (ThermalProfile { detect_correlations: false, ..self }),
    {
        ThermalProfile { detect_correlations: false, ..self }
    }
}

} // verus!
