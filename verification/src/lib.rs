//! Firing and cooling of tasks, with the structural part of pattern
//! detection: name-keyed metric bookkeeping, the kiln's lifecycle, the
//! greedy grouping of nearby tasks and the discrete counting behind the
//! information measures.

pub mod clock;
pub mod error;
pub mod information;
pub mod kiln;
pub mod patterns;
pub mod metrics;
pub mod profile;
pub mod task;
pub mod timestamp_order;

pub use error::{CrackleError, Result};
pub use profile::{CoolingRate, ThermalProfile};
pub use task::{TaskMetadata, Timestamp};
pub use kiln::{Kiln, TaskEntry};
pub use patterns::{
    ClusteringPattern, ConservationPattern, CorrelationPattern, PatternKind, PhaseTransitionPattern,
};
pub use information::{checked_factorial, factorial, lehmer_code};
