use vstd::prelude::*;
use vstd::string::*;

verus! {

/// Errors that can occur during crackle runtime operations.
#[derive(Debug)]
pub enum CrackleError {
    /// A task panicked during firing.
    TaskPanicked(String),
    /// The kiln was already cooled and cannot accept new tasks.
    KilnCooled,
    /// Invalid thermal profile configuration.
    InvalidProfile(String),
    /// Pattern detection failed.
    DetectionFailed(String),
}

/// The human-readable message of an error, as characters.
pub open spec fn error_message(e: CrackleError) -> Seq<char> {
    match e {
        CrackleError::TaskPanicked(msg) => "task panicked: "@ + msg@,
        CrackleError::KilnCooled => "kiln has already cooled and cannot accept new tasks"@,
        CrackleError::InvalidProfile(msg) => "invalid thermal profile: "@ + msg@,
        CrackleError::DetectionFailed(msg) => "pattern detection failed: "@ + msg@,
    }
}

impl CrackleError {
    /// The human-readable message of this error.
    pub fn message(&self) -> (s: String)
        ensures
            s@ == error_message(*self),
    {
        match self {
            CrackleError::TaskPanicked(msg) => {
                let mut s = String::from_str("task panicked: ");
                s.append(msg.as_str());
                s
            },
            CrackleError::KilnCooled => String::from_str(
                "kiln has already cooled and cannot accept new tasks",
            ),
            CrackleError::InvalidProfile(msg) => {
                let mut s = String::from_str("invalid thermal profile: ");
                s.append(msg.as_str());
                s
            },
            CrackleError::DetectionFailed(msg) => {
                let mut s = String::from_str("pattern detection failed: ");
                s.append(msg.as_str());
                s
            },
        }
    }
}

/// A specialized result type for crackle runtime operations.
pub type Result<T> = core::result::Result<T, CrackleError>;

} // verus!
