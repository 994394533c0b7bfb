//! The outcome of a checker on a solution of a Terry task.
use vstd::prelude::*;

verus! {

/// The possible statuses of the validation of a test case.
#[derive(Clone, Copy, Debug, PartialEq, Eq, Structural)]
pub enum CaseStatus {
    /// The testcase is not present in the output file.
    Missing,
    /// The testcase is present and correctly parsed.
    Parsed,
    /// The testcase is present but its format is invalid.
    Invalid,
}

/// The validation outcome of a test case.
#[derive(Clone, Debug)]
pub struct SolutionValidationCase {
    pub status: CaseStatus,
    pub message: Option<String>,
}

/// A message with an associated severity.
#[derive(Clone, Debug)]
pub struct SolutionAlert {
    pub severity: String,
    pub message: String,
}

/// The validation part of the outcome of a solution.
#[derive(Clone, Debug)]
pub struct SolutionValidation {
    pub cases: Vec<SolutionValidationCase>,
    pub alerts: Vec<SolutionAlert>,
}

/// The feedback of a test case.
#[derive(Clone, Debug)]
pub struct SolutionFeedbackCase {
    pub correct: bool,
    pub message: Option<String>,
}

/// The feedback part of the outcome.
#[derive(Clone, Debug)]
pub struct SolutionFeedback {
    pub cases: Vec<SolutionFeedbackCase>,
    pub alerts: Vec<SolutionAlert>,
}

impl CaseStatus {
    /// The lowercase name of the status, as the checker writes it.
    pub fn name(&self) -> (r: &'static str)
        ensures
            *self is Missing ==> r@ == "missing"@,
            *self is Parsed ==> r@ == "parsed"@,
            *self is Invalid ==> r@ == "invalid"@,
    {
        match self {
            CaseStatus::Missing => "missing",
            CaseStatus::Parsed => "parsed",
            CaseStatus::Invalid => "invalid",
        }
    }
}

} // verus!
