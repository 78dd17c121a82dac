//! Errors of customizable constraint systems (CCS).

use vstd::prelude::*;

pub mod sha256_constraint;

verus! {

/// Failure of a CCS operation.
#[derive(Debug, Clone, Copy, PartialEq, Eq, Structural)]
pub enum Error {
    InvalidWitnessLength,
    InvalidInputLength,
    InvalidEvaluationPoint,
    InvalidTargets,
    NotSatisfied,
}

impl Error {
    /// The text of the error.
    pub open spec fn text(&self) -> Seq<char> {
        match self {
            Error::InvalidWitnessLength => "invalid witness length"@,
            Error::InvalidInputLength => "invalid input length"@,
            Error::InvalidEvaluationPoint => "invalid evaluation point"@,
            Error::InvalidTargets => "invalid targets"@,
            Error::NotSatisfied => "not satisfied"@,
        }
    }

    /// The text of the error.
    pub fn message(&self) -> (s: String)
        ensures
            s@ == self.text(),
    {
        match self {
            Error::InvalidWitnessLength => "invalid witness length".to_string(),
            Error::InvalidInputLength => "invalid input length".to_string(),
            Error::InvalidEvaluationPoint => "invalid evaluation point".to_string(),
            Error::InvalidTargets => "invalid targets".to_string(),
            Error::NotSatisfied => "not satisfied".to_string(),
        }
    }
}

} // verus!
