//! Errors of the folding protocol.

use vstd::prelude::*;

use crate::ccs;

verus! {

/// Failure of the folding protocol.
#[derive(Debug, Clone, Copy, PartialEq, Eq, Structural)]
pub enum Error {
    CCS(ccs::Error),
    InconsistentSubclaim,
}

impl From<ccs::Error> for Error {
    fn from(err: ccs::Error) -> (r: Error) {
        Error::CCS(err)
    }
}

impl vstd::std_specs::convert::FromSpecImpl<ccs::Error> for Error {
    open spec fn obeys_from_spec() -> bool {
        true
    }

    open spec fn from_spec(v: ccs::Error) -> Self {
        Error::CCS(v)
    }
}

impl Error {
    /// The text of the error.
    pub open spec fn text(&self) -> Seq<char> {
        match self {
            Error::CCS(e) => e.text(),
            Error::InconsistentSubclaim => "inconsistent subclaim"@,
        }
    }

    /// The text of the error.
    pub fn message(&self) -> (s: String)
        ensures
            s@ == self.text(),
    {
        match self {
            Error::CCS(e) => e.message(),
            Error::InconsistentSubclaim => "inconsistent subclaim".to_string(),
        }
    }

    /// The error this one wraps, if any.
    pub fn source(&self) -> (r: Option<ccs::Error>)
        ensures
            r == match self {
                Error::CCS(e) => Some(*e),
                Error::InconsistentSubclaim => None::<ccs::Error>,
            },
    {
        match self {
            Error::CCS(e) => Some(*e),
            Error::InconsistentSubclaim => None,
        }
    }
}

} // verus!
