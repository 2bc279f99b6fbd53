use vstd::prelude::*;

verus! {

/// Errors reported by the checked operations of the library.
#[derive(Debug, PartialEq, Eq, Structural)]
#[non_exhaustive]
pub enum Error {
    SourceTargetMismatch,
    InvalidElement,
    PartialMap,
}

impl Error {
    /// The message that describes the error.
    pub fn message(&self) -> (s: &'static str)
        ensures
            *self == Error::SourceTargetMismatch ==> s@ == "cannot compose morphisms due to source/target mismatch."@,
            *self == Error::InvalidElement ==> s@ == "element dimension does not match module dimension."@,
            *self == Error::PartialMap ==> s@ == "element not found in map."@,
    {
        match self {
            Error::SourceTargetMismatch => "cannot compose morphisms due to source/target mismatch.",
            Error::InvalidElement => "element dimension does not match module dimension.",
            Error::PartialMap => "element not found in map.",
        }
    }
}

} // verus!
