//! Error kinds shared by the analysis stages.

use vstd::prelude::*;

verus! {

/// What a pipeline stage reports when it cannot produce a result.
///
/// Reading or writing files is the caller's business, so no I/O kind
/// appears here: a stage only ever sees in-memory input.
#[derive(Clone, Copy, Debug, PartialEq, Eq, Structural)]
pub enum AnalysisError {
    /// Malformed input text: a bad MODEL header, a bad tabular row, or a
    /// bad serialized map string.
    FormatError,
    /// Structurally valid input on which the stage is undefined: an empty
    /// record sequence, or a summary with no cluster ever formed.
    ValidationError,
    /// An exact rational intermediate did not fit the machine word.
    NumericOverflow,
}

impl AnalysisError {
    /// A short human-readable name for the error kind.
    pub fn message(&self) -> (r: &'static str)
        ensures
            r@.len() > 0,
    {
        proof {
            reveal_strlit("format error");
            reveal_strlit("validation error");
            reveal_strlit("numeric overflow");
        }
        match self {
            AnalysisError::FormatError => "format error",
            AnalysisError::ValidationError => "validation error",
            AnalysisError::NumericOverflow => "numeric overflow",
        }
    }
}

} // verus!
