//! The ways in which the library fails.

use vstd::prelude::*;
use crate::collation::VariableWeighting;
use crate::helpers::DecodeErr;

verus! {

/// Why an operation could not be carried out.
#[derive(Debug, PartialEq, Eq, Clone, Copy)]
pub enum TextError {
    /// Ill-formed input: what is wrong, and the offset at which it starts.
    Codec(DecodeErr, usize),
    /// The property tables could not be read or do not fit together.
    ResourceUnavailable,
    /// A variable-weighting mode that is not provided.
    Unsupported(VariableWeighting),
}

} // verus!
