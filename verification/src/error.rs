//! What can go wrong in the analysis.
use vstd::prelude::*;

verus! {

/// An error of the analysis.
#[derive(Debug, Clone, PartialEq, Eq)]
pub enum DominoError {
    /// The file is not among the analyzed files.
    FileNotFound(String),
}

} // verus!
