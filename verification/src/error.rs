//! The ways in which the library refuses an input.

use vstd::prelude::*;

verus! {

/// Why a centrality computation gave no result.
#[derive(Debug, Clone, Copy, PartialEq, Eq)]
pub enum CentralityError {
    /// The input could not be read as a table of records.
    InputUnavailable,
    /// Some node has more shortest paths from a source than a count can
    /// hold.
    PathCountOverflow,
    /// A ranking of the best three nodes was asked of fewer than three.
    InsufficientNodes,
}

} // verus!
