//! The ways in which a query fails.

use vstd::prelude::*;

verus! {

/// Why a query could not be answered. None of these is recovered from.
#[derive(Debug, PartialEq, Eq)]
pub enum Error {
    /// The formula text is malformed: no marker or more than one, a bad
    /// comparison operator, a number that cannot be read.
    Parse,
    /// The formula names a proposition that the labelling does not know.
    UnknownProposition(String),
    /// A probability bound lies outside the unit interval.
    InvalidProbabilityBound,
    /// The stopping threshold of the value iteration is not positive.
    InvalidMaxError,
    /// The weights that leave an action do not add up to one, or an edge
    /// does not fit the shape of a decision process.
    GraphInvariantViolation,
    /// The reachability graph may be infinite.
    PossiblyInfiniteReachability,
}

} // verus!
