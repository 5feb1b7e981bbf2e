//! What can go wrong with a poll.

use vstd::prelude::*;

verus! {

/// Why a poll could not be imported or tabulated.
#[derive(Debug, Clone, Copy, PartialEq, Eq, Structural)]
pub enum PollError {
    /// The data is not a table of comma-separated values.
    Unreadable,
    /// The header row does not name the candidates in square brackets.
    HeaderFormat,
    /// A row does not give every candidate a rank of its own between one and
    /// the number of candidates.
    InvalidBallot,
    /// No ballot ranks any candidate.
    InsufficientData,
}

} // verus!
