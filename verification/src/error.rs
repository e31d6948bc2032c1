//! The ways in which a generation attempt can fail.

use vstd::prelude::*;
use crate::tile::Variant;

verus! {

/// Why an operation on a grid failed.  None of these is recovered from
/// inside the solver: the caller discards the grid and may start afresh.
#[derive(Clone, Copy, Debug, PartialEq, Eq, Structural)]
pub enum WfcError {
    /// Narrowing the neighbour at (`row`, `col`) to what `variant` permits
    /// beside it would have left that neighbour without a candidate.
    Contradiction { row: usize, col: usize, variant: Variant },
    /// Every candidate of the cell at (`row`, `col`) fails the lookahead
    /// along one of the four rays.
    NoFeasibleVariant { row: usize, col: usize },
    /// A cell was asked for on a grid whose cells are all collapsed.
    NoCandidateCell,
}

} // verus!
