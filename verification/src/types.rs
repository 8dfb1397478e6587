//! The output entities of the solving engine: placements, eliminations,
//! cause cells and solving steps.

use vstd::prelude::*;

verus! {

/// A cell to fill with a digit.
#[derive(Clone, Debug)]
pub struct Placement {
    /// Cell index, 0..81.
    pub index: usize,
    /// Digit, 1..=9.
    pub value: u8,
}

/// A candidate digit to clear from one cell.
#[derive(Clone, Debug)]
pub struct Elimination {
    /// Cell index, 0..81.
    pub index: usize,
    /// Digit, 1..=9.
    pub value: u8,
}

/// A cell (with the relevant candidate digits) used to justify a step; kept
/// only for human-readable explanation.
#[derive(Clone, Debug)]
pub struct CauseCell {
    /// Cell index, 0..81.
    pub index: usize,
    /// The digits of this cell that take part in the pattern.
    pub candidates: Vec<u8>,
}

/// One deduction made by a technique finder: at most one placement, zero or
/// more eliminations, and the cells that justify them. Every step carries a
/// non-empty effect: a placement or at least one elimination.
#[derive(Clone, Debug)]
pub struct SolvingStep {
    /// Name of the technique that produced the step, from a closed vocabulary.
    pub technique: String,
    /// Zero or one cell to fill.
    pub placements: Vec<Placement>,
    /// Candidate bits to clear.
    pub eliminations: Vec<Elimination>,
    /// Cells justifying the step, for explanation only.
    pub cause: Vec<CauseCell>,
}

} // verus!
