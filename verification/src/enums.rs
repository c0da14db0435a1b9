use vstd::prelude::*;

verus! {

/// Selects one of the three group kinds that a square belongs to.
#[derive(Clone, Copy, Debug, PartialEq, Eq, Structural)]
pub enum Container {
    ABOX,
    LINE,
    COLUMN,
}

/// Distinguishes a committed assignment from a speculative guess.
/// Only a guess is recorded in the square's `history`.
#[derive(Clone, Copy, Debug, PartialEq, Eq, Structural)]
pub enum SetKind {
    NORMAL,
    GUESS,
}

/// Diagnostic counters reported together with a terminal outcome.
#[derive(Clone, Copy, Debug, PartialEq, Eq, Structural)]
pub struct Summary {
    pub iterations: i32,
    pub snapshots_taken: usize,
    pub snapshot_rollbacks: usize,
}

/// Outcome of one solver-loop pass.
#[derive(Clone, Copy, Debug, PartialEq, Eq, Structural)]
pub enum Progress {
    Solved(Summary),
    InProgress(i32),
    LimitReached(Summary),
}

/// An unrecoverable solver fault, reported instead of panicking.
#[derive(Clone, Copy, Debug, PartialEq, Eq, Structural)]
pub enum SolverError {
    /// A rollback was requested while no snapshot was stored: the search
    /// space is exhausted.
    EmptySnapshotStack,
    /// A group demanded a last-cell assignment but held no empty square:
    /// its `remaining` set was out of step with the squares.
    NoEmptyCell(Container, usize, usize),
    /// A square id outside the grid was looked up.
    NoSuchSquare(usize),
    /// A box id outside the grid was looked up.
    NoSuchBox(usize),
}

} // verus!
