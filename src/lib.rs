use vstd::prelude::*;

pub mod cell;
pub mod grid;
pub mod search;
pub mod shortest;

verus! {

/// Why a maze could not be solved.
#[derive(Clone, Copy, Debug, PartialEq, Eq, Structural)]
pub enum SolveError {
    /// The maze text could not be read.
    IoError,
    /// The maze text is empty, not rectangular, or has fewer than two openings.
    ParseError,
    /// No route leads from the entrance to the exit.
    NoPathFound,
    /// The parent links do not lead back to the entrance. `solve` never
    /// returns it: the links are proved to reach the entrance.
    IncompletePathError,
}

} // verus!
