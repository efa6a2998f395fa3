use vstd::prelude::*;

verus! {

/// A grid position: column `x`, row `y`.
#[derive(Clone, Copy, Debug, PartialEq, Eq, Structural, Hash)]
pub struct Coordinate {
    pub x: usize,
    pub y: usize,
}

/// What occupies a grid position.
#[derive(Clone, Copy, Debug, PartialEq, Eq, Structural, Hash)]
pub enum CellType {
    Entrance,
    Exit,
    Wall,
    Path,
}

/// One grid position together with what the search knows of it.
#[derive(Clone, Copy, Debug, PartialEq, Eq, Structural, Hash)]
pub struct Cell {
    pub cell_type: CellType,
    pub coordinate: Coordinate,
    pub parent_coord: Coordinate,
    pub manhattan_from_exit: usize,
    pub cost: usize,
}

impl Cell {
    /// A cell that the search has not reached yet: no parent (the sentinel
    /// `(0, 0)`), cost and estimate both zero.
    pub fn new(coordinate: Coordinate, cell_type: CellType) -> (c: Cell)
        ensures
            c.cell_type == cell_type,
            c.coordinate == coordinate,
            c.parent_coord == (Coordinate { x: 0, y: 0 }),
            c.manhattan_from_exit == 0,
            c.cost == 0,
    {
        Cell {
            cell_type,
            coordinate,
            parent_coord: Coordinate { x: 0, y: 0 },
            manhattan_from_exit: 0,
            cost: 0,
        }
    }
}

} // verus!
