use vstd::prelude::*;

verus! {

/// Why an operation on the board was refused.
#[derive(Debug, Copy, Clone, PartialEq, Eq, Structural)]
pub enum BoardError {
    /// A grid needs at least one row and one column.
    InvalidDimensions,
    /// More bombs were asked for than the grid has cells.
    TooManyMines,
    /// The cell is not covered: it was uncovered already, or lies off the grid.
    NotCovered,
    /// The game is won or lost; the board takes no more moves.
    GameOver,
}

} // verus!
