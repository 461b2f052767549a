use vstd::prelude::*;

verus! {

/// Side length of the square board.
pub const BOARD_SIZE: usize = 19;

/// Number of cells on the board; grids are stored row-major, so the cell
/// at column `x` and row `y` lives at flat index `x * BOARD_SIZE + y`.
pub const CELL_COUNT: usize = BOARD_SIZE * BOARD_SIZE;

} // verus!
