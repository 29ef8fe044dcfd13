//! Rules engine of a falling-block puzzle game.
//!
//! The library owns the playing grid, the active piece's geometry and legal
//! motions, collision detection, line clearing, and the loss condition.
//! Rendering pixels, window management, input handling and timing are thin
//! adapters around this engine and live outside it.

use vstd::prelude::*;

pub mod board;
pub mod piece;
pub mod render;

verus! {

/// Number of columns of the grid, border columns included.
pub const BOARD_WIDTH: usize = 12;

/// Number of rows of the grid, border row included.
pub const BOARD_HEIGHT: usize = 25;

/// Cell color meaning "empty".
pub const BLANK: u32 = 0;

/// Color painted on the permanent border cells.
pub const BORDER_COLOR: u32 = 0xffffff;

/// The playable row whose occupation means the game is lost.
pub const DOOM_ROW: usize = 1;

/// A cell coordinate: `x` is the column, `y` the row, growing downward.
#[derive(Clone, Copy, PartialEq, Eq, Structural, Debug)]
pub struct Block {
    pub x: usize,
    pub y: usize,
}

/// True when `(x, y)` lies inside the grid, border cells included.
pub open spec fn in_board(x: int, y: int) -> bool {
    &&& 0 <= x < BOARD_WIDTH
    &&& 0 <= y < BOARD_HEIGHT
}

/// True when `(x, y)` is a permanent border cell.
pub open spec fn is_border(x: int, y: int) -> bool {
    &&& in_board(x, y)
    &&& (x == 0 || x == BOARD_WIDTH - 1 || y == BOARD_HEIGHT - 1)
}

/// True when `(x, y)` lies in the open playable region between the borders.
pub open spec fn playable(x: int, y: int) -> bool {
    &&& 1 <= x <= BOARD_WIDTH - 2
    &&& 0 <= y <= BOARD_HEIGHT - 2
}

} // verus!


