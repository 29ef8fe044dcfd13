//! The playing field: a fixed-size grid of cell colors with a permanent
//! border, row-completion detection and compaction, and the loss check.

use vstd::prelude::*;

use crate::BLANK;
use crate::BOARD_HEIGHT;
use crate::BOARD_WIDTH;
use crate::BORDER_COLOR;
use crate::Block;
use crate::DOOM_ROW;
use crate::in_board;
use crate::is_border;
use crate::piece::Shape;
use crate::playable;

verus! {

/// Index of cell `(x, y)` in the row-major cell sequence.
pub open spec fn cell_index(x: int, y: int) -> int {
    y * BOARD_WIDTH + x
}

/// Color of cell `(x, y)` in grid contents `g`.
pub open spec fn cell(g: Seq<u32>, x: int, y: int) -> u32 {
    g[cell_index(x, y)]
}

/// The grid holds exactly one color per cell.
pub open spec fn grid_dims(g: Seq<u32>) -> bool {
    g.len() == BOARD_WIDTH * BOARD_HEIGHT
}

/// Every border cell is occupied.
pub open spec fn borders_filled(g: Seq<u32>) -> bool {
    forall|x: int, y: int| is_border(x, y) ==> cell(g, x, y) != BLANK
}

/// Well-formed grid contents: right size, borders permanently occupied.
pub open spec fn grid_wf(g: Seq<u32>) -> bool {
    &&& grid_dims(g)
    &&& borders_filled(g)
}

/// Row `y` is full: every playable cell of the row is occupied.
pub open spec fn row_full(g: Seq<u32>, y: int) -> bool {
    forall|x: int| 1 <= x <= BOARD_WIDTH - 2 ==> cell(g, x, y) != BLANK
}

/// The grid after row `row` is removed: every playable cell of rows
/// `1..=row` takes the color of the cell directly above it; border cells
/// and rows below `row` keep their colors, and row 0 is left as it was.
pub open spec fn shift_down_through(g: Seq<u32>, row: int) -> Seq<u32> {
    Seq::new(
        g.len(),
        |i: int|
            if 1 <= i % (BOARD_WIDTH as int) <= BOARD_WIDTH - 2 && 1 <= i / (BOARD_WIDTH as int)
                <= row {
                g[i - BOARD_WIDTH]
            } else {
                g[i]
            },
    )
}

/// One top-to-bottom sweep of the playable rows starting at `row`: each row
/// found full is removed by shifting the stack above it down by one, and the
/// sweep continues on the updated grid. Returns the final grid and the count
/// of rows removed.
pub open spec fn clear_rows_from(g: Seq<u32>, row: int) -> (Seq<u32>, nat)
    decreases BOARD_HEIGHT - 1 - row,
{
    if row < 1 || row >= BOARD_HEIGHT - 1 {
        (g, 0)
    } else if row_full(g, row) {
        let rest = clear_rows_from(shift_down_through(g, row), row + 1);
        (rest.0, (rest.1 + 1) as nat)
    } else {
        clear_rows_from(g, row + 1)
    }
}

/// The grid after the blocks in `blocks` are written with color `color`;
/// every other cell keeps its color.
pub open spec fn painted(g: Seq<u32>, blocks: Seq<(int, int)>, color: u32) -> Seq<u32> {
    Seq::new(
        g.len(),
        |i: int|
            if exists|k: int|
                0 <= k < blocks.len() && cell_index(#[trigger] blocks[k].0, blocks[k].1) == i {
                color
            } else {
                g[i]
            },
    )
}

/// Some playable cell of the doom row is occupied.
pub open spec fn doom_row_reached(g: Seq<u32>) -> bool {
    exists|x: int| 1 <= x <= BOARD_WIDTH - 2 && cell(g, x, DOOM_ROW as int) != BLANK
}

/// The playing field. The leftmost column, rightmost column and bottom row
/// are painted once at construction and never cleared by gameplay.
pub struct Board {
    data: Vec<u32>,
}

impl View for Board {
    type V = Seq<u32>;

    closed spec fn view(&self) -> Seq<u32> {
        self.data@
    }
}

impl Default for Board {
    /// A fresh board, as `Board::new` builds it.
    fn default() -> (board: Board)
        ensures
            board.wf(),
            forall|x: int, y: int|
                in_board(x, y) ==> #[trigger] cell(board@, x, y) == if is_border(x, y) {
                    BORDER_COLOR
                } else {
                    BLANK
                },
    {
        Board::new()
    }
}

/// `cell_index` maps distinct in-board coordinates to distinct indices,
/// each of them in range.
pub proof fn lemma_cell_index_bounds(x: int, y: int)
    requires
        in_board(x, y),
    ensures
        0 <= cell_index(x, y) < BOARD_WIDTH * BOARD_HEIGHT,
        cell_index(x, y) % (BOARD_WIDTH as int) == x,
        cell_index(x, y) / (BOARD_WIDTH as int) == y,
{
    vstd::arithmetic::div_mod::lemma_fundamental_div_mod_converse(
        cell_index(x, y),
        BOARD_WIDTH as int,
        y,
        x,
    );
}

/// Every in-range index is `cell_index(x, y)` for exactly one in-board cell.
pub proof fn lemma_cell_index_decompose(i: int)
    requires
        0 <= i < BOARD_WIDTH * BOARD_HEIGHT,
    ensures
        in_board(i % (BOARD_WIDTH as int), i / (BOARD_WIDTH as int)),
        cell_index(i % (BOARD_WIDTH as int), i / (BOARD_WIDTH as int)) == i,
{
    vstd::arithmetic::div_mod::lemma_fundamental_div_mod(i, BOARD_WIDTH as int);
}

/// Painting blocks that all lie in the playable region never touches a
/// border cell, so a well-formed grid stays well-formed.
pub proof fn lemma_paint_preserves_wf(g: Seq<u32>, blocks: Seq<(int, int)>, color: u32)
    requires
        grid_wf(g),
        forall|k: int| 0 <= k < blocks.len() ==> playable(#[trigger] blocks[k].0, blocks[k].1),
    ensures
        grid_wf(painted(g, blocks, color)),
{
    let p = painted(g, blocks, color);
    assert forall|x: int, y: int| is_border(x, y) implies cell(p, x, y) != BLANK by {
        lemma_cell_index_bounds(x, y);
        if exists|k: int|
            0 <= k < blocks.len() && cell_index(#[trigger] blocks[k].0, blocks[k].1) == cell_index(
                x,
                y,
            ) {
            let k = choose|k: int|
                0 <= k < blocks.len() && cell_index(
                    #[trigger] blocks[k].0,
                    blocks[k].1,
                ) == cell_index(x, y);
            lemma_cell_index_bounds(blocks[k].0, blocks[k].1);
        }
    }
}

/// Removing a row only rewrites playable cells, so a well-formed grid stays
/// well-formed.
pub proof fn lemma_shift_preserves_wf(g: Seq<u32>, row: int)
    requires
        grid_wf(g),
        1 <= row <= BOARD_HEIGHT - 2,
    ensures
        grid_wf(shift_down_through(g, row)),
{
    let s = shift_down_through(g, row);
    assert forall|x: int, y: int| is_border(x, y) implies cell(s, x, y) != BLANK by {
        lemma_cell_index_bounds(x, y);
    }
}

/// Removing a row touches nothing beneath it and no border cell.
pub proof fn lemma_shift_leaves_rest(g: Seq<u32>, row: int)
    requires
        grid_dims(g),
        1 <= row <= BOARD_HEIGHT - 2,
    ensures
        forall|x: int, y: int|
            in_board(x, y) && y > row ==> cell(shift_down_through(g, row), x, y) == cell(g, x, y),
        forall|x: int, y: int|
            is_border(x, y) ==> cell(shift_down_through(g, row), x, y) == cell(g, x, y),
{
    assert forall|x: int, y: int| in_board(x, y) && y > row implies cell(
        shift_down_through(g, row),
        x,
        y,
    ) == cell(g, x, y) by {
        lemma_cell_index_bounds(x, y);
    }
    assert forall|x: int, y: int| is_border(x, y) implies cell(shift_down_through(g, row), x, y)
        == cell(g, x, y) by {
        lemma_cell_index_bounds(x, y);
    }
}

/// A sweep that meets no full row removes nothing and leaves the grid as it
/// was.
pub proof fn lemma_clear_none(g: Seq<u32>, row: int)
    requires
        forall|y: int| row <= y <= BOARD_HEIGHT - 2 ==> !row_full(g, y),
    ensures
        clear_rows_from(g, row).0 == g,
        clear_rows_from(g, row).1 == 0,
    decreases BOARD_HEIGHT - 1 - row,
{
    if row < 1 || row >= BOARD_HEIGHT - 1 {
    } else {
        lemma_clear_none(g, row + 1);
    }
}

/// A sweep starting at `row` passes unchanged over rows known not to be
/// full, up to `stop`.
pub proof fn lemma_clear_skip(g: Seq<u32>, row: int, stop: int)
    requires
        1 <= row <= stop <= BOARD_HEIGHT - 2,
        forall|y: int| row <= y < stop ==> !row_full(g, y),
    ensures
        clear_rows_from(g, row) == clear_rows_from(g, stop),
    decreases stop - row,
{
    if row == stop {
    } else {
        lemma_clear_skip(g, row + 1, stop);
    }
}

/// Law: when exactly one playable row is full, a single sweep removes
/// exactly that row — it reports one row cleared, the stack above the row
/// moves down by one, everything beneath the row keeps its cells, and no
/// border cell changes.
pub proof fn lemma_single_full_row(g: Seq<u32>, y0: int)
    requires
        grid_dims(g),
        1 <= y0 <= BOARD_HEIGHT - 2,
        row_full(g, y0),
        forall|y: int| 1 <= y <= BOARD_HEIGHT - 2 && y != y0 ==> !row_full(g, y),
    ensures
        clear_rows_from(g, 1).0 == shift_down_through(g, y0),
        clear_rows_from(g, 1).1 == 1,
        forall|x: int, y: int|
            1 <= x <= BOARD_WIDTH - 2 && 1 <= y <= y0 ==> cell(clear_rows_from(g, 1).0, x, y)
                == cell(g, x, y - 1),
        forall|x: int, y: int|
            in_board(x, y) && y > y0 ==> cell(clear_rows_from(g, 1).0, x, y) == cell(g, x, y),
        forall|x: int, y: int|
            is_border(x, y) ==> cell(clear_rows_from(g, 1).0, x, y) == cell(g, x, y),
{
    lemma_clear_skip(g, 1, y0);
    let s = shift_down_through(g, y0);
    lemma_shift_leaves_rest(g, y0);
    assert forall|x: int, y: int| 1 <= x <= BOARD_WIDTH - 2 && 1 <= y <= y0 implies cell(
        s,
        x,
        y,
    ) == cell(g, x, y - 1) by {
        lemma_cell_index_bounds(x, y);
    }
    assert forall|y: int| y0 + 1 <= y <= BOARD_HEIGHT - 2 implies !row_full(s, y) by {
        assert(!row_full(g, y));
        if row_full(s, y) {
            assert forall|x: int| 1 <= x <= BOARD_WIDTH - 2 implies cell(g, x, y) != BLANK by {
                assert(cell(s, x, y) != BLANK);
            }
        }
    }
    lemma_clear_none(s, y0 + 1);
}

/// Law: when exactly two playable rows are full at once, a single sweep
/// reports two rows cleared, and the result is the grid with the upper full
/// row removed first and the lower full row removed from the already
/// compacted grid; no border cell changes.
pub proof fn lemma_two_full_rows(g: Seq<u32>, y0: int, y1: int)
    requires
        grid_dims(g),
        1 <= y0 < y1 <= BOARD_HEIGHT - 2,
        row_full(g, y0),
        row_full(g, y1),
        forall|y: int| 1 <= y <= BOARD_HEIGHT - 2 && y != y0 && y != y1 ==> !row_full(g, y),
    ensures
        clear_rows_from(g, 1).0 == shift_down_through(shift_down_through(g, y0), y1),
        clear_rows_from(g, 1).1 == 2,
        forall|x: int, y: int|
            is_border(x, y) ==> cell(clear_rows_from(g, 1).0, x, y) == cell(g, x, y),
{
    lemma_clear_skip(g, 1, y0);
    let s0 = shift_down_through(g, y0);
    lemma_shift_leaves_rest(g, y0);
    assert forall|y: int| y0 < y <= BOARD_HEIGHT - 2 implies row_full(s0, y) == row_full(
        g,
        y,
    ) by {
        assert forall|x: int| 1 <= x <= BOARD_WIDTH - 2 implies cell(s0, x, y) == cell(g, x, y) by {
            lemma_cell_index_bounds(x, y);
        }
        if row_full(s0, y) {
            assert forall|x: int| 1 <= x <= BOARD_WIDTH - 2 implies cell(g, x, y) != BLANK by {
                assert(cell(s0, x, y) != BLANK);
            }
        }
        if row_full(g, y) {
            assert forall|x: int| 1 <= x <= BOARD_WIDTH - 2 implies cell(s0, x, y) != BLANK by {
                assert(cell(g, x, y) != BLANK);
            }
        }
    }
    lemma_clear_skip(s0, y0 + 1, y1);
    let s1 = shift_down_through(s0, y1);
    lemma_shift_leaves_rest(s0, y1);
    assert forall|y: int| y1 + 1 <= y <= BOARD_HEIGHT - 2 implies !row_full(s1, y) by {
        assert(!row_full(g, y));
        assert(!row_full(s0, y));
        if row_full(s1, y) {
            assert forall|x: int| 1 <= x <= BOARD_WIDTH - 2 implies cell(s0, x, y) != BLANK by {
                assert(cell(s1, x, y) != BLANK);
            }
        }
    }
    lemma_clear_none(s1, y1 + 1);
}

/// Law: absorbing one piece whose written blocks leave exactly two full
/// playable rows `r1 < r2` clears both in the single sweep that `emplace`
/// runs. The sweep reports 2; the result is the painted grid with row `r1`
/// removed first and row `r2` removed from the already compacted grid; rows
/// beneath `r2` and every border cell keep their colors; rows strictly
/// between the two full rows move down by one and rows above `r1` by two;
/// and — provided the top row was blank and the piece put no block there —
/// the two topmost playable rows end blank. Without that proviso a block
/// locked in the top row would survive the sweep, since the sweep never
/// clears the top row itself.
pub proof fn lemma_absorb_two_rows(
    g: Seq<u32>,
    blocks: Seq<(int, int)>,
    color: u32,
    r1: int,
    r2: int,
)
    requires
        grid_wf(g),
        forall|k: int| 0 <= k < blocks.len() ==> playable(#[trigger] blocks[k].0, blocks[k].1),
        forall|k: int| 0 <= k < blocks.len() ==> (#[trigger] blocks[k]).1 >= 1,
        forall|x: int| 1 <= x <= BOARD_WIDTH - 2 ==> cell(g, x, 0) == BLANK,
        1 <= r1 < r2 <= BOARD_HEIGHT - 2,
        row_full(painted(g, blocks, color), r1),
        row_full(painted(g, blocks, color), r2),
        forall|y: int|
            1 <= y <= BOARD_HEIGHT - 2 && y != r1 && y != r2 ==> !row_full(
                painted(g, blocks, color),
                y,
            ),
    ensures
        ({
            let p = painted(g, blocks, color);
            let swept = clear_rows_from(p, 1);
            &&& swept.1 == 2
            &&& swept.0 == shift_down_through(shift_down_through(p, r1), r2)
            &&& forall|x: int, y: int|
                is_border(x, y) ==> #[trigger] cell(swept.0, x, y) == cell(g, x, y)
            &&& forall|x: int, y: int|
                1 <= x <= BOARD_WIDTH - 2 && r2 < y <= BOARD_HEIGHT - 2 ==> #[trigger] cell(
                    swept.0,
                    x,
                    y,
                ) == cell(p, x, y)
            &&& forall|x: int, y: int|
                1 <= x <= BOARD_WIDTH - 2 && r1 + 1 < y <= r2 ==> #[trigger] cell(swept.0, x, y)
                    == cell(p, x, y - 1)
            &&& forall|x: int, y: int|
                1 <= x <= BOARD_WIDTH - 2 && 2 <= y <= r1 + 1 ==> #[trigger] cell(swept.0, x, y)
                    == cell(p, x, y - 2)
            &&& forall|x: int|
                1 <= x <= BOARD_WIDTH - 2 ==> #[trigger] cell(swept.0, x, 0) == BLANK && cell(
                    swept.0,
                    x,
                    1,
                ) == BLANK
        }),
{
    let p = painted(g, blocks, color);
    let s1 = shift_down_through(p, r1);
    let s2 = shift_down_through(s1, r2);
    lemma_paint_preserves_wf(g, blocks, color);
    lemma_two_full_rows(p, r1, r2);
    lemma_shift_leaves_rest(p, r1);
    lemma_shift_leaves_rest(s1, r2);

    // Painting touches no border cell and, with no block in the top row,
    // no cell of the top row either.
    assert forall|x: int, y: int| is_border(x, y) implies cell(p, x, y) == cell(g, x, y) by {
        lemma_cell_index_bounds(x, y);
        if exists|k: int|
            0 <= k < blocks.len() && cell_index(#[trigger] blocks[k].0, blocks[k].1) == cell_index(
                x,
                y,
            ) {
            let k = choose|k: int|
                0 <= k < blocks.len() && cell_index(
                    #[trigger] blocks[k].0,
                    blocks[k].1,
                ) == cell_index(x, y);
            lemma_cell_index_bounds(blocks[k].0, blocks[k].1);
        }
    }
    assert forall|x: int| 1 <= x <= BOARD_WIDTH - 2 implies cell(p, x, 0) == BLANK by {
        lemma_cell_index_bounds(x, 0);
        assert(cell(g, x, 0) == BLANK);
        if exists|k: int|
            0 <= k < blocks.len() && cell_index(#[trigger] blocks[k].0, blocks[k].1) == cell_index(
                x,
                0,
            ) {
            let k = choose|k: int|
                0 <= k < blocks.len() && cell_index(
                    #[trigger] blocks[k].0,
                    blocks[k].1,
                ) == cell_index(x, 0);
            lemma_cell_index_bounds(blocks[k].0, blocks[k].1);
        }
    }

    // One step of each shift, cell by cell.
    assert forall|x: int, y: int| 1 <= x <= BOARD_WIDTH - 2 && 0 <= y <= r2 implies cell(
        s2,
        x,
        y,
    ) == (if y >= 1 {
        cell(s1, x, y - 1)
    } else {
        cell(s1, x, y)
    }) by {
        lemma_cell_index_bounds(x, y);
    }
    assert forall|x: int, y: int| 1 <= x <= BOARD_WIDTH - 2 && 0 <= y <= r1 implies cell(
        s1,
        x,
        y,
    ) == (if y >= 1 {
        cell(p, x, y - 1)
    } else {
        cell(p, x, y)
    }) by {
        lemma_cell_index_bounds(x, y);
    }

    assert forall|x: int, y: int| is_border(x, y) implies #[trigger] cell(s2, x, y) == cell(
        g,
        x,
        y,
    ) by {
        assert(cell(s2, x, y) == cell(s1, x, y));
        assert(cell(s1, x, y) == cell(p, x, y));
    }
    assert forall|x: int, y: int|
        1 <= x <= BOARD_WIDTH - 2 && r2 < y <= BOARD_HEIGHT - 2 implies #[trigger] cell(s2, x, y)
        == cell(p, x, y) by {
        assert(in_board(x, y));
        assert(cell(s2, x, y) == cell(s1, x, y));
        assert(cell(s1, x, y) == cell(p, x, y));
    }
    assert forall|x: int, y: int|
        1 <= x <= BOARD_WIDTH - 2 && r1 + 1 < y <= r2 implies #[trigger] cell(s2, x, y) == cell(
        p,
        x,
        y - 1,
    ) by {
        assert(cell(s2, x, y) == cell(s1, x, y - 1));
        assert(in_board(x, y - 1) && y - 1 > r1);
        assert(cell(s1, x, y - 1) == cell(p, x, y - 1));
    }
    assert forall|x: int, y: int|
        1 <= x <= BOARD_WIDTH - 2 && 2 <= y <= r1 + 1 implies #[trigger] cell(s2, x, y) == cell(
        p,
        x,
        y - 2,
    ) by {
        assert(cell(s2, x, y) == cell(s1, x, y - 1));
        assert(cell(s1, x, y - 1) == cell(p, x, y - 2));
    }
    assert forall|x: int| 1 <= x <= BOARD_WIDTH - 2 implies #[trigger] cell(s2, x, 0) == BLANK
        && cell(s2, x, 1) == BLANK by {
        assert(cell(s2, x, 0) == cell(s1, x, 0));
        assert(cell(s1, x, 0) == cell(p, x, 0));
        assert(cell(s2, x, 1) == cell(s1, x, 0));
    }
}

impl Board {
    /// Well-formed board: one color per cell and occupied borders.
    pub open spec fn wf(self) -> bool {
        grid_wf(self@)
    }

    /// A fresh board: interior blank, borders painted.
    pub fn new() -> (board: Board)
        ensures
            board.wf(),
            forall|x: int, y: int|
                in_board(x, y) ==> #[trigger] cell(board@, x, y) == if is_border(x, y) {
                    BORDER_COLOR
                } else {
                    BLANK
                },
    {
        let mut data: Vec<u32> = vec![BLANK; BOARD_WIDTH * BOARD_HEIGHT];
        let mut y: usize = 0;
        while y < BOARD_HEIGHT
            invariant
                y <= BOARD_HEIGHT,
                data@.len() == BOARD_WIDTH * BOARD_HEIGHT,
                forall|xx: int, yy: int|
                    in_board(xx, yy) ==> cell(data@, xx, yy) == if (xx == 0 || xx == BOARD_WIDTH
                        - 1) && yy < y {
                        BORDER_COLOR
                    } else {
                        BLANK
                    },
            decreases BOARD_HEIGHT - y,
        {
            proof {
                lemma_cell_index_bounds(0, y as int);
                lemma_cell_index_bounds(BOARD_WIDTH - 1, y as int);
            }
            let ghost prev = data@;
            data[y * BOARD_WIDTH] = BORDER_COLOR;
            data[y * BOARD_WIDTH + (BOARD_WIDTH - 1)] = BORDER_COLOR;
            proof {
                assert forall|xx: int, yy: int| in_board(xx, yy) implies cell(data@, xx, yy) == (
                if (xx == 0 || xx == BOARD_WIDTH - 1) && yy < y + 1 {
                    BORDER_COLOR
                } else {
                    BLANK
                }) by {
                    lemma_cell_index_bounds(xx, yy);
                }
            }
            y = y + 1;
        }
        let mut x: usize = 0;
        while x < BOARD_WIDTH
            invariant
                x <= BOARD_WIDTH,
                data@.len() == BOARD_WIDTH * BOARD_HEIGHT,
                forall|xx: int, yy: int|
                    in_board(xx, yy) ==> cell(data@, xx, yy) == if (xx == 0 || xx == BOARD_WIDTH - 1
                        || (yy == BOARD_HEIGHT - 1 && xx < x)) {
                        BORDER_COLOR
                    } else {
                        BLANK
                    },
            decreases BOARD_WIDTH - x,
        {
            proof {
                lemma_cell_index_bounds(x as int, BOARD_HEIGHT - 1);
            }
            data[(BOARD_HEIGHT - 1) * BOARD_WIDTH + x] = BORDER_COLOR;
            proof {
                assert forall|xx: int, yy: int| in_board(xx, yy) implies cell(data@, xx, yy) == (
                if (xx == 0 || xx == BOARD_WIDTH - 1 || (yy == BOARD_HEIGHT - 1 && xx < x + 1)) {
                    BORDER_COLOR
                } else {
                    BLANK
                }) by {
                    lemma_cell_index_bounds(xx, yy);
                }
            }
            x = x + 1;
        }
        let board = Board { data };
        proof {
            assert forall|xx: int, yy: int| is_border(xx, yy) implies cell(board@, xx, yy)
                != BLANK by {
                lemma_cell_index_bounds(xx, yy);
            }
        }
        board
    }

    /// Color stored at cell `(x, y)`.
    pub fn color_at(&self, x: usize, y: usize) -> (color: u32)
        requires
            grid_dims(self@),
            x < BOARD_WIDTH,
            y < BOARD_HEIGHT,
        ensures
            color == cell(self@, x as int, y as int),
    {
        proof {
            lemma_cell_index_bounds(x as int, y as int);
        }
        self.data[y * BOARD_WIDTH + x]
    }

    /// Cell `(x, y)` holds something other than `BLANK`.
    pub fn is_filled(&self, x: usize, y: usize) -> (filled: bool)
        requires
            grid_dims(self@),
            x < BOARD_WIDTH,
            y < BOARD_HEIGHT,
        ensures
            filled == (cell(self@, x as int, y as int) != BLANK),
    {
        self.color_at(x, y) != BLANK
    }

    /// A live piece may occupy `block`: the cell lies in the playable column
    /// range, does not fall off the bottom, and is not occupied.
    pub open spec fn spec_valid_move(self, x: int, y: int) -> bool {
        &&& 1 <= x <= BOARD_WIDTH - 2
        &&& 0 <= y < BOARD_HEIGHT
        &&& cell(self@, x, y) == BLANK
    }

    /// Legality check used by rotation.
    pub fn valid_move(&self, block: &Block) -> (ok: bool)
        requires
            grid_dims(self@),
        ensures
            ok == self.spec_valid_move(block.x as int, block.y as int),
    {
        if block.x < 1 || block.x >= BOARD_WIDTH - 1 {
            false
        } else if block.y >= BOARD_HEIGHT {
            false
        } else {
            !self.is_filled(block.x, block.y)
        }
    }

    /// Unconditional write of one cell.
    pub fn set_block(&mut self, b: &Block, val: u32)
        requires
            grid_dims(old(self)@),
            in_board(b.x as int, b.y as int),
        ensures
            final(self)@ == old(self)@.update(cell_index(b.x as int, b.y as int), val),
    {
        proof {
            lemma_cell_index_bounds(b.x as int, b.y as int);
        }
        self.data[b.y * BOARD_WIDTH + b.x] = val;
    }

    /// Every playable cell of row `y` is occupied.
    fn row_is_full(&self, y: usize) -> (full: bool)
        requires
            grid_dims(self@),
            y < BOARD_HEIGHT,
        ensures
            full == row_full(self@, y as int),
    {
        let mut x: usize = 1;
        while x < BOARD_WIDTH - 1
            invariant
                1 <= x <= BOARD_WIDTH - 1,
                grid_dims(self@),
                y < BOARD_HEIGHT,
                forall|xx: int| 1 <= xx < x ==> cell(self@, xx, y as int) != BLANK,
            decreases BOARD_WIDTH - 1 - x,
        {
            if !self.is_filled(x, y) {
                return false;
            }
            x = x + 1;
        }
        true
    }

    /// Remove row `row`: shift every playable cell of rows `1..=row` down
    /// from the cell directly above it.
    fn shift_rows_down(&mut self, row: usize)
        requires
            grid_dims(old(self)@),
            1 <= row <= BOARD_HEIGHT - 2,
        ensures
            final(self)@ == shift_down_through(old(self)@, row as int),
    {
        let ghost orig = self@;
        let mut y: usize = row;
        while y >= 1
            invariant
                y <= row,
                row <= BOARD_HEIGHT - 2,
                grid_dims(self@),
                forall|xx: int, yy: int|
                    in_board(xx, yy) ==> #[trigger] cell(self@, xx, yy) == if 1 <= xx
                        <= BOARD_WIDTH - 2 && y < yy <= row {
                        cell(orig, xx, yy - 1)
                    } else {
                        cell(orig, xx, yy)
                    },
            decreases y,
        {
            let mut x: usize = 1;
            while x < BOARD_WIDTH - 1
                invariant
                    1 <= x <= BOARD_WIDTH - 1,
                    1 <= y <= row,
                    row <= BOARD_HEIGHT - 2,
                    grid_dims(self@),
                    forall|xx: int, yy: int|
                        in_board(xx, yy) ==> #[trigger] cell(self@, xx, yy) == if 1 <= xx
                            <= BOARD_WIDTH - 2 && (y < yy <= row || (yy == y && xx < x)) {
                            cell(orig, xx, yy - 1)
                        } else {
                            cell(orig, xx, yy)
                        },
                decreases BOARD_WIDTH - 1 - x,
            {
                let color = self.color_at(x, y - 1);
                let ghost prev = self@;
                self.set_block(&Block { x, y }, color);
                proof {
                    lemma_cell_index_bounds(x as int, y as int);
                    assert forall|xx: int, yy: int| in_board(xx, yy) implies #[trigger] cell(
                        self@,
                        xx,
                        yy,
                    ) == (if 1 <= xx <= BOARD_WIDTH - 2 && (y < yy <= row || (yy == y && xx < x
                        + 1)) {
                        cell(orig, xx, yy - 1)
                    } else {
                        cell(orig, xx, yy)
                    }) by {
                        lemma_cell_index_bounds(xx, yy);
                        if xx == x && yy == y {
                            assert(cell(self@, xx, yy) == color);
                        } else {
                            assert(cell_index(xx, yy) != cell_index(x as int, y as int));
                            assert(cell(self@, xx, yy) == cell(prev, xx, yy));
                        }
                    }
                }
                x = x + 1;
            }
            y = y - 1;
        }
        proof {
            let s = shift_down_through(orig, row as int);
            assert forall|i: int| 0 <= i < self@.len() implies self@[i] == s[i] by {
                lemma_cell_index_decompose(i);
                let xx = i % (BOARD_WIDTH as int);
                let yy = i / (BOARD_WIDTH as int);
                assert(cell(self@, xx, yy) == self@[i]);
            }
            assert(self@ =~= s);
        }
    }

    /// Sweep the playable rows top to bottom; remove each full row by
    /// shifting the stack above it down by one, counting against the grid as
    /// already compacted by the earlier removals of the same sweep. Returns
    /// how many rows were removed.
    pub fn check_rows(&mut self) -> (removed: u32)
        requires
            old(self).wf(),
        ensures
            final(self)@ == clear_rows_from(old(self)@, 1).0,
            removed as nat == clear_rows_from(old(self)@, 1).1,
            final(self).wf(),
    {
        let ghost orig = self@;
        let mut removed: u32 = 0;
        let mut row: usize = 1;
        while row < BOARD_HEIGHT - 1
            invariant
                1 <= row <= BOARD_HEIGHT - 1,
                removed <= row,
                grid_wf(self@),
                clear_rows_from(self@, row as int).0 == clear_rows_from(orig, 1).0,
                clear_rows_from(self@, row as int).1 + removed == clear_rows_from(orig, 1).1,
            decreases BOARD_HEIGHT - 1 - row,
        {
            if self.row_is_full(row) {
                let ghost pre = self@;
                self.shift_rows_down(row);
                removed = removed + 1;
                proof {
                    lemma_shift_preserves_wf(pre, row as int);
                    assert(clear_rows_from(pre, row as int).0 == clear_rows_from(
                        self@,
                        row as int + 1,
                    ).0);
                }
            } else {
                proof {
                    assert(clear_rows_from(self@, row as int).0 == clear_rows_from(
                        self@,
                        row as int + 1,
                    ).0);
                }
            }
            row = row + 1;
        }
        removed
    }

    /// Write every block of `shape` into the grid with the piece's color,
    /// then clear any rows the piece completed. Returns the number of rows
    /// cleared.
    pub fn emplace(&mut self, shape: &Shape) -> (cleared: u32)
        requires
            old(self).wf(),
            shape.wf(),
        ensures
            final(self)@ == clear_rows_from(
                painted(old(self)@, shape.blocks_spec(), shape.color),
                1,
            ).0,
            cleared as nat == clear_rows_from(
                painted(old(self)@, shape.blocks_spec(), shape.color),
                1,
            ).1,
            final(self).wf(),
    {
        let ghost orig = self@;
        let ghost bs = shape.blocks_spec();
        let mut k: usize = 0;
        while k < shape.blocks.len()
            invariant
                k <= 4,
                shape.wf(),
                bs == shape.blocks_spec(),
                grid_dims(self@),
                self@ == painted(orig, bs.take(k as int), shape.color),
                grid_dims(orig),
            decreases shape.blocks.len() - k,
        {
            let b = shape.blocks[k];
            proof {
                assert(playable(shape.blocks_spec()[k as int].0, shape.blocks_spec()[k as int].1));
                assert(bs[k as int] == (b.x as int, b.y as int));
                lemma_cell_index_bounds(b.x as int, b.y as int);
            }
            let ghost prev = self@;
            self.set_block(&b, shape.color);
            proof {
                let kk = k as int;
                let ci_b = cell_index(b.x as int, b.y as int);
                assert(bs.take(kk + 1)[kk] == bs[kk]);
                assert forall|i: int| 0 <= i < self@.len() implies self@[i] == painted(
                    orig,
                    bs.take(kk + 1),
                    shape.color,
                )[i] by {
                    if i == ci_b {
                        assert(cell_index(bs.take(kk + 1)[kk].0, bs.take(kk + 1)[kk].1) == i);
                    } else {
                        if exists|j: int|
                            0 <= j < kk && cell_index(
                                #[trigger] bs.take(kk)[j].0,
                                bs.take(kk)[j].1,
                            ) == i {
                            let j = choose|j: int|
                                0 <= j < kk && cell_index(
                                    #[trigger] bs.take(kk)[j].0,
                                    bs.take(kk)[j].1,
                                ) == i;
                            assert(bs.take(kk + 1)[j] == bs.take(kk)[j]);
                            assert(cell_index(bs.take(kk + 1)[j].0, bs.take(kk + 1)[j].1) == i);
                        } else {
                            assert forall|j: int| 0 <= j < kk + 1 implies cell_index(
                                #[trigger] bs.take(kk + 1)[j].0,
                                bs.take(kk + 1)[j].1,
                            ) != i by {
                                if j < kk {
                                    assert(bs.take(kk)[j] == bs.take(kk + 1)[j]);
                                    assert(cell_index(bs.take(kk)[j].0, bs.take(kk)[j].1) != i);
                                }
                            }
                        }
                    }
                }
                assert(self@ =~= painted(orig, bs.take(kk + 1), shape.color));
            }
            k = k + 1;
        }
        proof {
            assert(bs.take(4) =~= bs);
            lemma_paint_preserves_wf(orig, bs, shape.color);
        }
        self.check_rows()
    }

    /// The player has lost: some playable cell of the doom row is occupied.
    pub fn is_dead(&self) -> (dead: bool)
        requires
            grid_dims(self@),
        ensures
            dead == doom_row_reached(self@),
    {
        let mut x: usize = 1;
        while x < BOARD_WIDTH - 1
            invariant
                1 <= x <= BOARD_WIDTH - 1,
                grid_dims(self@),
                forall|xx: int| 1 <= xx < x ==> cell(self@, xx, DOOM_ROW as int) == BLANK,
            decreases BOARD_WIDTH - 1 - x,
        {
            if self.is_filled(x, DOOM_ROW) {
                return true;
            }
            x = x + 1;
        }
        false
    }
}

} // verus!
