//! Drawing the grid and the active piece into a pixel framebuffer. The
//! buffer itself is a plain vector of pixel colors; putting it on a screen
//! is the driver's business.

use vstd::prelude::*;

use crate::BOARD_HEIGHT;
use crate::BOARD_WIDTH;
use crate::board::Board;
use crate::board::cell;
use crate::board::grid_dims;
use crate::piece::Shape;
use crate::playable;

verus! {

/// Side length, in pixels, of the square drawn for one cell.
pub const SQUARE_SIZE: usize = 30;

/// Width of the rendered picture in pixels.
pub const WINDOW_WIDTH: usize = BOARD_WIDTH * SQUARE_SIZE;

/// Height of the rendered picture in pixels.
pub const WINDOW_HEIGHT: usize = BOARD_HEIGHT * SQUARE_SIZE;

/// Color of pixel `(px, py)` in framebuffer contents `fb`.
pub open spec fn pixel(fb: Seq<u32>, px: int, py: int) -> u32 {
    fb[py * WINDOW_WIDTH + px]
}

/// The piece has a block on cell `(x, y)`.
pub open spec fn shape_covers(blocks: Seq<(int, int)>, x: int, y: int) -> bool {
    exists|k: int| 0 <= k < blocks.len() && blocks[k] == (x, y)
}

/// Color owed to pixel `(px, py)`: the piece's color where the piece covers
/// the pixel's cell, the grid's color everywhere else.
pub open spec fn pixel_color(
    g: Seq<u32>,
    blocks: Seq<(int, int)>,
    shape_color: u32,
    px: int,
    py: int,
) -> u32 {
    let x = px / (SQUARE_SIZE as int);
    let y = py / (SQUARE_SIZE as int);
    if shape_covers(blocks, x, y) {
        shape_color
    } else {
        cell(g, x, y)
    }
}

/// A pixel index decomposes into its unique pixel coordinates.
proof fn lemma_pixel_index(px: int, py: int)
    requires
        0 <= px < WINDOW_WIDTH,
        0 <= py < WINDOW_HEIGHT,
    ensures
        0 <= py * WINDOW_WIDTH + px < WINDOW_WIDTH * WINDOW_HEIGHT,
        (py * WINDOW_WIDTH + px) % (WINDOW_WIDTH as int) == px,
        (py * WINDOW_WIDTH + px) / (WINDOW_WIDTH as int) == py,
{
    vstd::arithmetic::div_mod::lemma_fundamental_div_mod_converse(
        py * WINDOW_WIDTH + px,
        WINDOW_WIDTH as int,
        py,
        px,
    );
}

/// A pixel at offset `off` into the square of cell coordinate `c` lies in
/// that cell's square and in no other.
proof fn lemma_pixel_of_cell(p: int, c: int, off: int)
    requires
        0 <= off < SQUARE_SIZE,
        0 <= c,
        p == c * SQUARE_SIZE + off,
    ensures
        p / (SQUARE_SIZE as int) == c,
{
    vstd::arithmetic::div_mod::lemma_fundamental_div_mod_converse(p, SQUARE_SIZE as int, c, off);
}

/// A pixel coordinate below `n` cells' worth of pixels falls in a cell
/// coordinate below `n`, inside that cell's square of pixels.
proof fn lemma_cell_of_pixel(p: int, n: int)
    requires
        0 <= p,
        p < n * SQUARE_SIZE,
        0 <= n,
    ensures
        0 <= p / (SQUARE_SIZE as int) < n,
        p / (SQUARE_SIZE as int) * SQUARE_SIZE <= p < p / (SQUARE_SIZE as int) * SQUARE_SIZE
            + SQUARE_SIZE,
{
    let s = SQUARE_SIZE as int;
    let q = p / s;
    vstd::arithmetic::div_mod::lemma_remainder(p, s);
    assert(q * s <= p < q * s + s);
    assert(0 <= q < n) by (nonlinear_arith)
        requires
            q * s <= p < q * s + s,
            p < n * s,
            0 <= p,
            s == 30,
    ;
}

/// Fill the square of pixels belonging to cell `(x, y)` with one color.
/// Pixels past the rendered picture are left alone.
fn draw_block(buffer: &mut Vec<u32>, x: usize, y: usize, color: u32)
    requires
        old(buffer)@.len() >= WINDOW_WIDTH * WINDOW_HEIGHT,
        x < BOARD_WIDTH,
        y < BOARD_HEIGHT,
    ensures
        final(buffer)@.len() == old(buffer)@.len(),
        forall|px: int, py: int|
            0 <= px < WINDOW_WIDTH && 0 <= py < WINDOW_HEIGHT ==> #[trigger] pixel(
                final(buffer)@,
                px,
                py,
            ) == if px / (SQUARE_SIZE as int) == x && py / (SQUARE_SIZE as int) == y {
                color
            } else {
                pixel(old(buffer)@, px, py)
            },
        forall|i: int|
            WINDOW_WIDTH * WINDOW_HEIGHT <= i < final(buffer)@.len() ==> #[trigger] final(buffer)@[i]
                == old(buffer)@[i],
{
    let mut iy: usize = 0;
    while iy < SQUARE_SIZE
        invariant
            iy <= SQUARE_SIZE,
            x < BOARD_WIDTH,
            y < BOARD_HEIGHT,
            buffer@.len() == old(buffer)@.len(),
            old(buffer)@.len() >= WINDOW_WIDTH * WINDOW_HEIGHT,
            forall|px: int, py: int|
                0 <= px < WINDOW_WIDTH && 0 <= py < WINDOW_HEIGHT ==> #[trigger] pixel(
                    buffer@,
                    px,
                    py,
                ) == if px / (SQUARE_SIZE as int) == x && y * SQUARE_SIZE <= py < y * SQUARE_SIZE
                    + iy {
                    color
                } else {
                    pixel(old(buffer)@, px, py)
                },
            forall|i: int|
                WINDOW_WIDTH * WINDOW_HEIGHT <= i < buffer@.len() ==> #[trigger] buffer@[i] == old(
                    buffer,
                )@[i],
        decreases SQUARE_SIZE - iy,
    {
        let py = y * SQUARE_SIZE + iy;
        let mut ix: usize = 0;
        while ix < SQUARE_SIZE
            invariant
                ix <= SQUARE_SIZE,
                iy < SQUARE_SIZE,
                x < BOARD_WIDTH,
                y < BOARD_HEIGHT,
                py == y * SQUARE_SIZE + iy,
                buffer@.len() == old(buffer)@.len(),
                old(buffer)@.len() >= WINDOW_WIDTH * WINDOW_HEIGHT,
                forall|qx: int, qy: int|
                    0 <= qx < WINDOW_WIDTH && 0 <= qy < WINDOW_HEIGHT ==> #[trigger] pixel(
                        buffer@,
                        qx,
                        qy,
                    ) == if qx / (SQUARE_SIZE as int) == x && (y * SQUARE_SIZE <= qy < y
                        * SQUARE_SIZE + iy || (qy == py && x * SQUARE_SIZE <= qx < x * SQUARE_SIZE
                        + ix)) {
                        color
                    } else {
                        pixel(old(buffer)@, qx, qy)
                    },
                forall|i: int|
                    WINDOW_WIDTH * WINDOW_HEIGHT <= i < buffer@.len() ==> #[trigger] buffer@[i]
                        == old(buffer)@[i],
            decreases SQUARE_SIZE - ix,
        {
            let px = x * SQUARE_SIZE + ix;
            proof {
                lemma_pixel_index(px as int, py as int);
            }
            let ghost prev = buffer@;
            buffer[py * WINDOW_WIDTH + px] = color;
            proof {
                lemma_pixel_of_cell(px as int, x as int, ix as int);
                lemma_pixel_of_cell(py as int, y as int, iy as int);
                assert forall|qx: int, qy: int|
                    0 <= qx < WINDOW_WIDTH && 0 <= qy < WINDOW_HEIGHT implies #[trigger] pixel(
                    buffer@,
                    qx,
                    qy,
                ) == (if qx / (SQUARE_SIZE as int) == x && (y * SQUARE_SIZE <= qy < y * SQUARE_SIZE
                    + iy || (qy == py && x * SQUARE_SIZE <= qx < x * SQUARE_SIZE + ix + 1)) {
                    color
                } else {
                    pixel(old(buffer)@, qx, qy)
                }) by {
                    lemma_pixel_index(qx, qy);
                    if qx == px && qy == py {
                        assert(pixel(buffer@, qx, qy) == color);
                    } else {
                        assert(qy * WINDOW_WIDTH + qx != py * WINDOW_WIDTH + px);
                        assert(pixel(buffer@, qx, qy) == pixel(prev, qx, qy));
                        if qy == py && x * SQUARE_SIZE <= qx < x * SQUARE_SIZE + ix + 1 {
                            assert(x * SQUARE_SIZE <= qx < x * SQUARE_SIZE + ix);
                            assert(qx / (SQUARE_SIZE as int) == x) by {
                                lemma_pixel_of_cell(qx, x as int, qx - x * SQUARE_SIZE);
                            }
                        }
                    }
                }
                assert forall|i: int|
                    WINDOW_WIDTH * WINDOW_HEIGHT <= i < buffer@.len() implies #[trigger] buffer@[i]
                    == old(buffer)@[i] by {
                    assert(buffer@[i] == prev[i]);
                }
            }
            ix = ix + 1;
        }
        proof {
            assert forall|qx: int, qy: int|
                0 <= qx < WINDOW_WIDTH && 0 <= qy < WINDOW_HEIGHT implies #[trigger] pixel(
                buffer@,
                qx,
                qy,
            ) == (if qx / (SQUARE_SIZE as int) == x && y * SQUARE_SIZE <= qy < y * SQUARE_SIZE + iy
                + 1 {
                color
            } else {
                pixel(old(buffer)@, qx, qy)
            }) by {
                if qx / (SQUARE_SIZE as int) == x && qy == py {
                    lemma_cell_of_pixel(qx, BOARD_WIDTH as int);
                }
            }
        }
        iy = iy + 1;
    }
}

/// Render the whole grid into the framebuffer, one colored square per cell,
/// then draw the active piece's blocks over it in the piece's color. The
/// buffer may be longer than the picture; pixels past it are left alone.
pub fn render_board(board: &Board, buffer: &mut Vec<u32>, curr_shape: &Shape)
    requires
        grid_dims(board@),
        curr_shape.wf(),
        old(buffer)@.len() >= WINDOW_WIDTH * WINDOW_HEIGHT,
    ensures
        final(buffer)@.len() == old(buffer)@.len(),
        forall|px: int, py: int|
            0 <= px < WINDOW_WIDTH && 0 <= py < WINDOW_HEIGHT ==> #[trigger] pixel(
                final(buffer)@,
                px,
                py,
            ) == pixel_color(board@, curr_shape.blocks_spec(), curr_shape.color, px, py),
        forall|i: int|
            WINDOW_WIDTH * WINDOW_HEIGHT <= i < final(buffer)@.len() ==> #[trigger] final(buffer)@[i]
                == old(buffer)@[i],
{
    let mut x: usize = 0;
    while x < BOARD_WIDTH
        invariant
            x <= BOARD_WIDTH,
            grid_dims(board@),
            buffer@.len() == old(buffer)@.len(),
            old(buffer)@.len() >= WINDOW_WIDTH * WINDOW_HEIGHT,
            forall|px: int, py: int|
                0 <= px < WINDOW_WIDTH && 0 <= py < WINDOW_HEIGHT ==> #[trigger] pixel(
                    buffer@,
                    px,
                    py,
                ) == if px / (SQUARE_SIZE as int) < x {
                    cell(board@, px / (SQUARE_SIZE as int), py / (SQUARE_SIZE as int))
                } else {
                    pixel(old(buffer)@, px, py)
                },
            forall|i: int|
                WINDOW_WIDTH * WINDOW_HEIGHT <= i < buffer@.len() ==> #[trigger] buffer@[i] == old(
                    buffer,
                )@[i],
        decreases BOARD_WIDTH - x,
    {
        let mut y: usize = 0;
        while y < BOARD_HEIGHT
            invariant
                y <= BOARD_HEIGHT,
                x < BOARD_WIDTH,
                grid_dims(board@),
                buffer@.len() == old(buffer)@.len(),
                old(buffer)@.len() >= WINDOW_WIDTH * WINDOW_HEIGHT,
                forall|px: int, py: int|
                    0 <= px < WINDOW_WIDTH && 0 <= py < WINDOW_HEIGHT ==> #[trigger] pixel(
                        buffer@,
                        px,
                        py,
                    ) == if px / (SQUARE_SIZE as int) < x || (px / (SQUARE_SIZE as int) == x && py
                        / (SQUARE_SIZE as int) < y) {
                        cell(board@, px / (SQUARE_SIZE as int), py / (SQUARE_SIZE as int))
                    } else {
                        pixel(old(buffer)@, px, py)
                    },
                forall|i: int|
                    WINDOW_WIDTH * WINDOW_HEIGHT <= i < buffer@.len() ==> #[trigger] buffer@[i]
                        == old(buffer)@[i],
            decreases BOARD_HEIGHT - y,
        {
            let color = board.color_at(x, y);
            let ghost prev = buffer@;
            draw_block(buffer, x, y, color);
            proof {
                assert forall|px: int, py: int|
                    0 <= px < WINDOW_WIDTH && 0 <= py < WINDOW_HEIGHT implies #[trigger] pixel(
                    buffer@,
                    px,
                    py,
                ) == (if px / (SQUARE_SIZE as int) < x || (px / (SQUARE_SIZE as int) == x && py / (
                SQUARE_SIZE as int) < y + 1) {
                    cell(board@, px / (SQUARE_SIZE as int), py / (SQUARE_SIZE as int))
                } else {
                    pixel(old(buffer)@, px, py)
                }) by {
                    lemma_cell_of_pixel(px, BOARD_WIDTH as int);
                    lemma_cell_of_pixel(py, BOARD_HEIGHT as int);
                    assert(pixel(prev, px, py) == if px / (SQUARE_SIZE as int) < x || (px / (
                    SQUARE_SIZE as int) == x && py / (SQUARE_SIZE as int) < y) {
                        cell(board@, px / (SQUARE_SIZE as int), py / (SQUARE_SIZE as int))
                    } else {
                        pixel(old(buffer)@, px, py)
                    });
                }
                assert forall|i: int|
                    WINDOW_WIDTH * WINDOW_HEIGHT <= i < buffer@.len() implies #[trigger] buffer@[i]
                    == old(buffer)@[i] by {
                    assert(buffer@[i] == prev[i]);
                }
            }
            y = y + 1;
        }
        x = x + 1;
    }
    let ghost cells_done = buffer@;
    let mut k: usize = 0;
    while k < 4
        invariant
            k <= 4,
            curr_shape.wf(),
            grid_dims(board@),
            buffer@.len() == old(buffer)@.len(),
            old(buffer)@.len() >= WINDOW_WIDTH * WINDOW_HEIGHT,
            cells_done.len() == old(buffer)@.len(),
            forall|px: int, py: int|
                0 <= px < WINDOW_WIDTH && 0 <= py < WINDOW_HEIGHT ==> #[trigger] pixel(
                    cells_done,
                    px,
                    py,
                ) == cell(board@, px / (SQUARE_SIZE as int), py / (SQUARE_SIZE as int)),
            forall|px: int, py: int|
                0 <= px < WINDOW_WIDTH && 0 <= py < WINDOW_HEIGHT ==> #[trigger] pixel(
                    buffer@,
                    px,
                    py,
                ) == if exists|j: int|
                    0 <= j < k && #[trigger] curr_shape.blocks_spec()[j] == (
                    px / (SQUARE_SIZE as int),
                    py / (SQUARE_SIZE as int),
                ) {
                    curr_shape.color
                } else {
                    pixel(cells_done, px, py)
                },
            forall|i: int|
                WINDOW_WIDTH * WINDOW_HEIGHT <= i < buffer@.len() ==> #[trigger] buffer@[i] == old(
                    buffer,
                )@[i],
        decreases 4 - k,
    {
        let b = curr_shape.blocks[k];
        proof {
            assert(curr_shape.blocks_spec()[k as int] == (b.x as int, b.y as int));
            assert(playable(
                curr_shape.blocks_spec()[k as int].0,
                curr_shape.blocks_spec()[k as int].1,
            ));
        }
        let ghost prev = buffer@;
        draw_block(buffer, b.x, b.y, curr_shape.color);
        proof {
            assert forall|px: int, py: int|
                0 <= px < WINDOW_WIDTH && 0 <= py < WINDOW_HEIGHT implies #[trigger] pixel(
                buffer@,
                px,
                py,
            ) == (if exists|j: int|
                0 <= j < k + 1 && #[trigger] curr_shape.blocks_spec()[j] == (
                px / (SQUARE_SIZE as int),
                py / (SQUARE_SIZE as int),
            ) {
                curr_shape.color
            } else {
                pixel(cells_done, px, py)
            }) by {
                let cx = px / (SQUARE_SIZE as int);
                let cy = py / (SQUARE_SIZE as int);
                if cx == b.x as int && cy == b.y as int {
                    assert(curr_shape.blocks_spec()[k as int] == (cx, cy));
                } else {
                    assert(pixel(buffer@, px, py) == pixel(prev, px, py));
                    if exists|j: int|
                        0 <= j < k && #[trigger] curr_shape.blocks_spec()[j] == (cx, cy) {
                        let j = choose|j: int|
                            0 <= j < k && #[trigger] curr_shape.blocks_spec()[j] == (cx, cy);
                        assert(0 <= j < k + 1 && curr_shape.blocks_spec()[j] == (cx, cy));
                    } else {
                        assert forall|j: int| 0 <= j < k + 1 implies #[trigger] curr_shape
                            .blocks_spec()[j] != (cx, cy) by {}
                    }
                }
            }
            assert forall|i: int|
                WINDOW_WIDTH * WINDOW_HEIGHT <= i < buffer@.len() implies #[trigger] buffer@[i]
                == old(buffer)@[i] by {
                assert(buffer@[i] == prev[i]);
            }
        }
        k = k + 1;
    }
    proof {
        assert forall|px: int, py: int|
            0 <= px < WINDOW_WIDTH && 0 <= py < WINDOW_HEIGHT implies #[trigger] pixel(
            buffer@,
            px,
            py,
        ) == pixel_color(board@, curr_shape.blocks_spec(), curr_shape.color, px, py) by {
            let cx = px / (SQUARE_SIZE as int);
            let cy = py / (SQUARE_SIZE as int);
            if shape_covers(curr_shape.blocks_spec(), cx, cy) {
                let j = choose|j: int|
                    0 <= j < curr_shape.blocks_spec().len() && curr_shape.blocks_spec()[j] == (
                    cx,
                    cy,
                );
                assert(0 <= j < 4 && curr_shape.blocks_spec()[j] == (cx, cy));
            }
        }
    }
}

} // verus!
