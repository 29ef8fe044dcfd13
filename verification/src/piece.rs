//! The active falling piece: the seven shape species, their per-orientation
//! block layouts, and the movement, rotation and locking operations.

use vstd::prelude::*;

use crate::BLANK;
use crate::BOARD_HEIGHT;
use crate::BOARD_WIDTH;
use crate::Block;
use crate::board::Board;
use crate::board::cell;
use crate::board::clear_rows_from;
use crate::board::painted;
use crate::is_border;
use crate::playable;

verus! {

/// The seven canonical shape kinds.
#[derive(Clone, Copy, PartialEq, Eq, Structural, Debug)]
pub enum Species {
    Line,
    Square,
    LRight,
    LLeft,
    SquiggleRight,
    SquiggleLeft,
    Hat,
}

/// Offset of block number `k` (0..4) from the piece's center, for `species`
/// at orientation `rotation`. The layout is selected by the orientation
/// reduced modulo 4; species with only two materially distinct layouts
/// select by the reduced orientation's parity.
pub open spec fn offset(species: Species, rotation: int, k: int) -> (int, int) {
    let r: int = rotation % 4;
    match species {
        Species::Line => if r % 2 == 0 {
            if k == 0 {
                (0, 0)
            } else if k == 1 {
                (1, 0)
            } else if k == 2 {
                (2, 0)
            } else {
                (3, 0)
            }
        } else {
            if k == 0 {
                (0, 0)
            } else if k == 1 {
                (0, 1)
            } else if k == 2 {
                (0, 2)
            } else {
                (0, 3)
            }
        },
        Species::Square => if k == 0 {
            (0, 0)
        } else if k == 1 {
            (1, 0)
        } else if k == 2 {
            (0, 1)
        } else {
            (1, 1)
        },
        Species::LRight => if r == 0 {
            if k == 0 {
                (-1, 1)
            } else if k == 1 {
                (0, 1)
            } else if k == 2 {
                (1, 1)
            } else {
                (1, 0)
            }
        } else if r == 1 {
            if k == 0 {
                (-1, -1)
            } else if k == 1 {
                (-1, 0)
            } else if k == 2 {
                (-1, 1)
            } else {
                (0, 1)
            }
        } else if r == 2 {
            if k == 0 {
                (-1, -1)
            } else if k == 1 {
                (0, -1)
            } else if k == 2 {
                (1, -1)
            } else {
                (-1, 0)
            }
        } else {
            if k == 0 {
                (1, -1)
            } else if k == 1 {
                (1, 0)
            } else if k == 2 {
                (1, 1)
            } else {
                (0, -1)
            }
        },
        Species::LLeft => if r == 0 {
            if k == 0 {
                (-1, 1)
            } else if k == 1 {
                (0, 1)
            } else if k == 2 {
                (1, 1)
            } else {
                (-1, 0)
            }
        } else if r == 1 {
            if k == 0 {
                (0, -1)
            } else if k == 1 {
                (0, 0)
            } else if k == 2 {
                (0, 1)
            } else {
                (1, -1)
            }
        } else if r == 2 {
            if k == 0 {
                (-1, -1)
            } else if k == 1 {
                (0, -1)
            } else if k == 2 {
                (1, -1)
            } else {
                (1, 0)
            }
        } else {
            if k == 0 {
                (1, -1)
            } else if k == 1 {
                (1, 0)
            } else if k == 2 {
                (1, 1)
            } else {
                (0, 1)
            }
        },
        Species::SquiggleRight => if r % 2 == 0 {
            if k == 0 {
                (-1, 0)
            } else if k == 1 {
                (-1, 1)
            } else if k == 2 {
                (0, 1)
            } else {
                (0, 2)
            }
        } else {
            if k == 0 {
                (0, 0)
            } else if k == 1 {
                (1, 0)
            } else if k == 2 {
                (0, 1)
            } else {
                (-1, 1)
            }
        },
        Species::SquiggleLeft => if r % 2 == 0 {
            if k == 0 {
                (1, 0)
            } else if k == 1 {
                (1, 1)
            } else if k == 2 {
                (0, 1)
            } else {
                (0, 2)
            }
        } else {
            if k == 0 {
                (0, 0)
            } else if k == 1 {
                (-1, 0)
            } else if k == 2 {
                (0, 1)
            } else {
                (1, 1)
            }
        },
        Species::Hat => if r == 0 {
            if k == 0 {
                (0, 0)
            } else if k == 1 {
                (-1, 0)
            } else if k == 2 {
                (0, -1)
            } else {
                (1, 0)
            }
        } else if r == 1 {
            if k == 0 {
                (0, 0)
            } else if k == 1 {
                (0, -1)
            } else if k == 2 {
                (1, 0)
            } else {
                (0, 1)
            }
        } else if r == 2 {
            if k == 0 {
                (0, 0)
            } else if k == 1 {
                (-1, 0)
            } else if k == 2 {
                (0, 1)
            } else {
                (1, 0)
            }
        } else {
            if k == 0 {
                (0, 0)
            } else if k == 1 {
                (0, -1)
            } else if k == 2 {
                (-1, 0)
            } else {
                (0, 1)
            }
        },
    }
}

/// The four block coordinates of `species` at orientation `rotation`,
/// anchored at center `(cx, cy)`.
pub open spec fn spec_blocks(species: Species, cx: int, cy: int, rotation: int) -> Seq<(int, int)> {
    Seq::new(4, |k: int| (cx + offset(species, rotation, k).0, cy + offset(species, rotation, k).1))
}

/// Coordinates of an executable block list, as mathematical pairs.
pub open spec fn blocks_view(bs: Seq<Block>) -> Seq<(int, int)> {
    bs.map_values(|b: Block| (b.x as int, b.y as int))
}

/// The orientation reached by one clockwise rotation.
pub open spec fn next_rotation(rotation: int) -> int {
    if rotation >= 3 {
        0
    } else {
        rotation + 1
    }
}

/// Every block offset lies within one cell left/up and three cells
/// right/down of the center, and each layout touches the center's column
/// and the center's row.
pub proof fn lemma_offset_bounds(species: Species, rotation: int)
    ensures
        forall|k: int|
            0 <= k < 4 ==> -1 <= #[trigger] offset(species, rotation, k).0 <= 3 && -1 <= offset(
                species,
                rotation,
                k,
            ).1 <= 3,
        exists|k: int| 0 <= k < 4 && #[trigger] offset(species, rotation, k).0 == 0,
        exists|k: int| 0 <= k < 4 && #[trigger] offset(species, rotation, k).1 == 0,
{
    assert(offset(species, rotation, 0).0 <= 3);
    assert(exists|k: int| 0 <= k < 4 && #[trigger] offset(species, rotation, k).0 == 0) by {
        match species {
            Species::Line => assert(offset(species, rotation, 0).0 == 0),
            Species::Square => assert(offset(species, rotation, 0).0 == 0),
            Species::LRight => assert(offset(species, rotation, 3).0 == 0 || offset(
                species,
                rotation,
                1,
            ).0 == 0 || offset(species, rotation, 3).0 == 0),
            Species::LLeft => assert(offset(species, rotation, 1).0 == 0 || offset(
                species,
                rotation,
                0,
            ).0 == 0 || offset(species, rotation, 3).0 == 0),
            Species::SquiggleRight => assert(offset(species, rotation, 2).0 == 0 || offset(
                species,
                rotation,
                0,
            ).0 == 0),
            Species::SquiggleLeft => assert(offset(species, rotation, 2).0 == 0 || offset(
                species,
                rotation,
                0,
            ).0 == 0),
            Species::Hat => assert(offset(species, rotation, 0).0 == 0),
        }
    }
    assert(exists|k: int| 0 <= k < 4 && #[trigger] offset(species, rotation, k).1 == 0) by {
        match species {
            Species::Line => assert(offset(species, rotation, 0).1 == 0),
            Species::Square => assert(offset(species, rotation, 0).1 == 0),
            Species::LRight => assert(offset(species, rotation, 3).1 == 0 || offset(
                species,
                rotation,
                1,
            ).1 == 0),
            Species::LLeft => assert(offset(species, rotation, 1).1 == 0 || offset(
                species,
                rotation,
                3,
            ).1 == 0),
            Species::SquiggleRight => assert(offset(species, rotation, 0).1 == 0),
            Species::SquiggleLeft => assert(offset(species, rotation, 0).1 == 0),
            Species::Hat => assert(offset(species, rotation, 0).1 == 0),
        }
    }
}

/// Every layout consists of four pairwise-distinct coordinates.
pub proof fn lemma_blocks_distinct(species: Species, cx: int, cy: int, rotation: int)
    ensures
        spec_blocks(species, cx, cy, rotation).len() == 4,
        forall|i: int, j: int|
            0 <= i < 4 && 0 <= j < 4 && i != j ==> #[trigger] spec_blocks(
                species,
                cx,
                cy,
                rotation,
            )[i] != #[trigger] spec_blocks(species, cx, cy, rotation)[j],
{
    assert forall|i: int, j: int|
        0 <= i < 4 && 0 <= j < 4 && i != j implies #[trigger] spec_blocks(
        species,
        cx,
        cy,
        rotation,
    )[i] != #[trigger] spec_blocks(species, cx, cy, rotation)[j] by {
        assert(offset(species, rotation, i) != offset(species, rotation, j));
    }
}

/// The layout depends on the orientation only through its value modulo 4:
/// every orientation selects the same blocks as its reduction into 0..4.
pub proof fn lemma_layout_mod_four(species: Species, cx: int, cy: int, rotation: int)
    ensures
        spec_blocks(species, cx, cy, rotation) == spec_blocks(species, cx, cy, rotation % 4),
{
    let r: int = rotation % 4;
    assert(r % 4 == r) by {
        vstd::arithmetic::div_mod::lemma_mod_bound(rotation, 4);
        vstd::arithmetic::div_mod::lemma_small_mod(r as nat, 4);
    }
    assert forall|k: int| 0 <= k < 4 implies spec_blocks(species, cx, cy, rotation)[k]
        == spec_blocks(species, cx, cy, r)[k] by {
        assert(offset(species, rotation, k) == offset(species, r, k));
    }
    assert(spec_blocks(species, cx, cy, rotation) =~= spec_blocks(species, cx, cy, r));
}

/// Four clockwise rotations return a piece to its original orientation, and
/// therefore to its original block layout.
pub proof fn lemma_rotation_cycle(species: Species, cx: int, cy: int, rotation: int)
    requires
        0 <= rotation < 4,
    ensures
        next_rotation(next_rotation(next_rotation(next_rotation(rotation)))) == rotation,
        spec_blocks(
            species,
            cx,
            cy,
            next_rotation(next_rotation(next_rotation(next_rotation(rotation)))),
        ) == spec_blocks(species, cx, cy, rotation),
{
}

/// Every block can move one row down: it stays on the board and lands on a
/// blank cell.
pub open spec fn can_descend(blocks: Seq<(int, int)>, g: Seq<u32>) -> bool {
    forall|k: int|
        0 <= k < blocks.len() ==> (#[trigger] blocks[k]).1 + 1 < BOARD_HEIGHT && cell(
            g,
            blocks[k].0,
            blocks[k].1 + 1,
        ) == BLANK
}

/// Every block can move one column right: it stays on the board and lands on
/// a blank cell.
pub open spec fn can_move_right(blocks: Seq<(int, int)>, g: Seq<u32>) -> bool {
    forall|k: int|
        0 <= k < blocks.len() ==> (#[trigger] blocks[k]).0 + 1 < BOARD_WIDTH && cell(
            g,
            blocks[k].0 + 1,
            blocks[k].1,
        ) == BLANK
}

/// Every block can move one column left: it stays on the board and lands on
/// a blank cell.
pub open spec fn can_move_left(blocks: Seq<(int, int)>, g: Seq<u32>) -> bool {
    forall|k: int|
        0 <= k < blocks.len() ==> (#[trigger] blocks[k]).0 >= 1 && cell(
            g,
            blocks[k].0 - 1,
            blocks[k].1,
        ) == BLANK
}

/// The active falling piece.
pub struct Shape {
    pub species: Species,
    pub blocks: Vec<Block>,
    pub color: u32,
    pub center: Block,
    pub rotation: u8,
}

impl Shape {
    /// Coordinates of the piece's blocks, as mathematical pairs.
    pub open spec fn blocks_spec(self) -> Seq<(int, int)> {
        blocks_view(self.blocks@)
    }

    /// Well-formed piece: the orientation index is in range, the block list
    /// is exactly the layout of the species at the current orientation and
    /// center, every block lies in the playable region, and the center has
    /// not left the top row pieces spawn on.
    pub open spec fn wf(self) -> bool {
        &&& self.rotation < 4
        &&& self.center.y >= 1
        &&& self.blocks@.len() == 4
        &&& self.blocks_spec() == spec_blocks(
            self.species,
            self.center.x as int,
            self.center.y as int,
            self.rotation as int,
        )
        &&& forall|k: int|
            0 <= k < 4 ==> playable(
                #[trigger] self.blocks_spec()[k].0,
                self.blocks_spec()[k].1,
            )
    }

    /// A well-formed piece keeps its center inside the playable columns and
    /// above the bottom border.
    pub proof fn lemma_center_bounds(self)
        requires
            self.wf(),
        ensures
            1 <= self.center.x as int <= BOARD_WIDTH - 2,
            1 <= self.center.y as int <= BOARD_HEIGHT - 2,
    {
        let cx = self.center.x as int;
        let cy = self.center.y as int;
        let r = self.rotation as int;
        lemma_offset_bounds(self.species, r);
        let kx = choose|k: int| 0 <= k < 4 && #[trigger] offset(self.species, r, k).0 == 0;
        assert(self.blocks_spec()[kx].0 == cx);
        assert(playable(self.blocks_spec()[kx].0, self.blocks_spec()[kx].1));
        let ky = choose|k: int| 0 <= k < 4 && #[trigger] offset(self.species, r, k).1 == 0;
        assert(self.blocks_spec()[ky].1 == cy);
        assert(playable(self.blocks_spec()[ky].0, self.blocks_spec()[ky].1));
    }

    /// Compute the block list for `species` at orientation `rotation`,
    /// anchored at `center`. This is the geometric heart of the engine: a
    /// pure function of its arguments.
    pub fn blocks_for(species: Species, center: &Block, rotation: u8) -> (blocks: Vec<Block>)
        requires
            center.x >= 1,
            center.y >= 1,
            center.x + 3 <= usize::MAX,
            center.y + 3 <= usize::MAX,
        ensures
            blocks@.len() == 4,
            blocks_view(blocks@) == spec_blocks(
                species,
                center.x as int,
                center.y as int,
                rotation as int,
            ),
    {
        let x = center.x;
        let y = center.y;
        let r: u8 = rotation % 4;
        let blocks = match species {
            Species::Line => if r % 2 == 0 {
                vec![
                    Block { x, y },
                    Block { x: x + 1, y },
                    Block { x: x + 2, y },
                    Block { x: x + 3, y },
                ]
            } else {
                vec![
                    Block { x, y },
                    Block { x, y: y + 1 },
                    Block { x, y: y + 2 },
                    Block { x, y: y + 3 },
                ]
            },
            Species::Square => vec![
                Block { x, y },
                Block { x: x + 1, y },
                Block { x, y: y + 1 },
                Block { x: x + 1, y: y + 1 },
            ],
            Species::LRight => if r == 0 {
                vec![
                    Block { x: x - 1, y: y + 1 },
                    Block { x, y: y + 1 },
                    Block { x: x + 1, y: y + 1 },
                    Block { x: x + 1, y },
                ]
            } else if r == 1 {
                vec![
                    Block { x: x - 1, y: y - 1 },
                    Block { x: x - 1, y },
                    Block { x: x - 1, y: y + 1 },
                    Block { x, y: y + 1 },
                ]
            } else if r == 2 {
                vec![
                    Block { x: x - 1, y: y - 1 },
                    Block { x, y: y - 1 },
                    Block { x: x + 1, y: y - 1 },
                    Block { x: x - 1, y },
                ]
            } else {
                vec![
                    Block { x: x + 1, y: y - 1 },
                    Block { x: x + 1, y },
                    Block { x: x + 1, y: y + 1 },
                    Block { x, y: y - 1 },
                ]
            },
            Species::LLeft => if r == 0 {
                vec![
                    Block { x: x - 1, y: y + 1 },
                    Block { x, y: y + 1 },
                    Block { x: x + 1, y: y + 1 },
                    Block { x: x - 1, y },
                ]
            } else if r == 1 {
                vec![
                    Block { x, y: y - 1 },
                    Block { x, y },
                    Block { x, y: y + 1 },
                    Block { x: x + 1, y: y - 1 },
                ]
            } else if r == 2 {
                vec![
                    Block { x: x - 1, y: y - 1 },
                    Block { x, y: y - 1 },
                    Block { x: x + 1, y: y - 1 },
                    Block { x: x + 1, y },
                ]
            } else {
                vec![
                    Block { x: x + 1, y: y - 1 },
                    Block { x: x + 1, y },
                    Block { x: x + 1, y: y + 1 },
                    Block { x, y: y + 1 },
                ]
            },
            Species::SquiggleRight => if r % 2 == 0 {
                vec![
                    Block { x: x - 1, y },
                    Block { x: x - 1, y: y + 1 },
                    Block { x, y: y + 1 },
                    Block { x, y: y + 2 },
                ]
            } else {
                vec![
                    Block { x, y },
                    Block { x: x + 1, y },
                    Block { x, y: y + 1 },
                    Block { x: x - 1, y: y + 1 },
                ]
            },
            Species::SquiggleLeft => if r % 2 == 0 {
                vec![
                    Block { x: x + 1, y },
                    Block { x: x + 1, y: y + 1 },
                    Block { x, y: y + 1 },
                    Block { x, y: y + 2 },
                ]
            } else {
                vec![
                    Block { x, y },
                    Block { x: x - 1, y },
                    Block { x, y: y + 1 },
                    Block { x: x + 1, y: y + 1 },
                ]
            },
            Species::Hat => if r == 0 {
                vec![
                    Block { x, y },
                    Block { x: x - 1, y },
                    Block { x, y: y - 1 },
                    Block { x: x + 1, y },
                ]
            } else if r == 1 {
                vec![
                    Block { x, y },
                    Block { x, y: y - 1 },
                    Block { x: x + 1, y },
                    Block { x, y: y + 1 },
                ]
            } else if r == 2 {
                vec![
                    Block { x, y },
                    Block { x: x - 1, y },
                    Block { x, y: y + 1 },
                    Block { x: x + 1, y },
                ]
            } else {
                vec![
                    Block { x, y },
                    Block { x, y: y - 1 },
                    Block { x: x - 1, y },
                    Block { x, y: y + 1 },
                ]
            },
        };
        proof {
            assert(blocks_view(blocks@) =~= spec_blocks(
                species,
                center.x as int,
                center.y as int,
                rotation as int,
            ));
        }
        blocks
    }

    /// Create a live piece of the given species at orientation 0, anchored
    /// at `anchor` and painted `color`. The anchor must stand far enough
    /// from the borders that every species fits the playable region.
    pub fn spawn(species: Species, anchor: &Block, color: u32) -> (shape: Shape)
        requires
            2 <= anchor.x,
            anchor.x + 3 <= BOARD_WIDTH - 2,
            1 <= anchor.y,
            anchor.y + 3 <= BOARD_HEIGHT - 2,
        ensures
            shape.wf(),
            shape.species == species,
            shape.color == color,
            shape.center == *anchor,
            shape.rotation == 0,
            shape.blocks_spec() == spec_blocks(species, anchor.x as int, anchor.y as int, 0),
    {
        let blocks = Shape::blocks_for(species, anchor, 0);
        let shape = Shape { species, blocks, color, center: *anchor, rotation: 0 };
        proof {
            lemma_offset_bounds(species, 0);
            assert forall|k: int| 0 <= k < 4 implies playable(
                #[trigger] shape.blocks_spec()[k].0,
                shape.blocks_spec()[k].1,
            ) by {
                assert(-1 <= offset(species, 0, k).0 <= 3);
            }
        }
        shape
    }

    /// Try to rotate the piece clockwise. The candidate layout is committed
    /// only when every candidate block may legally be occupied; otherwise
    /// the piece is left unchanged. No wall kick is attempted.
    pub fn rotate_right(&mut self, board: &Board) -> (applied: bool)
        requires
            old(self).wf(),
            board.wf(),
        ensures
            final(self).wf(),
            final(self).species == old(self).species,
            final(self).color == old(self).color,
            final(self).center == old(self).center,
            ({
                let nr = next_rotation(old(self).rotation as int);
                let nb = spec_blocks(
                    old(self).species,
                    old(self).center.x as int,
                    old(self).center.y as int,
                    nr,
                );
                &&& applied == (forall|k: int|
                    0 <= k < 4 ==> board.spec_valid_move(#[trigger] nb[k].0, nb[k].1))
                &&& (applied ==> final(self).rotation as int == nr && final(self).blocks_spec()
                    == nb)
                &&& (!applied ==> *final(self) == *old(self))
            }),
    {
        proof {
            self.lemma_center_bounds();
        }
        let ghost nr = next_rotation(self.rotation as int);
        let ghost nb = spec_blocks(self.species, self.center.x as int, self.center.y as int, nr);
        let new_rot: u8 = if self.rotation >= 3 {
            0
        } else {
            self.rotation + 1
        };
        let new_blocks = Shape::blocks_for(self.species, &self.center, new_rot);
        let mut k: usize = 0;
        while k < 4
            invariant
                k <= 4,
                *self == *old(self),
                old(self).wf(),
                board.wf(),
                new_blocks@.len() == 4,
                blocks_view(new_blocks@) == nb,
                nr == next_rotation(old(self).rotation as int),
                nb == spec_blocks(
                    old(self).species,
                    old(self).center.x as int,
                    old(self).center.y as int,
                    nr,
                ),
                forall|j: int| 0 <= j < k ==> board.spec_valid_move(#[trigger] nb[j].0, nb[j].1),
            decreases 4 - k,
        {
            let b = new_blocks[k];
            proof {
                assert(nb[k as int] == (b.x as int, b.y as int));
            }
            if !board.valid_move(&b) {
                proof {
                    assert(!board.spec_valid_move(nb[k as int].0, nb[k as int].1));
                }
                return false;
            }
            k = k + 1;
        }
        self.rotation = new_rot;
        self.blocks = new_blocks;
        proof {
            assert forall|j: int| 0 <= j < 4 implies playable(
                #[trigger] self.blocks_spec()[j].0,
                self.blocks_spec()[j].1,
            ) by {
                assert(board.spec_valid_move(nb[j].0, nb[j].1));
                if nb[j].1 == BOARD_HEIGHT - 1 {
                    assert(is_border(nb[j].0, nb[j].1));
                    assert(cell(board@, nb[j].0, nb[j].1) != BLANK);
                }
            }
        }
        true
    }

    /// Try to move the piece one row down. When some block would leave the
    /// board or land on an occupied cell, the piece is locked instead: its
    /// blocks are absorbed into the grid (completed rows are cleared) and
    /// `false` is returned; the caller then discards the piece.
    pub fn move_down(&mut self, board: &mut Board) -> (descended: bool)
        requires
            old(self).wf(),
            old(board).wf(),
        ensures
            final(self).wf(),
            final(board).wf(),
            descended == can_descend(old(self).blocks_spec(), old(board)@),
            descended ==> *final(board) == *old(board) && final(self).species == old(self).species
                && final(self).color == old(self).color && final(self).rotation == old(
                self,
            ).rotation && final(self).center.x == old(self).center.x && final(self).center.y == old(
                self,
            ).center.y + 1 && final(self).blocks_spec() == spec_blocks(
                old(self).species,
                old(self).center.x as int,
                old(self).center.y as int + 1,
                old(self).rotation as int,
            ),
            !descended ==> *final(self) == *old(self) && final(board)@ == clear_rows_from(
                painted(old(board)@, old(self).blocks_spec(), old(self).color),
                1,
            ).0,
    {
        proof {
            self.lemma_center_bounds();
        }
        let mut k: usize = 0;
        while k < 4
            invariant
                k <= 4,
                *self == *old(self),
                *board == *old(board),
                old(self).wf(),
                old(board).wf(),
                forall|j: int|
                    0 <= j < k ==> (#[trigger] old(self).blocks_spec()[j]).1 + 1 < BOARD_HEIGHT
                        && cell(
                        old(board)@,
                        old(self).blocks_spec()[j].0,
                        old(self).blocks_spec()[j].1 + 1,
                    ) == BLANK,
            decreases 4 - k,
        {
            let b = self.blocks[k];
            proof {
                assert(self.blocks_spec()[k as int] == (b.x as int, b.y as int));
                assert(playable(self.blocks_spec()[k as int].0, self.blocks_spec()[k as int].1));
            }
            if b.y + 1 >= BOARD_HEIGHT || board.is_filled(b.x, b.y + 1) {
                let _ = board.emplace(self);
                return false;
            }
            k = k + 1;
        }
        let ghost old_bs = self.blocks_spec();
        let mut k: usize = 0;
        while k < 4
            invariant
                k <= 4,
                self.blocks@.len() == 4,
                self.species == old(self).species,
                self.color == old(self).color,
                self.rotation == old(self).rotation,
                self.center == old(self).center,
                *board == *old(board),
                old(self).wf(),
                old(board).wf(),
                old_bs == old(self).blocks_spec(),
                can_descend(old_bs, old(board)@),
                forall|j: int|
                    0 <= j < 4 ==> #[trigger] self.blocks_spec()[j] == if j < k {
                        (old_bs[j].0, old_bs[j].1 + 1)
                    } else {
                        old_bs[j]
                    },
            decreases 4 - k,
        {
            let b = self.blocks[k];
            proof {
                assert(self.blocks_spec()[k as int] == (b.x as int, b.y as int));
                assert(old_bs[k as int].1 + 1 < BOARD_HEIGHT);
            }
            let ghost prev = self.blocks@;
            self.blocks[k] = Block { x: b.x, y: b.y + 1 };
            proof {
                assert forall|j: int| 0 <= j < 4 implies #[trigger] self.blocks_spec()[j] == (if j
                    < k + 1 {
                    (old_bs[j].0, old_bs[j].1 + 1)
                } else {
                    old_bs[j]
                }) by {
                    if j == k as int {
                        assert(self.blocks_spec()[j] == (b.x as int, b.y as int + 1));
                    } else {
                        assert(self.blocks@[j] == prev[j]);
                        assert(blocks_view(prev)[j] == (prev[j].x as int, prev[j].y as int));
                    }
                }
            }
            k = k + 1;
        }
        let ghost gblocks = self.blocks@;
        proof {
            assert forall|j: int| 0 <= j < 4 implies ((#[trigger] gblocks[j]).x as int,
            gblocks[j].y as int) == (old_bs[j].0, old_bs[j].1 + 1) by {
                assert(self.blocks_spec()[j] == (old_bs[j].0, old_bs[j].1 + 1));
                assert(self.blocks_spec()[j] == (
                    self.blocks@[j].x as int,
                    self.blocks@[j].y as int,
                ));
            }
        }
        self.center.y = self.center.y + 1;
        proof {
            assert(self.blocks@ == gblocks);
            let cx = old(self).center.x as int;
            let cy = old(self).center.y as int;
            let r = old(self).rotation as int;
            assert forall|j: int| 0 <= j < 4 implies self.blocks_spec()[j] == spec_blocks(
                self.species,
                cx,
                cy + 1,
                r,
            )[j] by {
                assert(self.blocks_spec()[j] == (
                    self.blocks@[j].x as int,
                    self.blocks@[j].y as int,
                ));
                assert(self.blocks@[j] == gblocks[j]);
                assert((gblocks[j].x as int, gblocks[j].y as int) == (
                    old_bs[j].0,
                    old_bs[j].1 + 1,
                ));
                assert(old_bs[j] == spec_blocks(self.species, cx, cy, r)[j]);
                assert(spec_blocks(self.species, cx, cy, r)[j] == (
                    cx + offset(self.species, r, j).0,
                    cy + offset(self.species, r, j).1,
                ));
                assert(spec_blocks(self.species, cx, cy + 1, r)[j] == (
                    cx + offset(self.species, r, j).0,
                    cy + 1 + offset(self.species, r, j).1,
                ));
            }
            assert(self.blocks_spec().len() == 4);
            assert(self.blocks_spec() =~= spec_blocks(self.species, cx, cy + 1, r));
            assert forall|j: int| 0 <= j < 4 implies playable(
                #[trigger] self.blocks_spec()[j].0,
                self.blocks_spec()[j].1,
            ) by {
                assert(self.blocks_spec()[j] == (
                    self.blocks@[j].x as int,
                    self.blocks@[j].y as int,
                ));
                assert(self.blocks@[j] == gblocks[j]);
                assert((gblocks[j].x as int, gblocks[j].y as int) == (
                    old_bs[j].0,
                    old_bs[j].1 + 1,
                ));
                assert(old_bs[j].1 + 1 < BOARD_HEIGHT && cell(old(board)@, old_bs[j].0, old_bs[j].1
                    + 1) == BLANK);
                assert(playable(old_bs[j].0, old_bs[j].1));
                if old_bs[j].1 + 1 == BOARD_HEIGHT - 1 {
                    assert(is_border(old_bs[j].0, old_bs[j].1 + 1));
                    assert(cell(old(board)@, old_bs[j].0, old_bs[j].1 + 1) != BLANK);
                }
            }
        }
        true
    }

    /// Let the piece fall straight down until it locks: step it down
    /// repeatedly until a downward move is rejected and the piece is
    /// absorbed into the grid.
    pub fn drop(&mut self, board: &mut Board)
        requires
            old(self).wf(),
            old(board).wf(),
        ensures
            final(self).wf(),
            final(board).wf(),
            final(self).species == old(self).species,
            final(self).color == old(self).color,
            final(self).rotation == old(self).rotation,
            final(self).center.x == old(self).center.x,
            final(self).center.y >= old(self).center.y,
            forall|j: int|
                old(self).center.y <= j < final(self).center.y ==> can_descend(
                    spec_blocks(
                        old(self).species,
                        old(self).center.x as int,
                        j,
                        old(self).rotation as int,
                    ),
                    old(board)@,
                ),
            !can_descend(final(self).blocks_spec(), old(board)@),
            final(self).blocks_spec() == spec_blocks(
                old(self).species,
                old(self).center.x as int,
                final(self).center.y as int,
                old(self).rotation as int,
            ),
            final(board)@ == clear_rows_from(
                painted(old(board)@, final(self).blocks_spec(), old(self).color),
                1,
            ).0,
    {
        loop
            invariant_except_break
                self.wf(),
                board@ == old(board)@,
                board.wf(),
                self.species == old(self).species,
                self.color == old(self).color,
                self.rotation == old(self).rotation,
                self.center.x == old(self).center.x,
                self.center.y >= old(self).center.y,
                forall|j: int|
                    old(self).center.y <= j < self.center.y ==> can_descend(
                        spec_blocks(
                            old(self).species,
                            old(self).center.x as int,
                            j,
                            old(self).rotation as int,
                        ),
                        old(board)@,
                    ),
                self.blocks_spec() == spec_blocks(
                    old(self).species,
                    old(self).center.x as int,
                    self.center.y as int,
                    old(self).rotation as int,
                ),
            ensures
                self.wf(),
                board.wf(),
                self.species == old(self).species,
                self.color == old(self).color,
                self.rotation == old(self).rotation,
                self.center.x == old(self).center.x,
                self.center.y >= old(self).center.y,
                forall|j: int|
                    old(self).center.y <= j < self.center.y ==> can_descend(
                        spec_blocks(
                            old(self).species,
                            old(self).center.x as int,
                            j,
                            old(self).rotation as int,
                        ),
                        old(board)@,
                    ),
                !can_descend(self.blocks_spec(), old(board)@),
                self.blocks_spec() == spec_blocks(
                    old(self).species,
                    old(self).center.x as int,
                    self.center.y as int,
                    old(self).rotation as int,
                ),
                board@ == clear_rows_from(
                    painted(old(board)@, self.blocks_spec(), self.color),
                    1,
                ).0,
            decreases BOARD_HEIGHT - self.center.y,
        {
            proof {
                self.lemma_center_bounds();
            }
            let descended = self.move_down(board);
            if !descended {
                break ;
            }
        }
    }

    /// Try to move the piece one column right; commit the translation only
    /// when every block stays on the board and lands on a blank cell,
    /// otherwise leave the piece unchanged.
    pub fn move_right(&mut self, board: &Board) -> (moved: bool)
        requires
            old(self).wf(),
            board.wf(),
        ensures
            final(self).wf(),
            moved == can_move_right(old(self).blocks_spec(), board@),
            moved ==> final(self).species == old(self).species && final(self).color == old(
                self,
            ).color && final(self).rotation == old(self).rotation && final(self).center.x == old(
                self,
            ).center.x + 1 && final(self).center.y == old(self).center.y
                && final(self).blocks_spec() == spec_blocks(
                old(self).species,
                old(self).center.x as int + 1,
                old(self).center.y as int,
                old(self).rotation as int,
            ),
            !moved ==> *final(self) == *old(self),
    {
        proof {
            self.lemma_center_bounds();
        }
        let mut k: usize = 0;
        while k < 4
            invariant
                k <= 4,
                *self == *old(self),
                old(self).wf(),
                board.wf(),
                forall|j: int|
                    0 <= j < k ==> (#[trigger] old(self).blocks_spec()[j]).0 + 1 < BOARD_WIDTH
                        && cell(
                        board@,
                        old(self).blocks_spec()[j].0 + 1,
                        old(self).blocks_spec()[j].1,
                    ) == BLANK,
            decreases 4 - k,
        {
            let b = self.blocks[k];
            proof {
                assert(self.blocks_spec()[k as int] == (b.x as int, b.y as int));
                assert(playable(self.blocks_spec()[k as int].0, self.blocks_spec()[k as int].1));
            }
            if b.x + 1 >= BOARD_WIDTH || board.is_filled(b.x + 1, b.y) {
                return false;
            }
            k = k + 1;
        }
        let ghost old_bs = self.blocks_spec();
        let mut k: usize = 0;
        while k < 4
            invariant
                k <= 4,
                self.blocks@.len() == 4,
                self.species == old(self).species,
                self.color == old(self).color,
                self.rotation == old(self).rotation,
                self.center == old(self).center,
                old(self).wf(),
                board.wf(),
                old_bs == old(self).blocks_spec(),
                can_move_right(old_bs, board@),
                forall|j: int|
                    0 <= j < 4 ==> #[trigger] self.blocks_spec()[j] == if j < k {
                        (old_bs[j].0 + 1, old_bs[j].1)
                    } else {
                        old_bs[j]
                    },
            decreases 4 - k,
        {
            let b = self.blocks[k];
            proof {
                assert(self.blocks_spec()[k as int] == (b.x as int, b.y as int));
                assert(old_bs[k as int].0 + 1 < BOARD_WIDTH);
            }
            let ghost prev = self.blocks@;
            self.blocks[k] = Block { x: b.x + 1, y: b.y };
            proof {
                assert forall|j: int| 0 <= j < 4 implies #[trigger] self.blocks_spec()[j] == (if j
                    < k + 1 {
                    (old_bs[j].0 + 1, old_bs[j].1)
                } else {
                    old_bs[j]
                }) by {
                    if j == k as int {
                        assert(self.blocks_spec()[j] == (b.x as int + 1, b.y as int));
                    } else {
                        assert(self.blocks@[j] == prev[j]);
                        assert(blocks_view(prev)[j] == (prev[j].x as int, prev[j].y as int));
                    }
                }
            }
            k = k + 1;
        }
        let ghost gblocks = self.blocks@;
        proof {
            assert forall|j: int| 0 <= j < 4 implies ((#[trigger] gblocks[j]).x as int,
            gblocks[j].y as int) == (old_bs[j].0 + 1, old_bs[j].1) by {
                assert(self.blocks_spec()[j] == (old_bs[j].0 + 1, old_bs[j].1));
                assert(self.blocks_spec()[j] == (
                    self.blocks@[j].x as int,
                    self.blocks@[j].y as int,
                ));
            }
        }
        self.center.x = self.center.x + 1;
        proof {
            assert(self.blocks@ == gblocks);
            let cx = old(self).center.x as int;
            let cy = old(self).center.y as int;
            let r = old(self).rotation as int;
            assert forall|j: int| 0 <= j < 4 implies self.blocks_spec()[j] == spec_blocks(
                self.species,
                cx + 1,
                cy,
                r,
            )[j] by {
                assert(self.blocks_spec()[j] == (
                    self.blocks@[j].x as int,
                    self.blocks@[j].y as int,
                ));
                assert(self.blocks@[j] == gblocks[j]);
                assert((gblocks[j].x as int, gblocks[j].y as int) == (
                    old_bs[j].0 + 1,
                    old_bs[j].1,
                ));
                assert(old_bs[j] == spec_blocks(self.species, cx, cy, r)[j]);
                assert(spec_blocks(self.species, cx, cy, r)[j] == (
                    cx + offset(self.species, r, j).0,
                    cy + offset(self.species, r, j).1,
                ));
                assert(spec_blocks(self.species, cx + 1, cy, r)[j] == (
                    cx + 1 + offset(self.species, r, j).0,
                    cy + offset(self.species, r, j).1,
                ));
            }
            assert(self.blocks_spec().len() == 4);
            assert(self.blocks_spec() =~= spec_blocks(self.species, cx + 1, cy, r));
            assert forall|j: int| 0 <= j < 4 implies playable(
                #[trigger] self.blocks_spec()[j].0,
                self.blocks_spec()[j].1,
            ) by {
                assert(self.blocks_spec()[j] == (
                    self.blocks@[j].x as int,
                    self.blocks@[j].y as int,
                ));
                assert(self.blocks@[j] == gblocks[j]);
                assert((gblocks[j].x as int, gblocks[j].y as int) == (
                    old_bs[j].0 + 1,
                    old_bs[j].1,
                ));
                assert(old_bs[j].0 + 1 < BOARD_WIDTH && cell(board@, old_bs[j].0 + 1, old_bs[j].1)
                    == BLANK);
                assert(playable(old_bs[j].0, old_bs[j].1));
                if old_bs[j].0 + 1 == BOARD_WIDTH - 1 {
                    assert(is_border(old_bs[j].0 + 1, old_bs[j].1));
                    assert(cell(board@, old_bs[j].0 + 1, old_bs[j].1) != BLANK);
                }
            }
        }
        true
    }

    /// Try to move the piece one column left; commit the translation only
    /// when every block stays on the board and lands on a blank cell,
    /// otherwise leave the piece unchanged.
    pub fn move_left(&mut self, board: &Board) -> (moved: bool)
        requires
            old(self).wf(),
            board.wf(),
        ensures
            final(self).wf(),
            moved == can_move_left(old(self).blocks_spec(), board@),
            moved ==> final(self).species == old(self).species && final(self).color == old(
                self,
            ).color && final(self).rotation == old(self).rotation && final(self).center.x == old(
                self,
            ).center.x - 1 && final(self).center.y == old(self).center.y
                && final(self).blocks_spec() == spec_blocks(
                old(self).species,
                old(self).center.x as int - 1,
                old(self).center.y as int,
                old(self).rotation as int,
            ),
            !moved ==> *final(self) == *old(self),
    {
        proof {
            self.lemma_center_bounds();
        }
        let mut k: usize = 0;
        while k < 4
            invariant
                k <= 4,
                *self == *old(self),
                old(self).wf(),
                board.wf(),
                forall|j: int|
                    0 <= j < k ==> (#[trigger] old(self).blocks_spec()[j]).0 >= 1 && cell(
                        board@,
                        old(self).blocks_spec()[j].0 - 1,
                        old(self).blocks_spec()[j].1,
                    ) == BLANK,
            decreases 4 - k,
        {
            let b = self.blocks[k];
            proof {
                assert(self.blocks_spec()[k as int] == (b.x as int, b.y as int));
                assert(playable(self.blocks_spec()[k as int].0, self.blocks_spec()[k as int].1));
            }
            if b.x == 0 || board.is_filled(b.x - 1, b.y) {
                return false;
            }
            k = k + 1;
        }
        let ghost old_bs = self.blocks_spec();
        let mut k: usize = 0;
        while k < 4
            invariant
                k <= 4,
                self.blocks@.len() == 4,
                self.species == old(self).species,
                self.color == old(self).color,
                self.rotation == old(self).rotation,
                self.center == old(self).center,
                old(self).wf(),
                board.wf(),
                old_bs == old(self).blocks_spec(),
                can_move_left(old_bs, board@),
                forall|j: int|
                    0 <= j < 4 ==> #[trigger] self.blocks_spec()[j] == if j < k {
                        (old_bs[j].0 - 1, old_bs[j].1)
                    } else {
                        old_bs[j]
                    },
            decreases 4 - k,
        {
            let b = self.blocks[k];
            proof {
                assert(self.blocks_spec()[k as int] == (b.x as int, b.y as int));
                assert(old_bs[k as int].0 >= 1);
            }
            let ghost prev = self.blocks@;
            self.blocks[k] = Block { x: b.x - 1, y: b.y };
            proof {
                assert forall|j: int| 0 <= j < 4 implies #[trigger] self.blocks_spec()[j] == (if j
                    < k + 1 {
                    (old_bs[j].0 - 1, old_bs[j].1)
                } else {
                    old_bs[j]
                }) by {
                    if j == k as int {
                        assert(self.blocks_spec()[j] == (b.x as int - 1, b.y as int));
                    } else {
                        assert(self.blocks@[j] == prev[j]);
                        assert(blocks_view(prev)[j] == (prev[j].x as int, prev[j].y as int));
                    }
                }
            }
            k = k + 1;
        }
        let ghost gblocks = self.blocks@;
        proof {
            assert(self.center.x as int >= 1);
            assert forall|j: int| 0 <= j < 4 implies ((#[trigger] gblocks[j]).x as int,
            gblocks[j].y as int) == (old_bs[j].0 - 1, old_bs[j].1) by {
                assert(self.blocks_spec()[j] == (old_bs[j].0 - 1, old_bs[j].1));
                assert(self.blocks_spec()[j] == (
                    self.blocks@[j].x as int,
                    self.blocks@[j].y as int,
                ));
            }
        }
        self.center.x = self.center.x - 1;
        proof {
            assert(self.blocks@ == gblocks);
            let cx = old(self).center.x as int;
            let cy = old(self).center.y as int;
            let r = old(self).rotation as int;
            assert forall|j: int| 0 <= j < 4 implies self.blocks_spec()[j] == spec_blocks(
                self.species,
                cx - 1,
                cy,
                r,
            )[j] by {
                assert(self.blocks_spec()[j] == (
                    self.blocks@[j].x as int,
                    self.blocks@[j].y as int,
                ));
                assert(self.blocks@[j] == gblocks[j]);
                assert((gblocks[j].x as int, gblocks[j].y as int) == (
                    old_bs[j].0 - 1,
                    old_bs[j].1,
                ));
                assert(old_bs[j] == spec_blocks(self.species, cx, cy, r)[j]);
                assert(spec_blocks(self.species, cx, cy, r)[j] == (
                    cx + offset(self.species, r, j).0,
                    cy + offset(self.species, r, j).1,
                ));
                assert(spec_blocks(self.species, cx - 1, cy, r)[j] == (
                    cx - 1 + offset(self.species, r, j).0,
                    cy + offset(self.species, r, j).1,
                ));
            }
            assert(self.blocks_spec().len() == 4);
            assert(self.blocks_spec() =~= spec_blocks(self.species, cx - 1, cy, r));
            assert forall|j: int| 0 <= j < 4 implies playable(
                #[trigger] self.blocks_spec()[j].0,
                self.blocks_spec()[j].1,
            ) by {
                assert(self.blocks_spec()[j] == (
                    self.blocks@[j].x as int,
                    self.blocks@[j].y as int,
                ));
                assert(self.blocks@[j] == gblocks[j]);
                assert((gblocks[j].x as int, gblocks[j].y as int) == (
                    old_bs[j].0 - 1,
                    old_bs[j].1,
                ));
                assert(old_bs[j].0 >= 1 && cell(board@, old_bs[j].0 - 1, old_bs[j].1) == BLANK);
                assert(playable(old_bs[j].0, old_bs[j].1));
                if old_bs[j].0 - 1 == 0 {
                    assert(is_border(old_bs[j].0 - 1, old_bs[j].1));
                    assert(cell(board@, old_bs[j].0 - 1, old_bs[j].1) != BLANK);
                }
            }
        }
        true
    }
}

} // verus!
