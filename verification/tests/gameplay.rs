use tetrust::BLANK;
use tetrust::BOARD_HEIGHT;
use tetrust::BOARD_WIDTH;
use tetrust::Block;
use tetrust::board::Board;
use tetrust::piece::Shape;
use tetrust::piece::Species;

const SPAWN: Block = Block { x: 6, y: 1 };

#[test]
fn rotation_commits_only_when_every_candidate_cell_is_free() {
    let mut board = Board::new();
    let mut shape = Shape::spawn(Species::Line, &SPAWN, 0xff0000);
    let horizontal = shape.blocks.clone();
    // Block the cell below the anchor so the vertical layout is illegal.
    board.set_block(&Block { x: 6, y: 3 }, 0x11);
    assert!(!shape.rotate_right(&board));
    assert_eq!(shape.blocks, horizontal);
    assert_eq!(shape.rotation, 0);
    // On a free board the same rotation is accepted.
    let mut free = Board::new();
    assert!(shape.rotate_right(&free));
    assert_eq!(shape.rotation, 1);
    assert_eq!(shape.blocks, Shape::blocks_for(Species::Line, &SPAWN, 1));
    // Rotating four times in all returns to the spawn layout.
    assert!(shape.rotate_right(&mut free));
    assert!(shape.rotate_right(&mut free));
    assert!(shape.rotate_right(&mut free));
    assert_eq!(shape.rotation, 0);
    assert_eq!(shape.blocks, horizontal);
}

#[test]
fn sideways_moves_against_a_locked_block_are_rejected_and_change_nothing() {
    let mut board = Board::new();
    let mut shape = Shape::spawn(Species::Square, &SPAWN, 0xff0000);
    // Square at (6,1): blocks in columns 6..=7, rows 1..=2.
    board.set_block(&Block { x: 5, y: 2 }, 0x22);
    board.set_block(&Block { x: 8, y: 1 }, 0x22);
    let before = shape.blocks.clone();
    assert!(!shape.move_left(&board));
    assert_eq!(shape.blocks, before);
    assert_eq!(shape.center, SPAWN);
    assert!(!shape.move_right(&board));
    assert_eq!(shape.blocks, before);
    assert_eq!(shape.center, SPAWN);
    // With the obstacles gone both moves are accepted.
    let free = Board::new();
    assert!(shape.move_left(&free));
    assert_eq!(shape.center, Block { x: 5, y: 1 });
    assert!(shape.move_right(&free));
    assert_eq!(shape.blocks, before);
    assert!(shape.move_right(&free));
    assert_eq!(shape.center, Block { x: 7, y: 1 });
}

#[test]
fn sideways_moves_stop_at_the_border_columns() {
    let board = Board::new();
    let mut shape = Shape::spawn(Species::Square, &SPAWN, 0xff0000);
    // Columns 6..=7; five moves left reach columns 1..=2, the sixth fails.
    for _ in 0..5 {
        assert!(shape.move_left(&board));
    }
    assert_eq!(shape.center, Block { x: 1, y: 1 });
    assert!(!shape.move_left(&board));
    assert_eq!(shape.center, Block { x: 1, y: 1 });
    // Eight moves right from there reach columns 9..=10, the ninth fails.
    for _ in 0..8 {
        assert!(shape.move_right(&board));
    }
    assert_eq!(shape.center, Block { x: 9, y: 1 });
    assert!(!shape.move_right(&board));
}

#[test]
fn move_down_descends_until_it_locks_on_the_bottom_border() {
    let mut board = Board::new();
    let mut shape = Shape::spawn(Species::Square, &SPAWN, 0xff0000);
    let mut steps = 0;
    while shape.move_down(&mut board) {
        steps += 1;
    }
    // From rows 1..=2 down to rows 21..=22... the lowest block rests on
    // row BOARD_HEIGHT - 2 just above the border.
    assert_eq!(steps, BOARD_HEIGHT - 4);
    assert_eq!(shape.center, Block { x: 6, y: BOARD_HEIGHT - 3 });
    // The blocks were absorbed with the piece's color.
    assert_eq!(board.color_at(6, BOARD_HEIGHT - 2), 0xff0000);
    assert_eq!(board.color_at(7, BOARD_HEIGHT - 2), 0xff0000);
    assert_eq!(board.color_at(6, BOARD_HEIGHT - 3), 0xff0000);
    assert_eq!(board.color_at(7, BOARD_HEIGHT - 3), 0xff0000);
    assert!(!board.is_dead());
}

#[test]
fn locking_a_piece_that_fills_a_row_clears_it() {
    let mut board = Board::new();
    // Fill the bottom playable row except columns 7..=10.
    for x in 1..7 {
        board.set_block(&Block { x, y: BOARD_HEIGHT - 2 }, 0x33);
    }
    // A horizontal line spawned over the gap...
    let mut shape = Shape::spawn(Species::Line, &Block { x: 7, y: 1 }, 0x44);
    // ...moved down until its blocks stand on the bottom playable row.
    for _ in 0..BOARD_HEIGHT - 3 {
        assert!(shape.move_down(&mut board));
    }
    assert_eq!(shape.blocks[0], Block { x: 7, y: BOARD_HEIGHT - 2 });
    // Absorbing it completes the row: exactly one row is cleared.
    let cleared = board.emplace(&shape);
    assert_eq!(cleared, 1);
    for x in 1..BOARD_WIDTH - 1 {
        assert_eq!(board.color_at(x, BOARD_HEIGHT - 2), BLANK);
    }
    assert!(!board.is_dead());
}

#[test]
fn two_rows_completed_by_one_lock_clear_together() {
    let mut board = Board::new();
    // Fill the two bottom playable rows except columns 5..=6, and leave a
    // marker higher up to watch the double shift.
    for x in 1..BOARD_WIDTH - 1 {
        if x != 5 && x != 6 {
            board.set_block(&Block { x, y: BOARD_HEIGHT - 2 }, 0x33);
            board.set_block(&Block { x, y: BOARD_HEIGHT - 3 }, 0x33);
        }
    }
    board.set_block(&Block { x: 2, y: BOARD_HEIGHT - 4 }, 0x55);
    // A square over the gap: columns 5..=6.
    let mut shape = Shape::spawn(Species::Square, &Block { x: 5, y: 1 }, 0x44);
    for _ in 0..BOARD_HEIGHT - 4 {
        assert!(shape.move_down(&mut board));
    }
    assert_eq!(shape.blocks[0], Block { x: 5, y: BOARD_HEIGHT - 3 });
    let cleared = board.emplace(&shape);
    assert_eq!(cleared, 2);
    // Both rows went away and the marker dropped by two.
    assert_eq!(board.color_at(2, BOARD_HEIGHT - 2), 0x55);
    assert_eq!(board.color_at(2, BOARD_HEIGHT - 4), BLANK);
    for x in 1..BOARD_WIDTH - 1 {
        if x != 2 {
            assert_eq!(board.color_at(x, BOARD_HEIGHT - 2), BLANK);
        }
        assert_eq!(board.color_at(x, BOARD_HEIGHT - 3), BLANK);
    }
}

#[test]
fn hard_drop_rests_on_the_bottom_and_stacks_one_row_higher() {
    let mut board = Board::new();
    let mut first = Shape::spawn(Species::Line, &SPAWN, 0x66);
    first.drop(&mut board);
    // The line's blocks all sit on the lowest playable row.
    for b in &first.blocks {
        assert_eq!(b.y, BOARD_HEIGHT - 2);
        assert_eq!(board.color_at(b.x, b.y), 0x66);
    }
    let mut second = Shape::spawn(Species::Line, &SPAWN, 0x77);
    second.drop(&mut board);
    // The same footprint rests exactly one row higher.
    for b in &second.blocks {
        assert_eq!(b.y, BOARD_HEIGHT - 3);
        assert_eq!(board.color_at(b.x, b.y), 0x77);
    }
}

#[test]
fn death_comes_exactly_when_a_lock_reaches_the_doom_row() {
    let mut board = Board::new();
    // A column of filled cells up to row 3 in the spawn columns.
    for y in 3..BOARD_HEIGHT - 1 {
        board.set_block(&Block { x: 6, y }, 0x88);
    }
    // A piece dropped onto it locks at row 2, one above the doom row.
    let mut first = Shape::spawn(Species::Line, &SPAWN, 0x66);
    first.drop(&mut board);
    assert_eq!(first.blocks[0], Block { x: 6, y: 2 });
    assert!(!board.is_dead());
    // The next piece locks in the doom row: the game is lost.
    let mut second = Shape::spawn(Species::Line, &SPAWN, 0x77);
    second.drop(&mut board);
    assert_eq!(second.blocks[0], Block { x: 6, y: 1 });
    assert!(board.is_dead());
}
