use tetrust::BLANK;
use tetrust::BOARD_HEIGHT;
use tetrust::BOARD_WIDTH;
use tetrust::BORDER_COLOR;
use tetrust::Block;
use tetrust::board::Board;

#[test]
fn fresh_board_has_painted_borders_and_blank_interior() {
    let board = Board::new();
    for x in 0..BOARD_WIDTH {
        for y in 0..BOARD_HEIGHT {
            let color = board.color_at(x, y);
            if x == 0 || x == BOARD_WIDTH - 1 || y == BOARD_HEIGHT - 1 {
                assert_eq!(color, BORDER_COLOR);
                assert!(board.is_filled(x, y));
            } else {
                assert_eq!(color, BLANK);
                assert!(!board.is_filled(x, y));
            }
        }
    }
}

#[test]
fn default_board_equals_a_new_board() {
    let a: Board = Default::default();
    let b = Board::new();
    for x in 0..BOARD_WIDTH {
        for y in 0..BOARD_HEIGHT {
            assert_eq!(a.color_at(x, y), b.color_at(x, y));
        }
    }
}

#[test]
fn set_block_writes_one_cell() {
    let mut board = Board::new();
    board.set_block(&Block { x: 4, y: 10 }, 0x123456);
    assert_eq!(board.color_at(4, 10), 0x123456);
    assert!(board.is_filled(4, 10));
    assert_eq!(board.color_at(5, 10), BLANK);
    assert_eq!(board.color_at(4, 11), BLANK);
    assert_eq!(board.color_at(4, 9), BLANK);
}

#[test]
fn valid_move_enforces_playable_columns_bottom_and_occupancy() {
    let mut board = Board::new();
    assert!(board.valid_move(&Block { x: 5, y: 0 }));
    assert!(board.valid_move(&Block { x: 1, y: 10 }));
    assert!(board.valid_move(&Block { x: BOARD_WIDTH - 2, y: 10 }));
    // Border columns and the bottom border are occupied or out of range.
    assert!(!board.valid_move(&Block { x: 0, y: 10 }));
    assert!(!board.valid_move(&Block { x: BOARD_WIDTH - 1, y: 10 }));
    assert!(!board.valid_move(&Block { x: 5, y: BOARD_HEIGHT - 1 }));
    assert!(!board.valid_move(&Block { x: 5, y: BOARD_HEIGHT }));
    // An occupied playable cell is not a valid move.
    board.set_block(&Block { x: 5, y: 10 }, 0xff);
    assert!(!board.valid_move(&Block { x: 5, y: 10 }));
}

#[test]
fn check_rows_on_a_fresh_board_clears_nothing() {
    let mut board = Board::new();
    assert_eq!(board.check_rows(), 0);
    for x in 1..BOARD_WIDTH - 1 {
        for y in 0..BOARD_HEIGHT - 1 {
            assert_eq!(board.color_at(x, y), BLANK);
        }
    }
}

#[test]
fn check_rows_clears_a_single_full_row_and_shifts_the_stack_down() {
    let mut board = Board::new();
    // A full bottom playable row, with one marker block above it.
    for x in 1..BOARD_WIDTH - 1 {
        board.set_block(&Block { x, y: BOARD_HEIGHT - 2 }, 0xaa);
    }
    board.set_block(&Block { x: 3, y: BOARD_HEIGHT - 3 }, 0xbb);
    assert_eq!(board.check_rows(), 1);
    // The marker moved down one row; the row above it is now blank.
    assert_eq!(board.color_at(3, BOARD_HEIGHT - 2), 0xbb);
    assert_eq!(board.color_at(3, BOARD_HEIGHT - 3), BLANK);
    for x in 1..BOARD_WIDTH - 1 {
        if x != 3 {
            assert_eq!(board.color_at(x, BOARD_HEIGHT - 2), BLANK);
        }
    }
    // Borders are untouched.
    for y in 0..BOARD_HEIGHT {
        assert_eq!(board.color_at(0, y), BORDER_COLOR);
        assert_eq!(board.color_at(BOARD_WIDTH - 1, y), BORDER_COLOR);
    }
    for x in 0..BOARD_WIDTH {
        assert_eq!(board.color_at(x, BOARD_HEIGHT - 1), BORDER_COLOR);
    }
}

#[test]
fn is_dead_reflects_the_doom_row_exactly() {
    let mut board = Board::new();
    assert!(!board.is_dead());
    // A filled cell anywhere else does not kill.
    board.set_block(&Block { x: 5, y: 2 }, 0xcc);
    assert!(!board.is_dead());
    // Any filled playable cell of the doom row does.
    board.set_block(&Block { x: 10, y: 1 }, 0xcc);
    assert!(board.is_dead());
}
