use tetrust::BLANK;
use tetrust::BORDER_COLOR;
use tetrust::Block;
use tetrust::board::Board;
use tetrust::piece::Shape;
use tetrust::piece::Species;
use tetrust::render::SQUARE_SIZE;
use tetrust::render::WINDOW_HEIGHT;
use tetrust::render::WINDOW_WIDTH;
use tetrust::render::render_board;

fn pixel_at(buffer: &[u32], px: usize, py: usize) -> u32 {
    buffer[py * WINDOW_WIDTH + px]
}

#[test]
fn rendering_paints_cells_squares_and_the_piece_on_top() {
    let board = Board::new();
    let shape = Shape::spawn(Species::Square, &Block { x: 6, y: 1 }, 0x00ff00);
    let mut buffer: Vec<u32> = vec![0x12345678; WINDOW_WIDTH * WINDOW_HEIGHT];
    render_board(&board, &mut buffer, &shape);
    assert_eq!(buffer.len(), WINDOW_WIDTH * WINDOW_HEIGHT);
    // A border cell's square is border-colored, corner to corner.
    assert_eq!(pixel_at(&buffer, 0, 0), BORDER_COLOR);
    assert_eq!(pixel_at(&buffer, SQUARE_SIZE - 1, SQUARE_SIZE - 1), BORDER_COLOR);
    // An empty interior cell renders blank: no stale pixels survive.
    assert_eq!(pixel_at(&buffer, 3 * SQUARE_SIZE + 7, 5 * SQUARE_SIZE + 11), BLANK);
    // The piece's blocks are drawn over their cells in the piece's color.
    assert_eq!(pixel_at(&buffer, 6 * SQUARE_SIZE, SQUARE_SIZE), 0x00ff00);
    assert_eq!(pixel_at(&buffer, 7 * SQUARE_SIZE + 5, 2 * SQUARE_SIZE + 9), 0x00ff00);
    // A cell right next to the piece stays blank.
    assert_eq!(pixel_at(&buffer, 5 * SQUARE_SIZE + 1, SQUARE_SIZE + 1), BLANK);
}

#[test]
fn rendering_shows_locked_blocks_in_their_color() {
    let mut board = Board::new();
    board.set_block(&Block { x: 4, y: 20 }, 0xdead);
    let shape = Shape::spawn(Species::Hat, &Block { x: 6, y: 1 }, 0xbeef);
    let mut buffer: Vec<u32> = vec![0; WINDOW_WIDTH * WINDOW_HEIGHT];
    render_board(&board, &mut buffer, &shape);
    assert_eq!(pixel_at(&buffer, 4 * SQUARE_SIZE + 2, 20 * SQUARE_SIZE + 2), 0xdead);
    // The hat's stem above the anchor is drawn too.
    assert_eq!(pixel_at(&buffer, 6 * SQUARE_SIZE + 2, 2), 0xbeef);
}

#[test]
fn rendering_into_a_longer_buffer_leaves_the_tail_alone() {
    let board = Board::new();
    let shape = Shape::spawn(Species::Square, &Block { x: 6, y: 1 }, 0x00ff00);
    let picture = WINDOW_WIDTH * WINDOW_HEIGHT;
    let mut buffer: Vec<u32> = vec![0x5a5a5a5a; picture + 100];
    render_board(&board, &mut buffer, &shape);
    assert_eq!(buffer.len(), picture + 100);
    // The picture itself is drawn...
    assert_eq!(pixel_at(&buffer, 0, 0), BORDER_COLOR);
    assert_eq!(pixel_at(&buffer, 6 * SQUARE_SIZE, SQUARE_SIZE), 0x00ff00);
    // ...and every pixel past it keeps its old value.
    for i in picture..picture + 100 {
        assert_eq!(buffer[i], 0x5a5a5a5a);
    }
}
