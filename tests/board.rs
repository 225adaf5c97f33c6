use game_of_life::board::{Board, BoardError, ALIVE_GLYPH, DEAD_GLYPH};
use game_of_life::topology::{wrapping_add, wrapping_sub, Boundary, Position};

fn board_of(rows: Vec<Vec<u8>>) -> Board {
    Board::load(&rows).unwrap()
}

fn assert_eq_board(board_1: Board, board_2: Board) {
    assert_eq!(board_1.pretty(), board_2.pretty());
}

#[test]
fn should_die_with_0_neighbours() {
    let mut board = board_of(vec![
        vec![0, 0, 0],
        vec![0, 1, 0],
        vec![0, 0, 0],
    ]);

    board.next_gen();

    let board_expected = board_of(vec![
        vec![0, 0, 0],
        vec![0, 0, 0],
        vec![0, 0, 0],
    ]);
    assert_eq_board(board, board_expected);
}

#[test]
fn should_die_with_1_neighbours() {
    let mut board = board_of(vec![
        vec![0, 0, 0],
        vec![0, 1, 1],
        vec![0, 0, 0],
    ]);

    board.next_gen();

    let board_expected = board_of(vec![
        vec![0, 0, 0],
        vec![0, 0, 0],
        vec![0, 0, 0],
    ]);
    assert_eq_board(board, board_expected);
}

#[test]
fn should_not_die_with_2_neighbours_and_be_born_with_3_neighbours() {
    let mut board = board_of(vec![
        vec![0, 0, 0, 0, 0],
        vec![0, 1, 1, 1, 0],
        vec![0, 0, 0, 0, 0],
    ]);

    board.next_gen();

    let board_expected = board_of(vec![
        vec![0, 0, 1, 0, 0],
        vec![0, 0, 1, 0, 0],
        vec![0, 0, 1, 0, 0],
    ]);
    assert_eq_board(board, board_expected);
}

#[test]
fn should_die_with_4_neighbours() {
    let mut board = board_of(vec![
        vec![0, 0, 0, 0, 0],
        vec![0, 0, 1, 0, 0],
        vec![0, 1, 1, 1, 0],
        vec![0, 0, 1, 0, 0],
        vec![0, 0, 0, 0, 0],
    ]);

    board.next_gen();

    let board_expected = board_of(vec![
        vec![0, 0, 0, 0, 0],
        vec![0, 1, 1, 1, 0],
        vec![0, 1, 0, 1, 0],
        vec![0, 1, 1, 1, 0],
        vec![0, 0, 0, 0, 0],
    ]);
    assert_eq_board(board, board_expected);
}

#[test]
fn new_refuses_zero_width() {
    let r = Board::new(Boundary { width: 0, height: 5 });
    assert_eq!(r.unwrap_err(), BoardError::InvalidDimensions);
}

#[test]
fn new_refuses_zero_height() {
    let r = Board::new(Boundary { width: 5, height: 0 });
    assert_eq!(r.unwrap_err(), BoardError::InvalidDimensions);
}

#[test]
fn new_board_is_empty() {
    let board = Board::new(Boundary { width: 3, height: 2 }).unwrap();
    let dead_row = format!("{}{}{}\n", DEAD_GLYPH, DEAD_GLYPH, DEAD_GLYPH);
    assert_eq!(board.pretty(), format!("{}{}", dead_row, dead_row));
}

#[test]
fn load_refuses_no_rows() {
    let rows: Vec<Vec<u8>> = vec![];
    assert_eq!(Board::load(&rows).unwrap_err(), BoardError::InvalidDimensions);
}

#[test]
fn load_refuses_empty_rows() {
    let rows: Vec<Vec<u8>> = vec![vec![], vec![]];
    assert_eq!(Board::load(&rows).unwrap_err(), BoardError::InvalidDimensions);
}

#[test]
fn load_refuses_ragged_rows() {
    let rows: Vec<Vec<u8>> = vec![vec![0, 1, 0], vec![1, 0]];
    assert_eq!(Board::load(&rows).unwrap_err(), BoardError::InvalidDimensions);
}

#[test]
fn pretty_draws_rows_top_to_bottom() {
    let board = board_of(vec![vec![1, 0], vec![0, 0], vec![0, 7]]);
    let expected = format!(
        "{a}{d}\n{d}{d}\n{d}{a}\n",
        a = ALIVE_GLYPH,
        d = DEAD_GLYPH
    );
    assert_eq!(board.pretty(), expected);
    assert_eq!(ALIVE_GLYPH, "\u{1f47e}");
    assert_eq!(DEAD_GLYPH, "\u{2b1b}\u{fe0f}");
}

#[test]
fn block_stays_still() {
    let pattern = vec![
        vec![0, 0, 0, 0, 0],
        vec![0, 1, 1, 0, 0],
        vec![0, 1, 1, 0, 0],
        vec![0, 0, 0, 0, 0],
        vec![0, 0, 0, 0, 0],
    ];
    let mut board = board_of(pattern.clone());
    for _ in 0..5 {
        board.next_gen();
        assert_eq!(board.pretty(), board_of(pattern.clone()).pretty());
    }
}

#[test]
fn empty_board_stays_empty() {
    let mut board = Board::new(Boundary { width: 4, height: 4 }).unwrap();
    let before = board.pretty();
    board.next_gen();
    assert_eq!(board.pretty(), before);
}

#[test]
fn blinker_is_not_idempotent() {
    let pattern = vec![
        vec![0, 0, 0, 0, 0],
        vec![0, 0, 0, 0, 0],
        vec![0, 1, 1, 1, 0],
        vec![0, 0, 0, 0, 0],
        vec![0, 0, 0, 0, 0],
    ];
    let mut once = board_of(pattern.clone());
    once.next_gen();
    let mut twice = board_of(pattern.clone());
    twice.next_gen();
    twice.next_gen();
    assert_ne!(once.pretty(), twice.pretty());
    assert_eq!(twice.pretty(), board_of(pattern).pretty());
}

#[test]
fn blinker_wraps_across_the_top_edge() {
    let mut board = board_of(vec![
        vec![0, 1, 1, 1, 0],
        vec![0, 0, 0, 0, 0],
        vec![0, 0, 0, 0, 0],
        vec![0, 0, 0, 0, 0],
        vec![0, 0, 0, 0, 0],
    ]);
    board.next_gen();
    let expected = board_of(vec![
        vec![0, 0, 1, 0, 0],
        vec![0, 0, 1, 0, 0],
        vec![0, 0, 0, 0, 0],
        vec![0, 0, 0, 0, 0],
        vec![0, 0, 1, 0, 0],
    ]);
    assert_eq_board(board, expected);
}

#[test]
fn lone_cell_on_one_cell_grid_counts_itself_eight_times() {
    let board = board_of(vec![vec![1]]);
    let p = Position { x: 0, y: 0 };
    assert_eq!(board.count_alive_neighbours(&p), 8);
    let ns = board.neighbours(&p);
    assert!(ns.iter().all(|q| *q == p));
}

#[test]
fn lone_cell_on_narrow_grid_counts_itself_twice() {
    let board = board_of(vec![vec![0], vec![1], vec![0]]);
    let p = Position { x: 0, y: 1 };
    assert_eq!(board.count_alive_neighbours(&p), 2);
    let ns = board.neighbours(&p);
    assert_eq!(ns[2], p);
    assert_eq!(ns[6], p);
    assert_eq!(ns[0], Position { x: 0, y: 0 });
    assert_eq!(ns[1], ns[0]);
    assert_eq!(ns[7], ns[0]);
}

#[test]
fn lone_cell_on_flat_grid_counts_itself_twice() {
    let board = board_of(vec![vec![0, 1, 0, 0]]);
    let p = Position { x: 1, y: 0 };
    assert_eq!(board.count_alive_neighbours(&p), 2);
    let ns = board.neighbours(&p);
    assert_eq!(ns[0], p);
    assert_eq!(ns[4], p);
}

#[test]
fn neighbours_wrap_around_corners() {
    let board = Board::new(Boundary { width: 4, height: 3 }).unwrap();
    let ns = board.neighbours(&Position { x: 0, y: 0 });
    let expected = [
        Position { x: 0, y: 2 },
        Position { x: 1, y: 2 },
        Position { x: 1, y: 0 },
        Position { x: 1, y: 1 },
        Position { x: 0, y: 1 },
        Position { x: 3, y: 1 },
        Position { x: 3, y: 0 },
        Position { x: 3, y: 2 },
    ];
    assert_eq!(ns, expected);
}

#[test]
fn count_alive_neighbours_of_plus_centre() {
    let board = board_of(vec![
        vec![0, 0, 0, 0, 0],
        vec![0, 0, 1, 0, 0],
        vec![0, 1, 1, 1, 0],
        vec![0, 0, 1, 0, 0],
        vec![0, 0, 0, 0, 0],
    ]);
    assert_eq!(board.count_alive_neighbours(&Position { x: 2, y: 2 }), 4);
    assert_eq!(board.count_alive_neighbours(&Position { x: 1, y: 1 }), 3);
    assert_eq!(board.count_alive_neighbours(&Position { x: 0, y: 0 }), 0);
}

#[test]
fn wrapping_steps() {
    assert_eq!(wrapping_add(3, 4), 4);
    assert_eq!(wrapping_add(4, 4), 0);
    assert_eq!(wrapping_sub(0, 4), 4);
    assert_eq!(wrapping_sub(3, 4), 2);
}

#[test]
fn position_steps_wrap() {
    let b = Boundary { width: 3, height: 2 };
    let corner = Position { x: 0, y: 0 };
    assert_eq!(corner.top(&b), Position { x: 0, y: 1 });
    assert_eq!(corner.left(&b), Position { x: 2, y: 0 });
    assert_eq!(corner.right(&b), Position { x: 1, y: 0 });
    assert_eq!(corner.down(&b), Position { x: 0, y: 1 });
    let far = Position { x: 2, y: 1 };
    assert_eq!(far.right(&b), Position { x: 0, y: 1 });
    assert_eq!(far.down(&b), Position { x: 2, y: 0 });
}

#[test]
fn randomize_with_marks_high_draws() {
    let mut board = Board::new(Boundary { width: 2, height: 2 }).unwrap();
    board.randomize_with(&vec![80, 79, 0, 99]);
    let expected = board_of(vec![vec![1, 0], vec![0, 1]]);
    assert_eq_board(board, expected);
}

#[test]
fn randomize_keeps_size_and_leaves_some_cells_dead() {
    let mut board = Board::new(Boundary { width: 30, height: 30 }).unwrap();
    board.randomize();
    let picture = board.pretty();
    assert_eq!(picture.lines().count(), 30);
    assert!(picture.contains(DEAD_GLYPH));
    let full = board_of(vec![vec![1u8; 30]; 30]);
    assert_ne!(picture, full.pretty());
}
