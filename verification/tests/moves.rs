use game2048::board::Board;
use game2048::direction::Direction;
use game2048::engine::{apply, MoveResult};

fn board_from(rows: &[[u32; 4]; 4]) -> Board {
    let mut board = Board::new(4);
    for r in 0..4 {
        for c in 0..4 {
            assert_eq!(board.set_cell_at(r, c, rows[r][c]), Ok(()));
        }
    }
    board
}

fn rows(rows: &[[u32; 4]; 4]) -> Vec<Vec<u32>> {
    rows.iter().map(|row| row.to_vec()).collect()
}

#[test]
fn move_left_slides_each_row() {
    let mut board = board_from(&[[2, 2, 2, 2], [0, 2, 0, 4], [2, 4, 8, 16], [0, 0, 0, 0]]);
    let result = apply(&mut board, Direction::Left);
    assert_eq!(result, MoveResult { board_changed: true, score_gained: 8 });
    assert_eq!(board.cells(), rows(&[[4, 4, 0, 0], [2, 4, 0, 0], [2, 4, 8, 16], [0, 0, 0, 0]]));
}

#[test]
fn move_right_slides_each_row_the_other_way() {
    let mut board = board_from(&[[2, 2, 2, 2], [0, 2, 0, 4], [2, 4, 8, 16], [2, 2, 2, 0]]);
    let result = apply(&mut board, Direction::Right);
    assert_eq!(result, MoveResult { board_changed: true, score_gained: 12 });
    assert_eq!(board.cells(), rows(&[[0, 0, 4, 4], [0, 0, 2, 4], [2, 4, 8, 16], [0, 0, 2, 4]]));
}

#[test]
fn move_up_slides_each_column() {
    let mut board = board_from(&[[2, 0, 2, 0], [2, 2, 4, 0], [2, 0, 8, 0], [2, 4, 16, 0]]);
    let result = apply(&mut board, Direction::Up);
    assert_eq!(result, MoveResult { board_changed: true, score_gained: 8 });
    assert_eq!(board.cells(), rows(&[[4, 2, 2, 0], [4, 4, 4, 0], [0, 0, 8, 0], [0, 0, 16, 0]]));
}

#[test]
fn move_down_slides_each_column_the_other_way() {
    let mut board = board_from(&[[2, 0, 2, 0], [2, 2, 4, 0], [2, 0, 8, 0], [2, 4, 16, 0]]);
    let result = apply(&mut board, Direction::Down);
    assert_eq!(result, MoveResult { board_changed: true, score_gained: 8 });
    assert_eq!(board.cells(), rows(&[[0, 0, 2, 0], [0, 0, 4, 0], [4, 2, 8, 0], [4, 4, 16, 0]]));
}

#[test]
fn idle_move_leaves_cells_and_score() {
    let start = [[2, 2, 0, 0], [0, 4, 4, 0], [8, 0, 0, 8], [0, 0, 0, 0]];
    let mut board = board_from(&start);
    board.add_score(36);
    let result = apply(&mut board, Direction::Idle);
    assert_eq!(result, MoveResult { board_changed: false, score_gained: 0 });
    assert_eq!(board.cells(), rows(&start));
    assert_eq!(board.score(), 36);
}

#[test]
fn move_does_not_touch_the_score_of_the_board() {
    let mut board = board_from(&[[2, 2, 0, 0], [0, 0, 0, 0], [0, 0, 0, 0], [0, 0, 0, 0]]);
    board.add_score(100);
    let result = apply(&mut board, Direction::Left);
    assert_eq!(result.score_gained, 4);
    assert_eq!(board.score(), 100);
}

#[test]
fn move_that_moves_nothing_reports_no_change() {
    let start = [[2, 0, 0, 0], [4, 0, 0, 0], [2, 4, 0, 0], [0, 0, 0, 0]];
    let mut board = board_from(&start);
    let result = apply(&mut board, Direction::Left);
    assert_eq!(result, MoveResult { board_changed: false, score_gained: 0 });
    assert_eq!(board.cells(), rows(&start));
}

#[test]
fn packed_rows_without_equal_neighbours_do_not_change() {
    let start = [[2, 4, 8, 16], [16, 8, 4, 2], [2, 4, 8, 16], [16, 8, 4, 2]];
    for direction in [Direction::Left, Direction::Right] {
        let mut board = board_from(&start);
        let result = apply(&mut board, direction);
        assert_eq!(result, MoveResult { board_changed: false, score_gained: 0 });
        assert_eq!(board.cells(), rows(&start));
    }
}

#[test]
fn blank_board_does_not_change() {
    for direction in [Direction::Up, Direction::Down, Direction::Left, Direction::Right] {
        let mut board = Board::new(4);
        let result = apply(&mut board, direction);
        assert_eq!(result, MoveResult { board_changed: false, score_gained: 0 });
        assert_eq!(board.cells(), vec![vec![0u32; 4]; 4]);
    }
}

#[test]
fn slide_without_merge_changes_the_board_and_earns_nothing() {
    let mut board = board_from(&[[0, 0, 0, 2], [0, 0, 0, 0], [0, 0, 0, 0], [0, 0, 0, 0]]);
    let result = apply(&mut board, Direction::Left);
    assert_eq!(result, MoveResult { board_changed: true, score_gained: 0 });
    assert_eq!(board.cells(), rows(&[[2, 0, 0, 0], [0, 0, 0, 0], [0, 0, 0, 0], [0, 0, 0, 0]]));
}

#[test]
fn score_of_a_move_sums_over_all_lines() {
    let mut board = board_from(&[[2, 2, 4, 4], [8, 8, 0, 0], [16, 0, 0, 16], [32, 64, 64, 32]]);
    let result = apply(&mut board, Direction::Left);
    assert_eq!(result, MoveResult { board_changed: true, score_gained: 4 + 8 + 16 + 32 + 128 });
    assert_eq!(board.cells(), rows(&[[4, 8, 0, 0], [16, 0, 0, 0], [32, 0, 0, 0], [32, 128, 32, 0]]));
}

#[test]
fn opposite_moves_earn_the_same_from_a_row_of_equals() {
    let mut left = board_from(&[[4, 4, 4, 0], [0, 0, 0, 0], [0, 0, 0, 0], [0, 0, 0, 0]]);
    let mut right = board_from(&[[4, 4, 4, 0], [0, 0, 0, 0], [0, 0, 0, 0], [0, 0, 0, 0]]);
    assert_eq!(apply(&mut left, Direction::Left).score_gained, 8);
    assert_eq!(apply(&mut right, Direction::Right).score_gained, 8);
    assert_eq!(left.cell_at(0, 0), Ok(8));
    assert_eq!(left.cell_at(0, 1), Ok(4));
    assert_eq!(right.cell_at(0, 3), Ok(8));
    assert_eq!(right.cell_at(0, 2), Ok(4));
}

#[test]
fn board_of_side_three_moves() {
    let mut board = Board::new(3);
    assert_eq!(board.set_cell_at(0, 0, 2), Ok(()));
    assert_eq!(board.set_cell_at(2, 0, 2), Ok(()));
    assert_eq!(board.set_cell_at(1, 1, 4), Ok(()));
    let result = apply(&mut board, Direction::Down);
    assert_eq!(result, MoveResult { board_changed: true, score_gained: 4 });
    assert_eq!(board.cells(), vec![vec![0, 0, 0], vec![0, 0, 0], vec![4, 4, 0]]);
}
