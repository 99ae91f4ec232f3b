use game2048::board::{Board, BoardError, MAX_SIDE};
use game2048::tile::{is_valid_tile, TILE_MAX};

fn board_from(rows: &[[u32; 4]; 4]) -> Board {
    let mut board = Board::new(4);
    for r in 0..4 {
        for c in 0..4 {
            assert_eq!(board.set_cell_at(r, c, rows[r][c]), Ok(()));
        }
    }
    board
}

#[test]
fn new_board_is_blank() {
    let board = Board::new(4);
    assert_eq!(board.size(), 4);
    assert_eq!(board.score(), 0);
    assert_eq!(board.cells(), vec![vec![0u32; 4]; 4]);
    assert_eq!(board.empty_cells().len(), 16);
}

#[test]
fn board_of_side_zero_has_no_cells() {
    let board = Board::new(0);
    assert_eq!(board.size(), 0);
    assert_eq!(board.cells(), Vec::<Vec<u32>>::new());
    assert_eq!(board.empty_cells(), Vec::new());
    assert_eq!(board.cell_at(0, 0), Err(BoardError::OutOfRange));
}

#[test]
fn largest_board_can_be_made() {
    let board = Board::new(MAX_SIDE);
    assert_eq!(board.size(), 4096);
    assert_eq!(board.cell_at(4095, 4095), Ok(0));
    assert_eq!(board.cell_at(4096, 0), Err(BoardError::OutOfRange));
}

#[test]
fn cell_is_read_back_where_it_was_written() {
    let mut board = Board::new(4);
    assert_eq!(board.set_cell_at(1, 2, 8), Ok(()));
    assert_eq!(board.cell_at(1, 2), Ok(8));
    assert_eq!(board.cell_at(2, 1), Ok(0));
    assert_eq!(
        board.cells(),
        vec![vec![0, 0, 0, 0], vec![0, 0, 8, 0], vec![0, 0, 0, 0], vec![0, 0, 0, 0]]
    );
    assert_eq!(board.set_cell_at(1, 2, 0), Ok(()));
    assert_eq!(board.cell_at(1, 2), Ok(0));
}

#[test]
fn reading_off_the_board_is_out_of_range() {
    let board = Board::new(4);
    assert_eq!(board.cell_at(4, 0), Err(BoardError::OutOfRange));
    assert_eq!(board.cell_at(0, 4), Err(BoardError::OutOfRange));
    assert_eq!(board.cell_at(usize::MAX, usize::MAX), Err(BoardError::OutOfRange));
    assert_eq!(board.cell_at(3, 3), Ok(0));
}

#[test]
fn writing_off_the_board_is_out_of_range() {
    let mut board = Board::new(4);
    assert_eq!(board.set_cell_at(4, 0, 2), Err(BoardError::OutOfRange));
    assert_eq!(board.set_cell_at(0, 4, 2), Err(BoardError::OutOfRange));
    assert_eq!(board.set_cell_at(7, 7, 3), Err(BoardError::OutOfRange));
    assert_eq!(board.cells(), vec![vec![0u32; 4]; 4]);
}

#[test]
fn writing_a_value_that_is_no_tile_is_refused() {
    let mut board = Board::new(4);
    assert_eq!(board.set_cell_at(0, 0, 16), Ok(()));
    for value in [1u32, 3, 6, 12, 100, 2047, 2049, u32::MAX] {
        assert_eq!(board.set_cell_at(0, 0, value), Err(BoardError::InvalidCellValue));
        assert_eq!(board.cell_at(0, 0), Ok(16));
    }
}

#[test]
fn every_power_of_two_from_two_is_a_tile() {
    let mut board = Board::new(2);
    for exponent in 1..32 {
        let value = 1u32 << exponent;
        assert!(is_valid_tile(value));
        assert_eq!(board.set_cell_at(1, 1, value), Ok(()));
        assert_eq!(board.cell_at(1, 1), Ok(value));
    }
    assert!(is_valid_tile(0));
    assert!(is_valid_tile(TILE_MAX));
    assert_eq!(TILE_MAX, 1u32 << 31);
}

#[test]
fn values_between_powers_of_two_are_no_tiles() {
    assert!(!is_valid_tile(1));
    for exponent in 2..32 {
        let value = 1u32 << exponent;
        assert!(!is_valid_tile(value - 1));
        assert!(!is_valid_tile(value + 1));
    }
    assert!(!is_valid_tile(u32::MAX));
}

#[test]
fn free_cells_come_in_reading_order() {
    let board = board_from(&[[2, 0, 4, 0], [0, 0, 0, 8], [2, 2, 2, 2], [0, 16, 0, 0]]);
    assert_eq!(
        board.empty_cells(),
        vec![(0, 1), (0, 3), (1, 0), (1, 1), (1, 2), (3, 0), (3, 2), (3, 3)]
    );
}

#[test]
fn full_board_has_no_free_cell() {
    let board = board_from(&[[2, 4, 2, 4], [4, 2, 4, 2], [2, 4, 2, 4], [4, 2, 4, 2]]);
    assert_eq!(board.empty_cells(), Vec::new());
}

#[test]
fn score_adds_up() {
    let mut board = Board::new(4);
    board.add_score(4);
    assert_eq!(board.score(), 4);
    board.add_score(0);
    assert_eq!(board.score(), 4);
    board.add_score(2048);
    assert_eq!(board.score(), 2052);
    assert_eq!(board.cells(), vec![vec![0u32; 4]; 4]);
}
