use game2048::board::Board;
use game2048::spawner::{spawn_at, Spawner, SPAWN_ROLLS};

fn board_from(rows: &[[u32; 4]; 4]) -> Board {
    let mut board = Board::new(4);
    for r in 0..4 {
        for c in 0..4 {
            assert_eq!(board.set_cell_at(r, c, rows[r][c]), Ok(()));
        }
    }
    board
}

fn count_tiles(board: &Board) -> usize {
    board.cells().iter().flatten().filter(|value| **value != 0).count()
}

#[test]
fn rolls_are_counted_in_hundredths() {
    assert_eq!(SPAWN_ROLLS, 100);
}

#[test]
fn picked_free_cell_gets_the_tile() {
    let mut board = board_from(&[[2, 0, 4, 0], [0, 0, 0, 8], [2, 2, 2, 2], [0, 16, 0, 0]]);
    assert_eq!(spawn_at(&mut board, 0, false), Some((0, 1, 2)));
    assert_eq!(board.cell_at(0, 1), Ok(2));
    assert_eq!(spawn_at(&mut board, 0, true), Some((0, 3, 4)));
    assert_eq!(board.cell_at(0, 3), Ok(4));
    assert_eq!(spawn_at(&mut board, 5, false), Some((3, 3, 2)));
    assert_eq!(
        board.cells(),
        vec![vec![2, 2, 4, 4], vec![0, 0, 0, 8], vec![2, 2, 2, 2], vec![0, 16, 0, 2]]
    );
    assert_eq!(board.score(), 0);
}

#[test]
fn pick_beyond_the_free_cells_places_nothing() {
    let start = [[2, 0, 4, 0], [2, 4, 2, 8], [2, 2, 2, 2], [4, 16, 4, 2]];
    let mut board = board_from(&start);
    assert_eq!(spawn_at(&mut board, 2, false), None);
    assert_eq!(spawn_at(&mut board, usize::MAX, true), None);
    assert_eq!(board.cells(), start.iter().map(|row| row.to_vec()).collect::<Vec<_>>());
}

#[test]
fn nothing_is_placed_on_a_full_board() {
    let start = [[2, 4, 2, 4], [4, 2, 4, 2], [2, 4, 2, 4], [4, 2, 4, 2]];
    let mut board = board_from(&start);
    assert_eq!(spawn_at(&mut board, 0, false), None);
    let mut spawner = Spawner::new(7, 10);
    assert_eq!(spawner.spawn_one(&mut board), None);
    assert_eq!(spawner.seed_one(&mut board), None);
    assert_eq!(board.cells(), start.iter().map(|row| row.to_vec()).collect::<Vec<_>>());
}

#[test]
fn drawn_tile_lands_on_a_free_cell() {
    for seed in 0..50u64 {
        let mut board = board_from(&[[2, 0, 4, 0], [0, 0, 0, 8], [2, 2, 2, 2], [0, 16, 0, 0]]);
        let before = board.cells();
        let mut spawner = Spawner::new(seed, 10);
        let (row, col, value) = spawner.spawn_one(&mut board).unwrap();
        assert!(row < 4 && col < 4);
        assert_eq!(before[row][col], 0);
        assert!(value == 2 || value == 4);
        let mut expected = before.clone();
        expected[row][col] = value;
        assert_eq!(board.cells(), expected);
    }
}

#[test]
fn board_fills_up_one_tile_at_a_time() {
    let mut board = Board::new(4);
    let mut spawner = Spawner::new(2048, 10);
    for placed in 0..16 {
        assert_eq!(count_tiles(&board), placed);
        assert!(spawner.spawn_one(&mut board).is_some());
    }
    assert_eq!(count_tiles(&board), 16);
    assert_eq!(spawner.spawn_one(&mut board), None);
}

#[test]
fn only_free_cell_is_always_drawn() {
    for seed in 0..20u64 {
        let mut board = board_from(&[[2, 4, 2, 4], [4, 2, 4, 2], [2, 4, 0, 4], [4, 2, 4, 2]]);
        let mut spawner = Spawner::new(seed, 0);
        assert_eq!(spawner.spawn_one(&mut board), Some((2, 2, 2)));
    }
}

#[test]
fn no_fours_at_zero_percent() {
    let mut spawner = Spawner::new(11, 0);
    assert_eq!(spawner.four_percent(), 0);
    for _ in 0..40 {
        let mut board = Board::new(4);
        let (_, _, value) = spawner.spawn_one(&mut board).unwrap();
        assert_eq!(value, 2);
    }
}

#[test]
fn only_fours_at_a_hundred_percent() {
    let mut spawner = Spawner::new(11, 100);
    assert_eq!(spawner.four_percent(), 100);
    for _ in 0..40 {
        let mut board = Board::new(4);
        let (_, _, value) = spawner.spawn_one(&mut board).unwrap();
        assert_eq!(value, 4);
    }
}

#[test]
fn both_values_come_at_fifty_percent() {
    let mut spawner = Spawner::new(5, 50);
    let mut twos = 0;
    let mut fours = 0;
    for _ in 0..400 {
        let mut board = Board::new(4);
        match spawner.spawn_one(&mut board) {
            Some((_, _, 2)) => twos += 1,
            Some((_, _, 4)) => fours += 1,
            other => panic!("unexpected spawn {:?}", other),
        }
    }
    assert!(twos > 100 && fours > 100);
}

#[test]
fn seed_tiles_are_twos() {
    let mut spawner = Spawner::new(3, 100);
    for _ in 0..40 {
        let mut board = Board::new(4);
        let (row, col, value) = spawner.seed_one(&mut board).unwrap();
        assert_eq!(value, 2);
        assert_eq!(board.cell_at(row, col), Ok(2));
    }
}

#[test]
fn every_free_cell_can_be_drawn() {
    let mut seen = [[false; 4]; 4];
    let mut spawner = Spawner::new(99, 10);
    for _ in 0..2000 {
        let mut board = Board::new(4);
        let (row, col, _) = spawner.spawn_one(&mut board).unwrap();
        seen[row][col] = true;
    }
    assert!(seen.iter().flatten().all(|hit| *hit));
}

#[test]
fn same_seed_draws_the_same_tiles() {
    let mut first = Spawner::new(123456, 10);
    let mut second = Spawner::new(123456, 10);
    let mut a = Board::new(4);
    let mut b = Board::new(4);
    for _ in 0..16 {
        assert_eq!(first.spawn_one(&mut a), second.spawn_one(&mut b));
    }
    assert_eq!(a.cells(), b.cells());
}
