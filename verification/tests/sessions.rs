use game2048::board::Board;
use game2048::direction::Direction;
use game2048::evaluator::Verdict;
use game2048::session::{Config, GameSession, Snapshot, MAX_OPENING_SCORE};
use game2048::spawner::Spawner;
use game2048::tile::is_valid_tile;

fn board_from(rows: &[[u32; 4]; 4]) -> Board {
    let mut board = Board::new(4);
    for r in 0..4 {
        for c in 0..4 {
            assert_eq!(board.set_cell_at(r, c, rows[r][c]), Ok(()));
        }
    }
    board
}

fn rows(rows: &[[u32; 4]; 4]) -> Vec<Vec<u32>> {
    rows.iter().map(|row| row.to_vec()).collect()
}

fn session_on(start: &[[u32; 4]; 4], seed: u64) -> GameSession {
    GameSession::with_board(board_from(start), 2048, Spawner::new(seed, 10))
}

fn count_tiles(cells: &Vec<Vec<u32>>) -> usize {
    cells.iter().flatten().filter(|value| **value != 0).count()
}

#[test]
fn standard_game_is_four_by_four_to_2048() {
    let config = Config::standard();
    assert_eq!(config, Config { size: 4, target: 2048, four_percent: 10, seed_tiles: 2 });
    assert_eq!(Config::default(), config);
    assert!(config.is_valid());
}

#[test]
fn oversized_configurations_are_not_valid() {
    let mut config = Config::standard();
    config.size = 4097;
    assert!(!config.is_valid());
    config.size = 4096;
    assert!(config.is_valid());
    config.target = (1u32 << 31) + 1;
    assert!(!config.is_valid());
    config.target = 1u32 << 31;
    assert!(config.is_valid());
}

#[test]
fn new_game_starts_with_two_twos() {
    for seed in 0..30u64 {
        let session = GameSession::new(Config::standard(), seed);
        let snapshot = session.snapshot();
        assert_eq!(snapshot.score, 0);
        assert_eq!(snapshot.verdict, Verdict::Ongoing);
        assert_eq!(snapshot.cells.len(), 4);
        assert_eq!(count_tiles(&snapshot.cells), 2);
        assert!(snapshot.cells.iter().flatten().all(|value| *value == 0 || *value == 2));
        assert_eq!(session.target(), 2048);
        assert_eq!(session.score(), 0);
        assert_eq!(session.verdict(), Verdict::Ongoing);
        assert_eq!(session.board().cells(), snapshot.cells);
    }
}

#[test]
fn seed_tiles_stop_when_the_board_is_full() {
    let config = Config { size: 2, target: 2048, four_percent: 10, seed_tiles: 9 };
    let session = GameSession::new(config, 1);
    assert_eq!(session.snapshot().cells, vec![vec![2, 2], vec![2, 2]]);
    assert_eq!(session.verdict(), Verdict::Ongoing);
}

#[test]
fn game_without_seed_tiles_starts_blank() {
    let config = Config { size: 4, target: 2048, four_percent: 10, seed_tiles: 0 };
    let mut session = GameSession::new(config, 1);
    assert_eq!(session.snapshot().cells, vec![vec![0u32; 4]; 4]);
    let after = session.apply_move(Direction::Left);
    assert_eq!(after.cells, vec![vec![0u32; 4]; 4]);
    assert_eq!(after.verdict, Verdict::Ongoing);
}

#[test]
fn game_on_one_cell_is_lost_at_once() {
    let config = Config { size: 1, target: 2048, four_percent: 10, seed_tiles: 2 };
    let mut session = GameSession::new(config, 1);
    assert_eq!(session.snapshot().cells, vec![vec![2]]);
    assert_eq!(session.verdict(), Verdict::Defeat);
    assert_eq!(session.apply_move(Direction::Up).cells, vec![vec![2]]);
}

#[test]
fn game_with_target_two_is_won_at_once() {
    let config = Config { size: 4, target: 2, four_percent: 10, seed_tiles: 2 };
    let session = GameSession::new(config, 1);
    assert_eq!(session.verdict(), Verdict::Victory);
}

#[test]
fn same_seed_replays_the_same_game() {
    let moves = [Direction::Left, Direction::Up, Direction::Right, Direction::Down];
    let mut first = GameSession::new(Config::standard(), 42);
    let mut second = GameSession::new(Config::standard(), 42);
    assert_eq!(first.snapshot(), second.snapshot());
    for step in 0..200 {
        let direction = moves[step % 4];
        assert_eq!(first.apply_move(direction), second.apply_move(direction));
    }
}

#[test]
fn move_without_effect_brings_no_tile() {
    let start = [[2, 0, 0, 0], [0, 0, 0, 0], [0, 0, 0, 0], [0, 0, 0, 0]];
    let mut session = session_on(&start, 1);
    let after = session.apply_move(Direction::Left);
    assert_eq!(after, Snapshot { cells: rows(&start), score: 0, verdict: Verdict::Ongoing });
    assert_eq!(session.snapshot(), after);
}

#[test]
fn merging_move_earns_and_brings_one_tile() {
    for seed in 0..40u64 {
        let mut session = session_on(&[[2, 2, 0, 0], [0, 0, 0, 0], [0, 0, 0, 0], [0, 0, 0, 0]], seed);
        let after = session.apply_move(Direction::Left);
        assert_eq!(after.score, 4);
        assert_eq!(after.verdict, Verdict::Ongoing);
        assert_eq!(after.cells[0][0], 4);
        assert_eq!(count_tiles(&after.cells), 2);
        let mut slid = rows(&[[4, 0, 0, 0], [0, 0, 0, 0], [0, 0, 0, 0], [0, 0, 0, 0]]);
        let mut placed = None;
        for r in 0..4 {
            for c in 0..4 {
                if after.cells[r][c] != slid[r][c] {
                    assert_eq!(placed, None);
                    placed = Some((r, c));
                }
            }
        }
        let (r, c) = placed.unwrap();
        assert_eq!(slid[r][c], 0);
        assert!(after.cells[r][c] == 2 || after.cells[r][c] == 4);
        slid[r][c] = after.cells[r][c];
        assert_eq!(after.cells, slid);
    }
}

#[test]
fn replayed_move_puts_the_tile_where_it_is_told() {
    let mut session = session_on(&[[2, 2, 0, 0], [0, 0, 0, 0], [0, 0, 0, 0], [0, 0, 0, 0]], 1);
    let after = session.apply_move_with(Direction::Left, 3, false);
    assert_eq!(
        after,
        Snapshot {
            cells: rows(&[[4, 0, 0, 0], [2, 0, 0, 0], [0, 0, 0, 0], [0, 0, 0, 0]]),
            score: 4,
            verdict: Verdict::Ongoing,
        }
    );
    let after = session.apply_move_with(Direction::Right, 0, true);
    assert_eq!(
        after,
        Snapshot {
            cells: rows(&[[4, 0, 0, 4], [0, 0, 0, 2], [0, 0, 0, 0], [0, 0, 0, 0]]),
            score: 4,
            verdict: Verdict::Ongoing,
        }
    );
    let after = session.apply_move_with(Direction::Right, 13, false);
    assert_eq!(
        after,
        Snapshot {
            cells: rows(&[[0, 0, 0, 8], [0, 0, 0, 2], [0, 0, 0, 0], [0, 0, 0, 2]]),
            score: 12,
            verdict: Verdict::Ongoing,
        }
    );
}

#[test]
fn replayed_move_with_a_pick_too_far_brings_no_tile() {
    let mut session = session_on(&[[2, 2, 0, 0], [0, 0, 0, 0], [0, 0, 0, 0], [0, 0, 0, 0]], 1);
    let after = session.apply_move_with(Direction::Left, 15, true);
    assert_eq!(
        after,
        Snapshot {
            cells: rows(&[[4, 0, 0, 0], [0, 0, 0, 0], [0, 0, 0, 0], [0, 0, 0, 0]]),
            score: 4,
            verdict: Verdict::Ongoing,
        }
    );
}

#[test]
fn replayed_move_without_effect_ignores_the_draws() {
    let start = [[2, 0, 0, 0], [4, 0, 0, 0], [0, 0, 0, 0], [0, 0, 0, 0]];
    let mut session = session_on(&start, 1);
    let after = session.apply_move_with(Direction::Left, 0, true);
    assert_eq!(after, Snapshot { cells: rows(&start), score: 0, verdict: Verdict::Ongoing });
    let after = session.apply_move_with(Direction::Idle, 0, true);
    assert_eq!(after, Snapshot { cells: rows(&start), score: 0, verdict: Verdict::Ongoing });
}

#[test]
fn idle_move_changes_nothing() {
    let start = [[2, 2, 0, 0], [0, 4, 4, 0], [8, 0, 0, 8], [0, 0, 0, 0]];
    let mut board = board_from(&start);
    board.add_score(36);
    let mut session = GameSession::with_board(board, 2048, Spawner::new(5, 10));
    let before = session.snapshot();
    assert_eq!(session.apply_move(Direction::Idle), before);
    assert_eq!(before, Snapshot { cells: rows(&start), score: 36, verdict: Verdict::Ongoing });
}

#[test]
fn reaching_the_target_wins_and_ends_the_game() {
    let mut session = session_on(&[[1024, 1024, 0, 0], [0, 0, 0, 0], [0, 0, 2, 2], [0, 0, 0, 0]], 3);
    assert_eq!(session.verdict(), Verdict::Ongoing);
    let won = session.apply_move_with(Direction::Left, 0, false);
    assert_eq!(
        won,
        Snapshot {
            cells: rows(&[[2048, 2, 0, 0], [0, 0, 0, 0], [4, 0, 0, 0], [0, 0, 0, 0]]),
            score: 2052,
            verdict: Verdict::Victory,
        }
    );
    for direction in [Direction::Right, Direction::Down, Direction::Up, Direction::Left] {
        assert_eq!(session.apply_move(direction), won);
        assert_eq!(session.apply_move_with(direction, 0, true), won);
    }
}

#[test]
fn last_move_into_a_stuck_board_loses() {
    let mut session = session_on(&[[0, 2, 4, 2], [4, 2, 4, 2], [2, 4, 2, 4], [4, 2, 4, 2]], 3);
    assert_eq!(session.verdict(), Verdict::Ongoing);
    let lost = session.apply_move_with(Direction::Left, 0, true);
    assert_eq!(
        lost,
        Snapshot {
            cells: rows(&[[2, 4, 2, 4], [4, 2, 4, 2], [2, 4, 2, 4], [4, 2, 4, 2]]),
            score: 0,
            verdict: Verdict::Defeat,
        }
    );
    for direction in [Direction::Right, Direction::Down, Direction::Up, Direction::Left] {
        assert_eq!(session.apply_move(direction), lost);
    }
}

#[test]
fn game_taken_up_on_a_won_board_is_over() {
    let start = [[2048, 2, 0, 0], [0, 0, 0, 0], [0, 0, 0, 0], [0, 0, 0, 0]];
    let mut session = session_on(&start, 3);
    assert_eq!(session.verdict(), Verdict::Victory);
    let after = session.apply_move(Direction::Right);
    assert_eq!(after, Snapshot { cells: rows(&start), score: 0, verdict: Verdict::Victory });
}

#[test]
fn opening_score_is_kept_and_added_to() {
    let mut board = board_from(&[[2, 2, 0, 0], [0, 0, 0, 0], [0, 0, 0, 0], [0, 0, 0, 0]]);
    board.add_score(MAX_OPENING_SCORE);
    let mut session = GameSession::with_board(board, 2048, Spawner::new(5, 10));
    assert_eq!(session.score(), 1u64 << 63);
    let after = session.apply_move(Direction::Left);
    assert_eq!(after.score, (1u64 << 63) + 4);
}

#[test]
fn cells_stay_tiles_and_the_score_never_drops() {
    let moves = [Direction::Left, Direction::Down, Direction::Right, Direction::Up, Direction::Idle];
    for seed in 0..10u64 {
        let mut session = GameSession::new(Config::standard(), seed);
        let mut score = 0;
        let mut tiles = 2;
        for step in 0..400 {
            let before = session.snapshot();
            let after = session.apply_move(moves[(step + seed as usize) % 5]);
            assert!(after.cells.iter().flatten().all(|value| is_valid_tile(*value)));
            assert!(after.score >= score);
            score = after.score;
            if before.verdict != Verdict::Ongoing {
                assert_eq!(after, before);
            }
            if after.cells != before.cells {
                assert!(count_tiles(&after.cells) <= tiles + 1);
            } else {
                assert_eq!(after.score, before.score);
            }
            tiles = count_tiles(&after.cells);
        }
    }
}

#[test]
fn long_game_ends_lost_or_won() {
    let moves = [Direction::Left, Direction::Down, Direction::Right, Direction::Up];
    let config = Config { size: 3, target: 64, four_percent: 10, seed_tiles: 2 };
    for seed in 0..20u64 {
        let mut session = GameSession::new(config, seed);
        let mut step = 0;
        while session.verdict() == Verdict::Ongoing && step < 100000 {
            session.apply_move(moves[step % 4]);
            step += 1;
        }
        let end = session.snapshot();
        assert_ne!(end.verdict, Verdict::Ongoing);
        if end.verdict == Verdict::Victory {
            assert!(end.cells.iter().flatten().any(|value| *value >= 64));
        } else {
            assert!(end.cells.iter().flatten().all(|value| *value != 0 && *value < 64));
        }
    }
}
