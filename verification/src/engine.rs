//! A move: slide every line of the board in one direction.

use crate::board::{Board, MAX_SIDE};
use crate::direction::Direction;
use crate::grid::{all_below, column, lemma_reaches_or_below, line_at, reaches};
use crate::line::{gain_toward, lemma_slide_tiles, slide_line, slide_toward, tiles_of, tiles_only};
use crate::tile::{is_tile, TILE_MAX};
use vstd::prelude::*;

verus! {

/// What a move did: whether any cell changed, and the score it earned.
#[derive(Clone, Copy, Debug, PartialEq, Eq, Structural)]
pub struct MoveResult {
    pub board_changed: bool,
    pub score_gained: u64,
}

/// The cell at `(row, col)` after a move that is not idle: the cell at the
/// same place in its line once that line has slid. The line is the row for a
/// move left or right, and the column for a move up or down.
pub open spec fn moved_cell(cells: Seq<Seq<nat>>, direction: Direction, row: int, col: int) -> nat {
    if direction.along_rows() {
        slide_toward(cells[row], direction.toward_end())[col]
    } else {
        slide_toward(column(cells, col), direction.toward_end())[row]
    }
}

/// The grid after a move.
pub open spec fn moved(cells: Seq<Seq<nat>>, direction: Direction) -> Seq<Seq<nat>> {
    if direction == Direction::Idle {
        cells
    } else {
        Seq::new(
            cells.len(),
            |r: int| Seq::new(cells.len(), |c: int| moved_cell(cells, direction, r, c)),
        )
    }
}

/// The score earned by the first `lines` lines of a move that is not idle.
pub open spec fn gain_upto(cells: Seq<Seq<nat>>, direction: Direction, lines: nat) -> nat
    decreases lines,
{
    if lines == 0 {
        0
    } else {
        gain_upto(cells, direction, (lines - 1) as nat) + gain_toward(
            line_at(cells, direction.along_rows(), lines - 1),
            direction.toward_end(),
        )
    }
}

/// The score earned by a move: the sum over its lines.
pub open spec fn move_gain(cells: Seq<Seq<nat>>, direction: Direction) -> nat {
    if direction == Direction::Idle {
        0
    } else {
        gain_upto(cells, direction, cells.len())
    }
}

/// Whether two lines of one length hold the same cells.
fn same_cells(a: &Vec<u32>, b: &Vec<u32>) -> (same: bool)
    requires
        a.len() == b.len(),
    ensures
        same <==> forall|k: int| 0 <= k < a.len() ==> a[k] == b[k],
{
    let mut k: usize = 0;
    while k < a.len()
        invariant
            a.len() == b.len(),
            k <= a.len(),
            forall|j: int| 0 <= j < k ==> a[j] == b[j],
        decreases a.len() - k,
    {
        if a[k] != b[k] {
            return false;
        }
        k = k + 1;
    }
    true
}

/// Slides every tile of the board in `direction`, merging equal neighbours
/// once, and reports whether the board changed and the score earned. The
/// score of the board is left as it was. `Idle` changes nothing.
///
/// No cell may have reached `TILE_MAX`, so that a merged tile fits a cell.
pub fn apply(board: &mut Board, direction: Direction) -> (result: MoveResult)
    requires
        old(board).wf(),
        !reaches(old(board)@.cells, TILE_MAX as nat),
    ensures
        final(board).wf(),
        final(board)@.size == old(board)@.size,
        final(board)@.score == old(board)@.score,
        final(board)@.cells == moved(old(board)@.cells, direction),
        result.score_gained == move_gain(old(board)@.cells, direction),
        result.board_changed == (final(board)@.cells != old(board)@.cells),
{
    let (along_rows, toward_end) = match direction {
        Direction::Idle => {
            return MoveResult { board_changed: false, score_gained: 0 };
        },
        Direction::Left => (true, false),
        Direction::Right => (true, true),
        Direction::Up => (false, false),
        Direction::Down => (false, true),
    };
    let n = board.size();
    let ghost start = board@.cells;
    proof {
        lemma_reaches_or_below(start, TILE_MAX as nat);
    }
    let mut changed = false;
    let mut earned: u64 = 0;
    let mut i: usize = 0;
    while i < n
        invariant
            board.wf(),
            n == board@.size,
            n == old(board)@.size,
            board@.score == old(board)@.score,
            start == old(board)@.cells,
            old(board).wf(),
            all_below(start, TILE_MAX as nat),
            direction != Direction::Idle,
            along_rows == direction.along_rows(),
            toward_end == direction.toward_end(),
            i <= n,
            forall|r: int, c: int|
                0 <= r < n && 0 <= c < n ==> (#[trigger] board@.cells[r][c]) == if (if along_rows {
                    r
                } else {
                    c
                }) < i {
                    moved_cell(start, direction, r, c)
                } else {
                    start[r][c]
                },
            earned == gain_upto(start, direction, i as nat),
            earned <= i * n * TILE_MAX,
            changed == (board@.cells != start),
        decreases n - i,
    {
        let ghost before = board@.cells;
        let line = board.line(along_rows, i);
        proof {
            assert(tiles_of(line@) =~= line_at(start, along_rows, i as int));
            assert forall|k: int| 0 <= k < line.len() implies line[k] < TILE_MAX by {
                assert(tiles_of(line@)[k] == line[k] as nat);
            }
            assert(tiles_only(tiles_of(line@)));
            lemma_slide_tiles(tiles_of(line@), toward_end);
        }
        let (slid, won) = slide_line(&line, toward_end);
        proof {
            assert forall|k: int| 0 <= k < slid.len() implies is_tile(slid[k] as nat) by {
                assert(tiles_of(slid@)[k] == slid[k] as nat);
            }
        }
        let same = same_cells(&line, &slid);
        board.store_line(along_rows, i, &slid);
        proof {
            let after = board@.cells;
            if same {
                assert(tiles_of(slid@) =~= tiles_of(line@));
                assert forall|r: int| 0 <= r < n implies #[trigger] after[r] == before[r] by {
                    assert(after[r] =~= before[r]);
                }
                assert(after =~= before);
            } else {
                let k = choose|k: int| 0 <= k < line.len() && line[k] != slid[k];
                assert(tiles_of(slid@)[k] != tiles_of(line@)[k]);
                if along_rows {
                    assert(after[i as int][k] != start[i as int][k]);
                } else {
                    assert(after[k][i as int] != start[k][i as int]);
                }
            }
            assert(i * n * TILE_MAX + n * TILE_MAX == (i + 1) * n * TILE_MAX) by (nonlinear_arith);
            assert((i + 1) * n * TILE_MAX <= MAX_SIDE * MAX_SIDE * TILE_MAX) by (nonlinear_arith)
                requires
                    i < n,
                    n <= MAX_SIDE,
            ;
        }
        if !same {
            changed = true;
        }
        earned = earned + won;
        i = i + 1;
    }
    proof {
        let after = board@.cells;
        let goal = moved(start, direction);
        assert forall|r: int| 0 <= r < n implies #[trigger] after[r] == goal[r] by {
            assert(after[r] =~= goal[r]);
        }
        assert(after =~= goal);
    }
    MoveResult { board_changed: changed, score_gained: earned }
}

} // verus!
