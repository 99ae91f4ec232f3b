//! Judging a board: won, lost, or still in play.

use crate::board::Board;
use crate::grid::{in_grid, reaches};
use vstd::prelude::*;

verus! {

/// The tile value that wins the usual game.
pub const STANDARD_TARGET: u32 = 2048;

/// The state of a game.
#[derive(Clone, Copy, Debug, PartialEq, Eq, Hash, Structural)]
pub enum Verdict {
    /// A move may still change the board and no tile has reached the target.
    Ongoing,
    /// A tile has reached the target.
    Victory,
    /// The board is full and no two neighbours are equal.
    Defeat,
}

/// Some cell is free.
pub open spec fn has_free(cells: Seq<Seq<nat>>) -> bool {
    exists|r: int, c: int| in_grid(cells.len(), r, c) && #[trigger] cells[r][c] == 0
}

/// The cell at `(row, col)` equals its neighbour to the right or the one
/// below.
pub open spec fn pair_at(cells: Seq<Seq<nat>>, row: int, col: int) -> bool {
    ||| col + 1 < cells.len() && cells[row][col] == cells[row][col + 1]
    ||| row + 1 < cells.len() && cells[row][col] == cells[row + 1][col]
}

/// Two cells next to each other in a row or in a column hold equal values.
pub open spec fn has_equal_neighbours(cells: Seq<Seq<nat>>) -> bool {
    exists|r: int, c: int| in_grid(cells.len(), r, c) && #[trigger] pair_at(cells, r, c)
}

/// The verdict on a grid: victory as soon as a cell has reached `target`;
/// otherwise defeat when the grid is full and no two neighbours are equal;
/// otherwise the game goes on.
pub open spec fn verdict_of(cells: Seq<Seq<nat>>, target: nat) -> Verdict {
    if reaches(cells, target) {
        Verdict::Victory
    } else if !has_free(cells) && !has_equal_neighbours(cells) {
        Verdict::Defeat
    } else {
        Verdict::Ongoing
    }
}

/// Whether some cell of the board holds at least `target`.
pub fn reaches_target(board: &Board, target: u32) -> (reached: bool)
    requires
        board.wf(),
    ensures
        reached == reaches(board@.cells, target as nat),
{
    let n = board.size();
    let mut r: usize = 0;
    while r < n
        invariant
            board.wf(),
            n == board@.size,
            r <= n,
            forall|i: int, j: int| 0 <= i < r && 0 <= j < n ==> #[trigger] board@.cells[i][j] < target,
        decreases n - r,
    {
        let mut c: usize = 0;
        while c < n
            invariant
                board.wf(),
                n == board@.size,
                r < n,
                c <= n,
                forall|i: int, j: int|
                    0 <= i < r && 0 <= j < n ==> #[trigger] board@.cells[i][j] < target,
                forall|j: int| 0 <= j < c ==> #[trigger] board@.cells[r as int][j] < target,
            decreases n - c,
        {
            if board.tile_at(r, c) >= target {
                assert(in_grid(board@.cells.len(), r as int, c as int));
                return true;
            }
            c = c + 1;
        }
        r = r + 1;
    }
    false
}

/// Whether some cell of the board is free.
pub fn has_free_cell(board: &Board) -> (free: bool)
    requires
        board.wf(),
    ensures
        free == has_free(board@.cells),
{
    let n = board.size();
    let mut r: usize = 0;
    while r < n
        invariant
            board.wf(),
            n == board@.size,
            r <= n,
            forall|i: int, j: int| 0 <= i < r && 0 <= j < n ==> #[trigger] board@.cells[i][j] != 0,
        decreases n - r,
    {
        let mut c: usize = 0;
        while c < n
            invariant
                board.wf(),
                n == board@.size,
                r < n,
                c <= n,
                forall|i: int, j: int| 0 <= i < r && 0 <= j < n ==> #[trigger] board@.cells[i][j] != 0,
                forall|j: int| 0 <= j < c ==> #[trigger] board@.cells[r as int][j] != 0,
            decreases n - c,
        {
            if board.tile_at(r, c) == 0 {
                assert(in_grid(board@.cells.len(), r as int, c as int));
                return true;
            }
            c = c + 1;
        }
        r = r + 1;
    }
    false
}

/// Whether two neighbouring cells of the board hold equal values.
pub fn has_equal_pair(board: &Board) -> (paired: bool)
    requires
        board.wf(),
    ensures
        paired == has_equal_neighbours(board@.cells),
{
    let n = board.size();
    let mut r: usize = 0;
    while r < n
        invariant
            board.wf(),
            n == board@.size,
            r <= n,
            forall|i: int, j: int| 0 <= i < r && 0 <= j < n ==> !#[trigger] pair_at(board@.cells, i, j),
        decreases n - r,
    {
        let mut c: usize = 0;
        while c < n
            invariant
                board.wf(),
                n == board@.size,
                r < n,
                c <= n,
                forall|i: int, j: int|
                    0 <= i < r && 0 <= j < n ==> !#[trigger] pair_at(board@.cells, i, j),
                forall|j: int| 0 <= j < c ==> !#[trigger] pair_at(board@.cells, r as int, j),
            decreases n - c,
        {
            let value = board.tile_at(r, c);
            let right = c + 1 < n && board.tile_at(r, c + 1) == value;
            let below = r + 1 < n && board.tile_at(r + 1, c) == value;
            if right || below {
                assert(in_grid(board@.cells.len(), r as int, c as int));
                assert(pair_at(board@.cells, r as int, c as int));
                return true;
            }
            c = c + 1;
        }
        r = r + 1;
    }
    false
}

/// Judges the board against `target`: `Victory` if some cell has reached it,
/// else `Defeat` if the board is full with no two equal neighbours, else
/// `Ongoing`.
pub fn evaluate(board: &Board, target: u32) -> (verdict: Verdict)
    requires
        board.wf(),
    ensures
        verdict == verdict_of(board@.cells, target as nat),
{
    if reaches_target(board, target) {
        Verdict::Victory
    } else if !has_free_cell(board) && !has_equal_pair(board) {
        Verdict::Defeat
    } else {
        Verdict::Ongoing
    }
}

} // verus!
