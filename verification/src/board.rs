//! The board: a square grid of tiles and the running score.

use crate::grid::{
    all_below, all_tiles, blank, free_cells, in_grid, is_free, is_square, lemma_free_cells, lemma_position,
    line_at, positions, with_line, with_tile,
};
use crate::line::tiles_of;
use crate::seq_facts::{lemma_filter_take_ends, lemma_filter_take_step};
use crate::tile::{is_tile, is_valid_tile, lemma_tile_fits, TILE_MAX};
use vstd::prelude::*;

verus! {

/// The longest side a board can have. It keeps every score that can be
/// reached on the board within 64 bits.
pub const MAX_SIDE: usize = 4096;

/// Why a cell access was refused.
#[derive(Clone, Copy, Debug, PartialEq, Eq, Structural)]
pub enum BoardError {
    /// The row or the column is not below the side length.
    OutOfRange,
    /// The value is neither zero nor a power of two from 2 up.
    InvalidCellValue,
}

/// What a board is to the contracts: its side length, its cells by row and
/// column, and its score.
pub struct BoardView {
    pub size: nat,
    pub cells: Seq<Seq<nat>>,
    pub score: nat,
}

impl BoardView {
    /// The grid is square with side `size`, no longer than `MAX_SIDE`, and
    /// every cell is free or a power of two from 2 up to `TILE_MAX`.
    pub open spec fn wf(self) -> bool {
        &&& self.size <= MAX_SIDE
        &&& is_square(self.cells, self.size)
        &&& all_tiles(self.cells)
        &&& all_below(self.cells, TILE_MAX as nat + 1)
    }
}

/// A square grid of tiles with the score earned so far.
#[derive(Clone, Debug)]
pub struct Board {
    size: usize,
    cells: Vec<Vec<u32>>,
    score: u64,
}

/// The positions of a stored list of cells as pairs of natural numbers.
pub open spec fn positions_of(cells: Seq<(usize, usize)>) -> Seq<(nat, nat)> {
    cells.map_values(|at: (usize, usize)| (at.0 as nat, at.1 as nat))
}

impl View for Board {
    type V = BoardView;

    closed spec fn view(&self) -> BoardView {
        BoardView {
            size: self.size as nat,
            cells: Seq::new(self.cells.len() as nat, |r: int| tiles_of(self.cells[r]@)),
            score: self.score as nat,
        }
    }
}

impl Board {
    /// The board's invariant: that of its view.
    pub open spec fn wf(&self) -> bool {
        self@.wf()
    }

    /// A board of side `size` with every cell free and score zero.
    pub fn new(size: usize) -> (board: Board)
        requires
            size <= MAX_SIDE,
        ensures
            board.wf(),
            board@.size == size,
            board@.cells == blank(size as nat),
            board@.score == 0,
    {
        let mut cells: Vec<Vec<u32>> = Vec::new();
        let mut r: usize = 0;
        while r < size
            invariant
                r <= size,
                cells.len() == r,
                forall|i: int| 0 <= i < r ==> (#[trigger] cells[i]).len() == size,
                forall|i: int, j: int| 0 <= i < r && 0 <= j < size ==> (#[trigger] cells[i][j]) == 0,
            decreases size - r,
        {
            let mut row: Vec<u32> = Vec::new();
            let mut c: usize = 0;
            while c < size
                invariant
                    c <= size,
                    row.len() == c,
                    forall|j: int| 0 <= j < c ==> row[j] == 0,
                decreases size - c,
            {
                row.push(0);
                c = c + 1;
            }
            cells.push(row);
            r = r + 1;
        }
        let board = Board { size, cells, score: 0 };
        proof {
            assert forall|i: int| 0 <= i < size implies #[trigger] board@.cells[i] == blank(
                size as nat,
            )[i] by {
                assert(board@.cells[i] =~= blank(size as nat)[i]);
            }
            assert(board@.cells =~= blank(size as nat));
        }
        board
    }

    /// The side length.
    pub fn size(&self) -> (size: usize)
        ensures
            size == self@.size,
    {
        self.size
    }

    /// The score earned so far.
    pub fn score(&self) -> (score: u64)
        ensures
            score == self@.score,
    {
        self.score
    }

    /// The value of the cell at `(row, col)`, or `OutOfRange` when the
    /// position is not on the board.
    pub fn cell_at(&self, row: usize, col: usize) -> (cell: Result<u32, BoardError>)
        requires
            self.wf(),
        ensures
            match cell {
                Ok(value) => in_grid(self@.size, row as int, col as int) && value
                    == self@.cells[row as int][col as int],
                Err(error) => !in_grid(self@.size, row as int, col as int) && error
                    == BoardError::OutOfRange,
            },
    {
        if row < self.size && col < self.size {
            Ok(self.tile_at(row, col))
        } else {
            Err(BoardError::OutOfRange)
        }
    }

    /// Stores `value` in the cell at `(row, col)`. Refuses a position off the
    /// board with `OutOfRange`, and on the board a value that is no tile with
    /// `InvalidCellValue`; a refused call leaves the board as it was.
    pub fn set_cell_at(&mut self, row: usize, col: usize, value: u32) -> (done: Result<(), BoardError>)
        requires
            old(self).wf(),
        ensures
            final(self).wf(),
            final(self)@.size == old(self)@.size,
            final(self)@.score == old(self)@.score,
            match done {
                Ok(_) => {
                    &&& in_grid(old(self)@.size, row as int, col as int)
                    &&& is_tile(value as nat)
                    &&& final(self)@.cells == with_tile(
                        old(self)@.cells,
                        row as int,
                        col as int,
                        value as nat,
                    )
                },
                Err(BoardError::OutOfRange) => {
                    &&& !in_grid(old(self)@.size, row as int, col as int)
                    &&& final(self)@.cells == old(self)@.cells
                },
                Err(BoardError::InvalidCellValue) => {
                    &&& in_grid(old(self)@.size, row as int, col as int)
                    &&& !is_tile(value as nat)
                    &&& final(self)@.cells == old(self)@.cells
                },
            },
    {
        if !(row < self.size && col < self.size) {
            Err(BoardError::OutOfRange)
        } else if !is_valid_tile(value) {
            Err(BoardError::InvalidCellValue)
        } else {
            self.place(row, col, value);
            Ok(())
        }
    }

    /// Adds `amount` to the score.
    pub fn add_score(&mut self, amount: u64)
        requires
            old(self).wf(),
            old(self)@.score + amount <= u64::MAX,
        ensures
            final(self).wf(),
            final(self)@.size == old(self)@.size,
            final(self)@.cells == old(self)@.cells,
            final(self)@.score == old(self)@.score + amount,
    {
        self.score = self.score + amount;
        assert(self@.cells =~= old(self)@.cells);
    }

    /// The positions of the free cells, row by row from the top and each row
    /// from the left. Every free cell of the board is listed, once.
    pub fn empty_cells(&self) -> (free: Vec<(usize, usize)>)
        requires
            self.wf(),
        ensures
            positions_of(free@) == free_cells(self@.cells),
            forall|i: int|
                0 <= i < free.len() ==> {
                    let at = #[trigger] free[i];
                    in_grid(self@.size, at.0 as int, at.1 as int) && self@.cells[at.0 as int][at.1 as int]
                        == 0
                },
            forall|r: int, c: int|
                in_grid(self@.size, r, c) && self@.cells[r][c] == 0 ==> positions_of(free@).contains(
                    (r as nat, c as nat),
                ),
            positions_of(free@).no_duplicates(),
    {
        let n = self.size;
        let ghost grid = self@.cells;
        let ghost all = positions(n as nat);
        let mut free: Vec<(usize, usize)> = Vec::new();
        let mut r: usize = 0;
        proof {
            lemma_filter_take_ends(all, is_free(grid));
            assert(positions_of(free@) =~= Seq::<(nat, nat)>::empty());
            assert(0 * n + 0 == 0) by (nonlinear_arith);
        }
        while r < n
            invariant
                self.wf(),
                n == self.size,
                grid == self@.cells,
                all == positions(n as nat),
                r <= n,
                0 <= r * n <= n * n,
                positions_of(free@) == all.take(r * n).filter(is_free(grid)),
            decreases n - r,
        {
            let mut c: usize = 0;
            while c < n
                invariant
                    self.wf(),
                    n == self.size,
                    grid == self@.cells,
                    all == positions(n as nat),
                    r < n,
                    c <= n,
                    positions_of(free@) == all.take(r * n + c).filter(is_free(grid)),
                decreases n - c,
            {
                proof {
                    lemma_position(n as nat, r as int, c as int);
                    lemma_filter_take_step(all, is_free(grid), r * n + c);
                }
                let ghost before = positions_of(free@);
                if self.tile_at(r, c) == 0 {
                    free.push((r, c));
                    assert(positions_of(free@) =~= before.push((r as nat, c as nat)));
                }
                c = c + 1;
            }
            assert(r * n + n == (r + 1) * n && (r + 1) * n <= n * n) by (nonlinear_arith)
                requires
                    r < n,
            ;
            r = r + 1;
        }
        proof {
            assert(all.take(n * n) =~= all);
            lemma_free_cells(grid);
            assert forall|i: int| 0 <= i < free.len() implies {
                let at = #[trigger] free[i];
                in_grid(self@.size, at.0 as int, at.1 as int) && self@.cells[at.0 as int][at.1 as int]
                    == 0
            } by {
                assert(positions_of(free@)[i] == free_cells(grid)[i]);
            }
        }
        free
    }

    /// A copy of the cells, row by row.
    pub fn cells(&self) -> (rows: Vec<Vec<u32>>)
        requires
            self.wf(),
        ensures
            rows.len() == self@.size,
            forall|r: int| 0 <= r < rows.len() ==> tiles_of((#[trigger] rows[r])@) == self@.cells[r],
    {
        let mut rows: Vec<Vec<u32>> = Vec::new();
        let mut r: usize = 0;
        while r < self.size
            invariant
                self.wf(),
                r <= self.size,
                rows.len() == r,
                forall|i: int| 0 <= i < r ==> tiles_of((#[trigger] rows[i])@) == self@.cells[i],
            decreases self.size - r,
        {
            let row = self.line(true, r);
            rows.push(row);
            r = r + 1;
        }
        rows
    }

    /// How the stored rows relate to the view of a well-formed board.
    proof fn lemma_stored(&self)
        requires
            self.wf(),
        ensures
            self.cells.len() == self.size,
            forall|r: int| 0 <= r < self.size ==> (#[trigger] self.cells[r]).len() == self.size,
            forall|r: int, c: int|
                0 <= r < self.size && 0 <= c < self.size ==> self@.cells[r][c] == (
                #[trigger] self.cells[r][c]) as nat,
    {
        assert forall|r: int| 0 <= r < self.size implies (#[trigger] self.cells[r]).len()
            == self.size by {
            assert(self@.cells[r].len() == self.size);
        }
    }

    /// The value of a cell known to be on the board.
    pub(crate) fn tile_at(&self, row: usize, col: usize) -> (value: u32)
        requires
            self.wf(),
            in_grid(self@.size, row as int, col as int),
        ensures
            value == self@.cells[row as int][col as int],
    {
        proof {
            self.lemma_stored();
        }
        self.cells[row][col]
    }

    /// Stores a valid tile in a cell known to be on the board.
    pub(crate) fn place(&mut self, row: usize, col: usize, value: u32)
        requires
            old(self).wf(),
            in_grid(old(self)@.size, row as int, col as int),
            is_tile(value as nat),
        ensures
            final(self).wf(),
            final(self)@.size == old(self)@.size,
            final(self)@.score == old(self)@.score,
            final(self)@.cells == with_tile(old(self)@.cells, row as int, col as int, value as nat),
    {
        proof {
            self.lemma_stored();
            lemma_tile_fits(value as nat);
        }
        self.cells[row][col] = value;
        proof {
            let after = self@.cells;
            let expected = with_tile(old(self)@.cells, row as int, col as int, value as nat);
            assert forall|r: int| 0 <= r < after.len() implies #[trigger] after[r] == expected[r] by {
                assert(after[r] =~= expected[r]);
            }
            assert(after =~= expected);
        }
    }

    /// A copy of line `index`: a row from the left, or a column from the top.
    pub(crate) fn line(&self, along_rows: bool, index: usize) -> (line: Vec<u32>)
        requires
            self.wf(),
            index < self@.size,
        ensures
            line.len() == self@.size,
            tiles_of(line@) == line_at(self@.cells, along_rows, index as int),
    {
        let n = self.size;
        let mut line: Vec<u32> = Vec::new();
        let mut k: usize = 0;
        while k < n
            invariant
                self.wf(),
                n == self.size,
                index < n,
                k <= n,
                line.len() == k,
                forall|j: int|
                    0 <= j < k ==> line[j] == if along_rows {
                        self@.cells[index as int][j]
                    } else {
                        self@.cells[j][index as int]
                    },
            decreases n - k,
        {
            let value = if along_rows {
                self.tile_at(index, k)
            } else {
                self.tile_at(k, index)
            };
            line.push(value);
            k = k + 1;
        }
        assert(tiles_of(line@) =~= line_at(self@.cells, along_rows, index as int));
        line
    }

    /// Replaces line `index` by `line`.
    pub(crate) fn store_line(&mut self, along_rows: bool, index: usize, line: &Vec<u32>)
        requires
            old(self).wf(),
            index < old(self)@.size,
            line.len() == old(self)@.size,
            forall|k: int| 0 <= k < line.len() ==> is_tile(line[k] as nat),
        ensures
            final(self).wf(),
            final(self)@.size == old(self)@.size,
            final(self)@.score == old(self)@.score,
            final(self)@.cells == with_line(
                old(self)@.cells,
                along_rows,
                index as int,
                tiles_of(line@),
            ),
    {
        let n = self.size;
        let mut k: usize = 0;
        while k < n
            invariant
                self.wf(),
                n == self@.size,
                n == old(self)@.size,
                self@.score == old(self)@.score,
                index < n,
                k <= n,
                line.len() == n,
                forall|j: int| 0 <= j < line.len() ==> is_tile(line[j] as nat),
                forall|r: int, c: int|
                    0 <= r < n && 0 <= c < n ==> (#[trigger] self@.cells[r][c]) == if (if along_rows {
                        r == index && c < k
                    } else {
                        c == index && r < k
                    }) {
                        if along_rows {
                            line[c] as nat
                        } else {
                            line[r] as nat
                        }
                    } else {
                        old(self)@.cells[r][c]
                    },
            decreases n - k,
        {
            if along_rows {
                self.place(index, k, line[k]);
            } else {
                self.place(k, index, line[k]);
            }
            k = k + 1;
        }
        proof {
            let after = self@.cells;
            let expected = with_line(old(self)@.cells, along_rows, index as int, tiles_of(line@));
            assert forall|r: int| 0 <= r < after.len() implies #[trigger] after[r] == expected[r] by {
                assert(after[r] =~= expected[r]);
            }
            assert(after =~= expected);
        }
    }
}

} // verus!
