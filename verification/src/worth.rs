//! What the tiles on a board are worth: the score that merging them together
//! has earned. A move earns exactly what it adds to the worth of the board,
//! which bounds every score that a game can reach.

use crate::direction::Direction;
use crate::engine::{gain_upto, move_gain, moved};
use crate::grid::{
    all_below, all_tiles, column, free_cells, in_grid, is_square, lemma_free_cells, line_at, with_tile,
};
use crate::line::{
    compact, full, gain_toward, lemma_compact_tiles, lemma_merge_tiles, lemma_slide_tiles, merge,
    merge_gain, pad, slide, slide_toward, tiles_only,
};
use crate::spawner::{new_tile, spawned};
use crate::tile::{is_tile, lemma_double_tile};
use vstd::arithmetic::power2::{lemma2_to64, lemma_pow2_unfold, pow2};
use vstd::prelude::*;

verus! {

/// The score earned by building one tile out of twos: nothing for a free
/// cell or a 2, and for a larger tile its value on top of what its two
/// halves had earned.
pub open spec fn worth(value: nat) -> nat
    decreases value,
{
    if value < 4 {
        0
    } else {
        2 * worth(value / 2) + value
    }
}

/// The worth of the first `upto` cells of a line.
pub open spec fn total(line: Seq<nat>, upto: nat) -> nat
    decreases upto,
{
    if upto == 0 {
        0
    } else {
        total(line, (upto - 1) as nat) + worth(line[upto - 1])
    }
}

/// The worth of a line.
pub open spec fn line_worth(line: Seq<nat>) -> nat {
    total(line, line.len())
}

/// The worth of the first `cols` cells of each of the first `rows` rows,
/// summed row by row.
pub open spec fn rows_worth(cells: Seq<Seq<nat>>, rows: nat, cols: nat) -> nat
    decreases rows,
{
    if rows == 0 {
        0
    } else {
        rows_worth(cells, (rows - 1) as nat, cols) + total(cells[rows - 1], cols)
    }
}

/// The same worth summed column by column.
pub open spec fn cols_worth(cells: Seq<Seq<nat>>, rows: nat, cols: nat) -> nat
    decreases cols,
{
    if cols == 0 {
        0
    } else {
        cols_worth(cells, rows, (cols - 1) as nat) + total(column(cells, cols - 1), rows)
    }
}

/// The worth of a square grid.
pub open spec fn grid_worth(cells: Seq<Seq<nat>>) -> nat {
    rows_worth(cells, cells.len(), cells.len())
}

/// Merging two equal tiles earns the value of the new tile.
pub proof fn lemma_worth_double(value: nat)
    requires
        value >= 2,
    ensures
        worth(2 * value) == 2 * worth(value) + 2 * value,
{
    assert((2 * value) / 2 == value);
}

/// A value below 2^bits is worth at most `bits` times itself.
pub proof fn lemma_worth_bound(value: nat, bits: nat)
    requires
        value < pow2(bits),
    ensures
        worth(value) <= bits * value,
    decreases bits,
{
    if value >= 4 {
        lemma2_to64();
        assert(bits >= 1);
        lemma_pow2_unfold(bits);
        let half = value / 2;
        lemma_worth_bound(half, (bits - 1) as nat);
        assert(2 * worth(half) + value <= bits * value) by (nonlinear_arith)
            requires
                worth(half) <= (bits - 1) * half,
                2 * half <= value,
                bits >= 1,
        ;
    } else {
        assert(0 <= bits * value) by (nonlinear_arith);
    }
}

/// Lines that agree on their first `upto` cells are worth the same there.
pub proof fn lemma_total_same(a: Seq<nat>, b: Seq<nat>, upto: nat)
    requires
        forall|i: int| 0 <= i < upto ==> a[i] == b[i],
    ensures
        total(a, upto) == total(b, upto),
    decreases upto,
{
    if upto > 0 {
        lemma_total_same(a, b, (upto - 1) as nat);
    }
}

/// The worth of a line followed by the first cells of another.
pub proof fn lemma_total_concat(a: Seq<nat>, b: Seq<nat>, upto: nat)
    requires
        upto <= b.len(),
    ensures
        total(a + b, a.len() + upto) == line_worth(a) + total(b, upto),
    decreases upto,
{
    if upto == 0 {
        lemma_total_same(a + b, a, a.len());
    } else {
        lemma_total_concat(a, b, (upto - 1) as nat);
        assert((a + b)[a.len() + upto - 1] == b[upto - 1]);
    }
}

/// Free cells are worth nothing.
pub proof fn lemma_total_free(line: Seq<nat>, upto: nat)
    requires
        forall|i: int| 0 <= i < upto ==> line[i] == 0,
    ensures
        total(line, upto) == 0,
    decreases upto,
{
    if upto > 0 {
        lemma_total_free(line, (upto - 1) as nat);
    }
}

/// A line read backward is worth the same.
pub proof fn lemma_worth_reverse(line: Seq<nat>)
    ensures
        line_worth(line.reverse()) == line_worth(line),
    decreases line.len(),
{
    if line.len() > 0 {
        let front = line.drop_last();
        let last = line.last();
        lemma_worth_reverse(front);
        assert(line.reverse() =~= seq![last] + front.reverse());
        lemma_total_concat(seq![last], front.reverse(), front.len());
        assert(line_worth(seq![last]) == worth(last)) by {
            reveal_with_fuel(total, 2);
        }
        lemma_total_same(line, front, front.len());
    }
}

/// Packing a line keeps its worth.
pub proof fn lemma_worth_compact(line: Seq<nat>)
    ensures
        line_worth(compact(line)) == line_worth(line),
    decreases line.len(),
{
    reveal(Seq::filter);
    if line.len() > 0 {
        let front = line.drop_last();
        let last = line.last();
        lemma_worth_compact(front);
        lemma_total_same(line, front, front.len());
        if last != 0 {
            let packed = compact(front);
            assert(compact(line) == packed.push(last));
            lemma_total_same(packed.push(last), packed, packed.len());
        }
    }
}

/// The merging pass adds to the worth of a packed line what it earns.
pub proof fn lemma_worth_merge(tiles: Seq<nat>)
    requires
        full(tiles),
        tiles_only(tiles),
    ensures
        line_worth(merge(tiles)) == line_worth(tiles) + merge_gain(tiles),
    decreases tiles.len(),
{
    if tiles.len() >= 2 {
        if tiles[0] == tiles[1] {
            let rest = tiles.skip(2);
            let pair = seq![tiles[0], tiles[1]];
            assert forall|i: int| 0 <= i < rest.len() implies #[trigger] rest[i] != 0 && is_tile(
                rest[i],
            ) by {
                assert(rest[i] == tiles[i + 2]);
            }
            lemma_worth_merge(rest);
            lemma_double_tile(tiles[0]);
            lemma_worth_double(tiles[0]);
            lemma_total_concat(seq![2 * tiles[0]], merge(rest), merge(rest).len());
            assert(line_worth(seq![2 * tiles[0]]) == worth(2 * tiles[0])) by {
                reveal_with_fuel(total, 2);
            }
            assert(tiles =~= pair + rest);
            lemma_total_concat(pair, rest, rest.len());
            assert(line_worth(pair) == worth(tiles[0]) + worth(tiles[1])) by {
                reveal_with_fuel(total, 3);
            }
        } else {
            let rest = tiles.skip(1);
            assert forall|i: int| 0 <= i < rest.len() implies #[trigger] rest[i] != 0 && is_tile(
                rest[i],
            ) by {
                assert(rest[i] == tiles[i + 1]);
            }
            lemma_worth_merge(rest);
            lemma_total_concat(seq![tiles[0]], merge(rest), merge(rest).len());
            assert(line_worth(seq![tiles[0]]) == worth(tiles[0])) by {
                reveal_with_fuel(total, 2);
            }
            assert(tiles =~= seq![tiles[0]] + rest);
            lemma_total_concat(seq![tiles[0]], rest, rest.len());
        }
    }
}

/// Filling a line up with free cells keeps its worth.
pub proof fn lemma_worth_pad(tiles: Seq<nat>, len: nat)
    requires
        tiles.len() <= len,
    ensures
        line_worth(pad(tiles, len)) == line_worth(tiles),
{
    let room = Seq::new((len - tiles.len()) as nat, |i: int| 0nat);
    assert(pad(tiles, len) =~= tiles + room);
    lemma_total_concat(tiles, room, room.len());
    lemma_total_free(room, room.len());
}

/// Sliding a line adds to its worth exactly the score it earns.
pub proof fn lemma_worth_slide(line: Seq<nat>, toward_end: bool)
    requires
        tiles_only(line),
    ensures
        line_worth(slide_toward(line, toward_end)) == line_worth(line) + gain_toward(line, toward_end),
{
    let source = if toward_end {
        line.reverse()
    } else {
        line
    };
    assert(tiles_only(source));
    lemma_worth_reverse(line);
    lemma_compact_tiles(source);
    lemma_worth_compact(source);
    lemma_merge_tiles(compact(source));
    lemma_worth_merge(compact(source));
    lemma_worth_pad(merge(compact(source)), source.len());
    if toward_end {
        lemma_worth_reverse(slide(source));
    }
}

/// With no rows there is nothing to sum, whichever way.
proof fn lemma_cols_worth_empty(cells: Seq<Seq<nat>>, cols: nat)
    ensures
        cols_worth(cells, 0, cols) == 0,
    decreases cols,
{
    if cols > 0 {
        lemma_cols_worth_empty(cells, (cols - 1) as nat);
    }
}

/// One more row adds its worth to the sum taken column by column.
proof fn lemma_cols_worth_row(cells: Seq<Seq<nat>>, rows: nat, cols: nat)
    requires
        1 <= rows <= cells.len(),
    ensures
        cols_worth(cells, rows, cols) == cols_worth(cells, (rows - 1) as nat, cols) + total(
            cells[rows - 1],
            cols,
        ),
    decreases cols,
{
    if cols > 0 {
        lemma_cols_worth_row(cells, rows, (cols - 1) as nat);
        assert(column(cells, cols - 1)[rows - 1] == cells[rows - 1][cols - 1]);
    }
}

/// The worth of a grid is the same summed by rows and summed by columns.
pub proof fn lemma_worth_by_columns(cells: Seq<Seq<nat>>, rows: nat, cols: nat)
    requires
        rows <= cells.len(),
    ensures
        rows_worth(cells, rows, cols) == cols_worth(cells, rows, cols),
    decreases rows,
{
    if rows == 0 {
        lemma_cols_worth_empty(cells, cols);
    } else {
        lemma_worth_by_columns(cells, (rows - 1) as nat, cols);
        lemma_cols_worth_row(cells, rows, cols);
    }
}

/// Grids that agree on their first `rows` rows are worth the same there.
pub proof fn lemma_rows_worth_same(a: Seq<Seq<nat>>, b: Seq<Seq<nat>>, rows: nat, cols: nat)
    requires
        forall|r: int| 0 <= r < rows ==> a[r] == b[r],
    ensures
        rows_worth(a, rows, cols) == rows_worth(b, rows, cols),
    decreases rows,
{
    if rows > 0 {
        lemma_rows_worth_same(a, b, (rows - 1) as nat, cols);
    }
}

/// The first lines of a move add to their worth what they earn: the rows of
/// a move left or right, the columns of a move up or down.
proof fn lemma_worth_moved_upto(cells: Seq<Seq<nat>>, direction: Direction, lines: nat)
    requires
        is_square(cells, cells.len()),
        all_tiles(cells),
        direction != Direction::Idle,
        lines <= cells.len(),
    ensures
        direction.along_rows() ==> rows_worth(moved(cells, direction), lines, cells.len())
            == rows_worth(cells, lines, cells.len()) + gain_upto(cells, direction, lines),
        !direction.along_rows() ==> cols_worth(moved(cells, direction), cells.len(), lines)
            == cols_worth(cells, cells.len(), lines) + gain_upto(cells, direction, lines),
    decreases lines,
{
    if lines > 0 {
        let size = cells.len();
        let index = lines - 1;
        let after = moved(cells, direction);
        lemma_worth_moved_upto(cells, direction, index as nat);
        let line = line_at(cells, direction.along_rows(), index);
        assert(tiles_only(line));
        lemma_slide_tiles(line, direction.toward_end());
        lemma_worth_slide(line, direction.toward_end());
        let slid = slide_toward(line, direction.toward_end());
        if direction.along_rows() {
            assert(after[index] =~= slid);
        } else {
            assert(column(after, index) =~= slid);
        }
    }
}

/// A move adds to the worth of the board exactly the score it earns.
pub proof fn lemma_worth_moved(cells: Seq<Seq<nat>>, direction: Direction)
    requires
        is_square(cells, cells.len()),
        all_tiles(cells),
    ensures
        grid_worth(moved(cells, direction)) == grid_worth(cells) + move_gain(cells, direction),
{
    if direction != Direction::Idle {
        let size = cells.len();
        lemma_worth_moved_upto(cells, direction, size);
        if !direction.along_rows() {
            lemma_worth_by_columns(cells, size, size);
            lemma_worth_by_columns(moved(cells, direction), size, size);
        }
    }
}

/// Replacing one cell of a line trades its worth for that of the new value.
proof fn lemma_total_update(line: Seq<nat>, col: int, value: nat, upto: nat)
    requires
        0 <= col < line.len(),
        upto <= line.len(),
    ensures
        total(line.update(col, value), upto) + (if col < upto {
            worth(line[col])
        } else {
            0
        }) == total(line, upto) + (if col < upto {
            worth(value)
        } else {
            0
        }),
    decreases upto,
{
    if upto > 0 {
        lemma_total_update(line, col, value, (upto - 1) as nat);
    }
}

/// A tile that appears on a free cell adds its worth to that of the board.
pub proof fn lemma_worth_with_tile(cells: Seq<Seq<nat>>, row: int, col: int, value: nat)
    requires
        is_square(cells, cells.len()),
        in_grid(cells.len(), row, col),
        cells[row][col] == 0,
    ensures
        grid_worth(with_tile(cells, row, col, value)) == grid_worth(cells) + worth(value),
{
    let size = cells.len();
    let after = with_tile(cells, row, col, value);
    lemma_rows_worth_same(after, cells, row as nat, size);
    lemma_total_update(cells[row], col, value, size);
    lemma_rows_worth_rest(cells, after, row, size, size);
}

/// Rows that differ only in row `row` differ in worth by that row alone.
proof fn lemma_rows_worth_rest(a: Seq<Seq<nat>>, b: Seq<Seq<nat>>, row: int, rows: nat, cols: nat)
    requires
        0 <= row < rows <= a.len(),
        a.len() == b.len(),
        forall|r: int| 0 <= r < a.len() && r != row ==> a[r] == b[r],
    ensures
        rows_worth(b, rows, cols) + total(a[row], cols) == rows_worth(a, rows, cols) + total(
            b[row],
            cols,
        ),
    decreases rows,
{
    if rows - 1 == row {
        lemma_rows_worth_same(a, b, row as nat, cols);
    } else {
        lemma_rows_worth_rest(a, b, row, (rows - 1) as nat, cols);
    }
}

/// A new tile never lowers the worth of a board.
pub proof fn lemma_spawn_worth(cells: Seq<Seq<nat>>, pick: nat, four: bool)
    requires
        is_square(cells, cells.len()),
    ensures
        grid_worth(spawned(cells, pick, four)) >= grid_worth(cells),
{
    if pick < free_cells(cells).len() {
        lemma_free_cells(cells);
        let at = free_cells(cells)[pick as int];
        lemma_worth_with_tile(cells, at.0 as int, at.1 as int, new_tile(four));
    }
}

/// The largest worth of a cell that fits 32 bits.
pub open spec fn worth_cap() -> nat {
    0x20_0000_0000
}

/// A line of cells that fit 32 bits is worth at most `worth_cap` a cell.
proof fn lemma_total_bound(line: Seq<nat>, upto: nat)
    requires
        upto <= line.len(),
        forall|i: int| 0 <= i < line.len() ==> line[i] < 0x1_0000_0000,
    ensures
        total(line, upto) <= upto * worth_cap(),
    decreases upto,
{
    if upto > 0 {
        lemma_total_bound(line, (upto - 1) as nat);
        let value = line[upto - 1];
        lemma2_to64();
        lemma_worth_bound(value, 32);
        assert(total(line, upto) <= upto * worth_cap()) by (nonlinear_arith)
            requires
                total(line, upto) == total(line, (upto - 1) as nat) + worth(value),
                total(line, (upto - 1) as nat) <= (upto - 1) * worth_cap(),
                worth(value) <= 32 * value,
                value < 0x1_0000_0000,
                worth_cap() == 0x20_0000_0000,
                upto >= 1,
        ;
    }
}

/// The first rows of a grid of cells that fit 32 bits are worth at most
/// `worth_cap` a cell.
proof fn lemma_rows_worth_bound(cells: Seq<Seq<nat>>, rows: nat)
    requires
        is_square(cells, cells.len()),
        all_below(cells, 0x1_0000_0000),
        rows <= cells.len(),
    ensures
        rows_worth(cells, rows, cells.len()) <= rows * cells.len() * worth_cap(),
    decreases rows,
{
    if rows > 0 {
        lemma_rows_worth_bound(cells, (rows - 1) as nat);
        let size = cells.len();
        lemma_total_bound(cells[rows - 1], size);
        assert(rows_worth(cells, rows, size) <= rows * size * worth_cap()) by (nonlinear_arith)
            requires
                rows_worth(cells, rows, size) == rows_worth(cells, (rows - 1) as nat, size) + total(
                    cells[rows - 1],
                    size,
                ),
                rows_worth(cells, (rows - 1) as nat, size) <= (rows - 1) * size * worth_cap(),
                total(cells[rows - 1], size) <= size * worth_cap(),
                rows >= 1,
        ;
    } else {
        assert(0 * cells.len() * worth_cap() == 0) by (nonlinear_arith);
    }
}

/// A board of cells that fit 32 bits is worth at most `worth_cap` a cell.
pub proof fn lemma_grid_worth_bound(cells: Seq<Seq<nat>>)
    requires
        is_square(cells, cells.len()),
        all_below(cells, 0x1_0000_0000),
    ensures
        grid_worth(cells) <= cells.len() * cells.len() * worth_cap(),
{
    lemma_rows_worth_bound(cells, cells.len());
}

} // verus!
