//! The mathematical model of a board: a square grid of natural numbers,
//! indexed by row and then by column.

use crate::seq_facts::{lemma_filter_all, lemma_filter_no_duplicates, lemma_filter_one_less};
use crate::tile::is_tile;
use vstd::arithmetic::div_mod::{
    lemma_div_pos_is_pos, lemma_fundamental_div_mod, lemma_fundamental_div_mod_converse, lemma_mod_bound,
};
use vstd::prelude::*;

verus! {

/// `cells` has `size` rows of `size` cells each.
pub open spec fn is_square(cells: Seq<Seq<nat>>, size: nat) -> bool {
    &&& cells.len() == size
    &&& forall|r: int| 0 <= r < size ==> (#[trigger] cells[r]).len() == size
}

/// `(row, col)` names a cell of a grid of side `size`.
pub open spec fn in_grid(size: nat, row: int, col: int) -> bool {
    0 <= row < size && 0 <= col < size
}

/// Every cell is free or holds a power of two from 2 up.
pub open spec fn all_tiles(cells: Seq<Seq<nat>>) -> bool {
    forall|r: int, c: int|
        0 <= r < cells.len() && 0 <= c < cells[r].len() ==> is_tile(#[trigger] cells[r][c])
}

/// Every cell is below `limit`.
pub open spec fn all_below(cells: Seq<Seq<nat>>, limit: nat) -> bool {
    forall|r: int, c: int|
        0 <= r < cells.len() && 0 <= c < cells[r].len() ==> #[trigger] cells[r][c] < limit
}

/// Some cell holds at least `target`.
pub open spec fn reaches(cells: Seq<Seq<nat>>, target: nat) -> bool {
    exists|r: int, c: int| in_grid(cells.len(), r, c) && #[trigger] cells[r][c] >= target
}

/// No cell reaches `limit` exactly when every cell is below it.
pub proof fn lemma_reaches_or_below(cells: Seq<Seq<nat>>, limit: nat)
    requires
        is_square(cells, cells.len()),
    ensures
        reaches(cells, limit) <==> !all_below(cells, limit),
{
    if !reaches(cells, limit) {
        assert forall|r: int, c: int|
            0 <= r < cells.len() && 0 <= c < cells[r].len() implies #[trigger] cells[r][c] < limit by {
            assert(in_grid(cells.len(), r, c));
        }
    }
}

/// The grid of side `size` with every cell free.
pub open spec fn blank(size: nat) -> Seq<Seq<nat>> {
    Seq::new(size, |r: int| Seq::new(size, |c: int| 0nat))
}

/// The grid with the cell at `(row, col)` replaced by `value`.
pub open spec fn with_tile(cells: Seq<Seq<nat>>, row: int, col: int, value: nat) -> Seq<Seq<nat>> {
    cells.update(row, cells[row].update(col, value))
}

/// Column `col` of the grid, from the top row down.
pub open spec fn column(cells: Seq<Seq<nat>>, col: int) -> Seq<nat> {
    Seq::new(cells.len(), |r: int| cells[r][col])
}

/// Line `index` of the grid: a row read from the left, or a column read from
/// the top.
pub open spec fn line_at(cells: Seq<Seq<nat>>, along_rows: bool, index: int) -> Seq<nat> {
    if along_rows {
        cells[index]
    } else {
        column(cells, index)
    }
}

/// The grid with line `index` replaced by `line`.
pub open spec fn with_line(cells: Seq<Seq<nat>>, along_rows: bool, index: int, line: Seq<nat>) -> Seq<
    Seq<nat>,
> {
    if along_rows {
        cells.update(index, line)
    } else {
        Seq::new(cells.len(), |r: int| cells[r].update(index, line[r]))
    }
}

/// All cell positions of a grid of side `size` in reading order: row by row
/// from the top, each row from the left.
pub open spec fn positions(size: nat) -> Seq<(nat, nat)> {
    Seq::new(size * size, |p: int| ((p / size as int) as nat, (p % size as int) as nat))
}

/// The predicate that holds of the positions of free cells.
pub open spec fn is_free(cells: Seq<Seq<nat>>) -> spec_fn((nat, nat)) -> bool {
    |at: (nat, nat)| cells[at.0 as int][at.1 as int] == 0
}

/// The positions of the free cells, in reading order.
pub open spec fn free_cells(cells: Seq<Seq<nat>>) -> Seq<(nat, nat)> {
    positions(cells.len()).filter(is_free(cells))
}

/// Position `row * size + col` in reading order is `(row, col)`.
pub proof fn lemma_position(size: nat, row: int, col: int)
    requires
        in_grid(size, row, col),
    ensures
        0 <= row * size + col < size * size,
        positions(size)[row * size + col] == (row as nat, col as nat),
{
    let p = row * size + col;
    assert(0 <= p < size * size) by (nonlinear_arith)
        requires
            p == row * size + col,
            0 <= row < size,
            0 <= col < size,
    ;
    lemma_fundamental_div_mod_converse(p, size as int, row, col);
}

/// Every position in reading order lies in the grid.
pub proof fn lemma_positions_in_grid(size: nat, p: int)
    requires
        0 <= p < size * size,
    ensures
        in_grid(size, positions(size)[p].0 as int, positions(size)[p].1 as int),
        positions(size)[p].0 * size + positions(size)[p].1 == p,
{
    let d = size as int;
    assert(d > 0) by (nonlinear_arith)
        requires
            0 <= p < d * d,
            d >= 0,
    ;
    lemma_fundamental_div_mod(p, d);
    lemma_mod_bound(p, d);
    lemma_div_pos_is_pos(p, d);
    assert(p / d < d) by (nonlinear_arith)
        requires
            p == d * (p / d) + p % d,
            0 <= p % d,
            p < d * d,
            d > 0,
    ;
    assert(d * (p / d) == (p / d) * d) by (nonlinear_arith);
}

/// The free cells are exactly the cells of the grid that hold zero, each
/// listed once.
pub proof fn lemma_free_cells(cells: Seq<Seq<nat>>)
    requires
        is_square(cells, cells.len()),
    ensures
        forall|i: int|
            0 <= i < free_cells(cells).len() ==> {
                let at = #[trigger] free_cells(cells)[i];
                in_grid(cells.len(), at.0 as int, at.1 as int) && cells[at.0 as int][at.1 as int] == 0
            },
        forall|r: int, c: int|
            in_grid(cells.len(), r, c) && cells[r][c] == 0 ==> free_cells(cells).contains(
                (r as nat, c as nat),
            ),
        free_cells(cells).no_duplicates(),
{
    let size = cells.len();
    let all = positions(size);
    let free = free_cells(cells);
    assert forall|i: int| 0 <= i < free.len() implies {
        let at = #[trigger] free[i];
        in_grid(size, at.0 as int, at.1 as int) && cells[at.0 as int][at.1 as int] == 0
    } by {
        let at = free[i];
        all.lemma_filter_pred(is_free(cells), i);
        assert(free.contains(at));
        all.lemma_filter_contains_rev(is_free(cells), at);
        let p = choose|p: int| 0 <= p < all.len() && all[p] == at;
        lemma_positions_in_grid(size, p);
    }
    assert forall|r: int, c: int| in_grid(size, r, c) && cells[r][c] == 0 implies free.contains(
        (r as nat, c as nat),
    ) by {
        lemma_position(size, r, c);
        all.lemma_filter_contains(is_free(cells), r * size + c);
    }
    lemma_positions_distinct(size);
    lemma_filter_no_duplicates(all, is_free(cells));
}

/// No position occurs twice in reading order.
pub proof fn lemma_positions_distinct(size: nat)
    ensures
        positions(size).no_duplicates(),
{
    let all = positions(size);
    assert forall|p: int, q: int| 0 <= p < all.len() && 0 <= q < all.len() && p != q implies all[p]
        != all[q] by {
        lemma_positions_in_grid(size, p);
        lemma_positions_in_grid(size, q);
    }
}

/// On a blank grid every cell is free.
pub proof fn lemma_free_cells_blank(size: nat)
    ensures
        free_cells(blank(size)) == positions(size),
        free_cells(blank(size)).len() == size * size,
{
    let all = positions(size);
    assert forall|p: int| 0 <= p < all.len() implies is_free(blank(size))(#[trigger] all[p]) by {
        lemma_positions_in_grid(size, p);
    }
    lemma_filter_all(all, is_free(blank(size)));
}

/// A tile put on a free cell leaves one free cell fewer.
pub proof fn lemma_free_cells_with_tile(cells: Seq<Seq<nat>>, row: int, col: int, value: nat)
    requires
        is_square(cells, cells.len()),
        in_grid(cells.len(), row, col),
        cells[row][col] == 0,
        value != 0,
    ensures
        free_cells(with_tile(cells, row, col, value)).len() + 1 == free_cells(cells).len(),
{
    let size = cells.len();
    let all = positions(size);
    let after = with_tile(cells, row, col, value);
    let at = (row as nat, col as nat);
    lemma_positions_distinct(size);
    lemma_position(size, row, col);
    assert(all.contains(at));
    assert forall|p: int| 0 <= p < all.len() && all[p] != at implies is_free(cells)(#[trigger] all[p])
        == is_free(after)(all[p]) by {
        lemma_positions_in_grid(size, p);
    }
    lemma_filter_one_less(all, is_free(cells), is_free(after), at);
}

} // verus!
