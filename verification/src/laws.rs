//! What holds of every board and of every game: the rules stated over grids
//! and sessions, each one proved from the definitions of a move, of a new
//! tile and of the verdict.

use crate::direction::Direction;
use crate::engine::{move_gain, moved, moved_cell};
use crate::evaluator::{has_equal_neighbours, has_free, pair_at, verdict_of, Verdict};
use crate::grid::{
    all_below, all_tiles, free_cells, in_grid, is_square, lemma_free_cells, lemma_free_cells_with_tile,
    lemma_reaches_or_below, line_at, reaches, with_tile,
};
use crate::line::{
    full, lemma_slide_fits, lemma_slide_fixed, lemma_slide_leaves_room, lemma_slide_nothing,
    lemma_slide_tiles, no_equal_neighbours, slide, slide_toward, tiles_only,
};
use crate::session::SessionView;
use crate::spawner::{new_tile, spawned};
use crate::tile::{is_tile, lemma_new_tiles_are_tiles, TILE_MAX};
use crate::worth::{lemma_spawn_worth, lemma_worth_moved};
use vstd::prelude::*;

verus! {

/// Some cell holds a tile.
pub open spec fn has_tile(cells: Seq<Seq<nat>>) -> bool {
    exists|r: int, c: int| in_grid(cells.len(), r, c) && #[trigger] cells[r][c] != 0
}

/// No move in any direction changes the grid.
pub open spec fn stuck(cells: Seq<Seq<nat>>) -> bool {
    forall|direction: Direction| #[trigger] moved(cells, direction) == cells
}

/// An idle move changes no cell and earns nothing.
pub proof fn lemma_idle_changes_nothing(cells: Seq<Seq<nat>>)
    ensures
        moved(cells, Direction::Idle) == cells,
        move_gain(cells, Direction::Idle) == 0,
{
}

/// A move keeps a grid square and its cells valid: after it every cell is
/// still free or a power of two from 2 up.
pub proof fn lemma_move_keeps_tiles(cells: Seq<Seq<nat>>, direction: Direction)
    requires
        is_square(cells, cells.len()),
        all_tiles(cells),
    ensures
        is_square(moved(cells, direction), cells.len()),
        all_tiles(moved(cells, direction)),
{
    if direction != Direction::Idle {
        let after = moved(cells, direction);
        assert forall|r: int, c: int|
            0 <= r < after.len() && 0 <= c < after[r].len() implies is_tile(#[trigger] after[r][c]) by {
            let index = if direction.along_rows() {
                r
            } else {
                c
            };
            let line = line_at(cells, direction.along_rows(), index);
            assert(tiles_only(line));
            lemma_slide_tiles(line, direction.toward_end());
        }
    }
}

/// A move on a grid whose tiles are all below `TILE_MAX` makes no tile that
/// a cell cannot hold.
pub proof fn lemma_move_fits(cells: Seq<Seq<nat>>, direction: Direction)
    requires
        is_square(cells, cells.len()),
        all_tiles(cells),
        all_below(cells, TILE_MAX as nat),
    ensures
        all_below(moved(cells, direction), TILE_MAX as nat + 1),
{
    if direction != Direction::Idle {
        let after = moved(cells, direction);
        assert forall|r: int, c: int|
            0 <= r < after.len() && 0 <= c < after[r].len() implies #[trigger] after[r][c] < TILE_MAX
            + 1 by {
            let index = if direction.along_rows() {
                r
            } else {
                c
            };
            let line = line_at(cells, direction.along_rows(), index);
            assert(tiles_only(line));
            lemma_slide_fits(line, direction.toward_end());
        }
    }
}

/// A new tile takes a free cell: that cell alone changes, from free to a 2
/// or a 4, and one cell fewer is free.
pub proof fn lemma_spawn_takes_a_free_cell(cells: Seq<Seq<nat>>, pick: nat, four: bool)
    requires
        is_square(cells, cells.len()),
        pick < free_cells(cells).len(),
    ensures
        ({
            let at = free_cells(cells)[pick as int];
            &&& in_grid(cells.len(), at.0 as int, at.1 as int)
            &&& cells[at.0 as int][at.1 as int] == 0
            &&& spawned(cells, pick, four) == with_tile(cells, at.0 as int, at.1 as int, new_tile(four))
            &&& spawned(cells, pick, four)[at.0 as int][at.1 as int] == new_tile(four)
        }),
        forall|r: int, c: int|
            in_grid(cells.len(), r, c) && (r as nat, c as nat) != free_cells(cells)[pick as int]
                ==> spawned(cells, pick, four)[r][c] == cells[r][c],
        free_cells(spawned(cells, pick, four)).len() + 1 == free_cells(cells).len(),
{
    lemma_free_cells(cells);
    let at = free_cells(cells)[pick as int];
    lemma_free_cells_with_tile(cells, at.0 as int, at.1 as int, new_tile(four));
}

/// A move that changes the grid leaves a free cell, so a new tile always
/// finds a place.
pub proof fn lemma_move_leaves_room(cells: Seq<Seq<nat>>, direction: Direction)
    requires
        is_square(cells, cells.len()),
        moved(cells, direction) != cells,
    ensures
        has_free(moved(cells, direction)),
        free_cells(moved(cells, direction)).len() > 0,
{
    let size = cells.len();
    let after = moved(cells, direction);
    let along_rows = direction.along_rows();
    let toward_end = direction.toward_end();
    if !has_free(after) {
        assert forall|r: int, c: int| in_grid(size, r, c) implies after[r][c] == cells[r][c] by {
            let index = if along_rows {
                r
            } else {
                c
            };
            let line = line_at(cells, along_rows, index);
            let slid = slide_toward(line, toward_end);
            lemma_slide_tiles(line, toward_end);
            if slid != line {
                lemma_slide_leaves_room(line, toward_end);
                let k = choose|k: int| 0 <= k < slid.len() && slid[k] == 0;
                if along_rows {
                    assert(in_grid(size, index, k));
                    assert(after[index][k] == 0);
                } else {
                    assert(in_grid(size, k, index));
                    assert(after[k][index] == 0);
                }
            }
        }
        assert forall|r: int| 0 <= r < size implies #[trigger] after[r] == cells[r] by {
            assert(after[r] =~= cells[r]);
        }
        assert(after =~= cells);
    }
    let (r, c) = choose|r: int, c: int| in_grid(after.len(), r, c) && #[trigger] after[r][c] == 0;
    lemma_free_cells(after);
    assert(free_cells(after).contains((r as nat, c as nat)));
}

/// A cell that has reached the target wins the game, whatever else is on
/// the board.
pub proof fn lemma_victory(cells: Seq<Seq<nat>>, target: nat, row: int, col: int)
    requires
        in_grid(cells.len(), row, col),
        cells[row][col] >= target,
    ensures
        verdict_of(cells, target) == Verdict::Victory,
{
}

/// A full board on which no two neighbours are equal is lost, unless a cell
/// has reached the target.
pub proof fn lemma_defeat(cells: Seq<Seq<nat>>, target: nat)
    requires
        !reaches(cells, target),
        !has_free(cells),
        !has_equal_neighbours(cells),
    ensures
        verdict_of(cells, target) == Verdict::Defeat,
{
}

/// Freeing one cell of a board below the target keeps the game going.
pub proof fn lemma_free_cell_goes_on(cells: Seq<Seq<nat>>, target: nat, row: int, col: int)
    requires
        is_square(cells, cells.len()),
        in_grid(cells.len(), row, col),
        !reaches(cells, target),
    ensures
        verdict_of(with_tile(cells, row, col, 0), target) == Verdict::Ongoing,
{
    let freed = with_tile(cells, row, col, 0);
    assert(freed[row][col] == 0);
    assert(cells[row][col] < target);
    if reaches(freed, target) {
        let (r, c) = choose|r: int, c: int|
            in_grid(freed.len(), r, c) && #[trigger] freed[r][c] >= target;
        assert(cells[r][c] >= target);
    }
}

/// A line that slides to itself both ways is full or free from end to end,
/// and if full has no two equal neighbours.
proof fn lemma_fixed_both_ways(line: Seq<nat>)
    requires
        slide_toward(line, false) == line,
        slide_toward(line, true) == line,
    ensures
        full(line) || forall|i: int| 0 <= i < line.len() ==> #[trigger] line[i] == 0,
        full(line) ==> no_equal_neighbours(line),
{
    let back = line.reverse();
    lemma_slide_fixed(line);
    assert(slide(back) =~= back) by {
        assert(slide(back).reverse().reverse() =~= slide(back));
    }
    lemma_slide_fixed(back);
    if !full(line) {
        let i = choose|i: int| 0 <= i < line.len() && line[i] == 0;
        assert forall|j: int| 0 <= j < line.len() implies #[trigger] line[j] == 0 by {
            if j < i {
                assert(back[line.len() - 1 - i] == 0);
                assert(back[line.len() - 1 - j] == 0);
            }
        }
    }
}

/// On a lost board no move changes anything; and a board with a tile on it
/// that no move changes is full with no two equal neighbours. So below the
/// target a board with a tile is lost exactly when it is stuck.
pub proof fn lemma_defeat_is_stuck(cells: Seq<Seq<nat>>, target: nat)
    requires
        is_square(cells, cells.len()),
    ensures
        !has_free(cells) && !has_equal_neighbours(cells) ==> stuck(cells),
        stuck(cells) && has_tile(cells) ==> !has_free(cells) && !has_equal_neighbours(cells),
        !reaches(cells, target) && has_tile(cells) ==> (verdict_of(cells, target) == Verdict::Defeat
            <==> stuck(cells)),
{
    let size = cells.len();
    if !has_free(cells) && !has_equal_neighbours(cells) {
        assert forall|direction: Direction| #[trigger] moved(cells, direction) == cells by {
            if direction != Direction::Idle {
                let after = moved(cells, direction);
                assert forall|r: int, c: int| #[trigger] in_grid(size, r, c) implies after[r][c]
                    == cells[r][c] by {
                    let index = if direction.along_rows() {
                        r
                    } else {
                        c
                    };
                    let line = line_at(cells, direction.along_rows(), index);
                    assert forall|k: int| 0 <= k < line.len() implies #[trigger] line[k] != 0 by {
                        if direction.along_rows() {
                            assert(in_grid(size, index, k));
                        } else {
                            assert(in_grid(size, k, index));
                        }
                    }
                    assert forall|k: int| 0 <= k < line.len() - 1 implies #[trigger] line[k] != line[k
                        + 1] by {
                        if direction.along_rows() {
                            assert(in_grid(size, index, k));
                            assert(!pair_at(cells, index, k));
                        } else {
                            assert(in_grid(size, k, index));
                            assert(!pair_at(cells, k, index));
                        }
                    }
                    lemma_slide_nothing(line, direction.toward_end());
                }
                assert forall|r: int| 0 <= r < size implies #[trigger] after[r] == cells[r] by {
                    assert forall|c: int| 0 <= c < size implies after[r][c] == cells[r][c] by {
                        assert(in_grid(size, r, c));
                    }
                    assert(after[r] =~= cells[r]);
                }
                assert(after =~= cells);
            }
        }
    }
    if stuck(cells) && has_tile(cells) {
        assert forall|along_rows: bool, index: int| 0 <= index < size implies {
            let line = #[trigger] line_at(cells, along_rows, index);
            &&& full(line) || forall|i: int| 0 <= i < line.len() ==> #[trigger] line[i] == 0
            &&& full(line) ==> no_equal_neighbours(line)
        } by {
            let line = line_at(cells, along_rows, index);
            let toward_first = if along_rows {
                Direction::Left
            } else {
                Direction::Up
            };
            let toward_last = if along_rows {
                Direction::Right
            } else {
                Direction::Down
            };
            assert(moved(cells, toward_first) == cells);
            assert(moved(cells, toward_last) == cells);
            lemma_slide_tiles(line, false);
            lemma_slide_tiles(line, true);
            assert forall|k: int| 0 <= k < size implies slide_toward(line, false)[k] == line[k]
                && slide_toward(line, true)[k] == line[k] by {
                if along_rows {
                    assert(moved(cells, toward_first)[index][k] == moved_cell(
                        cells,
                        toward_first,
                        index,
                        k,
                    ));
                    assert(moved(cells, toward_last)[index][k] == moved_cell(
                        cells,
                        toward_last,
                        index,
                        k,
                    ));
                } else {
                    assert(moved(cells, toward_first)[k][index] == moved_cell(
                        cells,
                        toward_first,
                        k,
                        index,
                    ));
                    assert(moved(cells, toward_last)[k][index] == moved_cell(
                        cells,
                        toward_last,
                        k,
                        index,
                    ));
                }
            }
            assert(slide_toward(line, false) =~= line);
            assert(slide_toward(line, true) =~= line);
            lemma_fixed_both_ways(line);
        }
        let (r1, c1) = choose|r: int, c: int| in_grid(cells.len(), r, c) && #[trigger] cells[r][c] != 0;
        let through = line_at(cells, false, c1);
        assert(through[r1] != 0);
        assert(full(through));
        assert forall|r: int, c: int| in_grid(size, r, c) implies #[trigger] cells[r][c] != 0 by {
            let row = line_at(cells, true, r);
            assert(through[r] != 0);
            assert(row[c1] != 0);
            assert(full(row));
        }
        assert forall|r: int, c: int| in_grid(size, r, c) implies !#[trigger] pair_at(cells, r, c) by {
            let row = line_at(cells, true, r);
            let col = line_at(cells, false, c);
            assert(full(row)) by {
                assert forall|k: int| 0 <= k < row.len() implies #[trigger] row[k] != 0 by {
                    assert(in_grid(size, r, k));
                }
            }
            assert(full(col)) by {
                assert forall|k: int| 0 <= k < col.len() implies #[trigger] col[k] != 0 by {
                    assert(in_grid(size, k, c));
                }
            }
            if c + 1 < size {
                assert(row[c] != row[c + 1]);
            }
            if r + 1 < size {
                assert(col[r] != col[r + 1]);
            }
        }
    }
}

/// The invariant of a session holds after every move, whatever is drawn, and
/// the score never drops: it grows by exactly what the move earned.
pub proof fn lemma_step_keeps_invariant(
    session: SessionView,
    direction: Direction,
    pick: nat,
    four: bool,
)
    requires
        session.wf(),
    ensures
        session.step(direction, pick, four).wf(),
        session.step(direction, pick, four).board.score >= session.board.score,
        session.plays(direction) ==> session.step(direction, pick, four).board.score
            == session.board.score + move_gain(session.board.cells, direction),
        !session.plays(direction) ==> session.step(direction, pick, four) == session,
{
    if session.plays(direction) {
        let cells = session.board.cells;
        let slid = moved(cells, direction);
        let after = spawned(slid, pick, four);
        lemma_reaches_or_below(cells, session.target);
        assert(all_below(cells, TILE_MAX as nat));
        lemma_move_keeps_tiles(cells, direction);
        lemma_move_fits(cells, direction);
        lemma_worth_moved(cells, direction);
        lemma_spawn_worth(slid, pick, four);
        if pick < free_cells(slid).len() {
            lemma_spawn_takes_a_free_cell(slid, pick, four);
            lemma_new_tiles_are_tiles();
            let at = free_cells(slid)[pick as int];
            assert forall|r: int, c: int|
                0 <= r < after.len() && 0 <= c < after[r].len() implies is_tile(#[trigger] after[r][c])
                && after[r][c] < TILE_MAX + 1 by {
                if (r as nat, c as nat) != at {
                    assert(in_grid(slid.len(), r, c));
                    assert(after[r][c] == slid[r][c]);
                }
            }
        }
    }
}

} // verus!
