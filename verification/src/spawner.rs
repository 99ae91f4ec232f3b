//! New tiles: where they appear and what they are worth.
//!
//! A new tile appears on a free cell chosen uniformly at random and is a 2,
//! or with a configured percentage a 4. The choice is made by a seeded
//! generator, so that a seed replays a game; what is done with the drawn
//! numbers is `spawn_at`, which takes them as arguments.

use crate::board::{positions_of, Board};
use crate::grid::{free_cells, lemma_free_cells, with_tile};
use crate::tile::lemma_new_tiles_are_tiles;
use rand::rngs::StdRng;
use rand::Rng;
use rand::SeedableRng;
use vstd::prelude::*;

verus! {

/// The generator of `rand` that a spawner draws from.
#[verifier::external_type_specification]
#[verifier::external_body]
pub struct ExStdRng(StdRng);

/// The number of equally likely rolls that decide the value of a new tile.
pub const SPAWN_ROLLS: usize = 100;

/// Calls `StdRng::seed_from_u64` of `rand`. Nothing is claimed of the
/// generator it returns.
#[verifier::external_body]
fn seeded_rng(seed: u64) -> StdRng {
    StdRng::seed_from_u64(seed)
}

/// Calls `Rng::gen_range` of `rand` on the range from zero up to, and not
/// including, `bound`. The claim is that the number drawn lies in that
/// range; which one it is depends on the state of the generator. An empty
/// range makes `gen_range` panic, so `bound` must be positive.
#[verifier::external_body]
fn draw_below(rng: &mut StdRng, bound: usize) -> (drawn: usize)
    requires
        bound > 0,
    ensures
        drawn < bound,
{
    rng.gen_range(0..bound)
}

/// The value of a new tile.
pub open spec fn new_tile(four: bool) -> nat {
    if four {
        4
    } else {
        2
    }
}

/// Whether a roll makes the new tile a 4: the rolls below `four_percent` do.
pub open spec fn rolls_four(roll: nat, four_percent: nat) -> bool {
    roll < four_percent
}

/// The grid after a new tile appeared on the free cell number `pick` in
/// reading order; the grid as it was if there is no such cell.
pub open spec fn spawned(cells: Seq<Seq<nat>>, pick: nat, four: bool) -> Seq<Seq<nat>> {
    let free = free_cells(cells);
    if pick < free.len() {
        with_tile(cells, free[pick as int].0 as int, free[pick as int].1 as int, new_tile(four))
    } else {
        cells
    }
}

/// Where the new tile appeared and its value, if there was a free cell
/// number `pick`.
pub open spec fn placement(cells: Seq<Seq<nat>>, pick: nat, four: bool) -> Option<(nat, nat, nat)> {
    let free = free_cells(cells);
    if pick < free.len() {
        Some((free[pick as int].0, free[pick as int].1, new_tile(four)))
    } else {
        None
    }
}

/// A reported placement as natural numbers.
pub open spec fn as_placement(placed: Option<(usize, usize, u32)>) -> Option<(nat, nat, nat)> {
    match placed {
        Some((row, col, value)) => Some((row as nat, col as nat, value as nat)),
        None => None,
    }
}

/// A pick and a roll that the generator can produce for a grid with
/// `free_count` free cells.
pub open spec fn can_draw(free_count: nat, pick: nat, roll: nat) -> bool {
    &&& roll < SPAWN_ROLLS
    &&& free_count > 0 ==> pick < free_count
}

/// Puts a new tile on entry `pick` of the list of free cells.
fn put_new_tile(board: &mut Board, free: &Vec<(usize, usize)>, pick: usize, four: bool) -> (placed:
    Option<(usize, usize, u32)>)
    requires
        old(board).wf(),
        positions_of(free@) == free_cells(old(board)@.cells),
    ensures
        final(board).wf(),
        final(board)@.size == old(board)@.size,
        final(board)@.score == old(board)@.score,
        final(board)@.cells == spawned(old(board)@.cells, pick as nat, four),
        as_placement(placed) == placement(old(board)@.cells, pick as nat, four),
{
    if pick < free.len() {
        let (row, col) = free[pick];
        let value: u32 = if four {
            4
        } else {
            2
        };
        proof {
            lemma_free_cells(board@.cells);
            lemma_new_tiles_are_tiles();
            assert(positions_of(free@)[pick as int] == (row as nat, col as nat));
        }
        board.place(row, col, value);
        Some((row, col, value))
    } else {
        None
    }
}

/// Puts a new tile on the free cell number `pick`, counting the free cells
/// from zero in reading order: a 4 if `four`, else a 2. Returns the cell and
/// the value, or nothing, with the board untouched, when fewer than
/// `pick + 1` cells are free.
pub fn spawn_at(board: &mut Board, pick: usize, four: bool) -> (placed: Option<(usize, usize, u32)>)
    requires
        old(board).wf(),
    ensures
        final(board).wf(),
        final(board)@.size == old(board)@.size,
        final(board)@.score == old(board)@.score,
        final(board)@.cells == spawned(old(board)@.cells, pick as nat, four),
        as_placement(placed) == placement(old(board)@.cells, pick as nat, four),
        placed is Some <==> pick < free_cells(old(board)@.cells).len(),
{
    let free = board.empty_cells();
    assert(positions_of(free@).len() == free.len());
    put_new_tile(board, &free, pick, four)
}

/// The source of new tiles: a seeded generator and the percentage of fours.
pub struct Spawner {
    rng: StdRng,
    four_percent: u32,
}

impl Spawner {
    /// The percentage of new tiles that are fours.
    pub closed spec fn spec_four_percent(&self) -> u32 {
        self.four_percent
    }

    /// A spawner that draws from a generator seeded with `seed` and makes
    /// `four_percent` in a hundred new tiles a 4 (all of them from 100 up).
    pub fn new(seed: u64, four_percent: u32) -> (spawner: Spawner)
        ensures
            spawner.four_percent() == four_percent,
    {
        Spawner { rng: seeded_rng(seed), four_percent }
    }

    /// The percentage of new tiles that are fours.
    #[verifier::when_used_as_spec(spec_four_percent)]
    pub fn four_percent(&self) -> (percent: u32)
        ensures
            percent == self.spec_four_percent(),
    {
        self.four_percent
    }

    /// Puts a new tile on a free cell drawn uniformly at random, a 4 with the
    /// configured percentage and else a 2, and returns the cell and the
    /// value. Returns nothing, with the board untouched, exactly when no cell
    /// is free. Whatever the generator draws, the outcome is that of
    /// `spawn_at` for some pick among the free cells and some roll.
    pub fn spawn_one(&mut self, board: &mut Board) -> (placed: Option<(usize, usize, u32)>)
        requires
            old(board).wf(),
        ensures
            final(self).four_percent() == old(self).four_percent(),
            final(board).wf(),
            final(board)@.size == old(board)@.size,
            final(board)@.score == old(board)@.score,
            placed is None <==> free_cells(old(board)@.cells).len() == 0,
            exists|pick: nat, roll: nat| #[trigger]
                can_draw(free_cells(old(board)@.cells).len(), pick, roll) && {
                    let four = rolls_four(roll, old(self).four_percent() as nat);
                    &&& final(board)@.cells == spawned(old(board)@.cells, pick, four)
                    &&& as_placement(placed) == placement(old(board)@.cells, pick, four)
                },
    {
        let percent = self.four_percent;
        self.spawn_drawn(board, percent)
    }

    /// Puts a 2 on a free cell drawn uniformly at random, as at the start of
    /// a game, and returns the cell and the value. Returns nothing, with the
    /// board untouched, exactly when no cell is free.
    pub fn seed_one(&mut self, board: &mut Board) -> (placed: Option<(usize, usize, u32)>)
        requires
            old(board).wf(),
        ensures
            final(self).four_percent() == old(self).four_percent(),
            final(board).wf(),
            final(board)@.size == old(board)@.size,
            final(board)@.score == old(board)@.score,
            placed is None <==> free_cells(old(board)@.cells).len() == 0,
            exists|pick: nat, roll: nat| #[trigger]
                can_draw(free_cells(old(board)@.cells).len(), pick, roll) && {
                    &&& final(board)@.cells == spawned(old(board)@.cells, pick, false)
                    &&& as_placement(placed) == placement(old(board)@.cells, pick, false)
                },
    {
        self.spawn_drawn(board, 0)
    }

    /// Draws a free cell and a roll and puts the new tile there, a 4 when
    /// the roll is below `percent`.
    fn spawn_drawn(&mut self, board: &mut Board, percent: u32) -> (placed: Option<(usize, usize, u32)>)
        requires
            old(board).wf(),
        ensures
            final(self).four_percent() == old(self).four_percent(),
            final(board).wf(),
            final(board)@.size == old(board)@.size,
            final(board)@.score == old(board)@.score,
            placed is None <==> free_cells(old(board)@.cells).len() == 0,
            exists|pick: nat, roll: nat| #[trigger]
                can_draw(free_cells(old(board)@.cells).len(), pick, roll) && {
                    let four = rolls_four(roll, percent as nat);
                    &&& final(board)@.cells == spawned(old(board)@.cells, pick, four)
                    &&& as_placement(placed) == placement(old(board)@.cells, pick, four)
                },
    {
        let free = board.empty_cells();
        assert(positions_of(free@).len() == free.len());
        if free.len() == 0 {
            assert(can_draw(0, 0, 0));
            return None;
        }
        let pick = draw_below(&mut self.rng, free.len());
        let roll = draw_below(&mut self.rng, SPAWN_ROLLS);
        let four = roll < percent as usize;
        let placed = put_new_tile(board, &free, pick, four);
        assert(can_draw(free_cells(old(board)@.cells).len(), pick as nat, roll as nat));
        placed
    }
}

} // verus!
