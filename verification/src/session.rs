//! A game: one board, the source of its new tiles, and the verdict on it.
//!
//! A session starts in play on a freshly seeded board. Each move that changes
//! the board earns its score, brings one new tile, and is followed by a new
//! verdict. Once the game is won or lost no move has any effect.

use crate::board::{positions_of, Board, BoardView, MAX_SIDE};
use crate::direction::Direction;
use crate::engine::{apply, move_gain, moved};
use crate::evaluator::{evaluate, verdict_of, Verdict, STANDARD_TARGET};
use crate::grid::{
    free_cells, in_grid, lemma_free_cells, lemma_free_cells_blank, lemma_free_cells_with_tile, reaches,
};
use crate::laws::lemma_move_leaves_room;
use crate::line::tiles_of;
use crate::spawner::{can_draw, new_tile, rolls_four, spawn_at, spawned, Spawner};
use crate::tile::TILE_MAX;
use crate::worth::{grid_worth, lemma_grid_worth_bound, lemma_spawn_worth, lemma_worth_moved, worth_cap};
use vstd::prelude::*;

verus! {

/// The highest score a board may bring into a session. Above it the score
/// of a long game could leave 64 bits.
pub const MAX_OPENING_SCORE: u64 = 0x8000_0000_0000_0000;

/// What a host chooses for a game.
#[derive(Clone, Copy, Debug, PartialEq, Eq, Structural)]
pub struct Config {
    /// The side length of the board.
    pub size: usize,
    /// The tile value that wins the game.
    pub target: u32,
    /// How many new tiles in a hundred are fours.
    pub four_percent: u32,
    /// How many tiles the board starts with.
    pub seed_tiles: usize,
}

impl Config {
    /// The board is no larger than `MAX_SIDE` and the target is a value that
    /// a cell can hold.
    pub open spec fn wf(self) -> bool {
        self.size <= MAX_SIDE && self.target <= TILE_MAX
    }

    /// The usual game: a board of side 4, won at 2048, one new tile in ten a
    /// four, two tiles to start with.
    pub open spec fn spec_standard() -> Config {
        Config { size: 4, target: STANDARD_TARGET, four_percent: 10, seed_tiles: 2 }
    }

    /// The usual game.
    #[verifier::when_used_as_spec(spec_standard)]
    pub fn standard() -> (config: Config)
        ensures
            config == Config::spec_standard(),
            config.wf(),
    {
        Config { size: 4, target: STANDARD_TARGET, four_percent: 10, seed_tiles: 2 }
    }

    /// Whether a session can be started with this configuration.
    pub fn is_valid(&self) -> (valid: bool)
        ensures
            valid == self.wf(),
    {
        self.size <= MAX_SIDE && self.target <= TILE_MAX
    }
}

impl Default for Config {
    fn default() -> (config: Config)
        ensures
            config == Config::spec_standard(),
    {
        Config::standard()
    }
}

/// What a session shows after a move: the cells row by row, the score and
/// the verdict.
#[derive(Clone, Debug, PartialEq, Eq)]
pub struct Snapshot {
    pub cells: Vec<Vec<u32>>,
    pub score: u64,
    pub verdict: Verdict,
}

/// What a session is to the contracts.
pub struct SessionView {
    pub board: BoardView,
    pub verdict: Verdict,
    pub target: nat,
    pub four_percent: nat,
}

impl SessionView {
    /// The board is well formed, the verdict is the one the board deserves,
    /// and the score is no more than the tiles on the board can have earned
    /// on top of the highest opening score.
    pub open spec fn wf(self) -> bool {
        &&& self.board.wf()
        &&& self.target <= TILE_MAX
        &&& self.verdict == verdict_of(self.board.cells, self.target)
        &&& self.board.score <= MAX_OPENING_SCORE + grid_worth(self.board.cells)
    }

    /// Whether a move in `direction` has any effect: the game is in play and
    /// the move changes the board.
    pub open spec fn plays(self, direction: Direction) -> bool {
        self.verdict == Verdict::Ongoing && moved(self.board.cells, direction) != self.board.cells
    }

    /// The session after a move in `direction`, where the new tile appears on
    /// the free cell number `pick` and is a 4 if `four`. A move without
    /// effect leaves the session as it was.
    pub open spec fn step(self, direction: Direction, pick: nat, four: bool) -> SessionView {
        if self.plays(direction) {
            let cells = spawned(moved(self.board.cells, direction), pick, four);
            SessionView {
                board: BoardView {
                    size: self.board.size,
                    cells,
                    score: self.board.score + move_gain(self.board.cells, direction),
                },
                verdict: verdict_of(cells, self.target),
                target: self.target,
                four_percent: self.four_percent,
            }
        } else {
            self
        }
    }
}

impl Snapshot {
    /// The snapshot holds the cells, the score and the verdict of `view`.
    pub open spec fn shows(self, view: SessionView) -> bool {
        &&& self.cells.len() == view.board.size
        &&& forall|r: int|
            0 <= r < self.cells.len() ==> tiles_of((#[trigger] self.cells[r])@) == view.board.cells[r]
        &&& self.score == view.board.score
        &&& self.verdict == view.verdict
    }
}

/// Every cell is free or holds a 2.
pub open spec fn only_twos(cells: Seq<Seq<nat>>) -> bool {
    forall|r: int, c: int|
        0 <= r < cells.len() && 0 <= c < cells[r].len() ==> (#[trigger] cells[r][c]) == 0 || cells[r][c]
            == 2
}

/// The number of tiles on a square grid.
pub open spec fn tile_count(cells: Seq<Seq<nat>>) -> int {
    cells.len() * cells.len() - free_cells(cells).len()
}

/// A game in progress or finished.
pub struct GameSession {
    board: Board,
    verdict: Verdict,
    target: u32,
    spawner: Spawner,
}

impl View for GameSession {
    type V = SessionView;

    closed spec fn view(&self) -> SessionView {
        SessionView {
            board: self.board@,
            verdict: self.verdict,
            target: self.target as nat,
            four_percent: self.spawner.four_percent() as nat,
        }
    }
}

impl GameSession {
    /// The session's invariant: that of its view.
    pub open spec fn wf(&self) -> bool {
        self@.wf()
    }

    /// A new game: a blank board of the configured side with the configured
    /// number of twos on cells drawn at random (as many as fit), score zero,
    /// and the verdict that this board deserves. The draws come from a
    /// generator seeded with `seed`.
    ///
    /// The configuration must pass `Config::is_valid`.
    pub fn new(config: Config, seed: u64) -> (session: GameSession)
        requires
            config.wf(),
        ensures
            session.wf(),
            session@.board.size == config.size,
            session@.board.score == 0,
            session@.target == config.target,
            session@.four_percent == config.four_percent,
            only_twos(session@.board.cells),
            tile_count(session@.board.cells) == if config.seed_tiles <= config.size * config.size {
                config.seed_tiles as int
            } else {
                config.size * config.size
            },
    {
        let mut board = Board::new(config.size);
        let mut spawner = Spawner::new(seed, config.four_percent);
        let free = board.empty_cells();
        let room = free.len();
        proof {
            lemma_free_cells_blank(config.size as nat);
            assert(positions_of(free@).len() == free.len());
        }
        let count = if config.seed_tiles <= room {
            config.seed_tiles
        } else {
            room
        };
        let mut k: usize = 0;
        while k < count
            invariant
                board.wf(),
                board@.size == config.size,
                board@.score == 0,
                spawner.four_percent() == config.four_percent,
                only_twos(board@.cells),
                k <= count <= room,
                room == config.size * config.size,
                free_cells(board@.cells).len() + k == room,
            decreases count - k,
        {
            let ghost before = board@.cells;
            spawner.seed_one(&mut board);
            proof {
                let (pick, roll) = choose|pick: nat, roll: nat| #[trigger]
                    can_draw(free_cells(before).len(), pick, roll) && board@.cells == spawned(
                        before,
                        pick,
                        false,
                    );
                lemma_free_cells(before);
                let at = free_cells(before)[pick as int];
                lemma_free_cells_with_tile(before, at.0 as int, at.1 as int, 2);
            }
            k = k + 1;
        }
        let verdict = evaluate(&board, config.target);
        GameSession { board, verdict, target: config.target, spawner }
    }

    /// A game taken up on a given board, won at `target`, with the verdict
    /// that the board deserves.
    ///
    /// The target must be a value that a cell can hold, and the score of the
    /// board no more than `MAX_OPENING_SCORE`.
    pub fn with_board(board: Board, target: u32, spawner: Spawner) -> (session: GameSession)
        requires
            board.wf(),
            target <= TILE_MAX,
            board@.score <= MAX_OPENING_SCORE,
        ensures
            session.wf(),
            session@.board == board@,
            session@.target == target,
            session@.four_percent == spawner.four_percent(),
    {
        let verdict = evaluate(&board, target);
        GameSession { board, verdict, target, spawner }
    }

    /// The verdict on the game.
    pub fn verdict(&self) -> (verdict: Verdict)
        ensures
            verdict == self@.verdict,
    {
        self.verdict
    }

    /// The score earned so far.
    pub fn score(&self) -> (score: u64)
        ensures
            score == self@.board.score,
    {
        self.board.score()
    }

    /// The tile value that wins the game.
    pub fn target(&self) -> (target: u32)
        ensures
            target == self@.target,
    {
        self.target
    }

    /// The board.
    pub fn board(&self) -> (board: &Board)
        ensures
            board@ == self@.board,
    {
        &self.board
    }

    /// The cells, the score and the verdict, for a host to draw.
    pub fn snapshot(&self) -> (snapshot: Snapshot)
        requires
            self.wf(),
        ensures
            snapshot.shows(self@),
    {
        Snapshot { cells: self.board.cells(), score: self.board.score(), verdict: self.verdict }
    }

    /// The sliding half of a move: slides the tiles and books the score if
    /// the game is in play. The new tile and the new verdict are still due
    /// when it reports an effect.
    fn slide(&mut self, direction: Direction) -> (effective: bool)
        requires
            old(self).wf(),
        ensures
            effective == old(self)@.plays(direction),
            !effective ==> final(self)@ == old(self)@,
            final(self)@.verdict == old(self)@.verdict,
            final(self)@.target == old(self)@.target,
            final(self)@.four_percent == old(self)@.four_percent,
            final(self)@.board.wf(),
            final(self)@.board.size == old(self)@.board.size,
            effective ==> final(self)@.board.cells == moved(old(self)@.board.cells, direction),
            effective ==> final(self)@.board.score == old(self)@.board.score + move_gain(
                old(self)@.board.cells,
                direction,
            ),
            final(self)@.board.score <= MAX_OPENING_SCORE + grid_worth(final(self)@.board.cells),
    {
        match self.verdict {
            Verdict::Ongoing => {},
            _ => {
                return false;
            },
        }
        let ghost start = self.board@.cells;
        proof {
            if reaches(start, TILE_MAX as nat) {
                let (r, c) = choose|r: int, c: int|
                    in_grid(start.len(), r, c) && #[trigger] start[r][c] >= TILE_MAX;
                assert(start[r][c] >= self.target);
            }
        }
        let result = apply(&mut self.board, direction);
        if result.board_changed {
            proof {
                let slid = self.board@.cells;
                lemma_worth_moved(start, direction);
                lemma_grid_worth_bound(slid);
                assert(slid.len() * slid.len() * worth_cap() <= MAX_SIDE * MAX_SIDE * worth_cap())
                    by (nonlinear_arith)
                    requires
                        slid.len() <= MAX_SIDE,
                ;
            }
            self.board.add_score(result.score_gained);
        }
        result.board_changed
    }

    /// Plays a move with the new tile decided by the caller: after a move
    /// that changed the board the tile appears on the free cell number
    /// `pick`, counted from zero in reading order, as a 4 if `four` and else
    /// a 2; with fewer free cells than that no tile appears. Nothing happens
    /// when the game is over, the direction is idle, or no tile can move.
    /// This is `apply_move` with the draws given, to replay a game.
    pub fn apply_move_with(&mut self, direction: Direction, pick: usize, four: bool) -> (snapshot:
        Snapshot)
        requires
            old(self).wf(),
        ensures
            final(self).wf(),
            final(self)@ == old(self)@.step(direction, pick as nat, four),
            final(self)@.board.score >= old(self)@.board.score,
            snapshot.shows(final(self)@),
    {
        let effective = self.slide(direction);
        if effective {
            let ghost slid = self.board@.cells;
            spawn_at(&mut self.board, pick, four);
            proof {
                lemma_spawn_worth(slid, pick as nat, four);
            }
            self.verdict = evaluate(&self.board, self.target);
        }
        self.snapshot()
    }

    /// Plays a move: if the game is in play and the move changes the board,
    /// the score grows by what the move earned, one new tile appears on a
    /// free cell drawn at random, and the verdict is taken anew. Nothing
    /// happens when the game is over, the direction is idle, or no tile can
    /// move. Whatever is drawn, the outcome is that of `apply_move_with` for
    /// some pick among the free cells and some roll.
    pub fn apply_move(&mut self, direction: Direction) -> (snapshot: Snapshot)
        requires
            old(self).wf(),
        ensures
            final(self).wf(),
            exists|pick: nat, roll: nat| #[trigger]
                can_draw(free_cells(moved(old(self)@.board.cells, direction)).len(), pick, roll)
                    && final(self)@ == old(self)@.step(
                    direction,
                    pick,
                    rolls_four(roll, old(self)@.four_percent),
                ),
            final(self)@.board.score >= old(self)@.board.score,
            old(self)@.plays(direction) ==> tile_count(final(self)@.board.cells) == tile_count(
                moved(old(self)@.board.cells, direction),
            ) + 1,
            snapshot.shows(final(self)@),
    {
        let effective = self.slide(direction);
        if effective {
            let ghost slid = self.board@.cells;
            self.spawner.spawn_one(&mut self.board);
            proof {
                let (pick, roll) = choose|pick: nat, roll: nat| #[trigger]
                    can_draw(free_cells(slid).len(), pick, roll) && self.board@.cells == spawned(
                        slid,
                        pick,
                        rolls_four(roll, old(self)@.four_percent),
                    );
                let four = rolls_four(roll, old(self)@.four_percent);
                lemma_spawn_worth(slid, pick, four);
                lemma_move_leaves_room(old(self)@.board.cells, direction);
                lemma_free_cells(slid);
                let at = free_cells(slid)[pick as int];
                lemma_free_cells_with_tile(slid, at.0 as int, at.1 as int, new_tile(four));
            }
            self.verdict = evaluate(&self.board, self.target);
        } else {
            assert(can_draw(free_cells(moved(old(self)@.board.cells, direction)).len(), 0, 0));
        }
        self.snapshot()
    }
}

} // verus!
