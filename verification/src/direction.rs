//! The direction of a move, and how a key press or a swipe selects one.

use vstd::prelude::*;

verus! {

/// Where a move sends the tiles. `Idle` asks for nothing: it never changes a
/// board and never makes a tile appear.
#[derive(Clone, Copy, Debug, PartialEq, Eq, Hash, Structural)]
pub enum Direction {
    Up,
    Down,
    Left,
    Right,
    Idle,
}

impl Direction {
    /// The direction selected by the arrow keys that went down in one frame.
    /// When several went down together, left wins over right, right over
    /// down, and down over up.
    pub open spec fn spec_from_keys(up: bool, down: bool, right: bool, left: bool) -> Direction {
        if left {
            Direction::Left
        } else if right {
            Direction::Right
        } else if down {
            Direction::Down
        } else if up {
            Direction::Up
        } else {
            Direction::Idle
        }
    }

    /// The direction of a finished swipe. `horizontal` says that the
    /// horizontal displacement is strictly the larger in absolute value;
    /// `positive` is the sign of the displacement along the axis that
    /// decides. Positive is rightward on the horizontal axis and downward on
    /// the vertical one, as on a screen.
    pub open spec fn spec_from_swipe(horizontal: bool, positive: bool) -> Direction {
        if horizontal {
            if positive {
                Direction::Right
            } else {
                Direction::Left
            }
        } else {
            if positive {
                Direction::Down
            } else {
                Direction::Up
            }
        }
    }

    /// Resolves the arrow keys pressed in one frame to a direction.
    #[verifier::when_used_as_spec(spec_from_keys)]
    pub fn from_keys(up: bool, down: bool, right: bool, left: bool) -> (direction: Direction)
        ensures
            direction == Direction::spec_from_keys(up, down, right, left),
            direction == Direction::Idle <==> !(up || down || right || left),
    {
        let mut direction = Direction::Idle;
        if up {
            direction = Direction::Up;
        }
        if down {
            direction = Direction::Down;
        }
        if right {
            direction = Direction::Right;
        }
        if left {
            direction = Direction::Left;
        }
        direction
    }

    /// Resolves a finished swipe to a direction; a swipe always moves.
    #[verifier::when_used_as_spec(spec_from_swipe)]
    pub fn from_swipe(horizontal: bool, positive: bool) -> (direction: Direction)
        ensures
            direction == Direction::spec_from_swipe(horizontal, positive),
            direction != Direction::Idle,
    {
        if horizontal {
            if positive {
                Direction::Right
            } else {
                Direction::Left
            }
        } else {
            if positive {
                Direction::Down
            } else {
                Direction::Up
            }
        }
    }

    /// Whether the move works on rows (left, right) rather than columns.
    pub open spec fn along_rows(self) -> bool {
        self == Direction::Left || self == Direction::Right
    }

    /// Whether the move sends tiles toward the last index of a line (right,
    /// down) rather than the first.
    pub open spec fn toward_end(self) -> bool {
        self == Direction::Right || self == Direction::Down
    }
}

} // verus!
