use vstd::prelude::*;

verus! {

/// How a finished game ended, from the point of view of the player whose turn
/// it is in the final position.
#[derive(Clone, Copy, Debug, PartialEq, Eq, Structural)]
pub enum Terminal {
    Win,
    Loss,
    Draw,
}

/// The two sides of the board.
#[derive(Clone, Copy, Debug, PartialEq, Eq, Structural)]
pub enum Color {
    White,
    Black,
}

/// The state of a game as the rules engine reports it.
#[derive(Clone, Copy, Debug, PartialEq, Eq, Structural)]
pub enum GameOutcome {
    Winner(Color),
    Draw,
    Ongoing,
}

/// Numeric reward of an outcome: one for a win, minus one for a loss, zero
/// for a draw.
pub open spec fn score_of(t: Terminal) -> int {
    match t {
        Terminal::Win => 1,
        Terminal::Loss => -1,
        Terminal::Draw => 0,
    }
}

/// The terminal state seen by `to_move`, or `None` while the game goes on.
pub open spec fn terminal_spec(outcome: GameOutcome, to_move: Color) -> Option<Terminal> {
    match outcome {
        GameOutcome::Winner(c) => if c == to_move {
            Some(Terminal::Win)
        } else {
            Some(Terminal::Loss)
        },
        GameOutcome::Draw => Some(Terminal::Draw),
        GameOutcome::Ongoing => None,
    }
}

impl Terminal {
    /// The outcome as a reward in {-1, 0, 1}.
    pub fn score(self) -> (r: i8)
        ensures
            r == score_of(self),
    {
        match self {
            Terminal::Win => 1,
            Terminal::Loss => -1,
            Terminal::Draw => 0,
        }
    }

    /// The same outcome seen by the other player.
    pub fn negate(self) -> (r: Terminal)
        ensures
            score_of(r) == -score_of(self),
    {
        match self {
            Terminal::Win => Terminal::Loss,
            Terminal::Loss => Terminal::Win,
            Terminal::Draw => Terminal::Draw,
        }
    }
}

/// Reads a game's result from the perspective of the side to move.
pub fn terminal(outcome: GameOutcome, to_move: Color) -> (r: Option<Terminal>)
    ensures
        r == terminal_spec(outcome, to_move),
{
    match outcome {
        GameOutcome::Winner(color) => {
            if color == to_move {
                Some(Terminal::Win)
            } else {
                Some(Terminal::Loss)
            }
        },
        GameOutcome::Draw => Some(Terminal::Draw),
        GameOutcome::Ongoing => None,
    }
}

} // verus!
