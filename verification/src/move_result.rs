//! The outcome vocabulary of a player's move.

use crate::state::State;
use vstd::prelude::*;

verus! {

/// Possible outcomes of a player's move on the grid.
#[derive(Clone, Copy, Debug, Eq, PartialEq, Structural)]
pub enum MoveResult {
    /// The game may continue.
    Continue,
    /// The given coordinate was invalid, e.g. not on the grid.
    InvalidPosition,
    /// The game was lost.
    Lost,
    /// The game was won.
    Won,
}

impl MoveResult {
    /// The game state a move result maps to.
    pub open spec fn spec_state(self) -> State {
        match self {
            MoveResult::InvalidPosition => State::InvalidMove,
            MoveResult::Continue => State::Continue,
            MoveResult::Lost => State::GameOver { won: false },
            MoveResult::Won => State::GameOver { won: true },
        }
    }
}

impl From<MoveResult> for State {
    /// Map a move result to the game state it leaves behind.
    fn from(result: MoveResult) -> (r: Self)
        ensures
            r == result.spec_state(),
    {
        match result {
            MoveResult::InvalidPosition => Self::InvalidMove,
            MoveResult::Continue => Self::Continue,
            MoveResult::Lost => Self::GameOver { won: false },
            MoveResult::Won => Self::GameOver { won: true },
        }
    }
}

impl vstd::std_specs::convert::FromSpecImpl<MoveResult> for State {
    open spec fn obeys_from_spec() -> bool {
        true
    }

    open spec fn from_spec(result: MoveResult) -> Self {
        result.spec_state()
    }
}

} // verus!
