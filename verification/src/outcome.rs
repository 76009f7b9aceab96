//! The outcome of a concluded game.

use vstd::prelude::*;

verus! {

/// Represents the outcome of a game: whether it was won, and when it
/// ended.
#[derive(Clone, Copy, Debug)]
pub struct Outcome {
    /// Flag whether the game was won.
    won: bool,
    /// Time when the game ended.
    end: std::time::Instant,
}

impl Outcome {
    /// Whether the game was won.
    pub closed spec fn spec_is_won(&self) -> bool {
        self.won
    }

    /// When the game ended.
    pub closed spec fn spec_end(&self) -> std::time::Instant {
        self.end
    }

    /// Create a new instance of a game outcome, ending now.
    pub(crate) fn new(won: bool) -> (r: Self)
        ensures
            r.spec_is_won() == won,
    {
        Self { won, end: std::time::Instant::now() }
    }

    /// Create a new outcome for a win.
    pub(crate) fn won() -> (r: Self)
        ensures
            r.spec_is_won(),
    {
        Self::new(true)
    }

    /// Create a new outcome for a loss.
    pub(crate) fn lost() -> (r: Self)
        ensures
            !r.spec_is_won(),
    {
        Self::new(false)
    }

    /// Returns `true` if the game is won, else `false`.
    #[verifier::when_used_as_spec(spec_is_won)]
    pub fn is_won(&self) -> (r: bool)
        ensures
            r == self.spec_is_won(),
    {
        self.won
    }

    /// Returns the instant when the game ended.
    pub fn end(&self) -> (r: std::time::Instant)
        ensures
            r == self.spec_end(),
    {
        self.end
    }
}

} // verus!
