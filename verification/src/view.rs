//! The view a renderer gets of a single field.

use crate::field::Field;
use vstd::prelude::*;

verus! {

/// View state of a field.
#[derive(Clone, Copy, Debug, Eq, PartialEq, Structural)]
pub enum View {
    /// The field has not been visited yet and is covered.
    Covered,
    /// The field is flagged.
    Flag,
    /// The player stepped on a dud.
    SteppedOnDud,
    /// The player stepped on a live mine.
    SteppedOnMine,
    /// The field is clear. The inner number is the amount of surrounding mines.
    Clear(u8),
    /// The field contains a mine.
    Mine,
}

impl View {
    /// The char representation of a view; clear fields show their
    /// adjacent-mine tally as a single decimal digit, zero as a blank.
    pub open spec fn spec_as_char(self) -> char {
        match self {
            View::Covered => '\u{25a0}',
            View::Flag => '\u{2690}',
            View::SteppedOnDud => '~',
            View::SteppedOnMine => '\u{2620}',
            View::Clear(n) => View::spec_digit(n as int),
            View::Mine => '*',
        }
    }

    /// The decimal digit for a clear field's tally; zero shows as a blank.
    pub open spec fn spec_digit(n: int) -> char {
        if n == 0 {
            ' '
        } else if n == 1 {
            '1'
        } else if n == 2 {
            '2'
        } else if n == 3 {
            '3'
        } else if n == 4 {
            '4'
        } else if n == 5 {
            '5'
        } else if n == 6 {
            '6'
        } else if n == 7 {
            '7'
        } else if n == 8 {
            '8'
        } else {
            '9'
        }
    }

    /// Returns a char representation of the field's view.
    ///
    /// A clear field's tally must be a single decimal digit.
    pub fn as_char(self) -> (r: char)
        requires
            forall|n: u8| self == View::Clear(n) ==> n <= 9,
        ensures
            r == self.spec_as_char(),
    {
        match self {
            View::Covered => '\u{25a0}',
            View::Flag => '\u{2690}',
            View::SteppedOnDud => '~',
            View::SteppedOnMine => '\u{2620}',
            View::Clear(n) => (
                match n {
                    0 => ' ',
                    1 => '1',
                    2 => '2',
                    3 => '3',
                    4 => '4',
                    5 => '5',
                    6 => '6',
                    7 => '7',
                    8 => '8',
                    _ => '9',
                }
            ),
            View::Mine => '*',
        }
    }
}

impl Field {
    /// The view of a field in state `self`, while playing or after the
    /// game is over.
    ///
    /// While playing, a flag hides everything, a visited field shows what
    /// was stepped on, and everything else stays covered. Once the game is
    /// over, unflagged mines become visible and wrongly flagged fields
    /// degrade to their true content.
    pub open spec fn spec_view(self, game_over: bool) -> View {
        if (!game_over && !self.visited && self.flagged) || (game_over && !self.visited
            && self.flagged && self.mined) {
            View::Flag
        } else if self.visited && self.mined && self.dud {
            View::SteppedOnDud
        } else if self.visited && self.mined && !self.dud {
            View::SteppedOnMine
        } else if (!game_over && self.visited && !self.flagged && !self.mined) || (game_over
            && !self.mined) {
            View::Clear(self.adjacent)
        } else if game_over && !self.visited && !self.flagged && self.mined {
            View::Mine
        } else {
            View::Covered
        }
    }

    /// Return the expected view of the field.
    pub fn view(&self, game_over: bool) -> (r: View)
        ensures
            r == self.spec_view(game_over),
    {
        if (!game_over && !self.visited && self.flagged) || (game_over && !self.visited
            && self.flagged && self.mined) {
            View::Flag
        } else if self.visited && self.mined && self.dud {
            View::SteppedOnDud
        } else if self.visited && self.mined && !self.dud {
            View::SteppedOnMine
        } else if (!game_over && self.visited && !self.flagged && !self.mined) || (game_over
            && !self.mined) {
            View::Clear(self.adjacent)
        } else if game_over && !self.visited && !self.flagged && self.mined {
            View::Mine
        } else {
            View::Covered
        }
    }

    /// Return the char the field shows, while playing or after the game
    /// is over.
    pub fn as_char(&self, game_over: bool) -> (r: char)
        requires
            self.adjacent <= 9,
        ensures
            r == self.spec_view(game_over).spec_as_char(),
    {
        self.view(game_over).as_char()
    }
}

} // verus!
