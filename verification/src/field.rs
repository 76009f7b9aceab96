//! A single field (cell) of the minefield and its transition operations.

use vstd::prelude::*;

verus! {

/// Possible outcomes when visiting a field.
#[derive(Copy, Clone, Debug, Eq, PartialEq, Structural)]
pub enum VisitResult {
    /// The field has been cleared.
    Cleared,
    /// The field has already been visited.
    AlreadyVisited,
    /// The field cannot be visited, because it is flagged.
    Flagged,
    /// The player stepped onto a mine.
    SteppedOnMine,
    /// The player stepped onto a dud.
    SteppedOnDud,
}

/// A field on the game board (aka. minefield).
///
/// One boolean per fact plus the adjacent-mine tally; the tally is only
/// meaningful once the board has been initialized.
#[derive(Copy, Clone, Debug, Eq, PartialEq, Structural)]
pub struct Field {
    /// The field contains a mine.
    pub mined: bool,
    /// The field has been visited.
    pub visited: bool,
    /// The field carries a player flag.
    pub flagged: bool,
    /// The field's mine is a dud.
    pub dud: bool,
    /// The amount of mines adjacent to the field.
    pub adjacent: u8,
}

impl Field {
    /// Create a new covered field without a mine.
    pub fn new() -> (r: Self)
        ensures
            r == Self::covered(),
    {
        Self { mined: false, visited: false, flagged: false, dud: false, adjacent: 0 }
    }

    /// The state every field starts in.
    pub open spec fn covered() -> Self {
        Field { mined: false, visited: false, flagged: false, dud: false, adjacent: 0 }
    }

    /// Return `true` if the field contains a mine.
    pub fn has_mine(&self) -> (r: bool)
        ensures
            r == self.mined,
    {
        self.mined
    }

    /// Return `true` if the field has been visited.
    pub fn has_been_visited(&self) -> (r: bool)
        ensures
            r == self.visited,
    {
        self.visited
    }

    /// Return `true` if the field has been visited.
    pub fn visited(&self) -> (r: bool)
        ensures
            r == self.visited,
    {
        self.visited
    }

    /// Return `true` if the field has been flagged.
    pub fn is_flagged(&self) -> (r: bool)
        ensures
            r == self.flagged,
    {
        self.flagged
    }

    /// Return `true` if the field is a dud.
    pub fn is_dud(&self) -> (r: bool)
        ensures
            r == self.dud,
    {
        self.dud
    }

    /// Return the amount of mines adjacent to the field.
    pub fn adjacent_mines(&self) -> (r: u8)
        ensures
            r == self.adjacent,
    {
        self.adjacent
    }

    /// A field is safe when it neither holds a mine nor a flag.
    pub open spec fn spec_is_safe(self) -> bool {
        !self.mined && !self.flagged
    }

    /// Return `true` if the field is safe to visit.
    pub fn is_safe(&self) -> (r: bool)
        ensures
            r == self.spec_is_safe(),
    {
        !self.mined && !self.flagged
    }

    /// Set the field to contain a mine.
    pub fn set_mine(&mut self)
        ensures
            *final(self) == (Field { mined: true, ..*old(self) }),
    {
        self.mined = true;
    }

    /// Set the field to be a dud.
    pub fn set_dud(&mut self)
        ensures
            *final(self) == (Field { dud: true, ..*old(self) }),
    {
        self.dud = true;
    }

    /// Set the field's amount of adjacent mines without disturbing the
    /// other facts.
    pub fn set_adjacent_mines(&mut self, adjacent_mines: u8)
        requires
            adjacent_mines <= 8,
        ensures
            *final(self) == (Field { adjacent: adjacent_mines, ..*old(self) }),
    {
        self.adjacent = adjacent_mines;
    }

    /// The outcome `visit` reports for a field in state `self`.
    pub open spec fn spec_visit_result(self) -> VisitResult {
        if self.flagged {
            VisitResult::Flagged
        } else if self.visited {
            VisitResult::AlreadyVisited
        } else if !self.mined {
            VisitResult::Cleared
        } else if self.dud {
            VisitResult::SteppedOnDud
        } else {
            VisitResult::SteppedOnMine
        }
    }

    /// The state a field is in after `visit`.
    pub open spec fn spec_visit(self) -> Field {
        if self.flagged || self.visited {
            self
        } else {
            Field { visited: true, ..self }
        }
    }

    /// Visit the field.
    ///
    /// A flagged field refuses the visit, an already visited field reports
    /// so, and any other field is marked visited and classified by its
    /// mine and dud state.
    pub fn visit(&mut self) -> (r: VisitResult)
        ensures
            r == old(self).spec_visit_result(),
            *final(self) == old(self).spec_visit(),
    {
        if self.flagged {
            return VisitResult::Flagged;
        }
        if self.visited {
            return VisitResult::AlreadyVisited;
        }
        self.visited = true;
        if !self.mined {
            return VisitResult::Cleared;
        }
        if self.dud {
            return VisitResult::SteppedOnDud;
        }
        VisitResult::SteppedOnMine
    }

    /// The state a field is in after `toggle_flag`.
    pub open spec fn spec_toggle_flag(self) -> Field {
        if self.visited {
            self
        } else {
            Field { flagged: !self.flagged, ..self }
        }
    }

    /// Toggle the flag on the field.
    ///
    /// Once a field has been visited its flag is frozen and toggling is
    /// refused silently.
    pub fn toggle_flag(&mut self)
        ensures
            *final(self) == old(self).spec_toggle_flag(),
    {
        if !self.visited {
            self.flagged = !self.flagged;
        }
    }
}

/// Toggling a field's flag twice restores the original state: on a
/// visited field both toggles are refused, on a covered field the flag
/// bit is flipped there and back while nothing else changes.
pub proof fn lemma_toggle_flag_round_trip(f: Field)
    ensures
        f.spec_toggle_flag().spec_toggle_flag() == f,
{
}

/// Visiting a field leaves every fact but the visited bit untouched;
/// a flagged field is not even marked visited.
pub proof fn lemma_visit_changes_only_visited(f: Field)
    ensures
        f.spec_visit().mined == f.mined,
        f.spec_visit().flagged == f.flagged,
        f.spec_visit().dud == f.dud,
        f.spec_visit().adjacent == f.adjacent,
        f.flagged ==> f.spec_visit() == f,
{
}

impl Default for Field {
    /// Create a new covered field without a mine.
    fn default() -> (r: Self)
        ensures
            r == Self::covered(),
    {
        Self::new()
    }
}

} // verus!
