//! The game object with the board and metadata.

use crate::action::Action;
use crate::board::bulk_cells_transition;
use crate::board::spec_bulk_outcome;
use crate::board::spec_new_error;
use crate::board::spec_visit_outcome;
use crate::board::toggle_cells_transition;
use crate::board::visit_cells_transition;
use crate::board::Board;
use crate::coordinate::Coordinate;
use crate::error::Error;
use crate::grid::cell;
use crate::grid::in_bounds;
use crate::move_result::MoveResult;
use crate::outcome::Outcome;
use crate::state::State;
use vstd::prelude::*;

verus! {

/// The game object with the board and metadata: the amounts of mines
/// and duds it was created with, when it started, and its outcome once
/// it has concluded.
#[derive(Debug)]
pub struct Game {
    board: Board,
    mines: u8,
    duds: u8,
    start: std::time::Instant,
    outcome: Option<Outcome>,
}

impl Game {
    /// The game board.
    pub closed spec fn spec_board(&self) -> Board {
        self.board
    }

    /// The amount of mines the game was created with.
    pub closed spec fn spec_mines(&self) -> u8 {
        self.mines
    }

    /// The amount of duds the game was created with.
    pub closed spec fn spec_duds(&self) -> u8 {
        self.duds
    }

    /// The instant the game started.
    pub closed spec fn spec_start(&self) -> std::time::Instant {
        self.start
    }

    /// The game's outcome, if it has concluded.
    pub closed spec fn spec_outcome(&self) -> Option<Outcome> {
        self.outcome
    }

    /// The game is over once it has an outcome.
    pub open spec fn spec_is_over(&self) -> bool {
        self.spec_outcome() is Some
    }

    /// The game's structural invariant: its board is well formed.
    pub open spec fn wf(&self) -> bool {
        self.spec_board().wf()
    }

    /// Create a new game.
    ///
    /// # Errors
    ///
    /// Returns an [`Error`] if the grid size or amount of mines and
    /// duds is out of bounds.
    pub fn new(width: usize, height: usize, mines: u8, duds: u8) -> (r: Result<Self, Error>)
        ensures
            (r is Ok) <==> (width >= 1 && height >= 1 && (width as int) * (height as int)
                <= usize::MAX && (mines as int) < (width as int) * (height as int) && duds
                <= mines),
            r matches Ok(g) ==> {
                &&& g.wf()
                &&& !g.spec_is_over()
                &&& g.spec_mines() == mines
                &&& g.spec_duds() == duds
                &&& g.spec_board().width() == width
                &&& g.spec_board().height() == height
                &&& g.spec_board().pending() == Some((mines, duds))
                &&& crate::board::pristine(g.spec_board().cells())
            },
            r matches Err(e) ==> e == spec_new_error(
                width as int,
                height as int,
                mines as int,
                duds as int,
            ),
    {
        match Board::new(width, height, mines, duds) {
            Ok(board) => Ok(
                Self { board, mines, duds, start: std::time::Instant::now(), outcome: None },
            ),
            Err(error) => Err(error),
        }
    }

    /// Returns the amount of mines in the game.
    pub fn mines(&self) -> (r: u8)
        ensures
            r == self.spec_mines(),
    {
        self.mines
    }

    /// Returns the amount of duds in the game.
    pub fn duds(&self) -> (r: u8)
        ensures
            r == self.spec_duds(),
    {
        self.duds
    }

    /// Return the amount of flags on the game board.
    pub fn flags(&self) -> (r: usize)
        requires
            self.wf(),
        ensures
            r as int == crate::grid::flagged_set(self.spec_board().cells()).len(),
    {
        self.board.flags()
    }

    /// Returns the instant of when the game was started.
    pub fn start(&self) -> (r: std::time::Instant)
        ensures
            r == self.spec_start(),
    {
        self.start
    }

    /// Returns the outcome, if the game has ended.
    pub fn outcome(&self) -> (r: Option<Outcome>)
        ensures
            r == self.spec_outcome(),
    {
        self.outcome
    }

    /// Returns the instant of when the game ended, if applicable.
    pub fn end(&self) -> (r: Option<std::time::Instant>)
        ensures
            r is Some <==> self.spec_is_over(),
            self.spec_outcome() matches Some(o) ==> r == Some(o.spec_end()),
    {
        match self.outcome {
            Some(outcome) => Some(outcome.end()),
            None => None,
        }
    }

    /// Returns `true` if the game is over.
    pub fn is_over(&self) -> (r: bool)
        ensures
            r == self.spec_is_over(),
    {
        self.outcome.is_some()
    }

    /// Returns the duration of the game: until it ended if it is over,
    /// until now otherwise.
    pub fn duration(&self) -> core::time::Duration {
        let end = match self.outcome {
            Some(outcome) => outcome.end(),
            None => std::time::Instant::now(),
        };
        end.duration_since(self.start)
    }

    /// Return the outcome of the game, if it has concluded.
    ///
    /// # Returns
    /// - `Some(true)` if the game is won.
    /// - `Some(false)` if the game is lost.
    /// - `None` if the game is still running.
    pub fn is_won(&self) -> (r: Option<bool>)
        ensures
            r == match self.spec_outcome() {
                Some(o) => Some(o.spec_is_won()),
                None => None,
            },
    {
        match self.outcome {
            Some(outcome) => Some(outcome.is_won()),
            None => None,
        }
    }

    /// Play the next round.
    ///
    /// Return `Some(State)` with the state the move left behind, or
    /// `None` if the game is already over, in which case nothing
    /// changes. The outcome is recorded when a visit ends the game; a
    /// first visit can never lose it.
    pub fn next_round(&mut self, action: Action) -> (r: Option<State>)
        requires
            old(self).wf(),
        ensures
            final(self).wf(),
            final(self).spec_mines() == old(self).spec_mines(),
            final(self).spec_duds() == old(self).spec_duds(),
            final(self).spec_start() == old(self).spec_start(),
            old(self).spec_is_over() ==> r is None && *final(self) == *old(self),
            !old(self).spec_is_over() ==> r is Some,
            action matches Action::Visit(c) ==> !old(self).spec_is_over() ==> {
                let b0 = old(self).spec_board();
                let b1 = final(self).spec_board();
                let m = spec_visit_outcome(b0, b1, c);
                &&& visit_cells_transition(b0, b1, c)
                &&& r == Some(m.spec_state())
                &&& (m == MoveResult::Lost ==> (final(self).spec_outcome() matches Some(o)
                    && !o.spec_is_won()))
                &&& (m == MoveResult::Won ==> (final(self).spec_outcome() matches Some(o)
                    && o.spec_is_won()))
                &&& (m != MoveResult::Lost && m != MoveResult::Won ==> final(self).spec_outcome()
                    == old(self).spec_outcome())
                &&& (!b0.initialized() ==> m != MoveResult::Lost)
            },
            action matches Action::ToggleFlag(c) ==> !old(self).spec_is_over() ==> {
                let b0 = old(self).spec_board();
                let b1 = final(self).spec_board();
                &&& toggle_cells_transition(b0, b1, c)
                &&& final(self).spec_outcome() == old(self).spec_outcome()
                &&& r == Some(
                    (if in_bounds(b0.cells(), c.x as int, c.y as int) {
                        State::Continue
                    } else {
                        State::InvalidMove
                    }),
                )
            },
            action matches Action::VisitAllNonFlaggedFields ==> !old(self).spec_is_over() ==> {
                let b0 = old(self).spec_board();
                let b1 = final(self).spec_board();
                &&& bulk_cells_transition(b0, b1)
                &&& final(self).spec_outcome() == old(self).spec_outcome()
                &&& r == Some(spec_bulk_outcome(b0, b1).spec_state())
            },
    {
        if self.is_over() {
            return None;
        }
        Some(
            match action {
                Action::Visit(coordinate) => {
                    let m = self.visit(coordinate);
                    State::from(m)
                },
                Action::ToggleFlag(coordinate) => {
                    let m = self.board.toggle_flag(coordinate);
                    State::from(m)
                },
                Action::VisitAllNonFlaggedFields => {
                    let m = self.board.visit_non_flagged_fields();
                    State::from(m)
                },
            },
        )
    }

    /// Visit the given coordinate and record the outcome if the move
    /// ended the game.
    fn visit(&mut self, coordinate: Coordinate) -> (r: MoveResult)
        requires
            old(self).wf(),
        ensures
            final(self).wf(),
            final(self).spec_mines() == old(self).spec_mines(),
            final(self).spec_duds() == old(self).spec_duds(),
            final(self).spec_start() == old(self).spec_start(),
            visit_cells_transition(old(self).spec_board(), final(self).spec_board(), coordinate),
            r == spec_visit_outcome(old(self).spec_board(), final(self).spec_board(), coordinate),
            !old(self).spec_board().initialized() ==> r != MoveResult::Lost,
            r == MoveResult::Lost ==> (final(self).spec_outcome() matches Some(o)
                && !o.spec_is_won()),
            r == MoveResult::Won ==> (final(self).spec_outcome() matches Some(o)
                && o.spec_is_won()),
            r != MoveResult::Lost && r != MoveResult::Won ==> final(self).spec_outcome() == old(
                self,
            ).spec_outcome(),
    {
        match self.board.visit(coordinate) {
            MoveResult::Lost => {
                self.outcome = Some(Outcome::lost());
                MoveResult::Lost
            },
            MoveResult::Won => {
                self.outcome = Some(Outcome::won());
                MoveResult::Won
            },
            result => result,
        }
    }

    /// Return the field views of the game board's rows, top row first.
    pub fn rows(&self) -> (r: Vec<Vec<crate::view::View>>)
        requires
            self.wf(),
        ensures
            r@.len() == self.spec_board().height(),
            forall|y: int|
                0 <= y < r@.len() ==> (#[trigger] r@[y])@.len() == self.spec_board().width(),
            forall|x: int, y: int|
                in_bounds(self.spec_board().cells(), x, y) ==> #[trigger] r@[y]@[x] == cell(
                    self.spec_board().cells(),
                    x,
                    y,
                ).spec_view(self.spec_is_over()),
    {
        let ghost c = self.spec_board().cells();
        let over = self.is_over();
        let fields = self.board.fields();
        let mut r: Vec<Vec<crate::view::View>> = Vec::new();
        let mut y: usize = 0;
        while y < fields.len()
            invariant
                self.wf(),
                c == self.spec_board().cells(),
                crate::grid::cells_of(*fields) == c,
                over == self.spec_is_over(),
                y <= c.len(),
                r@.len() == y,
                forall|yy: int| 0 <= yy < y ==> (#[trigger] r@[yy])@.len() == c[yy].len(),
                forall|xx: int, yy: int|
                    0 <= yy < y && in_bounds(c, xx, yy) ==> #[trigger] r@[yy]@[xx] == cell(
                        c,
                        xx,
                        yy,
                    ).spec_view(over),
            decreases c.len() - y,
        {
            let mut row: Vec<crate::view::View> = Vec::new();
            let mut x: usize = 0;
            while x < fields[y].len()
                invariant
                    self.wf(),
                    c == self.spec_board().cells(),
                    crate::grid::cells_of(*fields) == c,
                    over == self.spec_is_over(),
                    y < c.len(),
                    x <= c[y as int].len(),
                    row@.len() == x,
                    forall|xx: int|
                        0 <= xx < x ==> #[trigger] row@[xx] == cell(c, xx, y as int).spec_view(
                            over,
                        ),
                decreases c[y as int].len() - x,
            {
                row.push(fields[y][x].view(over));
                x = x + 1;
            }
            r.push(row);
            y = y + 1;
        }
        proof {
            assert forall|yy: int| 0 <= yy < r@.len() implies (#[trigger] r@[yy])@.len()
                == self.spec_board().width() by {
                assert(c[yy].len() == c[0].len());
            }
        }
        r
    }

    /// Return the field views of the game board's columns, leftmost
    /// column first.
    pub fn columns(&self) -> (r: Vec<Vec<crate::view::View>>)
        requires
            self.wf(),
        ensures
            r@.len() == self.spec_board().width(),
            forall|x: int| 0 <= x < r@.len() ==> (#[trigger] r@[x])@.len() == self.spec_board().height(),
            forall|x: int, y: int|
                in_bounds(self.spec_board().cells(), x, y) ==> #[trigger] r@[x]@[y] == cell(
                    self.spec_board().cells(),
                    x,
                    y,
                ).spec_view(self.spec_is_over()),
    {
        let ghost c = self.spec_board().cells();
        let over = self.is_over();
        let fields = self.board.fields();
        let height = fields.len();
        let width = fields[0].len();
        let mut r: Vec<Vec<crate::view::View>> = Vec::new();
        let mut x: usize = 0;
        while x < width
            invariant
                self.wf(),
                c == self.spec_board().cells(),
                crate::grid::cells_of(*fields) == c,
                over == self.spec_is_over(),
                height == c.len(),
                width == c[0].len(),
                x <= width,
                r@.len() == x,
                forall|xx: int| 0 <= xx < x ==> (#[trigger] r@[xx])@.len() == height,
                forall|xx: int, yy: int|
                    0 <= xx < x && in_bounds(c, xx, yy) ==> #[trigger] r@[xx]@[yy] == cell(
                        c,
                        xx,
                        yy,
                    ).spec_view(over),
            decreases width - x,
        {
            let mut column: Vec<crate::view::View> = Vec::new();
            let mut y: usize = 0;
            while y < height
                invariant
                    self.wf(),
                    c == self.spec_board().cells(),
                    crate::grid::cells_of(*fields) == c,
                    over == self.spec_is_over(),
                    height == c.len(),
                    width == c[0].len(),
                    x < width,
                    y <= height,
                    column@.len() == y,
                    forall|yy: int|
                        0 <= yy < y ==> #[trigger] column@[yy] == cell(c, x as int, yy).spec_view(
                            over,
                        ),
                decreases height - y,
            {
                proof {
                    assert(c[y as int].len() == c[0].len());
                }
                column.push(fields[y][x].view(over));
                y = y + 1;
            }
            r.push(column);
            x = x + 1;
        }
        proof {
            assert forall|xx: int, yy: int|
                in_bounds(c, xx, yy) implies #[trigger] r@[xx]@[yy] == cell(c, xx, yy).spec_view(
                over,
            ) by {
                assert(c[yy].len() == c[0].len());
            }
        }
        r
    }

    /// Return the field views of all of the game board's fields, in
    /// row-major order.
    pub fn iter(&self) -> (r: Vec<crate::view::View>)
        requires
            self.wf(),
        ensures
            r@.len() == self.spec_board().size(),
            forall|x: int, y: int|
                in_bounds(self.spec_board().cells(), x, y) ==> #[trigger] r@[y
                    * self.spec_board().width() + x] == cell(
                    self.spec_board().cells(),
                    x,
                    y,
                ).spec_view(self.spec_is_over()),
    {
        let ghost c = self.spec_board().cells();
        let ghost w = self.spec_board().width();
        let over = self.is_over();
        let fields = self.board.fields();
        let mut r: Vec<crate::view::View> = Vec::new();
        let mut y: usize = 0;
        while y < fields.len()
            invariant
                self.wf(),
                c == self.spec_board().cells(),
                crate::grid::cells_of(*fields) == c,
                over == self.spec_is_over(),
                w == self.spec_board().width(),
                y <= c.len(),
                r@.len() == y * w,
                forall|xx: int, yy: int|
                    0 <= yy < y && in_bounds(c, xx, yy) ==> #[trigger] r@[yy * w + xx] == cell(
                        c,
                        xx,
                        yy,
                    ).spec_view(over),
            decreases c.len() - y,
        {
            let mut x: usize = 0;
            proof {
                assert(c[y as int].len() == c[0].len());
            }
            while x < fields[y].len()
                invariant
                    self.wf(),
                    c == self.spec_board().cells(),
                    crate::grid::cells_of(*fields) == c,
                    over == self.spec_is_over(),
                    w == self.spec_board().width(),
                    y < c.len(),
                    c[y as int].len() == w,
                    x <= w,
                    r@.len() == y * w + x,
                    forall|xx: int, yy: int|
                        0 <= yy < y && in_bounds(c, xx, yy) ==> #[trigger] r@[yy * w + xx] == cell(
                            c,
                            xx,
                            yy,
                        ).spec_view(over),
                    forall|xx: int|
                        0 <= xx < x ==> #[trigger] r@[y * w + xx] == cell(
                            c,
                            xx,
                            y as int,
                        ).spec_view(over),
                decreases c[y as int].len() - x,
            {
                r.push(fields[y][x].view(over));
                x = x + 1;
                proof {
                    assert forall|xx: int, yy: int|
                        0 <= yy < y && in_bounds(c, xx, yy) implies #[trigger] r@[yy * w + xx]
                        == cell(c, xx, yy).spec_view(over) by {
                        assert(c[yy].len() == c[0].len());
                        assert(yy * w + xx < y * w) by (nonlinear_arith)
                            requires
                                0 <= yy < y,
                                0 <= xx < w,
                        ;
                    }
                }
            }
            y = y + 1;
            proof {
                assert(y * w == (y - 1) * w + w) by (nonlinear_arith);
            }
        }
        proof {
            assert(r@.len() == c.len() * w) by {
                assert(c.len() * w == w * c.len()) by (nonlinear_arith);
            }
            assert forall|x: int, y: int|
                in_bounds(c, x, y) implies #[trigger] r@[y * w + x] == cell(c, x, y).spec_view(
                over,
            ) by {
                assert(c[y].len() == c[0].len());
            }
        }
        r
    }
}

} // verus!
