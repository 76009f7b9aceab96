//! The game board, aka. the minefield.
//!
//! The board owns the grid of fields and defers mine and dud placement
//! until the first move, which is what makes the first visited
//! coordinate always safe.

use crate::coordinate::Coordinate;
use crate::error::Error;
use crate::field::Field;
use crate::field::VisitResult;
use crate::grid::cell;
use crate::grid::cells_of;
use crate::grid::gen_fields;
use crate::grid::in_bounds;
use crate::grid::mined_neighbors;
use crate::grid::rect;
use crate::grid::bounded_dims;
use crate::grid::same_dims;
use crate::move_result::MoveResult;
use crate::neighbors_iterator::SafeNeighbors;
use vstd::prelude::*;

verus! {

/// Every field's adjacent-mine tally equals the number of mined fields
/// around it.
pub open spec fn counts_accurate(c: Seq<Seq<Field>>) -> bool {
    forall|x: int, y: int|
        in_bounds(c, x, y) ==> (#[trigger] cell(c, x, y)).adjacent as int == mined_neighbors(
            c,
            x,
            y,
        ).len()
}

/// Every dud is also a mine.
pub open spec fn duds_are_mines(c: Seq<Seq<Field>>) -> bool {
    forall|x: int, y: int|
        in_bounds(c, x, y) ==> ((#[trigger] cell(c, x, y)).dud ==> cell(c, x, y).mined)
}

/// No field holds a mine or a dud, has been visited, or carries a
/// tally: the state of the grid before initialization, flags aside.
pub open spec fn pristine(c: Seq<Seq<Field>>) -> bool {
    forall|x: int, y: int|
        in_bounds(c, x, y) ==> {
            let f = #[trigger] cell(c, x, y);
            !f.mined && !f.dud && !f.visited && f.adjacent == 0
        }
}

/// All mines are cleared: every field without a mine has been visited.
pub open spec fn all_clear(c: Seq<Seq<Field>>) -> bool {
    forall|x: int, y: int|
        in_bounds(c, x, y) && !(#[trigger] cell(c, x, y)).mined ==> cell(c, x, y).visited
}

/// The construction error for the given parameters, by priority: width,
/// height, addressability, mines against the grid size, duds against
/// the mines.
pub open spec fn spec_new_error(width: int, height: int, mines: int, duds: int) -> Error {
    if width == 0 {
        Error::FieldTooNarrow
    } else if height == 0 {
        Error::FieldTooFlat
    } else if width * height > usize::MAX {
        Error::FieldTooLarge
    } else if mines >= width * height {
        Error::TooManyMines
    } else {
        Error::TooManyDuds
    }
}

/// How a single visit at `coordinate` transforms the board's fields,
/// stated over the cells before (`c0`) and after (`c1`) the move.
pub open spec fn visit_cells_transition(b0: Board, b1: Board, coordinate: Coordinate) -> bool {
    let c0 = b0.cells();
    let c1 = b1.cells();
    let f = cell(c0, coordinate.x as int, coordinate.y as int);
    &&& same_dims(c0, c1)
    &&& (!in_bounds(c0, coordinate.x as int, coordinate.y as int) ==> b1 == b0)
    &&& (in_bounds(c0, coordinate.x as int, coordinate.y as int) ==> b1.initialized())
    &&& (in_bounds(c0, coordinate.x as int, coordinate.y as int) && b0.initialized() ==> {
        &&& (f.flagged || f.visited) ==> (forall|x: int, y: int|
            in_bounds(c0, x, y) ==> #[trigger] cell(c1, x, y) == cell(c0, x, y))
        &&& f.spec_visit_result() == VisitResult::SteppedOnMine ==> (forall|x: int, y: int|
            in_bounds(c0, x, y) ==> #[trigger] cell(c1, x, y) == (if x == coordinate.x && y
                == coordinate.y {
                cell(c0, x, y).spec_visit()
            } else {
                cell(c0, x, y)
            }))
        &&& !f.flagged && !f.visited && (!f.mined || f.dud) ==> (forall|x: int, y: int|
            in_bounds(c0, x, y) ==> #[trigger] cell(c1, x, y) == (if crate::neighbors_iterator::reaches(
                c0,
                coordinate.x as int,
                coordinate.y as int,
                x,
                y,
            ) {
                cell(c0, x, y).spec_visit()
            } else {
                cell(c0, x, y)
            }))
    })
    &&& (in_bounds(c0, coordinate.x as int, coordinate.y as int) && !b0.initialized() ==> {
        &&& b0.pending() matches Some((mines, duds)) ==> {
            &&& crate::grid::mined_set(c1).finite()
            &&& crate::grid::mined_set(c1).len() == mines as int
            &&& crate::grid::dud_set(c1).finite()
            &&& crate::grid::dud_set(c1).len() == duds as int
        }
        &&& forall|x: int, y: int|
            in_bounds(c0, x, y) ==> (#[trigger] cell(c1, x, y)).flagged == cell(c0, x, y).flagged
        &&& forall|x: int, y: int|
            in_bounds(c0, x, y) && (#[trigger] cell(c1, x, y)).visited ==> !cell(c1, x, y).mined
                && !cell(c1, x, y).flagged
        &&& forall|x: int, y: int|
            in_bounds(c0, x, y) ==> ((#[trigger] cell(c1, x, y)).visited
                <==> (crate::neighbors_iterator::reaches(
                c1,
                coordinate.x as int,
                coordinate.y as int,
                x,
                y,
            ) && !cell(c0, x, y).flagged))
        &&& (!cell(c0, coordinate.x as int, coordinate.y as int).flagged ==> cell(
            c1,
            coordinate.x as int,
            coordinate.y as int,
        ).visited)
    })
}

/// The result a visit at `coordinate` reports, given the board before
/// and after the move: an invalid position is rejected, a live mine
/// loses the game, a board whose every non-mine field is visited wins
/// it, anything else continues it.
pub open spec fn spec_visit_outcome(b0: Board, b1: Board, coordinate: Coordinate) -> MoveResult {
    if !in_bounds(b0.cells(), coordinate.x as int, coordinate.y as int) {
        MoveResult::InvalidPosition
    } else if b0.initialized() && cell(
        b0.cells(),
        coordinate.x as int,
        coordinate.y as int,
    ).spec_visit_result() == VisitResult::SteppedOnMine {
        MoveResult::Lost
    } else if all_clear(b1.cells()) {
        MoveResult::Won
    } else {
        MoveResult::Continue
    }
}

/// How toggling the flag at `coordinate` transforms the board's
/// fields: the one field's flag is toggled unless it was visited, and
/// nothing else changes.
pub open spec fn toggle_cells_transition(b0: Board, b1: Board, coordinate: Coordinate) -> bool {
    let c0 = b0.cells();
    let c1 = b1.cells();
    &&& b1.pending() == b0.pending()
    &&& same_dims(c0, c1)
    &&& (!in_bounds(c0, coordinate.x as int, coordinate.y as int) ==> b1 == b0)
    &&& (in_bounds(c0, coordinate.x as int, coordinate.y as int) ==> {
        &&& cell(c1, coordinate.x as int, coordinate.y as int) == cell(
            c0,
            coordinate.x as int,
            coordinate.y as int,
        ).spec_toggle_flag()
        &&& forall|x: int, y: int|
            in_bounds(c0, x, y) && !(x == coordinate.x && y == coordinate.y) ==> #[trigger] cell(
                c1,
                x,
                y,
            ) == cell(c0, x, y)
    })
}

/// How revealing all non-flagged fields transforms the board's fields:
/// the board is initialized if it was not, then every non-flagged
/// field is visited.
pub open spec fn bulk_cells_transition(b0: Board, b1: Board) -> bool {
    let c0 = b0.cells();
    let c1 = b1.cells();
    &&& same_dims(c0, c1)
    &&& b1.initialized()
    &&& forall|x: int, y: int|
        in_bounds(c0, x, y) ==> (#[trigger] cell(c1, x, y)).flagged == cell(c0, x, y).flagged
    &&& forall|x: int, y: int|
        in_bounds(c0, x, y) ==> ((#[trigger] cell(c1, x, y)).visited <==> (cell(
            c0,
            x,
            y,
        ).visited || !cell(c0, x, y).flagged))
    &&& (b0.initialized() ==> forall|x: int, y: int|
        in_bounds(c0, x, y) ==> #[trigger] cell(c1, x, y) == cell(c0, x, y).spec_visit())
    &&& (b0.pending() matches Some((mines, duds)) ==> {
        &&& crate::grid::mined_set(c1).finite()
        &&& crate::grid::mined_set(c1).len() == mines as int
        &&& crate::grid::dud_set(c1).finite()
        &&& crate::grid::dud_set(c1).len() == duds as int
    })
}

/// Whether revealing all non-flagged fields stepped on a live mine:
/// some field was unvisited and not flagged, yet held a mine that was
/// no dud.
pub open spec fn bulk_lost(b0: Board, b1: Board) -> bool {
    exists|x: int, y: int|
        in_bounds(b0.cells(), x, y) && !(#[trigger] cell(b1.cells(), x, y)).flagged && !cell(
            b0.cells(),
            x,
            y,
        ).visited && cell(b1.cells(), x, y).mined && !cell(b1.cells(), x, y).dud
}

/// The result revealing all non-flagged fields reports.
pub open spec fn spec_bulk_outcome(b0: Board, b1: Board) -> MoveResult {
    if bulk_lost(b0, b1) {
        MoveResult::Lost
    } else if all_clear(b1.cells()) {
        MoveResult::Won
    } else {
        MoveResult::Continue
    }
}

/// A move reports a win exactly when every field without a mine has
/// been visited once the move is done — duds and unvisited mines do
/// not block the win — provided the move hit the board and did not
/// step on a live mine.
pub proof fn lemma_won_iff_cleared(b0: Board, b1: Board, coordinate: Coordinate)
    ensures
        spec_visit_outcome(b0, b1, coordinate) == MoveResult::Won <==> (in_bounds(
            b0.cells(),
            coordinate.x as int,
            coordinate.y as int,
        ) && !(b0.initialized() && cell(
            b0.cells(),
            coordinate.x as int,
            coordinate.y as int,
        ).spec_visit_result() == VisitResult::SteppedOnMine) && all_clear(b1.cells())),
        spec_bulk_outcome(b0, b1) == MoveResult::Won <==> (!bulk_lost(b0, b1) && all_clear(
            b1.cells(),
        )),
{
}

/// The first visit never loses the game: a board is initialized by its
/// first visit, and only a visit on an already initialized board can
/// step on a mine.
pub proof fn lemma_first_visit_never_loses(b0: Board, b1: Board, coordinate: Coordinate)
    requires
        !b0.initialized(),
    ensures
        spec_visit_outcome(b0, b1, coordinate) != MoveResult::Lost,
{
}

/// Toggling the flag on the same coordinate twice restores every field
/// of the board: the first toggle flips exactly the one flag (unless
/// the field was visited, in which case both toggles are refused), and
/// the second flips it back.
pub proof fn lemma_toggle_twice_restores(b0: Board, b1: Board, b2: Board, coordinate: Coordinate)
    requires
        toggle_cells_transition(b0, b1, coordinate),
        toggle_cells_transition(b1, b2, coordinate),
    ensures
        forall|x: int, y: int|
            in_bounds(b0.cells(), x, y) ==> #[trigger] cell(b2.cells(), x, y) == cell(
                b0.cells(),
                x,
                y,
            ),
{
    if in_bounds(b0.cells(), coordinate.x as int, coordinate.y as int) {
        assert forall|x: int, y: int|
            in_bounds(b0.cells(), x, y) implies #[trigger] cell(b2.cells(), x, y) == cell(
            b0.cells(),
            x,
            y,
        ) by {
            assert(in_bounds(b1.cells(), x, y));
            if x == coordinate.x && y == coordinate.y {
                crate::field::lemma_toggle_flag_round_trip(cell(b0.cells(), x, y));
            }
        }
    }
}

/// Visiting an already-flagged field of an initialized board never
/// changes any field, and the move reports a win exactly when the
/// board was already cleared, otherwise that the game continues.
pub proof fn lemma_visit_flagged_is_noop(b0: Board, b1: Board, coordinate: Coordinate)
    requires
        b0.initialized(),
        in_bounds(b0.cells(), coordinate.x as int, coordinate.y as int),
        cell(b0.cells(), coordinate.x as int, coordinate.y as int).flagged,
        visit_cells_transition(b0, b1, coordinate),
    ensures
        forall|x: int, y: int|
            in_bounds(b0.cells(), x, y) ==> #[trigger] cell(b1.cells(), x, y) == cell(
                b0.cells(),
                x,
                y,
            ),
        spec_visit_outcome(b0, b1, coordinate) == (if all_clear(b1.cells()) {
            MoveResult::Won
        } else {
            MoveResult::Continue
        }),
{
}

/// Accurate tallies stay accurate when neither the mine bits nor the
/// tallies change.
proof fn lemma_counts_frame(a: Seq<Seq<Field>>, b: Seq<Seq<Field>>)
    requires
        same_dims(a, b),
        forall|x: int, y: int|
            in_bounds(a, x, y) ==> (#[trigger] cell(b, x, y)).mined == cell(a, x, y).mined && cell(
                b,
                x,
                y,
            ).adjacent == cell(a, x, y).adjacent,
        counts_accurate(a),
    ensures
        counts_accurate(b),
{
    assert forall|x: int, y: int|
        in_bounds(b, x, y) implies (#[trigger] cell(b, x, y)).adjacent as int == mined_neighbors(
        b,
        x,
        y,
    ).len() by {
        assert(in_bounds(a, x, y));
        crate::grid::lemma_mined_neighbors_frame(a, b, x, y);
    }
}

/// The game board, aka. the minefield.
#[derive(Debug)]
pub struct Board {
    fields: Vec<Vec<Field>>,
    init: Option<(u8, u8)>,
}

impl Board {
    /// The grid contents.
    pub closed spec fn cells(self) -> Seq<Seq<Field>> {
        cells_of(self.fields)
    }

    /// The mine and dud counts still waiting to be placed, if the board
    /// has not been initialized yet.
    pub closed spec fn pending(self) -> Option<(u8, u8)> {
        self.init
    }

    /// The board has placed its mines and duds.
    pub open spec fn initialized(self) -> bool {
        self.pending() is None
    }

    /// The board's height.
    pub open spec fn height(self) -> int {
        self.cells().len() as int
    }

    /// The board's width.
    pub open spec fn width(self) -> int {
        if self.cells().len() == 0 {
            0
        } else {
            self.cells()[0].len() as int
        }
    }

    /// The number of fields on the board.
    pub open spec fn size(self) -> int {
        self.width() * self.height()
    }

    /// The board's structural invariant: a rectangular, addressable,
    /// non-empty grid; before initialization the grid is pristine and
    /// the pending counts are consistent, afterwards duds are mines and
    /// the tallies are accurate.
    pub open spec fn wf(self) -> bool {
        &&& self.width() >= 1
        &&& self.height() >= 1
        &&& rect(self.cells())
        &&& bounded_dims(self.cells())
        &&& self.size() <= usize::MAX
        &&& match self.pending() {
            Some((mines, duds)) => {
                &&& duds <= mines
                &&& (mines as int) < self.size()
                &&& pristine(self.cells())
            },
            None => {
                &&& duds_are_mines(self.cells())
                &&& counts_accurate(self.cells())
            },
        }
    }

    /// Create a new game board with the respective parameters.
    ///
    /// The parameters are validated in priority order: a zero width,
    /// a zero height, a grid too large to address, more mines than the
    /// grid can safely hold (the grid must have strictly more fields
    /// than mines, so a first click can be safe), and more duds than
    /// mines.
    pub fn new(width: usize, height: usize, mines: u8, duds: u8) -> (r: Result<Board, Error>)
        ensures
            (r is Ok) <==> (width >= 1 && height >= 1 && (width as int) * (height as int)
                <= usize::MAX && (mines as int) < (width as int) * (height as int) && duds
                <= mines),
            r matches Ok(b) ==> {
                &&& b.wf()
                &&& b.width() == width
                &&& b.height() == height
                &&& b.pending() == Some((mines, duds))
                &&& pristine(b.cells())
                &&& forall|x: int, y: int|
                    in_bounds(b.cells(), x, y) ==> #[trigger] cell(b.cells(), x, y)
                        == Field::covered()
            },
            r matches Err(e) ==> e == spec_new_error(
                width as int,
                height as int,
                mines as int,
                duds as int,
            ),
    {
        if width == 0 {
            return Err(Error::FieldTooNarrow);
        }
        if height == 0 {
            return Err(Error::FieldTooFlat);
        }
        let size: usize = match width.checked_mul(height) {
            Some(size) => size,
            None => {
                return Err(Error::FieldTooLarge);
            },
        };
        if (mines as usize) >= size {
            return Err(Error::TooManyMines);
        }
        if duds > mines {
            return Err(Error::TooManyDuds);
        }
        let board = Board { fields: gen_fields(width, height), init: Some((mines, duds)) };
        proof {
            assert(board.cells().len() == height);
            assert(board.width() == width);
            assert(board.wf());
        }
        Ok(board)
    }

    /// Return the board's grid of fields.
    pub fn fields(&self) -> (r: &Vec<Vec<Field>>)
        ensures
            cells_of(*r) == self.cells(),
    {
        &self.fields
    }

    /// Return the amount of flags on the board.
    pub fn flags(&self) -> (r: usize)
        requires
            self.wf(),
        ensures
            r as int == crate::grid::flagged_set(self.cells()).len(),
    {
        let ghost c = self.cells();
        proof {
            crate::grid::lemma_coords_len(self.width(), self.height());
            assert(crate::grid::flagged_set(c).subset_of(
                crate::grid::coords(self.width(), self.height()),
            )) by {
                assert forall|p: Coordinate|
                    crate::grid::flagged_set(c).contains(p) implies crate::grid::coords(
                    self.width(),
                    self.height(),
                ).contains(p) by {
                    assert(c[p.y as int].len() == c[0].len());
                }
            }
            vstd::set_lib::lemma_len_subset(
                crate::grid::flagged_set(c),
                crate::grid::coords(self.width(), self.height()),
            );
        }
        let mut count: usize = 0;
        let ghost mut seen: Set<Coordinate> = Set::empty();
        let mut y: usize = 0;
        while y < self.fields.len()
            invariant
                self.wf(),
                c == self.cells(),
                y <= c.len(),
                seen.finite(),
                count as int == seen.len(),
                seen.subset_of(crate::grid::flagged_set(c)),
                crate::grid::flagged_set(c).finite(),
                crate::grid::flagged_set(c).len() <= usize::MAX,
                forall|p: Coordinate| #[trigger]
                    seen.contains(p) <==> (in_bounds(c, p.x as int, p.y as int) && cell(
                        c,
                        p.x as int,
                        p.y as int,
                    ).flagged && (p.y as int) < y),
            decreases c.len() - y,
        {
            let mut x: usize = 0;
            while x < self.fields[y].len()
                invariant
                    self.wf(),
                    c == self.cells(),
                    y < c.len(),
                    x <= c[y as int].len(),
                    seen.finite(),
                    count as int == seen.len(),
                    seen.subset_of(crate::grid::flagged_set(c)),
                    crate::grid::flagged_set(c).finite(),
                    crate::grid::flagged_set(c).len() <= usize::MAX,
                    forall|p: Coordinate| #[trigger]
                        seen.contains(p) <==> (in_bounds(c, p.x as int, p.y as int) && cell(
                            c,
                            p.x as int,
                            p.y as int,
                        ).flagged && ((p.y as int) < y || (p.y == y && (p.x as int) < x))),
                decreases c[y as int].len() - x,
            {
                if self.fields[y][x].is_flagged() {
                    let ghost p = Coordinate { x, y };
                    proof {
                        assert(!seen.contains(p));
                        assert(crate::grid::flagged_set(c).contains(p));
                        vstd::set_lib::lemma_len_subset(
                            seen.insert(p),
                            crate::grid::flagged_set(c),
                        );
                        seen = seen.insert(p);
                    }
                    count = count + 1;
                }
                x = x + 1;
                proof {
                    assert forall|p: Coordinate| #[trigger]
                        seen.contains(p) <==> (in_bounds(c, p.x as int, p.y as int) && cell(
                        c,
                        p.x as int,
                        p.y as int,
                    ).flagged && ((p.y as int) < y || (p.y == y && (p.x as int) < x))) by {}
                }
            }
            y = y + 1;
        }
        proof {
            assert(seen =~= crate::grid::flagged_set(c));
        }
        count
    }

    /// Return `true` if all mines on the grid have been cleared.
    ///
    /// This is the case, if all fields, which do not contain a mine,
    /// have been visited.
    fn all_mines_cleared(&self) -> (r: bool)
        requires
            rect(self.cells()),
        ensures
            r == all_clear(self.cells()),
    {
        let ghost c = self.cells();
        let mut y: usize = 0;
        while y < self.fields.len()
            invariant
                rect(c),
                c == self.cells(),
                y <= c.len(),
                forall|xx: int, yy: int|
                    0 <= yy < y && in_bounds(c, xx, yy) && !(#[trigger] cell(c, xx, yy)).mined
                        ==> cell(c, xx, yy).visited,
            decreases c.len() - y,
        {
            let mut x: usize = 0;
            while x < self.fields[y].len()
                invariant
                    rect(c),
                    c == self.cells(),
                    y < c.len(),
                    x <= c[y as int].len(),
                    forall|xx: int, yy: int|
                        0 <= yy < y && in_bounds(c, xx, yy) && !(#[trigger] cell(c, xx, yy)).mined
                            ==> cell(c, xx, yy).visited,
                    forall|xx: int|
                        0 <= xx < x && !(#[trigger] cell(c, xx, y as int)).mined ==> cell(
                            c,
                            xx,
                            y as int,
                        ).visited,
                decreases c[y as int].len() - x,
            {
                let f = self.fields[y][x];
                if !f.has_mine() && !f.has_been_visited() {
                    proof {
                        assert(in_bounds(c, x as int, y as int));
                        assert(cell(c, x as int, y as int) == f);
                    }
                    return false;
                }
                x = x + 1;
            }
            y = y + 1;
        }
        true
    }

    /// Return the amount of adjacent mines of the respective coordinate
    /// on the field.
    fn count_adjacent_mines(&self, coordinate: &Coordinate) -> (r: u8)
        requires
            rect(self.cells()),
            in_bounds(self.cells(), coordinate.x as int, coordinate.y as int),
        ensures
            r as int == mined_neighbors(self.cells(), coordinate.x as int, coordinate.y as int).len(),
            r <= 8,
    {
        crate::grid::count_adjacent_mines(&self.fields, coordinate.x, coordinate.y)
    }

    /// Populate the field with mines: sample the requested amount from
    /// the fields that have not been visited, without replacement.
    fn populate_mines(&mut self, mines: u8)
        requires
            rect(old(self).cells()),
            forall|x: int, y: int|
                in_bounds(old(self).cells(), x, y) ==> !(#[trigger] cell(
                    old(self).cells(),
                    x,
                    y,
                )).mined,
        ensures
            same_dims(old(self).cells(), final(self).cells()),
            final(self).pending() == old(self).pending(),
            forall|x: int, y: int|
                in_bounds(old(self).cells(), x, y) ==> {
                    let f0 = cell(old(self).cells(), x, y);
                    let f1 = #[trigger] cell(final(self).cells(), x, y);
                    f1.visited == f0.visited && f1.flagged == f0.flagged && f1.dud == f0.dud
                        && f1.adjacent == f0.adjacent
                },
            forall|x: int, y: int|
                in_bounds(final(self).cells(), x, y) && (#[trigger] cell(
                    final(self).cells(),
                    x,
                    y,
                )).mined ==> !cell(old(self).cells(), x, y).visited,
            crate::grid::mined_set(final(self).cells()).finite(),
            crate::grid::mined_set(final(self).cells()).len() == if (mines as int)
                <= crate::grid::unvisited_set(old(self).cells()).len() {
                mines as int
            } else {
                crate::grid::unvisited_set(old(self).cells()).len() as int
            },
    {
        let ghost a = self.cells();
        let candidates = crate::grid::collect_unvisited(&self.fields);
        proof {
            assert(candidates@.to_set() =~= crate::grid::unvisited_set(a));
            candidates@.unique_seq_to_set();
        }
        let sampled = crate::sample::sample_coordinates(&candidates, mines as usize);
        let ghost s = sampled@;
        proof {
            assert(forall|k: int| 0 <= k < s.len() ==> candidates@.contains(#[trigger] s[k]));
        }
        let mut i: usize = 0;
        while i < sampled.len()
            invariant
                rect(a),
                same_dims(a, self.cells()),
                self.pending() == old(self).pending(),
                i <= s.len(),
                s == sampled@,
                s.no_duplicates(),
                forall|k: int| 0 <= k < s.len() ==> candidates@.contains(#[trigger] s[k]),
                forall|k: int|
                    0 <= k < s.len() ==> in_bounds(a, (#[trigger] s[k]).x as int, s[k].y as int)
                        && !cell(a, s[k].x as int, s[k].y as int).visited,
                forall|x: int, y: int|
                    in_bounds(a, x, y) ==> {
                        let f0 = cell(a, x, y);
                        let f1 = #[trigger] cell(self.cells(), x, y);
                        f1.visited == f0.visited && f1.flagged == f0.flagged && f1.dud == f0.dud
                            && f1.adjacent == f0.adjacent
                    },
                forall|x: int, y: int|
                    in_bounds(a, x, y) ==> ((#[trigger] cell(self.cells(), x, y)).mined
                        <==> exists|k: int|
                        0 <= k < i && (#[trigger] s[k]).x == x && s[k].y == y),
            decreases s.len() - i,
        {
            let cc = sampled[i];
            proof {
                assert(candidates@.contains(cc));
                assert(in_bounds(a, cc.x as int, cc.y as int));
            }
            let mut f = self.fields[cc.y][cc.x];
            f.set_mine();
            let ghost before = self.cells();
            crate::grid::set_cell(&mut self.fields, cc.x, cc.y, f);
            i = i + 1;
            proof {
                assert forall|x: int, y: int|
                    in_bounds(a, x, y) implies {
                    let f0 = cell(a, x, y);
                    let f1 = #[trigger] cell(self.cells(), x, y);
                    f1.visited == f0.visited && f1.flagged == f0.flagged && f1.dud == f0.dud
                        && f1.adjacent == f0.adjacent
                } by {
                    assert(in_bounds(before, x, y));
                    if !(x == cc.x && y == cc.y) {
                        assert(cell(self.cells(), x, y) == cell(before, x, y));
                    } else {
                        assert(cell(self.cells(), x, y) == f);
                        assert(cell(before, x, y) == cell(a, x, y) || (cell(before, x, y).visited
                            == cell(a, x, y).visited && cell(before, x, y).flagged == cell(
                            a,
                            x,
                            y,
                        ).flagged && cell(before, x, y).dud == cell(a, x, y).dud && cell(
                            before,
                            x,
                            y,
                        ).adjacent == cell(a, x, y).adjacent));
                    }
                }
                assert forall|x: int, y: int|
                    in_bounds(a, x, y) implies ((#[trigger] cell(self.cells(), x, y)).mined
                    <==> exists|k: int|
                    0 <= k < i && (#[trigger] s[k]).x == x && s[k].y == y) by {
                    if x == cc.x && y == cc.y {
                        assert(cell(self.cells(), x, y).mined);
                        assert(0 <= i - 1 < i && s[i - 1].x == x && s[i - 1].y == y);
                    } else {
                        assert(cell(self.cells(), x, y) == cell(before, x, y));
                        if cell(before, x, y).mined {
                            let k = choose|k: int|
                                0 <= k < i - 1 && (#[trigger] s[k]).x == x && s[k].y == y;
                            assert(0 <= k < i && s[k].x == x && s[k].y == y);
                        }
                        if exists|k: int| 0 <= k < i && (#[trigger] s[k]).x == x && s[k].y == y {
                            let k = choose|k: int|
                                0 <= k < i && (#[trigger] s[k]).x == x && s[k].y == y;
                            assert(k < i - 1);
                        }
                    }
                }
            }
        }
        proof {
            assert(crate::grid::mined_set(self.cells()) =~= s.to_set()) by {
                assert forall|p: Coordinate| #[trigger]
                    crate::grid::mined_set(self.cells()).contains(p) == s.to_set().contains(p) by {
                    if crate::grid::mined_set(self.cells()).contains(p) {
                        let k = choose|k: int|
                            0 <= k < i && (#[trigger] s[k]).x == p.x && s[k].y == p.y;
                        assert(s[k] == p);
                        assert(s.contains(p));
                    }
                    if s.to_set().contains(p) {
                        let k = choose|k: int| 0 <= k < s.len() && s[k] == p;
                        assert(s[k].x == p.x && s[k].y == p.y);
                        assert(in_bounds(a, p.x as int, p.y as int));
                        assert(cell(self.cells(), p.x as int, p.y as int).mined);
                    }
                }
            }
            s.unique_seq_to_set();
        }
    }

    /// Populate the field with duds: sample the requested amount from
    /// the mined fields, without replacement.
    fn populate_duds(&mut self, duds: u8)
        requires
            rect(old(self).cells()),
            forall|x: int, y: int|
                in_bounds(old(self).cells(), x, y) ==> !(#[trigger] cell(
                    old(self).cells(),
                    x,
                    y,
                )).dud,
        ensures
            same_dims(old(self).cells(), final(self).cells()),
            final(self).pending() == old(self).pending(),
            forall|x: int, y: int|
                in_bounds(old(self).cells(), x, y) ==> {
                    let f0 = cell(old(self).cells(), x, y);
                    let f1 = #[trigger] cell(final(self).cells(), x, y);
                    f1.visited == f0.visited && f1.flagged == f0.flagged && f1.mined == f0.mined
                        && f1.adjacent == f0.adjacent
                },
            forall|x: int, y: int|
                in_bounds(final(self).cells(), x, y) && (#[trigger] cell(
                    final(self).cells(),
                    x,
                    y,
                )).dud ==> cell(old(self).cells(), x, y).mined,
            crate::grid::dud_set(final(self).cells()).finite(),
            crate::grid::dud_set(final(self).cells()).len() == if (duds as int)
                <= crate::grid::mined_set(old(self).cells()).len() {
                duds as int
            } else {
                crate::grid::mined_set(old(self).cells()).len() as int
            },
    {
        let ghost a = self.cells();
        let candidates = crate::grid::collect_mined(&self.fields);
        proof {
            assert(candidates@.to_set() =~= crate::grid::mined_set(a));
            candidates@.unique_seq_to_set();
        }
        let sampled = crate::sample::sample_coordinates(&candidates, duds as usize);
        let ghost s = sampled@;
        proof {
            assert(forall|k: int| 0 <= k < s.len() ==> candidates@.contains(#[trigger] s[k]));
        }
        let mut i: usize = 0;
        while i < sampled.len()
            invariant
                rect(a),
                same_dims(a, self.cells()),
                self.pending() == old(self).pending(),
                i <= s.len(),
                s == sampled@,
                s.no_duplicates(),
                forall|k: int| 0 <= k < s.len() ==> candidates@.contains(#[trigger] s[k]),
                forall|k: int|
                    0 <= k < s.len() ==> in_bounds(a, (#[trigger] s[k]).x as int, s[k].y as int)
                        && cell(a, s[k].x as int, s[k].y as int).mined,
                forall|x: int, y: int|
                    in_bounds(a, x, y) ==> {
                        let f0 = cell(a, x, y);
                        let f1 = #[trigger] cell(self.cells(), x, y);
                        f1.visited == f0.visited && f1.flagged == f0.flagged && f1.mined
                            == f0.mined && f1.adjacent == f0.adjacent
                    },
                forall|x: int, y: int|
                    in_bounds(a, x, y) ==> ((#[trigger] cell(self.cells(), x, y)).dud
                        <==> exists|k: int|
                        0 <= k < i && (#[trigger] s[k]).x == x && s[k].y == y),
            decreases s.len() - i,
        {
            let cc = sampled[i];
            proof {
                assert(candidates@.contains(cc));
                assert(in_bounds(a, cc.x as int, cc.y as int));
            }
            let mut f = self.fields[cc.y][cc.x];
            f.set_dud();
            let ghost before = self.cells();
            crate::grid::set_cell(&mut self.fields, cc.x, cc.y, f);
            i = i + 1;
            proof {
                assert forall|x: int, y: int|
                    in_bounds(a, x, y) implies {
                    let f0 = cell(a, x, y);
                    let f1 = #[trigger] cell(self.cells(), x, y);
                    f1.visited == f0.visited && f1.flagged == f0.flagged && f1.mined == f0.mined
                        && f1.adjacent == f0.adjacent
                } by {
                    assert(in_bounds(before, x, y));
                    if !(x == cc.x && y == cc.y) {
                        assert(cell(self.cells(), x, y) == cell(before, x, y));
                    } else {
                        assert(cell(self.cells(), x, y) == f);
                        assert(f.visited == cell(before, x, y).visited && f.flagged == cell(
                            before,
                            x,
                            y,
                        ).flagged && f.mined == cell(before, x, y).mined && f.adjacent == cell(
                            before,
                            x,
                            y,
                        ).adjacent);
                    }
                }
                assert forall|x: int, y: int|
                    in_bounds(a, x, y) implies ((#[trigger] cell(self.cells(), x, y)).dud
                    <==> exists|k: int|
                    0 <= k < i && (#[trigger] s[k]).x == x && s[k].y == y) by {
                    if x == cc.x && y == cc.y {
                        assert(cell(self.cells(), x, y).dud);
                        assert(0 <= i - 1 < i && s[i - 1].x == x && s[i - 1].y == y);
                    } else {
                        assert(cell(self.cells(), x, y) == cell(before, x, y));
                        if cell(before, x, y).dud {
                            let k = choose|k: int|
                                0 <= k < i - 1 && (#[trigger] s[k]).x == x && s[k].y == y;
                            assert(0 <= k < i && s[k].x == x && s[k].y == y);
                        }
                        if exists|k: int| 0 <= k < i && (#[trigger] s[k]).x == x && s[k].y == y {
                            let k = choose|k: int|
                                0 <= k < i && (#[trigger] s[k]).x == x && s[k].y == y;
                            assert(k < i - 1);
                        }
                    }
                }
            }
        }
        proof {
            assert(crate::grid::dud_set(self.cells()) =~= s.to_set()) by {
                assert forall|p: Coordinate| #[trigger]
                    crate::grid::dud_set(self.cells()).contains(p) == s.to_set().contains(p) by {
                    if crate::grid::dud_set(self.cells()).contains(p) {
                        let k = choose|k: int|
                            0 <= k < i && (#[trigger] s[k]).x == p.x && s[k].y == p.y;
                        assert(s[k] == p);
                        assert(s.contains(p));
                    }
                    if s.to_set().contains(p) {
                        let k = choose|k: int| 0 <= k < s.len() && s[k] == p;
                        assert(s[k].x == p.x && s[k].y == p.y);
                        assert(in_bounds(a, p.x as int, p.y as int));
                        assert(cell(self.cells(), p.x as int, p.y as int).dud);
                    }
                }
            }
            s.unique_seq_to_set();
        }
    }

    /// Populate the field with mines and duds and store every field's
    /// adjacent-mine tally.
    ///
    /// We defer this after the first move to prevent stepping on a mine
    /// on the first move: mines land only on fields not visited yet.
    fn initialize(&mut self, mines: u8, duds: u8)
        requires
            rect(old(self).cells()),
            forall|x: int, y: int|
                in_bounds(old(self).cells(), x, y) ==> {
                    let f = #[trigger] cell(old(self).cells(), x, y);
                    !f.mined && !f.dud && f.adjacent == 0
                },
        ensures
            same_dims(old(self).cells(), final(self).cells()),
            final(self).pending() == old(self).pending(),
            forall|x: int, y: int|
                in_bounds(old(self).cells(), x, y) ==> {
                    let f0 = cell(old(self).cells(), x, y);
                    let f1 = #[trigger] cell(final(self).cells(), x, y);
                    f1.visited == f0.visited && f1.flagged == f0.flagged
                },
            forall|x: int, y: int|
                in_bounds(final(self).cells(), x, y) && (#[trigger] cell(
                    final(self).cells(),
                    x,
                    y,
                )).mined ==> !cell(old(self).cells(), x, y).visited,
            duds_are_mines(final(self).cells()),
            counts_accurate(final(self).cells()),
            crate::grid::mined_set(final(self).cells()).finite(),
            crate::grid::mined_set(final(self).cells()).len() == if (mines as int)
                <= crate::grid::unvisited_set(old(self).cells()).len() {
                mines as int
            } else {
                crate::grid::unvisited_set(old(self).cells()).len() as int
            },
            crate::grid::dud_set(final(self).cells()).finite(),
            crate::grid::dud_set(final(self).cells()).len() == if (duds as int)
                <= crate::grid::mined_set(final(self).cells()).len() {
                duds as int
            } else {
                crate::grid::mined_set(final(self).cells()).len() as int
            },
    {
        let ghost a = self.cells();
        self.populate_mines(mines);
        let ghost m0 = self.cells();
        proof {
            assert(rect(m0)) by {
                assert forall|yy: int| 0 <= yy < m0.len() implies #[trigger] m0[yy].len()
                    == m0[0].len() by {
                    assert(a[yy].len() == a[0].len());
                }
            }
        }
        let mut y: usize = 0;
        while y < self.fields.len()
            invariant
                rect(a),
                rect(m0),
                same_dims(a, m0),
                same_dims(m0, self.cells()),
                self.pending() == old(self).pending(),
                y <= m0.len(),
                forall|x: int, yy: int|
                    in_bounds(m0, x, yy) ==> {
                        let f0 = cell(m0, x, yy);
                        let f1 = #[trigger] cell(self.cells(), x, yy);
                        f1.visited == f0.visited && f1.flagged == f0.flagged && f1.mined
                            == f0.mined && f1.dud == f0.dud
                    },
                forall|x: int, yy: int|
                    in_bounds(m0, x, yy) && (yy < y) ==> (#[trigger] cell(
                        self.cells(),
                        x,
                        yy,
                    )).adjacent as int == mined_neighbors(m0, x, yy).len(),
            decreases m0.len() - y,
        {
            let mut x: usize = 0;
            while x < self.fields[y].len()
                invariant
                    rect(a),
                    rect(m0),
                    same_dims(a, m0),
                    same_dims(m0, self.cells()),
                    self.pending() == old(self).pending(),
                    y < m0.len(),
                    x <= m0[y as int].len(),
                    forall|xx: int, yy: int|
                        in_bounds(m0, xx, yy) ==> {
                            let f0 = cell(m0, xx, yy);
                            let f1 = #[trigger] cell(self.cells(), xx, yy);
                            f1.visited == f0.visited && f1.flagged == f0.flagged && f1.mined
                                == f0.mined && f1.dud == f0.dud
                        },
                    forall|xx: int, yy: int|
                        in_bounds(m0, xx, yy) && (yy < y || (yy == y && xx < x)) ==> (
                        #[trigger] cell(self.cells(), xx, yy)).adjacent as int == mined_neighbors(
                            m0,
                            xx,
                            yy,
                        ).len(),
                decreases m0[y as int].len() - x,
            {
                let ghost cur = self.cells();
                proof {
                    assert(same_dims(cur, m0));
                    assert(rect(cur)) by {
                        assert forall|yy: int| 0 <= yy < cur.len() implies #[trigger] cur[yy].len()
                            == cur[0].len() by {
                            assert(m0[yy].len() == m0[0].len());
                        }
                    }
                    assert(in_bounds(cur, x as int, y as int));
                    crate::grid::lemma_mined_neighbors_frame(cur, m0, x as int, y as int);
                }
                let n = crate::grid::count_adjacent_mines(&self.fields, x, y);
                let mut f = self.fields[y][x];
                proof {
                    assert(f == cell(cur, x as int, y as int));
                }
                f.set_adjacent_mines(n);
                crate::grid::set_cell(&mut self.fields, x, y, f);
                x = x + 1;
                proof {
                    assert forall|xx: int, yy: int|
                        in_bounds(m0, xx, yy) implies {
                        let f0 = cell(m0, xx, yy);
                        let f1 = #[trigger] cell(self.cells(), xx, yy);
                        f1.visited == f0.visited && f1.flagged == f0.flagged && f1.mined
                            == f0.mined && f1.dud == f0.dud
                    } by {
                        assert(in_bounds(cur, xx, yy));
                        if !(xx == x - 1 && yy == y) {
                            assert(cell(self.cells(), xx, yy) == cell(cur, xx, yy));
                        } else {
                            assert(cell(self.cells(), xx, yy) == f);
                        }
                    }
                    assert forall|xx: int, yy: int|
                        in_bounds(m0, xx, yy) && (yy < y || (yy == y && xx < x)) implies (
                    #[trigger] cell(self.cells(), xx, yy)).adjacent as int == mined_neighbors(
                        m0,
                        xx,
                        yy,
                    ).len() by {
                        assert(in_bounds(cur, xx, yy));
                        if !(xx == x - 1 && yy == y) {
                            assert(cell(self.cells(), xx, yy) == cell(cur, xx, yy));
                        } else {
                            assert(cell(self.cells(), xx, yy) == f);
                            assert(f.adjacent == n);
                        }
                    }
                }
            }
            y = y + 1;
        }
        let ghost m1 = self.cells();
        proof {
            assert(rect(m1)) by {
                assert forall|yy: int| 0 <= yy < m1.len() implies #[trigger] m1[yy].len()
                    == m1[0].len() by {
                    assert(a[yy].len() == a[0].len());
                }
            }
            assert(crate::grid::mined_set(m1) =~= crate::grid::mined_set(m0));
            assert(forall|x: int, y: int|
                in_bounds(m1, x, y) ==> !(#[trigger] cell(m1, x, y)).dud);
        }
        self.populate_duds(duds);
        proof {
            let b = self.cells();
            assert(crate::grid::mined_set(b) =~= crate::grid::mined_set(m1));
            assert(crate::grid::dud_set(b).len() == if (duds as int) <= crate::grid::mined_set(
                m1,
            ).len() {
                duds as int
            } else {
                crate::grid::mined_set(m1).len() as int
            });
            assert(counts_accurate(b)) by {
                assert forall|x: int, y: int|
                    in_bounds(b, x, y) implies (#[trigger] cell(b, x, y)).adjacent as int
                    == mined_neighbors(b, x, y).len() by {
                    assert(cell(b, x, y).adjacent == cell(m1, x, y).adjacent);
                    assert(cell(m1, x, y).adjacent as int == mined_neighbors(m0, x, y).len());
                    crate::grid::lemma_mined_neighbors_frame(m0, b, x, y);
                }
            }
            assert(duds_are_mines(b)) by {
                assert forall|x: int, y: int|
                    in_bounds(b, x, y) && (#[trigger] cell(b, x, y)).dud implies cell(
                    b,
                    x,
                    y,
                ).mined by {
                    assert(cell(m1, x, y).mined);
                }
            }
        }
    }

    /// Return a traversal over the neighbors of the given coordinate
    /// that are safe to visit.
    ///
    /// This will include the original coordinate, which is always
    /// yielded first.
    fn walk_safe_neighbors(&self, coordinate: Coordinate) -> (r: SafeNeighbors)
        requires
            rect(self.cells()),
            in_bounds(self.cells(), coordinate.x as int, coordinate.y as int),
        ensures
            r.wf(self.cells()),
            r.frontier_seq() =~= seq![coordinate],
            forall|x: int, y: int|
                r.spec_discovered(x, y) <==> (x == coordinate.x && y == coordinate.y),
    {
        SafeNeighbors::new(&self.fields, coordinate)
    }

    /// Visit the neighbors of the given coordinate, as far as it is
    /// safe to do so.
    ///
    /// Every coordinate reachable from the given one through safe
    /// neighborhoods is visited, the given coordinate included; nothing
    /// else changes.
    fn visit_neighbors(&mut self, coordinate: Coordinate)
        requires
            old(self).wf(),
            old(self).initialized(),
            in_bounds(old(self).cells(), coordinate.x as int, coordinate.y as int),
        ensures
            final(self).wf(),
            same_dims(old(self).cells(), final(self).cells()),
            final(self).pending() == old(self).pending(),
            forall|x: int, y: int|
                in_bounds(old(self).cells(), x, y) ==> #[trigger] cell(final(self).cells(), x, y)
                    == (if crate::neighbors_iterator::reaches(
                    old(self).cells(),
                    coordinate.x as int,
                    coordinate.y as int,
                    x,
                    y,
                ) {
                    cell(old(self).cells(), x, y).spec_visit()
                } else {
                    cell(old(self).cells(), x, y)
                }),
    {
        let ghost c = self.cells();
        let ghost sx = coordinate.x as int;
        let ghost sy = coordinate.y as int;
        let mut it = self.walk_safe_neighbors(coordinate);
        let mut found: Vec<Coordinate> = Vec::new();
        proof {
            assert(it.frontier_set().contains(coordinate)) by {
                assert(it.frontier_seq()[0] == coordinate);
            }
            crate::neighbors_iterator::lemma_reaches_self(c, sx, sy);
        }
        loop
            invariant
                rect(c),
                bounded_dims(c),
                c == self.cells(),
                in_bounds(c, sx, sy),
                sx == coordinate.x as int,
                sy == coordinate.y as int,
                it.wf(c),
                it.disc_set().contains(coordinate),
                forall|p: Coordinate| #[trigger]
                    it.disc_set().contains(p) <==> (found@.contains(p)
                        || it.frontier_set().contains(p)),
                forall|p: Coordinate| #[trigger]
                    found@.contains(p) ==> !it.frontier_set().contains(p),
                forall|k: int|
                    0 <= k < found@.len() ==> in_bounds(
                        c,
                        (#[trigger] found@[k]).x as int,
                        found@[k].y as int,
                    ) && crate::neighbors_iterator::reaches(
                        c,
                        sx,
                        sy,
                        found@[k].x as int,
                        found@[k].y as int,
                    ),
                forall|p: Coordinate| #[trigger]
                    it.frontier_set().contains(p) ==> crate::neighbors_iterator::reaches(
                        c,
                        sx,
                        sy,
                        p.x as int,
                        p.y as int,
                    ),
                forall|p: Coordinate, n: Coordinate|
                    #![trigger found@.contains(p), in_bounds(c, n.x as int, n.y as int)]
                    found@.contains(p) && crate::neighbors_iterator::expandable(
                        c,
                        p.x as int,
                        p.y as int,
                    ) && in_bounds(c, n.x as int, n.y as int) && crate::grid::spec_is_neighbor(
                        p.x as int,
                        p.y as int,
                        n.x as int,
                        n.y as int,
                    ) ==> it.disc_set().contains(n),
            ensures
                it.frontier_seq().len() == 0,
            decreases it.metric(c),
        {
            let ghost it0 = it;
            let ghost found0 = found@;
            match it.next(&self.fields) {
                None => {
                    proof {
                        assert forall|p: Coordinate| #[trigger]
                            it.disc_set().contains(p) == it0.disc_set().contains(p) by {}
                        assert forall|p: Coordinate| #[trigger]
                            it.frontier_set().contains(p) == it0.frontier_set().contains(p) by {
                            assert(it.frontier_seq() == it0.frontier_seq());
                        }
                    }
                    break ;
                },
                Some(cc) => {
                    found.push(cc);
                    proof {
                        assert(found@ == found0.push(cc));
                        assert(it0.disc_set().contains(cc)) by {
                            assert(it0.frontier_set().contains(cc));
                        }
                        assert forall|p: Coordinate| #[trigger]
                            found@.contains(p) <==> (found0.contains(p) || p == cc) by {
                            if found@.contains(p) {
                                let k = choose|k: int| 0 <= k < found@.len() && found@[k] == p;
                                if k < found0.len() {
                                    assert(found0[k] == p);
                                } else {
                                    assert(p == cc);
                                }
                            }
                            if found0.contains(p) {
                                let k = choose|k: int| 0 <= k < found0.len() && found0[k] == p;
                                assert(found@[k] == p);
                            }
                            if p == cc {
                                assert(found@[found@.len() - 1] == p);
                            }
                        }
                        if crate::neighbors_iterator::expandable(c, cc.x as int, cc.y as int) {
                            assert forall|p: Coordinate| #[trigger]
                                it.frontier_set().contains(
                                p,
                            ) implies crate::neighbors_iterator::reaches(
                                c,
                                sx,
                                sy,
                                p.x as int,
                                p.y as int,
                            ) by {
                                if !(it0.frontier_set().contains(p) && p != cc) {
                                    crate::neighbors_iterator::lemma_reaches_step(
                                        c,
                                        sx,
                                        sy,
                                        cc.x as int,
                                        cc.y as int,
                                        p.x as int,
                                        p.y as int,
                                    );
                                }
                            }
                        }
                    }
                },
            }
        }
        proof {
            let s = found@.to_set();
            assert forall|p: Coordinate| #[trigger]
                found@.contains(p) <==> crate::neighbors_iterator::reaches(
                c,
                sx,
                sy,
                p.x as int,
                p.y as int,
            ) by {
                if found@.contains(p) {
                    let k = choose|k: int| 0 <= k < found@.len() && found@[k] == p;
                }
                if crate::neighbors_iterator::reaches(c, sx, sy, p.x as int, p.y as int) {
                    assert(s.contains(coordinate)) by {
                        assert(it.disc_set().contains(coordinate));
                        assert(found@.contains(coordinate));
                    }
                    assert(crate::neighbors_iterator::closed_under_expansion(c, s)) by {
                        assert forall|p2: Coordinate, n: Coordinate|
                            #![trigger s.contains(p2), in_bounds(c, n.x as int, n.y as int)]
                            s.contains(p2) && crate::neighbors_iterator::expandable(
                                c,
                                p2.x as int,
                                p2.y as int,
                            ) && in_bounds(c, n.x as int, n.y as int)
                            && crate::grid::spec_is_neighbor(
                                p2.x as int,
                                p2.y as int,
                                n.x as int,
                                n.y as int,
                            ) implies s.contains(n) by {
                            assert(found@.contains(p2));
                            assert(it.disc_set().contains(n));
                            assert(found@.contains(n));
                        }
                    }
                    crate::neighbors_iterator::lemma_reaches_in_closed_set(
                        c,
                        sx,
                        sy,
                        p.x as int,
                        p.y as int,
                        s,
                    );
                    assert(s.contains(Coordinate { x: p.x, y: p.y }));
                    assert(Coordinate { x: p.x, y: p.y } == p);
                }
            }
        }
        let ghost reached = found@;
        let mut i: usize = 0;
        while i < found.len()
            invariant
                rect(c),
                bounded_dims(c),
                same_dims(c, self.cells()),
                self.pending() == old(self).pending(),
                i <= reached.len(),
                reached == found@,
                forall|k: int|
                    0 <= k < reached.len() ==> in_bounds(
                        c,
                        (#[trigger] reached[k]).x as int,
                        reached[k].y as int,
                    ),
                forall|x: int, y: int|
                    in_bounds(c, x, y) ==> #[trigger] cell(self.cells(), x, y) == (if exists|k: int|
                        0 <= k < i && (#[trigger] reached[k]).x == x && reached[k].y == y {
                        cell(c, x, y).spec_visit()
                    } else {
                        cell(c, x, y)
                    }),
            decreases reached.len() - i,
        {
            let cc = found[i];
            let ghost before = self.cells();
            let mut f = self.fields[cc.y][cc.x];
            f.visit();
            crate::grid::set_cell(&mut self.fields, cc.x, cc.y, f);
            i = i + 1;
            proof {
                assert forall|x: int, y: int|
                    in_bounds(c, x, y) implies #[trigger] cell(self.cells(), x, y) == (if exists|
                    k: int|
                    0 <= k < i && (#[trigger] reached[k]).x == x && reached[k].y == y {
                    cell(c, x, y).spec_visit()
                } else {
                    cell(c, x, y)
                }) by {
                    assert(in_bounds(before, x, y));
                    if x == cc.x && y == cc.y {
                        assert(cell(self.cells(), x, y) == f);
                        assert(f == cell(before, x, y).spec_visit());
                        assert(cell(c, x, y).spec_visit().spec_visit() == cell(c, x, y).spec_visit());
                        assert(f == cell(c, x, y).spec_visit());
                        assert(0 <= i - 1 < i && reached[i - 1].x == x && reached[i - 1].y == y);
                    } else {
                        assert(cell(self.cells(), x, y) == cell(before, x, y));
                        if exists|k: int|
                            0 <= k < i && (#[trigger] reached[k]).x == x && reached[k].y == y {
                            let k = choose|k: int|
                                0 <= k < i && (#[trigger] reached[k]).x == x && reached[k].y == y;
                            assert(k < i - 1);
                        }
                        if exists|k: int|
                            0 <= k < i - 1 && (#[trigger] reached[k]).x == x && reached[k].y == y {
                            let k = choose|k: int|
                                0 <= k < i - 1 && (#[trigger] reached[k]).x == x && reached[k].y
                                    == y;
                            assert(0 <= k < i && reached[k].x == x && reached[k].y == y);
                        }
                    }
                }
            }
        }
        proof {
            assert forall|x: int, y: int|
                in_bounds(c, x, y) implies #[trigger] cell(self.cells(), x, y) == (if crate::neighbors_iterator::reaches(
                c,
                sx,
                sy,
                x,
                y,
            ) {
                cell(c, x, y).spec_visit()
            } else {
                cell(c, x, y)
            }) by {
                let p = Coordinate { x: x as usize, y: y as usize };
                if crate::neighbors_iterator::reaches(c, sx, sy, x, y) {
                    assert(found@.contains(p));
                    let k = choose|k: int| 0 <= k < reached.len() && reached[k] == p;
                    assert(reached[k].x == x && reached[k].y == y);
                } else {
                    if exists|k: int|
                        0 <= k < reached.len() && (#[trigger] reached[k]).x == x && reached[k].y
                            == y {
                        let k = choose|k: int|
                            0 <= k < reached.len() && (#[trigger] reached[k]).x == x
                                && reached[k].y == y;
                        assert(reached[k] == p);
                        assert(found@.contains(p));
                    }
                }
            }
            assert(final(self).wf()) by {
                assert(rect(self.cells())) by {
                    assert forall|yy: int|
                        0 <= yy < self.cells().len() implies #[trigger] self.cells()[yy].len()
                        == self.cells()[0].len() by {
                        assert(c[yy].len() == c[0].len());
                    }
                }
                assert(bounded_dims(self.cells())) by {
                    assert forall|yy: int|
                        0 <= yy < self.cells().len() implies #[trigger] self.cells()[yy].len()
                        <= usize::MAX by {
                        assert(c[yy].len() <= usize::MAX);
                    }
                }
                assert forall|x: int, y: int|
                    in_bounds(c, x, y) implies (#[trigger] cell(self.cells(), x, y)).mined == cell(
                    c,
                    x,
                    y,
                ).mined && cell(self.cells(), x, y).adjacent == cell(c, x, y).adjacent by {}
                lemma_counts_frame(c, self.cells());
                assert forall|x: int, y: int|
                    in_bounds(self.cells(), x, y) && (#[trigger] cell(
                        self.cells(),
                        x,
                        y,
                    )).dud implies cell(self.cells(), x, y).mined by {
                    assert(cell(c, x, y).dud ==> cell(c, x, y).mined);
                }
            }
        }
    }

    /// Actually visit the given coordinate.
    ///
    /// We only call this through [`Self::make_move`] to ensure that the
    /// grid is initialized.
    fn visit_coordinate(&mut self, coordinate: Coordinate) -> (r: MoveResult)
        requires
            old(self).wf(),
            old(self).initialized(),
        ensures
            final(self).wf(),
            final(self).initialized(),
            same_dims(old(self).cells(), final(self).cells()),
            !in_bounds(old(self).cells(), coordinate.x as int, coordinate.y as int) ==> r
                == MoveResult::InvalidPosition && *final(self) == *old(self),
            in_bounds(old(self).cells(), coordinate.x as int, coordinate.y as int) ==> {
                let c0 = old(self).cells();
                let c1 = final(self).cells();
                let f = cell(c0, coordinate.x as int, coordinate.y as int);
                &&& (f.flagged || f.visited) ==> r == MoveResult::Continue && (forall|x: int, y: int|
                    in_bounds(c0, x, y) ==> #[trigger] cell(c1, x, y) == cell(c0, x, y))
                &&& f.spec_visit_result() == VisitResult::SteppedOnMine ==> r == MoveResult::Lost
                    && (forall|x: int, y: int|
                    in_bounds(c0, x, y) ==> #[trigger] cell(c1, x, y) == (if x == coordinate.x && y
                        == coordinate.y {
                        cell(c0, x, y).spec_visit()
                    } else {
                        cell(c0, x, y)
                    }))
                &&& !f.flagged && !f.visited && (!f.mined || f.dud) ==> r == MoveResult::Continue
                    && (forall|x: int, y: int|
                    in_bounds(c0, x, y) ==> #[trigger] cell(c1, x, y) == (if crate::neighbors_iterator::reaches(
                        c0,
                        coordinate.x as int,
                        coordinate.y as int,
                        x,
                        y,
                    ) {
                        cell(c0, x, y).spec_visit()
                    } else {
                        cell(c0, x, y)
                    }))
            },
    {
        let x = coordinate.x;
        let y = coordinate.y;
        if y >= self.fields.len() || x >= self.fields[y].len() {
            return MoveResult::InvalidPosition;
        }
        let ghost c0 = self.cells();
        let mut f = self.fields[y][x];
        let res = f.visit();
        crate::grid::set_cell(&mut self.fields, x, y, f);
        let ghost cm = self.cells();
        proof {
            assert(same_dims(c0, cm));
            assert(f == cell(c0, x as int, y as int).spec_visit());
            assert(cell(cm, x as int, y as int) == f);
            assert forall|xx: int, yy: int|
                in_bounds(c0, xx, yy) implies #[trigger] cell(cm, xx, yy) == (if xx == x && yy == y {
                cell(c0, xx, yy).spec_visit()
            } else {
                cell(c0, xx, yy)
            }) by {}
            assert(rect(cm)) by {
                assert forall|yy: int| 0 <= yy < cm.len() implies #[trigger] cm[yy].len()
                    == cm[0].len() by {
                    assert(c0[yy].len() == c0[0].len());
                }
            }
            assert(bounded_dims(cm)) by {
                assert forall|yy: int| 0 <= yy < cm.len() implies #[trigger] cm[yy].len()
                    <= usize::MAX by {
                    assert(c0[yy].len() <= usize::MAX);
                }
            }
            assert forall|xx: int, yy: int|
                in_bounds(c0, xx, yy) implies (#[trigger] cell(cm, xx, yy)).mined == cell(
                c0,
                xx,
                yy,
            ).mined && cell(cm, xx, yy).adjacent == cell(c0, xx, yy).adjacent && cell(
                cm,
                xx,
                yy,
            ).flagged == cell(c0, xx, yy).flagged && (cell(cm, xx, yy).dud == cell(
                c0,
                xx,
                yy,
            ).dud) by {}
            lemma_counts_frame(c0, cm);
            assert(self.wf());
            assert(same_dims(cm, c0));
            assert forall|x2: int, y2: int|
                in_bounds(cm, x2, y2) implies (#[trigger] cell(c0, x2, y2)).mined == cell(
                cm,
                x2,
                y2,
            ).mined && cell(c0, x2, y2).flagged == cell(cm, x2, y2).flagged by {
                assert(in_bounds(c0, x2, y2));
            }
            assert forall|x2: int, y2: int|
                in_bounds(c0, x2, y2) implies (#[trigger] cell(cm, x2, y2)).mined == cell(
                c0,
                x2,
                y2,
            ).mined && cell(cm, x2, y2).flagged == cell(c0, x2, y2).flagged by {}
        }
        match res {
            VisitResult::SteppedOnMine => MoveResult::Lost,
            VisitResult::AlreadyVisited | VisitResult::Flagged => MoveResult::Continue,
            _ => {
                self.visit_neighbors(coordinate);
                proof {
                    let c1 = self.cells();
                    assert forall|xx: int, yy: int|
                        in_bounds(c0, xx, yy) implies #[trigger] cell(c1, xx, yy) == (if crate::neighbors_iterator::reaches(
                        c0,
                        x as int,
                        y as int,
                        xx,
                        yy,
                    ) {
                        cell(c0, xx, yy).spec_visit()
                    } else {
                        cell(c0, xx, yy)
                    }) by {
                        assert(in_bounds(cm, xx, yy));
                        if xx == x && yy == y {
                            crate::neighbors_iterator::lemma_reaches_self(c0, x as int, y as int);
                            crate::neighbors_iterator::lemma_reaches_self(cm, x as int, y as int);
                        }
                        if crate::neighbors_iterator::reaches(cm, x as int, y as int, xx, yy) {
                            crate::neighbors_iterator::lemma_reaches_frame(
                                cm,
                                c0,
                                x as int,
                                y as int,
                                xx,
                                yy,
                            );
                        }
                        if crate::neighbors_iterator::reaches(c0, x as int, y as int, xx, yy) {
                            crate::neighbors_iterator::lemma_reaches_frame(
                                c0,
                                cm,
                                x as int,
                                y as int,
                                xx,
                                yy,
                            );
                        }
                        assert(cell(c0, xx, yy).spec_visit().spec_visit() == cell(
                            c0,
                            xx,
                            yy,
                        ).spec_visit());
                    }
                }
                MoveResult::Continue
            },
        }
    }

    /// Make the first move.
    ///
    /// Mark the initially visited field as visited, then populate mines
    /// and duds. This is to prevent stepping on a mine on the first
    /// move, where we do not yet have any information about the grid.
    fn first_move(&mut self, mines: u8, duds: u8, coordinate: Coordinate) -> (r: MoveResult)
        requires
            old(self).width() >= 1,
            old(self).height() >= 1,
            rect(old(self).cells()),
            bounded_dims(old(self).cells()),
            old(self).size() <= usize::MAX,
            old(self).initialized(),
            pristine(old(self).cells()),
            (mines as int) < old(self).size(),
            duds <= mines,
            in_bounds(old(self).cells(), coordinate.x as int, coordinate.y as int),
        ensures
            final(self).wf(),
            final(self).initialized(),
            same_dims(old(self).cells(), final(self).cells()),
            r == MoveResult::Continue,
            ({
                let c0 = old(self).cells();
                let c1 = final(self).cells();
                let fl = cell(c0, coordinate.x as int, coordinate.y as int).flagged;
                &&& forall|x: int, y: int|
                    in_bounds(c0, x, y) ==> (#[trigger] cell(c1, x, y)).flagged == cell(
                        c0,
                        x,
                        y,
                    ).flagged
                &&& forall|x: int, y: int|
                    in_bounds(c0, x, y) && (#[trigger] cell(c1, x, y)).visited ==> !cell(
                        c1,
                        x,
                        y,
                    ).mined && !cell(c1, x, y).flagged
                &&& forall|x: int, y: int|
                    in_bounds(c0, x, y) ==> ((#[trigger] cell(c1, x, y)).visited
                        <==> (crate::neighbors_iterator::reaches(
                        c1,
                        coordinate.x as int,
                        coordinate.y as int,
                        x,
                        y,
                    ) && !cell(c0, x, y).flagged))
                &&& (!fl ==> cell(c1, coordinate.x as int, coordinate.y as int).visited)
                &&& crate::grid::mined_set(c1).finite()
                &&& crate::grid::mined_set(c1).len() == mines as int
                &&& crate::grid::dud_set(c1).finite()
                &&& crate::grid::dud_set(c1).len() == duds as int
            }),
    {
        let ghost c0 = self.cells();
        let x = coordinate.x;
        let y = coordinate.y;
        let mut f = self.fields[y][x];
        f.visit();
        crate::grid::set_cell(&mut self.fields, x, y, f);
        let ghost ca = self.cells();
        proof {
            assert(same_dims(c0, ca));
            assert(f == cell(c0, x as int, y as int).spec_visit());
            assert(cell(ca, x as int, y as int) == f);
            assert forall|xx: int, yy: int|
                in_bounds(c0, xx, yy) implies #[trigger] cell(ca, xx, yy) == (if xx == x && yy == y {
                cell(c0, xx, yy).spec_visit()
            } else {
                cell(c0, xx, yy)
            }) by {}
            assert(rect(ca)) by {
                assert forall|yy: int| 0 <= yy < ca.len() implies #[trigger] ca[yy].len()
                    == ca[0].len() by {
                    assert(c0[yy].len() == c0[0].len());
                }
            }
            // How many fields are unvisited when the mines are placed:
            // the whole grid, less the first-visited field if its flag
            // did not refuse the visit.
            crate::grid::lemma_coords_len(old(self).width(), old(self).height());
            if cell(c0, x as int, y as int).flagged {
                assert(crate::grid::unvisited_set(ca) =~= crate::grid::coords(
                    old(self).width(),
                    old(self).height(),
                )) by {
                    assert forall|p: Coordinate|
                        crate::grid::unvisited_set(ca).contains(p) == crate::grid::coords(
                        old(self).width(),
                        old(self).height(),
                    ).contains(p) by {
                        if in_bounds(ca, p.x as int, p.y as int) {
                            assert(in_bounds(c0, p.x as int, p.y as int));
                            assert(!cell(ca, p.x as int, p.y as int).visited);
                        }
                        if crate::grid::coords(old(self).width(), old(self).height()).contains(p) {
                            assert(in_bounds(c0, p.x as int, p.y as int));
                            assert(in_bounds(ca, p.x as int, p.y as int));
                        }
                    }
                }
                assert(crate::grid::unvisited_set(ca).len() == old(self).size());
            } else {
                assert(crate::grid::unvisited_set(ca) =~= crate::grid::coords(
                    old(self).width(),
                    old(self).height(),
                ).remove(coordinate)) by {
                    assert forall|p: Coordinate|
                        crate::grid::unvisited_set(ca).contains(p) == crate::grid::coords(
                        old(self).width(),
                        old(self).height(),
                    ).remove(coordinate).contains(p) by {
                        if in_bounds(ca, p.x as int, p.y as int) {
                            assert(in_bounds(c0, p.x as int, p.y as int));
                        }
                        if crate::grid::coords(old(self).width(), old(self).height()).remove(
                            coordinate,
                        ).contains(p) {
                            assert(in_bounds(c0, p.x as int, p.y as int));
                            assert(in_bounds(ca, p.x as int, p.y as int));
                            assert(!cell(ca, p.x as int, p.y as int).visited);
                        }
                    }
                }
                assert(crate::grid::coords(old(self).width(), old(self).height()).contains(
                    coordinate,
                ));
                assert(crate::grid::unvisited_set(ca).len() == old(self).size() - 1);
            }
        }
        self.initialize(mines, duds);
        let ghost cb = self.cells();
        proof {
            assert(crate::grid::mined_set(cb).len() == mines as int);
            assert(crate::grid::dud_set(cb).len() == if (duds as int) <= crate::grid::mined_set(
                cb,
            ).len() {
                duds as int
            } else {
                crate::grid::mined_set(cb).len() as int
            });
            assert(crate::grid::dud_set(cb).len() == duds as int);
            assert(rect(cb)) by {
                assert forall|yy: int| 0 <= yy < cb.len() implies #[trigger] cb[yy].len()
                    == cb[0].len() by {
                    assert(c0[yy].len() == c0[0].len());
                }
            }
            assert(bounded_dims(cb)) by {
                assert forall|yy: int| 0 <= yy < cb.len() implies #[trigger] cb[yy].len()
                    <= usize::MAX by {
                    assert(c0[yy].len() <= usize::MAX);
                }
            }
            assert(self.wf());
            assert(in_bounds(cb, x as int, y as int));
        }
        self.visit_neighbors(coordinate);
        proof {
            let c1 = self.cells();
            assert(crate::grid::mined_set(c1) =~= crate::grid::mined_set(cb)) by {
                assert forall|p: Coordinate|
                    crate::grid::mined_set(c1).contains(p) == crate::grid::mined_set(cb).contains(
                    p,
                ) by {
                    if in_bounds(cb, p.x as int, p.y as int) {
                        assert(in_bounds(c1, p.x as int, p.y as int));
                        assert(cell(c1, p.x as int, p.y as int).mined == cell(
                            cb,
                            p.x as int,
                            p.y as int,
                        ).mined);
                    } else {
                        assert(!in_bounds(c1, p.x as int, p.y as int));
                    }
                }
            }
            assert(crate::grid::dud_set(c1) =~= crate::grid::dud_set(cb)) by {
                assert forall|p: Coordinate|
                    crate::grid::dud_set(c1).contains(p) == crate::grid::dud_set(cb).contains(
                    p,
                ) by {
                    if in_bounds(cb, p.x as int, p.y as int) {
                        assert(in_bounds(c1, p.x as int, p.y as int));
                        assert(cell(c1, p.x as int, p.y as int).dud == cell(
                            cb,
                            p.x as int,
                            p.y as int,
                        ).dud);
                    } else {
                        assert(!in_bounds(c1, p.x as int, p.y as int));
                    }
                }
            }
            assert forall|xx: int, yy: int|
                in_bounds(c0, xx, yy) && (#[trigger] cell(c1, xx, yy)).visited implies !cell(
                c1,
                xx,
                yy,
            ).mined && !cell(c1, xx, yy).flagged by {
                if crate::neighbors_iterator::reaches(cb, x as int, y as int, xx, yy) {
                    if !(xx == x && yy == y) {
                        crate::neighbors_iterator::lemma_reached_is_safe(
                            cb,
                            x as int,
                            y as int,
                            xx,
                            yy,
                        );
                    } else {
                        if !cell(c0, x as int, y as int).flagged {
                            assert(cell(ca, x as int, y as int).visited);
                            assert(!cell(cb, x as int, y as int).mined);
                        }
                    }
                } else {
                    assert(cell(c1, xx, yy) == cell(cb, xx, yy));
                    if cell(cb, xx, yy).visited {
                        assert(cell(ca, xx, yy).visited);
                        assert(xx == x && yy == y);
                        assert(!cell(c0, x as int, y as int).flagged);
                        assert(!cell(cb, xx, yy).mined);
                    }
                }
            }
            assert(!cell(c0, x as int, y as int).flagged ==> cell(
                c1,
                x as int,
                y as int,
            ).visited) by {
                if !cell(c0, x as int, y as int).flagged {
                    crate::neighbors_iterator::lemma_reaches_self(cb, x as int, y as int);
                    assert(cell(ca, x as int, y as int).visited);
                    assert(cell(cb, x as int, y as int).visited);
                }
            }
            // The revealed set is exact: a field is visited after the
            // first move iff the anchor reaches it and it carries no
            // flag.
            assert(same_dims(cb, c1));
            assert(same_dims(c1, cb));
            assert forall|xx: int, yy: int|
                in_bounds(cb, xx, yy) implies (#[trigger] cell(c1, xx, yy)).mined == cell(
                cb,
                xx,
                yy,
            ).mined && cell(c1, xx, yy).flagged == cell(cb, xx, yy).flagged by {}
            assert forall|xx: int, yy: int|
                in_bounds(c1, xx, yy) implies (#[trigger] cell(cb, xx, yy)).mined == cell(
                c1,
                xx,
                yy,
            ).mined && cell(cb, xx, yy).flagged == cell(c1, xx, yy).flagged by {
                assert(in_bounds(cb, xx, yy));
            }
            assert forall|xx: int, yy: int|
                in_bounds(c0, xx, yy) implies ((#[trigger] cell(c1, xx, yy)).visited
                <==> (crate::neighbors_iterator::reaches(c1, x as int, y as int, xx, yy) && !cell(
                c0,
                xx,
                yy,
            ).flagged)) by {
                assert(in_bounds(cb, xx, yy));
                assert(cell(cb, xx, yy).flagged == cell(c0, xx, yy).flagged);
                crate::neighbors_iterator::lemma_reaches_self(cb, x as int, y as int);
                if crate::neighbors_iterator::reaches(cb, x as int, y as int, xx, yy) {
                    crate::neighbors_iterator::lemma_reaches_frame(
                        cb,
                        c1,
                        x as int,
                        y as int,
                        xx,
                        yy,
                    );
                    if !(xx == x && yy == y) {
                        crate::neighbors_iterator::lemma_reached_is_safe(
                            cb,
                            x as int,
                            y as int,
                            xx,
                            yy,
                        );
                    }
                    assert(cell(c1, xx, yy) == cell(cb, xx, yy).spec_visit());
                    assert(cell(cb, xx, yy).visited == cell(ca, xx, yy).visited);
                } else {
                    assert(!crate::neighbors_iterator::reaches(
                        c1,
                        x as int,
                        y as int,
                        xx,
                        yy,
                    )) by {
                        if crate::neighbors_iterator::reaches(c1, x as int, y as int, xx, yy) {
                            crate::neighbors_iterator::lemma_reaches_frame(
                                c1,
                                cb,
                                x as int,
                                y as int,
                                xx,
                                yy,
                            );
                        }
                    }
                    assert(!(xx == x && yy == y));
                    assert(cell(c1, xx, yy) == cell(cb, xx, yy));
                    assert(cell(cb, xx, yy).visited == cell(ca, xx, yy).visited);
                    assert(!cell(ca, xx, yy).visited);
                }
            }
        }
        MoveResult::Continue
    }

    /// Visit the given coordinate, initializing the board first if this
    /// is the first move.
    fn make_move(&mut self, coordinate: Coordinate) -> (r: MoveResult)
        requires
            old(self).wf(),
        ensures
            final(self).wf(),
            same_dims(old(self).cells(), final(self).cells()),
            !in_bounds(old(self).cells(), coordinate.x as int, coordinate.y as int) ==> r
                == MoveResult::InvalidPosition && *final(self) == *old(self),
            in_bounds(old(self).cells(), coordinate.x as int, coordinate.y as int) ==> final(self).initialized(),
            r == MoveResult::InvalidPosition <==> !in_bounds(
                old(self).cells(),
                coordinate.x as int,
                coordinate.y as int,
            ),
            r == MoveResult::Lost <==> (in_bounds(
                old(self).cells(),
                coordinate.x as int,
                coordinate.y as int,
            ) && old(self).initialized() && cell(
                old(self).cells(),
                coordinate.x as int,
                coordinate.y as int,
            ).spec_visit_result() == VisitResult::SteppedOnMine),
            r == MoveResult::Continue || r == MoveResult::Lost || r == MoveResult::InvalidPosition,
            in_bounds(old(self).cells(), coordinate.x as int, coordinate.y as int) && old(self).initialized() ==> {
                let c0 = old(self).cells();
                let c1 = final(self).cells();
                let f = cell(c0, coordinate.x as int, coordinate.y as int);
                &&& (f.flagged || f.visited) ==> (forall|x: int, y: int|
                    in_bounds(c0, x, y) ==> #[trigger] cell(c1, x, y) == cell(c0, x, y))
                &&& f.spec_visit_result() == VisitResult::SteppedOnMine ==> (forall|x: int, y: int|
                    in_bounds(c0, x, y) ==> #[trigger] cell(c1, x, y) == (if x == coordinate.x && y
                        == coordinate.y {
                        cell(c0, x, y).spec_visit()
                    } else {
                        cell(c0, x, y)
                    }))
                &&& !f.flagged && !f.visited && (!f.mined || f.dud) ==> (forall|x: int, y: int|
                    in_bounds(c0, x, y) ==> #[trigger] cell(c1, x, y) == (if crate::neighbors_iterator::reaches(
                        c0,
                        coordinate.x as int,
                        coordinate.y as int,
                        x,
                        y,
                    ) {
                        cell(c0, x, y).spec_visit()
                    } else {
                        cell(c0, x, y)
                    }))
            },
            in_bounds(old(self).cells(), coordinate.x as int, coordinate.y as int) && !old(self).initialized() ==> {
                let c0 = old(self).cells();
                let c1 = final(self).cells();
                &&& r == MoveResult::Continue
                &&& old(self).pending() matches Some((mines, duds)) ==> {
                    &&& crate::grid::mined_set(c1).finite()
                    &&& crate::grid::mined_set(c1).len() == mines as int
                    &&& crate::grid::dud_set(c1).finite()
                    &&& crate::grid::dud_set(c1).len() == duds as int
                }
                &&& forall|x: int, y: int|
                    in_bounds(c0, x, y) ==> (#[trigger] cell(c1, x, y)).flagged == cell(
                        c0,
                        x,
                        y,
                    ).flagged
                &&& forall|x: int, y: int|
                    in_bounds(c0, x, y) && (#[trigger] cell(c1, x, y)).visited ==> !cell(
                        c1,
                        x,
                        y,
                    ).mined && !cell(c1, x, y).flagged
                &&& forall|x: int, y: int|
                    in_bounds(c0, x, y) ==> ((#[trigger] cell(c1, x, y)).visited
                        <==> (crate::neighbors_iterator::reaches(
                        c1,
                        coordinate.x as int,
                        coordinate.y as int,
                        x,
                        y,
                    ) && !cell(c0, x, y).flagged))
                &&& (!cell(c0, coordinate.x as int, coordinate.y as int).flagged ==> cell(
                    c1,
                    coordinate.x as int,
                    coordinate.y as int,
                ).visited)
            },
    {
        let y = coordinate.y;
        let x = coordinate.x;
        if y >= self.fields.len() || x >= self.fields[y].len() {
            return MoveResult::InvalidPosition;
        }
        match self.init {
            Some((mines, duds)) => {
                self.init = None;
                self.first_move(mines, duds, coordinate)
            },
            None => self.visit_coordinate(coordinate),
        }
    }

    /// Visit the field at the given coordinate.
    ///
    /// The first successful visit places the mines and duds, avoiding
    /// everything visited by then, so it can never lose the game. The
    /// move wins the game exactly when every field without a mine has
    /// been visited afterwards.
    pub fn visit(&mut self, coordinate: Coordinate) -> (r: MoveResult)
        requires
            old(self).wf(),
        ensures
            final(self).wf(),
            visit_cells_transition(*old(self), *final(self), coordinate),
            r == spec_visit_outcome(*old(self), *final(self), coordinate),
            !old(self).initialized() ==> r != MoveResult::Lost,
            !in_bounds(old(self).cells(), coordinate.x as int, coordinate.y as int)
                ==> *final(self) == *old(self),
    {
        match self.make_move(coordinate) {
            MoveResult::Lost => MoveResult::Lost,
            MoveResult::InvalidPosition => MoveResult::InvalidPosition,
            _ => {
                if self.all_mines_cleared() {
                    MoveResult::Won
                } else {
                    MoveResult::Continue
                }
            },
        }
    }

    /// Visit all fields on the grid, which have not been flagged.
    ///
    /// This is a convenience function to quickly uncover all fields,
    /// which are deemed safe, to conclude the game. Every non-flagged
    /// field is visited; if any of them held a live mine the game is
    /// lost, even though the other fields were revealed too. The board
    /// is initialized first if no move was made yet.
    pub fn visit_non_flagged_fields(&mut self) -> (r: MoveResult)
        requires
            old(self).wf(),
        ensures
            final(self).wf(),
            bulk_cells_transition(*old(self), *final(self)),
            r == spec_bulk_outcome(*old(self), *final(self)),
    {
        let ghost c0 = self.cells();
        if let Some((mines, duds)) = self.init {
            self.init = None;
            self.initialize(mines, duds);
        }
        let ghost cm = self.cells();
        proof {
            assert(same_dims(c0, cm));
            assert(rect(cm)) by {
                assert forall|yy: int| 0 <= yy < cm.len() implies #[trigger] cm[yy].len()
                    == cm[0].len() by {
                    assert(c0[yy].len() == c0[0].len());
                }
            }
            if old(self).pending() is Some {
                crate::grid::lemma_coords_len(old(self).width(), old(self).height());
                assert(crate::grid::unvisited_set(c0) =~= crate::grid::coords(
                    old(self).width(),
                    old(self).height(),
                )) by {
                    assert forall|p: Coordinate|
                        crate::grid::unvisited_set(c0).contains(p) == crate::grid::coords(
                        old(self).width(),
                        old(self).height(),
                    ).contains(p) by {
                        if in_bounds(c0, p.x as int, p.y as int) {
                            assert(!cell(c0, p.x as int, p.y as int).visited);
                        }
                        if crate::grid::coords(old(self).width(), old(self).height()).contains(p) {
                            assert(in_bounds(c0, p.x as int, p.y as int));
                        }
                    }
                }
                assert(crate::grid::unvisited_set(c0).len() == old(self).size());
                assert(old(self).pending() matches Some((m, d)) ==> crate::grid::mined_set(
                    cm,
                ).len() == m as int);
            }
        }
        let mut lost = false;
        let mut y: usize = 0;
        while y < self.fields.len()
            invariant
                rect(cm),
                same_dims(cm, self.cells()),
                self.pending() == old(self).pending() || self.pending() is None,
                self.initialized(),
                y <= cm.len(),
                forall|xx: int, yy: int|
                    in_bounds(cm, xx, yy) ==> #[trigger] cell(self.cells(), xx, yy) == (if yy < y {
                        cell(cm, xx, yy).spec_visit()
                    } else {
                        cell(cm, xx, yy)
                    }),
                lost <==> (exists|xx: int, yy: int|
                    in_bounds(cm, xx, yy) && yy < y && (#[trigger] cell(
                        cm,
                        xx,
                        yy,
                    )).spec_visit_result() == VisitResult::SteppedOnMine),
            decreases cm.len() - y,
        {
            let mut x: usize = 0;
            while x < self.fields[y].len()
                invariant
                    rect(cm),
                    same_dims(cm, self.cells()),
                    self.pending() == old(self).pending() || self.pending() is None,
                    self.initialized(),
                    y < cm.len(),
                    x <= cm[y as int].len(),
                    forall|xx: int, yy: int|
                        in_bounds(cm, xx, yy) ==> #[trigger] cell(self.cells(), xx, yy) == (if yy
                            < y || (yy == y && xx < x) {
                            cell(cm, xx, yy).spec_visit()
                        } else {
                            cell(cm, xx, yy)
                        }),
                    lost <==> (exists|xx: int, yy: int|
                        in_bounds(cm, xx, yy) && (yy < y || (yy == y && xx < x)) && (
                        #[trigger] cell(cm, xx, yy)).spec_visit_result()
                            == VisitResult::SteppedOnMine),
                decreases cm[y as int].len() - x,
            {
                let ghost before = self.cells();
                let mut f = self.fields[y][x];
                let res = f.visit();
                crate::grid::set_cell(&mut self.fields, x, y, f);
                if res == VisitResult::SteppedOnMine {
                    lost = true;
                }
                x = x + 1;
                proof {
                    assert(cell(before, x - 1, y as int) == cell(cm, x - 1, y as int));
                    assert(f == cell(cm, x - 1, y as int).spec_visit());
                    assert forall|xx: int, yy: int|
                        in_bounds(cm, xx, yy) implies #[trigger] cell(self.cells(), xx, yy) == (
                    if yy < y || (yy == y && xx < x) {
                        cell(cm, xx, yy).spec_visit()
                    } else {
                        cell(cm, xx, yy)
                    }) by {
                        assert(in_bounds(before, xx, yy));
                        if xx == x - 1 && yy == y {
                            assert(cell(self.cells(), xx, yy) == f);
                        } else {
                            assert(cell(self.cells(), xx, yy) == cell(before, xx, yy));
                        }
                    }
                    assert(lost <==> (exists|xx: int, yy: int|
                        in_bounds(cm, xx, yy) && (yy < y || (yy == y && xx < x)) && (
                        #[trigger] cell(cm, xx, yy)).spec_visit_result()
                            == VisitResult::SteppedOnMine)) by {
                        if res == VisitResult::SteppedOnMine {
                            assert(in_bounds(cm, x - 1, y as int) && cell(
                                cm,
                                x - 1,
                                y as int,
                            ).spec_visit_result() == VisitResult::SteppedOnMine);
                            assert(exists|xx: int, yy: int|
                                in_bounds(cm, xx, yy) && (yy < y || (yy == y && xx < x)) && (
                                #[trigger] cell(cm, xx, yy)).spec_visit_result()
                                    == VisitResult::SteppedOnMine);
                        }
                        if lost && res != VisitResult::SteppedOnMine {
                            let (xx, yy) = choose|xx: int, yy: int|
                                in_bounds(cm, xx, yy) && (yy < y || (yy == y && xx < x - 1)) && (
                                #[trigger] cell(cm, xx, yy)).spec_visit_result()
                                    == VisitResult::SteppedOnMine;
                            assert(in_bounds(cm, xx, yy) && (yy < y || (yy == y && xx < x)) && cell(
                                cm,
                                xx,
                                yy,
                            ).spec_visit_result() == VisitResult::SteppedOnMine);
                        }
                        if !lost {
                            if exists|xx: int, yy: int|
                                in_bounds(cm, xx, yy) && (yy < y || (yy == y && xx < x)) && (
                                #[trigger] cell(cm, xx, yy)).spec_visit_result()
                                    == VisitResult::SteppedOnMine {
                                let (xx, yy) = choose|xx: int, yy: int|
                                    in_bounds(cm, xx, yy) && (yy < y || (yy == y && xx < x)) && (
                                    #[trigger] cell(cm, xx, yy)).spec_visit_result()
                                        == VisitResult::SteppedOnMine;
                                assert(xx == x - 1 && yy == y);
                            }
                        }
                    }
                }
            }
            y = y + 1;
        }
        let ghost c1 = self.cells();
        proof {
            assert(rect(c1)) by {
                assert forall|yy: int| 0 <= yy < c1.len() implies #[trigger] c1[yy].len()
                    == c1[0].len() by {
                    assert(cm[yy].len() == cm[0].len());
                }
            }
            assert(bounded_dims(c1)) by {
                assert forall|yy: int| 0 <= yy < c1.len() implies #[trigger] c1[yy].len()
                    <= usize::MAX by {
                    assert(c0[yy].len() <= usize::MAX);
                }
            }
            assert forall|x: int, y: int|
                in_bounds(cm, x, y) implies (#[trigger] cell(c1, x, y)).mined == cell(
                cm,
                x,
                y,
            ).mined && cell(c1, x, y).adjacent == cell(cm, x, y).adjacent && (cell(c1, x, y).dud
                == cell(cm, x, y).dud) && cell(c1, x, y).flagged == cell(cm, x, y).flagged by {}
            lemma_counts_frame(cm, c1);
            assert(self.wf());
            if old(self).pending() is Some {
                assert(crate::grid::mined_set(c1) =~= crate::grid::mined_set(cm)) by {
                    assert forall|p: Coordinate|
                        crate::grid::mined_set(c1).contains(p) == crate::grid::mined_set(
                        cm,
                    ).contains(p) by {
                        if in_bounds(cm, p.x as int, p.y as int) {
                            assert(in_bounds(c1, p.x as int, p.y as int));
                        } else {
                            assert(!in_bounds(c1, p.x as int, p.y as int));
                        }
                    }
                }
                assert(crate::grid::dud_set(c1) =~= crate::grid::dud_set(cm)) by {
                    assert forall|p: Coordinate|
                        crate::grid::dud_set(c1).contains(p) == crate::grid::dud_set(cm).contains(
                        p,
                    ) by {
                        if in_bounds(cm, p.x as int, p.y as int) {
                            assert(in_bounds(c1, p.x as int, p.y as int));
                        } else {
                            assert(!in_bounds(c1, p.x as int, p.y as int));
                        }
                    }
                }
            }
            // Tie the sweep's loss condition to the stated one.
            assert((exists|xx: int, yy: int|
                in_bounds(cm, xx, yy) && (#[trigger] cell(cm, xx, yy)).spec_visit_result()
                    == VisitResult::SteppedOnMine) <==> (exists|x: int, y: int|
                in_bounds(c0, x, y) && !(#[trigger] cell(c1, x, y)).flagged && !cell(
                    c0,
                    x,
                    y,
                ).visited && cell(c1, x, y).mined && !cell(c1, x, y).dud)) by {
                if exists|xx: int, yy: int|
                    in_bounds(cm, xx, yy) && (#[trigger] cell(cm, xx, yy)).spec_visit_result()
                        == VisitResult::SteppedOnMine {
                    let (xx, yy) = choose|xx: int, yy: int|
                        in_bounds(cm, xx, yy) && (#[trigger] cell(cm, xx, yy)).spec_visit_result()
                            == VisitResult::SteppedOnMine;
                    assert(in_bounds(c0, xx, yy) && !cell(c1, xx, yy).flagged && !cell(
                        c0,
                        xx,
                        yy,
                    ).visited && cell(c1, xx, yy).mined && !cell(c1, xx, yy).dud);
                }
                if exists|x: int, y: int|
                    in_bounds(c0, x, y) && !(#[trigger] cell(c1, x, y)).flagged && !cell(
                        c0,
                        x,
                        y,
                    ).visited && cell(c1, x, y).mined && !cell(c1, x, y).dud {
                    let (xx, yy) = choose|x: int, y: int|
                        in_bounds(c0, x, y) && !(#[trigger] cell(c1, x, y)).flagged && !cell(
                            c0,
                            x,
                            y,
                        ).visited && cell(c1, x, y).mined && !cell(c1, x, y).dud;
                    assert(in_bounds(cm, xx, yy) && cell(cm, xx, yy).spec_visit_result()
                        == VisitResult::SteppedOnMine);
                }
            }
        }
        if lost {
            MoveResult::Lost
        } else {
            if self.all_mines_cleared() {
                MoveResult::Won
            } else {
                MoveResult::Continue
            }
        }
    }

    /// Toggle the flag on the field under the given coordinate.
    ///
    /// An out-of-bounds coordinate is reported as an invalid position;
    /// any other toggle reports that the game continues, whether or not
    /// the field accepted the toggle (a visited field refuses silently).
    pub fn toggle_flag(&mut self, coordinate: Coordinate) -> (r: MoveResult)
        requires
            old(self).wf(),
        ensures
            final(self).wf(),
            toggle_cells_transition(*old(self), *final(self), coordinate),
            r == (if in_bounds(old(self).cells(), coordinate.x as int, coordinate.y as int) {
                MoveResult::Continue
            } else {
                MoveResult::InvalidPosition
            }),
    {
        let x = coordinate.x;
        let y = coordinate.y;
        if y >= self.fields.len() || x >= self.fields[y].len() {
            return MoveResult::InvalidPosition;
        }
        let ghost c0 = self.cells();
        let mut f = self.fields[y][x];
        f.toggle_flag();
        crate::grid::set_cell(&mut self.fields, x, y, f);
        proof {
            let c1 = self.cells();
            assert(same_dims(c0, c1));
            assert forall|xx: int, yy: int|
                in_bounds(c1, xx, yy) implies (#[trigger] cell(c1, xx, yy)).mined == cell(
                c0,
                xx,
                yy,
            ).mined && cell(c1, xx, yy).adjacent == cell(c0, xx, yy).adjacent && (cell(
                c1,
                xx,
                yy,
            ).dud == cell(c0, xx, yy).dud) && (cell(c1, xx, yy).visited == cell(
                c0,
                xx,
                yy,
            ).visited) by {}
            if old(self).pending() is None {
                lemma_counts_frame(c0, c1);
            }
            assert(self.wf());
        }
        MoveResult::Continue
    }
}

} // verus!
