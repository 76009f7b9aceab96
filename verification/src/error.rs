//! Possible errors when constructing a game board.

use vstd::prelude::*;

verus! {

/// Possible errors when constructing a game board (aka. minefield).
#[derive(Clone, Copy, Debug, Eq, PartialEq, Structural)]
pub enum Error {
    /// The field has zero width.
    FieldTooNarrow,
    /// The field has zero height.
    FieldTooFlat,
    /// The field is too large to address.
    FieldTooLarge,
    /// Too many mines were requested for the size of field.
    TooManyMines,
    /// Too many duds were requested for the amount of mines.
    TooManyDuds,
}

} // verus!
