//! Header of the board for displaying.

use vstd::prelude::*;

verus! {

/// Header of the board for displaying: one hexadecimal column label per
/// column of the board.
#[derive(Clone, Copy, Debug, Eq, PartialEq, Structural)]
pub struct Header {
    width: usize,
}

impl Header {
    /// Create a header for a board of the given width.
    pub fn new(width: usize) -> (r: Self)
        ensures
            r.width() == width,
    {
        Self { width }
    }

    /// The width the header was made for.
    pub closed spec fn spec_width(&self) -> usize {
        self.width
    }

    /// Return the width the header was made for.
    #[verifier::when_used_as_spec(spec_width)]
    pub fn width(&self) -> (r: usize)
        ensures
            r == self.spec_width(),
    {
        self.width
    }
}

} // verus!
