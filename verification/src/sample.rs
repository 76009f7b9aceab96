//! Uniform sampling without replacement, through the rand crate.

use crate::coordinate::Coordinate;
use rand::seq::IteratorRandom;
use vstd::prelude::*;

verus! {

/// Relies on rand's `IteratorRandom::sample`: it draws `amount` elements
/// of the iterator at distinct positions, uniformly without replacement,
/// and returns all of them when the iterator holds fewer than `amount`.
///
/// The draw is random, so nothing is promised about which candidates
/// come back, only that they are candidates, that their number is
/// exact, and that distinct candidates stay distinct.
#[verifier::external_body]
pub(crate) fn sample_coordinates(candidates: &Vec<Coordinate>, amount: usize) -> (r: Vec<
    Coordinate,
>)
    ensures
        r@.len() == if amount <= candidates@.len() {
            amount as int
        } else {
            candidates@.len() as int
        },
        forall|i: int| 0 <= i < r@.len() ==> candidates@.contains(#[trigger] r@[i]),
        candidates@.no_duplicates() ==> r@.no_duplicates(),
{
    candidates.iter().copied().sample(&mut rand::rng(), amount)
}

} // verus!
