//! The random draws that the players and the search make.

use rand::seq::SliceRandom;
use rand::Rng;
use vstd::prelude::*;

verus! {

/// `rand::Rng::gen_range` on the thread's generator, for `usize`: the draw
/// lies in `low..high`. It panics unless `low < high`, so that is required.
#[verifier::external_body]
pub(crate) fn random_between(low: usize, high: usize) -> (pick: usize)
    requires
        low < high,
    ensures
        low <= pick < high,
{
    rand::thread_rng().gen_range(low, high)
}

/// `rand::seq::SliceRandom::choose` on the thread's generator: one of the
/// slice's elements, or `None` where the slice is empty.
#[verifier::external_body]
pub(crate) fn choose_one(moves: &Vec<(u8, u8)>) -> (choice: Option<(u8, u8)>)
    ensures
        match choice {
            Some(action) => moves@.contains(action),
            None => moves@.len() == 0,
        },
{
    moves.choose(&mut rand::thread_rng()).copied()
}

} // verus!
