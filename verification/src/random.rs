//! The engine's source of chance: the thread-local generator of the `rand`
//! crate. Nothing here is proved; each contract says only what holds of every
//! value that the generator may hand out.

use vstd::prelude::*;
use rand::Rng;
use rand::seq::SliceRandom;
use rand::rngs::ThreadRng;
use crate::coordinate::Coordinate;

verus! {

/// `rand::rngs::ThreadRng`, a handle to the generator that each thread owns.
/// Opaque: a value of it is only passed on.
#[verifier::external_type_specification]
#[verifier::external_body]
pub struct ExThreadRng(ThreadRng);

/// `rand::thread_rng` hands out a handle to the calling thread's generator.
/// Nothing is claimed of it.
pub assume_specification[ rand::thread_rng ]() -> (rng: ThreadRng)
;

/// `Rng::gen` for `u64`: sixty-four random bits. Any value may come back, so
/// nothing is claimed of it.
#[verifier::external_body]
pub(crate) fn next_key(rng: &mut ThreadRng) -> (key: u64) {
    rng.gen()
}

/// `Rng::gen_range` on `0..bound`: a random number below `bound`. The outside
/// function panics on an empty range, which `requires` rules out.
#[verifier::external_body]
pub(crate) fn index_below(rng: &mut ThreadRng, bound: usize) -> (index: usize)
    requires
        bound > 0,
    ensures
        index < bound,
{
    rng.gen_range(0..bound)
}

/// `SliceRandom::choose` on the slice of `moves`: `None` for an empty list,
/// else one of its elements.
#[verifier::external_body]
pub(crate) fn pick(rng: &mut ThreadRng, moves: &Vec<Coordinate>) -> (picked: Option<Coordinate>)
    ensures
        match picked {
            None => moves.len() == 0,
            Some(point) => exists|i: int| 0 <= i < moves.len() && moves[i] == point,
        },
{
    moves.choose(rng).copied()
}

} // verus!
