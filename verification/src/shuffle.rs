//! The random order in which a new field takes its mines, drawn with the
//! `rand` crate. Nothing in this file is proved: the contracts below are
//! taken from the crate's source. Both calls stop the program where the
//! system's random source fails, which no contract can keep out.

use crate::point::Point;
use rand::seq::SliceRandom;
use vstd::prelude::*;

verus! {

/// `rand::rngs::ThreadRng`, the handle of the running thread's random number
/// generator. Nothing is known of what it holds.
#[verifier::external_type_specification]
#[verifier::external_body]
pub struct ExThreadRng(rand::rngs::ThreadRng);

/// `rand::thread_rng` hands out the generator of the running thread, seeded
/// by the system. Nothing is claimed of the generator. The call aborts the
/// program if the system cannot seed it.
pub assume_specification[ rand::thread_rng ]() -> (rng: rand::rngs::ThreadRng);

/// `rand::seq::SliceRandom::shuffle` reorders a slice in place by a run of
/// swaps. The contract claims what holds of every such run: the list holds
/// the same points afterwards, each as often as before. Which order comes out
/// is left open. The call aborts the program if the generator is due for
/// reseeding and the system cannot reseed it.
#[verifier::external_body]
pub(crate) fn shuffle(points: &mut Vec<Point>, rng: &mut rand::rngs::ThreadRng)
    ensures
        final(points)@.to_multiset() == old(points)@.to_multiset(),
{
    points.shuffle(rng);
}

} // verus!
