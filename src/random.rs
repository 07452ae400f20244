//! The random draws that maze generation makes, on a seedable generator.

use crate::grid::Direction;
use rand::seq::SliceRandom;
use rand::Rng;
use vstd::prelude::*;

verus! {

#[verifier::external_type_specification]
#[verifier::external_body]
pub struct ExStdRng(rand::rngs::StdRng);

/// Relies on rand's `Rng::gen_range`: the value it draws from `0..n` lies in
/// that range; it panics on an empty range, which `requires` leaves out.
#[verifier::external_body]
pub(crate) fn draw_below(rng: &mut rand::rngs::StdRng, n: usize) -> (r: usize)
    requires
        0 < n,
    ensures
        r < n,
{
    rng.gen_range(0..n)
}

/// Relies on rand's `SliceRandom::shuffle`: it only swaps entries, so the
/// result holds the same directions, each as often, in some order.
#[verifier::external_body]
pub(crate) fn shuffle_directions(rng: &mut rand::rngs::StdRng, dirs: &mut Vec<Direction>)
    ensures
        final(dirs)@.to_multiset() == old(dirs)@.to_multiset(),
{
    dirs.shuffle(rng)
}

} // verus!
