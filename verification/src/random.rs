//! The calls into `rand` that mine placement makes.

use vstd::prelude::*;
use rand::rngs::ThreadRng;
use rand::seq::SliceRandom;

verus! {

/// The thread-local random generator of `rand`.
#[verifier::external_type_specification]
#[verifier::external_body]
pub struct ExThreadRng(ThreadRng);

/// Calls `rand::rng()`, which hands out a handle to the lazily seeded
/// thread-local generator. Nothing is claimed of the handle. The call panics
/// only when the operating system cannot supply a seed, which is no property
/// of any argument and is not stated.
#[verifier::external_body]
pub(crate) fn thread_rng() -> ThreadRng {
    rand::rng()
}

/// Calls `SliceRandom::shuffle` on the cells of `v`. Its documentation and
/// source (a Fisher-Yates pass of swaps) give a permutation of the slice: the
/// contract claims that the same cells, with the same multiplicities, are
/// there afterwards. Which permutation comes out depends on the generator's
/// state and is not stated.
#[verifier::external_body]
pub(crate) fn shuffle_cells(v: &mut Vec<(usize, usize)>, rng: &mut ThreadRng)
    ensures
        final(v)@.to_multiset() == old(v)@.to_multiset(),
{
    v.as_mut_slice().shuffle(rng);
}

} // verus!
