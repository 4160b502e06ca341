//! The boundary to the `rand` crate: random orderings and random bytes.
//!
//! Nothing in this module is proved. What comes back from a random source
//! differs from call to call, so the statements made here are only those
//! that hold of every outcome.

use rand::seq::SliceRandom;
use vstd::prelude::*;

verus! {

/// `rand::rngs::ThreadRng`: the random number generator of a thread.
/// Nothing inside it is visible here.
#[verifier::external_type_specification]
#[verifier::external_body]
pub struct ExThreadRng(rand::rngs::ThreadRng);

/// `rand::thread_rng`: the random number generator of the calling thread.
/// Nothing is claimed of it. It panics where the operating system cannot
/// seed it.
pub assume_specification[ rand::thread_rng ]() -> (r: rand::rngs::ThreadRng)
;

/// `rand::seq::SliceRandom::shuffle` on the elements of `v`. Claimed: the
/// elements are rearranged, none is added, lost or changed.
#[verifier::external_body]
pub(crate) fn shuffle(v: &mut Vec<usize>, rng: &mut rand::rngs::ThreadRng)
    ensures
        final(v)@.to_multiset() == old(v)@.to_multiset(),
{
    v.shuffle(rng)
}

/// `rand::random` for sixteen bytes. Nothing is claimed of the bytes. It
/// panics where the operating system cannot seed the generator.
#[verifier::external_body]
pub(crate) fn random_bytes() -> (r: [u8; 16])
{
    rand::random()
}

} // verus!
