//! The shared randomness source: the thread-local generator of the `rand`
//! crate, behind trusted wrappers.  Nothing is assumed of which values come
//! out beyond their stated ranges.

use vstd::prelude::*;

verus! {

#[verifier::external_type_specification]
#[verifier::external_body]
pub struct ExThreadRng(rand::rngs::ThreadRng);

/// Relies on rand::thread_rng: a handle to the thread-local generator.
#[verifier::external_body]
pub fn new_rng() -> rand::rngs::ThreadRng {
    rand::thread_rng()
}

/// Relies on rand::Rng::gen_range over `lo..hi`: returns a uniformly random
/// value of the half-open range, and panics on an empty one, which the
/// precondition rules out.
#[verifier::external_body]
pub fn rand_index(rng: &mut rand::rngs::ThreadRng, lo: usize, hi: usize) -> (r: usize)
    requires
        lo < hi,
    ensures
        lo <= r < hi,
{
    rand::Rng::gen_range(rng, lo..hi)
}

/// Relies on rand::seq::SliceRandom::shuffle: permutes the slice in place by
/// swapping elements, so the multiset of entries is unchanged.
#[verifier::external_body]
pub fn shuffle_order(rng: &mut rand::rngs::ThreadRng, v: &mut Vec<usize>)
    ensures
        final(v)@.to_multiset() == old(v)@.to_multiset(),
        final(v)@.len() == old(v)@.len(),
{
    rand::seq::SliceRandom::shuffle(v.as_mut_slice(), rng)
}

} // verus!
