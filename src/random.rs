//! The random choices of the generator, drawn from rand's thread-local
//! generator.
use vstd::prelude::*;
use rand::rngs::ThreadRng;

verus! {

#[verifier::external_type_specification]
#[verifier::external_body]
pub struct ExThreadRng(rand::rngs::ThreadRng);

/// Relies on rand::thread_rng: a handle on the thread's generator. Nothing
/// is known of what it will draw.
pub assume_specification[ rand::thread_rng ]() -> rand::rngs::ThreadRng;

/// Relies on rand's SliceRandom::shuffle, which only swaps elements, so the
/// result is a permutation of the input.
#[verifier::external_body]
pub(crate) fn shuffle(v: &mut Vec<usize>, rng: &mut ThreadRng)
    ensures
        final(v)@.to_multiset() == old(v)@.to_multiset(),
{
    rand::seq::SliceRandom::shuffle(v.as_mut_slice(), rng)
}

/// Relies on rand's SliceRandom::choose: `None` for an empty slice, else one
/// of its elements.
#[verifier::external_body]
pub(crate) fn pick_one(v: &Vec<u32>, rng: &mut ThreadRng) -> (r: Option<u32>)
    ensures
        (r is None) == (v@.len() == 0),
        r matches Some(x) ==> v@.contains(x),
{
    rand::seq::SliceRandom::choose(v.as_slice(), rng).copied()
}

} // verus!
