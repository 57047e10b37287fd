//! The random source: the thread-local generator of the `rand` crate.
//!
//! Nothing here is proved. Each item states what the `rand` crate documents
//! of one of its functions; the contracts hold for whatever numbers the
//! generator yields.

use rand::rngs::ThreadRng;
use rand::seq::SliceRandom;
use rand::Rng;
use vstd::prelude::*;

verus! {

/// `rand::rngs::ThreadRng`, a handle to the generator of the current thread.
/// Its state is hidden from the proofs.
#[verifier::external_type_specification]
#[verifier::external_body]
pub struct ExThreadRng(ThreadRng);

/// `rand::thread_rng`: hands out the generator of the current thread. No
/// claim is made about the handle.
pub assume_specification[ rand::thread_rng ]() -> (rng: ThreadRng)
;

/// `Rng::gen_range(0, bound)`: a number of the half-open range `0..bound`.
/// The call panics on an empty range, so `bound` must be positive.
#[verifier::external_body]
pub(crate) fn random_below(rng: &mut ThreadRng, bound: usize) -> (n: usize)
    requires
        bound > 0,
    ensures
        n < bound,
{
    rng.gen_range(0, bound)
}

/// `SliceRandom::choose` on a slice of digits: `None` for an empty slice,
/// else one of its elements.
#[verifier::external_body]
pub(crate) fn choose_digit(digits: &Vec<u8>, rng: &mut ThreadRng) -> (digit: Option<u8>)
    ensures
        digit is None <==> digits@.len() == 0,
        digit matches Some(d) ==> digits@.contains(d),
{
    digits.choose(rng).copied()
}

/// `SliceRandom::shuffle`: rearranges the elements in place. The slice holds
/// the same elements afterwards, each as often as before.
#[verifier::external_body]
pub(crate) fn shuffle(indices: &mut Vec<usize>, rng: &mut ThreadRng)
    ensures
        final(indices)@.to_multiset() == old(indices)@.to_multiset(),
{
    indices.shuffle(rng);
}

} // verus!
