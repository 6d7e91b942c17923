//! The boundary to the `rand` crate.
//!
//! Every random choice the samplers make goes through one of the functions
//! here. Their contracts state only what `rand` documents of every outcome:
//! nothing about which value comes back, since that depends on the generator's
//! state.

use vstd::prelude::*;

verus! {

/// The thread-local random number generator of the `rand` crate, carried
/// through the samplers as an opaque handle.
#[verifier::external_type_specification]
#[verifier::external_body]
pub struct ExThreadRng(rand::rngs::ThreadRng);

/// Relies on `rand::Rng::gen_range` over `0..bound`: the result is a value
/// of that range, and the call panics only on an empty range.
#[verifier::external_body]
pub(crate) fn draw_below(rng: &mut rand::rngs::ThreadRng, bound: u64) -> (r: u64)
    requires
        bound > 0,
    ensures
        r < bound,
{
    rand::Rng::gen_range(rng, 0..bound)
}

/// Relies on `rand::seq::SliceRandom::shuffle`: it permutes the slice in
/// place, so the elements afterwards are the elements before, rearranged.
#[verifier::external_body]
pub(crate) fn shuffle_in_place(rng: &mut rand::rngs::ThreadRng, v: &mut Vec<usize>)
    ensures
        final(v)@.to_multiset() == old(v)@.to_multiset(),
        final(v)@.len() == old(v)@.len(),
{
    rand::seq::SliceRandom::shuffle(v.as_mut_slice(), rng);
}

/// Relies on `rand::seq::index::sample`: it returns exactly `k` distinct
/// indices drawn from `0..n`, and panics only when `k > n`.
#[verifier::external_body]
pub(crate) fn sample_distinct(rng: &mut rand::rngs::ThreadRng, n: usize, k: usize) -> (r: Vec<
    usize,
>)
    requires
        k <= n,
    ensures
        r@.len() == k,
        forall|i: int| 0 <= i < r@.len() ==> r@[i] < n,
        forall|i: int, j: int| 0 <= i < j < r@.len() ==> r@[i] != r@[j],
{
    rand::seq::index::sample(rng, n, k).into_vec()
}

} // verus!
