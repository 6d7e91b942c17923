//! Stochastic universal sampling.
//!
//! Given `n` candidates carrying non-negative integer weights, select
//! `amount` indices at random, with repetition, such that each index's
//! selection count stays within one of its ideal weight-proportional share,
//! and return the selections in random order.

use vstd::prelude::*;

mod comb;
mod laws;
mod rand_source;
mod sampler;

pub use laws::{
    lemma_equal_weights_even_shares, lemma_single_positive_weight, lemma_whole_share_exact,
    lemma_whole_shares_pin_content, lemma_zero_weight_never_selected,
};

pub use sampler::choose_multiple;
pub use sampler::choose_multiple_weighted;

verus! {

/// Why a sampling request could not be served.
#[derive(Clone, Copy, Debug, PartialEq, Eq, Structural)]
pub enum SampleError {
    /// A positive number of selections was requested from an empty candidate set.
    EmptyInput,
    /// The weights sum past the largest representable total.
    TotalOverflow,
}

/// Sum of the first `i` weights.
pub open spec fn prefix_sum(w: Seq<u64>, i: int) -> int
    decreases i,
{
    if i <= 0 {
        0
    } else {
        prefix_sum(w, i - 1) + w[i - 1]
    }
}

/// Sum of all weights.
pub open spec fn total_weight(w: Seq<u64>) -> int {
    prefix_sum(w, w.len() as int)
}

/// Fewest selections owed to any one of `items` equally weighted candidates
/// when `amount` selections are made.
pub open spec fn even_share_floor(amount: int, items: int) -> int {
    amount / items
}

/// Most selections owed to any one of `items` equally weighted candidates
/// when `amount` selections are made.
pub open spec fn even_share_ceil(amount: int, items: int) -> int {
    (amount + items - 1) / items
}

/// Candidate `i`'s ideal share of `amount` selections, `w[i] * amount /
/// total`, rounded down.
pub open spec fn share_floor(w: Seq<u64>, amount: int, i: int) -> int {
    (w[i] * amount) / total_weight(w)
}

/// Candidate `i`'s ideal share of `amount` selections, `w[i] * amount /
/// total`, rounded up.
pub open spec fn share_ceil(w: Seq<u64>, amount: int, i: int) -> int {
    (w[i] * amount + total_weight(w) - 1) / total_weight(w)
}

/// Prefix sums never decrease as the prefix grows.
pub proof fn lemma_prefix_sum_monotone(w: Seq<u64>, i: int, j: int)
    requires
        0 <= i <= j,
    ensures
        prefix_sum(w, i) <= prefix_sum(w, j),
    decreases j,
{
    if i < j {
        lemma_prefix_sum_monotone(w, i, j - 1);
    }
}

} // verus!
