//! Consequences of the samplers' contracts, stated on the share bounds that
//! those contracts promise.

use vstd::prelude::*;
use vstd::arithmetic::div_mod::{lemma_fundamental_div_mod, lemma_fundamental_div_mod_converse};
use crate::{even_share_ceil, even_share_floor, prefix_sum, share_ceil, share_floor, total_weight};

verus! {

broadcast use vstd::multiset::group_multiset_axioms;

/// Sum of a constant weight over a prefix.
proof fn lemma_prefix_sum_constant(w: Seq<u64>, c: u64, i: int)
    requires
        0 <= i <= w.len(),
        forall|j: int| 0 <= j < w.len() ==> w[j] == c,
    ensures
        prefix_sum(w, i) == c * i,
    decreases i,
{
    if i > 0 {
        lemma_prefix_sum_constant(w, c, i - 1);
        assert(c * i == c * (i - 1) + c) by (nonlinear_arith);
    } else {
        assert(c * 0 == 0) by (nonlinear_arith);
    }
}

/// Prefix sums when a single candidate `j` carries all the weight: nothing
/// accumulates before it, everything after it.
proof fn lemma_prefix_sum_single(w: Seq<u64>, j: int, k: int)
    requires
        0 <= j < w.len(),
        forall|m: int| 0 <= m < w.len() && m != j ==> w[m] == 0,
        0 <= k <= w.len(),
    ensures
        prefix_sum(w, k) == if k <= j {
            0int
        } else {
            w[j] as int
        },
    decreases k,
{
    if k > 0 {
        lemma_prefix_sum_single(w, j, k - 1);
    }
}

/// Equal weights, equal shares: when every candidate carries the same
/// positive weight, each candidate's weighted share bounds agree with the
/// equally weighted ones, so the guarantee of `choose_multiple_weighted`
/// coincides with that of `choose_multiple` for the same `amount` and
/// number of candidates.
pub proof fn lemma_equal_weights_even_shares(w: Seq<u64>, c: u64, amount: int, i: int)
    requires
        c > 0,
        w.len() > 0,
        forall|j: int| 0 <= j < w.len() ==> w[j] == c,
        amount >= 0,
        0 <= i < w.len(),
    ensures
        share_floor(w, amount, i) == even_share_floor(amount, w.len() as int),
        share_ceil(w, amount, i) == even_share_ceil(amount, w.len() as int),
{
    let n = w.len() as int;
    lemma_prefix_sum_constant(w, c, n);
    lemma_fundamental_div_mod(amount, n);
    let q = amount / n;
    let r = amount % n;
    assert(c * amount == (c * n) * q + c * r) by (nonlinear_arith)
        requires
            amount == n * q + r,
    ;
    assert(0 <= c * r < c * n) by (nonlinear_arith)
        requires
            0 <= r < n,
            c > 0,
    ;
    lemma_fundamental_div_mod_converse(c * amount, c * n, q, c * r);
    lemma_fundamental_div_mod(amount + n - 1, n);
    let q2 = (amount + n - 1) / n;
    let r2 = (amount + n - 1) % n;
    assert(c * amount + c * n - 1 == (c * n) * q2 + (c * r2 + c - 1)) by (nonlinear_arith)
        requires
            amount + n - 1 == n * q2 + r2,
    ;
    assert(0 <= c * r2 + c - 1 < c * n) by (nonlinear_arith)
        requires
            0 <= r2 < n,
            c > 0,
    ;
    lemma_fundamental_div_mod_converse(c * amount + c * n - 1, c * n, q2, c * r2 + c - 1);
}

/// One dominant candidate: when exactly one candidate carries positive
/// weight, its share bounds pin all `amount` selections on it and none on
/// any other candidate.
pub proof fn lemma_single_positive_weight(w: Seq<u64>, j: int, amount: int, i: int)
    requires
        0 <= j < w.len(),
        w[j] > 0,
        forall|k: int| 0 <= k < w.len() && k != j ==> w[k] == 0,
        amount >= 0,
        0 <= i < w.len(),
    ensures
        total_weight(w) == w[j],
        i == j ==> share_floor(w, amount, i) == amount && share_ceil(w, amount, i) == amount,
        i != j ==> share_floor(w, amount, i) == 0 && share_ceil(w, amount, i) == 0,
{
    let tw = w[j] as int;
    lemma_prefix_sum_single(w, j, w.len() as int);
    if i == j {
        assert(w[i] * amount == amount * tw + 0) by (nonlinear_arith)
            requires
                w[i] as int == tw,
        ;
        lemma_fundamental_div_mod_converse(w[i] * amount, tw, amount, 0);
        assert(w[i] * amount + tw - 1 == amount * tw + (tw - 1)) by (nonlinear_arith)
            requires
                w[i] as int == tw,
        ;
        lemma_fundamental_div_mod_converse(w[i] * amount + tw - 1, tw, amount, tw - 1);
    } else {
        assert(w[i] * amount == 0) by (nonlinear_arith)
            requires
                w[i] == 0,
        ;
        lemma_fundamental_div_mod_converse(0, tw, 0, 0);
        lemma_fundamental_div_mod_converse(tw - 1, tw, 0, tw - 1);
    }
}

/// No weight, no selections: as long as the total weight is positive, a
/// candidate with zero weight has share bounds of zero, so the sampler
/// never selects it.
pub proof fn lemma_zero_weight_never_selected(w: Seq<u64>, amount: int, i: int)
    requires
        total_weight(w) > 0,
        0 <= i < w.len(),
        w[i] == 0,
        amount >= 0,
    ensures
        share_floor(w, amount, i) == 0,
        share_ceil(w, amount, i) == 0,
{
    let tw = total_weight(w);
    assert(w[i] * amount == 0) by (nonlinear_arith)
        requires
            w[i] == 0,
    ;
    lemma_fundamental_div_mod_converse(0, tw, 0, 0);
    lemma_fundamental_div_mod_converse(tw - 1, tw, 0, tw - 1);
}

/// Exact shares: when a candidate's ideal share of the selections is a
/// whole number, its floor and ceiling agree, so the sampler's guarantee
/// pins that candidate's selection count exactly.
pub proof fn lemma_whole_share_exact(w: Seq<u64>, amount: int, i: int)
    requires
        total_weight(w) > 0,
        0 <= i < w.len(),
        amount >= 0,
        (w[i] * amount) % total_weight(w) == 0,
    ensures
        share_ceil(w, amount, i) == share_floor(w, amount, i),
{
    let tw = total_weight(w);
    let d = w[i] * amount;
    lemma_fundamental_div_mod(d, tw);
    assert(d + tw - 1 == (d / tw) * tw + (tw - 1)) by (nonlinear_arith)
        requires
            d == tw * (d / tw) + 0,
    ;
    lemma_fundamental_div_mod_converse(d + tw - 1, tw, d / tw, tw - 1);
}

/// Order is randomized, content is stable: whenever every candidate's
/// ideal share of the selections is whole, any two selections that meet the
/// weighted sampler's guarantee carry the same multiset of indices — the
/// calls can differ only in the order of their output.
pub proof fn lemma_whole_shares_pin_content(w: Seq<u64>, amount: int, v1: Seq<usize>, v2: Seq<
    usize,
>)
    requires
        total_weight(w) > 0,
        amount >= 0,
        forall|i: int| 0 <= i < w.len() ==> (#[trigger] (w[i] * amount)) % total_weight(w) == 0,
        forall|x: usize|
            x < w.len() ==> share_floor(w, amount, x as int) <= #[trigger] v1.to_multiset().count(x)
                <= share_ceil(w, amount, x as int),
        forall|x: usize|
            x < w.len() ==> share_floor(w, amount, x as int) <= #[trigger] v2.to_multiset().count(x)
                <= share_ceil(w, amount, x as int),
        forall|x: usize| x >= w.len() ==> #[trigger] v1.to_multiset().count(x) == 0,
        forall|x: usize| x >= w.len() ==> #[trigger] v2.to_multiset().count(x) == 0,
    ensures
        v1.to_multiset() =~= v2.to_multiset(),
{
    assert forall|x: usize| #[trigger] v1.to_multiset().count(x) == v2.to_multiset().count(x) by {
        if x < w.len() {
            lemma_whole_share_exact(w, amount, x as int);
        }
    }
}

} // verus!
