//! The two samplers: weighted stochastic universal sampling and its
//! equally-weighted counterpart.

use vstd::prelude::*;
use vstd::arithmetic::div_mod::{lemma_fundamental_div_mod, lemma_fundamental_div_mod_converse};
use vstd::arithmetic::mul::{
    lemma_mul_inequality, lemma_mul_nonnegative, lemma_mul_strict_inequality,
    lemma_mul_upper_bound,
};
use crate::comb::{hits, hits_below, lemma_hits_bound};
use crate::rand_source::{draw_below, sample_distinct, shuffle_in_place};
use crate::{
    even_share_ceil, even_share_floor, lemma_prefix_sum_monotone, prefix_sum, share_ceil,
    share_floor, total_weight, SampleError,
};

verus! {

broadcast use vstd::multiset::group_multiset_axioms, vstd::seq_lib::group_to_multiset_ensures;

/// Select `amount` indices from `0..items` at random, with repetition, in
/// random order, giving every index an equal likelihood.
///
/// Every index is selected either `⌊amount / items⌋` or `⌈amount / items⌉`
/// times: full rounds over all the indices are forced, and only the
/// remainder is drawn at random, without replacement.
///
/// An empty request and a failure both come before any random draw, so on
/// those paths the generator is left untouched.
pub fn choose_multiple(rng: &mut rand::rngs::ThreadRng, amount: usize, items: usize) -> (r: Result<
    Vec<usize>,
    SampleError,
>)
    ensures
        r is Ok <==> (amount == 0 || items > 0),
        r is Err ==> r == Err::<Vec<usize>, SampleError>(SampleError::EmptyInput),
        r matches Ok(v) ==> v@.len() == amount && (forall|i: int|
            0 <= i < v@.len() ==> v@[i] < items),
        r matches Ok(v) ==> items > 0 ==> (forall|x: usize|
            x < items ==> even_share_floor(amount as int, items as int) <= #[trigger] v@
                .to_multiset()
                .count(x) <= even_share_ceil(amount as int, items as int)),
        r matches Ok(v) ==> (forall|x: usize|
            x >= items ==> #[trigger] v@.to_multiset().count(x) == 0),
        amount == 0 ==> *final(rng) == *old(rng),
        r is Err ==> *final(rng) == *old(rng),
{
    if amount == 0 {
        let empty: Vec<usize> = Vec::new();
        proof {
            if items > 0 {
                lemma_fundamental_div_mod_converse(0, items as int, 0, 0);
                lemma_fundamental_div_mod_converse(items - 1, items as int, 0, items - 1);
                assert forall|x: usize| x < items implies 0 <= #[trigger] empty@
                    .to_multiset()
                    .count(x) <= 0 by {
                    assert(empty@.to_multiset().len() == 0);
                }
            }
        }
        return Ok(empty);
    }
    if items == 0 {
        return Err(SampleError::EmptyInput);
    }
    let rounds: usize = amount / items;
    let extra: usize = amount % items;
    let mut picks: Vec<usize> = Vec::new();
    proof {
        assert(0int * items as int == 0) by (nonlinear_arith);
    }
    for round in 0..rounds
        invariant
            items > 0,
            picks@.len() == round * items,
            forall|i: int| 0 <= i < picks@.len() ==> picks@[i] < items,
            forall|x: usize| x < items ==> #[trigger] picks@.to_multiset().count(x) == round,
            forall|x: usize| x >= items ==> #[trigger] picks@.to_multiset().count(x) == 0,
    {
        let ghost base = picks@;
        for j in 0..items
            invariant
                items > 0,
                picks@.len() == base.len() + j,
                forall|i: int| 0 <= i < picks@.len() ==> picks@[i] < items,
                forall|x: usize|
                    x < j ==> #[trigger] picks@.to_multiset().count(x) == base.to_multiset().count(
                        x,
                    ) + 1,
                forall|x: usize|
                    x >= j ==> #[trigger] picks@.to_multiset().count(x) == base.to_multiset().count(
                        x,
                    ),
                forall|x: usize| x < items ==> #[trigger] base.to_multiset().count(x) == round,
                forall|x: usize| x >= items ==> #[trigger] base.to_multiset().count(x) == 0,
        {
            picks.push(j);
        }
        proof {
            assert((round + 1) * items == round * items + items) by (nonlinear_arith);
        }
    }
    if extra > 0 {
        let ex = sample_distinct(rng, items, extra);
        let ghost base = picks@;
        for k in 0..extra
            invariant
                items > 0,
                extra <= items,
                ex@.len() == extra,
                forall|i: int| 0 <= i < ex@.len() ==> ex@[i] < items,
                forall|i: int, j: int| 0 <= i < j < ex@.len() ==> ex@[i] != ex@[j],
                picks@.len() == base.len() + k,
                forall|i: int| 0 <= i < picks@.len() ==> picks@[i] < items,
                forall|x: usize|
                    x < items ==> #[trigger] picks@.to_multiset().count(x) == base.to_multiset()
                        .count(x) + (if ex@.take(k as int).contains(x) {
                        1int
                    } else {
                        0int
                    }),
                forall|x: usize| x >= items ==> #[trigger] picks@.to_multiset().count(x) == 0,
                forall|x: usize| x < items ==> #[trigger] base.to_multiset().count(x) == rounds,
        {
            let pick = ex[k];
            picks.push(pick);
            proof {
                assert(ex@.take(k + 1) =~= ex@.take(k as int).push(ex@[k as int]));
                assert(!ex@.take(k as int).contains(ex@[k as int])) by {
                    if ex@.take(k as int).contains(ex@[k as int]) {
                        let witness = choose|i: int|
                            0 <= i < ex@.take(k as int).len()
                                && ex@.take(k as int)[i] == ex@[k as int];
                        assert(ex@[witness] == ex@[k as int]);
                    }
                }
                assert forall|x: usize| x < items implies #[trigger] picks@.to_multiset().count(x)
                    == base.to_multiset().count(x) + (if ex@.take(k + 1).contains(x) {
                    1int
                } else {
                    0int
                }) by {
                    let ghost taken = ex@.take(k + 1);
                    assert(taken[k as int] == ex@[k as int]);
                    assert(taken.contains(ex@[k as int]));
                    if taken.contains(x) {
                        let i = choose|i: int| 0 <= i < taken.len() && taken[i] == x;
                        if i < k {
                            assert(ex@.take(k as int).contains(x));
                        }
                    }
                    if ex@.take(k as int).contains(x) {
                        let ghost prefix = ex@.take(k as int);
                        let i = choose|i: int| 0 <= i < prefix.len() && prefix[i] == x;
                        assert(taken[i] == x);
                        assert(taken.contains(x));
                    }
                }
            }
        }
    }
    proof {
        lemma_fundamental_div_mod(amount as int, items as int);
        assert(amount as int == items as int * (rounds as int) + extra as int);
        assert(items as int * (rounds as int) == rounds as int * (items as int)) by (
        nonlinear_arith);
        assert((rounds as int + 1) * (items as int) == rounds as int * items as int
            + items as int) by (nonlinear_arith);
        assert(picks@.len() == rounds as int * (items as int) + extra as int);
        if extra > 0 {
            assert(amount + items - 1 == (rounds as int + 1) * (items as int) + (extra as int
                - 1));
            lemma_fundamental_div_mod_converse(
                amount + items - 1,
                items as int,
                rounds as int + 1,
                extra as int - 1,
            );
        } else {
            lemma_fundamental_div_mod_converse(
                amount + items - 1,
                items as int,
                rounds as int,
                items as int - 1,
            );
        }
    }
    let ghost pre = picks@;
    shuffle_in_place(rng, &mut picks);
    proof {
        assert forall|i: int| 0 <= i < picks@.len() implies picks@[i] < items by {
            assert(picks@.contains(picks@[i]));
            assert(picks@.to_multiset().count(picks@[i]) > 0);
            assert(pre.to_multiset().count(picks@[i]) > 0);
        }
    }
    Ok(picks)
}

/// Running totals of the weights: entry `i` holds the weight accumulated
/// through candidate `i`. Answers `None` exactly when the total does not
/// fit in a `u64`.
fn cumulative(weights: &Vec<u64>) -> (r: Option<Vec<u64>>)
    ensures
        r is Some <==> total_weight(weights@) <= u64::MAX,
        r matches Some(c) ==> c@.len() == weights@.len() && (forall|j: int|
            0 <= j < c@.len() ==> c@[j] == prefix_sum(weights@, j + 1)),
{
    let n = weights.len();
    let mut cum: Vec<u64> = Vec::new();
    let mut sum: u64 = 0;
    for i in 0..n
        invariant
            n == weights@.len(),
            sum as int == prefix_sum(weights@, i as int),
            cum@.len() == i,
            forall|j: int| 0 <= j < i ==> cum@[j] == prefix_sum(weights@, j + 1),
    {
        let x = weights[i];
        if x > u64::MAX - sum {
            proof {
                lemma_prefix_sum_monotone(weights@, i + 1, weights@.len() as int);
            }
            return None;
        }
        sum = sum + x;
        cum.push(sum);
    }
    Some(cum)
}

/// Select `amount` indices from `0 .. weights.len()` at random, with
/// repetition, in random order, each index's likelihood proportional to its
/// weight.
///
/// One evenly spaced comb of `amount` arms is laid over the cumulative
/// weights at a single random offset, so every index is selected either
/// `⌊share⌋` or `⌈share⌉` times, where `share` is its ideal count
/// `weight * amount / total`. When every weight is zero the selection
/// degrades to the equally weighted sampler instead of dividing by the zero
/// total.
///
/// An empty request and a failure both come before any random draw, so on
/// those paths the generator is left untouched.
pub fn choose_multiple_weighted(
    rng: &mut rand::rngs::ThreadRng,
    amount: usize,
    weights: &Vec<u64>,
) -> (r: Result<Vec<usize>, SampleError>)
    ensures
        r is Ok <==> (amount == 0 || (weights@.len() > 0 && total_weight(weights@)
            <= u64::MAX)),
        amount > 0 && weights@.len() == 0 ==> r == Err::<Vec<usize>, SampleError>(
            SampleError::EmptyInput,
        ),
        amount > 0 && weights@.len() > 0 && total_weight(weights@) > u64::MAX ==> r == Err::<
            Vec<usize>,
            SampleError,
        >(SampleError::TotalOverflow),
        r matches Ok(v) ==> v@.len() == amount && (forall|i: int|
            0 <= i < v@.len() ==> v@[i] < weights@.len()),
        r matches Ok(v) ==> total_weight(weights@) > 0 ==> (forall|x: usize|
            x < weights@.len() ==> share_floor(weights@, amount as int, x as int) <= #[trigger] v@
                .to_multiset()
                .count(x) <= share_ceil(weights@, amount as int, x as int)),
        r matches Ok(v) ==> (total_weight(weights@) == 0 && weights@.len() > 0) ==> (
        forall|x: usize|
            x < weights@.len() ==> even_share_floor(amount as int, weights@.len() as int)
                <= #[trigger] v@.to_multiset().count(x) <= even_share_ceil(
                amount as int,
                weights@.len() as int,
            )),
        r matches Ok(v) ==> (forall|x: usize|
            x >= weights@.len() ==> #[trigger] v@.to_multiset().count(x) == 0),
        amount == 0 ==> *final(rng) == *old(rng),
        r is Err ==> *final(rng) == *old(rng),
{
    let ghost gw = weights@;
    if amount == 0 {
        let empty: Vec<usize> = Vec::new();
        proof {
            let tw = total_weight(gw);
            assert(empty@.to_multiset().len() == 0);
            if tw > 0 {
                assert forall|x: usize| x < gw.len() implies share_floor(gw, 0, x as int)
                    <= #[trigger] empty@.to_multiset().count(x) <= share_ceil(
                    gw,
                    0,
                    x as int,
                ) by {
                    assert(gw[x as int] * 0 == 0) by (nonlinear_arith);
                    lemma_fundamental_div_mod_converse(0, tw, 0, 0);
                    lemma_fundamental_div_mod_converse(tw - 1, tw, 0, tw - 1);
                }
            }
            if tw == 0 && gw.len() > 0 {
                let items = gw.len() as int;
                lemma_fundamental_div_mod_converse(0, items, 0, 0);
                lemma_fundamental_div_mod_converse(items - 1, items, 0, items - 1);
                assert forall|x: usize| x < gw.len() implies even_share_floor(0, items)
                    <= #[trigger] empty@.to_multiset().count(x) <= even_share_ceil(0, items) by {}
            }
        }
        return Ok(empty);
    }
    if weights.len() == 0 {
        return Err(SampleError::EmptyInput);
    }
    let cum = match cumulative(weights) {
        None => {
            return Err(SampleError::TotalOverflow);
        },
        Some(c) => c,
    };
    let n = weights.len();
    let total = cum[n - 1];
    if total == 0 {
        return choose_multiple(rng, amount, n);
    }
    let t = draw_below(rng, total) + 1;
    let mut samples: Vec<usize> = Vec::new();
    let mut idx: usize = 0;
    for arm in 0..amount
        invariant
            n == gw.len(),
            n >= 1,
            amount >= 1,
            total as int == total_weight(gw),
            total > 0,
            1 <= t <= total,
            cum@.len() == n,
            forall|j: int| 0 <= j < n ==> cum@[j] == prefix_sum(gw, j + 1),
            idx < n,
            idx == 0 || prefix_sum(gw, idx as int) * (amount as int) < arm as int * total_weight(
                gw,
            ) + t as int,
            samples@.len() == arm,
            forall|i: int| 0 <= i < samples@.len() ==> samples@[i] < n,
            forall|x: usize|
                x < n ==> #[trigger] samples@.to_multiset().count(x) == hits_below(
                    gw,
                    amount as int,
                    t as int,
                    arm as int,
                    x as int,
                ),
            forall|x: usize| x >= n ==> #[trigger] samples@.to_multiset().count(x) == 0,
    {
        proof {
            lemma_mul_upper_bound(arm as int, u64::MAX as int, total as int, u64::MAX as int);
            lemma_mul_nonnegative(arm as int, total as int);
            assert(arm as int * (total as int) + t as int <= (total as int) * (amount as int)) by (
            nonlinear_arith)
                requires
                    (arm as int) < (amount as int),
                    1 <= t as int <= total as int,
            ;
        }
        let p: u128 = (arm as u128) * (total as u128) + (t as u128);
        loop
            invariant
                n == gw.len(),
                amount >= 1,
                cum@.len() == n,
                forall|j: int| 0 <= j < n ==> cum@[j] == prefix_sum(gw, j + 1),
                idx < n,
                p as int <= prefix_sum(gw, n as int) * (amount as int),
                idx == 0 || prefix_sum(gw, idx as int) * (amount as int) < p as int,
            ensures
                idx < n,
                idx == 0 || prefix_sum(gw, idx as int) * (amount as int) < p as int,
                p as int <= prefix_sum(gw, idx + 1) * (amount as int),
            decreases n - idx,
        {
            let c = cum[idx];
            proof {
                lemma_mul_upper_bound(c as int, u64::MAX as int, amount as int, u64::MAX as int);
            }
            if !((c as u128) * (amount as u128) < p) {
                break;
            }
            proof {
                if idx + 1 == n {
                    assert(false);
                }
            }
            idx = idx + 1;
        }
        samples.push(idx);
        proof {
            let ga = amount as int;
            let gt = t as int;
            let ka = arm as int;
            assert(prefix_sum(gw, 0int) * ga == 0) by (nonlinear_arith)
                requires
                    prefix_sum(gw, 0int) == 0,
            ;
            assert(hits(gw, ga, gt, ka, idx as int));
            assert forall|x: usize| x < n implies #[trigger] samples@.to_multiset().count(x)
                == hits_below(gw, ga, gt, ka + 1, x as int) by {
                if x != idx {
                    if (x as int) < idx as int {
                        lemma_prefix_sum_monotone(gw, x as int + 1, idx as int);
                        lemma_mul_inequality(
                            prefix_sum(gw, x as int + 1),
                            prefix_sum(gw, idx as int),
                            ga,
                        );
                    } else {
                        lemma_prefix_sum_monotone(gw, idx as int + 1, x as int);
                        lemma_mul_inequality(
                            prefix_sum(gw, idx as int + 1),
                            prefix_sum(gw, x as int),
                            ga,
                        );
                    }
                    assert(!hits(gw, ga, gt, ka, x as int));
                }
            }
            lemma_mul_strict_inequality(ka, ka + 1, total_weight(gw));
        }
    }
    proof {
        assert forall|x: usize| x < n implies share_floor(gw, amount as int, x as int)
            <= #[trigger] samples@.to_multiset().count(x) <= share_ceil(
            gw,
            amount as int,
            x as int,
        ) by {
            lemma_hits_bound(gw, amount as int, t as int, x as int);
        }
    }
    let ghost pre = samples@;
    shuffle_in_place(rng, &mut samples);
    proof {
        assert forall|i: int| 0 <= i < samples@.len() implies samples@[i] < n by {
            assert(samples@.contains(samples@[i]));
            assert(samples@.to_multiset().count(samples@[i]) > 0);
            assert(pre.to_multiset().count(samples@[i]) > 0);
        }
    }
    Ok(samples)
}

} // verus!
