//! The comb of selection positions that stochastic universal sampling lays
//! over the cumulative weights.
//!
//! With total weight `T`, `amount` arms and a random offset `t` drawn from
//! `1 ..= T`, arm `k` stands at `(k * T + t) / amount` on the cumulative
//! scale. Everything here works with positions scaled by `amount`, so that
//! all arithmetic stays in the integers: arm `k`'s scaled position is
//! `k * T + t`, and candidate `i` owns the half-open window of scaled
//! positions past `prefix_sum(i) * amount` and up to
//! `prefix_sum(i + 1) * amount`. The main result, [`lemma_hits_bound`],
//! shows that the number of arms falling to a candidate never strays from
//! its ideal share `w[i] * amount / T` by as much as one whole arm.

use vstd::prelude::*;
use vstd::arithmetic::div_mod::{
    lemma_fundamental_div_mod, lemma_fundamental_div_mod_converse, lemma_div_is_ordered,
    lemma_div_pos_is_pos,
};
use vstd::arithmetic::mul::{lemma_mul_inequality, lemma_mul_nonnegative};
use crate::{lemma_prefix_sum_monotone, prefix_sum, share_ceil, share_floor, total_weight};

verus! {

/// Scaled position of arm `k` of the comb.
pub open spec fn arm_position(w: Seq<u64>, t: int, k: int) -> int {
    k * total_weight(w) + t
}

/// Arm `k` falls to candidate `i` when its scaled position lies past the
/// weight accumulated before `i` but not past the weight accumulated
/// through `i`.
pub open spec fn hits(w: Seq<u64>, amount: int, t: int, k: int, i: int) -> bool {
    prefix_sum(w, i) * amount < arm_position(w, t, k) <= prefix_sum(w, i + 1) * amount
}

/// How many of the arms `0 .. k` fall to candidate `i`.
pub open spec fn hits_below(w: Seq<u64>, amount: int, t: int, k: int, i: int) -> int
    decreases k,
{
    if k <= 0 {
        0
    } else {
        hits_below(w, amount, t, k - 1, i) + if hits(w, amount, t, k - 1, i) {
            1int
        } else {
            0int
        }
    }
}

/// Index of the last arm at or before scaled boundary `b`: arms step by the
/// total weight, so this is a floor division of the offset boundary.
pub open spec fn last_arm_at(w: Seq<u64>, t: int, b: int) -> int {
    (b - t) / total_weight(w)
}

/// For positive `t`, the multiples of `t` beyond `a` are exactly those past
/// `⌊a / t⌋` steps.
proof fn lemma_scale_threshold(t: int, a: int, k: int)
    requires
        t > 0,
    ensures
        k * t > a <==> k > a / t,
{
    lemma_fundamental_div_mod(a, t);
    let q = a / t;
    let r = a % t;
    assert(k * t > a ==> k > q) by (nonlinear_arith)
        requires
            a == t * q + r,
            0 <= r < t,
    ;
    assert(k > q ==> k * t > a) by (nonlinear_arith)
        requires
            a == t * q + r,
            0 <= r < t,
    ;
}

/// Arm `k` falls to candidate `i` exactly when `k` lies in the window of
/// arm indices between the candidate's two scaled boundaries.
proof fn lemma_hit_window(w: Seq<u64>, amount: int, t: int, k: int, i: int)
    requires
        total_weight(w) > 0,
    ensures
        hits(w, amount, t, k, i) <==> last_arm_at(w, t, prefix_sum(w, i) * amount) < k
            <= last_arm_at(w, t, prefix_sum(w, i + 1) * amount),
{
    let tw = total_weight(w);
    lemma_scale_threshold(tw, prefix_sum(w, i) * amount - t, k);
    lemma_scale_threshold(tw, prefix_sum(w, i + 1) * amount - t, k);
}

/// Closed form for the number of arms `0 .. k` that fall to candidate `i`:
/// none until the window opens, one per arm across the window, and a
/// constant once the window has closed.
proof fn lemma_hits_below_closed(w: Seq<u64>, amount: int, t: int, k: int, i: int)
    requires
        total_weight(w) > 0,
        1 <= t <= total_weight(w),
        amount >= 0,
        0 <= i,
        0 <= k,
    ensures
        ({
            let lo = last_arm_at(w, t, prefix_sum(w, i) * amount);
            let hi = last_arm_at(w, t, prefix_sum(w, i + 1) * amount);
            -1 <= lo <= hi && hits_below(w, amount, t, k, i) == if k <= lo + 1 {
                0int
            } else if k <= hi + 1 {
                k - 1 - lo
            } else {
                hi - lo
            }
        }),
    decreases k,
{
    let tw = total_weight(w);
    let lo = last_arm_at(w, t, prefix_sum(w, i) * amount);
    let hi = last_arm_at(w, t, prefix_sum(w, i + 1) * amount);
    lemma_prefix_sum_monotone(w, 0, i);
    lemma_mul_nonnegative(prefix_sum(w, i), amount);
    lemma_div_is_ordered(-tw, prefix_sum(w, i) * amount - t, tw);
    lemma_fundamental_div_mod_converse(-tw, tw, -1, 0);
    lemma_prefix_sum_monotone(w, i, i + 1);
    lemma_mul_inequality(prefix_sum(w, i), prefix_sum(w, i + 1), amount);
    lemma_div_is_ordered(prefix_sum(w, i) * amount - t, prefix_sum(w, i + 1) * amount - t, tw);
    if k > 0 {
        lemma_hits_below_closed(w, amount, t, k - 1, i);
        lemma_hit_window(w, amount, t, k - 1, i);
    }
}

/// A window of width `d` contains either `⌊d / t⌋` or `⌈d / t⌉` of the
/// points spaced `t` apart, whichever way the points are offset against it.
proof fn lemma_div_window(t: int, a: int, d: int)
    requires
        t > 0,
        d >= 0,
    ensures
        (a + d) / t - a / t >= d / t,
        (a + d) / t - a / t <= (d + t - 1) / t,
{
    lemma_fundamental_div_mod(a, t);
    lemma_fundamental_div_mod(d, t);
    let q1 = a / t;
    let r1 = a % t;
    let q3 = d / t;
    let r3 = d % t;
    if r1 + r3 < t {
        assert(a + d == (q1 + q3) * t + (r1 + r3)) by (nonlinear_arith)
            requires
                a == t * q1 + r1,
                d == t * q3 + r3,
        ;
        lemma_fundamental_div_mod_converse(a + d, t, q1 + q3, r1 + r3);
        lemma_div_is_ordered(d, d + t - 1, t);
    } else {
        assert(a + d == (q1 + q3 + 1) * t + (r1 + r3 - t)) by (nonlinear_arith)
            requires
                a == t * q1 + r1,
                d == t * q3 + r3,
        ;
        lemma_fundamental_div_mod_converse(a + d, t, q1 + q3 + 1, r1 + r3 - t);
        assert(d + t - 1 == (q3 + 1) * t + (r3 - 1)) by (nonlinear_arith)
            requires
                d == t * q3 + r3,
        ;
        lemma_fundamental_div_mod_converse(d + t - 1, t, q3 + 1, r3 - 1);
    }
}

/// Across all `amount` arms, candidate `i` is hit no fewer times than its
/// ideal share rounded down and no more times than its ideal share rounded
/// up.
pub proof fn lemma_hits_bound(w: Seq<u64>, amount: int, t: int, i: int)
    requires
        total_weight(w) > 0,
        1 <= t <= total_weight(w),
        amount >= 1,
        0 <= i < w.len(),
    ensures
        share_floor(w, amount, i) <= hits_below(w, amount, t, amount, i),
        hits_below(w, amount, t, amount, i) <= share_ceil(w, amount, i),
{
    let tw = total_weight(w);
    let lo = last_arm_at(w, t, prefix_sum(w, i) * amount);
    let hi = last_arm_at(w, t, prefix_sum(w, i + 1) * amount);
    lemma_hits_below_closed(w, amount, t, amount, i);
    lemma_prefix_sum_monotone(w, i + 1, w.len() as int);
    lemma_mul_inequality(prefix_sum(w, i + 1), tw, amount);
    lemma_div_is_ordered(prefix_sum(w, i + 1) * amount - t, tw * amount - 1, tw);
    assert(tw * amount - 1 == (amount - 1) * tw + (tw - 1)) by (nonlinear_arith);
    lemma_fundamental_div_mod_converse(tw * amount - 1, tw, amount - 1, tw - 1);
    assert(prefix_sum(w, i + 1) == prefix_sum(w, i) + w[i]);
    assert(prefix_sum(w, i + 1) * amount == prefix_sum(w, i) * amount + w[i] * amount) by (
    nonlinear_arith)
        requires
            prefix_sum(w, i + 1) == prefix_sum(w, i) + w[i],
    ;
    lemma_mul_nonnegative(w[i] as int, amount);
    lemma_div_window(tw, prefix_sum(w, i) * amount - t, w[i] * amount);
    lemma_div_pos_is_pos(w[i] * amount, tw);
    lemma_div_pos_is_pos(w[i] * amount + tw - 1, tw);
}

} // verus!
