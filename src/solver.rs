//! The integer parts of discounted CFR: the inputs of the discount coefficients and the
//! weights of regret matching on 16-bit regrets.

use vstd::prelude::*;

verus! {

/// Four to the power `k`.
pub open spec fn pow4(k: nat) -> int
    decreases k,
{
    if k == 0 {
        1
    } else {
        4 * pow4((k - 1) as nat)
    }
}

/// Whether `p` is the largest power of four not above `t` (taken as `0` when `t` is `0`).
pub open spec fn is_lower_power_of_4(t: int, p: int) -> bool {
    if t == 0 {
        p == 0
    } else {
        exists|k: nat| p == pow4(k) && p <= t < 4 * p
    }
}

/// The integer inputs of the discount coefficients of iteration `t`: `tau = max(t - 1, 0)`,
/// from which `alpha_t = tau * sqrt(tau) / (tau * sqrt(tau) + 1)`, and `t - p` for the largest
/// power of four `p` not above `t`, from which `gamma_t = ((t - p) / (t - p + 1))^3`.
pub fn discount_terms(current_iteration: u32) -> (r: (u32, u32))
    ensures
        r.0 == if current_iteration == 0 { 0 } else { current_iteration - 1 },
        exists|p: int| is_lower_power_of_4(current_iteration as int, p) && r.1 == current_iteration - p,
{
    let t_alpha: u32 = if current_iteration == 0 { 0 } else { current_iteration - 1 };
    if current_iteration == 0 {
        proof {
            assert(is_lower_power_of_4(0, 0));
        }
        return (t_alpha, 0);
    }
    let mut p: u32 = 1;
    let ghost mut k: nat = 0;
    while p <= current_iteration / 4
        invariant
            1 <= p <= current_iteration,
            p == pow4(k),
        decreases current_iteration - p,
    {
        p = p * 4;
        proof {
            k = k + 1;
        }
    }
    proof {
        assert(is_lower_power_of_4(current_iteration as int, p as int));
    }
    (t_alpha, current_iteration - p)
}

/// The sum of `row_size`-strided entries of `regret` starting at `h`, counting only positive ones,
/// over the first `a` actions.
pub open spec fn positive_sum(regret: Seq<i16>, row_size: int, h: int, a: int) -> int
    decreases a,
{
    if a <= 0 {
        0
    } else {
        positive_sum(regret, row_size, h, a - 1) + positive_part(regret[(a - 1) * row_size + h] as int)
    }
}

/// `x` if it is positive, else `0`.
pub open spec fn positive_part(x: int) -> int {
    if x > 0 {
        x
    } else {
        0
    }
}

/// Regret matching on a node's 16-bit regrets, laid out as `num_actions` rows of one entry per
/// hand: each regret clipped below at zero, and for each hand the total of its clipped regrets.
/// The strategy plays action `a` with hand `h` at `weights[a * n + h] / totals[h]`, or at
/// `1 / num_actions` when `totals[h]` is zero.
pub fn regret_matching_weights(regret: &Vec<i16>, num_actions: usize) -> (r: (Vec<u16>, Vec<u32>))
    requires
        0 < num_actions <= 65536,
        (regret@.len() as int) % (num_actions as int) == 0,
    ensures
        r.0@.len() == regret@.len(),
        forall|i: int| 0 <= i < regret@.len() ==> #[trigger] r.0@[i] == positive_part(regret@[i] as int),
        r.1@.len() == (regret@.len() as int) / (num_actions as int),
        forall|h: int|
            0 <= h < r.1@.len() ==> #[trigger] r.1@[h] == positive_sum(
                regret@,
                (regret@.len() as int) / (num_actions as int),
                h,
                num_actions as int,
            ),
{
    let row_size = regret.len() / num_actions;
    let ghost n = num_actions as int;
    let ghost rs = row_size as int;
    proof {
        assert(regret@.len() as int == n * rs) by (nonlinear_arith)
            requires
                (regret@.len() as int) % n == 0,
                rs == (regret@.len() as int) / n,
                n > 0,
        ;
    }
    let mut weights: Vec<u16> = Vec::with_capacity(regret.len());
    let mut i: usize = 0;
    while i < regret.len()
        invariant
            i <= regret@.len(),
            weights@.len() == i,
            forall|j: int| 0 <= j < i ==> #[trigger] weights@[j] == positive_part(regret@[j] as int),
        decreases regret@.len() - i,
    {
        let x = regret[i];
        weights.push(if x > 0 { x as u16 } else { 0 });
        i += 1;
    }
    let mut totals: Vec<u32> = Vec::with_capacity(row_size);
    let mut h: usize = 0;
    while h < row_size
        invariant
            h <= row_size,
            totals@.len() == h,
            forall|k: int| 0 <= k < h ==> #[trigger] totals@[k] == 0,
        decreases row_size - h,
    {
        totals.push(0);
        h += 1;
    }
    let mut a: usize = 0;
    let mut base: usize = 0;
    while a < num_actions
        invariant
            a <= num_actions <= 65536,
            n == num_actions,
            rs == row_size,
            regret@.len() as int == n * rs,
            regret@.len() <= usize::MAX,
            weights@.len() == regret@.len(),
            forall|j: int| 0 <= j < regret@.len() ==> #[trigger] weights@[j] == positive_part(regret@[j] as int),
            base == a * rs,
            totals@.len() == rs,
            forall|k: int| 0 <= k < rs ==> #[trigger] totals@[k] == positive_sum(regret@, rs, k, a as int),
            forall|k: int| 0 <= k < rs ==> #[trigger] totals@[k] <= a * 32767,
        decreases num_actions - a,
    {
        proof {
            assert((a + 1) * rs <= n * rs) by (nonlinear_arith)
                requires
                    a < n,
                    rs >= 0,
            ;
            assert((a + 1) * rs == a * rs + rs) by (nonlinear_arith);
        }
        let mut k: usize = 0;
        while k < row_size
            invariant
                k <= row_size,
                a < num_actions <= 65536,
                rs == row_size,
                base + rs <= regret@.len(),
                regret@.len() <= usize::MAX,
                base == a * rs,
                weights@.len() == regret@.len(),
                forall|j: int| 0 <= j < regret@.len() ==> #[trigger] weights@[j] == positive_part(regret@[j] as int),
                totals@.len() == rs,
                forall|m: int| 0 <= m < k ==> #[trigger] totals@[m] == positive_sum(regret@, rs, m, a as int + 1),
                forall|m: int| k <= m < rs ==> #[trigger] totals@[m] == positive_sum(regret@, rs, m, a as int),
                forall|m: int| 0 <= m < k ==> #[trigger] totals@[m] <= (a + 1) * 32767,
                forall|m: int| k <= m < rs ==> #[trigger] totals@[m] <= a * 32767,
            decreases row_size - k,
        {
            proof {
                assert(weights@[base + k] == positive_part(regret@[base + k] as int));
            }
            let t = totals[k] + weights[base + k] as u32;
            totals.set(k, t);
            k += 1;
        }
        a += 1;
        base += row_size;
        proof {
            assert(base == a * rs) by (nonlinear_arith)
                requires
                    base == (a - 1) * rs + rs,
            ;
        }
    }
    (weights, totals)
}

/// Regret matching gives each hand a probability distribution over the actions. A hand's total
/// is the sum of its clipped regrets, none of them negative, so `weight / total` sums to one
/// over the actions when the total is positive; a zero total leaves every weight zero, and the
/// uniform strategy, which also sums to one, is played.
pub proof fn lemma_regret_matching_sums_to_one(regret: Seq<i16>, num_actions: int, h: int)
    requires
        num_actions > 0,
        (regret.len() as int) % num_actions == 0,
        0 <= h < (regret.len() as int) / num_actions,
    ensures
        forall|a: int|
            0 <= a < num_actions ==> #[trigger] positive_part(regret[a * ((regret.len() as int) / num_actions) + h] as int) >= 0,
        positive_sum(regret, (regret.len() as int) / num_actions, h, num_actions) >= 0,
        positive_sum(regret, (regret.len() as int) / num_actions, h, num_actions) == 0 ==> forall|a: int|
            0 <= a < num_actions ==> #[trigger] positive_part(
                regret[a * ((regret.len() as int) / num_actions) + h] as int,
            ) == 0,
{
    let rs = (regret.len() as int) / num_actions;
    lemma_zero_total(regret, rs, h, num_actions);
}

proof fn lemma_zero_total(regret: Seq<i16>, row_size: int, h: int, n: int)
    ensures
        positive_sum(regret, row_size, h, n) >= 0,
        positive_sum(regret, row_size, h, n) == 0 ==> forall|a: int|
            0 <= a < n ==> #[trigger] positive_part(regret[a * row_size + h] as int) == 0,
    decreases n,
{
    if n > 0 {
        lemma_zero_total(regret, row_size, h, n - 1);
    }
}

/// Whether exploitability is measured after iteration `t` (counted from zero) of a solve of
/// `max_num_iterations` iterations: after every tenth iteration, and after the last.
pub fn measures_exploitability(t: u32, max_num_iterations: u32) -> (r: bool)
    requires
        t < max_num_iterations,
    ensures
        r == ((t + 1) % 10 == 0 || t + 1 == max_num_iterations),
{
    (t + 1) % 10 == 0 || t + 1 == max_num_iterations
}

} // verus!
