//! Small random changes of a cost matrix, for restart diversity.

use crate::distance::BIG;
use rand::rngs::SmallRng;
use rand::{Rng, SeedableRng};
use vstd::prelude::*;

verus! {

/// A small pseudo-random number generator of the `rand` crate.
#[verifier::external_type_specification]
#[verifier::external_body]
pub struct ExSmallRng(SmallRng);

/// Calls `SmallRng::seed_from_u64`. Nothing is claimed of the generator: which
/// numbers it yields for a seed depends on the platform and on the version of
/// `rand`.
#[verifier::external_body]
fn seeded_rng(seed: u64) -> (rng: SmallRng) {
    SmallRng::seed_from_u64(seed)
}

/// Calls `Rng::random_range` with the inclusive range from `lo` to `hi`, which
/// must not be empty, and claims that the number drawn lies in it. Which number
/// it is depends on the state of the generator, and that depends on the
/// platform.
#[verifier::external_body]
fn draw_in_range(rng: &mut SmallRng, lo: i32, hi: i32) -> (x: i32)
    requires
        lo <= hi,
    ensures
        lo <= x <= hi,
{
    rng.random_range(lo..=hi)
}

/// Every step changes a cost by at most one.
pub open spec fn small_steps(steps: Seq<i32>) -> bool {
    forall|k: int| 0 <= k < steps.len() ==> -1 <= #[trigger] steps[k] <= 1
}

/// Draw `n` steps.
pub fn draw_steps(seed: u64, n: usize) -> (steps: Vec<i32>)
    ensures
        steps@.len() == n,
        small_steps(steps@),
{
    let mut rng = seeded_rng(seed);
    let mut steps: Vec<i32> = Vec::new();
    while steps.len() < n
        invariant
            steps@.len() <= n,
            small_steps(steps@),
        decreases n - steps.len(),
    {
        let step = draw_in_range(&mut rng, -1, 1);
        steps.push(step);
    }
    steps
}

/// How many of the first `n` cells can be used.
pub open spec fn usable_before(costs: Seq<u32>, n: nat) -> nat
    decreases n,
{
    if n == 0 {
        0
    } else {
        usable_before(costs, (n - 1) as nat) + if costs[n - 1] < BIG {
            1nat
        } else {
            0
        }
    }
}

/// A cost after a step; no cost gets negative.
pub open spec fn nudged_cost(cost: u32, step: i32) -> u32 {
    if cost + step < 0 {
        0
    } else {
        (cost + step) as u32
    }
}

/// The matrix with one step applied to each cell that can be used, in order, as
/// far as the steps go.
pub open spec fn nudged(costs: Seq<u32>, steps: Seq<i32>) -> Seq<u32> {
    Seq::new(
        costs.len(),
        |k: int|
            if costs[k] < BIG && usable_before(costs, k as nat) < steps.len() {
                nudged_cost(costs[k], steps[usable_before(costs, k as nat) as int])
            } else {
                costs[k]
            },
    )
}

/// The steps that belong to a seed: none for seed 0, else one small step for
/// each cell that can be used.
pub open spec fn steps_for(seed: u64, costs: Seq<u32>, steps: Seq<i32>) -> bool {
    if seed == 0 {
        steps.len() == 0
    } else {
        steps.len() == usable_before(costs, costs.len()) && small_steps(steps)
    }
}

/// Without steps nothing changes.
pub proof fn lemma_nudged_nothing(costs: Seq<u32>)
    ensures
        nudged(costs, Seq::empty()) == costs,
{
    assert(nudged(costs, Seq::empty()) =~= costs);
}

/// A step changes a cost by at most one, and makes no cell usable that was not.
pub proof fn lemma_nudged_close(costs: Seq<u32>, steps: Seq<i32>, k: int)
    requires
        0 <= k < costs.len(),
        small_steps(steps),
    ensures
        costs[k] >= BIG ==> nudged(costs, steps)[k] == costs[k],
        costs[k] - 1 <= nudged(costs, steps)[k] <= costs[k] + 1,
        nudged(costs, steps)[k] < BIG ==> costs[k] < BIG,
{
}


/// Count the cells that can be used.
pub fn count_usable(costs: &[u32]) -> (n: usize)
    ensures
        n == usable_before(costs@, costs@.len()),
{
    let mut n: usize = 0;
    let mut k: usize = 0;
    while k < costs.len()
        invariant
            n <= k <= costs@.len(),
            n == usable_before(costs@, k as nat),
        decreases costs.len() - k,
    {
        if costs[k] < BIG {
            n += 1;
        }
        k += 1;
    }
    n
}

/// Apply one step to each cell that can be used, in order, as far as the steps
/// go.
pub fn nudge_costs(costs: &mut Vec<u32>, steps: &[i32])
    requires
        small_steps(steps@),
    ensures
        final(costs)@ == nudged(old(costs)@, steps@),
{
    let ghost before = costs@;
    let ghost goal = nudged(costs@, steps@);
    let mut used: usize = 0;
    let mut k: usize = 0;
    while k < costs.len()
        invariant
            used <= k <= costs@.len(),
            costs@.len() == before.len(),
            before == old(costs)@,
            goal == nudged(before, steps@),
            small_steps(steps@),
            used == usable_before(before, k as nat),
            forall|i: int| 0 <= i < k ==> #[trigger] costs@[i] == goal[i],
            forall|i: int| k <= i < costs@.len() ==> #[trigger] costs@[i] == before[i],
        decreases costs.len() - k,
    {
        let cost = costs[k];
        if cost < BIG {
            if used < steps.len() {
                let moved: i64 = cost as i64 + steps[used] as i64;
                assert(-1 <= steps@[used as int] <= 1);
                if moved < 0 {
                    costs.set(k, 0);
                } else {
                    costs.set(k, moved as u32);
                }
            }
            used += 1;
        }
        k += 1;
    }
    assert(costs@ =~= goal);
}

/// Perturb a cost matrix: seed 0 leaves it alone, any other seed changes every
/// cell that can be used by at most one.
pub fn perturb_costs(costs: &mut Vec<u32>, seed: u64) -> (steps: Vec<i32>)
    ensures
        steps_for(seed, old(costs)@, steps@),
        small_steps(steps@),
        final(costs)@ == nudged(old(costs)@, steps@),
{
    let steps: Vec<i32> = if seed == 0 {
        Vec::new()
    } else {
        draw_steps(seed, count_usable(costs.as_slice()))
    };
    nudge_costs(costs, steps.as_slice());
    steps
}

} // verus!
