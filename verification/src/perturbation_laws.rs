//! How perturbing changes costs, cell by cell.

use crate::distance::BIG;
use crate::perturbation::{
    count_usable, nudge_costs, perturb_costs, small_steps, usable_before,
};
use vstd::prelude::*;

verus! {

/// The cells before `k` that can be used.
pub open spec fn usable_cells(costs: Seq<u32>, k: int) -> Set<int> {
    Set::new(|m: int| 0 <= m < k && costs[m] < BIG)
}

proof fn lemma_usable_before(costs: Seq<u32>, n: nat)
    ensures
        usable_cells(costs, n as int).finite(),
        usable_before(costs, n) == usable_cells(costs, n as int).len(),
    decreases n,
{
    let all = usable_cells(costs, n as int);
    if n == 0 {
        assert(all =~= Set::empty());
    } else {
        lemma_usable_before(costs, (n - 1) as nat);
        let before = usable_cells(costs, n - 1);
        if costs[n - 1] < BIG {
            assert(all =~= before.insert(n - 1));
        } else {
            assert(all =~= before);
        }
    }
}

/// Usable cells are those below the cost that marks the others.
pub proof fn lemma_count_usable(costs: &[u32], n: usize)
    requires
        call_ensures(count_usable, (costs,), n),
    ensures
        n == usable_cells(costs@, costs@.len() as int).len(),
{
    lemma_usable_before(costs@, costs@.len());
}

/// A cell that can be used changes by the step that belongs to it: the first such
/// cell by the first step, and so on. No cost becomes negative, and all other cells
/// stay as they are.
pub proof fn lemma_nudge_costs(costs: &mut Vec<u32>, steps: &[i32], k: int)
    requires
        small_steps(steps@),
        call_ensures(nudge_costs, (costs, steps), ()),
        0 <= k < old(costs)@.len(),
    ensures
        final(costs)@.len() == old(costs)@.len(),
        ({
            let (before, after) = (old(costs)@[k] as int, final(costs)@[k] as int);
            let rank = usable_cells(old(costs)@, k).len();
            if before < BIG && rank < steps@.len() {
                let step = steps@[rank as int];
                after == if before + step < 0 {
                    0
                } else {
                    before + step
                }
            } else {
                after == before
            }
        }),
{
    lemma_usable_before(old(costs)@, k as nat);
}

/// Seed 0 leaves costs alone; any other seed changes each cell that can be used by
/// one at most, with one step for each of them.
pub proof fn lemma_perturb_costs(costs: &mut Vec<u32>, seed: u64, steps: Vec<i32>, k: int)
    requires
        call_ensures(perturb_costs, (costs, seed), steps),
        0 <= k < old(costs)@.len(),
    ensures
        final(costs)@.len() == old(costs)@.len(),
        seed == 0 ==> final(costs)@[k] == old(costs)@[k],
        old(costs)@[k] >= BIG ==> final(costs)@[k] == old(costs)@[k],
        final(costs)@[k] <= old(costs)@[k] + 1,
        old(costs)@[k] <= final(costs)@[k] + 1,
        seed != 0 ==> steps@.len() == usable_cells(
            old(costs)@,
            old(costs)@.len() as int,
        ).len(),
{
    lemma_usable_before(old(costs)@, old(costs)@.len());
}

} // verus!
