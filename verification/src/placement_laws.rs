//! Pairs are assigned as a whole: where one of their qubits gets a target, so
//! does the other one, and the two targets are an entangling placement.

use crate::arch::LocationAddr;
use crate::assignment::{
    pair_rows, placed_pairs_of, spectator_rows, spectator_rows_of, Layer, Staged,
};
use crate::costs::Row;
use crate::entangling::{is_placement, position_slots, PositionSlot};
use crate::goals::pair_qubits;
use crate::lookahead::{free_transition, target_map, Plan};
use crate::repair::{pair_moved, Repair};
use crate::rows::RowProblem;
use vstd::prelude::*;

verus! {

/// Two pairs have a qubit in common.
pub open spec fn share_qubit(p: (u32, u32), q: (u32, u32)) -> bool {
    p.0 == q.0 || p.0 == q.1 || p.1 == q.0 || p.1 == q.1
}

/// Every qubit is in at most one pair, and in that once.
pub open spec fn qubits_disjoint(pairs: Seq<(u32, u32)>) -> bool {
    &&& forall|i: int| 0 <= i < pairs.len() ==> (#[trigger] pairs[i]).0 != pairs[i].1
    &&& forall|i: int, j: int|
        0 <= i < pairs.len() && 0 <= j < pairs.len() && i != j ==> !share_qubit(
            #[trigger] pairs[i],
            #[trigger] pairs[j],
        )
}

/// Where one of two qubits has a target, so has the other one, and the two are
/// an entangling placement.
pub open spec fn placed_together(
    targets: Seq<(u32, u64)>,
    pair: (u32, u32),
    slots: Seq<PositionSlot>,
) -> bool {
    &&& forall|a: u64| #[trigger]
        targets.contains((pair.0, a)) ==> exists|b: u64| #[trigger]
            targets.contains((pair.1, b)) && is_placement(slots, a, b)
    &&& forall|b: u64| #[trigger]
        targets.contains((pair.1, b)) ==> exists|a: u64| #[trigger]
            targets.contains((pair.0, a)) && is_placement(slots, a, b)
}

/// Every pair is placed together, or not at all.
pub open spec fn on_placements(
    targets: Seq<(u32, u64)>,
    pairs: Seq<(u32, u32)>,
    slots: Seq<PositionSlot>,
) -> bool {
    forall|i: int| 0 <= i < pairs.len() ==> placed_together(targets, #[trigger] pairs[i], slots)
}

/// The row is one of the pairs, or an atom of no pair.
pub open spec fn row_belongs(row: Row, pairs: Seq<(u32, u32)>) -> bool {
    match row {
        Row::Pair { qa, qb, loc_a_enc, loc_b_enc } => pairs.contains((qa, qb)),
        Row::Spectator { qid, loc_enc } => !pair_qubits(pairs).contains(qid),
    }
}

/// The row of a pair's qubit that has a target, and that target.
proof fn lemma_row_of_pair(
    problem: RowProblem,
    steps: Seq<i32>,
    pairs: Seq<(u32, u32)>,
    i: int,
    target: (u32, u64),
) -> (r: int)
    requires
        qubits_disjoint(pairs),
        forall|r: int|
            0 <= r < problem.rows.len() ==> row_belongs(#[trigger] problem.rows[r], pairs),
        0 <= i < pairs.len(),
        target.0 == pairs[i].0 || target.0 == pairs[i].1,
        problem.targets(steps).contains(target),
    ensures
        problem.has_target(steps, r),
        problem.rows[r] is Pair,
        problem.rows[r]->qa == pairs[i].0,
        problem.rows[r]->qb == pairs[i].1,
        problem.targets_of_row(steps, r).contains(target),
{
    let all = problem.targets(steps);
    let k = choose|k: int| 0 <= k < all.len() && all[k] == target;
    let r = problem.lemma_row_of_target(steps, problem.rows.len(), k);
    let own = problem.targets_of_row(steps, r);
    let t = choose|t: int| 0 <= t < own.len() && own[t] == target;
    assert(row_belongs(problem.rows[r], pairs));
    match problem.rows[r] {
        Row::Pair { qa, qb, loc_a_enc, loc_b_enc } => {
            let m = choose|m: int| 0 <= m < pairs.len() && pairs[m] == (qa, qb);
            assert(own[t].0 == qa || own[t].0 == qb);
            if m != i {
                assert(share_qubit(pairs[m], pairs[i]));
            }
        },
        Row::Spectator { qid, loc_enc } => {
            assert(own[t].0 == qid);
            assert(pairs[i].0 == qid || pairs[i].1 == qid);
        },
    }
    r
}

/// An assignment of rows places pairs together.
proof fn lemma_rows_on_placements(problem: RowProblem, steps: Seq<i32>, pairs: Seq<(u32, u32)>)
    requires
        qubits_disjoint(pairs),
        forall|r: int|
            0 <= r < problem.rows.len() ==> row_belongs(#[trigger] problem.rows[r], pairs),
    ensures
        on_placements(problem.targets(steps), pairs, problem.slots),
{
    let all = problem.targets(steps);
    let n = problem.rows.len();
    assert forall|i: int| 0 <= i < pairs.len() implies placed_together(
        all,
        #[trigger] pairs[i],
        problem.slots,
    ) by {
        let pair = pairs[i];
        assert forall|a: u64| #[trigger] all.contains((pair.0, a)) implies exists|b: u64| #[trigger]
            all.contains((pair.1, b)) && is_placement(problem.slots, a, b) by {
            let r = lemma_row_of_pair(problem, steps, pairs, i, (pair.0, a));
            let own = problem.targets_of_row(steps, r);
            problem.lemma_target_of_row(steps, n, r, 1);
            let j = problem.columns(steps)[r] as int;
            assert(own[0].0 == pair.0 && own[1].0 == pair.1);
            assert(own[0] == (pair.0, a));
            assert(problem.slots[j] == problem.slots[j]);
            assert(all.contains((pair.1, own[1].1)));
        }
        assert forall|b: u64| #[trigger] all.contains((pair.1, b)) implies exists|a: u64| #[trigger]
            all.contains((pair.0, a)) && is_placement(problem.slots, a, b) by {
            let r = lemma_row_of_pair(problem, steps, pairs, i, (pair.1, b));
            let own = problem.targets_of_row(steps, r);
            problem.lemma_target_of_row(steps, n, r, 0);
            let j = problem.columns(steps)[r] as int;
            assert(own[0].0 == pair.0 && own[1].0 == pair.1);
            assert(own[1] == (pair.1, b));
            assert(problem.slots[j] == problem.slots[j]);
            assert(all.contains((pair.0, own[0].1)));
        }
    }
}

proof fn lemma_moved_elsewhere(
    targets: Seq<(u32, u64)>,
    moved: (u32, u32),
    slot: PositionSlot,
    swapped: bool,
    target: (u32, u64),
)
    requires
        target.0 != moved.0,
        target.0 != moved.1,
    ensures
        pair_moved(targets, moved, slot, swapped).contains(target) <==> targets.contains(target),
{
    let after = pair_moved(targets, moved, slot, swapped);
    if after.contains(target) {
        let k = choose|k: int| 0 <= k < after.len() && after[k] == target;
        assert(targets[k] == target);
    }
    if targets.contains(target) {
        let k = choose|k: int| 0 <= k < targets.len() && targets[k] == target;
        assert(after[k] == target);
    }
}

proof fn lemma_moved_pair(
    targets: Seq<(u32, u64)>,
    pair: (u32, u32),
    slots: Seq<PositionSlot>,
    j: int,
    swapped: bool,
)
    requires
        pair.0 != pair.1,
        0 <= j < slots.len(),
        placed_together(targets, pair, slots),
    ensures
        placed_together(pair_moved(targets, pair, slots[j], swapped), pair, slots),
{
    let after = pair_moved(targets, pair, slots[j], swapped);
    let (first, second) = if swapped {
        (slots[j].loc_b, slots[j].loc_a)
    } else {
        (slots[j].loc_a, slots[j].loc_b)
    };
    assert(is_placement(slots, first, second));
    assert forall|a: u64| #[trigger] after.contains((pair.0, a)) implies exists|b: u64| #[trigger]
        after.contains((pair.1, b)) && is_placement(slots, a, b) by {
        let k = choose|k: int| 0 <= k < after.len() && after[k] == (pair.0, a);
        assert(targets.contains((pair.0, targets[k].1)));
        let b = choose|b: u64| #[trigger]
            targets.contains((pair.1, b)) && is_placement(slots, targets[k].1, b);
        let l = choose|l: int| 0 <= l < targets.len() && targets[l] == (pair.1, b);
        assert(after[l] == (pair.1, second));
        assert(a == first);
        assert(after.contains((pair.1, second)));
    }
    assert forall|b: u64| #[trigger] after.contains((pair.1, b)) implies exists|a: u64| #[trigger]
        after.contains((pair.0, a)) && is_placement(slots, a, b) by {
        let k = choose|k: int| 0 <= k < after.len() && after[k] == (pair.1, b);
        assert(targets.contains((pair.1, targets[k].1)));
        let a = choose|a: u64| #[trigger]
            targets.contains((pair.0, a)) && is_placement(slots, a, targets[k].1);
        let l = choose|l: int| 0 <= l < targets.len() && targets[l] == (pair.0, a);
        assert(after[l] == (pair.0, first));
        assert(b == second);
        assert(after.contains((pair.0, first)));
    }
}

proof fn lemma_moved_other_pair(
    targets: Seq<(u32, u64)>,
    pair: (u32, u32),
    slots: Seq<PositionSlot>,
    moved: (u32, u32),
    slot: PositionSlot,
    swapped: bool,
)
    requires
        !share_qubit(pair, moved),
        placed_together(targets, pair, slots),
    ensures
        placed_together(pair_moved(targets, moved, slot, swapped), pair, slots),
{
    let after = pair_moved(targets, moved, slot, swapped);
    assert forall|a: u64| #[trigger] after.contains((pair.0, a)) implies exists|b: u64| #[trigger]
        after.contains((pair.1, b)) && is_placement(slots, a, b) by {
        lemma_moved_elsewhere(targets, moved, slot, swapped, (pair.0, a));
        let b = choose|b: u64| #[trigger]
            targets.contains((pair.1, b)) && is_placement(slots, a, b);
        lemma_moved_elsewhere(targets, moved, slot, swapped, (pair.1, b));
    }
    assert forall|b: u64| #[trigger] after.contains((pair.1, b)) implies exists|a: u64| #[trigger]
        after.contains((pair.0, a)) && is_placement(slots, a, b) by {
        lemma_moved_elsewhere(targets, moved, slot, swapped, (pair.1, b));
        let a = choose|a: u64| #[trigger]
            targets.contains((pair.0, a)) && is_placement(slots, a, b);
        lemma_moved_elsewhere(targets, moved, slot, swapped, (pair.0, a));
    }
}

proof fn lemma_moved_on_placements(
    targets: Seq<(u32, u64)>,
    pairs: Seq<(u32, u32)>,
    slots: Seq<PositionSlot>,
    m: int,
    j: int,
    swapped: bool,
)
    requires
        qubits_disjoint(pairs),
        on_placements(targets, pairs, slots),
        0 <= m < pairs.len(),
        0 <= j < slots.len(),
    ensures
        on_placements(pair_moved(targets, pairs[m], slots[j], swapped), pairs, slots),
{
    let after = pair_moved(targets, pairs[m], slots[j], swapped);
    assert forall|i: int| 0 <= i < pairs.len() implies placed_together(
        after,
        #[trigger] pairs[i],
        slots,
    ) by {
        let pair = pairs[i];
        assert(placed_together(targets, pair, slots));
        if i == m {
            lemma_moved_pair(targets, pair, slots, j, swapped);
        } else {
            assert(!share_qubit(pairs[i], pairs[m]));
            lemma_moved_other_pair(targets, pair, slots, pairs[m], slots[j], swapped);
        }
    }
}

impl Repair {
    /// A repair keeps pairs together.
    pub proof fn lemma_repaired_on_placements(self)
        requires
            qubits_disjoint(self.pairs),
            on_placements(self.targets, self.pairs, self.slots),
        ensures
            on_placements(self.repaired(), self.pairs, self.slots),
    {
        self.lemma_repaired_one_pair();
        if self.repaired() != self.targets {
            let (i, j, swapped) = choose|i: int, j: int, swapped: bool| #[trigger]
                self.is_fix(i, j, swapped) && self.repaired() == self.trial(
                    self.pairs[i],
                    j,
                    swapped,
                );
            assert(self.is_open(self.pairs[i], j));
            lemma_moved_on_placements(self.targets, self.pairs, self.slots, i, j, swapped);
        }
    }
}

proof fn lemma_placed_pair(
    pairs: Seq<(u32, u32)>,
    entries: Seq<(u32, LocationAddr)>,
    n: nat,
    k: int,
)
    requires
        n <= pairs.len(),
        0 <= k < placed_pairs_of(pairs, entries, n).len(),
    ensures
        pairs.contains(placed_pairs_of(pairs, entries, n)[k].0),
    decreases n,
{
    let rest = placed_pairs_of(pairs, entries, (n - 1) as nat);
    if k < rest.len() {
        lemma_placed_pair(pairs, entries, (n - 1) as nat, k);
    } else {
        assert(pairs[n - 1] == placed_pairs_of(pairs, entries, n)[k].0);
    }
}

proof fn lemma_spectator_row(
    qubits: Seq<u32>,
    entries: Seq<(u32, LocationAddr)>,
    n: nat,
    k: int,
)
    requires
        n <= qubits.len(),
        0 <= k < spectator_rows_of(qubits, entries, n).len(),
    ensures
        spectator_rows_of(qubits, entries, n)[k] is Spectator,
        qubits.contains(spectator_rows_of(qubits, entries, n)[k]->qid),
    decreases n,
{
    let rest = spectator_rows_of(qubits, entries, (n - 1) as nat);
    if k < rest.len() {
        lemma_spectator_row(qubits, entries, (n - 1) as nat, k);
    } else {
        assert(qubits[n - 1] == spectator_rows_of(qubits, entries, n)[k]->qid);
    }
}

impl Layer {
    proof fn lemma_pair_row_belongs(self, r: int)
        requires
            0 <= r < pair_rows(self.placed()).len(),
        ensures
            row_belongs(pair_rows(self.placed())[r], self.pairs),
    {
        lemma_placed_pair(self.pairs, self.entries, self.pairs.len(), r);
    }

    /// The pairs' own assignment places them together.
    pub proof fn lemma_pairs_on_placements(
        self,
        seed: u64,
        steps: Seq<i32>,
        targets: Seq<(u32, u64)>,
    )
        requires
            qubits_disjoint(self.pairs),
            self.is_pair_assignment(seed, steps, targets),
        ensures
            on_placements(targets, self.pairs, self.slots()),
    {
        if self.placed().len() > 0 && self.slots().len() > 0 {
            let problem = self.pair_problem();
            assert forall|r: int| 0 <= r < problem.rows.len() implies row_belongs(
                #[trigger] problem.rows[r],
                self.pairs,
            ) by {
                self.lemma_pair_row_belongs(r);
            }
            lemma_rows_on_placements(problem, steps, self.pairs);
        }
    }
}

impl Staged {
    /// Blockers are in no pair.
    pub open spec fn outside_pairs(self, blockers: Seq<u32>) -> bool {
        forall|k: int|
            0 <= k < blockers.len() ==> !self.layer.pair_qubits().contains(#[trigger] blockers[k])
    }

    proof fn lemma_joined_outside(self, blockers: Seq<u32>, found: Seq<u32>, n: nat)
        requires
            n <= found.len(),
            self.outside_pairs(blockers),
        ensures
            self.outside_pairs(self.joined(blockers, found, n)),
        decreases n,
    {
        if n > 0 {
            self.lemma_joined_outside(blockers, found, (n - 1) as nat);
        }
    }

    proof fn lemma_run_outside(self, draws: Seq<Seq<i32>>)
        requires
            self.layer.placed().len() <= self.layer.slots().len(),
        ensures
            self.outside_pairs(self.run(draws).blockers),
        decreases draws.len(),
    {
        if draws.len() > 0 {
            self.lemma_run_outside(draws.drop_last());
            let kept = self.kept(self.run(draws.drop_last()).blockers);
            assert(self.outside_pairs(kept));
            let targets = self.problem(kept).targets(draws.last());
            let found = self.obstacles(kept, targets);
            self.lemma_joined_outside(kept, found, found.len());
        }
    }

    /// An assignment with blockers, repaired where pairs were too close to each
    /// other, places pairs together: where one qubit of a pair has a target, so
    /// has the other one, and the two are an entangling placement.
    pub proof fn lemma_outcome_on_placements(
        self,
        seed: u64,
        draws: Seq<Seq<i32>>,
        targets: Seq<(u32, u64)>,
    )
        requires
            qubits_disjoint(self.layer.pairs),
            self.is_outcome(seed, draws, targets),
        ensures
            on_placements(targets, self.layer.pairs, self.layer.slots()),
    {
        let (pairs, slots) = (self.layer.pairs, self.layer.slots());
        let placed = self.layer.placed().len();
        if placed > 0 && slots.len() > 0 {
            let raw = if placed > slots.len() {
                self.layer.pair_problem().targets(draws[0])
            } else {
                self.run(draws).targets
            };
            if placed > slots.len() {
                self.layer.lemma_pairs_on_placements(seed, draws[0], raw);
            } else {
                self.lemma_last_pass(seed, draws);
                let kept = self.kept(self.run(draws.drop_last()).blockers);
                self.lemma_run_outside(draws.drop_last());
                assert(self.outside_pairs(kept));
                let problem = self.problem(kept);
                assert forall|r: int| 0 <= r < problem.rows.len() implies row_belongs(
                    #[trigger] problem.rows[r],
                    pairs,
                ) by {
                    let own = pair_rows(self.layer.placed());
                    if r < own.len() {
                        self.layer.lemma_pair_row_belongs(r);
                    } else {
                        let k = r - own.len();
                        lemma_spectator_row(kept, self.layer.entries, kept.len(), k);
                        let row = spectator_rows(kept, self.layer.entries)[k];
                        assert(problem.rows[r] == row);
                        let q = choose|q: int| 0 <= q < kept.len() && kept[q] == row->qid;
                        assert(!self.layer.pair_qubits().contains(kept[q]));
                    }
                }
                lemma_rows_on_placements(problem, draws.last(), pairs);
            }
            let repair = Repair {
                targets: raw,
                pairs,
                placed: self.layer.placed(),
                slots,
                table: self.layer.table,
                arch: self.lanes,
                blocked: self.blocked,
            };
            repair.lemma_repaired_on_placements();
        }
    }
}

impl Plan {
    /// An assignment in view of later layers places the pairs of the current
    /// layer together.
    pub proof fn lemma_assigned_on_placements(self, seed: u64, targets: Seq<(u32, u64)>)
        requires
            self.layers.len() > 0,
            qubits_disjoint(self.layers[0]),
            self.assigns(seed, targets),
        ensures
            on_placements(targets, self.layers[0], position_slots(self.arch)),
    {
        let (forward, refined) = choose|
            forward: Seq<Seq<(u32, u64)>>,
            refined: Seq<Seq<(u32, u64)>>,
        | #[trigger]
            self.is_two_pass(seed, forward, refined) && targets == refined[0];
        let staged = if self.layers.len() == 1 {
            assert(self.is_forward(seed, forward, 0));
            self.staged(forward, 0, Map::empty(), free_transition())
        } else {
            assert(self.is_refined(seed, forward, refined, 0));
            self.staged(forward, 0, target_map(refined[1]), self.transition)
        };
        assert(staged.assigns(seed, targets));
        let draws = choose|draws: Seq<Seq<i32>>| staged.is_outcome(seed, draws, targets);
        staged.lemma_outcome_on_placements(seed, draws, targets);
    }
}

} // verus!
