//! Assignment of rows, pairs and single atoms, to entangling positions.

use crate::congestion::{
    assign_rows, best_assignment, congestion_aware_hungarian, is_best_assignment, larger,
    lemma_single_row_stays, lemma_spread_is_assignment, spread_assignment,
};
use crate::costs::{CostInputs, CostModel, OccupancyCosts, Row};
use crate::distance::BIG;
use crate::entangling::{is_half, is_placement, placements_of, PositionSlot};
use crate::hungarian::{is_assignment, lemma_cell_index};
use crate::perturbation::{
    lemma_nudged_close, nudge_costs, nudged, perturb_costs, small_steps, steps_for,
};
use vstd::arithmetic::div_mod::lemma_fundamental_div_mod_converse;
use vstd::prelude::*;

verus! {

/// Where the qubits of a row go at a position.
pub open spec fn row_targets(row: Row, slot: PositionSlot, swapped: bool) -> Seq<(u32, u64)> {
    let (first, second) = if swapped {
        (slot.loc_b, slot.loc_a)
    } else {
        (slot.loc_a, slot.loc_b)
    };
    match row {
        Row::Pair { qa, qb, loc_a_enc, loc_b_enc } => seq![(qa, first), (qb, second)],
        Row::Spectator { qid, loc_enc } => seq![(qid, first)],
    }
}

/// The assignment problem of a list of rows.
pub ghost struct RowProblem {
    pub model: CostModel,
    pub rows: Seq<Row>,
    pub slots: Seq<PositionSlot>,
    /// Positions per word pair.
    pub sites_per_word: int,
    pub n_word_pairs: int,
    /// Largest cost increase by which a row may leave a crowded word pair.
    pub max_loss: Option<u32>,
}

impl RowProblem {
    /// Cost of every cell, row by row.
    pub open spec fn matrix(self) -> Seq<u32> {
        Seq::new(
            self.rows.len() * self.slots.len(),
            |k: int|
                self.model.cell_cost(
                    self.rows[k / self.slots.len() as int],
                    self.slots[k % self.slots.len() as int],
                ),
        )
    }

    /// Rebalancing needs two word pairs.
    pub open spec fn loss(self) -> Option<u32> {
        if self.n_word_pairs > 1 {
            self.max_loss
        } else {
            None
        }
    }

    /// The matrix after the given steps.
    pub open spec fn costs(self, steps: Seq<i32>) -> Seq<u32> {
        nudged(self.matrix(), steps)
    }

    /// The position of each row, for given steps.
    pub open spec fn columns(self, steps: Seq<i32>) -> Seq<usize> {
        spread_assignment(
            self.costs(steps),
            self.rows.len() as int,
            self.slots.len() as int,
            self.sites_per_word,
            self.n_word_pairs,
            self.loss(),
            BIG,
        )
    }

    /// Row `i` gets position `j`: there is such a position, and it can be
    /// reached.
    pub open spec fn usable(self, steps: Seq<i32>, i: int, j: int) -> bool {
        j < self.slots.len() && self.costs(steps)[i * self.slots.len() + j] < BIG
    }

    /// Targets of the first `n` rows, for given steps. Rows without a position
    /// that they can reach get none.
    pub open spec fn targets_of(self, steps: Seq<i32>, n: nat) -> Seq<(u32, u64)>
        decreases n,
    {
        if n == 0 {
            Seq::empty()
        } else {
            let i = n - 1;
            let j = self.columns(steps)[i] as int;
            let rest = self.targets_of(steps, (n - 1) as nat);
            if self.usable(steps, i, j) {
                rest + row_targets(
                    self.rows[i],
                    self.slots[j],
                    self.model.cell_swapped(self.rows[i], self.slots[j]),
                )
            } else {
                rest
            }
        }
    }

    /// Targets of all rows, for given steps.
    pub open spec fn targets(self, steps: Seq<i32>) -> Seq<(u32, u64)> {
        self.targets_of(steps, self.rows.len())
    }

    /// The assignment, before any rebalancing, has the least total cost.
    pub open spec fn is_optimal(self, steps: Seq<i32>) -> bool {
        is_best_assignment(
            self.costs(steps),
            self.rows.len() as int,
            self.slots.len() as int,
            best_assignment(
                self.costs(steps),
                self.rows.len() as int,
                self.slots.len() as int,
            ),
        )
    }

    /// Sizes that the machine can hold.
    pub open spec fn fits(self) -> bool {
        &&& self.rows.len() < usize::MAX
        &&& self.slots.len() < usize::MAX
        &&& self.rows.len() * self.slots.len() <= usize::MAX
        &&& self.rows.len() > self.slots.len() ==> self.rows.len() * self.rows.len() <= usize::MAX
    }

    /// Where rows are rebalanced over word pairs, every position belongs to one.
    pub open spec fn is_layout(self) -> bool {
        self.loss() is Some ==> self.slots.len() <= self.sites_per_word * self.n_word_pairs
    }

    pub proof fn lemma_cell(self, i: int, j: int)
        requires
            0 <= i < self.rows.len(),
            0 <= j < self.slots.len(),
        ensures
            0 <= i * self.slots.len() + j < self.rows.len() * self.slots.len(),
            self.matrix()[i * self.slots.len() + j] == self.model.cell_cost(
                self.rows[i],
                self.slots[j],
            ),
    {
        let k = i * self.slots.len() + j;
        lemma_cell_index(self.rows.len() as int, self.slots.len() as int, i, j);
        lemma_fundamental_div_mod_converse(k, self.slots.len() as int, i, j);
    }
}

/// Build the cost matrix.
fn build_matrix(
    inputs: &CostInputs,
    rows: &[Row],
    slots: &[PositionSlot],
    Ghost(problem): Ghost<RowProblem>,
) -> (costs: Vec<u32>)
    requires
        problem.model == inputs.model(),
        problem.rows == rows@,
        problem.slots == slots@,
    ensures
        costs@ == problem.matrix(),
{
    let mut costs: Vec<u32> = Vec::new();
    let mut i: usize = 0;
    assert(0 * slots@.len() == 0);
    while i < rows.len()
        invariant
            i <= rows@.len(),
            problem.model == inputs.model(),
            problem.rows == rows@,
            problem.slots == slots@,
            costs@.len() == i * slots@.len(),
            i * slots@.len() <= rows@.len() * slots@.len(),
            costs@ == problem.matrix().take(i * slots@.len()),
        decreases rows.len() - i,
    {
        proof {
            assert((i + 1) * slots@.len() == i * slots@.len() + slots@.len())
                by (nonlinear_arith);
            assert((i + 1) * slots@.len() <= rows@.len() * slots@.len()) by (nonlinear_arith)
                requires
                    i < rows@.len(),
            ;
        }
        let mut j: usize = 0;
        while j < slots.len()
            invariant
                i < rows@.len(),
                j <= slots@.len(),
                problem.model == inputs.model(),
                problem.rows == rows@,
                problem.slots == slots@,
                costs@.len() == i * slots@.len() + j,
                i * slots@.len() + slots@.len() <= rows@.len() * slots@.len(),
                costs@ == problem.matrix().take(i * slots@.len() + j),
            decreases slots.len() - j,
        {
            let (cost, _) = inputs.cell(&rows[i], &slots[j]);
            proof {
                problem.lemma_cell(i as int, j as int);
            }
            costs.push(cost);
            j += 1;
            assert(costs@ =~= problem.matrix().take(i * slots@.len() + j));
        }
        i += 1;
    }
    assert(costs@ =~= problem.matrix());
    costs
}

/// Assign rows to positions, given the perturbed cost matrix.
fn assign_with_costs(
    inputs: &CostInputs,
    rows: &[Row],
    slots: &[PositionSlot],
    sites_per_word: usize,
    n_word_pairs: usize,
    max_loss: Option<u32>,
    costs: &Vec<u32>,
    Ghost(problem): Ghost<RowProblem>,
    Ghost(steps): Ghost<Seq<i32>>,
) -> (targets: Vec<(u32, u64)>)
    requires
        problem.model == inputs.model(),
        problem.rows == rows@,
        problem.slots == slots@,
        problem.sites_per_word == sites_per_word,
        problem.n_word_pairs == n_word_pairs,
        problem.max_loss == max_loss,
        problem.fits(),
        problem.is_layout(),
        costs@ == problem.costs(steps),
    ensures
        targets@ == problem.targets(steps),
        problem.is_optimal(steps),
{
    let n_rows = rows.len();
    let n_slots = slots.len();
    let columns = if n_word_pairs > 1 {
        congestion_aware_hungarian(
            costs.as_slice(),
            n_rows,
            n_slots,
            sites_per_word,
            n_word_pairs,
            max_loss,
            BIG,
        )
    } else {
        assign_rows(costs.as_slice(), n_rows, n_slots)
    };
    proof {
        assert(columns@ == problem.columns(steps));
        lemma_spread_is_assignment(
            costs@,
            n_rows as int,
            n_slots as int,
            sites_per_word as int,
            n_word_pairs as int,
            problem.loss(),
            BIG,
            columns@,
        );
    }
    let mut targets: Vec<(u32, u64)> = Vec::new();
    let mut i: usize = 0;
    while i < n_rows
        invariant
            i <= n_rows,
            n_rows == rows@.len(),
            n_slots == slots@.len(),
            problem.model == inputs.model(),
            problem.rows == rows@,
            problem.slots == slots@,
            costs@ == problem.costs(steps),
            costs@.len() == n_rows * n_slots,
            n_rows * n_slots <= usize::MAX,
            columns@ == problem.columns(steps),
            columns@.len() == n_rows,
            targets@ == problem.targets_of(steps, i as nat),
        decreases n_rows - i,
    {
        let j = columns[i];
        if j < n_slots {
            proof {
                problem.lemma_cell(i as int, j as int);
                lemma_cell_index(n_rows as int, n_slots as int, i as int, j as int);
            }
            if costs[i * n_slots + j] < BIG {
                let slot = slots[j];
                let (_, swapped) = inputs.cell(&rows[i], &slot);
                let (first, second) = if swapped {
                    (slot.loc_b, slot.loc_a)
                } else {
                    (slot.loc_a, slot.loc_b)
                };
                let ghost before = targets@;
                match rows[i] {
                    Row::Pair { qa, qb, loc_a_enc, loc_b_enc } => {
                        targets.push((qa, first));
                        targets.push((qb, second));
                    },
                    Row::Spectator { qid, loc_enc } => {
                        targets.push((qid, first));
                    },
                }
                assert(targets@ =~= before + row_targets(rows@[i as int], slot, swapped));
            }
        }
        i += 1;
    }
    targets
}

/// Assign rows to positions at least total cost, after the cells that can be
/// used have been changed by the given steps.
pub fn solve_rows_with(
    inputs: &CostInputs,
    rows: &[Row],
    slots: &[PositionSlot],
    sites_per_word: usize,
    n_word_pairs: usize,
    max_loss: Option<u32>,
    steps: &[i32],
) -> (targets: Vec<(u32, u64)>)
    requires
        small_steps(steps@),
        row_problem(inputs, rows@, slots@, sites_per_word, n_word_pairs, max_loss).fits(),
        row_problem(inputs, rows@, slots@, sites_per_word, n_word_pairs, max_loss).is_layout(),
    ensures
        targets@ == row_problem(
            inputs,
            rows@,
            slots@,
            sites_per_word,
            n_word_pairs,
            max_loss,
        ).targets(steps@),
        row_problem(
            inputs,
            rows@,
            slots@,
            sites_per_word,
            n_word_pairs,
            max_loss,
        ).is_optimal(steps@),
{
    let ghost problem = row_problem(
        inputs,
        rows@,
        slots@,
        sites_per_word,
        n_word_pairs,
        max_loss,
    );
    let mut costs = build_matrix(inputs, rows, slots, Ghost(problem));
    nudge_costs(&mut costs, steps);
    assign_with_costs(
        inputs,
        rows,
        slots,
        sites_per_word,
        n_word_pairs,
        max_loss,
        &costs,
        Ghost(problem),
        Ghost(steps@),
    )
}

/// The problem that inputs, rows and positions make up.
pub open spec fn row_problem(
    inputs: &CostInputs,
    rows: Seq<Row>,
    slots: Seq<PositionSlot>,
    sites_per_word: usize,
    n_word_pairs: usize,
    max_loss: Option<u32>,
) -> RowProblem {
    RowProblem {
        model: inputs.model(),
        rows,
        slots,
        sites_per_word: sites_per_word as int,
        n_word_pairs: n_word_pairs as int,
        max_loss,
    }
}

/// `targets` solves the problem for some steps that belong to the seed.
pub open spec fn is_row_solution(
    problem: RowProblem,
    seed: u64,
    steps: Seq<i32>,
    targets: Seq<(u32, u64)>,
) -> bool {
    &&& steps_for(seed, problem.matrix(), steps)
    &&& problem.is_optimal(steps)
    &&& targets == problem.targets(steps)
}

/// Assign rows to positions at least total cost. Seed 0 takes the costs as they
/// are; any other seed changes each of them by at most one. The steps that were
/// drawn are returned with the targets.
pub fn solve_rows(
    inputs: &CostInputs,
    rows: &[Row],
    slots: &[PositionSlot],
    sites_per_word: usize,
    n_word_pairs: usize,
    max_loss: Option<u32>,
    seed: u64,
) -> (solution: (Vec<(u32, u64)>, Vec<i32>))
    requires
        row_problem(inputs, rows@, slots@, sites_per_word, n_word_pairs, max_loss).fits(),
        row_problem(inputs, rows@, slots@, sites_per_word, n_word_pairs, max_loss).is_layout(),
    ensures
        is_row_solution(
            row_problem(inputs, rows@, slots@, sites_per_word, n_word_pairs, max_loss),
            seed,
            solution.1@,
            solution.0@,
        ),
        small_steps(solution.1@),
{
    let ghost problem = row_problem(
        inputs,
        rows@,
        slots@,
        sites_per_word,
        n_word_pairs,
        max_loss,
    );
    let mut costs = build_matrix(inputs, rows, slots, Ghost(problem));
    let steps = perturb_costs(&mut costs, seed);
    let targets = assign_with_costs(
        inputs,
        rows,
        slots,
        sites_per_word,
        n_word_pairs,
        max_loss,
        &costs,
        Ghost(problem),
        Ghost(steps@),
    );
    (targets, steps)
}

// ── What every solution has in common ─────────────────────────────

/// The halves of all positions are different locations.
pub open spec fn slots_disjoint(slots: Seq<PositionSlot>) -> bool {
    &&& forall|j: int| 0 <= j < slots.len() ==> (#[trigger] slots[j]).loc_a != slots[j].loc_b
    &&& forall|j: int, k: int|
        0 <= j < k < slots.len() ==> {
            &&& (#[trigger] slots[j]).loc_a != (#[trigger] slots[k]).loc_a
            &&& slots[j].loc_a != slots[k].loc_b
            &&& slots[j].loc_b != slots[k].loc_a
            &&& slots[j].loc_b != slots[k].loc_b
        }
}

impl RowProblem {
    /// The targets of row `i`, where it gets a position.
    pub open spec fn targets_of_row(self, steps: Seq<i32>, i: int) -> Seq<(u32, u64)> {
        let j = self.columns(steps)[i] as int;
        row_targets(
            self.rows[i],
            self.slots[j],
            self.model.cell_swapped(self.rows[i], self.slots[j]),
        )
    }

    /// Row `i` gets a position.
    pub open spec fn has_target(self, steps: Seq<i32>, i: int) -> bool {
        0 <= i < self.rows.len() && self.usable(steps, i, self.columns(steps)[i] as int)
    }

    /// Every target belongs to a row that gets a position.
    pub proof fn lemma_row_of_target(self, steps: Seq<i32>, n: nat, k: int) -> (i: int)
        requires
            n <= self.rows.len(),
            0 <= k < self.targets_of(steps, n).len(),
        ensures
            0 <= i < n,
            self.has_target(steps, i),
            self.targets_of_row(steps, i).contains(self.targets_of(steps, n)[k]),
        decreases n,
    {
        let rest = self.targets_of(steps, (n - 1) as nat);
        if k < rest.len() {
            self.lemma_row_of_target(steps, (n - 1) as nat, k)
        } else {
            let own = self.targets_of_row(steps, n - 1);
            assert(own[k - rest.len()] == self.targets_of(steps, n)[k]);
            n - 1
        }
    }

    /// The targets of a row that gets a position are among all targets.
    pub proof fn lemma_target_of_row(self, steps: Seq<i32>, n: nat, i: int, t: int)
        requires
            n <= self.rows.len(),
            0 <= i < n,
            self.has_target(steps, i),
            0 <= t < self.targets_of_row(steps, i).len(),
        ensures
            self.targets_of(steps, n).contains(self.targets_of_row(steps, i)[t]),
        decreases n,
    {
        let rest = self.targets_of(steps, (n - 1) as nat);
        let target = self.targets_of_row(steps, i)[t];
        if i == n - 1 {
            assert(self.targets_of(steps, n)[rest.len() + t] == target);
        } else {
            self.lemma_target_of_row(steps, (n - 1) as nat, i, t);
            let k = choose|k: int| 0 <= k < rest.len() && rest[k] == target;
            assert(self.targets_of(steps, n)[k] == target);
        }
    }

    /// No target is blocked, and every target is half of a position.
    pub proof fn lemma_target_unblocked(self, steps: Seq<i32>, k: int)
        requires
            small_steps(steps),
            0 <= k < self.targets(steps).len(),
        ensures
            !self.model.blocked.contains(self.targets(steps)[k].1),
            is_half(self.slots, self.targets(steps)[k].1),
    {
        let i = self.lemma_row_of_target(steps, self.rows.len(), k);
        let j = self.columns(steps)[i] as int;
        self.lemma_cell(i, j);
        lemma_nudged_close(self.matrix(), steps, i * self.slots.len() + j);
        let own = self.targets_of_row(steps, i);
        let t = choose|t: int| 0 <= t < own.len() && own[t] == self.targets(steps)[k];
        assert(self.slots[j].loc_a == own[t].1 || self.slots[j].loc_b == own[t].1);
    }

    /// The two qubits of a pair that gets a position go to its two halves.
    pub proof fn lemma_pair_on_placement(self, steps: Seq<i32>, i: int)
        requires
            self.has_target(steps, i),
            self.rows[i] is Pair,
        ensures
            exists|a: u64, b: u64| #[trigger]
                placements_of(self.slots).contains((a, b)) && self.targets(steps).contains(
                    (self.rows[i]->qa, a),
                ) && self.targets(steps).contains((self.rows[i]->qb, b)),
    {
        let j = self.columns(steps)[i] as int;
        let own = self.targets_of_row(steps, i);
        self.lemma_target_of_row(steps, self.rows.len(), i, 0);
        self.lemma_target_of_row(steps, self.rows.len(), i, 1);
        let (a, b) = (own[0].1, own[1].1);
        assert(is_placement(self.slots, a, b)) by {
            let slot = self.slots[j];
            assert(slot == self.slots[j]);
        }
        assert(placements_of(self.slots).contains((a, b)));
    }

    /// Different rows get different positions.
    pub proof fn lemma_columns_distinct(self, steps: Seq<i32>)
        requires
            self.is_optimal(steps),
            self.fits(),
        ensures
            is_assignment(
                self.rows.len() as int,
                larger(self.rows.len() as int, self.slots.len() as int),
                self.columns(steps),
            ),
    {
        lemma_spread_is_assignment(
            self.costs(steps),
            self.rows.len() as int,
            self.slots.len() as int,
            self.sites_per_word,
            self.n_word_pairs,
            self.loss(),
            BIG,
            self.columns(steps),
        );
    }

    proof fn lemma_distinct_of(self, steps: Seq<i32>, n: nat, k: int, l: int)
        requires
            self.is_optimal(steps),
            self.fits(),
            slots_disjoint(self.slots),
            n <= self.rows.len(),
            0 <= k < l < self.targets_of(steps, n).len(),
        ensures
            self.targets_of(steps, n)[k].1 != self.targets_of(steps, n)[l].1,
        decreases n,
    {
        let rest = self.targets_of(steps, (n - 1) as nat);
        let all = self.targets_of(steps, n);
        if l < rest.len() {
            self.lemma_distinct_of(steps, (n - 1) as nat, k, l);
        } else {
            let j = self.columns(steps)[n - 1] as int;
            let own = self.targets_of_row(steps, n - 1);
            assert(own[l - rest.len()] == all[l]);
            assert(self.slots[j].loc_a != self.slots[j].loc_b);
            if k < rest.len() {
                let i = self.lemma_row_of_target(steps, (n - 1) as nat, k);
                let m = self.columns(steps)[i] as int;
                self.lemma_columns_distinct(steps);
                assert(self.columns(steps)[i] != self.columns(steps)[n - 1]);
                let other = self.targets_of_row(steps, i);
                let t = choose|t: int| 0 <= t < other.len() && other[t] == rest[k];
                if m < j {
                    assert(self.slots[m].loc_a != self.slots[j].loc_a);
                } else {
                    assert(self.slots[j].loc_a != self.slots[m].loc_a);
                }
            } else {
                assert(own[k - rest.len()] == all[k]);
            }
        }
    }

    /// No location is the target of two qubits.
    pub proof fn lemma_no_double_booking(self, steps: Seq<i32>, k: int, l: int)
        requires
            self.is_optimal(steps),
            self.fits(),
            slots_disjoint(self.slots),
            0 <= k < l < self.targets(steps).len(),
        ensures
            self.targets(steps)[k].1 != self.targets(steps)[l].1,
    {
        self.lemma_distinct_of(steps, self.rows.len(), k, l);
    }

    proof fn lemma_same_targets_of(self, other: RowProblem, steps: Seq<i32>, n: nat)
        requires
            self.rows == other.rows,
            self.slots == other.slots,
            self.costs(steps) == other.costs(steps),
            self.columns(steps) == other.columns(steps),
            forall|i: int, j: int|
                0 <= i < self.rows.len() && 0 <= j < self.slots.len()
                    ==> #[trigger] self.model.cell_swapped(self.rows[i], self.slots[j])
                    == other.model.cell_swapped(self.rows[i], self.slots[j]),
            n <= self.rows.len(),
        ensures
            self.targets_of(steps, n) == other.targets_of(steps, n),
        decreases n,
    {
        if n > 0 {
            self.lemma_same_targets_of(other, steps, (n - 1) as nat);
            let j = self.columns(steps)[n - 1] as int;
            if j < self.slots.len() {
                assert(self.model.cell_swapped(self.rows[n - 1], self.slots[j])
                    == other.model.cell_swapped(self.rows[n - 1], self.slots[j]));
            }
        }
    }

    /// Rebalancing does not change the target of a single row.
    pub proof fn lemma_single_row_unspread(self, max_loss: Option<u32>, steps: Seq<i32>)
        requires
            self.rows.len() == 1,
            self.n_word_pairs > 0,
            self.is_optimal(steps),
        ensures
            self.targets(steps) == (RowProblem { max_loss, ..self }).targets(steps),
    {
        let other = RowProblem { max_loss, ..self };
        assert(self.matrix() =~= other.matrix());
        lemma_single_row_stays(
            self.costs(steps),
            self.slots.len() as int,
            self.sites_per_word,
            self.n_word_pairs,
            self.loss(),
            BIG,
        );
        lemma_single_row_stays(
            self.costs(steps),
            self.slots.len() as int,
            self.sites_per_word,
            self.n_word_pairs,
            other.loss(),
            BIG,
        );
        self.lemma_same_targets_of(other, steps, self.rows.len());
    }

    /// Where no atom stays behind, it does not matter what held positions cost.
    pub proof fn lemma_nothing_held(self, occupancy: OccupancyCosts, steps: Seq<i32>)
        requires
            forall|loc: u64| !#[trigger] self.model.held.contains(loc),
        ensures
            self.matrix() == (RowProblem {
                model: (CostModel { occupancy, ..self.model }),
                ..self
            }).matrix(),
            self.targets(steps) == (RowProblem {
                model: (CostModel { occupancy, ..self.model }),
                ..self
            }).targets(steps),
    {
        let other = RowProblem { model: (CostModel { occupancy, ..self.model }), ..self };
        assert forall|row: Row, slot: PositionSlot| #[trigger]
            self.model.cell_costs(row, slot) == other.model.cell_costs(row, slot) by {
            assert(!self.model.held.contains(slot.loc_a));
            assert(!self.model.held.contains(slot.loc_b));
        }
        assert(self.matrix() =~= other.matrix());
        assert forall|i: int, j: int|
            0 <= i < self.rows.len() && 0 <= j < self.slots.len() implies
            #[trigger] self.model.cell_swapped(self.rows[i], self.slots[j])
            == other.model.cell_swapped(self.rows[i], self.slots[j]) by {
            assert(self.model.cell_costs(self.rows[i], self.slots[j]) == other.model.cell_costs(
                self.rows[i],
                self.slots[j],
            ));
        }
        self.lemma_same_targets_of(other, steps, self.rows.len());
    }
}

} // verus!
