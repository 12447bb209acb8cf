//! What a row costs at a position, and that rows are assigned as cheaply as
//! possible, stated on hops, atoms and targets.

use crate::assignment::mixed_row_hungarian;
use crate::config::Config;
use crate::costs::{
    collect_held_besides, held_besides, next_targets, CostInputs, CostModel, OccupancyCosts, Row,
    TransitionCosts,
};
use crate::distance::{hops_or_big, DistanceTable, BIG};
use crate::entangling::{EntanglingWordPair, PositionSlot};
use crate::hungarian::{hungarian, is_assignment, is_min_cost_assignment, total_cost};
use crate::perturbation::{lemma_nudged_close, small_steps, steps_for};
use crate::rows::{is_row_solution, row_problem, solve_rows, solve_rows_with, RowProblem};
use std::collections::{HashMap, HashSet};
use vstd::prelude::*;

verus! {

/// The cost of a number of hops: as many times the cost of one, as far as a `u32`
/// holds it, or the entry of a table, or what is beyond the table.
pub proof fn lemma_transition_cost(transition: &TransitionCosts, n: u32, cost: u32)
    requires
        call_ensures(TransitionCosts::cost, (transition, n), cost),
    ensures
        match transition {
            TransitionCosts::PerHop(per_hop) => cost == if n * *per_hop < u32::MAX {
                n * *per_hop
            } else {
                u32::MAX as int
            },
            TransitionCosts::Table { by_hops, beyond } => cost == if n < by_hops@.len() {
                by_hops@[n as int]
            } else {
                *beyond
            },
        },
{
}

/// Held locations are those where an atom outside the movers sits.
pub proof fn lemma_held_locations(
    config: &Config,
    movers: &HashSet<u32>,
    held: HashSet<u64>,
    loc: u64,
)
    requires
        call_ensures(collect_held_besides, (config, movers), held),
    ensures
        held@.contains(loc) <==> exists|i: int|
            0 <= i < config@.len() && (#[trigger] config@[i]).1.code() == loc && !movers@.contains(
                config@[i].0,
            ),
{
    if exists|i: int|
        0 <= i < config@.len() && (#[trigger] config@[i]).1.code() == loc && !movers@.contains(
            config@[i].0,
        ) {
        let i = choose|i: int|
            0 <= i < config@.len() && (#[trigger] config@[i]).1.code() == loc && !movers@.contains(
                config@[i].0,
            );
        assert(!movers@.contains(config@[i].0) && config@[i].1.code() == loc);
    }
}

/// What it costs one atom to go from `from` to `to`: its hops, the move penalty
/// where it moves at all, and the way from there to its target of the next layer.
pub open spec fn trip(model: CostModel, q: u32, from: u64, to: u64) -> int {
    hops_or_big(model.table, from, to) + (if from == to {
        0
    } else {
        model.move_penalty as int
    }) + (if model.next.contains_key(q) {
        model.transition.of(hops_or_big(model.table, to, model.next[q])) as int
    } else {
        0
    })
}

/// What it costs that atoms which stay hold halves of a position.
pub open spec fn crowding(model: CostModel, slot: PositionSlot) -> int {
    match (model.held.contains(slot.loc_a), model.held.contains(slot.loc_b)) {
        (false, false) => 0,
        (true, true) => model.occupancy.both as int,
        _ => model.occupancy.one as int,
    }
}

/// What it costs to send a pair to `s` and `t`, the halves of a position.
pub open spec fn pair_at(
    model: CostModel,
    pair: (u32, u32),
    from: (u64, u64),
    s: u64,
    t: u64,
    slot: PositionSlot,
) -> int {
    if model.blocked.contains(s) || model.blocked.contains(t) {
        BIG as int
    } else {
        trip(model, pair.0, from.0, s) + trip(model, pair.1, from.1, t) + crowding(model, slot)
    }
}

/// What it costs to send a lone atom to `s`, with `t` across from it.
pub open spec fn atom_at(model: CostModel, q: u32, from: u64, s: u64, t: u64) -> int {
    if model.blocked.contains(s) {
        BIG as int
    } else {
        trip(model, q, from, s) + (if model.held.contains(s) {
            model.occupancy.one as int
        } else {
            0
        }) + (if model.held.contains(t) {
            model.occupancy.one as int
        } else {
            0
        })
    }
}

/// A cost as far as a `u32` holds it.
pub open spec fn held_by_u32(cost: int) -> int {
    if cost < u32::MAX {
        cost
    } else {
        u32::MAX as int
    }
}

/// What it costs to send a row to a position with its first atom at `s` and `t`
/// for the other half.
pub open spec fn row_at(model: CostModel, row: Row, slot: PositionSlot, s: u64, t: u64) -> int {
    held_by_u32(
        match row {
            Row::Pair { qa, qb, loc_a_enc, loc_b_enc } => pair_at(
                model,
                (qa, qb),
                (loc_a_enc, loc_b_enc),
                s,
                t,
                slot,
            ),
            Row::Spectator { qid, loc_enc } => atom_at(model, qid, loc_enc, s, t),
        },
    )
}

/// The lower of two numbers.
pub open spec fn lower(a: int, b: int) -> int {
    if a <= b {
        a
    } else {
        b
    }
}

/// The cost of a cell is that of the cheaper of the two ways to use the position,
/// and the second way is taken exactly where it is strictly cheaper.
pub proof fn lemma_cell_is_cheaper_way(model: CostModel, row: Row, slot: PositionSlot)
    ensures
        ({
            let straight = row_at(model, row, slot, slot.loc_a, slot.loc_b);
            let crossed = row_at(model, row, slot, slot.loc_b, slot.loc_a);
            &&& model.cell_cost(row, slot) == lower(straight, crossed)
            &&& model.cell_swapped(row, slot) <==> crossed < straight
        }),
{
}

/// The two atoms of a pair row, or the one of another row, go to these halves.
pub open spec fn goes_to(targets: Seq<(u32, u64)>, row: Row, s: u64, t: u64) -> bool {
    match row {
        Row::Pair { qa, qb, loc_a_enc, loc_b_enc } => targets.contains((qa, s))
            && targets.contains((qb, t)),
        Row::Spectator { qid, loc_enc } => targets.contains((qid, s)),
    }
}

/// Every row that has a way of cost below the limit goes to its position, in the
/// cheaper way.
pub open spec fn rows_go(
    problem: RowProblem,
    steps: Seq<i32>,
    a: Seq<usize>,
    targets: Seq<(u32, u64)>,
) -> bool {
    forall|i: int|
        0 <= i < problem.rows.len() && (#[trigger] a[i]) < problem.slots.len()
            && problem.costs(steps)[i * problem.slots.len() + a[i]] < BIG ==> {
            let slot = problem.slots[a[i] as int];
            let straight = row_at(problem.model, problem.rows[i], slot, slot.loc_a, slot.loc_b);
            let crossed = row_at(problem.model, problem.rows[i], slot, slot.loc_b, slot.loc_a);
            if straight <= crossed {
                goes_to(targets, problem.rows[i], slot.loc_a, slot.loc_b)
            } else {
                goes_to(targets, problem.rows[i], slot.loc_b, slot.loc_a)
            }
        }
}

/// What the first `n` rows cost at the positions that `a` gives them.
pub open spec fn plan_cost(problem: RowProblem, a: Seq<usize>, n: nat) -> int
    decreases n,
{
    if n == 0 {
        0
    } else {
        let slot = problem.slots[a[n - 1] as int];
        let row = problem.rows[n - 1];
        plan_cost(problem, a, (n - 1) as nat) + lower(
            row_at(problem.model, row, slot, slot.loc_a, slot.loc_b),
            row_at(problem.model, row, slot, slot.loc_b, slot.loc_a),
        )
    }
}

proof fn lemma_plan_cost(problem: RowProblem, steps: Seq<i32>, a: Seq<usize>, n: nat)
    requires
        small_steps(steps),
        n <= problem.rows.len(),
        n <= a.len(),
        forall|i: int| 0 <= i < n ==> #[trigger] a[i] < problem.slots.len(),
    ensures
        ({
            let total = total_cost(
                problem.costs(steps),
                problem.slots.len() as int,
                a.take(n as int),
            );
            &&& plan_cost(problem, a, n) - n <= total <= plan_cost(problem, a, n) + n
            &&& steps.len() == 0 ==> total == plan_cost(problem, a, n)
        }),
    decreases n,
{
    if n > 0 {
        let i = n - 1;
        let j = a[i] as int;
        let part = a.take(n as int);
        assert(part.drop_last() =~= a.take(i));
        assert(part.last() == a[i]);
        lemma_plan_cost(problem, steps, a, i as nat);
        problem.lemma_cell(i, j);
        lemma_cell_is_cheaper_way(problem.model, problem.rows[i], problem.slots[j]);
        lemma_nudged_close(problem.matrix(), steps, i * problem.slots.len() + j);
    } else {
        assert(a.take(0) =~= Seq::<usize>::empty());
    }
}

/// Different rows get different positions, below `n`.
pub open spec fn injective_below(a: Seq<usize>, n_rows: nat, n: nat) -> bool {
    &&& a.len() == n_rows
    &&& forall|i: int| 0 <= i < a.len() ==> #[trigger] a[i] < n
    &&& forall|i: int, j: int| 0 <= i < j < a.len() ==> #[trigger] a[i] != #[trigger] a[j]
}

impl RowProblem {
    /// Rows that are no more than the positions are sent to different positions at
    /// the least total cost: no other choice of different positions is cheaper, but
    /// for what perturbing the costs makes up, one for each row of either choice.
    /// Each row takes its position in the cheaper of the two ways.
    pub proof fn lemma_rows_go_cheapest(self, seed: u64, steps: Seq<i32>, b: Seq<usize>)
        requires
            self.rows.len() <= self.slots.len(),
            self.max_loss is None || self.n_word_pairs <= 1,
            steps_for(seed, self.matrix(), steps),
            self.is_optimal(steps),
            injective_below(b, self.rows.len(), self.slots.len()),
        ensures
            injective_below(self.columns(steps), self.rows.len(), self.slots.len()),
            rows_go(self, steps, self.columns(steps), self.targets(steps)),
            plan_cost(self, self.columns(steps), self.rows.len()) <= plan_cost(
                self,
                b,
                self.rows.len(),
            ) + 2 * self.rows.len(),
            seed == 0 ==> plan_cost(self, self.columns(steps), self.rows.len()) <= plan_cost(
                self,
                b,
                self.rows.len(),
            ),
    {
        crate::assignment_laws::lemma_steps(seed, self.matrix(), steps);
        let (n, m) = (self.rows.len(), self.slots.len() as int);
        let a = self.columns(steps);
        assert(is_assignment(n as int, m, b));
        assert(is_min_cost_assignment(self.costs(steps), n as int, m, a));
        lemma_plan_cost(self, steps, a, n);
        lemma_plan_cost(self, steps, b, n);
        assert(a.take(n as int) =~= a);
        assert(b.take(n as int) =~= b);
        self.lemma_rows_go(steps);
    }

    /// Each row takes its position in the cheaper of the two ways.
    pub proof fn lemma_rows_go(self, steps: Seq<i32>)
        ensures
            rows_go(self, steps, self.columns(steps), self.targets(steps)),
    {
        let a = self.columns(steps);
        let all = self.targets(steps);
        assert forall|i: int|
            0 <= i < self.rows.len() && (#[trigger] a[i]) < self.slots.len() && self.costs(
                steps,
            )[i * self.slots.len() + a[i]] < BIG implies {
            let slot = self.slots[a[i] as int];
            let straight = row_at(self.model, self.rows[i], slot, slot.loc_a, slot.loc_b);
            let crossed = row_at(self.model, self.rows[i], slot, slot.loc_b, slot.loc_a);
            if straight <= crossed {
                goes_to(all, self.rows[i], slot.loc_a, slot.loc_b)
            } else {
                goes_to(all, self.rows[i], slot.loc_b, slot.loc_a)
            }
        } by {
            assert(self.has_target(steps, i));
            let own = self.targets_of_row(steps, i);
            lemma_cell_is_cheaper_way(self.model, self.rows[i], self.slots[a[i] as int]);
            self.lemma_target_of_row(steps, self.rows.len(), i, 0);
            if self.rows[i] is Pair {
                self.lemma_target_of_row(steps, self.rows.len(), i, 1);
                assert(own[1].0 == self.rows[i]->qb);
            }
        }
    }

    /// Only rows have targets, and only rows whose position can be reached.
    pub proof fn lemma_only_rows_go(self, steps: Seq<i32>, q: u32, s: u64)
        requires
            self.targets(steps).contains((q, s)),
        ensures
            exists|i: int| #[trigger]
                self.has_target(steps, i) && 0 <= i < self.rows.len() && {
                    let j = self.columns(steps)[i] as int;
                    let slot = self.slots[j];
                    &&& j < self.slots.len()
                    &&& self.costs(steps)[i * self.slots.len() + j] < BIG
                    &&& s == slot.loc_a || s == slot.loc_b
                    &&& match self.rows[i] {
                        Row::Pair { qa, qb, loc_a_enc, loc_b_enc } => q == qa || q == qb,
                        Row::Spectator { qid, loc_enc } => q == qid,
                    }
                },
    {
        let all = self.targets(steps);
        let k = choose|k: int| 0 <= k < all.len() && all[k] == (q, s);
        let i = self.lemma_row_of_target(steps, self.rows.len(), k);
        let own = self.targets_of_row(steps, i);
        let t = choose|t: int| 0 <= t < own.len() && own[t] == (q, s);
        assert(self.has_target(steps, i));
    }
}

/// [`mixed_row_hungarian`] sends rows to different positions at the least total
/// cost, each in the cheaper of the two ways.
pub proof fn lemma_mixed_rows(
    rows: &[Row],
    slots: &[PositionSlot],
    word_pairs: &[EntanglingWordPair],
    sites_per_word: usize,
    config: &Config,
    dist_table: &DistanceTable,
    row_qubits: &HashSet<u32>,
    blocked: &HashSet<u64>,
    transition_targets: Option<&HashMap<u32, u64>>,
    transition: &TransitionCosts,
    occupancy: OccupancyCosts,
    move_penalty: u32,
    seed: u64,
    targets: Vec<(u32, u64)>,
    b: Seq<usize>,
)
    requires
        rows@.len() <= slots@.len(),
        injective_below(b, rows@.len(), slots@.len()),
        call_ensures(
            mixed_row_hungarian,
            (
                rows,
                slots,
                word_pairs,
                sites_per_word,
                config,
                dist_table,
                row_qubits,
                blocked,
                transition_targets,
                transition,
                None::<u32>,
                occupancy,
                move_penalty,
                seed,
            ),
            targets,
        ),
    ensures
        ({
            let problem = RowProblem {
                model: CostModel {
                    table: dist_table@,
                    held: held_besides(config@, row_qubits@),
                    blocked: blocked@,
                    next: next_targets(transition_targets),
                    transition: transition@,
                    occupancy,
                    move_penalty,
                },
                rows: rows@,
                slots: slots@,
                sites_per_word: sites_per_word as int,
                n_word_pairs: word_pairs@.len() as int,
                max_loss: None,
            };
            exists|a: Seq<usize>, steps: Seq<i32>|
                {
                    &&& injective_below(a, rows@.len(), slots@.len())
                    &&& #[trigger] rows_go(problem, steps, a, targets@)
                    &&& plan_cost(problem, a, rows@.len()) <= plan_cost(problem, b, rows@.len()) + 2
                        * rows@.len()
                    &&& seed == 0 ==> steps.len() == 0 && plan_cost(problem, a, rows@.len())
                        <= plan_cost(problem, b, rows@.len())
                }
        }),
{
    let problem = RowProblem {
        model: CostModel {
            table: dist_table@,
            held: held_besides(config@, row_qubits@),
            blocked: blocked@,
            next: next_targets(transition_targets),
            transition: transition@,
            occupancy,
            move_penalty,
        },
        rows: rows@,
        slots: slots@,
        sites_per_word: sites_per_word as int,
        n_word_pairs: word_pairs@.len() as int,
        max_loss: None,
    };
    let steps = choose|steps: Seq<i32>| #[trigger]
        is_row_solution(problem, seed, steps, targets@);
    problem.lemma_rows_go_cheapest(seed, steps, b);
}

/// What `a` picks of the matrix, row by row.
pub open spec fn picked(costs: Seq<u32>, n_cols: nat, a: Seq<usize>, n: nat) -> int
    decreases n,
{
    if n == 0 {
        0
    } else {
        picked(costs, n_cols, a, (n - 1) as nat) + costs[(n - 1) * n_cols + a[n - 1]]
    }
}

proof fn lemma_picked(costs: Seq<u32>, n_cols: nat, a: Seq<usize>, n: nat)
    requires
        n <= a.len(),
    ensures
        picked(costs, n_cols, a, n) == total_cost(costs, n_cols as int, a.take(n as int)),
    decreases n,
{
    if n > 0 {
        let part = a.take(n as int);
        assert(part.drop_last() =~= a.take(n - 1));
        lemma_picked(costs, n_cols, a, (n - 1) as nat);
    }
}

/// [`hungarian`] gives every row a column of its own, and no other way to do so
/// picks less from the matrix.
pub proof fn lemma_hungarian_picks_least(
    costs: &[u32],
    n_rows: usize,
    n_cols: usize,
    a: Vec<usize>,
    b: Seq<usize>,
)
    requires
        call_ensures(hungarian, (costs, n_rows, n_cols), a),
        injective_below(b, n_rows as nat, n_cols as nat),
    ensures
        injective_below(a@, n_rows as nat, n_cols as nat),
        picked(costs@, n_cols as nat, a@, n_rows as nat) <= picked(
            costs@,
            n_cols as nat,
            b,
            n_rows as nat,
        ),
{
    assert(is_assignment(n_rows as int, n_cols as int, b));
    lemma_picked(costs@, n_cols as nat, a@, n_rows as nat);
    lemma_picked(costs@, n_cols as nat, b, n_rows as nat);
    assert(a@.take(n_rows as int) =~= a@);
    assert(b.take(n_rows as int) =~= b);
}

/// [`CostInputs::cell`] gives the cost of the cheaper way, and whether that is the second one.
pub proof fn lemma_cell_call(
    inputs: &CostInputs<'_>,
    row: Row,
    slot: PositionSlot,
    cell: (u32, bool),
)
    requires
        call_ensures(CostInputs::cell, (inputs, &row, &slot), cell),
    ensures
        ({
            let model = CostModel {
                table: inputs.dist_table@,
                held: inputs.held@,
                blocked: inputs.blocked@,
                next: next_targets(inputs.next),
                transition: inputs.transition@,
                occupancy: inputs.occupancy,
                move_penalty: inputs.move_penalty,
            };
            let straight = row_at(model, row, slot, slot.loc_a, slot.loc_b);
            let crossed = row_at(model, row, slot, slot.loc_b, slot.loc_a);
            &&& cell.0 == lower(straight, crossed)
            &&& cell.1 <==> crossed < straight
        }),
{
    lemma_cell_is_cheaper_way(inputs.model(), row, slot);
}

/// With the steps given, [`solve_rows_with`] sends rows to different positions at the least
/// total of the costs changed by them; without steps it does what [`solve_rows`] does with
/// seed 0.
pub proof fn lemma_solve_rows(
    inputs: &CostInputs<'_>,
    rows: &[Row],
    slots: &[PositionSlot],
    sites_per_word: usize,
    n_word_pairs: usize,
    steps: &[i32],
    targets: Vec<(u32, u64)>,
    solved: (Vec<(u32, u64)>, Vec<i32>),
    b: Seq<usize>,
) -> (found: (RowProblem, Seq<usize>))
    requires
        call_ensures(
            solve_rows_with,
            (inputs, rows, slots, sites_per_word, n_word_pairs, None::<u32>, steps),
            targets,
        ),
        call_ensures(
            solve_rows,
            (inputs, rows, slots, sites_per_word, n_word_pairs, None::<u32>, 0u64),
            solved,
        ),
        rows@.len() <= slots@.len(),
        injective_below(b, rows@.len(), slots@.len()),
    ensures
        ({
            let (problem, a) = found;
            let costs = problem.costs(steps@);
            &&& problem.rows == rows@
            &&& problem.slots == slots@
            &&& problem.model == inputs.model()
            &&& injective_below(a, rows@.len(), slots@.len())
            &&& rows_go(problem, steps@, a, targets@)
            &&& picked(costs, slots@.len(), a, rows@.len()) <= picked(
                costs,
                slots@.len(),
                b,
                rows@.len(),
            )
            &&& solved.1@.len() == 0
            &&& steps@.len() == 0 ==> targets@ == solved.0@
        }),
{
    let problem = row_problem(inputs, rows@, slots@, sites_per_word, n_word_pairs, None);
    let (n, m) = (rows@.len(), slots@.len());
    let a = problem.columns(steps@);
    problem.lemma_rows_go(steps@);
    assert(is_min_cost_assignment(problem.costs(steps@), n as int, m as int, a));
    assert(is_assignment(n as int, m as int, b));
    lemma_picked(problem.costs(steps@), m, a, n);
    lemma_picked(problem.costs(steps@), m, b, n);
    assert(a.take(n as int) =~= a);
    assert(b.take(n as int) =~= b);
    if steps@.len() == 0 {
        assert(steps@ =~= solved.1@);
    }
    (problem, a)
}

} // verus!
