//! When two ways to assign a layer agree.
//!
//! Where a seed draws, the draws of two calls may differ. So these laws say of
//! every seed that a result of one way, with certain draws, is a result of the
//! other way with the same draws. With seed 0 there are no draws, and the two
//! results are equal.

use crate::arch::{ArchModel, LocationAddr};
use crate::assignment::{lemma_placed_count, pair_rows, placed_pairs_of, Layer, Staged};
use crate::config::{lemma_entry_of_location, location_in, place_map};
use crate::costs::{CostModel, OccupancyCosts};
use crate::entangling::word_pairs;
use crate::goals::{grid_of, on_grid, pair_qubits, pairs_apart};
use crate::lookahead::{free_transition, target_map, Plan};
use crate::perturbation::steps_for;
use crate::placement_laws::share_qubit;
use crate::repair::{decoded, separated_targets, Repair};
use crate::rows::RowProblem;
use vstd::prelude::*;

verus! {

impl Layer {
    /// Atoms of pairs are never charged for: where every atom is in a pair of
    /// the layer, it does not matter what held positions cost.
    pub proof fn lemma_pair_atoms_not_charged(
        self,
        occupancy: OccupancyCosts,
        seed: u64,
        steps: Seq<i32>,
        targets: Seq<(u32, u64)>,
    )
        requires
            forall|i: int|
                0 <= i < self.entries.len() ==> self.pair_qubits().contains(
                    (#[trigger] self.entries[i]).0,
                ),
        ensures
            self.is_pair_assignment(seed, steps, targets) <==> (Layer {
                occupancy,
                ..self
            }).is_pair_assignment(seed, steps, targets),
    {
        let other = Layer { occupancy, ..self };
        let problem = self.pair_problem();
        problem.lemma_nothing_held(occupancy, steps);
        assert(other.pair_problem() == (RowProblem {
            model: (CostModel { occupancy, ..problem.model }),
            ..problem
        }));
    }

    /// With one word pair, or one placed pair, it does not matter whether pairs
    /// may leave crowded word pairs.
    pub proof fn lemma_unspread(
        self,
        max_loss: Option<u32>,
        seed: u64,
        steps: Seq<i32>,
        targets: Seq<(u32, u64)>,
    )
        requires
            word_pairs(self.arch).len() <= 1 || self.placed().len() <= 1,
        ensures
            self.is_pair_assignment(seed, steps, targets) <==> (Layer {
                max_loss,
                ..self
            }).is_pair_assignment(seed, steps, targets),
    {
        let other = Layer { max_loss, ..self };
        if self.is_pair_assignment(seed, steps, targets) {
            self.lemma_unspread_one_way(max_loss, seed, steps, targets);
        }
        if other.is_pair_assignment(seed, steps, targets) {
            other.lemma_unspread_one_way(self.max_loss, seed, steps, targets);
            assert((Layer { max_loss: self.max_loss, ..other }) == self);
        }
    }

    proof fn lemma_unspread_one_way(
        self,
        max_loss: Option<u32>,
        seed: u64,
        steps: Seq<i32>,
        targets: Seq<(u32, u64)>,
    )
        requires
            word_pairs(self.arch).len() <= 1 || self.placed().len() <= 1,
            self.is_pair_assignment(seed, steps, targets),
        ensures
            (Layer { max_loss, ..self }).is_pair_assignment(seed, steps, targets),
    {
        let other = Layer { max_loss, ..self };
        if self.placed().len() > 0 && self.slots().len() > 0 {
            let problem = self.pair_problem();
            assert(other.pair_problem() == (RowProblem { max_loss, ..problem }));
            assert(other.pair_problem().matrix() =~= problem.matrix());
            if problem.n_word_pairs <= 1 {
                problem.lemma_same_loss(max_loss, steps);
            } else {
                problem.lemma_single_row_unspread(max_loss, steps);
            }
        }
    }
}

impl RowProblem {
    /// With one word pair there is nothing to rebalance.
    pub proof fn lemma_same_loss(self, max_loss: Option<u32>, steps: Seq<i32>)
        requires
            self.n_word_pairs <= 1,
        ensures
            self.targets(steps) == (RowProblem { max_loss, ..self }).targets(steps),
    {
        let other = RowProblem { max_loss, ..self };
        assert(self.matrix() =~= other.matrix());
        self.lemma_same_loss_of(other, steps, self.rows.len());
    }

    proof fn lemma_same_loss_of(self, other: RowProblem, steps: Seq<i32>, n: nat)
        requires
            self.rows == other.rows,
            self.slots == other.slots,
            self.model == other.model,
            self.costs(steps) == other.costs(steps),
            self.columns(steps) == other.columns(steps),
        ensures
            self.targets_of(steps, n) == other.targets_of(steps, n),
        decreases n,
    {
        if n > 0 {
            self.lemma_same_loss_of(other, steps, (n - 1) as nat);
        }
    }

    /// With more rows than positions, some row gets none.
    pub proof fn lemma_row_left_out(self, steps: Seq<i32>) -> (r: int)
        requires
            self.is_optimal(steps),
            self.fits(),
            self.rows.len() > self.slots.len(),
        ensures
            0 <= r < self.rows.len(),
            !self.has_target(steps, r),
    {
        self.lemma_columns_distinct(steps);
        let columns = self.columns(steps);
        let n = self.slots.len();
        if forall|r: int| 0 <= r < columns.len() ==> #[trigger] columns[r] < n {
            let numbers = columns.map_values(|c: usize| c as int);
            assert(numbers.no_duplicates());
            numbers.unique_seq_to_set();
            vstd::set_lib::lemma_int_range(0, n as int);
            let all = vstd::set_lib::set_int_range(0, n as int);
            assert forall|c: int| numbers.to_set().contains(c) implies all.contains(c) by {
                let r = choose|r: int| 0 <= r < numbers.len() && numbers[r] == c;
                assert(columns[r] < n);
            }
            vstd::set_lib::lemma_len_subset(numbers.to_set(), all);
        }
        choose|r: int| 0 <= r < columns.len() && !(#[trigger] columns[r] < n)
    }
}

/// Two placed pairs stand at two places of the list of pairs.
proof fn lemma_two_placed(
    pairs: Seq<(u32, u32)>,
    entries: Seq<(u32, LocationAddr)>,
    n: nat,
    r: int,
    s: int,
) -> (at: (int, int))
    requires
        n <= pairs.len(),
        0 <= r < s < placed_pairs_of(pairs, entries, n).len(),
    ensures
        0 <= at.0 < at.1 < n,
        pairs[at.0] == placed_pairs_of(pairs, entries, n)[r].0,
        pairs[at.1] == placed_pairs_of(pairs, entries, n)[s].0,
    decreases n,
{
    let rest = placed_pairs_of(pairs, entries, (n - 1) as nat);
    if s < rest.len() {
        lemma_two_placed(pairs, entries, (n - 1) as nat, r, s)
    } else {
        (lemma_one_placed(pairs, entries, (n - 1) as nat, r), n - 1)
    }
}

proof fn lemma_one_placed(
    pairs: Seq<(u32, u32)>,
    entries: Seq<(u32, LocationAddr)>,
    n: nat,
    r: int,
) -> (at: int)
    requires
        n <= pairs.len(),
        0 <= r < placed_pairs_of(pairs, entries, n).len(),
    ensures
        0 <= at < n,
        pairs[at] == placed_pairs_of(pairs, entries, n)[r].0,
    decreases n,
{
    let rest = placed_pairs_of(pairs, entries, (n - 1) as nat);
    if r < rest.len() {
        lemma_one_placed(pairs, entries, (n - 1) as nat, r)
    } else {
        n - 1
    }
}

/// A qubit on the grid has a target.
proof fn lemma_target_of_placed(targets: Seq<(u32, u64)>, q: u32) -> (k: int)
    requires
        place_map(decoded(targets)).contains_key(q),
    ensures
        0 <= k < targets.len(),
        targets[k].0 == q,
{
    let entries = decoded(targets);
    lemma_entry_of_location(entries, q);
    let loc = location_in(entries, q)->0;
    let k = choose|k: int| 0 <= k < entries.len() && entries[k] == (q, loc);
    assert(entries[k].0 == targets[k].0);
    k
}

/// Targets for the qubits of two pairs with a qubit in common are never
/// separated.
proof fn lemma_sharing_not_separated(
    targets: Seq<(u32, u64)>,
    pairs: Seq<(u32, u32)>,
    arch: ArchModel,
    i: int,
    j: int,
)
    requires
        0 <= i < j < pairs.len(),
        share_qubit(pairs[i], pairs[j]),
    ensures
        !separated_targets(targets, pairs, arch),
{
    let places = place_map(decoded(targets));
    if separated_targets(targets, pairs, arch) {
        assert(pairs_apart(places, pairs[i], pairs[j], arch));
    }
}

impl Staged {
    /// With more placed pairs than positions, targets for the same qubits as a
    /// pair assignment are never separated: the qubits of a pair that was left
    /// out have none, or share the one of another pair.
    proof fn lemma_crowded_not_separated(
        self,
        seed: u64,
        steps: Seq<i32>,
        greedy: Seq<(u32, u64)>,
        targets: Seq<(u32, u64)>,
    )
        requires
            self.layer.pairs_fit(),
            0 < self.layer.slots().len() < self.layer.placed().len(),
            self.layer.is_pair_assignment(seed, steps, greedy),
            targets.len() == greedy.len(),
            forall|k: int| 0 <= k < greedy.len() ==> (#[trigger] targets[k]).0 == greedy[k].0,
        ensures
            !separated_targets(targets, self.layer.pairs, self.lanes),
    {
        let (pairs, entries) = (self.layer.pairs, self.layer.entries);
        let placed = self.layer.placed();
        let problem = self.layer.pair_problem();
        lemma_placed_count(pairs, entries, pairs.len());
        self.layer.lemma_problem_fits(
            pair_rows(placed),
            self.layer.pair_qubits(),
            Set::empty(),
            0,
        );
        let r = problem.lemma_row_left_out(steps);
        let m = lemma_one_placed(pairs, entries, pairs.len(), r);
        if separated_targets(targets, pairs, self.lanes) {
            let places = place_map(decoded(targets));
            let q = pairs[m].0;
            assert(on_grid(places, pairs[m], self.lanes));
            assert(grid_of(places, q, self.lanes) is Some);
            let k = lemma_target_of_placed(targets, q);
            assert(targets[k].0 == greedy[k].0);
            let s = problem.lemma_row_of_target(steps, problem.rows.len(), k);
            let own = problem.targets_of_row(steps, s);
            let t = choose|t: int| 0 <= t < own.len() && own[t] == greedy[k];
            assert(own[t].0 == placed[s].0.0 || own[t].0 == placed[s].0.1);
            if r < s {
                let (i, j) = lemma_two_placed(pairs, entries, pairs.len(), r, s);
                lemma_sharing_not_separated(targets, pairs, self.lanes, i, j);
            } else {
                let (i, j) = lemma_two_placed(pairs, entries, pairs.len(), s, r);
                lemma_sharing_not_separated(targets, pairs, self.lanes, i, j);
            }
        }
    }

    /// With more placed pairs than positions, the repair changes no assignment
    /// of the pairs.
    pub proof fn lemma_crowded_unrepaired(
        self,
        seed: u64,
        steps: Seq<i32>,
        greedy: Seq<(u32, u64)>,
    )
        requires
            self.layer.pairs_fit(),
            0 < self.layer.slots().len() < self.layer.placed().len(),
            self.layer.is_pair_assignment(seed, steps, greedy),
        ensures
            self.finished(greedy) == greedy,
    {
        let repair = Repair {
            targets: greedy,
            pairs: self.layer.pairs,
            placed: self.layer.placed(),
            slots: self.layer.slots(),
            table: self.layer.table,
            arch: self.lanes,
            blocked: self.blocked,
        };
        repair.lemma_repaired_cases();
        if repair.repaired() != greedy {
            let (i, j, swapped) = choose|i: int, j: int, swapped: bool| #[trigger]
                repair.is_fix(i, j, swapped) && repair.repaired() == repair.trial(
                    repair.pairs[i],
                    j,
                    swapped,
                );
            let trial = repair.trial(repair.pairs[i], j, swapped);
            assert(repair.works(repair.pairs[i], j, swapped));
            self.lemma_crowded_not_separated(seed, steps, greedy, trial);
        }
    }

    /// With more placed pairs than positions, a layer is assigned as its pairs
    /// alone are.
    pub proof fn lemma_crowded_is_greedy(self, seed: u64, targets: Seq<(u32, u64)>)
        requires
            self.layer.pairs_fit(),
            0 < self.layer.slots().len() < self.layer.placed().len(),
        ensures
            self.assigns(seed, targets) <==> exists|steps: Seq<i32>| #[trigger]
                self.layer.is_pair_assignment(seed, steps, targets),
    {
        if self.assigns(seed, targets) {
            let draws = choose|draws: Seq<Seq<i32>>| self.is_outcome(seed, draws, targets);
            let greedy = self.layer.pair_problem().targets(draws[0]);
            self.lemma_crowded_unrepaired(seed, draws[0], greedy);
            assert(self.layer.is_pair_assignment(seed, draws[0], targets));
        }
        if exists|steps: Seq<i32>| #[trigger] self.layer.is_pair_assignment(seed, steps, targets) {
            let steps = choose|steps: Seq<i32>| #[trigger]
                self.layer.is_pair_assignment(seed, steps, targets);
            self.lemma_crowded_unrepaired(seed, steps, targets);
            assert(self.is_outcome(seed, seq![steps], targets));
        }
    }

    /// Where every atom is in a pair, nothing is an obstacle.
    proof fn lemma_no_obstacles(self, targets: Seq<(u32, u64)>)
        requires
            forall|i: int|
                0 <= i < self.layer.entries.len() ==> self.layer.pair_qubits().contains(
                    (#[trigger] self.layer.entries[i]).0,
                ),
        ensures
            self.obstacles(Seq::empty(), targets).len() == 0,
    {
        if self.obstacles(Seq::empty(), targets).len() > 0 {
            self.lemma_obstacles(Seq::empty(), targets, 0);
            let q = self.obstacles(Seq::empty(), targets)[0];
            let entries = self.layer.entries;
            let i = choose|i: int| 0 <= i < entries.len() && (#[trigger] entries[i]).0 == q;
            assert(self.layer.pair_qubits().contains(entries[i].0));
        }
    }

    /// The first pass of a layer of which every atom is in a pair.
    proof fn lemma_first_pass(self, steps: Seq<i32>)
        requires
            self.blocked == Set::<u64>::empty(),
            self.move_penalty == 0,
            self.layer.placed().len() <= self.layer.slots().len(),
            forall|i: int|
                0 <= i < self.layer.entries.len() ==> self.layer.pair_qubits().contains(
                    (#[trigger] self.layer.entries[i]).0,
                ),
        ensures
            self.kept(self.run(Seq::empty()).blockers) == Seq::<u32>::empty(),
            self.problem(Seq::empty()) == self.layer.pair_problem(),
            self.run(seq![steps]).settled,
            self.run(seq![steps]).targets == self.layer.pair_problem().targets(steps),
            !self.run(Seq::empty()).settled,
    {
        let none: Seq<u32> = Seq::empty();
        let zero = Seq::<Seq<i32>>::empty();
        assert(self.run(zero) == self.start());
        assert(self.kept(none) =~= none);
        assert(self.rows(none) =~= pair_rows(self.layer.placed()));
        assert(self.row_qubits(none) =~= self.layer.pair_qubits());
        assert(self.problem(none) == self.layer.pair_problem());
        assert(seq![steps].drop_last() =~= zero);
        self.lemma_no_obstacles(self.problem(none).targets(steps));
    }

    /// Where every atom is in a pair, nothing is blocked and moves are free, a
    /// layer is assigned as its pairs alone are, and then repaired.
    pub proof fn lemma_without_spectators(self, seed: u64, targets: Seq<(u32, u64)>)
        requires
            self.blocked == Set::<u64>::empty(),
            self.move_penalty == 0,
            self.layer.placed().len() <= self.layer.slots().len(),
            forall|i: int|
                0 <= i < self.layer.entries.len() ==> self.layer.pair_qubits().contains(
                    (#[trigger] self.layer.entries[i]).0,
                ),
        ensures
            self.assigns(seed, targets) <==> exists|steps: Seq<i32>, greedy: Seq<(u32, u64)>|
                #[trigger] self.layer.is_pair_assignment(seed, steps, greedy) && targets
                    == self.finished(greedy),
    {
        if self.layer.placed().len() == 0 || self.layer.slots().len() == 0 {
            self.lemma_nothing_to_assign(seed, targets);
        } else {
            if self.assigns(seed, targets) {
                let draws = choose|draws: Seq<Seq<i32>>| self.is_outcome(seed, draws, targets);
                let steps = draws[0];
                self.lemma_first_pass(steps);
                assert(draws.take(0) =~= Seq::<Seq<i32>>::empty());
                assert(draws.take(1) =~= seq![steps]);
                if draws.len() > 1 {
                    assert(!self.run(draws.take(1)).settled);
                }
                assert(draws =~= seq![steps]);
                let greedy = self.layer.pair_problem().targets(steps);
                assert(self.layer.is_pair_assignment(seed, steps, greedy));
            }
            if exists|steps: Seq<i32>, greedy: Seq<(u32, u64)>| #[trigger]
                self.layer.is_pair_assignment(seed, steps, greedy) && targets == self.finished(
                    greedy,
                ) {
                let (steps, greedy) = choose|steps: Seq<i32>, greedy: Seq<(u32, u64)>| #[trigger]
                    self.layer.is_pair_assignment(seed, steps, greedy) && targets
                        == self.finished(greedy);
                self.lemma_first_pass(steps);
                let draws = seq![steps];
                assert forall|n: int| 0 <= n < draws.len() implies ({
                    let before = self.run(#[trigger] draws.take(n));
                    let problem = self.problem(self.kept(before.blockers));
                    &&& !before.settled
                    &&& steps_for(seed, problem.matrix(), draws[n])
                    &&& problem.is_optimal(draws[n])
                }) by {
                    assert(draws.take(n) =~= Seq::<Seq<i32>>::empty());
                }
                assert(self.is_outcome(seed, draws, targets));
            }
        }
    }

    proof fn lemma_nothing_to_assign(self, seed: u64, targets: Seq<(u32, u64)>)
        requires
            self.layer.placed().len() == 0 || self.layer.slots().len() == 0,
        ensures
            self.assigns(seed, targets) <==> exists|steps: Seq<i32>, greedy: Seq<(u32, u64)>|
                #[trigger] self.layer.is_pair_assignment(seed, steps, greedy) && targets
                    == self.finished(greedy),
    {
        let none = Seq::<(u32, u64)>::empty();
        self.lemma_finished_empty();
        if self.assigns(seed, targets) {
            let draws = choose|draws: Seq<Seq<i32>>| self.is_outcome(seed, draws, targets);
            assert(targets =~= none);
            assert(self.layer.is_pair_assignment(seed, Seq::empty(), none));
        }
        if exists|steps: Seq<i32>, greedy: Seq<(u32, u64)>| #[trigger]
            self.layer.is_pair_assignment(seed, steps, greedy) && targets == self.finished(greedy) {
            let (steps, greedy) = choose|steps: Seq<i32>, greedy: Seq<(u32, u64)>| #[trigger]
                self.layer.is_pair_assignment(seed, steps, greedy) && targets == self.finished(
                    greedy,
                );
            assert(greedy =~= none);
            assert(self.is_outcome(seed, Seq::empty(), targets));
        }
    }

    /// A repair makes no targets up.
    pub proof fn lemma_finished_empty(self)
        ensures
            self.finished(Seq::empty()) == Seq::<(u32, u64)>::empty(),
    {
        let repair = Repair {
            targets: Seq::empty(),
            pairs: self.layer.pairs,
            placed: self.layer.placed(),
            slots: self.layer.slots(),
            table: self.layer.table,
            arch: self.lanes,
            blocked: self.blocked,
        };
        repair.lemma_repaired_one_pair();
        assert(repair.repaired() =~= Seq::<(u32, u64)>::empty());
    }

    /// A single pair with no other atom around, nothing blocked and free moves,
    /// is assigned as it is alone.
    pub proof fn lemma_single_pair_alone(self, seed: u64, targets: Seq<(u32, u64)>)
        requires
            self.blocked == Set::<u64>::empty(),
            self.move_penalty == 0,
            self.layer.pairs.len() == 1,
            forall|i: int|
                0 <= i < self.layer.entries.len() ==> (#[trigger] self.layer.entries[i]).0
                    == self.layer.pairs[0].0 || self.layer.entries[i].0 == self.layer.pairs[0].1,
        ensures
            self.assigns(seed, targets) <==> exists|steps: Seq<i32>| #[trigger]
                self.layer.is_pair_assignment(seed, steps, targets),
    {
        lemma_placed_count(self.layer.pairs, self.layer.entries, 1);
        assert forall|i: int| 0 <= i < self.layer.entries.len() implies
            self.layer.pair_qubits().contains((#[trigger] self.layer.entries[i]).0) by {
            assert(pair_qubits(self.layer.pairs).contains(self.layer.pairs[0].0));
            assert(pair_qubits(self.layer.pairs).contains(self.layer.pairs[0].1));
        }
        assert forall|greedy: Seq<(u32, u64)>| #[trigger] self.finished(greedy) == greedy by {
            reveal(Repair::repaired);
        }
        if self.layer.slots().len() == 0 {
            self.lemma_nothing_to_assign(seed, targets);
        } else {
            self.lemma_without_spectators(seed, targets);
        }
        if exists|steps: Seq<i32>| #[trigger] self.layer.is_pair_assignment(seed, steps, targets) {
            let steps = choose|steps: Seq<i32>| #[trigger]
                self.layer.is_pair_assignment(seed, steps, targets);
            assert(self.finished(targets) == targets);
        }
    }
}

impl Plan {
    /// With one later layer, two passes are three assignments: the current
    /// layer, the later one from where that leaves the atoms, and the current
    /// one again with the targets of the later one in view.
    pub proof fn lemma_two_layers(self, seed: u64, targets: Seq<(u32, u64)>)
        requires
            self.layers.len() == 2,
        ensures
            self.assigns(seed, targets) <==> exists|first: Seq<(u32, u64)>, next: Seq<(u32, u64)>|
                #[trigger] self.is_three_calls(seed, first, next, targets),
    {
        if self.assigns(seed, targets) {
            let (forward, refined) = choose|
                forward: Seq<Seq<(u32, u64)>>,
                refined: Seq<Seq<(u32, u64)>>,
            | #[trigger]
                self.is_two_pass(seed, forward, refined) && targets == refined[0];
            self.lemma_two_pass_is_three_calls(seed, forward, refined);
        }
        if exists|first: Seq<(u32, u64)>, next: Seq<(u32, u64)>| #[trigger]
            self.is_three_calls(seed, first, next, targets) {
            let (first, next) = choose|first: Seq<(u32, u64)>, next: Seq<(u32, u64)>| #[trigger]
                self.is_three_calls(seed, first, next, targets);
            self.lemma_three_calls_are_two_pass(seed, first, next, targets);
            assert(seq![targets, next][0] == targets);
        }
    }

    proof fn lemma_two_pass_is_three_calls(
        self,
        seed: u64,
        forward: Seq<Seq<(u32, u64)>>,
        refined: Seq<Seq<(u32, u64)>>,
    )
        requires
            self.layers.len() == 2,
            self.is_two_pass(seed, forward, refined),
        ensures
            self.is_three_calls(seed, forward[0], forward[1], refined[0]),
    {
        assert(self.is_forward(seed, forward, 0));
        assert(self.is_forward(seed, forward, 1));
        assert(self.is_refined(seed, forward, refined, 0));
        self.lemma_same_entries(forward, seq![forward[0]]);
    }

    proof fn lemma_three_calls_are_two_pass(
        self,
        seed: u64,
        first: Seq<(u32, u64)>,
        next: Seq<(u32, u64)>,
        targets: Seq<(u32, u64)>,
    )
        requires
            self.layers.len() == 2,
            self.is_three_calls(seed, first, next, targets),
        ensures
            self.is_two_pass(seed, seq![first, next], seq![targets, next]),
    {
        let forward = seq![first, next];
        let refined = seq![targets, next];
        self.lemma_same_entries(forward, seq![first]);
        assert forall|i: nat| i < 2 implies #[trigger] self.is_forward(seed, forward, i) by {
            assert(i == 0 || i == 1);
        }
        assert forall|i: nat| i + 1 < 2 implies #[trigger] self.is_refined(
            seed,
            forward,
            refined,
            i,
        ) by {
            assert(i == 0);
        }
    }

    /// `first` assigns the current layer without, and `targets` with, regard to
    /// `next`, which assigns the later one after `first`.
    pub open spec fn is_three_calls(
        self,
        seed: u64,
        first: Seq<(u32, u64)>,
        next: Seq<(u32, u64)>,
        targets: Seq<(u32, u64)>,
    ) -> bool {
        &&& self.staged(seq![first], 0, Map::empty(), free_transition()).assigns(seed, first)
        &&& self.staged(seq![first], 1, Map::empty(), free_transition()).assigns(seed, next)
        &&& self.staged(seq![first], 0, target_map(next), self.transition).assigns(seed, targets)
    }

    proof fn lemma_same_entries(self, a: Seq<Seq<(u32, u64)>>, b: Seq<Seq<(u32, u64)>>)
        requires
            a[0] == b[0],
        ensures
            self.entries_at(a, 0) == self.entries_at(b, 0),
            self.entries_at(a, 1) == self.entries_at(b, 1),
    {
        assert(self.entries_at(a, 0) == self.entries);
        assert(self.entries_at(b, 0) == self.entries);
    }
}

} // verus!
