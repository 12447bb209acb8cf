//! What every assignment of a layer has in common.

use crate::arch::LocationAddr;
use crate::assignment::{pair_rows, Layer, Staged};
use crate::blockers::{
    is_blocker, is_created_accidental, lemma_blockers_outside_rows, Spectators,
};
use crate::config::{lemma_entry_of_location, lemma_occupant_entry, location_in};
use crate::entangling::{is_regular, lemma_slots_disjoint};
use crate::goals::{lemma_pair_qubits_finite, pair_qubits};
use crate::perturbation::{small_steps, steps_for};
use crate::repair::Repair;
use crate::rows::slots_disjoint;
use crate::seqs::{lemma_sorted_members_hold, sorted_members};
use vstd::prelude::*;

verus! {

/// Steps that belong to a seed are small, and there are none for seed 0.
pub proof fn lemma_steps(seed: u64, costs: Seq<u32>, steps: Seq<i32>)
    requires
        steps_for(seed, costs, steps),
    ensures
        small_steps(steps),
        seed == 0 ==> steps == Seq::<i32>::empty(),
{
    if seed == 0 {
        assert(steps =~= Seq::<i32>::empty());
    }
}

impl Layer {
    /// With seed 0 the pairs have one assignment.
    pub proof fn lemma_pair_assignment_unique(
        self,
        steps_a: Seq<i32>,
        a: Seq<(u32, u64)>,
        steps_b: Seq<i32>,
        b: Seq<(u32, u64)>,
    )
        requires
            self.is_pair_assignment(0, steps_a, a),
            self.is_pair_assignment(0, steps_b, b),
        ensures
            a == b,
    {
        if self.placed().len() == 0 || self.slots().len() == 0 {
            assert(a =~= b);
        } else {
            lemma_steps(0, self.pair_problem().matrix(), steps_a);
            lemma_steps(0, self.pair_problem().matrix(), steps_b);
        }
    }

    /// In a regular architecture, no location is the target of two qubits.
    pub proof fn lemma_pairs_no_double_booking(
        self,
        seed: u64,
        steps: Seq<i32>,
        targets: Seq<(u32, u64)>,
        k: int,
        l: int,
    )
        requires
            is_regular(self.arch),
            self.pairs_fit(),
            self.is_pair_assignment(seed, steps, targets),
            0 <= k < l < targets.len(),
        ensures
            targets[k].1 != targets[l].1,
    {
        self.lemma_disjoint();
        crate::assignment::lemma_placed_count(self.pairs, self.entries, self.pairs.len());
        self.lemma_problem_fits(
            pair_rows(self.placed()),
            self.pair_qubits(),
            Set::empty(),
            0,
        );
        self.pair_problem().lemma_no_double_booking(steps, k, l);
    }

    proof fn lemma_disjoint(self)
        requires
            is_regular(self.arch),
        ensures
            slots_disjoint(self.slots()),
    {
        let slots = self.slots();
        assert forall|j: int| 0 <= j < slots.len() implies (#[trigger] slots[j]).loc_a
            != slots[j].loc_b by {
            lemma_slots_disjoint(self.arch, j, j);
        }
        assert forall|j: int, k: int| 0 <= j < k < slots.len() implies ({
            &&& (#[trigger] slots[j]).loc_a != (#[trigger] slots[k]).loc_a
            &&& slots[j].loc_a != slots[k].loc_b
            &&& slots[j].loc_b != slots[k].loc_a
            &&& slots[j].loc_b != slots[k].loc_b
        }) by {
            lemma_slots_disjoint(self.arch, j, k);
        }
    }
}

impl Staged {
    /// The last pass of a run.
    pub proof fn lemma_last_pass(self, seed: u64, draws: Seq<Seq<i32>>)
        requires
            self.is_run(seed, draws),
            draws.len() > 0,
        ensures
            ({
                let before = self.run(draws.drop_last());
                let problem = self.problem(self.kept(before.blockers));
                &&& self.run(draws) == self.after(before, draws.last())
                &&& !before.settled
                &&& steps_for(seed, problem.matrix(), draws.last())
                &&& small_steps(draws.last())
                &&& problem.is_optimal(draws.last())
            }),
    {
        let n = draws.len() - 1;
        assert(draws.take(n) =~= draws.drop_last());
        let before = self.run(draws.take(n));
        let problem = self.problem(self.kept(before.blockers));
        lemma_steps(seed, problem.matrix(), draws[n]);
    }

    pub proof fn lemma_shorter_run(self, seed: u64, draws: Seq<Seq<i32>>, n: int)
        requires
            self.is_run(seed, draws),
            0 <= n <= draws.len(),
        ensures
            self.is_run(seed, draws.take(n)),
    {
        let part = draws.take(n);
        assert forall|k: int| 0 <= k < part.len() implies ({
            let before = self.run(#[trigger] part.take(k));
            let problem = self.problem(self.kept(before.blockers));
            &&& !before.settled
            &&& steps_for(seed, problem.matrix(), part[k])
            &&& problem.is_optimal(part[k])
        }) by {
            assert(part.take(k) =~= draws.take(k));
            assert(part[k] == draws[k]);
        }
    }

    /// Rows of the kept blockers never outnumber the positions, nor the pairs and
    /// atoms together.
    proof fn lemma_rows_fit(self, blockers: Seq<u32>)
        requires
            self.layer.fits(),
            self.layer.placed().len() <= self.layer.slots().len(),
            self.are_blockers(blockers),
        ensures
            self.problem(self.kept(blockers)).fits(),
    {
        let kept = self.kept(blockers);
        self.lemma_blockers_placed(blockers);
        crate::assignment::lemma_placed_count(
            self.layer.pairs,
            self.layer.entries,
            self.layer.pairs.len(),
        );
        crate::assignment::lemma_spectator_rows_count(kept, self.layer.entries, kept.len());
        self.layer.lemma_problem_fits(
            self.rows(kept),
            self.row_qubits(kept),
            self.blocked,
            self.move_penalty,
        );
    }

    /// In a regular architecture, no pass sends two qubits to one location.
    pub proof fn lemma_pass_no_double_booking(
        self,
        seed: u64,
        draws: Seq<Seq<i32>>,
        k: int,
        l: int,
    )
        requires
            is_regular(self.layer.arch),
            self.layer.fits(),
            self.layer.placed().len() <= self.layer.slots().len(),
            self.is_run(seed, draws),
            0 <= k < l < self.run(draws).targets.len(),
        ensures
            self.run(draws).targets[k].1 != self.run(draws).targets[l].1,
    {
        self.lemma_last_pass(seed, draws);
        let before = self.run(draws.drop_last());
        self.layer.lemma_disjoint();
        assert(draws.take(draws.len() - 1) =~= draws.drop_last());
        self.lemma_shorter_run(seed, draws, draws.len() - 1);
        self.lemma_run_blockers(seed, draws.drop_last());
        self.lemma_rows_fit(before.blockers);
        self.problem(self.kept(before.blockers)).lemma_no_double_booking(draws.last(), k, l);
    }

    /// Unless there are more pairs than positions, nothing is ever sent to a
    /// blocked location.
    pub proof fn lemma_outcome_unblocked(
        self,
        seed: u64,
        draws: Seq<Seq<i32>>,
        targets: Seq<(u32, u64)>,
        k: int,
    )
        requires
            self.is_outcome(seed, draws, targets),
            self.layer.placed().len() <= self.layer.slots().len(),
            0 <= k < targets.len(),
        ensures
            !self.blocked.contains(targets[k].1),
    {
        self.lemma_last_pass(seed, draws);
        let before = self.run(draws.drop_last());
        let problem = self.problem(self.kept(before.blockers));
        let raw = self.run(draws).targets;
        let repair = Repair {
            targets: raw,
            pairs: self.layer.pairs,
            placed: self.layer.placed(),
            slots: self.layer.slots(),
            table: self.layer.table,
            arch: self.lanes,
            blocked: self.blocked,
        };
        repair.lemma_repaired_one_pair();
        assert(raw == problem.targets(draws.last()));
        problem.lemma_target_unblocked(draws.last(), k);
        repair.lemma_repaired_unblocked(k);
    }

    /// With seed 0 a layer has one assignment.
    pub proof fn lemma_assignment_unique(self, a: Seq<(u32, u64)>, b: Seq<(u32, u64)>)
        requires
            self.assigns(0, a),
            self.assigns(0, b),
        ensures
            a == b,
    {
        let da = choose|draws: Seq<Seq<i32>>| self.is_outcome(0, draws, a);
        let db = choose|draws: Seq<Seq<i32>>| self.is_outcome(0, draws, b);
        let (placed, slots) = (self.layer.placed().len(), self.layer.slots().len());
        if placed == 0 || slots == 0 {
            assert(a =~= b);
        } else if placed > slots {
            lemma_steps(0, self.layer.pair_problem().matrix(), da[0]);
            lemma_steps(0, self.layer.pair_problem().matrix(), db[0]);
        } else {
            self.lemma_draws_empty(da);
            self.lemma_draws_empty(db);
            self.lemma_not_longer(da, db);
            self.lemma_not_longer(db, da);
            assert(da =~= db);
        }
    }

    proof fn lemma_draws_empty(self, draws: Seq<Seq<i32>>)
        requires
            self.is_run(0, draws),
        ensures
            forall|n: int| 0 <= n < draws.len() ==> #[trigger] draws[n] == Seq::<i32>::empty(),
    {
        assert forall|n: int| 0 <= n < draws.len() implies #[trigger] draws[n] == Seq::<
            i32,
        >::empty() by {
            let before = self.run(draws.take(n));
            lemma_steps(
                0,
                self.problem(self.kept(before.blockers)).matrix(),
                draws[n],
            );
        }
    }

    /// With seed 0, no run makes more passes than one that has ended.
    proof fn lemma_not_longer(self, short: Seq<Seq<i32>>, long: Seq<Seq<i32>>)
        requires
            self.is_run(0, short),
            self.is_run(0, long),
            long.len() <= self.max_passes(),
            self.run(short).settled || short.len() == self.max_passes(),
        ensures
            long.len() <= short.len(),
    {
        self.lemma_draws_empty(short);
        self.lemma_draws_empty(long);
        if short.len() < long.len() {
            assert(long.take(short.len() as int) =~= short);
        }
    }

    /// Where nothing is in the way of the pairs' own assignment, nothing is
    /// blocked and moves are free, it is the assignment of the layer.
    pub proof fn lemma_unobstructed(
        self,
        steps: Seq<i32>,
        alone: Seq<(u32, u64)>,
        targets: Seq<(u32, u64)>,
    )
        requires
            self.blocked == Set::<u64>::empty(),
            self.move_penalty == 0,
            self.layer.placed().len() <= self.layer.slots().len(),
            self.layer.is_pair_assignment(0, steps, alone),
            self.obstacles(Seq::empty(), alone).len() == 0,
            self.finished(alone) == alone,
            self.assigns(0, targets),
        ensures
            targets == alone,
    {
        let draws = choose|draws: Seq<Seq<i32>>| self.is_outcome(0, draws, targets);
        if self.layer.placed().len() == 0 || self.layer.slots().len() == 0 {
            assert(targets =~= alone);
        } else {
            lemma_steps(0, self.layer.pair_problem().matrix(), steps);
            self.lemma_draws_empty(draws);
            let none: Seq<u32> = Seq::empty();
            assert(self.kept(none) =~= none);
            assert(self.rows(none) =~= pair_rows(self.layer.placed()));
            assert(self.row_qubits(none) =~= self.layer.pair_qubits());
            assert(self.problem(none) == self.layer.pair_problem());
            let one = draws.take(1);
            let zero = Seq::<Seq<i32>>::empty();
            assert(self.run(zero) == self.start());
            assert(one.drop_last() =~= zero);
            assert(one.last() == Seq::<i32>::empty());
            assert(self.run(one) == self.after(self.start(), Seq::<i32>::empty()));
            assert(self.run(one).settled);
            if draws.len() > 1 {
                assert(!self.run(draws.take(1)).settled);
            }
            assert(one =~= draws);
        }
    }
}

/// No element occurs twice.
pub open spec fn distinct(s: Seq<u32>) -> bool {
    forall|i: int, j: int| 0 <= i < j < s.len() ==> #[trigger] s[i] != #[trigger] s[j]
}

/// The placed qubits.
pub open spec fn placed_qubits(entries: Seq<(u32, LocationAddr)>) -> Set<u32> {
    Set::new(|q: u32| exists|i: int| 0 <= i < entries.len() && (#[trigger] entries[i]).0 == q)
}

proof fn lemma_placed_qubits(entries: Seq<(u32, LocationAddr)>)
    ensures
        placed_qubits(entries).finite(),
        placed_qubits(entries).len() <= entries.len(),
    decreases entries.len(),
{
    if entries.len() == 0 {
        assert(placed_qubits(entries) =~= Set::empty());
    } else {
        let rest = entries.drop_last();
        let q = entries.last().0;
        lemma_placed_qubits(rest);
        assert forall|x: u32| #[trigger] placed_qubits(entries).contains(x) <==> placed_qubits(
            rest,
        ).insert(q).contains(x) by {
            if placed_qubits(entries).contains(x) {
                let i = choose|i: int| 0 <= i < entries.len() && (#[trigger] entries[i]).0 == x;
                if i < rest.len() {
                    assert(rest[i].0 == x);
                }
            }
            if placed_qubits(rest).contains(x) {
                let i = choose|i: int| 0 <= i < rest.len() && (#[trigger] rest[i]).0 == x;
                assert(entries[i].0 == x);
            }
            assert(entries[entries.len() - 1].0 == q);
        }
        assert(placed_qubits(entries) =~= placed_qubits(rest).insert(q));
    }
}

impl Staged {
    /// Blockers are different placed atoms that are in no pair.
    pub open spec fn are_blockers(self, blockers: Seq<u32>) -> bool {
        &&& distinct(blockers)
        &&& forall|k: int|
            0 <= k < blockers.len() ==> !self.layer.pair_qubits().contains(#[trigger] blockers[k])
        &&& forall|k: int|
            0 <= k < blockers.len() ==> placed_qubits(self.layer.entries).contains(
                #[trigger] blockers[k],
            )
    }

    pub proof fn lemma_obstacles(self, blockers: Seq<u32>, targets: Seq<(u32, u64)>, k: int)
        requires
            0 <= k < self.obstacles(blockers, targets).len(),
        ensures
            !self.row_qubits(blockers).contains(self.obstacles(blockers, targets)[k]),
            placed_qubits(self.layer.entries).contains(self.obstacles(blockers, targets)[k]),
    {
        let pairs = self.layer.pair_qubits();
        let rows = self.row_qubits(blockers);
        let entries = self.layer.entries;
        let arch = self.layer.arch;
        let parked = sorted_members(is_blocker(targets, pairs, entries, rows, self.lanes));
        let spectators = Spectators { entries, arch, pair_qubits: pairs, row_qubits: rows };
        let members = sorted_members(spectators.is_member());
        let created = sorted_members(is_created_accidental(targets, arch, entries, pairs, rows));
        let q = self.obstacles(blockers, targets)[k];
        lemma_sorted_members_hold(is_blocker(targets, pairs, entries, rows, self.lanes));
        lemma_sorted_members_hold(spectators.is_member());
        lemma_sorted_members_hold(is_created_accidental(targets, arch, entries, pairs, rows));
        if k < parked.len() {
            assert(parked[k] == q);
            assert(parked.contains(q));
            lemma_blockers_outside_rows(targets, pairs, entries, rows, self.lanes, q);
        } else if k < parked.len() + members.len() {
            assert(members[k - parked.len()] == q);
            assert(members.contains(q));
            let i = choose|i: int|
                0 <= i < entries.len() && #[trigger] spectators.shows(i) && (
                spectators.entries[i].0 == q || spectators.other(i) == Some(q));
            if entries[i].0 != q {
                let partner = arch.cz_partner(entries[i].1)->0;
                lemma_occupant_entry(entries, partner);
                let j = choose|j: int| 0 <= j < entries.len() && entries[j] == (q, partner);
                assert(entries[j].0 == q);
            }
        } else {
            assert(created[k - parked.len() - members.len()] == q);
            assert(created.contains(q));
            let i = choose|i: int|
                0 <= i < targets.len() && !pairs.contains((#[trigger] targets[i]).0)
                    && crate::blockers::across_from(
                    entries,
                    arch,
                    LocationAddr::of_code(targets[i].1),
                ) == Some(q);
            let partner = arch.cz_partner(LocationAddr::of_code(targets[i].1))->0;
            lemma_occupant_entry(entries, partner);
            let j = choose|j: int| 0 <= j < entries.len() && entries[j] == (q, partner);
            assert(entries[j].0 == q);
        }
    }

    proof fn lemma_joined(self, blockers: Seq<u32>, found: Seq<u32>, n: nat)
        requires
            n <= found.len(),
            self.are_blockers(blockers),
            forall|k: int|
                0 <= k < found.len() ==> !self.row_qubits(blockers).contains(#[trigger] found[k]),
            forall|k: int|
                0 <= k < found.len() ==> placed_qubits(self.layer.entries).contains(
                    #[trigger] found[k],
                ),
        ensures
            self.are_blockers(self.joined(blockers, found, n)),
            n > 0 ==> self.joined(blockers, found, n).len() > blockers.len(),
            self.joined(blockers, found, n).len() >= blockers.len(),
        decreases n,
    {
        if n > 0 {
            let rest = self.joined(blockers, found, (n - 1) as nat);
            self.lemma_joined(blockers, found, (n - 1) as nat);
            let q = found[n - 1];
            if !self.row_qubits(rest).contains(q) {
                let all = rest.push(q);
                assert forall|i: int, j: int| 0 <= i < j < all.len() implies #[trigger] all[i]
                    != #[trigger] all[j] by {
                    if j < rest.len() {
                        assert(rest[i] != rest[j]);
                    } else {
                        assert(rest.contains(rest[i]));
                    }
                }
                assert forall|k: int| 0 <= k < all.len() implies
                    !self.layer.pair_qubits().contains(#[trigger] all[k]) by {
                    if k < rest.len() {
                        assert(all[k] == rest[k]);
                    }
                }
                assert forall|k: int| 0 <= k < all.len() implies placed_qubits(
                    self.layer.entries,
                ).contains(#[trigger] all[k]) by {
                    if k < rest.len() {
                        assert(all[k] == rest[k]);
                    }
                }
            } else if n == 1 {
                assert(!self.row_qubits(blockers).contains(found[0]));
            }
        }
    }

    /// Every pass leaves different placed atoms that are in no pair.
    pub proof fn lemma_run_blockers(self, seed: u64, draws: Seq<Seq<i32>>)
        requires
            self.layer.placed().len() <= self.layer.slots().len(),
            self.is_run(seed, draws),
        ensures
            self.are_blockers(self.run(draws).blockers),
        decreases draws.len(),
    {
        if draws.len() > 0 {
            self.lemma_last_pass(seed, draws);
            let before = self.run(draws.drop_last());
            assert(draws.take(draws.len() - 1) =~= draws.drop_last());
            self.lemma_shorter_run(seed, draws, draws.len() - 1);
            self.lemma_run_blockers(seed, draws.drop_last());
            let kept = self.kept(before.blockers);
            assert forall|k: int| 0 <= k < kept.len() implies #[trigger] kept[k]
                == before.blockers[k] by {}
            assert(self.are_blockers(kept));
            let targets = self.problem(kept).targets(draws.last());
            let found = self.obstacles(kept, targets);
            assert forall|k: int| 0 <= k < found.len() implies !self.row_qubits(kept).contains(
                #[trigger] found[k],
            ) && placed_qubits(self.layer.entries).contains(found[k]) by {
                self.lemma_obstacles(kept, targets, k);
            }
            self.lemma_joined(kept, found, found.len());
        }
    }

    /// There are at most as many blockers as placed atoms.
    pub proof fn lemma_blockers_placed(self, blockers: Seq<u32>)
        requires
            self.are_blockers(blockers),
        ensures
            blockers.len() <= self.layer.entries.len(),
    {
        let placed = placed_qubits(self.layer.entries);
        lemma_placed_qubits(self.layer.entries);
        assert(blockers.no_duplicates());
        blockers.unique_seq_to_set();
        assert forall|q: u32| blockers.to_set().contains(q) implies placed.contains(q) by {
            let k = choose|k: int| 0 <= k < blockers.len() && blockers[k] == q;
            assert(placed.contains(blockers[k]));
        }
        vstd::set_lib::lemma_len_subset(blockers.to_set(), placed);
    }

    /// There are at most as many blockers as placed atoms in no pair.
    pub proof fn lemma_blocker_count(self, blockers: Seq<u32>)
        requires
            self.layer.pair_qubits().subset_of(placed_qubits(self.layer.entries)),
            self.are_blockers(blockers),
        ensures
            blockers.len() + self.layer.pair_qubits().len() <= self.layer.entries.len(),
    {
        let placed = placed_qubits(self.layer.entries);
        let pairs = self.layer.pair_qubits();
        lemma_placed_qubits(self.layer.entries);
        lemma_pair_qubits_finite(self.layer.pairs);
        assert(blockers.no_duplicates());
        blockers.unique_seq_to_set();
        let free = blockers.to_set();
        assert(free.disjoint(pairs));
        vstd::set_lib::lemma_set_disjoint_lens(free, pairs);
        assert((free + pairs).subset_of(placed)) by {
            assert forall|q: u32| (free + pairs).contains(q) implies placed.contains(q) by {
                if free.contains(q) {
                    let k = choose|k: int| 0 <= k < blockers.len() && blockers[k] == q;
                    assert(placed.contains(blockers[k]));
                }
            }
        }
        vstd::set_lib::lemma_len_subset(free + pairs, placed);
    }

    /// There is room for every atom that could become a blocker.
    pub open spec fn is_roomy(self) -> bool {
        self.layer.placed().len() + self.layer.entries.len() <= self.layer.slots().len()
            + self.layer.pair_qubits().len()
    }

    /// Every pass that does not settle finds a new blocker.
    pub proof fn lemma_blockers_grow(self, seed: u64, draws: Seq<Seq<i32>>)
        requires
            self.layer.pair_qubits().subset_of(placed_qubits(self.layer.entries)),
            self.is_roomy(),
            self.is_run(seed, draws),
        ensures
            self.are_blockers(self.run(draws).blockers),
            self.run(draws).settled || self.run(draws).blockers.len() >= draws.len(),
        decreases draws.len(),
    {
        if draws.len() > 0 {
            self.lemma_last_pass(seed, draws);
            let before = self.run(draws.drop_last());
            assert(draws.take(draws.len() - 1) =~= draws.drop_last());
            self.lemma_shorter_run(seed, draws, draws.len() - 1);
            self.lemma_blockers_grow(seed, draws.drop_last());
            self.lemma_blocker_count(before.blockers);
            let kept = self.kept(before.blockers);
            assert(kept == before.blockers);
            let targets = self.problem(kept).targets(draws.last());
            let found = self.obstacles(kept, targets);
            assert forall|k: int| 0 <= k < found.len() implies !self.row_qubits(kept).contains(
                #[trigger] found[k],
            ) && placed_qubits(self.layer.entries).contains(found[k]) by {
                self.lemma_obstacles(kept, targets, k);
            }
            self.lemma_joined(kept, found, found.len());
        }
    }

    /// Passes always settle, where every pair qubit is placed and there is room
    /// for every atom that could become a blocker.
    pub proof fn lemma_passes_settle(
        self,
        seed: u64,
        draws: Seq<Seq<i32>>,
        targets: Seq<(u32, u64)>,
    )
        requires
            forall|i: int|
                0 <= i < self.layer.pairs.len() ==> {
                    &&& location_in(self.layer.entries, (#[trigger] self.layer.pairs[i]).0) is Some
                    &&& location_in(self.layer.entries, self.layer.pairs[i].1) is Some
                },
            self.is_roomy(),
            0 < self.layer.placed().len() <= self.layer.slots().len(),
            self.is_outcome(seed, draws, targets),
        ensures
            self.run(draws).settled,
    {
        let entries = self.layer.entries;
        assert forall|q: u32| self.layer.pair_qubits().contains(q) implies placed_qubits(
            entries,
        ).contains(q) by {
            let i = choose|i: int|
                0 <= i < self.layer.pairs.len() && ((#[trigger] self.layer.pairs[i]).0 == q
                    || self.layer.pairs[i].1 == q);
            lemma_entry_of_location(entries, q);
            let loc = location_in(entries, q)->0;
            let k = choose|k: int| 0 <= k < entries.len() && entries[k] == (q, loc);
            assert(entries[k].0 == q);
        }
        self.lemma_blockers_grow(seed, draws);
        self.lemma_blocker_count(self.run(draws).blockers);
    }

    /// What a settled run leaves: nothing that stands in the way of its targets.
    pub proof fn lemma_settled(self, seed: u64, draws: Seq<Seq<i32>>)
        requires
            self.is_run(seed, draws),
            self.run(draws).settled,
        ensures
            self.obstacles(self.run(draws).blockers, self.run(draws).targets).len() == 0,
    {
        self.lemma_last_pass(seed, draws);
    }
}

} // verus!
