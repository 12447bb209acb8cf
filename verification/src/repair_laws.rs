//! What a repair does to targets, stated on targets, positions and hops.

use crate::arch::ArchModel;
use crate::config::place_map;
use crate::distance::{hops, hops_or_big, DistanceTable, BIG};
use crate::entangling::PositionSlot;
use crate::goals::{grid_of, on_grid, pairs_apart};
use crate::lane_index::LaneIndex;
use crate::placement_laws::{qubits_disjoint, share_qubit};
use crate::repair::{
    apply_pair_slot, decoded, finalize_assignment_targets, first_half, has_halves, is_for, locate_pair_slot,
    pair_before, repair_pair_separation, same_pair, second_half, separated_targets, slot_with,
    target_enc, target_of, valid_targets, Repair,
};
use crate::rows::slots_disjoint;
use crate::separation_laws::{
    all_stand_apart, in_pair, lemma_atoms_stand_apart, lemma_separated_is_standing_apart,
    stand_apart,
};
use crate::seqs::{first_where, lemma_first_cases};
use std::collections::HashSet;
use vstd::prelude::*;

verus! {

/// The two locations are the halves of the position, in either order.
pub open spec fn halves(slot: PositionSlot, s: u64, t: u64) -> bool {
    (slot.loc_a == s && slot.loc_b == t) || (slot.loc_a == t && slot.loc_b == s)
}

/// `after` is `before` with the first qubit of `pair` sent to `s` and the second
/// to `t`. Nobody else's target changes, nobody gains or loses one.
pub open spec fn sent(
    before: Seq<(u32, u64)>,
    pair: (u32, u32),
    s: u64,
    t: u64,
    after: Seq<(u32, u64)>,
) -> bool {
    &&& after.len() == before.len()
    &&& forall|k: int|
        0 <= k < before.len() ==> (#[trigger] after[k]).0 == before[k].0 && after[k].1
            == if before[k].0 == pair.0 {
            s
        } else if before[k].0 == pair.1 {
            t
        } else {
            before[k].1
        }
}

/// The targets of the two qubits are the halves of the position.
pub open spec fn occupies(targets: Seq<(u32, u64)>, pair: (u32, u32), slot: PositionSlot) -> bool {
    exists|s: u64, t: u64| #[trigger]
        targets.contains((pair.0, s)) && #[trigger] targets.contains((pair.1, t)) && halves(
            slot,
            s,
            t,
        )
}

/// No pair has the position, and neither half is blocked.
pub open spec fn vacant(
    targets: Seq<(u32, u64)>,
    pairs: Seq<(u32, u32)>,
    blocked: Set<u64>,
    slot: PositionSlot,
) -> bool {
    &&& !blocked.contains(slot.loc_a)
    &&& !blocked.contains(slot.loc_b)
    &&& forall|k: int| 0 <= k < pairs.len() ==> !occupies(targets, #[trigger] pairs[k], slot)
}

/// Every qubit has at most one target, and, with two pairs or more, every atom of
/// each pair stands apart from every atom of each other at its target.
pub open spec fn well_apart(
    targets: Seq<(u32, u64)>,
    pairs: Seq<(u32, u32)>,
    arch: ArchModel,
) -> bool {
    &&& forall|i: int, j: int|
        0 <= i < j < targets.len() ==> (#[trigger] targets[i]).0 != (#[trigger] targets[j]).0
    &&& pairs.len() < 2 || all_stand_apart(decoded(targets), pairs, arch)
}

/// Sending the pair to `s` and `t` would do: they are the halves of a vacant
/// position, and all pairs are then well apart.
pub open spec fn would_do(repair: Repair, pair: (u32, u32), s: u64, t: u64) -> bool {
    &&& exists|j: int|
        0 <= j < repair.slots.len() && halves(#[trigger] repair.slots[j], s, t) && vacant(
            repair.targets,
            repair.pairs,
            repair.blocked,
            repair.slots[j],
        )
    &&& exists|after: Seq<(u32, u64)>| #[trigger]
        sent(repair.targets, pair, s, t, after) && well_apart(after, repair.pairs, repair.arch)
}

/// The pair sits at `x` and `y`, and the list of placed pairs has no other entry
/// for a qubit of it.
pub open spec fn sits_at_only(
    placed: Seq<((u32, u32), u64, u64)>,
    pair: (u32, u32),
    x: u64,
    y: u64,
) -> bool {
    &&& placed.contains((pair, x, y))
    &&& forall|k: int|
        0 <= k < placed.len() && share_qubit((#[trigger] placed[k]).0, pair) ==> placed[k] == (
            pair,
            x,
            y,
        )
}

/// Targets are well apart exactly where they are separated.
pub proof fn lemma_well_apart(targets: Seq<(u32, u64)>, pairs: Seq<(u32, u32)>, arch: ArchModel)
    ensures
        well_apart(targets, pairs, arch) <==> separated_targets(targets, pairs, arch),
{
    lemma_valid(targets);
    if valid_targets(targets) {
        lemma_separated_is_standing_apart(decoded(targets), pairs, arch);
    }
}

pub proof fn lemma_valid(targets: Seq<(u32, u64)>)
    ensures
        valid_targets(targets) <==> forall|i: int, j: int|
            0 <= i < j < targets.len() ==> (#[trigger] targets[i]).0 != (#[trigger] targets[j]).0,
{
    let entries = decoded(targets);
    if valid_targets(targets) {
        assert forall|i: int, j: int| 0 <= i < j < targets.len() implies (#[trigger] targets[i]).0
            != (#[trigger] targets[j]).0 by {
            assert(entries[i].0 != entries[j].0);
        }
    }
}

proof fn lemma_target_of(targets: Seq<(u32, u64)>, q: u32, s: u64)
    requires
        valid_targets(targets),
    ensures
        target_of(targets, q) == Some(s) <==> targets.contains((q, s)),
{
    lemma_valid(targets);
    lemma_first_cases(targets, is_for(q));
    if targets.contains((q, s)) {
        let k = choose|k: int| 0 <= k < targets.len() && targets[k] == (q, s);
        assert(is_for(q)(targets[k]));
        let i = first_where(targets, is_for(q))->0;
        if i < k {
            assert(targets[i].0 != targets[k].0);
        } else if k < i {
            assert(targets[k].0 != targets[i].0);
        }
    }
    if target_of(targets, q) == Some(s) {
        let i = first_where(targets, is_for(q))->0;
        assert(targets[i] == (q, s));
    }
}

proof fn lemma_slot_with(slots: Seq<PositionSlot>, s: u64, t: u64, j: int)
    requires
        slots_disjoint(slots),
        0 <= j < slots.len(),
    ensures
        halves(slots[j], s, t) <==> (slot_with(s, t, slots) is Some && (slot_with(
            s,
            t,
            slots,
        )->0).0 == j),
{
    lemma_first_cases(slots, has_halves(s, t));
    if halves(slots[j], s, t) {
        assert(has_halves(s, t)(slots[j]));
        let k = first_where(slots, has_halves(s, t))->0;
        if k < j {
            assert(slots[k].loc_a != slots[j].loc_a);
        } else if j < k {
            assert(slots[j].loc_a != slots[k].loc_a);
        }
    }
}

impl Repair {
    proof fn lemma_occupies(self, pair: (u32, u32), j: int)
        requires
            slots_disjoint(self.slots),
            valid_targets(self.targets),
            0 <= j < self.slots.len(),
        ensures
            self.slot_index(pair) == Some(j) <==> occupies(self.targets, pair, self.slots[j]),
    {
        if self.slot_index(pair) == Some(j) {
            let s = target_of(self.targets, pair.0)->0;
            let t = target_of(self.targets, pair.1)->0;
            lemma_target_of(self.targets, pair.0, s);
            lemma_target_of(self.targets, pair.1, t);
            lemma_slot_with(self.slots, s, t, j);
            assert(self.targets.contains((pair.0, s)) && self.targets.contains((pair.1, t)));
        }
        if occupies(self.targets, pair, self.slots[j]) {
            let (s, t) = choose|s: u64, t: u64| #[trigger]
                self.targets.contains((pair.0, s)) && #[trigger] self.targets.contains((pair.1, t))
                    && halves(self.slots[j], s, t);
            lemma_target_of(self.targets, pair.0, s);
            lemma_target_of(self.targets, pair.1, t);
            lemma_slot_with(self.slots, s, t, j);
        }
    }

    /// A position is open for a pair exactly where it is vacant.
    pub proof fn lemma_open(self, i: int, j: int)
        requires
            slots_disjoint(self.slots),
            valid_targets(self.targets),
            0 <= i < self.pairs.len(),
        ensures
            self.is_open(self.pairs[i], j) <==> 0 <= j < self.slots.len() && vacant(
                self.targets,
                self.pairs,
                self.blocked,
                self.slots[j],
            ),
    {
        let pair = self.pairs[i];
        if 0 <= j < self.slots.len() {
            let slot = self.slots[j];
            if self.is_open(pair, j) {
                assert forall|k: int| 0 <= k < self.pairs.len() implies !occupies(
                    self.targets,
                    #[trigger] self.pairs[k],
                    slot,
                ) by {
                    self.lemma_occupies(self.pairs[k], j);
                    self.lemma_occupies(pair, j);
                    if occupies(self.targets, self.pairs[k], slot) && same_pair(
                        self.pairs[k],
                        pair,
                    ) {
                        let (s, t) = choose|s: u64, t: u64| #[trigger]
                            self.targets.contains((self.pairs[k].0, s))
                                && #[trigger] self.targets.contains((self.pairs[k].1, t)) && halves(
                                slot,
                                s,
                                t,
                            );
                        if self.pairs[k] == pair {
                            assert(occupies(self.targets, pair, slot));
                        } else {
                            assert(self.targets.contains((pair.0, t)));
                            assert(self.targets.contains((pair.1, s)));
                            assert(halves(slot, t, s));
                            assert(occupies(self.targets, pair, slot));
                        }
                    }
                }
            }
            if vacant(self.targets, self.pairs, self.blocked, slot) {
                self.lemma_occupies(pair, j);
                assert(!occupies(self.targets, self.pairs[i], slot));
                if self.taken(pair, j) {
                    let k = choose|k: int|
                        0 <= k < self.pairs.len() && !same_pair(#[trigger] self.pairs[k], pair)
                            && self.slot_index(self.pairs[k]) == Some(j);
                    self.lemma_occupies(self.pairs[k], j);
                }
            }
        }
    }

    /// A trial sends the pair to the halves of the position.
    pub proof fn lemma_trial(self, pair: (u32, u32), j: int, swapped: bool, after: Seq<(u32, u64)>)
        ensures
            sent(
                self.targets,
                pair,
                first_half(self.slots[j], swapped),
                second_half(self.slots[j], swapped),
                after,
            ) <==> after == self.trial(pair, j, swapped),
    {
        let trial = self.trial(pair, j, swapped);
        if sent(
            self.targets,
            pair,
            first_half(self.slots[j], swapped),
            second_half(self.slots[j], swapped),
            after,
        ) {
            assert forall|k: int| 0 <= k < after.len() implies after[k] == trial[k] by {
                assert(after[k].0 == self.targets[k].0);
            }
            assert(after =~= trial);
        }
    }

    /// A way to send a pair that would do is one that works.
    pub proof fn lemma_would_do(self, i: int, s: u64, t: u64) -> (way: (int, bool))
        requires
            slots_disjoint(self.slots),
            valid_targets(self.targets),
            0 <= i < self.pairs.len(),
            would_do(self, self.pairs[i], s, t),
        ensures
            self.works(self.pairs[i], way.0, way.1),
            0 <= way.0 < self.slots.len(),
            first_half(self.slots[way.0], way.1) == s,
            second_half(self.slots[way.0], way.1) == t,
    {
        let pair = self.pairs[i];
        let j = choose|j: int|
            0 <= j < self.slots.len() && halves(#[trigger] self.slots[j], s, t) && vacant(
                self.targets,
                self.pairs,
                self.blocked,
                self.slots[j],
            );
        let swapped = !(self.slots[j].loc_a == s && self.slots[j].loc_b == t);
        let after = choose|after: Seq<(u32, u64)>| #[trigger]
            sent(self.targets, pair, s, t, after) && well_apart(after, self.pairs, self.arch);
        self.lemma_open(i, j);
        self.lemma_trial(pair, j, swapped, after);
        lemma_well_apart(after, self.pairs, self.arch);
        (j, swapped)
    }

    /// The fix that a repair which changes anything makes.
    proof fn lemma_moved(self) -> (fix: (int, int, bool))
        requires
            self.repaired() != self.targets,
        ensures
            self.is_first_fix(fix.0, fix.1, fix.2),
            self.repaired() == self.trial(self.pairs[fix.0], fix.1, fix.2),
            self.pairs.len() >= 2,
            valid_targets(self.targets),
            !separated_targets(self.targets, self.pairs, self.arch),
    {
        reveal(Repair::repaired);
        choose|i: int, j: int, swapped: bool| self.is_first_fix(i, j, swapped)
    }

    proof fn lemma_entry(self, pair: (u32, u32), x: u64, y: u64)
        requires
            sits_at_only(self.placed, pair, x, y),
        ensures
            self.entry(pair) is Some,
            self.placed[self.entry(pair)->0] == (pair, x, y),
    {
        let entry = crate::repair::entry_for(pair);
        lemma_first_cases(self.placed, entry);
        let k = choose|k: int| 0 <= k < self.placed.len() && self.placed[k] == (pair, x, y);
        assert(entry(self.placed[k]));
        let e = first_where(self.placed, entry)->0;
        assert(share_qubit(self.placed[e].0, pair));
    }

    /// The pair that a repair has moved, where qubits are in one pair each.
    proof fn lemma_moved_pair_is(self, i: int, k: int) -> (fix: (int, int, bool))
        requires
            qubits_disjoint(self.pairs),
            0 <= i < self.pairs.len(),
            0 <= k < self.targets.len(),
            in_pair(self.pairs[i], self.targets[k].0),
            self.repaired()[k] != self.targets[k],
        ensures
            fix.0 == i,
            self.is_first_fix(fix.0, fix.1, fix.2),
            self.repaired() == self.trial(self.pairs[i], fix.1, fix.2),
            valid_targets(self.targets),
    {
        let fix = self.lemma_moved();
        let moved = self.pairs[fix.0];
        if fix.0 != i {
            assert(!share_qubit(self.pairs[fix.0], self.pairs[i]));
            assert(self.repaired()[k] == self.targets[k]);
        }
        fix
    }

    /// A repair that changes anything sends exactly one pair elsewhere: to the
    /// halves of a position that was vacant. That pair stood too close to another
    /// one, and afterwards all pairs are well apart.
    pub proof fn lemma_repair_moves_one_close_pair(self)
        requires
            slots_disjoint(self.slots),
            self.repaired() != self.targets,
        ensures
            !well_apart(self.targets, self.pairs, self.arch),
            well_apart(self.repaired(), self.pairs, self.arch),
            exists|i: int, n: int, s: u64, t: u64|
                0 <= i < self.pairs.len() && 0 <= n < self.pairs.len() && #[trigger] sent(
                    self.targets,
                    self.pairs[i],
                    s,
                    t,
                    self.repaired(),
                ) && would_do(self, self.pairs[i], s, t) && #[trigger] stand_close(
                    self.targets,
                    self.arch,
                    self.pairs[i],
                    self.pairs[n],
                ),
    {
        let (i, j, swapped) = self.lemma_moved();
        let pair = self.pairs[i];
        let (s, t) = (first_half(self.slots[j], swapped), second_half(self.slots[j], swapped));
        assert(self.is_fix(i, j, swapped));
        self.lemma_trial(pair, j, swapped, self.repaired());
        lemma_well_apart(self.targets, self.pairs, self.arch);
        lemma_well_apart(self.repaired(), self.pairs, self.arch);
        self.lemma_open(i, j);
        assert(halves(self.slots[j], s, t));
        assert(sent(self.targets, pair, s, t, self.repaired()));
        assert(would_do(self, pair, s, t));
        let places = place_map(decoded(self.targets));
        let n = choose|n: int|
            0 <= n < self.pairs.len() && !same_pair(#[trigger] self.pairs[n], pair) && on_grid(
                places,
                self.pairs[n],
                self.arch,
            ) && !pairs_apart(places, pair, self.pairs[n], self.arch);
        lemma_close(self.targets, self.arch, pair, self.pairs[n]);
    }

    /// The pair that a repair moves goes to the nearest place: from where it sits,
    /// its two atoms together have no more hops to their new targets than to the
    /// halves, in either order, of any other position that would do. Where both
    /// atoms can get to such a position, they can get to their new targets.
    pub proof fn lemma_repair_is_nearest(
        self,
        i: int,
        k: int,
        x: u64,
        y: u64,
        s: u64,
        t: u64,
        s2: u64,
        t2: u64,
    )
        requires
            slots_disjoint(self.slots),
            qubits_disjoint(self.pairs),
            0 <= i < self.pairs.len(),
            sits_at_only(self.placed, self.pairs[i], x, y),
            0 <= k < self.targets.len(),
            in_pair(self.pairs[i], self.targets[k].0),
            self.repaired()[k] != self.targets[k],
            self.repaired().contains((self.pairs[i].0, s)),
            self.repaired().contains((self.pairs[i].1, t)),
            would_do(self, self.pairs[i], s2, t2),
        ensures
            hops_or_big(self.table, x, s2) + hops_or_big(self.table, y, t2) < u32::MAX
                ==> hops_or_big(self.table, x, s) + hops_or_big(self.table, y, t) <= hops_or_big(
                self.table,
                x,
                s2,
            ) + hops_or_big(self.table, y, t2),
            match (hops(self.table, x, s2), hops(self.table, y, t2)) {
                (Some(m), Some(n)) if m + n < BIG => {
                    match (hops(self.table, x, s), hops(self.table, y, t)) {
                        (Some(m1), Some(n1)) => m1 + n1 <= m + n,
                        _ => false,
                    }
                },
                _ => true,
            },
    {
        let pair = self.pairs[i];
        let (_, j, swapped) = self.lemma_moved_pair_is(i, k);
        let (j2, swapped2) = self.lemma_would_do(i, s2, t2);
        self.lemma_entry(pair, x, y);
        assert(self.is_fix(i, j, swapped));
        assert(self.is_fix(i, j2, swapped2));
        assert(!self.move_before(pair, (j2, swapped2), (j, swapped)));
        let after = self.repaired();
        let m = choose|m: int| 0 <= m < after.len() && after[m] == (pair.0, s);
        let n = choose|n: int| 0 <= n < after.len() && after[n] == (pair.1, t);
        assert(pair.0 != pair.1);
        assert(s == first_half(self.slots[j], swapped));
        assert(t == second_half(self.slots[j], swapped));
    }

    /// Of several places that are equally near, the pair that a repair moves goes to
    /// the one that comes first, with its first atom on the first half where both
    /// orders are equally near.
    pub proof fn lemma_repair_takes_first_of_equals(
        self,
        i: int,
        k: int,
        x: u64,
        y: u64,
        s: u64,
        t: u64,
        j2: int,
        s2: u64,
        t2: u64,
    )
        requires
            slots_disjoint(self.slots),
            qubits_disjoint(self.pairs),
            0 <= i < self.pairs.len(),
            sits_at_only(self.placed, self.pairs[i], x, y),
            0 <= k < self.targets.len(),
            in_pair(self.pairs[i], self.targets[k].0),
            self.repaired()[k] != self.targets[k],
            self.repaired().contains((self.pairs[i].0, s)),
            self.repaired().contains((self.pairs[i].1, t)),
            would_do(self, self.pairs[i], s2, t2),
            0 <= j2 < self.slots.len(),
            halves(self.slots[j2], s2, t2),
            hops_or_big(self.table, x, s) + hops_or_big(self.table, y, t) == hops_or_big(
                self.table,
                x,
                s2,
            ) + hops_or_big(self.table, y, t2),
        ensures
            exists|j: int|
                0 <= j < self.slots.len() && #[trigger] halves(self.slots[j], s, t) && (j < j2
                    || j == j2 && (s == self.slots[j].loc_a || s == s2)),
    {
        let pair = self.pairs[i];
        let (_, j, swapped) = self.lemma_moved_pair_is(i, k);
        let (j3, swapped3) = self.lemma_would_do(i, s2, t2);
        self.lemma_entry(pair, x, y);
        assert(self.is_fix(i, j, swapped));
        assert(self.is_fix(i, j3, swapped3));
        assert(!self.move_before(pair, (j3, swapped3), (j, swapped)));
        lemma_slot_with(self.slots, s2, t2, j2);
        lemma_slot_with(self.slots, s2, t2, j3);
        let after = self.repaired();
        let m = choose|m: int| 0 <= m < after.len() && after[m] == (pair.0, s);
        let n = choose|n: int| 0 <= n < after.len() && after[n] == (pair.1, t);
        assert(pair.0 != pair.1);
        assert(s == first_half(self.slots[j], swapped));
        assert(t == second_half(self.slots[j], swapped));
        assert(halves(self.slots[j], s, t));
    }

    /// A repair moves only a pair that the list of placed pairs has, in one order or
    /// the other.
    pub proof fn lemma_repair_moves_placed_pair(self, i: int, k: int)
        requires
            qubits_disjoint(self.pairs),
            0 <= i < self.pairs.len(),
            0 <= k < self.targets.len(),
            in_pair(self.pairs[i], self.targets[k].0),
            self.repaired()[k] != self.targets[k],
        ensures
            exists|e: int|
                0 <= e < self.placed.len() && ((#[trigger] self.placed[e]).0 == self.pairs[i]
                    || self.placed[e].0 == (self.pairs[i].1, self.pairs[i].0)),
    {
        let (_, j, swapped) = self.lemma_moved_pair_is(i, k);
        assert(self.is_fix(i, j, swapped));
        let entry = crate::repair::entry_for(self.pairs[i]);
        lemma_first_cases(self.placed, entry);
        let e = first_where(self.placed, entry)->0;
        assert(same_pair(self.placed[e].0, self.pairs[i]));
    }

    /// Of the pairs that a repair could move, it moves one with the lowest qubit:
    /// no pair that stands too close to another one, and that a vacant position
    /// would help, has a qubit below both of the moved pair.
    pub proof fn lemma_repair_moves_lowest_pair(
        self,
        i: int,
        k: int,
        i2: int,
        n2: int,
        x2: u64,
        y2: u64,
        s2: u64,
        t2: u64,
    )
        requires
            slots_disjoint(self.slots),
            qubits_disjoint(self.pairs),
            0 <= i < self.pairs.len(),
            0 <= k < self.targets.len(),
            in_pair(self.pairs[i], self.targets[k].0),
            self.repaired()[k] != self.targets[k],
            0 <= i2 < self.pairs.len(),
            0 <= n2 < self.pairs.len(),
            i2 != n2,
            stand_close(self.targets, self.arch, self.pairs[i2], self.pairs[n2]),
            sits_at_only(self.placed, self.pairs[i2], x2, y2),
            would_do(self, self.pairs[i2], s2, t2),
        ensures
            exists|q: u32| #[trigger]
                in_pair(self.pairs[i], q) && q <= self.pairs[i2].0 && q <= self.pairs[i2].1,
    {
        let (_, j, swapped) = self.lemma_moved_pair_is(i, k);
        let (j2, swapped2) = self.lemma_would_do(i2, s2, t2);
        self.lemma_entry(self.pairs[i2], x2, y2);
        self.lemma_is_close(i2, n2);
        assert(self.is_fix(i2, j2, swapped2));
        assert(!pair_before(self.pairs[i2], self.pairs[i]));
        assert(in_pair(self.pairs[i], self.pairs[i].0));
        assert(in_pair(self.pairs[i], self.pairs[i].1));
    }

    /// A repair misses nothing: where a pair stands too close to another one, and
    /// sending it to the halves of a vacant position would set all pairs well
    /// apart, they are well apart after the repair.
    pub proof fn lemma_repair_misses_nothing(
        self,
        i: int,
        n: int,
        x: u64,
        y: u64,
        s: u64,
        t: u64,
    )
        requires
            slots_disjoint(self.slots),
            qubits_disjoint(self.pairs),
            valid_targets(self.targets),
            0 <= i < self.pairs.len(),
            0 <= n < self.pairs.len(),
            i != n,
            stand_close(self.targets, self.arch, self.pairs[i], self.pairs[n]),
            sits_at_only(self.placed, self.pairs[i], x, y),
            would_do(self, self.pairs[i], s, t),
        ensures
            well_apart(self.repaired(), self.pairs, self.arch),
    {
        let (j, swapped) = self.lemma_would_do(i, s, t);
        self.lemma_entry(self.pairs[i], x, y);
        self.lemma_is_close(i, n);
        self.lemma_fix_is_found(i, j, swapped);
        lemma_well_apart(self.repaired(), self.pairs, self.arch);
    }

    /// A pair that stands close to another one takes part in a violation.
    pub proof fn lemma_is_close(self, i: int, n: int)
        requires
            qubits_disjoint(self.pairs),
            valid_targets(self.targets),
            0 <= i < self.pairs.len(),
            0 <= n < self.pairs.len(),
            i != n,
            stand_close(self.targets, self.arch, self.pairs[i], self.pairs[n]),
        ensures
            self.is_close(self.pairs[i]),
    {
        lemma_close(self.targets, self.arch, self.pairs[i], self.pairs[n]);
        assert(!share_qubit(self.pairs[n], self.pairs[i]));
        assert(!same_pair(self.pairs[n], self.pairs[i]));
    }
}

/// Both pairs are on sites of the architecture at their targets, and some atom of
/// one does not stand apart from some atom of the other.
pub open spec fn stand_close(
    targets: Seq<(u32, u64)>,
    arch: ArchModel,
    p: (u32, u32),
    q: (u32, u32),
) -> bool {
    let places = place_map(decoded(targets));
    &&& grid_of(places, p.0, arch) is Some && grid_of(places, p.1, arch) is Some
    &&& grid_of(places, q.0, arch) is Some && grid_of(places, q.1, arch) is Some
    &&& exists|u: u32, v: u32| #[trigger]
        in_pair(p, u) && #[trigger] in_pair(q, v) && !stand_apart(decoded(targets), arch, u, v)
}

/// Pairs stand close exactly where they are both on the grid and not apart.
pub proof fn lemma_close(
    targets: Seq<(u32, u64)>,
    arch: ArchModel,
    p: (u32, u32),
    q: (u32, u32),
)
    requires
        valid_targets(targets),
    ensures
        stand_close(targets, arch, p, q) <==> {
            let places = place_map(decoded(targets));
            on_grid(places, p, arch) && on_grid(places, q, arch) && !pairs_apart(
                places,
                p,
                q,
                arch,
            )
        },
{
    let entries = decoded(targets);
    lemma_atoms_stand_apart(entries, arch, p.0, q.0);
    lemma_atoms_stand_apart(entries, arch, p.0, q.1);
    lemma_atoms_stand_apart(entries, arch, p.1, q.0);
    lemma_atoms_stand_apart(entries, arch, p.1, q.1);
    assert(in_pair(p, p.0) && in_pair(p, p.1) && in_pair(q, q.0) && in_pair(q, q.1));
}

/// What [`repair_pair_separation`] returns is the repaired targets that the laws
/// above speak of.
pub proof fn lemma_repair_result(
    targets: Vec<(u32, u64)>,
    cz_pairs: &[(u32, u32)],
    valid_pairs: &[((u32, u32), u64, u64)],
    slots: &[PositionSlot],
    dist_table: &DistanceTable,
    index: &LaneIndex,
    blocked: &HashSet<u64>,
    repaired: Vec<(u32, u64)>,
)
    requires
        call_ensures(
            repair_pair_separation,
            (targets, cz_pairs, valid_pairs, slots, dist_table, index, blocked),
            repaired,
        ),
    ensures
        repaired@ == (Repair {
            targets: targets@,
            pairs: cz_pairs@,
            placed: valid_pairs@,
            slots: slots@,
            table: dist_table@,
            arch: index.arch(),
            blocked: blocked@,
        }).repaired(),
{
}

/// What [`finalize_assignment_targets`] returns is the repaired targets, too.
pub proof fn lemma_finalized_result(
    targets: Vec<(u32, u64)>,
    cz_pairs: &[(u32, u32)],
    valid_pairs: &[((u32, u32), u64, u64)],
    slots: &[PositionSlot],
    dist_table: &DistanceTable,
    index: &LaneIndex,
    blocked: &HashSet<u64>,
    finalized: Vec<(u32, u64)>,
    repaired: Vec<(u32, u64)>,
)
    requires
        call_ensures(
            finalize_assignment_targets,
            (targets, cz_pairs, valid_pairs, slots, dist_table, index, blocked),
            finalized,
        ),
        call_ensures(
            repair_pair_separation,
            (targets, cz_pairs, valid_pairs, slots, dist_table, index, blocked),
            repaired,
        ),
    ensures
        finalized@ == repaired@,
{
}

/// Pairs are ordered by their lower qubit, then by the first one, then by the
/// second.
pub proof fn lemma_pair_order(p: (u32, u32), q: (u32, u32), a: u32, b: u32)
    requires
        in_pair(p, a) && a <= p.0 && a <= p.1,
        in_pair(q, b) && b <= q.0 && b <= q.1,
    ensures
        a < b ==> pair_before(p, q),
        a == b && p.0 < q.0 ==> pair_before(p, q),
        a == b && p.0 == q.0 ==> (pair_before(p, q) <==> p.1 < q.1),
        pair_before(p, q) ==> !pair_before(q, p),
{
}

/// The target of a qubit, where it has one.
pub proof fn lemma_target_enc(
    targets: &[(u32, u64)],
    qubit_id: u32,
    target: Option<u64>,
    s: u64,
)
    requires
        call_ensures(target_enc, (targets, qubit_id), target),
        forall|i: int, j: int|
            0 <= i < j < targets@.len() ==> (#[trigger] targets@[i]).0 != (
            #[trigger] targets@[j]).0,
    ensures
        target == Some(s) <==> targets@.contains((qubit_id, s)),
{
    lemma_valid(targets@);
    lemma_target_of(targets@, qubit_id, s);
}

/// The position of two targets is the one with these halves, swapped where the
/// first target is its second half.
pub proof fn lemma_locate_pair_slot(
    ta: u64,
    tb: u64,
    slots: &[PositionSlot],
    slot: Option<(usize, bool)>,
    j: int,
)
    requires
        call_ensures(locate_pair_slot, (ta, tb, slots), slot),
        slots_disjoint(slots@),
        0 <= j < slots@.len(),
    ensures
        slots@[j].loc_a == ta && slots@[j].loc_b == tb ==> slot is Some && (slot->0).0 == j && !(
        slot->0).1,
        slots@[j].loc_b == ta && slots@[j].loc_a == tb && ta != tb ==> slot is Some && (slot->0).0
            == j && (slot->0).1,
        slot is Some ==> (slot->0).0 < slots@.len() && halves(
            slots@[(slot->0).0 as int],
            ta,
            tb,
        ),
{
    lemma_slot_with(slots@, ta, tb, j);
    lemma_first_cases(slots@, has_halves(ta, tb));
}

/// Sending a pair to a position sends its first qubit to the first half and its second to the
/// second one, or the other way round where it is swapped. No other target changes.
pub proof fn lemma_apply_pair_slot(
    targets: &mut Vec<(u32, u64)>,
    qa: u32,
    qb: u32,
    slot: PositionSlot,
    swapped: bool,
)
    requires
        call_ensures(apply_pair_slot, (targets, qa, qb, &slot, swapped), ()),
    ensures
        !swapped ==> sent(old(targets)@, (qa, qb), slot.loc_a, slot.loc_b, final(targets)@),
        swapped ==> sent(old(targets)@, (qa, qb), slot.loc_b, slot.loc_a, final(targets)@),
{
}

} // verus!
