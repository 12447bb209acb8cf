//! What it costs to send a row, a pair or a single atom, to a position.

use crate::arch::LocationAddr;
use crate::config::Config;
use crate::distance::{hops_or_big, DistanceTable, BIG};
use crate::entangling::{capped, PositionSlot};
use std::collections::{HashMap, HashSet};
use vstd::prelude::*;

verus! {

broadcast use vstd::std_specs::hash::group_hash_axioms;

/// Cost of the way from a position to the target of the next layer, by hop
/// count.
#[derive(Debug)]
pub enum TransitionCosts {
    /// The same cost for every hop.
    PerHop(u32),
    /// A cost for each hop count, and one for any longer way.
    Table { by_hops: Vec<u32>, beyond: u32 },
}

/// Contents of [`TransitionCosts`].
pub ghost enum TransitionModel {
    PerHop(u32),
    Table { by_hops: Seq<u32>, beyond: u32 },
}

impl TransitionModel {
    /// Cost of `n` hops.
    pub open spec fn of(self, n: u32) -> u32 {
        match self {
            TransitionModel::PerHop(cost) => capped(n * cost),
            TransitionModel::Table { by_hops, beyond } => if n < by_hops.len() {
                by_hops[n as int]
            } else {
                beyond
            },
        }
    }
}

impl View for TransitionCosts {
    type V = TransitionModel;

    open spec fn view(&self) -> TransitionModel {
        match self {
            TransitionCosts::PerHop(cost) => TransitionModel::PerHop(*cost),
            TransitionCosts::Table { by_hops, beyond } => TransitionModel::Table {
                by_hops: by_hops@,
                beyond: *beyond,
            },
        }
    }
}

impl TransitionCosts {
    /// Cost of `n` hops.
    pub fn cost(&self, n: u32) -> (cost: u32)
        ensures
            cost == self@.of(n),
    {
        match self {
            TransitionCosts::PerHop(cost) => {
                assert(n * *cost <= 0xffff_ffff * 0xffff_ffff) by (nonlinear_arith)
                    requires
                        n <= 0xffff_ffff,
                        *cost <= 0xffff_ffff,
                ;
                let total: u64 = n as u64 * *cost as u64;
                if total >= u32::MAX as u64 {
                    u32::MAX
                } else {
                    total as u32
                }
            },
            TransitionCosts::Table { by_hops, beyond } => {
                if (n as usize) < by_hops.len() {
                    by_hops[n as usize]
                } else {
                    *beyond
                }
            },
        }
    }
}

/// Cost of a position that atoms hold which do not move by themselves.
#[derive(Clone, Copy, Debug, PartialEq, Eq, Structural)]
pub struct OccupancyCosts {
    /// One half is held.
    pub one: u32,
    /// Both halves are held.
    pub both: u32,
}

/// A row of the assignment problem.
///
/// A pair takes both halves of a position. A spectator, which has to get out of
/// the way, takes one half.
#[derive(Clone, Copy, Debug, PartialEq, Eq, Structural)]
pub enum Row {
    Pair { qa: u32, qb: u32, loc_a_enc: u64, loc_b_enc: u64 },
    Spectator { qid: u32, loc_enc: u64 },
}

/// What the cost of a cell depends on.
pub ghost struct CostModel {
    /// Hop counts.
    pub table: Map<u64, Map<u64, u32>>,
    /// Locations of atoms that are in no row.
    pub held: Set<u64>,
    /// Locations that nothing can move to.
    pub blocked: Set<u64>,
    /// Targets of the next layer.
    pub next: Map<u32, u64>,
    pub transition: TransitionModel,
    pub occupancy: OccupancyCosts,
    /// Cost of moving an atom at all.
    pub move_penalty: u32,
}

impl CostModel {
    /// Cost of the way from `at` to the target of the next layer.
    pub open spec fn onward(self, qubit_id: u32, at: u64) -> int {
        if self.next.contains_key(qubit_id) {
            self.transition.of(hops_or_big(self.table, at, self.next[qubit_id])) as int
        } else {
            0
        }
    }

    /// Cost of leaving `from` for `to`.
    pub open spec fn leaving(self, from: u64, to: u64) -> int {
        if from == to {
            0
        } else {
            self.move_penalty as int
        }
    }

    /// Cost of a half that may be held.
    pub open spec fn half_held(self, loc: u64) -> int {
        if self.held.contains(loc) {
            self.occupancy.one as int
        } else {
            0
        }
    }

    /// Cost of a position whose halves may be held.
    pub open spec fn slot_held(self, slot: PositionSlot) -> int {
        if self.held.contains(slot.loc_a) && self.held.contains(slot.loc_b) {
            self.occupancy.both as int
        } else if self.held.contains(slot.loc_a) || self.held.contains(slot.loc_b) {
            self.occupancy.one as int
        } else {
            0
        }
    }

    /// Cost of sending a pair from its locations to two halves of a position.
    pub open spec fn pair_cost(
        self,
        pair: (u32, u32),
        from: (u64, u64),
        to: (u64, u64),
        slot: PositionSlot,
    ) -> u32 {
        capped(
            hops_or_big(self.table, from.0, to.0) + hops_or_big(self.table, from.1, to.1)
                + self.onward(pair.0, to.0) + self.onward(pair.1, to.1) + self.slot_held(slot)
                + self.leaving(from.0, to.0) + self.leaving(from.1, to.1),
        )
    }

    /// Cost of sending a spectator to one half, with `other` across from it.
    /// An atom that stays at `other` would be in an accidental CZ with it.
    pub open spec fn spectator_cost(self, qubit_id: u32, from: u64, to: u64, other: u64) -> u32 {
        if self.blocked.contains(to) {
            BIG
        } else {
            capped(
                hops_or_big(self.table, from, to) + self.onward(qubit_id, to) + self.half_held(to)
                    + self.half_held(other) + self.leaving(from, to),
            )
        }
    }

    /// Cost of a cell with the first half for the first qubit, and with the
    /// second.
    pub open spec fn cell_costs(self, row: Row, slot: PositionSlot) -> (u32, u32) {
        match row {
            Row::Pair { qa, qb, loc_a_enc, loc_b_enc } => if self.blocked.contains(slot.loc_a)
                || self.blocked.contains(slot.loc_b) {
                (BIG, BIG)
            } else {
                (
                    self.pair_cost(
                        (qa, qb),
                        (loc_a_enc, loc_b_enc),
                        (slot.loc_a, slot.loc_b),
                        slot,
                    ),
                    self.pair_cost(
                        (qa, qb),
                        (loc_a_enc, loc_b_enc),
                        (slot.loc_b, slot.loc_a),
                        slot,
                    ),
                )
            },
            Row::Spectator { qid, loc_enc } => (
                self.spectator_cost(qid, loc_enc, slot.loc_a, slot.loc_b),
                self.spectator_cost(qid, loc_enc, slot.loc_b, slot.loc_a),
            ),
        }
    }

    /// Cost of a cell: the cheaper of the two ways.
    pub open spec fn cell_cost(self, row: Row, slot: PositionSlot) -> u32 {
        let (straight, swapped) = self.cell_costs(row, slot);
        if straight <= swapped {
            straight
        } else {
            swapped
        }
    }

    /// Whether the cheaper way is the swapped one: the second half for the
    /// first qubit.
    pub open spec fn cell_swapped(self, row: Row, slot: PositionSlot) -> bool {
        let (straight, swapped) = self.cell_costs(row, slot);
        straight > swapped
    }
}

/// Locations of the atoms outside `movers`.
pub open spec fn held_besides(entries: Seq<(u32, LocationAddr)>, movers: Set<u32>) -> Set<u64> {
    Set::new(
        |loc: u64|
            exists|i: int|
                0 <= i < entries.len() && !movers.contains((#[trigger] entries[i]).0)
                    && entries[i].1.code() == loc,
    )
}

/// Collect the locations of the atoms outside `movers`.
pub fn collect_held_besides(config: &Config, movers: &HashSet<u32>) -> (held: HashSet<u64>)
    ensures
        held@ == held_besides(config@, movers@),
{
    let entries = config.entries();
    let mut held: HashSet<u64> = HashSet::new();
    let mut i: usize = 0;
    while i < entries.len()
        invariant
            i <= entries@.len(),
            entries@ == config@,
            forall|loc: u64| #[trigger]
                held@.contains(loc) <==> exists|k: int|
                    0 <= k < i && !movers@.contains((#[trigger] entries@[k]).0)
                        && entries@[k].1.code() == loc,
        decreases entries.len() - i,
    {
        let (qubit_id, loc) = entries[i];
        if !movers.contains(&qubit_id) {
            held.insert(loc.encode());
        }
        i += 1;
    }
    assert(held@ =~= held_besides(config@, movers@));
    held
}

/// Everything that the cost of a cell depends on.
pub struct CostInputs<'a> {
    pub dist_table: &'a DistanceTable,
    /// Locations of atoms that are in no row.
    pub held: HashSet<u64>,
    /// Locations that nothing can move to.
    pub blocked: &'a HashSet<u64>,
    /// Targets of the next layer.
    pub next: Option<&'a HashMap<u32, u64>>,
    pub transition: &'a TransitionCosts,
    pub occupancy: OccupancyCosts,
    /// Cost of moving an atom at all.
    pub move_penalty: u32,
}

/// The targets of the next layer, none where there is no next layer.
pub open spec fn next_targets(next: Option<&HashMap<u32, u64>>) -> Map<u32, u64> {
    match next {
        Some(next) => next@,
        None => Map::empty(),
    }
}

impl<'a> CostInputs<'a> {
    /// The model that these inputs are for.
    pub open spec fn model(self) -> CostModel {
        CostModel {
            table: self.dist_table@,
            held: self.held@,
            blocked: self.blocked@,
            next: next_targets(self.next),
            transition: self.transition@,
            occupancy: self.occupancy,
            move_penalty: self.move_penalty,
        }
    }

    fn onward(&self, qubit_id: u32, at: u64) -> (cost: u32)
        ensures
            cost == self.model().onward(qubit_id, at),
    {
        match self.next {
            Some(next) => match next.get(&qubit_id) {
                Some(target) => self.transition.cost(
                    self.dist_table.distance_or_big(at, *target),
                ),
                None => 0,
            },
            None => 0,
        }
    }

    fn leaving(&self, from: u64, to: u64) -> (cost: u32)
        ensures
            cost == self.model().leaving(from, to),
    {
        if from == to {
            0
        } else {
            self.move_penalty
        }
    }

    fn half_held(&self, loc: u64) -> (cost: u32)
        ensures
            cost == self.model().half_held(loc),
    {
        if self.held.contains(&loc) {
            self.occupancy.one
        } else {
            0
        }
    }

    fn slot_held(&self, slot: &PositionSlot) -> (cost: u32)
        ensures
            cost == self.model().slot_held(*slot),
    {
        let a = self.held.contains(&slot.loc_a);
        let b = self.held.contains(&slot.loc_b);
        if a && b {
            self.occupancy.both
        } else if a || b {
            self.occupancy.one
        } else {
            0
        }
    }

    fn pair_cost(
        &self,
        pair: (u32, u32),
        from: (u64, u64),
        to: (u64, u64),
        slot: &PositionSlot,
    ) -> (cost: u32)
        ensures
            cost == self.model().pair_cost(pair, from, to, *slot),
    {
        let cost = self.dist_table.distance_or_big(from.0, to.0);
        let cost = cost.saturating_add(self.dist_table.distance_or_big(from.1, to.1));
        let cost = cost.saturating_add(self.onward(pair.0, to.0));
        let cost = cost.saturating_add(self.onward(pair.1, to.1));
        let cost = cost.saturating_add(self.slot_held(slot));
        let cost = cost.saturating_add(self.leaving(from.0, to.0));
        cost.saturating_add(self.leaving(from.1, to.1))
    }

    fn spectator_cost(&self, qubit_id: u32, from: u64, to: u64, other: u64) -> (cost: u32)
        ensures
            cost == self.model().spectator_cost(qubit_id, from, to, other),
    {
        if self.blocked.contains(&to) {
            return BIG;
        }
        let cost = self.dist_table.distance_or_big(from, to);
        let cost = cost.saturating_add(self.onward(qubit_id, to));
        let cost = cost.saturating_add(self.half_held(to));
        let cost = cost.saturating_add(self.half_held(other));
        cost.saturating_add(self.leaving(from, to))
    }

    /// The cost of a cell, and whether the swapped way is the cheaper one.
    pub fn cell(&self, row: &Row, slot: &PositionSlot) -> (cell: (u32, bool))
        ensures
            cell == (self.model().cell_cost(*row, *slot), self.model().cell_swapped(*row, *slot)),
    {
        let (straight, swapped) = match *row {
            Row::Pair { qa, qb, loc_a_enc, loc_b_enc } => {
                if self.blocked.contains(&slot.loc_a) || self.blocked.contains(&slot.loc_b) {
                    (BIG, BIG)
                } else {
                    (
                        self.pair_cost(
                            (qa, qb),
                            (loc_a_enc, loc_b_enc),
                            (slot.loc_a, slot.loc_b),
                            slot,
                        ),
                        self.pair_cost(
                            (qa, qb),
                            (loc_a_enc, loc_b_enc),
                            (slot.loc_b, slot.loc_a),
                            slot,
                        ),
                    )
                }
            },
            Row::Spectator { qid, loc_enc } => {
                (
                    self.spectator_cost(qid, loc_enc, slot.loc_a, slot.loc_b),
                    self.spectator_cost(qid, loc_enc, slot.loc_b, slot.loc_a),
                )
            },
        };
        if straight <= swapped {
            (straight, false)
        } else {
            (swapped, true)
        }
    }
}

} // verus!
