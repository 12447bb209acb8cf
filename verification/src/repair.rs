//! Repair of an assignment whose pairs end up too close to each other.

use crate::arch::{ArchModel, LocationAddr};
use crate::config::{distinct_qubits, first_repeat, lemma_same_places, place_map, Config};
use crate::distance::{hops_or_big, DistanceTable};
use crate::entangling::{capped, PositionSlot};
use crate::goals::{
    atoms_grid_separated, grid_of, on_grid, pairs_apart, pairs_grid_separated, qubit_grid_index,
    separated,
};
use crate::lane_index::LaneIndex;
use crate::seqs::{copied, first_where, lemma_first_found, lemma_first_none};
use std::collections::HashSet;
use vstd::prelude::*;

verus! {

broadcast use vstd::std_specs::hash::group_hash_axioms;

/// Targets as placements.
pub open spec fn decoded(targets: Seq<(u32, u64)>) -> Seq<(u32, LocationAddr)> {
    targets.map_values(|target: (u32, u64)| (target.0, LocationAddr::of_code(target.1)))
}

/// Every qubit has at most one target.
pub open spec fn valid_targets(targets: Seq<(u32, u64)>) -> bool {
    distinct_qubits(decoded(targets))
}

/// The pairs are apart from each other at their targets.
pub open spec fn separated_targets(
    targets: Seq<(u32, u64)>,
    pairs: Seq<(u32, u32)>,
    arch: ArchModel,
) -> bool {
    valid_targets(targets) && separated(place_map(decoded(targets)), pairs, arch)
}

/// The configuration in which every qubit has reached its target.
pub fn config_from_assignment_targets(targets: &[(u32, u64)]) -> (config: Option<Config>)
    ensures
        match config {
            Some(config) => valid_targets(targets@) && place_map(config@) == place_map(
                decoded(targets@),
            ),
            None => !valid_targets(targets@),
        },
{
    let mut placements: Vec<(u32, LocationAddr)> = Vec::new();
    let mut i: usize = 0;
    while i < targets.len()
        invariant
            i <= targets@.len(),
            placements@ == decoded(targets@).take(i as int),
        decreases targets.len() - i,
    {
        placements.push((targets[i].0, LocationAddr::decode(targets[i].1)));
        i += 1;
        assert(decoded(targets@).take(i as int) =~= decoded(targets@).take(i - 1).push(
            decoded(targets@)[i - 1],
        ));
    }
    assert(placements@ =~= decoded(targets@));
    match Config::new(placements.as_slice()) {
        Ok(config) => {
            proof {
                assert(distinct_qubits(config@));
                lemma_same_places(config@, placements@);
            }
            Some(config)
        },
        Err(_) => {
            proof {
                let k = choose|k: int| first_repeat(placements@, k);
                let j = choose|j: int|
                    0 <= j < k && (#[trigger] placements@[j]).0 == placements@[k].0;
                assert(placements@[j].0 == placements@[k].0);
            }
            None
        },
    }
}

/// Whether a target is for `qubit_id`.
pub open spec fn is_for(qubit_id: u32) -> spec_fn((u32, u64)) -> bool {
    |target: (u32, u64)| target.0 == qubit_id
}

/// Where `qubit_id` shall go.
pub open spec fn target_of(targets: Seq<(u32, u64)>, qubit_id: u32) -> Option<u64> {
    match first_where(targets, is_for(qubit_id)) {
        Some(i) => Some(targets[i].1),
        None => None,
    }
}

/// Where a qubit shall go.
pub fn target_enc(targets: &[(u32, u64)], qubit_id: u32) -> (target: Option<u64>)
    ensures
        target == target_of(targets@, qubit_id),
{
    let mut i: usize = 0;
    while i < targets.len()
        invariant
            i <= targets@.len(),
            forall|k: int| 0 <= k < i ==> !is_for(qubit_id)(#[trigger] targets@[k]),
        decreases targets.len() - i,
    {
        if targets[i].0 == qubit_id {
            proof {
                lemma_first_found(targets@, is_for(qubit_id), i as int);
            }
            return Some(targets[i].1);
        }
        i += 1;
    }
    proof {
        lemma_first_none(targets@, is_for(qubit_id));
    }
    None
}

/// Whether a position has the two locations as its halves.
pub open spec fn has_halves(a: u64, b: u64) -> spec_fn(PositionSlot) -> bool {
    |slot: PositionSlot|
        (a == slot.loc_a && b == slot.loc_b) || (a == slot.loc_b && b == slot.loc_a)
}

/// The first position with the two locations as its halves, and whether they
/// are swapped.
pub open spec fn slot_with(a: u64, b: u64, slots: Seq<PositionSlot>) -> Option<(int, bool)> {
    match first_where(slots, has_halves(a, b)) {
        Some(j) => Some((j, !(a == slots[j].loc_a && b == slots[j].loc_b))),
        None => None,
    }
}

/// The position that a pair occupies at its two targets, and whether the pair
/// is swapped there.
pub fn locate_pair_slot(ta: u64, tb: u64, slots: &[PositionSlot]) -> (slot: Option<(usize, bool)>)
    ensures
        match slot {
            Some((j, swapped)) => slot_with(ta, tb, slots@) == Some((j as int, swapped)),
            None => slot_with(ta, tb, slots@) is None,
        },
{
    let mut j: usize = 0;
    while j < slots.len()
        invariant
            j <= slots@.len(),
            forall|k: int| 0 <= k < j ==> !has_halves(ta, tb)(#[trigger] slots@[k]),
        decreases slots.len() - j,
    {
        let slot = slots[j];
        if ta == slot.loc_a && tb == slot.loc_b {
            proof {
                lemma_first_found(slots@, has_halves(ta, tb), j as int);
            }
            return Some((j, false));
        }
        if ta == slot.loc_b && tb == slot.loc_a {
            proof {
                lemma_first_found(slots@, has_halves(ta, tb), j as int);
            }
            return Some((j, true));
        }
        j += 1;
    }
    proof {
        lemma_first_none(slots@, has_halves(ta, tb));
    }
    None
}

/// The half of a position that the first qubit of a pair goes to.
pub open spec fn first_half(slot: PositionSlot, swapped: bool) -> u64 {
    if swapped {
        slot.loc_b
    } else {
        slot.loc_a
    }
}

/// The half of a position that the second qubit of a pair goes to.
pub open spec fn second_half(slot: PositionSlot, swapped: bool) -> u64 {
    if swapped {
        slot.loc_a
    } else {
        slot.loc_b
    }
}

/// The targets with a pair sent to a position.
pub open spec fn pair_moved(
    targets: Seq<(u32, u64)>,
    pair: (u32, u32),
    slot: PositionSlot,
    swapped: bool,
) -> Seq<(u32, u64)> {
    targets.map_values(
        |target: (u32, u64)|
            if target.0 == pair.0 {
                (target.0, first_half(slot, swapped))
            } else if target.0 == pair.1 {
                (target.0, second_half(slot, swapped))
            } else {
                target
            },
    )
}

/// Send a pair to a position.
pub fn apply_pair_slot(
    targets: &mut Vec<(u32, u64)>,
    qa: u32,
    qb: u32,
    slot: &PositionSlot,
    swapped: bool,
)
    ensures
        final(targets)@ == pair_moved(old(targets)@, (qa, qb), *slot, swapped),
{
    let ghost goal = pair_moved(targets@, (qa, qb), *slot, swapped);
    let mut i: usize = 0;
    while i < targets.len()
        invariant
            i <= targets.len(),
            targets@.len() == old(targets)@.len(),
            goal == pair_moved(old(targets)@, (qa, qb), *slot, swapped),
            forall|k: int| 0 <= k < i ==> #[trigger] targets@[k] == goal[k],
            forall|k: int| i <= k < targets@.len() ==> #[trigger] targets@[k] == old(targets)@[k],
        decreases targets.len() - i,
    {
        let qubit_id = targets[i].0;
        if qubit_id == qa {
            let to = if swapped {
                slot.loc_b
            } else {
                slot.loc_a
            };
            targets.set(i, (qubit_id, to));
        } else if qubit_id == qb {
            let to = if swapped {
                slot.loc_a
            } else {
                slot.loc_b
            };
            targets.set(i, (qubit_id, to));
        }
        i += 1;
    }
    assert(targets@ =~= goal);
}

/// The same two qubits, in either order.
pub open spec fn same_pair(p: (u32, u32), q: (u32, u32)) -> bool {
    (p.0 == q.0 && p.1 == q.1) || (p.0 == q.1 && p.1 == q.0)
}

fn is_same_pair(p: (u32, u32), q: (u32, u32)) -> (b: bool)
    ensures
        b == same_pair(p, q),
{
    (p.0 == q.0 && p.1 == q.1) || (p.0 == q.1 && p.1 == q.0)
}

/// The pair is on the grid and not apart from some other pair on the grid.
pub open spec fn in_violation(
    places: Map<u32, LocationAddr>,
    pair: (u32, u32),
    pairs: Seq<(u32, u32)>,
    arch: ArchModel,
) -> bool {
    &&& on_grid(places, pair, arch)
    &&& exists|i: int|
        0 <= i < pairs.len() && !same_pair(#[trigger] pairs[i], pair) && on_grid(
            places,
            pairs[i],
            arch,
        ) && !pairs_apart(places, pair, pairs[i], arch)
}

/// Whether a pair is too close to another one.
pub fn pair_participates_in_violation(
    qa: u32,
    qb: u32,
    config: &Config,
    cz_pairs: &[(u32, u32)],
    index: &LaneIndex,
) -> (b: bool)
    ensures
        b == in_violation(place_map(config@), (qa, qb), cz_pairs@, index.arch()),
{
    let ghost places = place_map(config@);
    let ghost arch = index.arch();
    let (a0, a1) = match (
        qubit_grid_index(config, qa, index),
        qubit_grid_index(config, qb, index),
    ) {
        (Some(a0), Some(a1)) => (a0, a1),
        _ => {
            return false;
        },
    };
    let mut i: usize = 0;
    while i < cz_pairs.len()
        invariant
            i <= cz_pairs@.len(),
            places == place_map(config@),
            arch == index.arch(),
            grid_of(places, qa, arch) == Some(a0),
            grid_of(places, qb, arch) == Some(a1),
            forall|k: int|
                0 <= k < i && !same_pair(#[trigger] cz_pairs@[k], (qa, qb)) && on_grid(
                    places,
                    cz_pairs@[k],
                    arch,
                ) ==> pairs_apart(places, (qa, qb), cz_pairs@[k], arch),
        decreases cz_pairs.len() - i,
    {
        let pair = cz_pairs[i];
        if !is_same_pair(pair, (qa, qb)) {
            match (
                qubit_grid_index(config, pair.0, index),
                qubit_grid_index(config, pair.1, index),
            ) {
                (Some(b0), Some(b1)) => {
                    let apart = atoms_grid_separated(a0, b0) && atoms_grid_separated(a0, b1)
                        && atoms_grid_separated(a1, b0) && atoms_grid_separated(a1, b1);
                    assert(apart == pairs_apart(places, (qa, qb), cz_pairs@[i as int], arch));
                    if !apart {
                        return true;
                    }
                },
                _ => {},
            }
        }
        i += 1;
    }
    false
}

/// Whether an entry is for the given pair.
pub open spec fn entry_for(pair: (u32, u32)) -> spec_fn(((u32, u32), u64, u64)) -> bool {
    |entry: ((u32, u32), u64, u64)| same_pair(entry.0, pair)
}

/// What a repair looks at.
pub ghost struct Repair {
    pub targets: Seq<(u32, u64)>,
    pub pairs: Seq<(u32, u32)>,
    /// Pairs whose qubits are placed, with where they are.
    pub placed: Seq<((u32, u32), u64, u64)>,
    pub slots: Seq<PositionSlot>,
    pub table: Map<u64, Map<u64, u32>>,
    pub arch: ArchModel,
    pub blocked: Set<u64>,
}

impl Repair {
    /// The position that a pair has at its targets.
    pub open spec fn slot_index(self, pair: (u32, u32)) -> Option<int> {
        match (target_of(self.targets, pair.0), target_of(self.targets, pair.1)) {
            (Some(a), Some(b)) => match slot_with(a, b, self.slots) {
                Some(found) => Some(found.0),
                None => None,
            },
            _ => None,
        }
    }

    /// Another pair has position `j`.
    pub open spec fn taken(self, pair: (u32, u32), j: int) -> bool {
        exists|k: int|
            0 <= k < self.pairs.len() && !same_pair(#[trigger] self.pairs[k], pair)
                && self.slot_index(self.pairs[k]) == Some(j)
    }

    /// The pair could be sent to position `j`: it is another one, no pair has
    /// it, and neither half is blocked.
    pub open spec fn is_open(self, pair: (u32, u32), j: int) -> bool {
        &&& 0 <= j < self.slots.len()
        &&& self.slot_index(pair) != Some(j)
        &&& !self.taken(pair, j)
        &&& !self.blocked.contains(self.slots[j].loc_a)
        &&& !self.blocked.contains(self.slots[j].loc_b)
    }

    /// The targets with the pair sent to position `j`.
    pub open spec fn trial(self, pair: (u32, u32), j: int, swapped: bool) -> Seq<(u32, u64)> {
        pair_moved(self.targets, pair, self.slots[j], swapped)
    }

    /// Sending the pair to position `j` separates all pairs.
    pub open spec fn works(self, pair: (u32, u32), j: int, swapped: bool) -> bool {
        self.is_open(pair, j) && separated_targets(
            self.trial(pair, j, swapped),
            self.pairs,
            self.arch,
        )
    }

    /// The pair is too close to another one at its targets.
    pub open spec fn is_close(self, pair: (u32, u32)) -> bool {
        in_violation(place_map(decoded(self.targets)), pair, self.pairs, self.arch)
    }

    /// Where the pair is now.
    pub open spec fn entry(self, pair: (u32, u32)) -> Option<int> {
        first_where(self.placed, entry_for(pair))
    }

    /// Hops of the pair to position `j`.
    pub open spec fn cost(self, pair: (u32, u32), j: int, swapped: bool) -> u32 {
        let entry = self.placed[self.entry(pair)->0];
        capped(
            hops_or_big(self.table, entry.1, first_half(self.slots[j], swapped)) + hops_or_big(
                self.table,
                entry.2,
                second_half(self.slots[j], swapped),
            ),
        )
    }

    /// Pair `i`, which is too close to another one, sent to position `j`
    /// separates all pairs.
    pub open spec fn is_fix(self, i: int, j: int, swapped: bool) -> bool {
        &&& 0 <= i < self.pairs.len()
        &&& self.is_close(self.pairs[i])
        &&& self.entry(self.pairs[i]) is Some
        &&& self.works(self.pairs[i], j, swapped)
    }

    /// No fix comes before this one. Fixes are ordered by the pair (lower
    /// qubit, first qubit, second qubit), then by the hops of the pair, then by
    /// position, unswapped first.
    pub open spec fn is_first_fix(self, i: int, j: int, swapped: bool) -> bool {
        &&& self.is_fix(i, j, swapped)
        &&& forall|i2: int, j2: int, swapped2: bool| #[trigger]
            self.is_fix(i2, j2, swapped2) ==> !pair_before(self.pairs[i2], self.pairs[i]) && (
            self.pairs[i2] == self.pairs[i] ==> !self.move_before(
                self.pairs[i],
                (j2, swapped2),
                (j, swapped),
            ))
    }

    /// One way to move a pair comes before another: fewer hops, then lower
    /// position, then unswapped.
    pub open spec fn move_before(self, pair: (u32, u32), a: (int, bool), b: (int, bool)) -> bool {
        let (ca, cb) = (self.cost(pair, a.0, a.1), self.cost(pair, b.0, b.1));
        ca < cb || (ca == cb && (a.0 < b.0 || (a.0 == b.0 && !a.1 && b.1)))
    }

    /// The targets after the first fix; the targets themselves where they need
    /// none, are not valid, or have none.
    #[verifier::opaque]
    pub open spec fn repaired(self) -> Seq<(u32, u64)> {
        if self.pairs.len() < 2 || !valid_targets(self.targets) || separated_targets(
            self.targets,
            self.pairs,
            self.arch,
        ) {
            self.targets
        } else if exists|i: int, j: int, swapped: bool| self.is_first_fix(i, j, swapped) {
            let (i, j, swapped) = choose|i: int, j: int, swapped: bool|
                self.is_first_fix(i, j, swapped);
            self.trial(self.pairs[i], j, swapped)
        } else {
            self.targets
        }
    }

    proof fn lemma_first_fix_unique(
        self,
        i: int,
        j: int,
        swapped: bool,
        i2: int,
        j2: int,
        swapped2: bool,
    )
        requires
            self.is_first_fix(i, j, swapped),
            self.is_first_fix(i2, j2, swapped2),
        ensures
            self.pairs[i] == self.pairs[i2],
            j == j2,
            swapped == swapped2,
    {
        assert(self.is_fix(i, j, swapped));
        assert(self.is_fix(i2, j2, swapped2));
        assert(!pair_before(self.pairs[i2], self.pairs[i]));
        assert(!pair_before(self.pairs[i], self.pairs[i2]));
    }

    /// A repair changes nothing or separates all pairs.
    pub proof fn lemma_repaired_or_unchanged(self)
        ensures
            self.repaired() == self.targets || separated_targets(
                self.repaired(),
                self.pairs,
                self.arch,
            ),
            separated_targets(self.targets, self.pairs, self.arch) ==> self.repaired()
                == self.targets,
    {
        reveal(Repair::repaired);
    }

    /// A repair changes nothing or is one of the fixes.
    pub proof fn lemma_repaired_cases(self)
        ensures
            self.repaired() == self.targets || exists|i: int, j: int, swapped: bool| #[trigger]
                self.is_fix(i, j, swapped) && self.repaired() == self.trial(
                    self.pairs[i],
                    j,
                    swapped,
                ),
    {
        reveal(Repair::repaired);
        if self.repaired() != self.targets {
            let (i, j, swapped) = choose|i: int, j: int, swapped: bool|
                self.is_first_fix(i, j, swapped);
            assert(self.is_first_fix(i, j, swapped));
            assert(self.is_fix(i, j, swapped));
        }
    }

    /// A repair gives no qubit a target that had none, and takes none away.
    /// Only the two qubits of one pair, which was too close to another one, may
    /// get another target: the halves of a position that no pair has and that
    /// is not blocked.
    pub proof fn lemma_repaired_one_pair(self)
        ensures
            self.repaired().len() == self.targets.len(),
            forall|k: int|
                0 <= k < self.targets.len() ==> (#[trigger] self.repaired()[k]).0
                    == self.targets[k].0,
            self.repaired() == self.targets || exists|i: int, j: int, swapped: bool| #[trigger]
                self.is_fix(i, j, swapped) && self.repaired() == self.trial(
                    self.pairs[i],
                    j,
                    swapped,
                ),
    {
        self.lemma_repaired_cases();
        if self.repaired() != self.targets {
            let (i, j, swapped) = choose|i: int, j: int, swapped: bool| #[trigger]
                self.is_fix(i, j, swapped) && self.repaired() == self.trial(
                    self.pairs[i],
                    j,
                    swapped,
                );
            assert(self.repaired() == self.trial(self.pairs[i], j, swapped));
        }
    }

    /// A repair leaves the targets of qubits that are in no pair unchanged.
    pub proof fn lemma_repaired_keeps_spectators(self, k: int)
        requires
            0 <= k < self.targets.len(),
            forall|i: int|
                0 <= i < self.pairs.len() ==> (#[trigger] self.pairs[i]).0 != self.targets[k].0
                    && self.pairs[i].1 != self.targets[k].0,
        ensures
            self.repaired()[k] == self.targets[k],
    {
        self.lemma_repaired_cases();
        if self.repaired() != self.targets {
            let (i, j, swapped) = choose|i: int, j: int, swapped: bool| #[trigger]
                self.is_fix(i, j, swapped) && self.repaired() == self.trial(
                    self.pairs[i],
                    j,
                    swapped,
                );
            assert(self.pairs[i].0 != self.targets[k].0);
        }
    }

    /// A repair sends nothing to a blocked location that was not sent there
    /// before.
    pub proof fn lemma_repaired_unblocked(self, k: int)
        requires
            0 <= k < self.targets.len(),
            !self.blocked.contains(self.targets[k].1),
        ensures
            !self.blocked.contains(self.repaired()[k].1),
    {
        self.lemma_repaired_cases();
        if self.repaired() != self.targets {
            let (i, j, swapped) = choose|i: int, j: int, swapped: bool| #[trigger]
                self.is_fix(i, j, swapped) && self.repaired() == self.trial(
                    self.pairs[i],
                    j,
                    swapped,
                );
            assert(self.is_open(self.pairs[i], j));
        }
    }

    /// Repairing once more changes nothing.
    pub proof fn lemma_repaired_idempotent(self)
        ensures
            (Repair { targets: self.repaired(), ..self }).repaired() == self.repaired(),
    {
        self.lemma_repaired_or_unchanged();
        if self.repaired() == self.targets {
            assert((Repair { targets: self.repaired(), ..self }) == self);
        } else {
            (Repair { targets: self.repaired(), ..self }).lemma_repaired_or_unchanged();
        }
    }
    /// A repair misses no fix: where the pairs are too close to each other and
    /// sending one of them to an open position separates all pairs, the
    /// repaired targets are separated.
    pub proof fn lemma_fix_is_found(self, i: int, j: int, swapped: bool)
        requires
            self.pairs.len() >= 2,
            valid_targets(self.targets),
            self.is_fix(i, j, swapped),
        ensures
            separated_targets(self.repaired(), self.pairs, self.arch),
    {
        reveal(Repair::repaired);
        let fixes = |i: int, j: int, swapped: bool| self.is_fix(i, j, swapped);
        let cost = |pair: (u32, u32), j: int, swapped: bool| self.cost(pair, j, swapped);
        assert forall|i: int, j: int, swapped: bool| #[trigger]
            fixes(i, j, swapped) implies 0 <= i < self.pairs.len() && 0 <= j
            < self.slots.len() by {
            assert(self.is_open(self.pairs[i], j));
        }
        assert(fixes(i, j, swapped));
        let best = lemma_best_fix(
            self.pairs,
            self.slots.len(),
            fixes,
            cost,
            self.pairs.len(),
        );
        assert forall|i2: int, j2: int, swapped2: bool| #[trigger]
            self.is_fix(i2, j2, swapped2) implies !pair_before(self.pairs[i2], self.pairs[best.0])
            && (self.pairs[i2] == self.pairs[best.0] ==> !self.move_before(
            self.pairs[best.0],
            (j2, swapped2),
            (best.1, best.2),
        )) by {
            assert(fixes(i2, j2, swapped2));
        }
        assert(fixes(best.0, best.1, best.2));
        assert(self.is_first_fix(best.0, best.1, best.2));
    }
}

/// One way to move comes before another: lower cost, then lower position, then
/// unswapped.
spec fn way_before(cost: spec_fn(int, bool) -> u32, a: (int, bool), b: (int, bool)) -> bool {
    let (ca, cb) = (cost(a.0, a.1), cost(b.0, b.1));
    ca < cb || (ca == cb && (a.0 < b.0 || (a.0 == b.0 && !a.1 && b.1)))
}

/// Among the ways below position `n`, one has none before it.
proof fn lemma_best_way(
    ways: spec_fn(int, bool) -> bool,
    cost: spec_fn(int, bool) -> u32,
    n: nat,
) -> (best: (int, bool))
    requires
        exists|j: int, swapped: bool| #[trigger] ways(j, swapped) && j < n,
        forall|j: int, swapped: bool| #[trigger] ways(j, swapped) ==> j >= 0,
    ensures
        ways(best.0, best.1),
        best.0 < n,
        forall|j: int, swapped: bool| #[trigger]
            ways(j, swapped) && j < n ==> !way_before(cost, (j, swapped), best),
    decreases n,
{
    let last: int = n - 1;
    if exists|j: int, swapped: bool| #[trigger] ways(j, swapped) && j < last {
        let best = lemma_best_way(ways, cost, last as nat);
        let best = if ways(last, false) && way_before(cost, (last, false), best) {
            (last, false)
        } else {
            best
        };
        if ways(last, true) && way_before(cost, (last, true), best) {
            (last, true)
        } else {
            best
        }
    } else {
        let (j, swapped) = choose|j: int, swapped: bool| #[trigger] ways(j, swapped) && j < n;
        assert(j == last);
        if !ways(last, false) {
            (last, true)
        } else if ways(last, true) && way_before(cost, (last, true), (last, false)) {
            (last, true)
        } else {
            (last, false)
        }
    }
}

/// The first of two fixes: by pair, then by the way it moves.
spec fn fix_before(
    pairs: Seq<(u32, u32)>,
    cost: spec_fn((u32, u32), int, bool) -> u32,
    a: (int, int, bool),
    b: (int, int, bool),
) -> bool {
    pair_before(pairs[a.0], pairs[b.0]) || (pairs[a.0] == pairs[b.0] && way_before(
        |j: int, swapped: bool| cost(pairs[b.0], j, swapped),
        (a.1, a.2),
        (b.1, b.2),
    ))
}

/// Among the fixes of the first `n` pairs, one has none before it.
proof fn lemma_best_fix(
    pairs: Seq<(u32, u32)>,
    n_slots: nat,
    fixes: spec_fn(int, int, bool) -> bool,
    cost: spec_fn((u32, u32), int, bool) -> u32,
    n: nat,
) -> (best: (int, int, bool))
    requires
        n <= pairs.len(),
        forall|i: int, j: int, swapped: bool| #[trigger]
            fixes(i, j, swapped) ==> 0 <= i < pairs.len() && 0 <= j < n_slots,
        exists|i: int, j: int, swapped: bool| #[trigger] fixes(i, j, swapped) && i < n,
    ensures
        fixes(best.0, best.1, best.2),
        best.0 < n,
        forall|i: int, j: int, swapped: bool| #[trigger]
            fixes(i, j, swapped) && i < n ==> !fix_before(pairs, cost, (i, j, swapped), best),
    decreases n,
{
    let last: int = n - 1;
    let ways = |j: int, swapped: bool| fixes(last, j, swapped);
    let last_cost = |j: int, swapped: bool| cost(pairs[last], j, swapped);
    let lower = exists|i: int, j: int, swapped: bool| #[trigger] fixes(i, j, swapped) && i < last;
    let here = exists|j: int, swapped: bool| #[trigger] ways(j, swapped);
    if !lower {
        let (i, j, swapped) = choose|i: int, j: int, swapped: bool| #[trigger]
            fixes(i, j, swapped) && i < n;
        assert(i == last);
        assert(ways(j, swapped));
    }
    if !here {
        let best = lemma_best_fix(pairs, n_slots, fixes, cost, last as nat);
        assert forall|i: int, j: int, swapped: bool| #[trigger]
            fixes(i, j, swapped) && i < n implies !fix_before(
            pairs,
            cost,
            (i, j, swapped),
            best,
        ) by {
            if i == last {
                assert(ways(j, swapped));
            }
        }
        best
    } else {
        let (j0, s0) = choose|j: int, swapped: bool| #[trigger] ways(j, swapped);
        assert(fixes(last, j0, s0));
        let way = lemma_best_way(ways, last_cost, n_slots);
        let top = (last, way.0, way.1);
        assert forall|j: int, swapped: bool| #[trigger] fixes(last, j, swapped) implies !fix_before(
            pairs,
            cost,
            (last, j, swapped),
            top,
        ) by {
            assert(ways(j, swapped));
            assert(!way_before(last_cost, (j, swapped), way));
        }
        if !lower {
            assert forall|i: int, j: int, swapped: bool| #[trigger]
                fixes(i, j, swapped) && i < n implies !fix_before(
                pairs,
                cost,
                (i, j, swapped),
                top,
            ) by {
                assert(i == last);
            }
            top
        } else {
            let best = lemma_best_fix(pairs, n_slots, fixes, cost, last as nat);
            let first = if fix_before(pairs, cost, top, best) {
                top
            } else {
                best
            };
            assert forall|i: int, j: int, swapped: bool| #[trigger]
                fixes(i, j, swapped) && i < n implies !fix_before(
                pairs,
                cost,
                (i, j, swapped),
                first,
            ) by {
                if i == last {
                    assert(!fix_before(pairs, cost, (i, j, swapped), top));
                } else {
                    assert(!fix_before(pairs, cost, (i, j, swapped), best));
                }
            }
            first
        }
    }
}

/// Order of pairs: lower qubit, first qubit, second qubit.
pub open spec fn pair_before(p: (u32, u32), q: (u32, u32)) -> bool {
    let (lp, lq) = (lower_of(p), lower_of(q));
    lp < lq || (lp == lq && (p.0 < q.0 || (p.0 == q.0 && p.1 < q.1)))
}

/// The lower of the two qubits of a pair.
pub open spec fn lower_of(p: (u32, u32)) -> u32 {
    if p.0 <= p.1 {
        p.0
    } else {
        p.1
    }
}

fn is_pair_before(p: (u32, u32), q: (u32, u32)) -> (b: bool)
    ensures
        b == pair_before(p, q),
{
    let lp = if p.0 <= p.1 {
        p.0
    } else {
        p.1
    };
    let lq = if q.0 <= q.1 {
        q.0
    } else {
        q.1
    };
    lp < lq || (lp == lq && (p.0 < q.0 || (p.0 == q.0 && p.1 < q.1)))
}

/// The positions of all pairs at their targets.
pub(crate) fn pair_slot_indices(
    targets: &[(u32, u64)],
    cz_pairs: &[(u32, u32)],
    slots: &[PositionSlot],
    Ghost(model): Ghost<Repair>,
) -> (indices: Vec<Option<usize>>)
    requires
        model.targets == targets@,
        model.pairs == cz_pairs@,
        model.slots == slots@,
    ensures
        indices@.len() == cz_pairs@.len(),
        forall|k: int|
            0 <= k < indices@.len() ==> match #[trigger] indices@[k] {
                Some(j) => model.slot_index(cz_pairs@[k]) == Some(j as int),
                None => model.slot_index(cz_pairs@[k]) is None,
            },
{
    let mut indices: Vec<Option<usize>> = Vec::new();
    let mut i: usize = 0;
    while i < cz_pairs.len()
        invariant
            i <= cz_pairs@.len(),
            model.targets == targets@,
            model.pairs == cz_pairs@,
            model.slots == slots@,
            indices@.len() == i,
            forall|k: int|
                0 <= k < i ==> match #[trigger] indices@[k] {
                    Some(j) => model.slot_index(cz_pairs@[k]) == Some(j as int),
                    None => model.slot_index(cz_pairs@[k]) is None,
                },
        decreases cz_pairs.len() - i,
    {
        let (qa, qb) = cz_pairs[i];
        let found: Option<usize> = match (target_enc(targets, qa), target_enc(targets, qb)) {
            (Some(a), Some(b)) => match locate_pair_slot(a, b, slots) {
                Some((j, _)) => Some(j),
                None => None,
            },
            _ => None,
        };
        indices.push(found);
        i += 1;
    }
    indices
}

/// The positions that other pairs have, as flags.
pub(crate) fn taken_slots(
    cz_pairs: &[(u32, u32)],
    pair: (u32, u32),
    indices: &Vec<Option<usize>>,
    n_slots: usize,
    Ghost(model): Ghost<Repair>,
) -> (flags: Vec<bool>)
    requires
        model.pairs == cz_pairs@,
        indices@.len() == cz_pairs@.len(),
        forall|k: int|
            0 <= k < indices@.len() ==> match #[trigger] indices@[k] {
                Some(j) => model.slot_index(cz_pairs@[k]) == Some(j as int),
                None => model.slot_index(cz_pairs@[k]) is None,
            },
    ensures
        flags@.len() == n_slots,
        forall|j: int| 0 <= j < n_slots ==> #[trigger] flags@[j] == model.taken(pair, j),
{
    let mut flags: Vec<bool> = vec![false; n_slots];
    let mut i: usize = 0;
    while i < cz_pairs.len()
        invariant
            i <= cz_pairs@.len(),
            flags@.len() == n_slots,
            model.pairs == cz_pairs@,
            indices@.len() == cz_pairs@.len(),
            forall|k: int|
                0 <= k < indices@.len() ==> match #[trigger] indices@[k] {
                    Some(j) => model.slot_index(cz_pairs@[k]) == Some(j as int),
                    None => model.slot_index(cz_pairs@[k]) is None,
                },
            forall|j: int|
                0 <= j < n_slots ==> (#[trigger] flags@[j] <==> exists|k: int|
                    0 <= k < i && !same_pair(#[trigger] cz_pairs@[k], pair) && model.slot_index(
                        cz_pairs@[k],
                    ) == Some(j)),
        decreases cz_pairs.len() - i,
    {
        let ghost before = flags@;
        let ghost other = !same_pair(cz_pairs@[i as int], pair);
        assert(match indices@[i as int] {
            Some(j) => model.slot_index(cz_pairs@[i as int]) == Some(j as int),
            None => model.slot_index(cz_pairs@[i as int]) is None,
        });
        if !is_same_pair(cz_pairs[i], pair) {
            match indices[i] {
                Some(j) => {
                    if j < n_slots {
                        flags.set(j, true);
                    }
                },
                None => {},
            }
        }
        proof {
            assert forall|j: int| 0 <= j < n_slots implies (#[trigger] flags@[j] <==> exists|k: int|
                0 <= k < i + 1 && !same_pair(#[trigger] cz_pairs@[k], pair) && model.slot_index(
                    cz_pairs@[k],
                ) == Some(j)) by {
                assert(before[j] <==> exists|k: int|
                    0 <= k < i && !same_pair(#[trigger] cz_pairs@[k], pair) && model.slot_index(
                        cz_pairs@[k],
                    ) == Some(j));
                assert(flags@[j] <==> before[j] || (other && model.slot_index(
                    cz_pairs@[i as int],
                ) == Some(j)));
            }
        }
        i += 1;
    }
    flags
}

/// Whether a pair, sent to a position, is apart from all others with all of
/// them.
pub(crate) fn trial_separates(
    targets: &Vec<(u32, u64)>,
    pair: (u32, u32),
    slot: &PositionSlot,
    swapped: bool,
    cz_pairs: &[(u32, u32)],
    index: &LaneIndex,
) -> (b: bool)
    ensures
        b == separated_targets(
            pair_moved(targets@, pair, *slot, swapped),
            cz_pairs@,
            index.arch(),
        ),
{
    let mut trial = copied(targets.as_slice());
    apply_pair_slot(&mut trial, pair.0, pair.1, slot, swapped);
    match config_from_assignment_targets(trial.as_slice()) {
        Some(config) => pairs_grid_separated(&config, cz_pairs, index),
        None => false,
    }
}

/// The first way to move a pair that separates all pairs.
fn first_move(
    targets: &Vec<(u32, u64)>,
    pair: (u32, u32),
    from: (u64, u64),
    current: Option<usize>,
    taken: &Vec<bool>,
    cz_pairs: &[(u32, u32)],
    slots: &[PositionSlot],
    dist_table: &DistanceTable,
    index: &LaneIndex,
    blocked: &HashSet<u64>,
    Ghost(model): Ghost<Repair>,
) -> (found: Option<(usize, bool)>)
    requires
        model.targets == targets@,
        model.pairs == cz_pairs@,
        model.slots == slots@,
        model.table == dist_table@,
        model.arch == index.arch(),
        model.blocked == blocked@,
        taken@.len() == slots@.len(),
        forall|j: int| 0 <= j < slots@.len() ==> #[trigger] taken@[j] == model.taken(pair, j),
        match current {
            Some(j) => model.slot_index(pair) == Some(j as int),
            None => model.slot_index(pair) is None,
        },
        model.entry(pair) is Some,
        model.placed[model.entry(pair)->0].1 == from.0,
        model.placed[model.entry(pair)->0].2 == from.1,
    ensures
        match found {
            Some((j, swapped)) => model.works(pair, j as int, swapped) && forall|
                j2: int,
                swapped2: bool,
            | #[trigger]
                model.works(pair, j2, swapped2) ==> !model.move_before(
                    pair,
                    (j2, swapped2),
                    (j as int, swapped),
                ),
            None => forall|j: int, swapped: bool| !#[trigger] model.works(pair, j, swapped),
        },
{
    let mut found: Option<(usize, bool)> = None;
    let mut best: u32 = 0;
    let mut j: usize = 0;
    while j < slots.len()
        invariant
            j <= slots@.len(),
            model.targets == targets@,
            model.pairs == cz_pairs@,
            model.slots == slots@,
            model.table == dist_table@,
            model.arch == index.arch(),
            model.blocked == blocked@,
            taken@.len() == slots@.len(),
            forall|k: int| 0 <= k < slots@.len() ==> #[trigger] taken@[k] == model.taken(pair, k),
            match current {
                Some(j) => model.slot_index(pair) == Some(j as int),
                None => model.slot_index(pair) is None,
            },
            model.entry(pair) is Some,
            model.placed[model.entry(pair)->0].1 == from.0,
            model.placed[model.entry(pair)->0].2 == from.1,
            match found {
                Some((bj, bs)) => {
                    &&& bj < j
                    &&& best == model.cost(pair, bj as int, bs)
                    &&& model.works(pair, bj as int, bs)
                    &&& forall|j2: int, s2: bool| #[trigger]
                        model.works(pair, j2, s2) && j2 < j ==> !model.move_before(
                            pair,
                            (j2, s2),
                            (bj as int, bs),
                        )
                },
                None => forall|j2: int, s2: bool| #[trigger]
                    model.works(pair, j2, s2) ==> j2 >= j,
            },
        decreases slots.len() - j,
    {
        let slot = slots[j];
        let is_current = match current {
            Some(k) => k == j,
            None => false,
        };
        let open = !is_current && !taken[j] && !blocked.contains(&slot.loc_a) && !blocked.contains(
            &slot.loc_b,
        );
        assert(open == model.is_open(pair, j as int));
        if open {
            let straight = dist_table.distance_or_big(from.0, slot.loc_a).saturating_add(
                dist_table.distance_or_big(from.1, slot.loc_b),
            );
            assert(straight == model.cost(pair, j as int, false));
            if (found.is_none() || straight < best) && trial_separates(
                targets,
                pair,
                &slot,
                false,
                cz_pairs,
                index,
            ) {
                found = Some((j, false));
                best = straight;
            }
            let crossed = dist_table.distance_or_big(from.0, slot.loc_b).saturating_add(
                dist_table.distance_or_big(from.1, slot.loc_a),
            );
            assert(crossed == model.cost(pair, j as int, true));
            if (found.is_none() || crossed < best) && trial_separates(
                targets,
                pair,
                &slot,
                true,
                cz_pairs,
                index,
            ) {
                found = Some((j, true));
                best = crossed;
            }
        }
        j += 1;
    }
    found
}

/// Where a pair is now, if its qubits are placed.
fn placed_entry(valid_pairs: &[((u32, u32), u64, u64)], pair: (u32, u32)) -> (entry: Option<
    (u64, u64),
>)
    ensures
        match first_where(valid_pairs@, entry_for(pair)) {
            Some(i) => entry == Some((valid_pairs@[i].1, valid_pairs@[i].2)),
            None => entry is None,
        },
{
    let mut i: usize = 0;
    while i < valid_pairs.len()
        invariant
            i <= valid_pairs@.len(),
            forall|k: int| 0 <= k < i ==> !entry_for(pair)(#[trigger] valid_pairs@[k]),
        decreases valid_pairs.len() - i,
    {
        let (found, a, b) = valid_pairs[i];
        if is_same_pair(found, pair) {
            proof {
                lemma_first_found(valid_pairs@, entry_for(pair), i as int);
            }
            return Some((a, b));
        }
        i += 1;
    }
    proof {
        lemma_first_none(valid_pairs@, entry_for(pair));
    }
    None
}

/// Best-effort repair of cross-pair grid separation.
///
/// Where two pairs are too close to each other at their targets, the first pair
/// for which a position separates all pairs is sent to the nearest such
/// position. When no such position exists, as on a tight architecture, the
/// targets stay as they are; the goal filter
/// ([`PairSeparationGoal`](crate::goals::PairSeparationGoal)) remains the
/// backstop.
pub fn repair_pair_separation(
    targets: Vec<(u32, u64)>,
    cz_pairs: &[(u32, u32)],
    valid_pairs: &[((u32, u32), u64, u64)],
    slots: &[PositionSlot],
    dist_table: &DistanceTable,
    index: &LaneIndex,
    blocked: &HashSet<u64>,
) -> (repaired: Vec<(u32, u64)>)
    ensures
        repaired@ == (Repair {
            targets: targets@,
            pairs: cz_pairs@,
            placed: valid_pairs@,
            slots: slots@,
            table: dist_table@,
            arch: index.arch(),
            blocked: blocked@,
        }).repaired(),
{
    let ghost model = Repair {
        targets: targets@,
        pairs: cz_pairs@,
        placed: valid_pairs@,
        slots: slots@,
        table: dist_table@,
        arch: index.arch(),
        blocked: blocked@,
    };
    proof {
        reveal(Repair::repaired);
    }
    if cz_pairs.len() < 2 {
        return targets;
    }
    let config = match config_from_assignment_targets(targets.as_slice()) {
        Some(config) => config,
        None => {
            return targets;
        },
    };
    if pairs_grid_separated(&config, cz_pairs, index) {
        return targets;
    }
    let indices = pair_slot_indices(targets.as_slice(), cz_pairs, slots, Ghost(model));
    let mut best: Option<(usize, usize, bool)> = None;
    let mut i: usize = 0;
    while i < cz_pairs.len()
        invariant
            i <= cz_pairs@.len(),
            model == (Repair {
                targets: targets@,
                pairs: cz_pairs@,
                placed: valid_pairs@,
                slots: slots@,
                table: dist_table@,
                arch: index.arch(),
                blocked: blocked@,
            }),
            place_map(config@) == place_map(decoded(targets@)),
            indices@.len() == cz_pairs@.len(),
            forall|k: int|
                0 <= k < indices@.len() ==> match #[trigger] indices@[k] {
                    Some(j) => model.slot_index(cz_pairs@[k]) == Some(j as int),
                    None => model.slot_index(cz_pairs@[k]) is None,
                },
            match best {
                Some((bi, bj, bs)) => {
                    &&& bi < i
                    &&& model.is_fix(bi as int, bj as int, bs)
                    &&& forall|i2: int, j2: int, s2: bool| #[trigger]
                        model.is_fix(i2, j2, s2) && i2 < i ==> !pair_before(
                            cz_pairs@[i2],
                            cz_pairs@[bi as int],
                        ) && (cz_pairs@[i2] == cz_pairs@[bi as int] ==> !model.move_before(
                            cz_pairs@[bi as int],
                            (j2, s2),
                            (bj as int, bs),
                        ))
                },
                None => forall|i2: int, j2: int, s2: bool| #[trigger]
                    model.is_fix(i2, j2, s2) ==> i2 >= i,
            },
        decreases cz_pairs.len() - i,
    {
        let pair = cz_pairs[i];
        let earlier = match best {
            Some((bi, _, _)) => is_pair_before(pair, cz_pairs[bi]),
            None => true,
        };
        if earlier && pair_participates_in_violation(pair.0, pair.1, &config, cz_pairs, index) {
            match placed_entry(valid_pairs, pair) {
                Some(from) => {
                    let taken = taken_slots(cz_pairs, pair, &indices, slots.len(), Ghost(model));
                    assert(match indices@[i as int] {
                        Some(j) => model.slot_index(cz_pairs@[i as int]) == Some(j as int),
                        None => model.slot_index(cz_pairs@[i as int]) is None,
                    });
                    let found = first_move(
                        &targets,
                        pair,
                        from,
                        indices[i],
                        &taken,
                        cz_pairs,
                        slots,
                        dist_table,
                        index,
                        blocked,
                        Ghost(model),
                    );
                    match found {
                        Some((j, swapped)) => {
                            assert(model.is_fix(i as int, j as int, swapped));
                            best = Some((i, j, swapped));
                        },
                        None => {
                            assert forall|j2: int, s2: bool| !model.is_fix(i as int, j2, s2) by {
                                assert(!model.works(pair, j2, s2));
                            }
                        },
                    }
                },
                None => {},
            }
        }
        proof {
            assert(pair == cz_pairs@[i as int]);
            assert forall|j2: int, s2: bool| #[trigger]
                model.is_fix(i as int, j2, s2) implies model.works(pair, j2, s2) by {}
        }
        i += 1;
    }
    match best {
        Some((i, j, swapped)) => {
            proof {
                assert(model.is_first_fix(i as int, j as int, swapped));
                let (i2, j2, s2) = choose|i2: int, j2: int, s2: bool|
                    model.is_first_fix(i2, j2, s2);
                model.lemma_first_fix_unique(i as int, j as int, swapped, i2, j2, s2);
            }
            let (qa, qb) = cz_pairs[i];
            let mut repaired = targets;
            apply_pair_slot(&mut repaired, qa, qb, &slots[j], swapped);
            repaired
        },
        None => {
            assert forall|i: int, j: int, swapped: bool| !model.is_first_fix(i, j, swapped) by {
                if model.is_first_fix(i, j, swapped) {
                    assert(model.is_fix(i, j, swapped));
                }
            }
            targets
        },
    }
}

/// Repair an assignment before it is handed out; see
/// [`repair_pair_separation`].
pub fn finalize_assignment_targets(
    targets: Vec<(u32, u64)>,
    cz_pairs: &[(u32, u32)],
    valid_pairs: &[((u32, u32), u64, u64)],
    slots: &[PositionSlot],
    dist_table: &DistanceTable,
    index: &LaneIndex,
    blocked: &HashSet<u64>,
) -> (finalized: Vec<(u32, u64)>)
    ensures
        finalized@ == (Repair {
            targets: targets@,
            pairs: cz_pairs@,
            placed: valid_pairs@,
            slots: slots@,
            table: dist_table@,
            arch: index.arch(),
            blocked: blocked@,
        }).repaired(),
{
    proof {
        reveal(Repair::repaired);
    }
    if cz_pairs.len() < 2 || targets.len() == 0 {
        proof {
            let model = Repair {
                targets: targets@,
                pairs: cz_pairs@,
                placed: valid_pairs@,
                slots: slots@,
                table: dist_table@,
                arch: index.arch(),
                blocked: blocked@,
            };
            if targets@.len() == 0 {
                assert forall|pair: (u32, u32), j: int, swapped: bool|
                    #[trigger] model.trial(pair, j, swapped) == targets@ by {
                    assert(model.trial(pair, j, swapped) =~= targets@);
                }
            }
        }
        return targets;
    }
    repair_pair_separation(targets, cz_pairs, valid_pairs, slots, dist_table, index, blocked)
}

} // verus!
