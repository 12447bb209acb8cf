//! What the assignment of a layer is, stated on its pairs, atoms and positions.

use crate::arch::{ArchSpec, LocationAddr};
use crate::assignment::{
    assign_pairs_unrepaired, assign_pairs_with_blockers, collect_placed_pairs, greedy_assign_pairs,
    layer_of, mixed_row_hungarian, pair_rows, placed_pairs, placed_pairs_of, spectator_rows,
    spectator_rows_of, staged_of, Layer, Staged,
};
use crate::assignment_laws::{distinct, lemma_steps, placed_qubits};
use crate::cleanup_laws::atoms_distinct;
use crate::config::{lemma_entry_of_location, Config};
use crate::congestion::{best_assignment, ideal_load, widened};
use crate::congestion_laws::{
    can_move, lemma_picked_within, lemma_spread_is_complete, overfull, picked_within,
};
use crate::cost_laws::{injective_below, plan_cost, rows_go};
use crate::costs::{
    held_besides, next_targets, CostModel, OccupancyCosts, Row, TransitionCosts,
};
use crate::distance::{DistanceTable, BIG};
use crate::entangling::{
    is_regular, position_slots, word_pairs, EntanglingWordPair, PositionSlot,
};
use crate::goals::{collect_pair_qubits, pair_qubits};
use crate::hungarian::{is_assignment, is_min_cost_assignment};
use crate::lane_index::LaneIndex;
use crate::obstacle_laws::in_the_way;
use crate::repair::Repair;
use crate::rows::{is_row_solution, RowProblem};
use std::collections::{HashMap, HashSet};
use vstd::prelude::*;

verus! {

/// An atom is placed at the location with this code.
pub open spec fn sits(entries: Seq<(u32, LocationAddr)>, q: u32, code: u64) -> bool {
    exists|m: int|
        0 <= m < entries.len() && (#[trigger] entries[m]).0 == q && entries[m].1.code() == code
}

/// An atom is placed nowhere.
pub open spec fn is_missing(entries: Seq<(u32, LocationAddr)>, q: u32) -> bool {
    forall|m: int| 0 <= m < entries.len() ==> (#[trigger] entries[m]).0 != q
}

/// `placed` lists, in order and with where they are, those of the first `n` pairs
/// that have no missing atom; `at` says which pairs they are.
pub open spec fn is_selection(
    pairs: Seq<(u32, u32)>,
    entries: Seq<(u32, LocationAddr)>,
    placed: Seq<((u32, u32), u64, u64)>,
    at: Seq<int>,
    n: nat,
) -> bool {
    &&& at.len() == placed.len()
    &&& forall|k: int|
        0 <= k < at.len() ==> {
            &&& 0 <= #[trigger] at[k] < n
            &&& placed[k].0 == pairs[at[k]]
            &&& sits(entries, placed[k].0.0, placed[k].1)
            &&& sits(entries, placed[k].0.1, placed[k].2)
        }
    &&& forall|k: int, l: int| 0 <= k < l < at.len() ==> #[trigger] at[k] < #[trigger] at[l]
    &&& forall|i: int|
        0 <= i < n && !at.contains(i) ==> is_missing(entries, (#[trigger] pairs[i]).0)
            || is_missing(entries, pairs[i].1)
}

proof fn lemma_sits(entries: Seq<(u32, LocationAddr)>, q: u32, loc: LocationAddr)
    requires
        entries.contains((q, loc)),
    ensures
        sits(entries, q, loc.code()),
{
    let m = choose|m: int| 0 <= m < entries.len() && entries[m] == (q, loc);
    assert(entries[m].0 == q && entries[m].1.code() == loc.code());
}

proof fn lemma_selection(
    pairs: Seq<(u32, u32)>,
    entries: Seq<(u32, LocationAddr)>,
    n: nat,
) -> (at: Seq<int>)
    requires
        n <= pairs.len(),
    ensures
        is_selection(pairs, entries, placed_pairs_of(pairs, entries, n), at, n),
    decreases n,
{
    if n == 0 {
        Seq::empty()
    } else {
        let before = lemma_selection(pairs, entries, (n - 1) as nat);
        let rest = placed_pairs_of(pairs, entries, (n - 1) as nat);
        let all = placed_pairs_of(pairs, entries, n);
        let pair = pairs[n - 1];
        lemma_entry_of_location(entries, pair.0);
        lemma_entry_of_location(entries, pair.1);
        if all == rest {
            assert forall|i: int| 0 <= i < n && !before.contains(i) implies is_missing(
                entries,
                (#[trigger] pairs[i]).0,
            ) || is_missing(entries, pairs[i].1) by {
                if i == n - 1 {
                    assert(all.len() == rest.len());
                }
            }
            before
        } else {
            let at = before.push(n - 1);
            assert(all == rest.push(all.last()));
            lemma_sits(entries, pair.0, crate::config::location_in(entries, pair.0)->0);
            lemma_sits(entries, pair.1, crate::config::location_in(entries, pair.1)->0);
            assert forall|k: int| 0 <= k < at.len() implies {
                &&& 0 <= #[trigger] at[k] < n
                &&& all[k].0 == pairs[at[k]]
                &&& sits(entries, all[k].0.0, all[k].1)
                &&& sits(entries, all[k].0.1, all[k].2)
            } by {
                if k < before.len() {
                    assert(at[k] == before[k]);
                    assert(all[k] == rest[k]);
                }
            }
            assert forall|i: int| 0 <= i < n && !at.contains(i) implies is_missing(
                entries,
                (#[trigger] pairs[i]).0,
            ) || is_missing(entries, pairs[i].1) by {
                if i == n - 1 {
                    assert(at[before.len() as int] == i);
                } else if before.contains(i) {
                    let k = choose|k: int| 0 <= k < before.len() && before[k] == i;
                    assert(at[k] == i);
                }
            }
            at
        }
    }
}

/// The placed pairs are those without a missing atom, in order.
pub proof fn lemma_collect_placed_pairs(
    cz_pairs: &[(u32, u32)],
    config: &Config,
    placed: Vec<((u32, u32), u64, u64)>,
) -> (at: Seq<int>)
    requires
        call_ensures(collect_placed_pairs, (cz_pairs, config), placed),
    ensures
        is_selection(cz_pairs@, config@, placed@, at, cz_pairs@.len()),
{
    lemma_selection(cz_pairs@, config@, cz_pairs@.len())
}

/// A pair qubit is one that some pair has.
pub proof fn lemma_collect_pair_qubits(pairs: &[(u32, u32)], qubits: HashSet<u32>, q: u32)
    requires
        call_ensures(collect_pair_qubits, (pairs,), qubits),
    ensures
        qubits@.contains(q) <==> exists|i: int|
            0 <= i < pairs@.len() && ((#[trigger] pairs@[i]).0 == q || pairs@[i].1 == q),
{
}

/// One row for each placed pair.
pub open spec fn rows_of_pairs(rows: Seq<Row>, placed: Seq<((u32, u32), u64, u64)>) -> bool {
    &&& rows.len() == placed.len()
    &&& forall|k: int|
        0 <= k < rows.len() ==> #[trigger] rows[k] == (Row::Pair {
            qa: placed[k].0.0,
            qb: placed[k].0.1,
            loc_a_enc: placed[k].1,
            loc_b_enc: placed[k].2,
        })
}

/// The rows go to different positions, and no choice of different positions costs
/// less, but for what perturbing the costs makes up.
pub open spec fn rows_go_cheaply(
    problem: RowProblem,
    seed: u64,
    steps: Seq<i32>,
    a: Seq<usize>,
    targets: Seq<(u32, u64)>,
) -> bool {
    let (n, m) = (problem.rows.len(), problem.slots.len());
    &&& injective_below(a, n, m)
    &&& rows_go(problem, steps, a, targets)
    &&& seed == 0 ==> steps.len() == 0
    &&& forall|b: Seq<usize>| #[trigger]
        injective_below(b, n, m) ==> plan_cost(problem, a, n) <= plan_cost(problem, b, n) + (if seed
            == 0 {
            0
        } else {
            2 * n as int
        })
}

proof fn lemma_rows_go_cheaply(problem: RowProblem, seed: u64, steps: Seq<i32>)
    requires
        problem.rows.len() <= problem.slots.len(),
        problem.max_loss is None || problem.n_word_pairs <= 1,
        is_row_solution(problem, seed, steps, problem.targets(steps)),
    ensures
        rows_go_cheaply(problem, seed, steps, problem.columns(steps), problem.targets(steps)),
{
    let n = problem.rows.len();
    let a = problem.columns(steps);
    lemma_steps(seed, problem.matrix(), steps);
    assert forall|b: Seq<usize>| #[trigger]
        injective_below(b, n, problem.slots.len()) implies plan_cost(problem, a, n) <= plan_cost(
        problem,
        b,
        n,
    ) + (if seed == 0 {
        0
    } else {
        2 * n as int
    }) by {
        problem.lemma_rows_go_cheapest(seed, steps, b);
    }
    problem.lemma_rows_go(steps);
    assert(is_min_cost_assignment(
        problem.costs(steps),
        n as int,
        problem.slots.len() as int,
        a,
    ));
}

/// [`greedy_assign_pairs`] sends the placed pairs to positions as cheaply as
/// possible. Positions cost more where an atom sits that is in no pair. No position
/// is blocked, and to move costs nothing but the hops.
pub proof fn lemma_greedy_pairs(
    cz_pairs: &[(u32, u32)],
    config: &Config,
    arch: &ArchSpec,
    dist_table: &DistanceTable,
    seed: u64,
    transition_targets: Option<&HashMap<u32, u64>>,
    transition: &TransitionCosts,
    occupancy: OccupancyCosts,
    targets: Vec<(u32, u64)>,
) -> (found: (RowProblem, Seq<((u32, u32), u64, u64)>, Seq<int>))
    requires
        call_ensures(
            greedy_assign_pairs,
            (
                cz_pairs,
                config,
                arch,
                dist_table,
                seed,
                transition_targets,
                transition,
                None::<u32>,
                occupancy,
            ),
            targets,
        ),
    ensures
        ({
            let (problem, placed, at) = found;
            &&& is_selection(cz_pairs@, config@, placed, at, cz_pairs@.len())
            &&& rows_of_pairs(problem.rows, placed)
            &&& problem.slots == position_slots(arch@)
            &&& problem.sites_per_word == arch@.site_count() as u32
            &&& problem.n_word_pairs == word_pairs(arch@).len()
            &&& problem.model == CostModel {
                table: dist_table@,
                held: problem.model.held,
                blocked: Set::empty(),
                next: next_targets(transition_targets),
                transition: transition@,
                occupancy,
                move_penalty: 0,
            }
            &&& forall|loc: u64| #[trigger]
                problem.model.held.contains(loc) <==> exists|m: int|
                    0 <= m < config@.len() && (#[trigger] config@[m]).1.code() == loc
                        && !pair_qubits(cz_pairs@).contains(config@[m].0)
            &&& placed.len() == 0 || problem.slots.len() == 0 ==> targets@.len() == 0
            &&& 0 < placed.len() <= problem.slots.len() ==> exists|a: Seq<usize>, steps: Seq<i32>|
                #[trigger] rows_go_cheaply(problem, seed, steps, a, targets@)
        }),
{
    let layer = layer_of(
        cz_pairs@,
        config,
        arch,
        dist_table,
        transition_targets,
        transition,
        None,
        occupancy,
    );
    let steps = choose|steps: Seq<i32>| #[trigger]
        layer.is_pair_assignment(seed, steps, targets@);
    let problem = layer.pair_problem();
    let placed = placed_pairs(cz_pairs@, config@);
    let at = lemma_selection(cz_pairs@, config@, cz_pairs@.len());
    lemma_held(config@, pair_qubits(cz_pairs@));
    if 0 < placed.len() <= problem.slots.len() {
        lemma_rows_go_cheaply(problem, seed, steps);
        assert(rows_go_cheaply(problem, seed, steps, problem.columns(steps), targets@));
    }
    (problem, placed, at)
}

proof fn lemma_held(entries: Seq<(u32, LocationAddr)>, movers: Set<u32>)
    ensures
        forall|loc: u64| #[trigger]
            held_besides(entries, movers).contains(loc) <==> exists|m: int|
                0 <= m < entries.len() && (#[trigger] entries[m]).1.code() == loc
                    && !movers.contains(entries[m].0),
{
    assert forall|loc: u64| #[trigger]
        held_besides(entries, movers).contains(loc) <==> exists|m: int|
            0 <= m < entries.len() && (#[trigger] entries[m]).1.code() == loc && !movers.contains(
                entries[m].0,
            ) by {
        if exists|m: int|
            0 <= m < entries.len() && (#[trigger] entries[m]).1.code() == loc && !movers.contains(
                entries[m].0,
            ) {
            let m = choose|m: int|
                0 <= m < entries.len() && (#[trigger] entries[m]).1.code() == loc
                    && !movers.contains(entries[m].0);
            assert(!movers.contains(entries[m].0) && entries[m].1.code() == loc);
        }
    }
}

impl RowProblem {
    /// Where a loss is allowed and there are two word pairs or more, no row of a solution
    /// could still move off the fullest word pair where that is overloaded.
    pub proof fn lemma_rows_spread(self, steps: Seq<i32>, max_loss: u32, w: int, i: int, j: int)
        requires
            self.max_loss == Some(max_loss),
            self.n_word_pairs > 1,
            self.rows.len() <= self.slots.len() <= usize::MAX,
            self.is_optimal(steps),
            overfull(
                self.columns(steps),
                self.sites_per_word,
                self.n_word_pairs,
                ideal_load(self.rows.len() as int, self.n_word_pairs),
                w,
            ),
        ensures
            !can_move(
                self.costs(steps),
                self.slots.len() as int,
                self.sites_per_word,
                ideal_load(self.rows.len() as int, self.n_word_pairs),
                max_loss as int,
                BIG as int,
                self.columns(steps),
                w,
                i,
                j,
            ),
    {
        let (n, m) = (self.rows.len() as int, self.slots.len() as int);
        assert(best_assignment(self.costs(steps), n, m).len() == n);
        lemma_spread_is_complete(
            self.costs(steps),
            n,
            m,
            self.sites_per_word,
            self.n_word_pairs,
            max_loss,
            BIG,
            w,
            i,
            j,
        );
    }
}

/// Where a loss is allowed and there are two word pairs or more, rows are spread
/// over them until no further move is possible.
pub proof fn lemma_mixed_rows_spread(
    rows: &[Row],
    slots: &[PositionSlot],
    word_pairs: &[EntanglingWordPair],
    sites_per_word: usize,
    config: &Config,
    dist_table: &DistanceTable,
    row_qubits: &HashSet<u32>,
    blocked: &HashSet<u64>,
    transition_targets: Option<&HashMap<u32, u64>>,
    transition: &TransitionCosts,
    max_loss: u32,
    occupancy: OccupancyCosts,
    move_penalty: u32,
    seed: u64,
    targets: Vec<(u32, u64)>,
) -> (found: (RowProblem, Seq<usize>, Seq<i32>))
    requires
        0 < rows@.len() <= slots@.len() <= usize::MAX,
        word_pairs@.len() > 1,
        call_ensures(
            mixed_row_hungarian,
            (
                rows,
                slots,
                word_pairs,
                sites_per_word,
                config,
                dist_table,
                row_qubits,
                blocked,
                transition_targets,
                transition,
                Some(max_loss),
                occupancy,
                move_penalty,
                seed,
            ),
            targets,
        ),
    ensures
        ({
            let (problem, a, steps) = found;
            let even = ideal_load(rows@.len() as int, word_pairs@.len() as int);
            &&& problem.rows == rows@
            &&& problem.slots == slots@
            &&& problem.model == CostModel {
                table: dist_table@,
                held: held_besides(config@, row_qubits@),
                blocked: blocked@,
                next: next_targets(transition_targets),
                transition: transition@,
                occupancy,
                move_penalty,
            }
            &&& rows_go(problem, steps, a, targets@)
            &&& forall|w: int, i: int, j: int|
                overfull(a, sites_per_word as int, word_pairs@.len() as int, even, w)
                    ==> !#[trigger] can_move(
                    problem.costs(steps),
                    slots@.len() as int,
                    sites_per_word as int,
                    even,
                    max_loss as int,
                    BIG as int,
                    a,
                    w,
                    i,
                    j,
                )
        }),
{
    let problem = RowProblem {
        model: CostModel {
            table: dist_table@,
            held: held_besides(config@, row_qubits@),
            blocked: blocked@,
            next: next_targets(transition_targets),
            transition: transition@,
            occupancy,
            move_penalty,
        },
        rows: rows@,
        slots: slots@,
        sites_per_word: sites_per_word as int,
        n_word_pairs: word_pairs@.len() as int,
        max_loss: Some(max_loss),
    };
    let steps = choose|steps: Seq<i32>| #[trigger]
        is_row_solution(problem, seed, steps, targets@);
    let a = problem.columns(steps);
    let even = ideal_load(rows@.len() as int, word_pairs@.len() as int);
    problem.lemma_rows_go(steps);
    assert forall|w: int, i: int, j: int|
        overfull(a, sites_per_word as int, word_pairs@.len() as int, even, w) implies !(
    #[trigger] can_move(
        problem.costs(steps),
        slots@.len() as int,
        sites_per_word as int,
        even,
        max_loss as int,
        BIG as int,
        a,
        w,
        i,
        j,
    )) by {
        problem.lemma_rows_spread(steps, max_loss, w, i, j);
    }
    (problem, a, steps)
}

/// One row for each of some placed atoms, behind the rows of the placed pairs.
pub open spec fn rows_of_all(
    rows: Seq<Row>,
    placed: Seq<((u32, u32), u64, u64)>,
    blockers: Seq<u32>,
    entries: Seq<(u32, LocationAddr)>,
) -> bool {
    let n = placed.len() as int;
    &&& rows.len() == n + blockers.len()
    &&& rows_of_pairs(rows.take(n), placed)
    &&& forall|k: int|
        0 <= k < blockers.len() ==> (#[trigger] rows[n + k]) is Spectator && rows[n + k]->qid
            == blockers[k] && sits(entries, blockers[k], rows[n + k]->loc_enc)
}

proof fn lemma_spectator_rows(
    blockers: Seq<u32>,
    entries: Seq<(u32, LocationAddr)>,
    n: nat,
)
    requires
        n <= blockers.len(),
        forall|k: int|
            0 <= k < blockers.len() ==> placed_qubits(entries).contains(#[trigger] blockers[k]),
    ensures
        ({
            let rows = spectator_rows_of(blockers, entries, n);
            &&& rows.len() == n
            &&& forall|k: int|
                0 <= k < n ==> (#[trigger] rows[k]) is Spectator && rows[k]->qid == blockers[k]
                    && sits(entries, blockers[k], rows[k]->loc_enc)
        }),
    decreases n,
{
    if n > 0 {
        lemma_spectator_rows(blockers, entries, (n - 1) as nat);
        let q = blockers[n - 1];
        assert(placed_qubits(entries).contains(q));
        lemma_entry_of_location(entries, q);
        let m = choose|m: int| 0 <= m < entries.len() && (#[trigger] entries[m]).0 == q;
        assert(entries[m].0 == q);
        lemma_sits(entries, q, crate::config::location_in(entries, q)->0);
    }
}

/// The last pass of an assignment: pairs, and atoms that were in the way, are sent
/// to positions; positions where other atoms sit cost more.
pub open spec fn is_pass(
    staged: Staged,
    seed: u64,
    problem: RowProblem,
    placed: Seq<((u32, u32), u64, u64)>,
    blockers: Seq<u32>,
    steps: Seq<i32>,
    targets: Seq<(u32, u64)>,
) -> bool {
    let layer = staged.layer;
    &&& problem.slots == position_slots(layer.arch)
    &&& problem.model == CostModel {
        table: layer.table,
        held: problem.model.held,
        blocked: staged.blocked,
        next: layer.next,
        transition: layer.transition,
        occupancy: layer.occupancy,
        move_penalty: staged.move_penalty,
    }
    &&& problem.max_loss == layer.max_loss
    &&& problem.sites_per_word == layer.arch.site_count() as u32
    &&& problem.n_word_pairs == word_pairs(layer.arch).len()
    &&& rows_of_all(problem.rows, placed, blockers, layer.entries)
    &&& forall|loc: u64| #[trigger]
        problem.model.held.contains(loc) <==> exists|m: int|
            0 <= m < layer.entries.len() && (#[trigger] layer.entries[m]).1.code() == loc
                && !pair_qubits(layer.pairs).contains(layer.entries[m].0) && !blockers.contains(
                layer.entries[m].0,
            )
    &&& is_row_solution(problem, seed, steps, targets)
}

impl Staged {
    /// The blockers that stay are the first ones, as many as there is room for.
    pub proof fn lemma_kept(self, blockers: Seq<u32>)
        requires
            self.layer.placed().len() <= self.layer.slots().len(),
        ensures
            self.kept(blockers) == blockers.take(self.kept(blockers).len() as int),
            self.kept(blockers).len() + self.layer.placed().len() <= self.layer.slots().len(),
            self.kept(blockers).len() == blockers.len() || self.kept(blockers).len()
                + self.layer.placed().len() == self.layer.slots().len(),
    {
        assert(blockers.take(blockers.len() as int) =~= blockers);
    }

    proof fn lemma_is_pass(self, seed: u64, blockers: Seq<u32>, steps: Seq<i32>)
        requires
            self.are_blockers(blockers),
            is_row_solution(
                self.problem(blockers),
                seed,
                steps,
                self.problem(blockers).targets(steps),
            ),
        ensures
            is_pass(
                self,
                seed,
                self.problem(blockers),
                self.layer.placed(),
                blockers,
                steps,
                self.problem(blockers).targets(steps),
            ),
    {
        let problem = self.problem(blockers);
        let placed = self.layer.placed();
        let entries = self.layer.entries;
        let n = placed.len() as int;
        lemma_spectator_rows(blockers, entries, blockers.len());
        assert(problem.rows.take(n) =~= pair_rows(placed));
        let singles = spectator_rows(blockers, entries);
        assert forall|k: int| 0 <= k < blockers.len() implies (#[trigger] problem.rows[n + k])
            is Spectator && problem.rows[n + k]->qid == blockers[k] && sits(
            entries,
            blockers[k],
            problem.rows[n + k]->loc_enc,
        ) by {
            assert(problem.rows[n + k] == singles[k]);
        }
        lemma_held(entries, self.row_qubits(blockers));
        assert forall|loc: u64| #[trigger]
            problem.model.held.contains(loc) <==> exists|m: int|
                0 <= m < entries.len() && (#[trigger] entries[m]).1.code() == loc && !pair_qubits(
                    self.layer.pairs,
                ).contains(entries[m].0) && !blockers.contains(entries[m].0) by {
            if problem.model.held.contains(loc) {
                let m = choose|m: int|
                    0 <= m < entries.len() && (#[trigger] entries[m]).1.code() == loc
                        && !self.row_qubits(blockers).contains(entries[m].0);
                assert(entries[m].1.code() == loc);
            }
            if exists|m: int|
                0 <= m < entries.len() && (#[trigger] entries[m]).1.code() == loc && !pair_qubits(
                    self.layer.pairs,
                ).contains(entries[m].0) && !blockers.contains(entries[m].0) {
                let m = choose|m: int|
                    0 <= m < entries.len() && (#[trigger] entries[m]).1.code() == loc
                        && !pair_qubits(self.layer.pairs).contains(entries[m].0)
                        && !blockers.contains(entries[m].0);
                assert(entries[m].1.code() == loc && !self.row_qubits(blockers).contains(
                    entries[m].0,
                ));
            }
        }
    }
}

/// [`assign_pairs_unrepaired`] ends with a pass over the placed pairs and over
/// atoms that were in the way, for which there are positions. Where every pair
/// qubit is placed and there is a position for every atom, nothing is in the way of
/// its targets any more.
pub proof fn lemma_unrepaired(
    cz_pairs: &[(u32, u32)],
    config: &Config,
    arch: &ArchSpec,
    index: &LaneIndex,
    dist_table: &DistanceTable,
    blocked: &HashSet<u64>,
    seed: u64,
    transition_targets: Option<&HashMap<u32, u64>>,
    transition: &TransitionCosts,
    max_loss: Option<u32>,
    occupancy: OccupancyCosts,
    move_penalty: u32,
    accidentals: bool,
    targets: Vec<(u32, u64)>,
) -> (found: (RowProblem, Seq<((u32, u32), u64, u64)>, Seq<int>, Seq<u32>, Seq<i32>))
    requires
        call_ensures(
            assign_pairs_unrepaired,
            (
                cz_pairs,
                config,
                arch,
                index,
                dist_table,
                blocked,
                seed,
                transition_targets,
                transition,
                max_loss,
                occupancy,
                move_penalty,
                accidentals,
            ),
            targets,
        ),
        atoms_distinct(config@),
        is_regular(arch@),
    ensures
        ({
            let (problem, placed, at, blockers, steps) = found;
            let staged = Staged {
                layer: Layer {
                    pairs: cz_pairs@,
                    entries: config@,
                    arch: arch@,
                    table: dist_table@,
                    next: next_targets(transition_targets),
                    transition: transition@,
                    max_loss,
                    occupancy,
                },
                lanes: index.arch(),
                blocked: blocked@,
                move_penalty,
                accidentals,
            };
            let n_slots = position_slots(arch@).len();
            let in_pairs = pair_qubits(cz_pairs@);
            &&& is_selection(cz_pairs@, config@, placed, at, cz_pairs@.len())
            &&& placed.len() == 0 || n_slots == 0 ==> targets@.len() == 0
            &&& 0 < placed.len() <= n_slots ==> {
                &&& is_pass(staged, seed, problem, placed, blockers, steps, targets@)
                &&& placed.len() + blockers.len() <= n_slots
                &&& distinct(blockers)
                &&& forall|k: int|
                    0 <= k < blockers.len() ==> !in_pairs.contains(#[trigger] blockers[k])
            }
            &&& 0 < placed.len() <= n_slots && placed.len() + config@.len() <= n_slots
                + in_pairs.len() && in_pairs.subset_of(placed_qubits(config@)) ==> forall|m: int|
                0 <= m < config@.len() && !in_pairs.contains((#[trigger] config@[m]).0)
                    && !blockers.contains(config@[m].0) ==> !in_the_way(
                    staged,
                    Set::new(|q: u32| in_pairs.contains(q) || blockers.contains(q)),
                    targets@,
                    m,
                )
        }),
{
    let staged = staged_of(
        layer_of(
            cz_pairs@,
            config,
            arch,
            dist_table,
            transition_targets,
            transition,
            max_loss,
            occupancy,
        ),
        index,
        blocked,
        move_penalty,
        accidentals,
    );
    let draws = choose|draws: Seq<Seq<i32>>| #[trigger]
        staged.is_unrepaired(seed, draws, targets@);
    let placed = placed_pairs(cz_pairs@, config@);
    let at = lemma_selection(cz_pairs@, config@, cz_pairs@.len());
    let n_slots = position_slots(arch@).len();
    if 0 < placed.len() <= n_slots {
        let shorter = draws.drop_last();
        staged.lemma_last_pass(seed, draws);
        assert(draws.take(draws.len() - 1) =~= shorter);
        staged.lemma_shorter_run(seed, draws, draws.len() - 1);
        staged.lemma_run_blockers(seed, shorter);
        let before = staged.run(shorter).blockers;
        let blockers = staged.kept(before);
        staged.lemma_kept(before);
        assert forall|k: int| 0 <= k < blockers.len() implies #[trigger] blockers[k]
            == before[k] by {}
        assert(staged.are_blockers(blockers));
        staged.lemma_is_pass(seed, blockers, draws.last());
        let in_pairs = pair_qubits(cz_pairs@);
        if placed.len() + config@.len() <= n_slots + in_pairs.len() && in_pairs.subset_of(
            placed_qubits(config@),
        ) {
            staged.lemma_blockers_grow(seed, draws);
            staged.lemma_blocker_count(staged.run(draws).blockers);
            assert(staged.run(draws).settled);
            assert(staged.run(draws).blockers == blockers);
            assert(staged.row_qubits(blockers) =~= Set::new(
                |q: u32| in_pairs.contains(q) || blockers.contains(q),
            ));
            assert forall|m: int|
                0 <= m < config@.len() && !in_pairs.contains((#[trigger] config@[m]).0)
                    && !blockers.contains(config@[m].0) implies !in_the_way(
                staged,
                Set::new(|q: u32| in_pairs.contains(q) || blockers.contains(q)),
                targets@,
                m,
            ) by {
                staged.lemma_settled_is_clear(seed, draws, m);
            }
        }
        (staged.problem(blockers), placed, at, blockers, draws.last())
    } else {
        (staged.problem(Seq::empty()), placed, at, Seq::empty(), Seq::empty())
    }
}

/// [`assign_pairs_with_blockers`] repairs what [`assign_pairs_unrepaired`] may
/// give for the same input.
pub proof fn lemma_assigned_is_repaired(
    cz_pairs: &[(u32, u32)],
    config: &Config,
    arch: &ArchSpec,
    index: &LaneIndex,
    dist_table: &DistanceTable,
    blocked: &HashSet<u64>,
    transition_targets: Option<&HashMap<u32, u64>>,
    transition: &TransitionCosts,
    max_loss: Option<u32>,
    occupancy: OccupancyCosts,
    move_penalty: u32,
    accidentals: bool,
    raw: Vec<(u32, u64)>,
    targets: Vec<(u32, u64)>,
) -> (found: (Seq<((u32, u32), u64, u64)>, Seq<int>))
    requires
        call_ensures(
            assign_pairs_unrepaired,
            (
                cz_pairs,
                config,
                arch,
                index,
                dist_table,
                blocked,
                0u64,
                transition_targets,
                transition,
                max_loss,
                occupancy,
                move_penalty,
                accidentals,
            ),
            raw,
        ),
        call_ensures(
            assign_pairs_with_blockers,
            (
                cz_pairs,
                config,
                arch,
                index,
                dist_table,
                blocked,
                0u64,
                transition_targets,
                transition,
                max_loss,
                occupancy,
                move_penalty,
                accidentals,
            ),
            targets,
        ),
        0 < placed_pairs(cz_pairs@, config@).len() <= position_slots(arch@).len(),
    ensures
        is_selection(cz_pairs@, config@, found.0, found.1, cz_pairs@.len()),
        targets@ == (Repair {
            targets: raw@,
            pairs: cz_pairs@,
            placed: found.0,
            slots: position_slots(arch@),
            table: dist_table@,
            arch: index.arch(),
            blocked: blocked@,
        }).repaired(),
{
    let staged = staged_of(
        layer_of(
            cz_pairs@,
            config,
            arch,
            dist_table,
            transition_targets,
            transition,
            max_loss,
            occupancy,
        ),
        index,
        blocked,
        move_penalty,
        accidentals,
    );
    let draws = choose|draws: Seq<Seq<i32>>| #[trigger] staged.is_unrepaired(0, draws, raw@);
    let finished = staged.finished(staged.run(draws).targets);
    assert(staged.is_outcome(0, draws, finished));
    staged.lemma_assignment_unique(targets@, finished);
    (placed_pairs(cz_pairs@, config@), lemma_selection(cz_pairs@, config@, cz_pairs@.len()))
}

/// With more placed pairs than positions, a layer is assigned as [`greedy_assign_pairs`]
/// assigns its pairs: blocked locations and the move penalty do not matter.
pub proof fn lemma_crowded_layer(
    cz_pairs: &[(u32, u32)],
    config: &Config,
    arch: &ArchSpec,
    index: &LaneIndex,
    dist_table: &DistanceTable,
    blocked: &HashSet<u64>,
    transition_targets: Option<&HashMap<u32, u64>>,
    transition: &TransitionCosts,
    max_loss: Option<u32>,
    occupancy: OccupancyCosts,
    move_penalty: u32,
    accidentals: bool,
    targets: Vec<(u32, u64)>,
    greedy: Vec<(u32, u64)>,
)
    requires
        call_ensures(
            assign_pairs_with_blockers,
            (
                cz_pairs,
                config,
                arch,
                index,
                dist_table,
                blocked,
                0u64,
                transition_targets,
                transition,
                max_loss,
                occupancy,
                move_penalty,
                accidentals,
            ),
            targets,
        ),
        call_ensures(
            greedy_assign_pairs,
            (
                cz_pairs,
                config,
                arch,
                dist_table,
                0u64,
                transition_targets,
                transition,
                max_loss,
                occupancy,
            ),
            greedy,
        ),
        0 < position_slots(arch@).len() < placed_pairs(cz_pairs@, config@).len(),
    ensures
        targets@ == greedy@,
{
    let layer = layer_of(
        cz_pairs@,
        config,
        arch,
        dist_table,
        transition_targets,
        transition,
        max_loss,
        occupancy,
    );
    let s = choose|s: Seq<i32>| #[trigger] layer.is_pair_assignment(0, s, targets@);
    let t = choose|t: Seq<i32>| #[trigger] layer.is_pair_assignment(0, t, greedy@);
    layer.lemma_pair_assignment_unique(s, targets@, t, greedy@);
}

/// The targets of a pass come row by row, and those of a pair first atom first: `at` says
/// where those of each row begin, in the list of rows that have targets.
pub open spec fn targets_in_row_order(
    problem: RowProblem,
    targets: Seq<(u32, u64)>,
    rows: Seq<int>,
    at: Seq<int>,
) -> bool {
    &&& rows.len() == at.len()
    &&& forall|k: int|
        0 <= k < rows.len() ==> {
            &&& 0 <= #[trigger] rows[k] < problem.rows.len()
            &&& 0 <= at[k] < targets.len()
            &&& match problem.rows[rows[k]] {
                Row::Pair { qa, qb, loc_a_enc, loc_b_enc } => at[k] + 1 < targets.len()
                    && targets[at[k]].0 == qa && targets[at[k] + 1].0 == qb,
                Row::Spectator { qid, loc_enc } => targets[at[k]].0 == qid,
            }
        }
    &&& forall|k: int, l: int| 0 <= k < l < rows.len() ==> #[trigger] rows[k] < #[trigger] rows[l]
    &&& forall|k: int, l: int| 0 <= k < l < at.len() ==> #[trigger] at[k] < #[trigger] at[l]
}

proof fn lemma_row_order(problem: RowProblem, steps: Seq<i32>, n: nat) -> (order: (
    Seq<int>,
    Seq<int>,
))
    requires
        n <= problem.rows.len(),
    ensures
        targets_in_row_order(problem, problem.targets_of(steps, n), order.0, order.1),
        forall|k: int| 0 <= k < order.0.len() ==> #[trigger] order.0[k] < n,
    decreases n,
{
    if n == 0 {
        (Seq::empty(), Seq::empty())
    } else {
        let (rows, at) = lemma_row_order(problem, steps, (n - 1) as nat);
        let rest = problem.targets_of(steps, (n - 1) as nat);
        let all = problem.targets_of(steps, n);
        let i = n - 1;
        let j = problem.columns(steps)[i] as int;
        if problem.usable(steps, i, j) {
            let own = crate::rows::row_targets(
                problem.rows[i],
                problem.slots[j],
                problem.model.cell_swapped(problem.rows[i], problem.slots[j]),
            );
            assert(all == rest + own);
            let rows2 = rows.push(i);
            let at2 = at.push(rest.len() as int);
            assert forall|k: int| 0 <= k < rows2.len() implies {
                &&& 0 <= #[trigger] rows2[k] < problem.rows.len()
                &&& 0 <= at2[k] < all.len()
                &&& match problem.rows[rows2[k]] {
                    Row::Pair { qa, qb, loc_a_enc, loc_b_enc } => at2[k] + 1 < all.len()
                        && all[at2[k]].0 == qa && all[at2[k] + 1].0 == qb,
                    Row::Spectator { qid, loc_enc } => all[at2[k]].0 == qid,
                }
            } by {
                if k < rows.len() {
                    assert(rows2[k] == rows[k]);
                    assert(at2[k] == at[k]);
                    assert(all[at[k]] == rest[at[k]]);
                    if problem.rows[rows[k]] is Pair {
                        assert(all[at[k] + 1] == rest[at[k] + 1]);
                    }
                } else {
                    assert(all[rest.len() as int] == own[0]);
                    if problem.rows[i] is Pair {
                        assert(all[rest.len() as int + 1] == own[1]);
                    }
                }
            }
            assert forall|k: int, l: int| 0 <= k < l < at2.len() implies #[trigger] at2[k]
                < #[trigger] at2[l] by {
                assert(rows[k] < problem.rows.len());
                if l < at.len() {
                    assert(at[k] < at[l]);
                }
            }
            (rows2, at2)
        } else {
            (rows, at)
        }
    }
}

/// Targets of a row problem come in the order of its rows.
pub proof fn lemma_targets_in_row_order(problem: RowProblem, steps: Seq<i32>) -> (order: (
    Seq<int>,
    Seq<int>,
))
    ensures
        targets_in_row_order(problem, problem.targets(steps), order.0, order.1),
{
    lemma_row_order(problem, steps, problem.rows.len())
}

/// With more pairs than positions, [`greedy_assign_pairs`] leaves pairs out, and those that
/// get a position are chosen and placed as cheaply as possible: no other way to give pairs
/// positions of their own, with numbers past the last position for pairs without one,
/// costs less.
pub proof fn lemma_greedy_pairs_crowded(
    cz_pairs: &[(u32, u32)],
    config: &Config,
    arch: &ArchSpec,
    dist_table: &DistanceTable,
    seed: u64,
    transition_targets: Option<&HashMap<u32, u64>>,
    transition: &TransitionCosts,
    occupancy: OccupancyCosts,
    targets: Vec<(u32, u64)>,
    b: Seq<usize>,
) -> (found: (RowProblem, Seq<((u32, u32), u64, u64)>, Seq<int>, Seq<usize>, Seq<i32>))
    requires
        call_ensures(
            greedy_assign_pairs,
            (
                cz_pairs,
                config,
                arch,
                dist_table,
                seed,
                transition_targets,
                transition,
                None::<u32>,
                occupancy,
            ),
            targets,
        ),
        0 < position_slots(arch@).len() < placed_pairs(cz_pairs@, config@).len(),
        injective_below(
            b,
            placed_pairs(cz_pairs@, config@).len(),
            placed_pairs(cz_pairs@, config@).len(),
        ),
    ensures
        ({
            let (problem, placed, at, a, steps) = found;
            let (n, m) = (placed.len(), problem.slots.len());
            &&& is_selection(cz_pairs@, config@, placed, at, cz_pairs@.len())
            &&& rows_of_pairs(problem.rows, placed)
            &&& problem.slots == position_slots(arch@)
            &&& injective_below(a, n, n)
            &&& rows_go(problem, steps, a, targets@)
            &&& seed == 0 ==> steps.len() == 0
            &&& picked_within(problem.costs(steps), m, a, n) <= picked_within(
                problem.costs(steps),
                m,
                b,
                n,
            )
        }),
{
    let layer = layer_of(
        cz_pairs@,
        config,
        arch,
        dist_table,
        transition_targets,
        transition,
        None,
        occupancy,
    );
    let steps = choose|steps: Seq<i32>| #[trigger]
        layer.is_pair_assignment(seed, steps, targets@);
    let problem = layer.pair_problem();
    let placed = placed_pairs(cz_pairs@, config@);
    let at = lemma_selection(cz_pairs@, config@, cz_pairs@.len());
    let a = problem.columns(steps);
    let (n, m) = (placed.len(), problem.slots.len());
    lemma_steps(seed, problem.matrix(), steps);
    problem.lemma_rows_go(steps);
    assert(problem.rows.len() == n);
    assert(is_min_cost_assignment(
        widened(problem.costs(steps), n as int, m as int),
        n as int,
        n as int,
        a,
    ));
    assert(is_assignment(n as int, n as int, b));
    lemma_picked_within(problem.costs(steps), n, m, a, n);
    lemma_picked_within(problem.costs(steps), n, m, b, n);
    assert(a.take(n as int) =~= a);
    assert(b.take(n as int) =~= b);
    (problem, placed, at, a, steps)
}

/// There are no more passes than one and one for each atom that is in no pair, and no fewer
/// unless they settled before.
pub proof fn lemma_number_of_passes(
    cz_pairs: &[(u32, u32)],
    config: &Config,
    arch: &ArchSpec,
    index: &LaneIndex,
    dist_table: &DistanceTable,
    blocked: &HashSet<u64>,
    seed: u64,
    transition_targets: Option<&HashMap<u32, u64>>,
    transition: &TransitionCosts,
    max_loss: Option<u32>,
    occupancy: OccupancyCosts,
    move_penalty: u32,
    accidentals: bool,
    targets: Vec<(u32, u64)>,
) -> (draws: Seq<Seq<i32>>)
    requires
        call_ensures(
            assign_pairs_unrepaired,
            (
                cz_pairs,
                config,
                arch,
                index,
                dist_table,
                blocked,
                seed,
                transition_targets,
                transition,
                max_loss,
                occupancy,
                move_penalty,
                accidentals,
            ),
            targets,
        ),
        0 < placed_pairs(cz_pairs@, config@).len() <= position_slots(arch@).len(),
        pair_qubits(cz_pairs@).len() <= config@.len(),
    ensures
        ({
            let staged = Staged {
                layer: Layer {
                    pairs: cz_pairs@,
                    entries: config@,
                    arch: arch@,
                    table: dist_table@,
                    next: next_targets(transition_targets),
                    transition: transition@,
                    max_loss,
                    occupancy,
                },
                lanes: index.arch(),
                blocked: blocked@,
                move_penalty,
                accidentals,
            };
            let spectators = config@.len() - pair_qubits(cz_pairs@).len();
            &&& staged.is_run(seed, draws)
            &&& staged.run(draws).targets == targets@
            &&& 1 <= draws.len() <= spectators + 1
            &&& draws.len() < spectators + 1 ==> staged.run(draws).settled
        }),
{
    let staged = staged_of(
        layer_of(
            cz_pairs@,
            config,
            arch,
            dist_table,
            transition_targets,
            transition,
            max_loss,
            occupancy,
        ),
        index,
        blocked,
        move_penalty,
        accidentals,
    );
    choose|draws: Seq<Seq<i32>>| #[trigger] staged.is_unrepaired(seed, draws, targets@)
}

} // verus!
