//! Assignment of CZ pairs to entangling positions.

use crate::arch::{ArchModel, ArchSpec, LocationAddr};
use crate::blockers::{
    detect_accidental_cz_spectators, detect_accidentals_created, detect_blockers, is_blocker,
    is_created_accidental, Spectators,
};
use crate::config::{location_in, Config};
use crate::costs::{
    collect_held_besides, held_besides, next_targets, CostInputs, CostModel, OccupancyCosts, Row,
    TransitionCosts, TransitionModel,
};
use crate::distance::DistanceTable;
use crate::entangling::{
    enumerate_slots, enumerate_word_pairs, position_slots, slot_sites, word_pairs, EntanglingWordPair,
    PositionSlot,
};
use crate::goals::{collect_pair_qubits, lemma_pair_qubits_finite, pair_qubits};
use crate::lane_index::LaneIndex;
use crate::perturbation::steps_for;
use crate::repair::{finalize_assignment_targets, Repair};
use crate::rows::{is_row_solution, row_problem, solve_rows, RowProblem};
use crate::seqs::sorted_members;
use std::collections::{HashMap, HashSet};
use vstd::prelude::*;

verus! {

broadcast use vstd::std_specs::hash::group_hash_axioms;

// ── Rows of pairs ─────────────────────────────────────────────────

/// The pairs among the first `n` whose qubits are both placed, with where they
/// are.
pub open spec fn placed_pairs_of(
    pairs: Seq<(u32, u32)>,
    entries: Seq<(u32, LocationAddr)>,
    n: nat,
) -> Seq<((u32, u32), u64, u64)>
    decreases n,
{
    if n == 0 {
        Seq::empty()
    } else {
        let pair = pairs[n - 1];
        let rest = placed_pairs_of(pairs, entries, (n - 1) as nat);
        match (location_in(entries, pair.0), location_in(entries, pair.1)) {
            (Some(a), Some(b)) => rest.push((pair, a.code(), b.code())),
            _ => rest,
        }
    }
}

/// The pairs whose qubits are both placed, with where they are.
pub open spec fn placed_pairs(
    pairs: Seq<(u32, u32)>,
    entries: Seq<(u32, LocationAddr)>,
) -> Seq<((u32, u32), u64, u64)> {
    placed_pairs_of(pairs, entries, pairs.len())
}

pub proof fn lemma_placed_count(pairs: Seq<(u32, u32)>, entries: Seq<(u32, LocationAddr)>, n: nat)
    ensures
        placed_pairs_of(pairs, entries, n).len() <= n,
    decreases n,
{
    if n > 0 {
        lemma_placed_count(pairs, entries, (n - 1) as nat);
    }
}

/// Collect the pairs whose qubits are both placed.
pub fn collect_placed_pairs(cz_pairs: &[(u32, u32)], config: &Config) -> (placed: Vec<
    ((u32, u32), u64, u64),
>)
    ensures
        placed@ == placed_pairs(cz_pairs@, config@),
        placed@.len() <= cz_pairs@.len(),
{
    let mut placed: Vec<((u32, u32), u64, u64)> = Vec::new();
    let mut i: usize = 0;
    while i < cz_pairs.len()
        invariant
            i <= cz_pairs@.len(),
            placed@ == placed_pairs_of(cz_pairs@, config@, i as nat),
        decreases cz_pairs.len() - i,
    {
        let (qa, qb) = cz_pairs[i];
        match (config.location_of(qa), config.location_of(qb)) {
            (Some(a), Some(b)) => {
                placed.push(((qa, qb), a.encode(), b.encode()));
            },
            _ => {},
        }
        i += 1;
    }
    proof {
        lemma_placed_count(cz_pairs@, config@, cz_pairs@.len());
    }
    placed
}

/// One row per placed pair.
pub open spec fn pair_rows(placed: Seq<((u32, u32), u64, u64)>) -> Seq<Row> {
    placed.map_values(
        |entry: ((u32, u32), u64, u64)|
            Row::Pair {
                qa: entry.0.0,
                qb: entry.0.1,
                loc_a_enc: entry.1,
                loc_b_enc: entry.2,
            },
    )
}

fn collect_pair_rows(placed: &Vec<((u32, u32), u64, u64)>) -> (rows: Vec<Row>)
    ensures
        rows@ == pair_rows(placed@),
{
    let mut rows: Vec<Row> = Vec::new();
    let mut i: usize = 0;
    while i < placed.len()
        invariant
            i <= placed.len(),
            rows@ == pair_rows(placed@).take(i as int),
        decreases placed.len() - i,
    {
        let ((qa, qb), loc_a_enc, loc_b_enc) = placed[i];
        rows.push(Row::Pair { qa, qb, loc_a_enc, loc_b_enc });
        i += 1;
        assert(rows@ =~= pair_rows(placed@).take(i as int));
    }
    assert(rows@ =~= pair_rows(placed@));
    rows
}

/// A cost matrix with a row per pair and a column per position is no larger than
/// the machine can hold, nor is one with as many columns as rows where pairs
/// outnumber positions.
pub open spec fn pairs_fit(arch: ArchModel, n_pairs: nat) -> bool {
    let n_slots = position_slots(arch).len();
    &&& n_slots < usize::MAX
    &&& n_pairs < usize::MAX
    &&& n_pairs * n_slots <= usize::MAX
    &&& n_pairs > n_slots ==> n_pairs * n_pairs <= usize::MAX
}

/// The most rows that pairs and atoms in their way can have: there are never
/// more than positions.
pub open spec fn row_limit(arch: ArchModel, n_pairs: nat, n_atoms: nat) -> nat {
    if n_pairs + n_atoms < position_slots(arch).len() {
        n_pairs + n_atoms
    } else {
        position_slots(arch).len()
    }
}

/// Cost matrices with a row per pair or atom in the way and a column per
/// position are no larger than the machine can hold.
pub open spec fn sizes_fit(arch: ArchModel, n_pairs: nat, n_atoms: nat) -> bool {
    &&& pairs_fit(arch, n_pairs)
    &&& row_limit(arch, n_pairs, n_atoms) * position_slots(arch).len() <= usize::MAX
}

/// The assignment problem of a layer: its pairs, where all atoms are, and the
/// costs.
pub ghost struct Layer {
    pub pairs: Seq<(u32, u32)>,
    pub entries: Seq<(u32, LocationAddr)>,
    pub arch: ArchModel,
    pub table: Map<u64, Map<u64, u32>>,
    pub next: Map<u32, u64>,
    pub transition: TransitionModel,
    pub max_loss: Option<u32>,
    pub occupancy: OccupancyCosts,
}

impl Layer {
    /// The positions.
    pub open spec fn slots(self) -> Seq<PositionSlot> {
        position_slots(self.arch)
    }

    /// The pairs whose qubits are placed.
    pub open spec fn placed(self) -> Seq<((u32, u32), u64, u64)> {
        placed_pairs(self.pairs, self.entries)
    }

    /// The qubits of all pairs.
    pub open spec fn pair_qubits(self) -> Set<u32> {
        pair_qubits(self.pairs)
    }

    /// The assignment problem of some rows, whose atoms are `movers`.
    pub open spec fn problem(
        self,
        rows: Seq<Row>,
        movers: Set<u32>,
        blocked: Set<u64>,
        move_penalty: u32,
    ) -> RowProblem {
        RowProblem {
            model: CostModel {
                table: self.table,
                held: held_besides(self.entries, movers),
                blocked,
                next: self.next,
                transition: self.transition,
                occupancy: self.occupancy,
                move_penalty,
            },
            rows,
            slots: self.slots(),
            sites_per_word: slot_sites(self.arch) as int,
            n_word_pairs: word_pairs(self.arch).len() as int,
            max_loss: self.max_loss,
        }
    }

    /// The assignment problem of the pairs alone.
    pub open spec fn pair_problem(self) -> RowProblem {
        self.problem(pair_rows(self.placed()), self.pair_qubits(), Set::empty(), 0)
    }

    /// `targets` is a least-cost assignment of the pairs to positions, with the
    /// costs changed by `steps`. Without placed pairs or positions there are no
    /// targets.
    pub open spec fn is_pair_assignment(
        self,
        seed: u64,
        steps: Seq<i32>,
        targets: Seq<(u32, u64)>,
    ) -> bool {
        if self.placed().len() == 0 || self.slots().len() == 0 {
            steps.len() == 0 && targets.len() == 0
        } else {
            is_row_solution(self.pair_problem(), seed, steps, targets)
        }
    }

    /// Pairs as many as the machine can hold.
    pub open spec fn pairs_fit(self) -> bool {
        pairs_fit(self.arch, self.pairs.len())
    }

    /// The most rows that pairs and blockers can have.
    pub open spec fn row_limit(self) -> nat {
        row_limit(self.arch, self.pairs.len(), self.entries.len())
    }

    /// Sizes that the machine can hold.
    pub open spec fn fits(self) -> bool {
        sizes_fit(self.arch, self.pairs.len(), self.entries.len())
    }

    pub proof fn lemma_problem_fits(self, rows: Seq<Row>, movers: Set<u32>, blocked: Set<u64>, p: u32)
        requires
            self.pairs_fit() && rows.len() <= self.pairs.len() || self.fits() && rows.len()
                <= self.row_limit(),
        ensures
            self.problem(rows, movers, blocked, p).fits(),
            self.problem(rows, movers, blocked, p).is_layout(),
    {
        let (n, m, k) = (rows.len() as int, self.slots().len() as int, self.pairs.len() as int);
        let limit = self.row_limit() as int;
        if n <= k {
            assert(n * m <= k * m && n * n <= k * k) by (nonlinear_arith)
                requires
                    0 <= n <= k,
                    0 <= m,
            ;
        } else {
            assert(n * m <= limit * m) by (nonlinear_arith)
                requires
                    0 <= n <= limit,
                    0 <= m,
            ;
        }
        let (s, w) = (slot_sites(self.arch) as int, word_pairs(self.arch).len() as int);
        assert(w * s == s * w) by (nonlinear_arith);
    }
}

/// The layer that these inputs describe.
pub open spec fn layer_of(
    pairs: Seq<(u32, u32)>,
    config: &Config,
    arch: &ArchSpec,
    dist_table: &DistanceTable,
    transition_targets: Option<&HashMap<u32, u64>>,
    transition: &TransitionCosts,
    max_loss: Option<u32>,
    occupancy: OccupancyCosts,
) -> Layer {
    Layer {
        pairs,
        entries: config@,
        arch: arch@,
        table: dist_table@,
        next: next_targets(transition_targets),
        transition: transition@,
        max_loss,
        occupancy,
    }
}

/// Optimal assignment of CZ pairs to entangling positions.
///
/// For each pair, every position is evaluated in both orientations. The
/// assignment minimises the total cost across all pairs at once. Pairs with a
/// qubit that is not placed are left out, and so are pairs whose position
/// cannot be reached. With more pairs than positions, the pairs left over get
/// no targets.
///
/// `seed` controls tie-breaking perturbation for restart diversity: seed 0
/// means no perturbation. `transition_targets` with `transition` biases
/// positions toward the targets of the next layer. `max_loss` lets pairs leave
/// crowded word pairs at that cost. `occupancy` is charged for positions held by
/// atoms of no pair of this layer; atoms of a pair will be reassigned and are
/// never charged for.
///
/// Returns qubits and their packed target locations.
pub fn greedy_assign_pairs(
    cz_pairs: &[(u32, u32)],
    config: &Config,
    arch: &ArchSpec,
    dist_table: &DistanceTable,
    seed: u64,
    transition_targets: Option<&HashMap<u32, u64>>,
    transition: &TransitionCosts,
    max_loss: Option<u32>,
    occupancy: OccupancyCosts,
) -> (targets: Vec<(u32, u64)>)
    requires
        pairs_fit(arch@, cz_pairs@.len()),
    ensures
        exists|steps: Seq<i32>| #[trigger]
            layer_of(
                cz_pairs@,
                config,
                arch,
                dist_table,
                transition_targets,
                transition,
                max_loss,
                occupancy,
            ).is_pair_assignment(seed, steps, targets@),
{
    let ghost layer = layer_of(
        cz_pairs@,
        config,
        arch,
        dist_table,
        transition_targets,
        transition,
        max_loss,
        occupancy,
    );
    let word_pairs = enumerate_word_pairs(arch);
    let sites_per_word = arch.sites_per_word() as u32;
    let slots = enumerate_slots(word_pairs.as_slice(), sites_per_word);
    let placed = collect_placed_pairs(cz_pairs, config);
    if placed.len() == 0 || slots.len() == 0 {
        let targets: Vec<(u32, u64)> = Vec::new();
        assert(layer.is_pair_assignment(seed, Seq::empty(), targets@));
        return targets;
    }
    let rows = collect_pair_rows(&placed);
    let movers = collect_pair_qubits(cz_pairs);
    let blocked: HashSet<u64> = HashSet::new();
    let inputs = CostInputs {
        dist_table,
        held: collect_held_besides(config, &movers),
        blocked: &blocked,
        next: transition_targets,
        transition,
        occupancy,
        move_penalty: 0,
    };
    proof {
        layer.lemma_problem_fits(rows@, movers@, Set::empty(), 0);
        assert(row_problem(
            &inputs,
            rows@,
            slots@,
            sites_per_word as usize,
            word_pairs.len(),
            max_loss,
        ) == layer.pair_problem());
    }
    let (targets, steps) = solve_rows(
        &inputs,
        rows.as_slice(),
        slots.as_slice(),
        sites_per_word as usize,
        word_pairs.len(),
        max_loss,
        seed,
    );
    assert(layer.is_pair_assignment(seed, steps@, targets@));
    targets
}

// ── Rows of pairs and blockers ────────────────────────────────────

/// One row per atom among the first `n` that is placed.
pub open spec fn spectator_rows_of(
    qubits: Seq<u32>,
    entries: Seq<(u32, LocationAddr)>,
    n: nat,
) -> Seq<Row>
    decreases n,
{
    if n == 0 {
        Seq::empty()
    } else {
        let qid = qubits[n - 1];
        let rest = spectator_rows_of(qubits, entries, (n - 1) as nat);
        match location_in(entries, qid) {
            Some(loc) => rest.push(Row::Spectator { qid, loc_enc: loc.code() }),
            None => rest,
        }
    }
}

/// One row per placed atom.
pub open spec fn spectator_rows(qubits: Seq<u32>, entries: Seq<(u32, LocationAddr)>) -> Seq<Row> {
    spectator_rows_of(qubits, entries, qubits.len())
}

pub proof fn lemma_spectator_rows_count(qubits: Seq<u32>, entries: Seq<(u32, LocationAddr)>, n: nat)
    ensures
        spectator_rows_of(qubits, entries, n).len() <= n,
    decreases n,
{
    if n > 0 {
        lemma_spectator_rows_count(qubits, entries, (n - 1) as nat);
    }
}

fn push_spectator_rows(rows: &mut Vec<Row>, qubits: &Vec<u32>, config: &Config)
    ensures
        final(rows)@ == old(rows)@ + spectator_rows(qubits@, config@),
{
    let mut i: usize = 0;
    assert(rows@ =~= rows@ + spectator_rows_of(qubits@, config@, 0));
    while i < qubits.len()
        invariant
            i <= qubits.len(),
            rows@ == old(rows)@ + spectator_rows_of(qubits@, config@, i as nat),
        decreases qubits.len() - i,
    {
        let qid = qubits[i];
        match config.location_of(qid) {
            Some(loc) => {
                rows.push(Row::Spectator { qid, loc_enc: loc.encode() });
            },
            None => {},
        }
        i += 1;
        assert(rows@ =~= old(rows)@ + spectator_rows_of(qubits@, config@, i as nat));
    }
}

/// The qubits of pairs together with further qubits.
pub open spec fn with_qubits(base: Set<u32>, more: Seq<u32>) -> Set<u32> {
    Set::new(|qubit_id: u32| base.contains(qubit_id) || more.contains(qubit_id))
}

fn collect_row_qubits(cz_pairs: &[(u32, u32)], blockers: &Vec<u32>) -> (qubits: HashSet<u32>)
    ensures
        qubits@ == with_qubits(pair_qubits(cz_pairs@), blockers@),
{
    let mut qubits = collect_pair_qubits(cz_pairs);
    let mut i: usize = 0;
    assert(qubits@ =~= with_qubits(pair_qubits(cz_pairs@), blockers@.take(0)));
    while i < blockers.len()
        invariant
            i <= blockers.len(),
            qubits@ == with_qubits(pair_qubits(cz_pairs@), blockers@.take(i as int)),
        decreases blockers.len() - i,
    {
        let ghost before = blockers@.take(i as int);
        qubits.insert(blockers[i]);
        i += 1;
        proof {
            let after = blockers@.take(i as int);
            assert(after =~= before.push(blockers@[i - 1]));
            assert forall|q: u32| after.contains(q) <==> before.contains(q) || q
                == blockers@[i - 1] by {
                if before.contains(q) {
                    let k = choose|k: int| 0 <= k < before.len() && before[k] == q;
                    assert(after[k] == q);
                }
                if after.contains(q) && q != blockers@[i - 1] {
                    let k = choose|k: int| 0 <= k < after.len() && after[k] == q;
                    assert(before[k] == q);
                }
                assert(after[i - 1] == blockers@[i - 1]);
            }
            assert(qubits@ =~= with_qubits(pair_qubits(cz_pairs@), after));
        }
    }
    assert(blockers@.take(i as int) =~= blockers@);
    qubits
}

/// One pass over the rows: the blockers that are rows of the next pass, the
/// targets, and whether nothing stands in their way any more.
#[verifier::ext_equal]
pub ghost struct Pass {
    pub blockers: Seq<u32>,
    pub targets: Seq<(u32, u64)>,
    pub settled: bool,
}

/// The assignment problem of a layer, in which blockers become rows.
pub ghost struct Staged {
    pub layer: Layer,
    /// The architecture whose lanes atoms move along.
    pub lanes: ArchModel,
    pub blocked: Set<u64>,
    pub move_penalty: u32,
    /// Whether accidental CZs among spectators count as blockers.
    pub accidentals: bool,
}

impl Staged {
    /// The blockers for which there are positions, besides the pairs.
    pub open spec fn kept(self, blockers: Seq<u32>) -> Seq<u32> {
        let room = self.layer.slots().len() - self.layer.placed().len();
        if blockers.len() > room {
            blockers.take(room)
        } else {
            blockers
        }
    }

    /// The rows: placed pairs, then blockers.
    pub open spec fn rows(self, blockers: Seq<u32>) -> Seq<Row> {
        pair_rows(self.layer.placed()) + spectator_rows(blockers, self.layer.entries)
    }

    /// The qubits of the rows.
    pub open spec fn row_qubits(self, blockers: Seq<u32>) -> Set<u32> {
        with_qubits(self.layer.pair_qubits(), blockers)
    }

    /// The assignment problem with the given blockers.
    pub open spec fn problem(self, blockers: Seq<u32>) -> RowProblem {
        self.layer.problem(
            self.rows(blockers),
            self.row_qubits(blockers),
            self.blocked,
            self.move_penalty,
        )
    }

    /// What stands in the way of the targets: atoms on a pair's target or in
    /// its way out, then members of accidental CZs, then atoms that the targets
    /// would put into one.
    pub open spec fn obstacles(self, blockers: Seq<u32>, targets: Seq<(u32, u64)>) -> Seq<u32> {
        let pairs = self.layer.pair_qubits();
        let rows = self.row_qubits(blockers);
        let entries = self.layer.entries;
        let parked = sorted_members(is_blocker(targets, pairs, entries, rows, self.lanes));
        if self.accidentals {
            parked + sorted_members(
                (Spectators {
                    entries,
                    arch: self.layer.arch,
                    pair_qubits: pairs,
                    row_qubits: rows,
                }).is_member(),
            ) + sorted_members(
                is_created_accidental(targets, self.layer.arch, entries, pairs, rows),
            )
        } else {
            parked
        }
    }

    /// The blockers together with the first `n` obstacles, each once.
    pub open spec fn joined(self, blockers: Seq<u32>, found: Seq<u32>, n: nat) -> Seq<u32>
        decreases n,
    {
        if n == 0 {
            blockers
        } else {
            let rest = self.joined(blockers, found, (n - 1) as nat);
            if self.row_qubits(rest).contains(found[n - 1]) {
                rest
            } else {
                rest.push(found[n - 1])
            }
        }
    }

    /// Before the first pass.
    pub open spec fn start(self) -> Pass {
        Pass { blockers: Seq::empty(), targets: Seq::empty(), settled: false }
    }

    /// One more pass, with the costs changed by `steps`.
    pub open spec fn after(self, pass: Pass, steps: Seq<i32>) -> Pass {
        let blockers = self.kept(pass.blockers);
        let targets = self.problem(blockers).targets(steps);
        let found = self.obstacles(blockers, targets);
        if found.len() == 0 {
            Pass { blockers, targets, settled: true }
        } else {
            Pass {
                blockers: self.joined(blockers, found, found.len()),
                targets,
                settled: false,
            }
        }
    }

    /// The passes with the given steps.
    pub open spec fn run(self, draws: Seq<Seq<i32>>) -> Pass
        decreases draws.len(),
    {
        if draws.len() == 0 {
            self.start()
        } else {
            self.after(self.run(draws.drop_last()), draws.last())
        }
    }

    /// No pass is made after one that settled, each pass uses steps that belong
    /// to the seed, and each is of least cost.
    pub open spec fn is_run(self, seed: u64, draws: Seq<Seq<i32>>) -> bool {
        forall|n: int|
            0 <= n < draws.len() ==> {
                let before = self.run(#[trigger] draws.take(n));
                let problem = self.problem(self.kept(before.blockers));
                &&& !before.settled
                &&& steps_for(seed, problem.matrix(), draws[n])
                &&& problem.is_optimal(draws[n])
            }
    }

    /// How many passes are made at most: one more than there are qubits besides
    /// those of pairs.
    pub open spec fn max_passes(self) -> nat {
        let spectators = self.layer.entries.len() - self.layer.pair_qubits().len();
        if spectators < 0 {
            1
        } else {
            (spectators + 1) as nat
        }
    }

    /// The targets, repaired where pairs end up too close to each other.
    pub open spec fn finished(self, targets: Seq<(u32, u64)>) -> Seq<(u32, u64)> {
        (Repair {
            targets,
            pairs: self.layer.pairs,
            placed: self.layer.placed(),
            slots: self.layer.slots(),
            table: self.layer.table,
            arch: self.lanes,
            blocked: self.blocked,
        }).repaired()
    }

    /// `targets` comes from passes with the given steps, before any repair.
    pub open spec fn is_unrepaired(
        self,
        seed: u64,
        draws: Seq<Seq<i32>>,
        targets: Seq<(u32, u64)>,
    ) -> bool {
        let (placed, slots) = (self.layer.placed().len(), self.layer.slots().len());
        if placed == 0 || slots == 0 {
            draws.len() == 0 && targets.len() == 0
        } else if placed > slots {
            draws.len() == 1 && self.layer.is_pair_assignment(seed, draws[0], targets)
        } else {
            &&& 0 < draws.len() <= self.max_passes()
            &&& self.is_run(seed, draws)
            &&& self.run(draws).settled || draws.len() == self.max_passes()
            &&& targets == self.run(draws).targets
        }
    }

    /// `targets` comes from passes with the given steps, and is repaired.
    pub open spec fn is_outcome(
        self,
        seed: u64,
        draws: Seq<Seq<i32>>,
        targets: Seq<(u32, u64)>,
    ) -> bool {
        let (placed, slots) = (self.layer.placed().len(), self.layer.slots().len());
        if placed == 0 || slots == 0 {
            draws.len() == 0 && targets.len() == 0
        } else if placed > slots {
            &&& draws.len() == 1
            &&& self.layer.is_pair_assignment(
                seed,
                draws[0],
                self.layer.pair_problem().targets(draws[0]),
            )
            &&& targets == self.finished(self.layer.pair_problem().targets(draws[0]))
        } else {
            &&& 0 < draws.len() <= self.max_passes()
            &&& self.is_run(seed, draws)
            &&& self.run(draws).settled || draws.len() == self.max_passes()
            &&& targets == self.finished(self.run(draws).targets)
        }
    }

    /// `targets` assigns the pairs, and blockers, of the layer.
    pub open spec fn assigns(self, seed: u64, targets: Seq<(u32, u64)>) -> bool {
        exists|draws: Seq<Seq<i32>>| self.is_outcome(seed, draws, targets)
    }
}

/// Assign mixed rows, pairs and spectators, to positions.
///
/// `row_qubits` are the qubits of the rows: atoms that move away. Atoms outside
/// of it stay, so positions they hold cost extra.
pub fn mixed_row_hungarian(
    rows: &[Row],
    slots: &[PositionSlot],
    word_pairs: &[EntanglingWordPair],
    sites_per_word: usize,
    config: &Config,
    dist_table: &DistanceTable,
    row_qubits: &HashSet<u32>,
    blocked: &HashSet<u64>,
    transition_targets: Option<&HashMap<u32, u64>>,
    transition: &TransitionCosts,
    max_loss: Option<u32>,
    occupancy: OccupancyCosts,
    move_penalty: u32,
    seed: u64,
) -> (targets: Vec<(u32, u64)>)
    requires
        max_loss is Some && word_pairs@.len() > 1 ==> slots@.len() <= sites_per_word
            * word_pairs@.len(),
        rows@.len() <= slots@.len() < usize::MAX,
        rows@.len() * slots@.len() <= usize::MAX,
    ensures
        exists|steps: Seq<i32>| #[trigger]
            is_row_solution(
                (RowProblem {
                    model: (CostModel {
                        table: dist_table@,
                        held: held_besides(config@, row_qubits@),
                        blocked: blocked@,
                        next: next_targets(transition_targets),
                        transition: transition@,
                        occupancy,
                        move_penalty,
                    }),
                    rows: rows@,
                    slots: slots@,
                    sites_per_word: sites_per_word as int,
                    n_word_pairs: word_pairs@.len() as int,
                    max_loss,
                }),
                seed,
                steps,
                targets@,
            ),
{
    let inputs = CostInputs {
        dist_table,
        held: collect_held_besides(config, row_qubits),
        blocked,
        next: transition_targets,
        transition,
        occupancy,
        move_penalty,
    };
    let (targets, steps) = solve_rows(
        &inputs,
        rows,
        slots,
        sites_per_word,
        word_pairs.len(),
        max_loss,
        seed,
    );
    assert(is_row_solution(
        row_problem(&inputs, rows@, slots@, sites_per_word, word_pairs.len(), max_loss),
        seed,
        steps@,
        targets@,
    ));
    targets
}

/// The staged problem that these inputs describe.
pub open spec fn staged_of(
    layer: Layer,
    index: &LaneIndex,
    blocked: &HashSet<u64>,
    move_penalty: u32,
    accidentals: bool,
) -> Staged {
    Staged { layer, lanes: index.arch(), blocked: blocked@, move_penalty, accidentals }
}

/// Find what stands in the way of the targets.
fn find_obstacles(
    targets: &Vec<(u32, u64)>,
    cz_pairs: &[(u32, u32)],
    blockers: &Vec<u32>,
    pair_qubits: &HashSet<u32>,
    row_qubits: &HashSet<u32>,
    config: &Config,
    arch: &ArchSpec,
    index: &LaneIndex,
    accidentals: bool,
    Ghost(staged): Ghost<Staged>,
) -> (found: Vec<u32>)
    requires
        staged.layer.pairs == cz_pairs@,
        staged.layer.entries == config@,
        staged.layer.arch == arch@,
        staged.lanes == index.arch(),
        staged.accidentals == accidentals,
        pair_qubits@ == staged.layer.pair_qubits(),
        row_qubits@ == staged.row_qubits(blockers@),
    ensures
        found@ == staged.obstacles(blockers@, targets@),
{
    let mut found = detect_blockers(targets.as_slice(), pair_qubits, config, row_qubits, index);
    if accidentals {
        let mut members = detect_accidental_cz_spectators(config, arch, pair_qubits, row_qubits);
        let mut created = detect_accidentals_created(
            targets.as_slice(),
            arch,
            config,
            pair_qubits,
            row_qubits,
        );
        found.append(&mut members);
        found.append(&mut created);
    }
    found
}

/// Add the obstacles to the blockers, each once.
fn join_blockers(
    blockers: &mut Vec<u32>,
    found: &Vec<u32>,
    cz_pairs: &[(u32, u32)],
    Ghost(staged): Ghost<Staged>,
)
    requires
        staged.layer.pairs == cz_pairs@,
    ensures
        final(blockers)@ == staged.joined(old(blockers)@, found@, found@.len()),
{
    let ghost base = blockers@;
    let mut row_qubits = collect_row_qubits(cz_pairs, blockers);
    let mut i: usize = 0;
    while i < found.len()
        invariant
            i <= found.len(),
            staged.layer.pairs == cz_pairs@,
            blockers@ == staged.joined(base, found@, i as nat),
            row_qubits@ == staged.row_qubits(blockers@),
        decreases found.len() - i,
    {
        let qubit_id = found[i];
        let ghost before = blockers@;
        if !row_qubits.contains(&qubit_id) {
            blockers.push(qubit_id);
            row_qubits.insert(qubit_id);
            proof {
                let after = blockers@;
                assert forall|q: u32| after.contains(q) <==> before.contains(q) || q
                    == qubit_id by {
                    if before.contains(q) {
                        let k = choose|k: int| 0 <= k < before.len() && before[k] == q;
                        assert(after[k] == q);
                    }
                    if after.contains(q) && q != qubit_id {
                        let k = choose|k: int| 0 <= k < after.len() && after[k] == q;
                        assert(before[k] == q);
                    }
                    assert(after[before.len() as int] == qubit_id);
                }
                assert(row_qubits@ =~= staged.row_qubits(after));
            }
        }
        i += 1;
    }
}

/// Iterative assignment in which blockers become rows of their own: atoms of no
/// pair that sit on the target of a pair qubit, hem a pair qubit in, or, with
/// `accidentals`, are or would get into an accidental CZ.
///
/// Each pass assigns the pairs together with the blockers known so far, and
/// looks for new ones; passes end when there are none. Blockers get explicit
/// targets, so that a later search treats them as ordinary unresolved qubits,
/// and the assignment sees what it costs to displace them. No row is sent to a
/// location in `blocked`. With more pairs than positions, this is
/// [`greedy_assign_pairs`].
pub fn assign_pairs_unrepaired(
    cz_pairs: &[(u32, u32)],
    config: &Config,
    arch: &ArchSpec,
    index: &LaneIndex,
    dist_table: &DistanceTable,
    blocked: &HashSet<u64>,
    seed: u64,
    transition_targets: Option<&HashMap<u32, u64>>,
    transition: &TransitionCosts,
    max_loss: Option<u32>,
    occupancy: OccupancyCosts,
    move_penalty: u32,
    accidentals: bool,
) -> (targets: Vec<(u32, u64)>)
    requires
        sizes_fit(arch@, cz_pairs@.len(), config@.len()),
    ensures
        exists|draws: Seq<Seq<i32>>| #[trigger]
            staged_of(
                layer_of(
                    cz_pairs@,
                    config,
                    arch,
                    dist_table,
                    transition_targets,
                    transition,
                    max_loss,
                    occupancy,
                ),
                index,
                blocked,
                move_penalty,
                accidentals,
            ).is_unrepaired(seed, draws, targets@),
{
    let ghost layer = layer_of(
        cz_pairs@,
        config,
        arch,
        dist_table,
        transition_targets,
        transition,
        max_loss,
        occupancy,
    );
    let ghost staged = staged_of(layer, index, blocked, move_penalty, accidentals);
    let word_pairs = enumerate_word_pairs(arch);
    let sites_per_word = arch.sites_per_word() as u32;
    let slots = enumerate_slots(word_pairs.as_slice(), sites_per_word);
    let n_slots = slots.len();
    let placed = collect_placed_pairs(cz_pairs, config);
    if placed.len() == 0 || n_slots == 0 {
        let targets: Vec<(u32, u64)> = Vec::new();
        assert(staged.is_unrepaired(seed, Seq::empty(), targets@));
        return targets;
    }
    if placed.len() > n_slots {
        let targets = greedy_assign_pairs(
            cz_pairs,
            config,
            arch,
            dist_table,
            seed,
            transition_targets,
            transition,
            max_loss,
            occupancy,
        );
        let ghost steps = choose|steps: Seq<i32>| #[trigger]
            layer.is_pair_assignment(seed, steps, targets@);
        assert(staged.is_unrepaired(seed, seq![steps], targets@));
        return targets;
    }
    let pair_qubits = collect_pair_qubits(cz_pairs);
    proof {
        lemma_pair_qubits_finite(cz_pairs@);
        assert(pair_qubits@.contains(cz_pairs@[0].0));
        assert(pair_qubits@.len() > 0);
    }
    let max_passes: usize = config.len().saturating_sub(pair_qubits.len()) + 1;
    assert(max_passes == staged.max_passes());
    let mut blockers: Vec<u32> = Vec::new();
    let mut targets: Vec<(u32, u64)> = Vec::new();
    let mut passes: usize = 0;
    let mut settled = false;
    let ghost mut draws: Seq<Seq<i32>> = Seq::empty();
    while !settled && passes < max_passes
        invariant
            passes <= max_passes,
            passes == draws.len(),
            max_passes == staged.max_passes(),
            max_passes > 0,
            passes == 0 ==> !settled,
            layer == layer_of(
                cz_pairs@,
                config,
                arch,
                dist_table,
                transition_targets,
                transition,
                max_loss,
                occupancy,
            ),
            staged == staged_of(layer, index, blocked, move_penalty, accidentals),
            layer.fits(),
            word_pairs@ == crate::entangling::word_pairs(arch@),
            sites_per_word == slot_sites(arch@),
            slots@ == layer.slots(),
            n_slots == slots@.len(),
            placed@ == layer.placed(),
            0 < placed@.len() <= n_slots,
            pair_qubits@ == layer.pair_qubits(),
            staged.is_run(seed, draws),
            settled == staged.run(draws).settled,
            blockers@ == staged.run(draws).blockers,
            targets@ == staged.run(draws).targets,
        decreases max_passes - passes,
    {
        let room = n_slots - placed.len();
        if blockers.len() > room {
            blockers.truncate(room);
        }
        let ghost kept = staged.kept(staged.run(draws).blockers);
        assert(blockers@ =~= kept);
        let mut rows = collect_pair_rows(&placed);
        push_spectator_rows(&mut rows, &blockers, config);
        let row_qubits = collect_row_qubits(cz_pairs, &blockers);
        proof {
            lemma_spectator_rows_count(blockers@, config@, blockers@.len());
            lemma_placed_count(cz_pairs@, config@, cz_pairs@.len());
            staged.lemma_run_blockers(seed, draws);
            staged.lemma_blockers_placed(staged.run(draws).blockers);
            layer.lemma_problem_fits(rows@, row_qubits@, blocked@, move_penalty);
        }
        let assigned = mixed_row_hungarian(
            rows.as_slice(),
            slots.as_slice(),
            word_pairs.as_slice(),
            sites_per_word as usize,
            config,
            dist_table,
            &row_qubits,
            blocked,
            transition_targets,
            transition,
            max_loss,
            occupancy,
            move_penalty,
            seed,
        );
        let ghost steps = choose|steps: Seq<i32>| #[trigger]
            is_row_solution(staged.problem(kept), seed, steps, assigned@);
        let found = find_obstacles(
            &assigned,
            cz_pairs,
            &blockers,
            &pair_qubits,
            &row_qubits,
            config,
            arch,
            index,
            accidentals,
            Ghost(staged),
        );
        settled = found.len() == 0;
        join_blockers(&mut blockers, &found, cz_pairs, Ghost(staged));
        targets = assigned;
        passes += 1;
        proof {
            let longer = draws.push(steps);
            assert(longer.drop_last() =~= draws);
            assert forall|n: int| 0 <= n < longer.len() implies ({
                let before = staged.run(#[trigger] longer.take(n));
                let problem = staged.problem(staged.kept(before.blockers));
                &&& !before.settled
                &&& steps_for(seed, problem.matrix(), longer[n])
                &&& problem.is_optimal(longer[n])
            }) by {
                if n < draws.len() {
                    assert(longer.take(n) =~= draws.take(n));
                    assert(longer[n] == draws[n]);
                } else {
                    assert(longer.take(n) =~= draws);
                }
            }
            draws = longer;
        }
    }
    assert(staged.is_unrepaired(seed, draws, targets@));
    targets
}

/// Assignment of pairs together with blockers, see [`assign_pairs_unrepaired`].
/// Where pairs end up too close to each other, it is repaired; see
/// [`repair_pair_separation`](crate::repair::repair_pair_separation).
///
/// With more pairs than positions, this is [`greedy_assign_pairs`]: the repair
/// changes nothing there.
pub fn assign_pairs_with_blockers(
    cz_pairs: &[(u32, u32)],
    config: &Config,
    arch: &ArchSpec,
    index: &LaneIndex,
    dist_table: &DistanceTable,
    blocked: &HashSet<u64>,
    seed: u64,
    transition_targets: Option<&HashMap<u32, u64>>,
    transition: &TransitionCosts,
    max_loss: Option<u32>,
    occupancy: OccupancyCosts,
    move_penalty: u32,
    accidentals: bool,
) -> (targets: Vec<(u32, u64)>)
    requires
        sizes_fit(arch@, cz_pairs@.len(), config@.len()),
    ensures
        staged_of(
            layer_of(
                cz_pairs@,
                config,
                arch,
                dist_table,
                transition_targets,
                transition,
                max_loss,
                occupancy,
            ),
            index,
            blocked,
            move_penalty,
            accidentals,
        ).assigns(seed, targets@),
        ({
            let layer = layer_of(
                cz_pairs@,
                config,
                arch,
                dist_table,
                transition_targets,
                transition,
                max_loss,
                occupancy,
            );
            0 < layer.slots().len() < layer.placed().len() ==> exists|steps: Seq<i32>| #[trigger]
                layer.is_pair_assignment(seed, steps, targets@)
        }),
{
    let ghost layer = layer_of(
        cz_pairs@,
        config,
        arch,
        dist_table,
        transition_targets,
        transition,
        max_loss,
        occupancy,
    );
    let ghost staged = staged_of(layer, index, blocked, move_penalty, accidentals);
    let targets = assign_pairs_unrepaired(
        cz_pairs,
        config,
        arch,
        index,
        dist_table,
        blocked,
        seed,
        transition_targets,
        transition,
        max_loss,
        occupancy,
        move_penalty,
        accidentals,
    );
    let ghost before = targets@;
    let ghost draws = choose|draws: Seq<Seq<i32>>| #[trigger]
        staged.is_unrepaired(seed, draws, before);
    let word_pairs = enumerate_word_pairs(arch);
    let slots = enumerate_slots(word_pairs.as_slice(), arch.sites_per_word() as u32);
    let placed = collect_placed_pairs(cz_pairs, config);
    let finished = finalize_assignment_targets(
        targets,
        cz_pairs,
        placed.as_slice(),
        slots.as_slice(),
        dist_table,
        index,
        blocked,
    );
    proof {
        if placed@.len() == 0 || slots@.len() == 0 {
            assert(before =~= Seq::empty());
            staged.lemma_finished_empty();
        } else if placed@.len() > slots@.len() {
            staged.lemma_crowded_unrepaired(seed, draws[0], before);
            assert(layer.is_pair_assignment(seed, draws[0], finished@));
        }
        assert(staged.is_outcome(seed, draws, finished@));
    }
    finished
}

} // verus!
