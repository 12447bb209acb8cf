//! Loose-goal CZ placement: every pair must occupy some valid entangling
//! position, not one that was decided before.
//!
//! The search for moves is done elsewhere. [`plan_loose_goal`] says what to
//! search for, [`cleanup_targets`] what to do after the search, and
//! [`absorb_cleanup`] how the two results make up one.

use crate::accidental::{find_accidental_cz, Crossings};
use crate::arch::{ArchModel, LocationAddr};
use crate::assignment::sizes_fit;
use crate::config::{
    distinct_qubits, first_repeat, occupant_in, ordered_by_qubit, relocated, Config, ConfigError,
};
use crate::costs::{OccupancyCosts, TransitionCosts, TransitionModel};
use crate::engine::SearchEngine;
use crate::entangling::is_partner_map;
use crate::goals::{collect_pair_qubits, pair_qubits, EntanglingConstraintGoal, PairSeparationGoal};
use crate::lane_index::{starts_at, Lane, LaneIndex};
use crate::lookahead::{all_layers, lookahead_assign_pairs, Plan};
use crate::seqs::{copied, first_where, lemma_first_cases, lemma_first_found, lemma_first_none};
use std::collections::HashSet;
use std::sync::Arc;
use vstd::prelude::*;

verus! {

broadcast use vstd::std_specs::hash::group_hash_axioms;

/// Cost of moving an atom at all. Slightly biases the assignment toward leaving
/// atoms where they are.
pub const MOVE_PENALTY: u32 = 1;

/// Cost of a hop on the way to the next layer. Heavier than the move penalty,
/// so that later layers steer each layer.
pub const LOOKAHEAD_BETA: u32 = 2;

/// How an inner search of a cascade goes.
#[derive(Clone, Copy, Debug, PartialEq, Eq, Structural)]
pub enum InnerStrategy {
    Ids,
}

/// How a search goes.
#[derive(Clone, Copy, Debug, PartialEq, Eq, Structural)]
pub enum Strategy {
    AStar,
    Ids,
    Cascade { inner: InnerStrategy },
    Entropy,
}

/// Tuning knobs of a search.
#[derive(Clone, Copy, Debug, PartialEq, Eq, Structural)]
pub struct SolveOptions {
    pub strategy: Strategy,
    pub lookahead: bool,
    /// Candidates per step.
    pub top_c: Option<usize>,
}

/// Candidates per step where nothing else is said.
pub const DEFAULT_TOP_C: usize = 3;

impl SolveOptions {
    /// Candidates per step.
    pub fn candidates_per_step(&self) -> (n: usize)
        ensures
            n == match self.top_c {
                Some(n) => n,
                None => DEFAULT_TOP_C,
            },
    {
        match self.top_c {
            Some(n) => n,
            None => DEFAULT_TOP_C,
        }
    }
}

impl Default for SolveOptions {
    fn default() -> (options: SolveOptions)
        ensures
            options == (SolveOptions { strategy: Strategy::AStar, lookahead: false, top_c: None }),
    {
        SolveOptions { strategy: Strategy::AStar, lookahead: false, top_c: None }
    }
}

/// A search algorithm with its tuning knobs.
#[derive(Clone, Copy, Debug, PartialEq, Eq, Structural)]
pub struct MoveSearch {
    pub options: SolveOptions,
}

/// Tuning knobs of the assignment.
#[derive(Clone, Copy, Debug, PartialEq, Eq, Structural)]
pub struct EntanglingOptions {
    /// Largest cost increase by which a row may leave a crowded word pair.
    pub max_loss: Option<u32>,
    /// Cost of positions that spectators hold.
    pub occupancy: OccupancyCosts,
    /// How many later layers are looked at.
    pub hungarian_horizon: usize,
}

impl Default for EntanglingOptions {
    fn default() -> (options: EntanglingOptions)
        ensures
            options == (EntanglingOptions {
                max_loss: None,
                occupancy: (OccupancyCosts { one: 1, both: 2 }),
                hungarian_horizon: 0,
            }),
    {
        EntanglingOptions {
            max_loss: None,
            occupancy: OccupancyCosts { one: 1, both: 2 },
            hungarian_horizon: 0,
        }
    }
}

impl EntanglingOptions {
    /// The later layers within the horizon.
    pub open spec fn clipped(self, layers: Seq<Vec<(u32, u32)>>) -> Seq<Vec<(u32, u32)>> {
        if layers.len() <= self.hungarian_horizon {
            layers
        } else {
            layers.take(self.hungarian_horizon as int)
        }
    }

    /// The later layers within the horizon.
    pub fn clipped_future_layers<'a>(&self, layers: &'a [Vec<(u32, u32)>]) -> (clipped: &'a [Vec<
        (u32, u32),
    >])
        ensures
            clipped@ == self.clipped(layers@),
    {
        if layers.len() <= self.hungarian_horizon {
            layers
        } else {
            vstd::slice::slice_subrange(layers, 0, self.hungarian_horizon)
        }
    }
}

/// The later layers that a search assigns its pairs in view of, and the cost of
/// a hop on the way to them.
#[derive(Clone, Copy, Debug)]
pub struct LayerBlend<'a> {
    pub layers: &'a [Vec<(u32, u32)>],
    pub beta: u32,
}

/// What a search generates its candidates with. It assigns the pairs anew for
/// every seed, at these costs.
#[derive(Clone, Copy, Debug)]
pub struct GeneratorSettings<'a> {
    /// The pairs that are assigned.
    pub cz_pairs: &'a [(u32, u32)],
    /// Whether candidates are scored with lookahead.
    pub lookahead: bool,
    pub candidates_per_step: usize,
    pub max_loss: Option<u32>,
    pub occupancy: OccupancyCosts,
    pub move_penalty: u32,
    /// Without later layers the pairs are assigned by themselves.
    pub blend: Option<LayerBlend<'a>>,
}

/// What a search for these pairs generates its candidates with: the costs of the
/// assignment's options, the move penalty, and a blend of the later layers where
/// the horizon leaves any.
pub fn generator_settings<'a>(
    options: &SolveOptions,
    entangling_options: &EntanglingOptions,
    cz_pairs: &'a [(u32, u32)],
    future_cz_layers: &'a [Vec<(u32, u32)>],
) -> (settings: GeneratorSettings<'a>)
    ensures
        settings.cz_pairs@ == cz_pairs@,
        settings.lookahead == options.lookahead,
        settings.candidates_per_step == match options.top_c {
            Some(n) => n,
            None => DEFAULT_TOP_C,
        },
        settings.max_loss == entangling_options.max_loss,
        settings.occupancy == entangling_options.occupancy,
        settings.move_penalty == MOVE_PENALTY,
        match settings.blend {
            Some(blend) => {
                &&& entangling_options.clipped(future_cz_layers@).len() > 0
                &&& blend.layers@ == entangling_options.clipped(future_cz_layers@)
                &&& blend.beta == LOOKAHEAD_BETA
            },
            None => entangling_options.clipped(future_cz_layers@).len() == 0,
        },
{
    let layers = entangling_options.clipped_future_layers(future_cz_layers);
    GeneratorSettings {
        cz_pairs,
        lookahead: options.lookahead,
        candidates_per_step: options.candidates_per_step(),
        max_loss: entangling_options.max_loss,
        occupancy: entangling_options.occupancy,
        move_penalty: MOVE_PENALTY,
        blend: if layers.len() > 0 {
            Some(LayerBlend { layers, beta: LOOKAHEAD_BETA })
        } else {
            None
        },
    }
}

/// Outcome of a search.
#[derive(Clone, Copy, Debug, PartialEq, Eq, Structural)]
pub enum SolveStatus {
    Solved,
    Unsolvable,
    BudgetExceeded,
}

/// Result of a search.
#[derive(Debug)]
pub struct SolveResult {
    pub status: SolveStatus,
    /// The packed lanes of each layer of moves.
    pub move_layers: Vec<Vec<u64>>,
    pub goal_config: Config,
    pub nodes_expanded: u32,
    pub deadlocks: u32,
}

/// CZ placement that discovers entangling positions and the routing to reach
/// them at once.
pub struct LooseGoalCzPlacement {
    engine: Arc<SearchEngine>,
    search: MoveSearch,
    entangling_options: EntanglingOptions,
}

impl LooseGoalCzPlacement {
    /// The architecture-bound state.
    pub closed spec fn the_engine(self) -> Arc<SearchEngine> {
        self.engine
    }

    /// The search algorithm.
    pub closed spec fn the_search(self) -> MoveSearch {
        self.search
    }

    /// The knobs of the assignment.
    pub closed spec fn the_options(self) -> EntanglingOptions {
        self.entangling_options
    }

    /// Compose a placement from its three pieces.
    pub fn new(
        engine: Arc<SearchEngine>,
        search: MoveSearch,
        entangling_options: EntanglingOptions,
    ) -> (placement: LooseGoalCzPlacement)
        ensures
            placement.the_engine() == engine,
            placement.the_search() == search,
            placement.the_options() == entangling_options,
    {
        LooseGoalCzPlacement { engine, search, entangling_options }
    }

    /// Borrow the engine.
    pub fn engine(&self) -> (engine: &Arc<SearchEngine>)
        ensures
            *engine == self.the_engine(),
    {
        &self.engine
    }

    /// Borrow the search configuration.
    pub fn search(&self) -> (search: &MoveSearch)
        ensures
            *search == self.the_search(),
    {
        &self.search
    }

    /// Borrow the knobs of the assignment.
    pub fn entangling_options(&self) -> (options: &EntanglingOptions)
        ensures
            *options == self.the_options(),
    {
        &self.entangling_options
    }

    /// Plan the search for a list of pairs; see [`plan_loose_goal`].
    pub fn plan_pairs(
        &self,
        initial: &[(u32, LocationAddr)],
        cz_pairs: &[(u32, u32)],
        blocked: &[LocationAddr],
        future_cz_layers: &[Vec<(u32, u32)>],
    ) -> (plan: Result<LoosePlan, ConfigError>)
        requires
            sizes_fit(self.the_engine().lane_index().arch(), cz_pairs@.len(), initial@.len()),
            forall|i: int|
                0 <= i < future_cz_layers@.len() ==> sizes_fit(
                    self.the_engine().lane_index().arch(),
                    (#[trigger] future_cz_layers@[i])@.len(),
                    initial@.len(),
                ),
        ensures
            is_loose_plan(
                &*self.the_engine(),
                &self.the_options(),
                initial@,
                cz_pairs@,
                blocked@,
                future_cz_layers@,
                plan,
            ),
    {
        plan_loose_goal(
            &self.engine,
            &self.entangling_options,
            initial,
            cz_pairs,
            blocked,
            future_cz_layers,
        )
    }
}

/// Pairs of a control and a target each.
pub open spec fn zipped(controls: Seq<u32>, targets: Seq<u32>) -> Seq<(u32, u32)> {
    Seq::new(controls.len(), |i: int| (controls[i], targets[i]))
}

/// Pair controls with targets, of which there are as many.
pub fn zip_pairs(controls: &[u32], targets: &[u32]) -> (pairs: Vec<(u32, u32)>)
    requires
        controls@.len() == targets@.len(),
    ensures
        pairs@ == zipped(controls@, targets@),
{
    let mut pairs: Vec<(u32, u32)> = Vec::new();
    let mut i: usize = 0;
    while i < controls.len()
        invariant
            i <= controls@.len(),
            controls@.len() == targets@.len(),
            pairs@ == zipped(controls@, targets@).take(i as int),
        decreases controls.len() - i,
    {
        pairs.push((controls[i], targets[i]));
        i += 1;
        assert(pairs@ =~= zipped(controls@, targets@).take(i as int));
    }
    assert(pairs@ =~= zipped(controls@, targets@));
    pairs
}

/// What to search for.
pub struct LoosePlan {
    /// Where the atoms are.
    pub root: Config,
    /// When the search is done.
    pub goal: PairSeparationGoal<EntanglingConstraintGoal>,
    /// Packed locations that nothing can move to.
    pub blocked: HashSet<u64>,
    /// Targets that the search steers toward.
    pub targets: Vec<(u32, u64)>,
}

/// The packed form of locations.
pub open spec fn codes(locs: Seq<LocationAddr>) -> Set<u64> {
    Set::new(|code: u64| exists|i: int| 0 <= i < locs.len() && (#[trigger] locs[i]).code() == code)
}

fn collect_codes(locs: &[LocationAddr]) -> (set: HashSet<u64>)
    ensures
        set@ == codes(locs@),
{
    let mut set: HashSet<u64> = HashSet::new();
    let mut i: usize = 0;
    while i < locs.len()
        invariant
            i <= locs@.len(),
            forall|code: u64| #[trigger]
                set@.contains(code) <==> exists|k: int|
                    0 <= k < i && (#[trigger] locs@[k]).code() == code,
        decreases locs.len() - i,
    {
        set.insert(locs[i].encode());
        i += 1;
    }
    assert(set@ =~= codes(locs@));
    set
}

/// What [`plan_loose_goal`] returns: an error where a qubit is placed twice,
/// else the placed atoms, the goal for the pairs, the blocked locations, and
/// the assignment of the pairs in view of the later layers within the horizon.
pub open spec fn is_loose_plan(
    engine: &SearchEngine,
    options: &EntanglingOptions,
    initial: Seq<(u32, LocationAddr)>,
    cz_pairs: Seq<(u32, u32)>,
    blocked: Seq<LocationAddr>,
    future_layers: Seq<Vec<(u32, u32)>>,
    plan: Result<LoosePlan, ConfigError>,
) -> bool {
    match plan {
        Err(ConfigError::DuplicateQubit { qubit_id }) => exists|i: int|
            first_repeat(initial, i) && initial[i].0 == qubit_id,
        Ok(plan) => {
            &&& distinct_qubits(initial)
            &&& ordered_by_qubit(plan.root@)
            &&& plan.root@.len() == initial.len()
            &&& forall|entry: (u32, LocationAddr)| #[trigger]
                plan.root@.contains(entry) <==> initial.contains(entry)
            &&& plan.goal.pairs() == cz_pairs
            &&& plan.goal.arch() == engine.lane_index().arch()
            &&& plan.goal.inner().pairs() == cz_pairs
            &&& plan.goal.inner().placements() == engine.derived().ent_set@
            &&& is_partner_map(plan.goal.inner().placements(), plan.goal.inner().partners())
            &&& plan.blocked@ == codes(blocked)
            &&& loose_targets(engine, options, cz_pairs, future_layers, plan)
        },
    }
}

/// The targets are those of the assignment with seed 0.
pub open spec fn loose_targets(
    engine: &SearchEngine,
    options: &EntanglingOptions,
    cz_pairs: Seq<(u32, u32)>,
    future_layers: Seq<Vec<(u32, u32)>>,
    plan: LoosePlan,
) -> bool {
    (Plan {
        layers: all_layers(cz_pairs, options.clipped(future_layers)),
        entries: plan.root@,
        arch: engine.lane_index().arch(),
        lanes: engine.lane_index().arch(),
        table: engine.derived().dist_table@,
        blocked: plan.blocked@,
        transition: TransitionModel::PerHop(LOOKAHEAD_BETA),
        max_loss: options.max_loss,
        occupancy: options.occupancy,
        move_penalty: MOVE_PENALTY,
    }).assigns(0, plan.targets@)
}

/// Plan a loose-goal search: the start, the goal, and the targets to steer
/// toward.
pub fn plan_loose_goal(
    engine: &SearchEngine,
    options: &EntanglingOptions,
    initial: &[(u32, LocationAddr)],
    cz_pairs: &[(u32, u32)],
    blocked: &[LocationAddr],
    future_cz_layers: &[Vec<(u32, u32)>],
) -> (plan: Result<LoosePlan, ConfigError>)
    requires
        sizes_fit(engine.lane_index().arch(), cz_pairs@.len(), initial@.len()),
        forall|i: int|
            0 <= i < future_cz_layers@.len() ==> sizes_fit(
                engine.lane_index().arch(),
                (#[trigger] future_cz_layers@[i])@.len(),
                initial@.len(),
            ),
    ensures
        is_loose_plan(
            engine,
            options,
            initial@,
            cz_pairs@,
            blocked@,
            future_cz_layers@,
            plan,
        ),
{
    let root = match Config::new(initial) {
        Ok(root) => root,
        Err(error) => {
            return Err(error);
        },
    };
    let index = engine.index();
    let cache = engine.entangling_cache();
    let goal = PairSeparationGoal::new(
        EntanglingConstraintGoal::new(cz_pairs, cache.ent_set.clone()),
        cz_pairs,
        index,
    );
    let blocked = collect_codes(blocked);
    let clipped = options.clipped_future_layers(future_cz_layers);
    let beta = TransitionCosts::PerHop(LOOKAHEAD_BETA);
    proof {
        assert forall|i: int| 0 <= i < clipped@.len() implies sizes_fit(
            index.arch(),
            (#[trigger] clipped@[i])@.len(),
            initial@.len(),
        ) by {
            assert(clipped@[i] == future_cz_layers@[i]);
        }
    }
    let targets = lookahead_assign_pairs(
        cz_pairs,
        &root,
        index.arch_spec(),
        index,
        &cache.dist_table,
        &blocked,
        0,
        clipped,
        Some(&beta),
        options.max_loss,
        options.occupancy,
        MOVE_PENALTY,
    );
    Ok(LoosePlan { root, goal, blocked, targets })
}

/// What cleaning up after a search looks at.
pub ghost struct Cleanup {
    pub entries: Seq<(u32, LocationAddr)>,
    pub cz_qubits: Set<u32>,
    pub arch: ArchModel,
    pub lanes: Seq<Lane>,
}

impl Cleanup {
    /// The lane leads to a free location whose CZ partner is free too, or held
    /// by a qubit of a pair.
    pub open spec fn is_exit(self) -> spec_fn(Lane) -> bool {
        |lane: Lane|
            {
                &&& occupant_in(self.entries, lane.dst) is None
                &&& match self.arch.cz_partner(lane.dst) {
                    Some(partner) => match occupant_in(self.entries, partner) {
                        Some(holder) => self.cz_qubits.contains(holder),
                        None => true,
                    },
                    None => true,
                }
            }
    }

    /// Where a spectator at `loc` can go: along its first exit.
    pub open spec fn way_out(self, loc: LocationAddr) -> Option<LocationAddr> {
        let outgoing = self.lanes.filter(starts_at(loc));
        match first_where(outgoing, self.is_exit()) {
            Some(i) => Some(outgoing[i].dst),
            None => None,
        }
    }

    /// The targets after the first `n` movers have got theirs. A mover without
    /// a way out stays.
    pub open spec fn targets(self, movers: Seq<(u32, LocationAddr)>, n: nat) -> Seq<
        (u32, LocationAddr),
    >
        decreases n,
    {
        if n == 0 {
            self.entries
        } else {
            let rest = self.targets(movers, (n - 1) as nat);
            match self.way_out(movers[n - 1].1) {
                Some(dst) => relocated(rest, movers[n - 1].0, dst),
                None => rest,
            }
        }
    }

    /// A way out is free, and nobody but a qubit of a pair is across from it: a
    /// spectator that goes there is in no accidental CZ with an atom that
    /// stays.
    pub proof fn lemma_way_out_is_safe(self, loc: LocationAddr, dst: LocationAddr)
        requires
            self.way_out(loc) == Some(dst),
        ensures
            occupant_in(self.entries, dst) is None,
            match self.arch.cz_partner(dst) {
                Some(partner) => occupant_in(self.entries, partner) matches Some(holder)
                    ==> self.cz_qubits.contains(holder),
                None => true,
            },
    {
        let outgoing = self.lanes.filter(starts_at(loc));
        lemma_first_cases(outgoing, self.is_exit());
    }

    /// Only movers get another target than where they are.
    pub proof fn lemma_others_stay(self, movers: Seq<(u32, LocationAddr)>, n: nat, k: int)
        requires
            n <= movers.len(),
            0 <= k < self.entries.len(),
            forall|i: int| 0 <= i < n ==> (#[trigger] movers[i]).0 != self.entries[k].0,
        ensures
            self.targets(movers, n).len() == self.entries.len(),
            self.targets(movers, n)[k] == self.entries[k],
        decreases n,
    {
        if n > 0 {
            self.lemma_others_stay(movers, (n - 1) as nat, k);
            assert(movers[n - 1].0 != self.entries[k].0);
        }
    }
}

fn find_way_out(
    config: &Config,
    cz_qubits: &HashSet<u32>,
    index: &LaneIndex,
    loc: LocationAddr,
) -> (dst: Option<LocationAddr>)
    ensures
        dst == (Cleanup {
            entries: config@,
            cz_qubits: cz_qubits@,
            arch: index.arch(),
            lanes: index.lanes(),
        }).way_out(loc),
{
    let ghost model = Cleanup {
        entries: config@,
        cz_qubits: cz_qubits@,
        arch: index.arch(),
        lanes: index.lanes(),
    };
    let outgoing = index.outgoing_lanes(loc);
    let mut i: usize = 0;
    while i < outgoing.len()
        invariant
            i <= outgoing.len(),
            outgoing@ == index.lanes().filter(starts_at(loc)),
            model == (Cleanup {
                entries: config@,
                cz_qubits: cz_qubits@,
                arch: index.arch(),
                lanes: index.lanes(),
            }),
            forall|k: int| 0 <= k < i ==> !model.is_exit()(#[trigger] outgoing@[k]),
        decreases outgoing.len() - i,
    {
        let dst = outgoing[i].dst;
        if config.qubit_at(dst).is_none() {
            let safe = match index.arch_spec().get_cz_partner(&dst) {
                Some(partner) => match config.qubit_at(partner) {
                    Some(holder) => cz_qubits.contains(&holder),
                    None => true,
                },
                None => true,
            };
            if safe {
                proof {
                    lemma_first_found(outgoing@, model.is_exit(), i as int);
                }
                return Some(dst);
            }
        }
        i += 1;
    }
    proof {
        lemma_first_none(outgoing@, model.is_exit());
    }
    None
}

/// The movers that cleaning up has to do with: one spectator of each accidental
/// CZ.
pub open spec fn cleanup_movers(
    engine: &SearchEngine,
    config: &Config,
    cz_pairs: Seq<(u32, u32)>,
) -> Seq<(u32, LocationAddr)> {
    (Crossings {
        entries: config@,
        cz_qubits: pair_qubits(cz_pairs),
        partners: engine.derived().partner_map@,
    }).movers(config@.len())
}

/// The cleanup after a search that ended in `config`.
pub open spec fn cleanup_of(
    engine: &SearchEngine,
    config: &Config,
    cz_pairs: Seq<(u32, u32)>,
) -> Cleanup {
    Cleanup {
        entries: config@,
        cz_qubits: pair_qubits(cz_pairs),
        arch: engine.lane_index().arch(),
        lanes: engine.lane_index().lanes(),
    }
}

/// Targets for a follow-on search that moves spectators out of accidental CZ
/// positions, where a search succeeded and left any.
pub fn cleanup_targets(
    engine: &SearchEngine,
    cz_pairs: &[(u32, u32)],
    result: &SolveResult,
) -> (targets: Option<Vec<(u32, LocationAddr)>>)
    ensures
        match targets {
            Some(targets) => {
                &&& result.status == SolveStatus::Solved
                &&& cleanup_movers(engine, &result.goal_config, cz_pairs@).len() > 0
                &&& targets@ == cleanup_of(engine, &result.goal_config, cz_pairs@).targets(
                    cleanup_movers(engine, &result.goal_config, cz_pairs@),
                    cleanup_movers(engine, &result.goal_config, cz_pairs@).len(),
                )
            },
            None => result.status != SolveStatus::Solved || cleanup_movers(
                engine,
                &result.goal_config,
                cz_pairs@,
            ).len() == 0,
        },
{
    if result.status != SolveStatus::Solved {
        return None;
    }
    let config = &result.goal_config;
    let cz_qubits = collect_pair_qubits(cz_pairs);
    let movers = find_accidental_cz(config, &cz_qubits, &engine.entangling_cache().partner_map);
    if movers.len() == 0 {
        return None;
    }
    let ghost model = cleanup_of(engine, config, cz_pairs@);
    let mut targets = copied(config.entries());
    let mut n: usize = 0;
    while n < movers.len()
        invariant
            n <= movers.len(),
            model == cleanup_of(engine, config, cz_pairs@),
            cz_qubits@ == pair_qubits(cz_pairs@),
            targets@ == model.targets(movers@, n as nat),
        decreases movers.len() - n,
    {
        let (qubit_id, loc) = movers[n];
        match find_way_out(config, &cz_qubits, engine.index(), loc) {
            Some(dst) => {
                relocate(&mut targets, qubit_id, dst);
            },
            None => {},
        }
        n += 1;
    }
    Some(targets)
}

fn relocate(targets: &mut Vec<(u32, LocationAddr)>, qubit_id: u32, dst: LocationAddr)
    ensures
        final(targets)@ == relocated(old(targets)@, qubit_id, dst),
{
    let ghost goal = relocated(targets@, qubit_id, dst);
    let mut i: usize = 0;
    while i < targets.len()
        invariant
            i <= targets.len(),
            targets@.len() == old(targets)@.len(),
            goal == relocated(old(targets)@, qubit_id, dst),
            forall|k: int| 0 <= k < i ==> #[trigger] targets@[k] == goal[k],
            forall|k: int| i <= k < targets@.len() ==> #[trigger] targets@[k] == old(targets)@[k],
        decreases targets.len() - i,
    {
        if targets[i].0 == qubit_id {
            targets.set(i, (qubit_id, dst));
        }
        i += 1;
    }
    assert(targets@ =~= goal);
}

/// Append the moves of a cleanup to those of the search, where the cleanup
/// succeeded; else the result of the search stands.
pub fn absorb_cleanup(result: &mut SolveResult, cleanup: Result<SolveResult, ConfigError>)
    requires
        match cleanup {
            Ok(cleanup) => cleanup.status == SolveStatus::Solved ==> old(result).nodes_expanded
                + cleanup.nodes_expanded <= u32::MAX,
            Err(_) => true,
        },
    ensures
        final(result).status == old(result).status,
        final(result).deadlocks == old(result).deadlocks,
        match cleanup {
            Ok(cleanup) if cleanup.status == SolveStatus::Solved => {
                &&& final(result).move_layers@ == old(result).move_layers@ + cleanup.move_layers@
                &&& final(result).goal_config == cleanup.goal_config
                &&& final(result).nodes_expanded == old(result).nodes_expanded
                    + cleanup.nodes_expanded
            },
            _ => *final(result) == *old(result),
        },
{
    match cleanup {
        Ok(cleanup) => {
            if cleanup.status == SolveStatus::Solved {
                let mut layers = cleanup.move_layers;
                result.move_layers.append(&mut layers);
                result.goal_config = cleanup.goal_config;
                result.nodes_expanded = result.nodes_expanded + cleanup.nodes_expanded;
            }
        },
        Err(_) => {},
    }
}

} // verus!
