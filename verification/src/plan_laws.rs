//! What a loose-goal plan holds, stated on its inputs.

use crate::arch::{ArchModel, ArchSpec, LocationAddr};
use crate::config::{distinct_qubits, first_repeat, ConfigError};
use crate::costs::{TransitionCosts, TransitionModel};
use crate::distance::is_distance_table;
use crate::engine::{lists_halves, EntanglingCache, SearchEngine};
use crate::entangling::{
    is_half, is_placement, is_regular, lemma_slots_disjoint, placements_of, position_slots,
};
use crate::lane_index::LaneIndex;
use crate::lookahead::{all_layers, lookahead_assign_pairs, Plan};
use crate::loose_goal::{
    absorb_cleanup, generator_settings, plan_loose_goal, zip_pairs, EntanglingOptions,
    GeneratorSettings, LooseGoalCzPlacement, LoosePlan, MoveSearch, SolveOptions, SolveResult, SolveStatus, LOOKAHEAD_BETA,
    MOVE_PENALTY,
};
use crate::position_laws::{faces, lemma_half_faces, lemma_placements_face};
use std::sync::Arc;
use vstd::prelude::*;

verus! {

/// A way onward is heavier than a move, and a move is not free.
pub proof fn lemma_ways_outweigh_moves(steps: u32)
    requires
        steps > 0,
    ensures
        0 < steps * MOVE_PENALTY < steps * LOOKAHEAD_BETA,
{
    assert(0 < steps * 1 < steps * 2);
}

/// The later layers in view are the first ones, as many as the horizon says.
pub proof fn lemma_clipped_layers(
    options: &EntanglingOptions,
    layers: &[Vec<(u32, u32)>],
    clipped: &[Vec<(u32, u32)>],
)
    requires
        call_ensures(EntanglingOptions::clipped_future_layers, (options, layers), clipped),
    ensures
        clipped@.len() <= options.hungarian_horizon,
        clipped@.len() <= layers@.len(),
        clipped@.len() == options.hungarian_horizon || clipped@.len() == layers@.len(),
        forall|i: int| 0 <= i < clipped@.len() ==> #[trigger] clipped@[i] == layers@[i],
{
}

/// Controls and targets are paired one by one.
pub proof fn lemma_zip_pairs(controls: &[u32], targets: &[u32], pairs: Vec<(u32, u32)>)
    requires
        controls@.len() == targets@.len(),
        call_ensures(zip_pairs, (controls, targets), pairs),
    ensures
        pairs@.len() == controls@.len(),
        forall|i: int|
            0 <= i < pairs@.len() ==> (#[trigger] pairs@[i]).0 == controls@[i] && pairs@[i].1
                == targets@[i],
{
}

/// A search generates its candidates at the same costs as its plan: the layers within
/// the horizon are blended in where there are any.
pub proof fn lemma_generator_settings(
    options: &SolveOptions,
    entangling: &EntanglingOptions,
    cz_pairs: &[(u32, u32)],
    layers: &[Vec<(u32, u32)>],
    clipped: &[Vec<(u32, u32)>],
    settings: GeneratorSettings<'_>,
)
    requires
        call_ensures(generator_settings, (options, entangling, cz_pairs, layers), settings),
        call_ensures(EntanglingOptions::clipped_future_layers, (entangling, layers), clipped),
    ensures
        settings.cz_pairs@ == cz_pairs@,
        settings.lookahead == options.lookahead,
        options.top_c is Some ==> settings.candidates_per_step == options.top_c->0,
        options.top_c is None ==> settings.candidates_per_step == 3,
        settings.max_loss == entangling.max_loss,
        settings.occupancy == entangling.occupancy,
        settings.move_penalty == 1,
        settings.blend is Some <==> layers@.len() > 0 && entangling.hungarian_horizon > 0,
        settings.blend is Some ==> (settings.blend->0).layers@ == clipped@ && (
        settings.blend->0).beta == 2 * settings.move_penalty,
{
}

/// Planning fails exactly where a qubit is placed twice. Else the plan starts where the
/// atoms are, and nothing can go to the blocked locations.
pub proof fn lemma_plan_inputs(
    engine: &SearchEngine,
    options: &EntanglingOptions,
    initial: &[(u32, LocationAddr)],
    cz_pairs: &[(u32, u32)],
    blocked: &[LocationAddr],
    layers: &[Vec<(u32, u32)>],
    plan: Result<LoosePlan, ConfigError>,
    code: u64,
    entry: (u32, LocationAddr),
)
    requires
        call_ensures(
            plan_loose_goal,
            (engine, options, initial, cz_pairs, blocked, layers),
            plan,
        ),
    ensures
        plan is Ok <==> (forall|i: int, j: int|
            0 <= i < j < initial@.len() ==> (#[trigger] initial@[i]).0 != (
            #[trigger] initial@[j]).0),
        plan is Ok ==> {
            let plan = plan->Ok_0;
            &&& plan.root@.contains(entry) <==> initial@.contains(entry)
            &&& plan.blocked@.contains(code) <==> exists|i: int|
                0 <= i < blocked@.len() && (#[trigger] blocked@[i]).code() == code
            &&& plan.goal.pairs() == cz_pairs@
            &&& plan.goal.inner().pairs() == cz_pairs@
            &&& plan.goal.arch() == engine.lane_index().arch()
        },
{
    match plan {
        Ok(plan) => {
            assert(distinct_qubits(initial@));
            if exists|i: int| 0 <= i < blocked@.len() && (#[trigger] blocked@[i]).code() == code {
                let i = choose|i: int|
                    0 <= i < blocked@.len() && (#[trigger] blocked@[i]).code() == code;
                assert(blocked@[i].code() == code);
            }
        },
        Err(ConfigError::DuplicateQubit { qubit_id }) => {
            let j = choose|j: int| first_repeat(initial@, j) && initial@[j].0 == qubit_id;
            let i = choose|k: int| 0 <= k < j && (#[trigger] initial@[k]).0 == initial@[j].0;
            assert(initial@[i].0 == initial@[j].0);
        },
    }
}

/// The lookahead plan whose assignment a loose plan holds.
spec fn whole_plan(
    engine: &SearchEngine,
    options: EntanglingOptions,
    cz_pairs: Seq<(u32, u32)>,
    layers: Seq<Vec<(u32, u32)>>,
    plan: LoosePlan,
) -> Plan {
    Plan {
        layers: all_layers(cz_pairs, options.clipped(layers)),
        entries: plan.root@,
        arch: engine.lane_index().arch(),
        lanes: engine.lane_index().arch(),
        table: engine.derived().dist_table@,
        blocked: plan.blocked@,
        transition: TransitionModel::PerHop(LOOKAHEAD_BETA),
        max_loss: options.max_loss,
        occupancy: options.occupancy,
        move_penalty: MOVE_PENALTY,
    }
}

/// The targets of a plan are those that [`lookahead_assign_pairs`] gives with seed 0
/// for the atoms, the blocked locations and the layers within the horizon, at the costs
/// that the search uses.
pub proof fn lemma_plan_targets(
    engine: &SearchEngine,
    options: &EntanglingOptions,
    initial: &[(u32, LocationAddr)],
    cz_pairs: &[(u32, u32)],
    blocked: &[LocationAddr],
    layers: &[Vec<(u32, u32)>],
    plan: LoosePlan,
    clipped: &[Vec<(u32, u32)>],
    arch: &ArchSpec,
    beta: &TransitionCosts,
    cache: &EntanglingCache,
    index: &LaneIndex,
    targets: Vec<(u32, u64)>,
)
    requires
        call_ensures(
            plan_loose_goal,
            (engine, options, initial, cz_pairs, blocked, layers),
            Ok::<LoosePlan, ConfigError>(plan),
        ),
        call_ensures(EntanglingOptions::clipped_future_layers, (options, layers), clipped),
        call_ensures(SearchEngine::entangling_cache, (engine,), cache),
        call_ensures(SearchEngine::index, (engine,), index),
        call_ensures(LaneIndex::arch_spec, (index,), arch),
        beta@ == TransitionModel::PerHop(2),
        call_ensures(
            lookahead_assign_pairs,
            (
                cz_pairs,
                &plan.root,
                arch,
                index,
                &cache.dist_table,
                &plan.blocked,
                0u64,
                clipped,
                Some(beta),
                options.max_loss,
                options.occupancy,
                1u32,
            ),
            targets,
        ),
    ensures
        plan.targets@ == targets@,
{
    let whole = whole_plan(engine, *options, cz_pairs@, layers@, plan);
    assert(whole.assigns(0, plan.targets@));
    assert(whole.assigns(0, targets@));
    whole.lemma_assignment_unique(plan.targets@, targets@);
}

/// A solved cleanup goes on where the search ended: its layers of moves follow those of
/// the search, its end is the end, and its nodes count as well. A cleanup that failed
/// changes nothing.
pub proof fn lemma_absorb_cleanup(
    result: &mut SolveResult,
    cleanup: Result<SolveResult, ConfigError>,
    k: int,
)
    requires
        call_ensures(absorb_cleanup, (result, cleanup), ()),
    ensures
        final(result).status == old(result).status,
        final(result).deadlocks == old(result).deadlocks,
        match cleanup {
            Ok(done) if done.status == SolveStatus::Solved => {
                let n = old(result).move_layers@.len();
                &&& final(result).move_layers@.len() == n + done.move_layers@.len()
                &&& 0 <= k < n ==> final(result).move_layers@[k] == old(result).move_layers@[k]
                &&& 0 <= k < done.move_layers@.len() ==> final(result).move_layers@[n + k]
                    == done.move_layers@[k]
                &&& final(result).goal_config == done.goal_config
                &&& final(result).nodes_expanded - old(result).nodes_expanded
                    == done.nodes_expanded
            },
            _ => final(result).move_layers == old(result).move_layers && final(result).goal_config
                == old(result).goal_config && final(result).nodes_expanded == old(
                result,
            ).nodes_expanded,
        },
{
}

/// An engine knows distances to exactly the locations that face another one, at sites that
/// words have. Two locations are a placement, and partners, exactly where they face each
/// other there.
pub proof fn lemma_engine_cache(
    engine: &SearchEngine,
    cache: &EntanglingCache,
    a: LocationAddr,
    b: LocationAddr,
)
    requires
        call_ensures(SearchEngine::entangling_cache, (engine,), cache),
        is_regular(engine.lane_index().arch()),
        a.fits(),
        b.fits(),
    ensures
        ({
            let arch = engine.lane_index().arch();
            let met = faces(arch, a, b) && a.site_id < arch.site_count();
            &&& cache.dist_table@.contains_key(a.code()) <==> a.site_id < arch.site_count()
                && exists|c: LocationAddr| #[trigger] faces(arch, a, c)
            &&& cache.ent_set@.contains((a.code(), b.code())) <==> met
            &&& cache.partner_map@.contains_pair(a.code(), b.code()) <==> met
        }),
{
    let arch = engine.lane_index().arch();
    let slots = position_slots(arch);
    lemma_placements_face(arch, a, b);
    lemma_half_faces(arch, a);
    let locs = choose|locs: Seq<u64>| #[trigger]
        lists_halves(arch, locs) && is_distance_table(
            engine.lane_index().lanes(),
            locs,
            cache.dist_table@,
        );
    assert(locs.contains(a.code()) <==> is_half(slots, a.code()));
    assert(placements_of(slots).contains((a.code(), b.code())) <==> is_placement(
        slots,
        a.code(),
        b.code(),
    ));
    if faces(arch, a, b) && a.site_id < arch.site_count() {
        assert(cache.ent_set@.contains((a.code(), b.code())));
        let partner = cache.partner_map@[a.code()];
        assert(cache.ent_set@.contains((a.code(), partner)));
        assert(is_placement(slots, a.code(), partner));
        lemma_one_partner(arch, a, b, partner);
    }
}

/// In a regular architecture a location has one partner.
proof fn lemma_one_partner(arch: ArchModel, a: LocationAddr, b: LocationAddr, partner: u64)
    requires
        is_regular(arch),
        is_placement(position_slots(arch), a.code(), b.code()),
        is_placement(position_slots(arch), a.code(), partner),
    ensures
        partner == b.code(),
{
    let slots = position_slots(arch);
    let i = choose|i: int|
        0 <= i < slots.len() && (((#[trigger] slots[i]).loc_a == a.code() && slots[i].loc_b
            == b.code()) || (slots[i].loc_a == b.code() && slots[i].loc_b == a.code()));
    let j = choose|j: int|
        0 <= j < slots.len() && (((#[trigger] slots[j]).loc_a == a.code() && slots[j].loc_b
            == partner) || (slots[j].loc_a == partner && slots[j].loc_b == a.code()));
    lemma_slots_disjoint(arch, i, j);
}

/// A placement plans with its own engine and options.
pub proof fn lemma_plan_pairs(
    placement: &LooseGoalCzPlacement,
    engine: Arc<SearchEngine>,
    search: MoveSearch,
    options: EntanglingOptions,
    initial: &[(u32, LocationAddr)],
    cz_pairs: &[(u32, u32)],
    blocked: &[LocationAddr],
    layers: &[Vec<(u32, u32)>],
    plan: LoosePlan,
    other: LoosePlan,
)
    requires
        call_ensures(LooseGoalCzPlacement::new, (engine, search, options), *placement),
        call_ensures(
            LooseGoalCzPlacement::plan_pairs,
            (placement, initial, cz_pairs, blocked, layers),
            Ok::<LoosePlan, ConfigError>(plan),
        ),
        call_ensures(
            plan_loose_goal,
            (&*engine, &options, initial, cz_pairs, blocked, layers),
            Ok::<LoosePlan, ConfigError>(other),
        ),
        plan.root@ == other.root@,
    ensures
        plan.blocked@ == other.blocked@,
        plan.targets@ == other.targets@,
        plan.goal.pairs() == other.goal.pairs(),
        plan.goal.inner().placements() == other.goal.inner().placements(),
{
    let whole = whole_plan(&*engine, options, cz_pairs@, layers@, plan);
    assert(whole.assigns(0, plan.targets@));
    assert(whole.assigns(0, other.targets@));
    whole.lemma_assignment_unique(plan.targets@, other.targets@);
}

/// Where nothing is said, atoms that stay on both halves of a position cost as much as on
/// each of them, rows are not spread, and no later layer is looked at.
pub proof fn lemma_default_options(
    options: EntanglingOptions,
    search: SolveOptions,
    layers: &[Vec<(u32, u32)>],
    clipped: &[Vec<(u32, u32)>],
    n: usize,
)
    requires
        call_ensures(EntanglingOptions::default, (), options),
        call_ensures(EntanglingOptions::clipped_future_layers, (&options, layers), clipped),
        call_ensures(SolveOptions::default, (), search),
        call_ensures(SolveOptions::candidates_per_step, (&search,), n),
    ensures
        options.max_loss is None,
        options.occupancy.one == MOVE_PENALTY,
        options.occupancy.both == options.occupancy.one + options.occupancy.one,
        clipped@.len() == 0,
        search.strategy is AStar,
        !search.lookahead,
        n == 3,
{
}

} // verus!
