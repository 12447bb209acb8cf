//! What an assignment in view of later layers is, layer by layer.

use crate::arch::{ArchSpec, LocationAddr};
use crate::assignment::{Layer, Staged};
use crate::config::{after_moves, Config};
use crate::costs::{OccupancyCosts, TransitionCosts, TransitionModel};
use crate::distance::DistanceTable;
use crate::lane_index::LaneIndex;
use crate::lookahead::{
    lookahead_assign_pairs, plan_of, target_map, Plan,
};
use crate::repair::decoded;
use std::collections::HashSet;
use vstd::prelude::*;

verus! {

/// What the layers have in common.
pub ghost struct Setting {
    pub arch: ArchSpec,
    pub index: LaneIndex,
    pub table: DistanceTable,
    pub blocked: HashSet<u64>,
    pub max_loss: Option<u32>,
    pub occupancy: OccupancyCosts,
    pub move_penalty: u32,
}

impl Setting {
    /// A layer by itself: no next targets, and ways onward cost nothing.
    pub open spec fn alone(
        self,
        pairs: Seq<(u32, u32)>,
        entries: Seq<(u32, LocationAddr)>,
        current: bool,
    ) -> Staged {
        self.in_view(pairs, entries, Map::empty(), TransitionModel::PerHop(0), current)
    }

    /// A layer with next targets in view. Only in the current layer atoms of no
    /// pair that sit across from each other are in the way.
    pub open spec fn in_view(
        self,
        pairs: Seq<(u32, u32)>,
        entries: Seq<(u32, LocationAddr)>,
        next: Map<u32, u64>,
        transition: TransitionModel,
        current: bool,
    ) -> Staged {
        Staged {
            layer: Layer {
                pairs,
                entries,
                arch: self.arch@,
                table: self.table@,
                next,
                transition,
                max_loss: self.max_loss,
                occupancy: self.occupancy,
            },
            lanes: self.index.arch(),
            blocked: self.blocked@,
            move_penalty: self.move_penalty,
            accidentals: current,
        }
    }
}

/// Without later layers, or without a cost for the way to them, the current layer
/// is assigned by itself.
pub proof fn lemma_no_lookahead(
    cz_pairs: &[(u32, u32)],
    config: &Config,
    arch: &ArchSpec,
    index: &LaneIndex,
    dist_table: &DistanceTable,
    blocked: &HashSet<u64>,
    seed: u64,
    future_layers: &[Vec<(u32, u32)>],
    beta: Option<&TransitionCosts>,
    max_loss: Option<u32>,
    occupancy: OccupancyCosts,
    move_penalty: u32,
    targets: Vec<(u32, u64)>,
)
    requires
        call_ensures(
            lookahead_assign_pairs,
            (
                cz_pairs,
                config,
                arch,
                index,
                dist_table,
                blocked,
                seed,
                future_layers,
                beta,
                max_loss,
                occupancy,
                move_penalty,
            ),
            targets,
        ),
        beta is None || future_layers@.len() == 0,
    ensures
        (Setting {
            arch: *arch,
            index: *index,
            table: *dist_table,
            blocked: *blocked,
            max_loss,
            occupancy,
            move_penalty,
        }).alone(cz_pairs@, config@, true).assigns(seed, targets@),
{
    let plan = plan_of(
        cz_pairs@,
        future_layers@,
        config,
        arch,
        index,
        dist_table,
        blocked,
        beta,
        max_loss,
        occupancy,
        move_penalty,
    );
    assert(plan.layers =~= seq![cz_pairs@]);
    plan.lemma_single_layer(seed, targets@);
}

/// With one later layer, the current layer is assigned by itself, then the later
/// one by itself from where that leaves the atoms, and then the current one again
/// with the later targets in view.
pub proof fn lemma_one_layer_ahead(
    cz_pairs: &[(u32, u32)],
    config: &Config,
    arch: &ArchSpec,
    index: &LaneIndex,
    dist_table: &DistanceTable,
    blocked: &HashSet<u64>,
    seed: u64,
    future_layers: &[Vec<(u32, u32)>],
    beta: &TransitionCosts,
    max_loss: Option<u32>,
    occupancy: OccupancyCosts,
    move_penalty: u32,
    targets: Vec<(u32, u64)>,
) -> (passes: (Seq<(u32, u64)>, Seq<(u32, u64)>))
    requires
        call_ensures(
            lookahead_assign_pairs,
            (
                cz_pairs,
                config,
                arch,
                index,
                dist_table,
                blocked,
                seed,
                future_layers,
                Some(beta),
                max_loss,
                occupancy,
                move_penalty,
            ),
            targets,
        ),
        future_layers@.len() == 1,
    ensures
        ({
            let setting = Setting {
                arch: *arch,
                index: *index,
                table: *dist_table,
                blocked: *blocked,
                max_loss,
                occupancy,
                move_penalty,
            };
            let (now, later) = passes;
            let moved = after_moves(config@, decoded(now));
            &&& setting.alone(cz_pairs@, config@, true).assigns(seed, now)
            &&& setting.alone(future_layers@[0]@, moved, false).assigns(seed, later)
            &&& setting.in_view(cz_pairs@, config@, target_map(later), beta@, true).assigns(
                seed,
                targets@,
            )
        }),
{
    let plan = plan_of(
        cz_pairs@,
        future_layers@,
        config,
        arch,
        index,
        dist_table,
        blocked,
        Some(beta),
        max_loss,
        occupancy,
        move_penalty,
    );
    let (forward, refined) = choose|
        forward: Seq<Seq<(u32, u64)>>,
        refined: Seq<Seq<(u32, u64)>>,
    | #[trigger]
        plan.is_two_pass(seed, forward, refined) && targets@ == refined[0];
    assert(plan.layers.len() == 2);
    assert(plan.layers[0] == cz_pairs@);
    assert(plan.layers[1] == future_layers@[0]@);
    assert(plan.is_forward(seed, forward, 0));
    assert(plan.is_forward(seed, forward, 1));
    assert(plan.is_refined(seed, forward, refined, 0));
    assert(refined[1] == forward[1]);
    reveal_with_fuel(Plan::entries_at, 3);
    (forward[0], forward[1])
}

/// With two later layers, all three are assigned in a row, each by itself from
/// where those before it leave the atoms. Then the middle one is assigned again
/// with the targets of the last in view, and the current one with the new targets
/// of the middle one in view.
pub proof fn lemma_two_layers_ahead(
    cz_pairs: &[(u32, u32)],
    config: &Config,
    arch: &ArchSpec,
    index: &LaneIndex,
    dist_table: &DistanceTable,
    blocked: &HashSet<u64>,
    seed: u64,
    future_layers: &[Vec<(u32, u32)>],
    beta: &TransitionCosts,
    max_loss: Option<u32>,
    occupancy: OccupancyCosts,
    move_penalty: u32,
    targets: Vec<(u32, u64)>,
) -> (passes: (Seq<(u32, u64)>, Seq<(u32, u64)>, Seq<(u32, u64)>, Seq<(u32, u64)>))
    requires
        call_ensures(
            lookahead_assign_pairs,
            (
                cz_pairs,
                config,
                arch,
                index,
                dist_table,
                blocked,
                seed,
                future_layers,
                Some(beta),
                max_loss,
                occupancy,
                move_penalty,
            ),
            targets,
        ),
        future_layers@.len() == 2,
    ensures
        ({
            let setting = Setting {
                arch: *arch,
                index: *index,
                table: *dist_table,
                blocked: *blocked,
                max_loss,
                occupancy,
                move_penalty,
            };
            let (now, middle, last, again) = passes;
            let moved = after_moves(config@, decoded(now));
            let moved_twice = after_moves(moved, decoded(middle));
            &&& setting.alone(cz_pairs@, config@, true).assigns(seed, now)
            &&& setting.alone(future_layers@[0]@, moved, false).assigns(seed, middle)
            &&& setting.alone(future_layers@[1]@, moved_twice, false).assigns(seed, last)
            &&& setting.in_view(
                future_layers@[0]@,
                moved,
                target_map(last),
                beta@,
                false,
            ).assigns(seed, again)
            &&& setting.in_view(cz_pairs@, config@, target_map(again), beta@, true).assigns(
                seed,
                targets@,
            )
        }),
{
    let plan = plan_of(
        cz_pairs@,
        future_layers@,
        config,
        arch,
        index,
        dist_table,
        blocked,
        Some(beta),
        max_loss,
        occupancy,
        move_penalty,
    );
    let (forward, refined) = choose|
        forward: Seq<Seq<(u32, u64)>>,
        refined: Seq<Seq<(u32, u64)>>,
    | #[trigger]
        plan.is_two_pass(seed, forward, refined) && targets@ == refined[0];
    assert(plan.layers.len() == 3);
    assert(plan.layers[0] == cz_pairs@);
    assert(plan.layers[1] == future_layers@[0]@);
    assert(plan.layers[2] == future_layers@[1]@);
    assert(plan.is_forward(seed, forward, 0));
    assert(plan.is_forward(seed, forward, 1));
    assert(plan.is_forward(seed, forward, 2));
    assert(plan.is_refined(seed, forward, refined, 0));
    assert(plan.is_refined(seed, forward, refined, 1));
    assert(refined[2] == forward[2]);
    reveal_with_fuel(Plan::entries_at, 4);
    (forward[0], forward[1], forward[2], refined[1])
}

} // verus!
