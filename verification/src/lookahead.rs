//! Assignment of a layer in view of the layers after it.

use crate::arch::{ArchModel, ArchSpec, LocationAddr};
use crate::assignment::{
    assign_pairs_with_blockers, layer_of, sizes_fit, staged_of, Layer, Staged,
};
use crate::config::{after_moves, lemma_moves_keep_qubits, Config};
use crate::costs::{OccupancyCosts, TransitionCosts, TransitionModel};
use crate::distance::DistanceTable;
use crate::lane_index::LaneIndex;
use crate::repair::decoded;
use std::collections::{HashMap, HashSet};
use vstd::prelude::*;

verus! {

broadcast use vstd::std_specs::hash::group_hash_axioms;

/// Targets by qubit; of several for one qubit the last.
pub open spec fn target_map(targets: Seq<(u32, u64)>) -> Map<u32, u64>
    decreases targets.len(),
{
    if targets.len() == 0 {
        Map::empty()
    } else {
        target_map(targets.drop_last()).insert(targets.last().0, targets.last().1)
    }
}

/// Collect targets by qubit; of several for one qubit the last.
pub fn collect_target_map(targets: &[(u32, u64)]) -> (map: HashMap<u32, u64>)
    ensures
        map@ == target_map(targets@),
{
    let mut map: HashMap<u32, u64> = HashMap::new();
    let mut i: usize = 0;
    assert(targets@.take(0) =~= seq![]);
    while i < targets.len()
        invariant
            i <= targets@.len(),
            map@ == target_map(targets@.take(i as int)),
        decreases targets.len() - i,
    {
        map.insert(targets[i].0, targets[i].1);
        i += 1;
        assert(targets@.take(i as int).drop_last() =~= targets@.take(i - 1));
    }
    assert(targets@.take(i as int) =~= targets@);
    map
}

/// Move every qubit to its target.
pub fn with_targets(config: &Config, targets: &[(u32, u64)]) -> (moved: Config)
    ensures
        moved@ == after_moves(config@, decoded(targets@)),
        moved@.len() == config@.len(),
{
    let mut moves: Vec<(u32, LocationAddr)> = Vec::new();
    let mut i: usize = 0;
    while i < targets.len()
        invariant
            i <= targets@.len(),
            moves@ == decoded(targets@).take(i as int),
        decreases targets.len() - i,
    {
        moves.push((targets[i].0, LocationAddr::decode(targets[i].1)));
        i += 1;
        assert(decoded(targets@).take(i as int) =~= decoded(targets@).take(i - 1).push(
            decoded(targets@)[i - 1],
        ));
    }
    proof {
        assert(moves@ =~= decoded(targets@));
        lemma_moves_keep_qubits(config@, moves@);
    }
    config.with_moves(moves.as_slice())
}

/// Several layers in a row, and what their assignment depends on.
pub ghost struct Plan {
    /// The pairs of each layer, the current one first.
    pub layers: Seq<Seq<(u32, u32)>>,
    /// Where the atoms are now.
    pub entries: Seq<(u32, LocationAddr)>,
    pub arch: ArchModel,
    pub lanes: ArchModel,
    pub table: Map<u64, Map<u64, u32>>,
    pub blocked: Set<u64>,
    /// Cost of the way from one layer to the next.
    pub transition: TransitionModel,
    pub max_loss: Option<u32>,
    pub occupancy: OccupancyCosts,
    pub move_penalty: u32,
}

impl Plan {
    /// Where the atoms are before layer `i`, when the layers before it have
    /// sent them to the given targets.
    pub open spec fn entries_at(self, targets: Seq<Seq<(u32, u64)>>, i: nat) -> Seq<
        (u32, LocationAddr),
    >
        decreases i,
    {
        if i == 0 {
            self.entries
        } else {
            after_moves(self.entries_at(targets, (i - 1) as nat), decoded(targets[i - 1]))
        }
    }

    /// The assignment problem of layer `i`. Accidental CZs count for the
    /// current layer only: in later ones the pairs of the layer before sit on
    /// partner sites for good reason.
    pub open spec fn staged(
        self,
        targets: Seq<Seq<(u32, u64)>>,
        i: nat,
        next: Map<u32, u64>,
        transition: TransitionModel,
    ) -> Staged {
        Staged {
            layer: Layer {
                pairs: self.layers[i as int],
                entries: self.entries_at(targets, i),
                arch: self.arch,
                table: self.table,
                next,
                transition,
                max_loss: self.max_loss,
                occupancy: self.occupancy,
            },
            lanes: self.lanes,
            blocked: self.blocked,
            move_penalty: self.move_penalty,
            accidentals: i == 0,
        }
    }

    /// Layer `i` is assigned without regard to later layers.
    pub open spec fn is_forward(self, seed: u64, forward: Seq<Seq<(u32, u64)>>, i: nat) -> bool {
        self.staged(forward, i, Map::empty(), free_transition()).assigns(seed, forward[i as int])
    }

    /// Layer `i` is assigned with the targets of the next layer in view; the
    /// layers before it are those of the forward pass.
    pub open spec fn is_refined(
        self,
        seed: u64,
        forward: Seq<Seq<(u32, u64)>>,
        refined: Seq<Seq<(u32, u64)>>,
        i: nat,
    ) -> bool {
        self.staged(forward, i, target_map(refined[i as int + 1]), self.transition).assigns(
            seed,
            refined[i as int],
        )
    }

    /// The forward pass assigns every layer, from where the layers before leave
    /// the atoms. The backward pass assigns every layer but the last again.
    pub open spec fn is_two_pass(
        self,
        seed: u64,
        forward: Seq<Seq<(u32, u64)>>,
        refined: Seq<Seq<(u32, u64)>>,
    ) -> bool {
        let depth = self.layers.len();
        &&& forward.len() == depth
        &&& refined.len() == depth
        &&& forall|i: nat| i < depth ==> #[trigger] self.is_forward(seed, forward, i)
        &&& refined.last() == forward.last()
        &&& forall|i: nat| i + 1 < depth ==> #[trigger] self.is_refined(seed, forward, refined, i)
    }

    /// `targets` assigns the current layer in view of the later ones.
    pub open spec fn assigns(self, seed: u64, targets: Seq<(u32, u64)>) -> bool {
        exists|forward: Seq<Seq<(u32, u64)>>, refined: Seq<Seq<(u32, u64)>>| #[trigger]
            self.is_two_pass(seed, forward, refined) && targets == refined[0]
    }

    /// With no later layer, this is the assignment of the current one alone.
    pub proof fn lemma_single_layer(self, seed: u64, targets: Seq<(u32, u64)>)
        requires
            self.layers.len() == 1,
        ensures
            self.assigns(seed, targets) <==> self.staged(
                Seq::empty(),
                0,
                Map::empty(),
                free_transition(),
            ).assigns(seed, targets),
    {
        let single = self.staged(Seq::empty(), 0, Map::empty(), free_transition());
        if single.assigns(seed, targets) {
            let forward = seq![targets];
            assert(self.staged(forward, 0, Map::empty(), free_transition()) == single);
            assert forall|i: nat| i < 1 implies #[trigger] self.is_forward(seed, forward, i) by {
                assert(i == 0);
            }
            assert(self.is_two_pass(seed, forward, forward));
            assert(targets == forward[0]);
        }
        if self.assigns(seed, targets) {
            let (forward, refined) = choose|
                forward: Seq<Seq<(u32, u64)>>,
                refined: Seq<Seq<(u32, u64)>>,
            | #[trigger]
                self.is_two_pass(seed, forward, refined) && targets == refined[0];
            assert(self.is_forward(seed, forward, 0));
            assert(self.staged(forward, 0, Map::empty(), free_transition()) == single);
        }
    }
}

impl Plan {
    proof fn lemma_forward_unique(
        self,
        a: Seq<Seq<(u32, u64)>>,
        b: Seq<Seq<(u32, u64)>>,
        n: nat,
    )
        requires
            n <= a.len(),
            n <= b.len(),
            forall|i: nat| i < n ==> #[trigger] self.is_forward(0, a, i),
            forall|i: nat| i < n ==> #[trigger] self.is_forward(0, b, i),
        ensures
            forall|i: int| 0 <= i < n ==> #[trigger] a[i] == b[i],
        decreases n,
    {
        if n > 0 {
            let i = (n - 1) as nat;
            self.lemma_forward_unique(a, b, i);
            lemma_entries_prefix(self, a, b, i);
            assert(self.is_forward(0, a, i));
            assert(self.is_forward(0, b, i));
            self.staged(a, i, Map::empty(), free_transition()).lemma_assignment_unique(
                a[i as int],
                b[i as int],
            );
        }
    }

    proof fn lemma_refined_unique(
        self,
        forward: Seq<Seq<(u32, u64)>>,
        a: Seq<Seq<(u32, u64)>>,
        b: Seq<Seq<(u32, u64)>>,
        n: nat,
    )
        requires
            n < self.layers.len(),
            self.is_two_pass(0, forward, a),
            self.is_two_pass(0, forward, b),
        ensures
            a[n as int] == b[n as int],
        decreases self.layers.len() - n,
    {
        if n + 1 < self.layers.len() {
            self.lemma_refined_unique(forward, a, b, n + 1);
            assert(self.is_refined(0, forward, a, n));
            assert(self.is_refined(0, forward, b, n));
            self.staged(
                forward,
                n,
                target_map(a[n as int + 1]),
                self.transition,
            ).lemma_assignment_unique(a[n as int], b[n as int]);
        }
    }

    /// With seed 0 the current layer has one assignment.
    pub proof fn lemma_assignment_unique(self, a: Seq<(u32, u64)>, b: Seq<(u32, u64)>)
        requires
            self.layers.len() > 0,
            self.assigns(0, a),
            self.assigns(0, b),
        ensures
            a == b,
    {
        let (fa, ra) = choose|fa: Seq<Seq<(u32, u64)>>, ra: Seq<Seq<(u32, u64)>>| #[trigger]
            self.is_two_pass(0, fa, ra) && a == ra[0];
        let (fb, rb) = choose|fb: Seq<Seq<(u32, u64)>>, rb: Seq<Seq<(u32, u64)>>| #[trigger]
            self.is_two_pass(0, fb, rb) && b == rb[0];
        self.lemma_forward_unique(fa, fb, self.layers.len());
        assert(fa =~= fb);
        self.lemma_refined_unique(fa, ra, rb, 0);
    }
}

/// The contents of the lists.
pub open spec fn contents(lists: Seq<Vec<(u32, u64)>>) -> Seq<Seq<(u32, u64)>> {
    lists.map_values(|list: Vec<(u32, u64)>| list@)
}

/// Ways that cost nothing.
pub open spec fn free_transition() -> TransitionModel {
    TransitionModel::PerHop(0)
}

/// The pairs of the current layer and of those after it.
pub open spec fn all_layers(
    cz_pairs: Seq<(u32, u32)>,
    future_layers: Seq<Vec<(u32, u32)>>,
) -> Seq<Seq<(u32, u32)>> {
    seq![cz_pairs] + future_layers.map_values(|layer: Vec<(u32, u32)>| layer@)
}

/// The layers that a blend looks at: without one, the current layer only.
pub open spec fn layers_in_view(
    cz_pairs: Seq<(u32, u32)>,
    future_layers: Seq<Vec<(u32, u32)>>,
    beta: Option<&TransitionCosts>,
) -> Seq<Seq<(u32, u32)>> {
    match beta {
        Some(_) => all_layers(cz_pairs, future_layers),
        None => seq![cz_pairs],
    }
}

/// The plan that these inputs describe.
pub open spec fn plan_of(
    cz_pairs: Seq<(u32, u32)>,
    future_layers: Seq<Vec<(u32, u32)>>,
    config: &Config,
    arch: &ArchSpec,
    index: &LaneIndex,
    dist_table: &DistanceTable,
    blocked: &HashSet<u64>,
    beta: Option<&TransitionCosts>,
    max_loss: Option<u32>,
    occupancy: OccupancyCosts,
    move_penalty: u32,
) -> Plan {
    Plan {
        layers: layers_in_view(cz_pairs, future_layers, beta),
        entries: config@,
        arch: arch@,
        lanes: index.arch(),
        table: dist_table@,
        blocked: blocked@,
        transition: match beta {
            Some(transition) => transition@,
            None => free_transition(),
        },
        max_loss,
        occupancy,
        move_penalty,
    }
}

fn layer_at<'a>(
    cz_pairs: &'a [(u32, u32)],
    future_layers: &'a [Vec<(u32, u32)>],
    i: usize,
) -> (layer: &'a [(u32, u32)])
    requires
        i <= future_layers@.len(),
    ensures
        layer@ == all_layers(cz_pairs@, future_layers@)[i as int],
{
    if i == 0 {
        cz_pairs
    } else {
        future_layers[i - 1].as_slice()
    }
}

/// The forward pass: every layer by itself, from where the layers before leave
/// the atoms.
fn forward_pass(
    cz_pairs: &[(u32, u32)],
    config: &Config,
    arch: &ArchSpec,
    index: &LaneIndex,
    dist_table: &DistanceTable,
    blocked: &HashSet<u64>,
    seed: u64,
    future_layers: &[Vec<(u32, u32)>],
    max_loss: Option<u32>,
    occupancy: OccupancyCosts,
    move_penalty: u32,
    Ghost(plan): Ghost<Plan>,
) -> (assignments: Vec<Vec<(u32, u64)>>)
    requires
        plan == (Plan {
            layers: all_layers(cz_pairs@, future_layers@),
            entries: config@,
            arch: arch@,
            lanes: index.arch(),
            table: dist_table@,
            blocked: blocked@,
            transition: plan.transition,
            max_loss,
            occupancy,
            move_penalty,
        }),
        sizes_fit(arch@, cz_pairs@.len(), config@.len()),
        forall|i: int|
            0 <= i < future_layers@.len() ==> sizes_fit(
                arch@,
                (#[trigger] future_layers@[i])@.len(),
                config@.len(),
            ),
    ensures
        assignments@.len() == plan.layers.len(),
        forall|i: nat|
            i < plan.layers.len() ==> #[trigger] plan.is_forward(
                seed,
                contents(assignments@),
                i,
            ),
{
    let free = TransitionCosts::PerHop(0);
    let mut assignments: Vec<Vec<(u32, u64)>> = Vec::new();
    let first = assign_pairs_with_blockers(
        cz_pairs,
        config,
        arch,
        index,
        dist_table,
        blocked,
        seed,
        None,
        &free,
        max_loss,
        occupancy,
        move_penalty,
        true,
    );
    let mut sim_config = with_targets(config, first.as_slice());
    let ghost start = first@;
    assignments.push(first);
    proof {
        let forward = contents(assignments@);
        assert(forward[0] == start);
        assert(plan.staged(forward, 0, Map::empty(), free_transition()) == staged_of(
            layer_of(cz_pairs@, config, arch, dist_table, None, &free, max_loss, occupancy),
            index,
            blocked,
            move_penalty,
            true,
        ));
        assert(plan.is_forward(seed, forward, 0));
        assert(plan.entries_at(forward, 0) == config@);
        assert(sim_config@ == plan.entries_at(forward, 1));
    }
    let mut k: usize = 0;
    while k < future_layers.len()
        invariant
            k <= future_layers@.len(),
            plan == (Plan {
                layers: all_layers(cz_pairs@, future_layers@),
                entries: config@,
                arch: arch@,
                lanes: index.arch(),
                table: dist_table@,
                blocked: blocked@,
                transition: plan.transition,
                max_loss,
                occupancy,
                move_penalty,
            }),
            free@ == free_transition(),
            forall|i: int|
                0 <= i < future_layers@.len() ==> sizes_fit(
                    arch@,
                    (#[trigger] future_layers@[i])@.len(),
                    config@.len(),
                ),
            assignments@.len() == k + 1,
            sim_config@ == plan.entries_at(contents(assignments@), (k + 1) as nat),
            sim_config@.len() == config@.len(),
            forall|i: nat|
                i < k + 1 ==> #[trigger] plan.is_forward(seed, contents(assignments@), i),
        decreases future_layers.len() - k,
    {
        let layer = future_layers[k].as_slice();
        let targets = assign_pairs_with_blockers(
            layer,
            &sim_config,
            arch,
            index,
            dist_table,
            blocked,
            seed,
            None,
            &free,
            max_loss,
            occupancy,
            move_penalty,
            false,
        );
        let ghost forward = contents(assignments@);
        let ghost longer = forward.push(targets@);
        proof {
            let n = (k + 1) as nat;
            lemma_entries_prefix(plan, forward, longer, n);
            assert(plan.layers[n as int] == layer@);
            assert(plan.staged(longer, n, Map::empty(), free_transition()) == staged_of(
                layer_of(
                    layer@,
                    &sim_config,
                    arch,
                    dist_table,
                    None,
                    &free,
                    max_loss,
                    occupancy,
                ),
                index,
                blocked,
                move_penalty,
                false,
            ));
            assert forall|i: nat| i < n + 1 implies #[trigger] plan.is_forward(
                seed,
                longer,
                i,
            ) by {
                if i < n {
                    assert(plan.is_forward(seed, forward, i));
                    lemma_entries_prefix(plan, forward, longer, i);
                    assert(longer[i as int] == forward[i as int]);
                }
            }
        }
        sim_config = with_targets(&sim_config, targets.as_slice());
        assignments.push(targets);
        k += 1;
        assert(contents(assignments@) =~= longer);
    }
    assignments
}

/// The configuration before layer `i` of the forward pass.
fn replay(
    config: &Config,
    assignments: &Vec<Vec<(u32, u64)>>,
    i: usize,
    Ghost(plan): Ghost<Plan>,
    Ghost(forward): Ghost<Seq<Seq<(u32, u64)>>>,
) -> (moved: Config)
    requires
        plan.entries == config@,
        i <= assignments@.len() == forward.len(),
        forall|k: int| 0 <= k < i ==> (#[trigger] assignments@[k])@ == forward[k],
    ensures
        moved@ == plan.entries_at(forward, i as nat),
        moved@.len() == config@.len(),
{
    let mut moved = config.clone();
    let mut k: usize = 0;
    while k < i
        invariant
            k <= i <= assignments@.len() == forward.len(),
            forall|m: int| 0 <= m < i ==> (#[trigger] assignments@[m])@ == forward[m],
            moved@ == plan.entries_at(forward, k as nat),
            moved@.len() == config@.len(),
        decreases i - k,
    {
        moved = with_targets(&moved, assignments[k].as_slice());
        k += 1;
    }
    moved
}

/// Two-pass assignment with lookahead over later layers.
///
/// The forward pass assigns the current and each later layer by itself, with
/// the atoms where the layers before leave them. The backward pass assigns each
/// layer but the last once more, with the targets of the next layer as
/// transition targets, whose distance costs what `beta` says.
///
/// Without later layers, or without `beta`, this is
/// [`assign_pairs_with_blockers`]. Returns the targets of the current layer.
pub fn lookahead_assign_pairs(
    cz_pairs: &[(u32, u32)],
    config: &Config,
    arch: &ArchSpec,
    index: &LaneIndex,
    dist_table: &DistanceTable,
    blocked: &HashSet<u64>,
    seed: u64,
    future_layers: &[Vec<(u32, u32)>],
    beta: Option<&TransitionCosts>,
    max_loss: Option<u32>,
    occupancy: OccupancyCosts,
    move_penalty: u32,
) -> (targets: Vec<(u32, u64)>)
    requires
        sizes_fit(arch@, cz_pairs@.len(), config@.len()),
        forall|i: int|
            0 <= i < future_layers@.len() ==> sizes_fit(
                arch@,
                (#[trigger] future_layers@[i])@.len(),
                config@.len(),
            ),
    ensures
        plan_of(
            cz_pairs@,
            future_layers@,
            config,
            arch,
            index,
            dist_table,
            blocked,
            beta,
            max_loss,
            occupancy,
            move_penalty,
        ).assigns(seed, targets@),
{
    let ghost plan = plan_of(
        cz_pairs@,
        future_layers@,
        config,
        arch,
        index,
        dist_table,
        blocked,
        beta,
        max_loss,
        occupancy,
        move_penalty,
    );
    let free = TransitionCosts::PerHop(0);
    let beta = match beta {
        Some(beta) => if future_layers.len() > 0 {
            Some(beta)
        } else {
            None
        },
        None => None,
    };
    let beta = match beta {
        Some(beta) => beta,
        None => {
            let targets = assign_pairs_with_blockers(
                cz_pairs,
                config,
                arch,
                index,
                dist_table,
                blocked,
                seed,
                None,
                &free,
                max_loss,
                occupancy,
                move_penalty,
                true,
            );
            proof {
                assert(plan.layers =~= seq![cz_pairs@]);
                assert(plan.staged(Seq::empty(), 0, Map::empty(), free_transition()) == staged_of(
                    layer_of(
                        cz_pairs@,
                        config,
                        arch,
                        dist_table,
                        None,
                        &free,
                        max_loss,
                        occupancy,
                    ),
                    index,
                    blocked,
                    move_penalty,
                    true,
                ));
                plan.lemma_single_layer(seed, targets@);
            }
            return targets;
        },
    };
    proof {
        assert(plan.layers == all_layers(cz_pairs@, future_layers@));
    }
    let mut assignments = forward_pass(
        cz_pairs,
        config,
        arch,
        index,
        dist_table,
        blocked,
        seed,
        future_layers,
        max_loss,
        occupancy,
        move_penalty,
        Ghost(plan),
    );
    let ghost forward = contents(assignments@);
    let mut i: usize = future_layers.len();
    while i > 0
        invariant
            i <= future_layers@.len(),
            plan == (Plan {
                layers: all_layers(cz_pairs@, future_layers@),
                entries: config@,
                arch: arch@,
                lanes: index.arch(),
                table: dist_table@,
                blocked: blocked@,
                transition: beta@,
                max_loss,
                occupancy,
                move_penalty,
            }),
            sizes_fit(arch@, cz_pairs@.len(), config@.len()),
            forall|k: int|
                0 <= k < future_layers@.len() ==> sizes_fit(
                    arch@,
                    (#[trigger] future_layers@[k])@.len(),
                    config@.len(),
                ),
            forward.len() == plan.layers.len(),
            assignments@.len() == forward.len(),
            forall|k: int| 0 <= k < i ==> (#[trigger] assignments@[k])@ == forward[k],
            contents(assignments@).last() == forward.last(),
            forall|k: nat|
                i <= k && k + 1 < plan.layers.len() ==> #[trigger] plan.is_refined(
                    seed,
                    forward,
                    contents(assignments@),
                    k,
                ),
        decreases i,
    {
        let ghost before = contents(assignments@);
        let next = collect_target_map(assignments[i].as_slice());
        i -= 1;
        let layer_config = replay(config, &assignments, i, Ghost(plan), Ghost(forward));
        let layer = layer_at(cz_pairs, future_layers, i);
        assert(sizes_fit(arch@, layer@.len(), config@.len()));
        let targets = assign_pairs_with_blockers(
            layer,
            &layer_config,
            arch,
            index,
            dist_table,
            blocked,
            seed,
            Some(&next),
            beta,
            max_loss,
            occupancy,
            move_penalty,
            i == 0,
        );
        let ghost after = before.update(i as int, targets@);
        proof {
            assert(before[i + 1] == assignments@[i + 1]@);
            assert(plan.staged(forward, i as nat, target_map(after[i + 1]), plan.transition)
                == staged_of(
                layer_of(
                    layer@,
                    &layer_config,
                    arch,
                    dist_table,
                    Some(&next),
                    beta,
                    max_loss,
                    occupancy,
                ),
                index,
                blocked,
                move_penalty,
                i == 0,
            ));
            assert forall|k: nat|
                i <= k && k + 1 < plan.layers.len() implies #[trigger] plan.is_refined(
                seed,
                forward,
                after,
                k,
            ) by {
                if k > i {
                    assert(plan.is_refined(seed, forward, before, k));
                    assert(after[k as int + 1] == before[k as int + 1]);
                    assert(after[k as int] == before[k as int]);
                }
            }
        }
        assignments.set(i, targets);
        assert(contents(assignments@) =~= after);
    }
    proof {
        assert(plan.is_two_pass(seed, forward, contents(assignments@)));
        assert(contents(assignments@)[0] == assignments@[0]@);
    }
    assignments.swap_remove(0)
}

proof fn lemma_entries_prefix(
    plan: Plan,
    a: Seq<Seq<(u32, u64)>>,
    b: Seq<Seq<(u32, u64)>>,
    i: nat,
)
    requires
        i <= a.len(),
        i <= b.len(),
        forall|k: int| 0 <= k < i ==> #[trigger] a[k] == b[k],
    ensures
        plan.entries_at(a, i) == plan.entries_at(b, i),
    decreases i,
{
    if i > 0 {
        lemma_entries_prefix(plan, a, b, (i - 1) as nat);
        assert(a[i - 1] == b[i - 1]);
    }
}

} // verus!
