//! When goals are met, stated on where atoms sit.

use crate::arch::LocationAddr;
use crate::cleanup_laws::{
    atoms_distinct, cross, lemma_entangling_goal, pair_sits, partners_mutual,
};
use crate::config::{
    lemma_entry_of_location, lemma_occupant_entry, location_in, occupant_in, ordered_by_qubit,
    Config,
};
use crate::goals::{
    at_target, find_accidental_partner, location_grid_index, pair_qubits, placed_count, qubit_grid_index, AllAtTarget,
    EntanglingConstraintGoal, Goal, PairSeparationGoal, PartialPlacementGoal,
};
use crate::lane_index::LaneIndex;
use crate::layer_laws::{is_missing, sits};
use crate::separation_laws::{all_stand_apart, lemma_separation_goal};
use std::collections::{HashMap, HashSet};
use vstd::prelude::*;

verus! {

proof fn lemma_at_target(config: Config, target: (u32, u64))
    requires
        ordered_by_qubit(config@),
    ensures
        at_target(config, target) <==> sits(config@, target.0, target.1),
{
    let (q, code) = target;
    lemma_entry_of_location(config@, q);
    if at_target(config, target) {
        let loc = config.at(q)->0;
        assert(config@.contains((q, loc)));
        let m = choose|m: int| 0 <= m < config@.len() && config@[m] == (q, loc);
        assert(config@[m].0 == q && config@[m].1.code() == code);
    }
    if sits(config@, q, code) {
        let m = choose|m: int|
            0 <= m < config@.len() && (#[trigger] config@[m]).0 == q && config@[m].1.code() == code;
        let loc = location_in(config@, q)->0;
        assert(config@.contains((q, loc)));
        let n = choose|n: int| 0 <= n < config@.len() && config@[n] == (q, loc);
        assert(m == n);
    }
}

/// A goal of targets is met exactly where every qubit sits at its target.
pub proof fn lemma_all_at_target(
    targets: &[(u32, u64)],
    goal: AllAtTarget,
    config: Config,
    b: bool,
)
    requires
        ordered_by_qubit(config@),
        call_ensures(AllAtTarget::new, (targets,), goal),
        call_ensures(AllAtTarget::is_goal, (&goal, &config), b),
    ensures
        b <==> forall|i: int|
            0 <= i < targets@.len() ==> sits(
                config@,
                (#[trigger] targets@[i]).0,
                targets@[i].1,
            ),
{
    assert forall|i: int| 0 <= i < targets@.len() implies at_target(
        config,
        #[trigger] targets@[i],
    ) == sits(config@, targets@[i].0, targets@[i].1) by {
        lemma_at_target(config, targets@[i]);
    }
    if b {
        assert forall|i: int| 0 <= i < targets@.len() implies sits(
            config@,
            (#[trigger] targets@[i]).0,
            targets@[i].1,
        ) by {
            assert(at_target(config, goal.targets()[i]));
        }
    }
}

/// The targets at which their qubits sit.
pub open spec fn met_targets(
    entries: Seq<(u32, LocationAddr)>,
    targets: Seq<(u32, u64)>,
) -> Set<int> {
    Set::new(|i: int| 0 <= i < targets.len() && sits(entries, targets[i].0, targets[i].1))
}

proof fn lemma_placed_count(config: Config, targets: Seq<(u32, u64)>)
    requires
        ordered_by_qubit(config@),
    ensures
        met_targets(config@, targets).finite(),
        placed_count(config, targets) == met_targets(config@, targets).len(),
    decreases targets.len(),
{
    let all = met_targets(config@, targets);
    if targets.len() == 0 {
        assert(all =~= Set::empty());
    } else {
        let rest = targets.drop_last();
        let last = targets.len() - 1;
        let before = met_targets(config@, rest);
        lemma_placed_count(config, rest);
        lemma_at_target(config, targets.last());
        assert forall|i: int| 0 <= i < last implies rest[i] == targets[i] by {}
        if at_target(config, targets.last()) {
            assert(all =~= before.insert(last));
        } else {
            assert(all =~= before);
        }
    }
}

/// A partial goal is met exactly where at least as many qubits as it demands, or
/// all where it demands no number, sit at their targets.
pub proof fn lemma_partial_placement(
    targets: &[(u32, u64)],
    min_placed: Option<usize>,
    goal: PartialPlacementGoal,
    config: Config,
    b: bool,
)
    requires
        ordered_by_qubit(config@),
        targets@.len() <= usize::MAX,
        call_ensures(PartialPlacementGoal::new, (targets, min_placed), goal),
        call_ensures(PartialPlacementGoal::is_goal, (&goal, &config), b),
    ensures
        b <==> met_targets(config@, targets@).len() >= match min_placed {
            Some(n) => n as nat,
            None => targets@.len(),
        },
{
    lemma_placed_count(config, targets@);
}

/// A separation goal is met exactly where its inner goal is and the pairs stand
/// apart.
pub proof fn lemma_separation_is_goal<G: Goal>(
    inner: G,
    pairs: &[(u32, u32)],
    index: &LaneIndex,
    goal: PairSeparationGoal<G>,
    config: Config,
    b: bool,
)
    requires
        ordered_by_qubit(config@),
        call_ensures(PairSeparationGoal::<G>::new, (inner, pairs, index), goal),
        call_ensures(PairSeparationGoal::<G>::is_goal, (&goal, &config), b),
    ensures
        b <==> inner.holds(config) && (pairs@.len() < 2 || all_stand_apart(
            config@,
            pairs@,
            index.arch(),
        )),
{
    lemma_separation_goal(goal, config);
}

/// An entangling goal is met exactly where every pair sits on a placement and no
/// two spectators sit across from each other.
pub proof fn lemma_entangling_is_goal(goal: EntanglingConstraintGoal, config: Config, b: bool)
    requires
        atoms_distinct(config@),
        partners_mutual(goal.partners()),
        call_ensures(EntanglingConstraintGoal::is_goal, (&goal, &config), b),
    ensures
        b <==> {
            &&& forall|p: int|
                0 <= p < goal.pairs().len() ==> pair_sits(
                    config@,
                    goal.placements(),
                    #[trigger] goal.pairs()[p],
                )
            &&& forall|i: int, j: int| !#[trigger]
                cross(config@, pair_qubits(goal.pairs()), goal.partners(), i, j)
        },
{
    lemma_entangling_goal(goal, config);
}

/// The grid position of a location is its zone and the position of its site, where
/// its word has that site.
pub proof fn lemma_location_grid(
    loc: LocationAddr,
    index: &LaneIndex,
    grid: Option<(u32, u32, u32)>,
)
    requires
        call_ensures(location_grid_index, (&loc, index), grid),
    ensures
        ({
            let words = index.arch().words;
            if loc.word_id < words.len() && loc.site_id < words[loc.word_id as int].len() {
                let site = words[loc.word_id as int][loc.site_id as int];
                grid is Some && (grid->0).0 == loc.zone_id && (grid->0).1 == site.0 && (
                grid->0).2 == site.1
            } else {
                grid is None
            }
        }),
{
}

/// The grid position of a qubit is that of where it sits.
pub proof fn lemma_qubit_grid(
    config: Config,
    m: int,
    index: &LaneIndex,
    of_qubit: Option<(u32, u32, u32)>,
    of_location: Option<(u32, u32, u32)>,
    q: u32,
    of_other: Option<(u32, u32, u32)>,
)
    requires
        ordered_by_qubit(config@),
        0 <= m < config@.len(),
        call_ensures(qubit_grid_index, (&config, config@[m].0, index), of_qubit),
        call_ensures(location_grid_index, (&config@[m].1, index), of_location),
        is_missing(config@, q),
        call_ensures(qubit_grid_index, (&config, q, index), of_other),
    ensures
        of_qubit == of_location,
        of_other is None,
{
    crate::separation_laws::lemma_grid_of_entry(config@, index.arch(), m);
    lemma_entry_of_location(config@, q);
    if location_in(config@, q) is Some {
        let loc = location_in(config@, q)->0;
        let n = choose|n: int| 0 <= n < config@.len() && config@[n] == (q, loc);
        assert(config@[n].0 == q);
    }
}

/// The accidental partner of a spectator is a spectator that sits on the partner site; with
/// none there, or a qubit of a pair, and for a qubit of a pair, there is none.
pub proof fn lemma_accidental_partner(
    config: Config,
    cz_qubits: HashSet<u32>,
    partner_map: HashMap<u64, u64>,
    qubit_id: u32,
    loc: LocationAddr,
    across: LocationAddr,
    found: Option<u32>,
    q: u32,
)
    requires
        atoms_distinct(config@),
        across.fits(),
        partner_map@.contains_pair(loc.code(), across.code()),
        call_ensures(
            find_accidental_partner,
            (&config, &cz_qubits, &partner_map, qubit_id, loc),
            found,
        ),
    ensures
        found == Some(q) <==> !cz_qubits@.contains(qubit_id) && !cz_qubits@.contains(q)
            && config@.contains((q, across)),
{
    across.lemma_decode_encode();
    lemma_occupant_entry(config@, across);
    if config@.contains((q, across)) {
        let m = choose|m: int| 0 <= m < config@.len() && config@[m] == (q, across);
        assert(config@[m].1 == across);
        let holder = occupant_in(config@, across)->0;
        assert(config@.contains((holder, across)));
        let n = choose|n: int| 0 <= n < config@.len() && config@[n] == (holder, across);
        if m < n {
            assert(config@[m].1 != config@[n].1);
        } else if n < m {
            assert(config@[n].1 != config@[m].1);
        }
    }
}

/// Off the partner sites there is no accidental partner.
pub proof fn lemma_no_partner_site(
    config: Config,
    cz_qubits: HashSet<u32>,
    partner_map: HashMap<u64, u64>,
    qubit_id: u32,
    loc: LocationAddr,
    found: Option<u32>,
)
    requires
        !partner_map@.contains_key(loc.code()),
        call_ensures(
            find_accidental_partner,
            (&config, &cz_qubits, &partner_map, qubit_id, loc),
            found,
        ),
    ensures
        found is None,
{
}

} // verus!
