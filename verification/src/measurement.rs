//! How assign-then-repair fares: what a repair was needed for, and what was
//! left after it.

use crate::arch::{ArchModel, LocationAddr};
use crate::config::{place_map, Config};
use crate::entangling::PositionSlot;
use crate::goals::{
    atoms_grid_separated, on_grid, pairs_apart, pairs_grid_separated, qubit_grid_index,
};
use crate::lane_index::LaneIndex;
use crate::repair::{
    config_from_assignment_targets, decoded, pair_participates_in_violation, pair_slot_indices,
    same_pair, separated_targets, taken_slots, trial_separates, valid_targets, Repair,
};
use std::collections::HashSet;
use vstd::prelude::*;

verus! {

broadcast use vstd::std_specs::hash::group_hash_axioms;

/// Why pairs are still too close after a repair.
#[derive(Clone, Copy, Debug, PartialEq, Eq, Structural)]
pub enum PostRepairKind {
    /// A position that separates all pairs exists.
    CascadeCandidate,
    /// No position separates all pairs.
    Infeasible,
    /// Nothing is known of the positions.
    Ambiguous,
}

/// What is still wrong after a repair.
#[derive(Debug)]
pub struct PostRepairDetail {
    pub kind: PostRepairKind,
    /// The pairs, two by two, that are too close to each other.
    pub close_pair_indices: Vec<(usize, usize)>,
    pub separated_slot_existed: bool,
}

/// One assignment, before and after its repair.
#[derive(Debug)]
pub struct AssignmentRecord {
    pub pair_count: usize,
    pub pre_violated: bool,
    pub post_separated: bool,
    pub needed_repair: bool,
    pub repair_succeeded: bool,
    pub repair_failed: bool,
    pub had_repair_ctx: bool,
    /// Several pairs, but no target at all: the repair never ran.
    pub empty_assignment: bool,
    pub post_repair_detail: Option<PostRepairDetail>,
}

/// What is known of the positions where a repair could run.
#[derive(Debug)]
pub struct RepairContext<'a> {
    pub slots: &'a [PositionSlot],
    pub blocked: &'a HashSet<u64>,
}

/// Every qubit of every pair is placed.
pub open spec fn covers(places: Map<u32, LocationAddr>, pairs: Seq<(u32, u32)>) -> bool {
    forall|i: int|
        0 <= i < pairs.len() ==> places.contains_key((#[trigger] pairs[i]).0)
            && places.contains_key(pairs[i].1)
}

/// Whether every qubit of every pair is placed.
pub fn config_covers_pairs(config: &Config, cz_pairs: &[(u32, u32)]) -> (b: bool)
    ensures
        b == covers(place_map(config@), cz_pairs@),
{
    let mut i: usize = 0;
    while i < cz_pairs.len()
        invariant
            i <= cz_pairs@.len(),
            forall|k: int|
                0 <= k < i ==> place_map(config@).contains_key((#[trigger] cz_pairs@[k]).0)
                    && place_map(config@).contains_key(cz_pairs@[k].1),
        decreases cz_pairs.len() - i,
    {
        if config.location_of(cz_pairs[i].0).is_none() || config.location_of(
            cz_pairs[i].1,
        ).is_none() {
            proof {
                let pair = cz_pairs@[i as int];
                assert(!(place_map(config@).contains_key(pair.0) && place_map(
                    config@,
                ).contains_key(pair.1)));
            }
            return false;
        }
        i += 1;
    }
    true
}

/// Pairs `i` and `j` are both on the grid and not apart.
pub open spec fn too_close(
    places: Map<u32, LocationAddr>,
    pairs: Seq<(u32, u32)>,
    arch: ArchModel,
    i: int,
    j: int,
) -> bool {
    &&& 0 <= i < j < pairs.len()
    &&& on_grid(places, pairs[i], arch)
    &&& on_grid(places, pairs[j], arch)
    &&& !pairs_apart(places, pairs[i], pairs[j], arch)
}

/// One combination comes before another.
pub open spec fn combination_before(a: (usize, usize), b: (usize, usize)) -> bool {
    a.0 < b.0 || (a.0 == b.0 && a.1 < b.1)
}

/// `close` lists in order the combinations of pairs that are too close.
pub open spec fn lists_close_pairs(
    close: Seq<(usize, usize)>,
    places: Map<u32, LocationAddr>,
    pairs: Seq<(u32, u32)>,
    arch: ArchModel,
) -> bool {
    &&& forall|m: int, n: int|
        0 <= m < n < close.len() ==> combination_before(#[trigger] close[m], #[trigger] close[n])
    &&& forall|i: usize, j: usize| #[trigger]
        close.contains((i, j)) <==> too_close(places, pairs, arch, i as int, j as int)
}

fn are_too_close(
    config: &Config,
    p: (u32, u32),
    q: (u32, u32),
    index: &LaneIndex,
) -> (b: bool)
    ensures
        b == (on_grid(place_map(config@), p, index.arch()) && on_grid(
            place_map(config@),
            q,
            index.arch(),
        ) && !pairs_apart(place_map(config@), p, q, index.arch())),
{
    match (
        qubit_grid_index(config, p.0, index),
        qubit_grid_index(config, p.1, index),
        qubit_grid_index(config, q.0, index),
        qubit_grid_index(config, q.1, index),
    ) {
        (Some(a0), Some(a1), Some(b0), Some(b1)) => !(atoms_grid_separated(a0, b0)
            && atoms_grid_separated(a0, b1) && atoms_grid_separated(a1, b0) && atoms_grid_separated(
            a1,
            b1,
        )),
        _ => false,
    }
}

/// The combinations of pairs that are too close to each other, in order.
pub fn close_pair_index_pairs(
    config: &Config,
    cz_pairs: &[(u32, u32)],
    index: &LaneIndex,
) -> (close: Vec<(usize, usize)>)
    ensures
        lists_close_pairs(close@, place_map(config@), cz_pairs@, index.arch()),
{
    let ghost places = place_map(config@);
    let ghost arch = index.arch();
    let mut close: Vec<(usize, usize)> = Vec::new();
    let mut i: usize = 0;
    while i < cz_pairs.len()
        invariant
            i <= cz_pairs@.len(),
            places == place_map(config@),
            arch == index.arch(),
            forall|m: int, n: int|
                0 <= m < n < close@.len() ==> combination_before(
                    #[trigger] close@[m],
                    #[trigger] close@[n],
                ),
            forall|m: int| 0 <= m < close@.len() ==> (#[trigger] close@[m]).0 < i,
            forall|a: usize, b: usize| #[trigger]
                close@.contains((a, b)) <==> a < i && too_close(
                    places,
                    cz_pairs@,
                    arch,
                    a as int,
                    b as int,
                ),
        decreases cz_pairs.len() - i,
    {
        let mut j: usize = i + 1;
        while j < cz_pairs.len()
            invariant
                i < j <= cz_pairs@.len(),
                places == place_map(config@),
                arch == index.arch(),
                forall|m: int, n: int|
                    0 <= m < n < close@.len() ==> combination_before(
                        #[trigger] close@[m],
                        #[trigger] close@[n],
                    ),
                forall|m: int|
                    0 <= m < close@.len() ==> combination_before(#[trigger] close@[m], (i, j)),
                forall|a: usize, b: usize| #[trigger]
                    close@.contains((a, b)) <==> combination_before((a, b), (i, j)) && too_close(
                        places,
                        cz_pairs@,
                        arch,
                        a as int,
                        b as int,
                    ),
            decreases cz_pairs.len() - j,
        {
            let ghost before = close@;
            if are_too_close(config, cz_pairs[i], cz_pairs[j], index) {
                close.push((i, j));
                proof {
                    assert forall|a: usize, b: usize| #[trigger]
                        close@.contains((a, b)) <==> before.contains((a, b)) || (a, b) == (
                        i,
                        j,
                    ) by {
                        lemma_pushed_contains(before, (i, j), (a, b));
                    }
                }
            }
            j += 1;
        }
        i += 1;
    }
    close
}

proof fn lemma_pushed_contains(list: Seq<(usize, usize)>, last: (usize, usize), x: (usize, usize))
    ensures
        list.push(last).contains(x) <==> list.contains(x) || x == last,
{
    if list.contains(x) {
        let k = choose|k: int| 0 <= k < list.len() && list[k] == x;
        assert(list.push(last)[k] == x);
    }
    assert(list.push(last)[list.len() as int] == last);
}

/// The targets are separated, or sending one pair that is too close to another
/// one to an open position separates all pairs.
pub open spec fn separable(
    targets: Seq<(u32, u64)>,
    pairs: Seq<(u32, u32)>,
    arch: ArchModel,
    slots: Seq<PositionSlot>,
    blocked: Set<u64>,
) -> bool {
    valid_targets(targets) && (separated_targets(targets, pairs, arch) || exists|
        i: int,
        j: int,
        swapped: bool,
    |
        #[trigger] is_way_out(targets, pairs, arch, slots, blocked, i, j, swapped))
}

/// Sending pair `i`, which is too close to another one, to position `j`
/// separates all pairs.
pub open spec fn is_way_out(
    targets: Seq<(u32, u64)>,
    pairs: Seq<(u32, u32)>,
    arch: ArchModel,
    slots: Seq<PositionSlot>,
    blocked: Set<u64>,
    i: int,
    j: int,
    swapped: bool,
) -> bool {
    let repair = reach_of(targets, pairs, arch, slots, blocked);
    &&& 0 <= i < pairs.len()
    &&& repair.is_close(pairs[i])
    &&& repair.works(pairs[i], j, swapped)
}

/// A repair that does not look at where the pairs are now.
pub open spec fn reach_of(
    targets: Seq<(u32, u64)>,
    pairs: Seq<(u32, u32)>,
    arch: ArchModel,
    slots: Seq<PositionSlot>,
    blocked: Set<u64>,
) -> Repair {
    Repair { targets, pairs, placed: Seq::empty(), slots, table: Map::empty(), arch, blocked }
}

/// A repair leaves nothing that sending one more pair elsewhere would separate,
/// where every pair is placed: pairs that are still too close after it are so
/// for want of a position.
pub proof fn lemma_failed_repair_is_infeasible(repair: Repair)
    requires
        repair.pairs.len() >= 2,
        valid_targets(repair.targets),
        forall|i: int|
            0 <= i < repair.pairs.len() ==> repair.entry(#[trigger] repair.pairs[i]) is Some,
        !separated_targets(repair.repaired(), repair.pairs, repair.arch),
    ensures
        !separable(
            repair.repaired(),
            repair.pairs,
            repair.arch,
            repair.slots,
            repair.blocked,
        ),
{
    repair.lemma_repaired_or_unchanged();
    let reach = reach_of(
        repair.targets,
        repair.pairs,
        repair.arch,
        repair.slots,
        repair.blocked,
    );
    assert forall|i: int, j: int, swapped: bool| !#[trigger] is_way_out(
        repair.targets,
        repair.pairs,
        repair.arch,
        repair.slots,
        repair.blocked,
        i,
        j,
        swapped,
    ) by {
        if is_way_out(
            repair.targets,
            repair.pairs,
            repair.arch,
            repair.slots,
            repair.blocked,
            i,
            j,
            swapped,
        ) {
            let pair = repair.pairs[i];
            assert(reach.works(pair, j, swapped));
            lemma_same_reach(repair, pair, j);
            assert(repair.trial(pair, j, swapped) == reach.trial(pair, j, swapped));
            assert(repair.is_fix(i, j, swapped));
            repair.lemma_fix_is_found(i, j, swapped);
        }
    }
}

proof fn lemma_same_reach(repair: Repair, pair: (u32, u32), j: int)
    ensures
        repair.is_open(pair, j) == reach_of(
            repair.targets,
            repair.pairs,
            repair.arch,
            repair.slots,
            repair.blocked,
        ).is_open(pair, j),
{
    let reach = reach_of(
        repair.targets,
        repair.pairs,
        repair.arch,
        repair.slots,
        repair.blocked,
    );
    assert forall|p: (u32, u32)| #[trigger] repair.slot_index(p) == reach.slot_index(p) by {}
    if repair.taken(pair, j) {
        let k = choose|k: int|
            0 <= k < repair.pairs.len() && !same_pair(
                #[trigger] repair.pairs[k],
                pair,
            ) && repair.slot_index(repair.pairs[k]) == Some(j);
        assert(reach.slot_index(reach.pairs[k]) == Some(j));
    }
    if reach.taken(pair, j) {
        let k = choose|k: int|
            0 <= k < reach.pairs.len() && !same_pair(
                #[trigger] reach.pairs[k],
                pair,
            ) && reach.slot_index(reach.pairs[k]) == Some(j);
        assert(repair.slot_index(repair.pairs[k]) == Some(j));
    }
}

/// Whether the targets are separated or sending one pair elsewhere separates
/// them.
pub fn any_separated_reassignment_exists(
    targets: &Vec<(u32, u64)>,
    cz_pairs: &[(u32, u32)],
    index: &LaneIndex,
    ctx: &RepairContext<'_>,
) -> (b: bool)
    ensures
        b == separable(targets@, cz_pairs@, index.arch(), ctx.slots@, ctx.blocked@),
{
    let ghost model = reach_of(targets@, cz_pairs@, index.arch(), ctx.slots@, ctx.blocked@);
    let config = match config_from_assignment_targets(targets.as_slice()) {
        Some(config) => config,
        None => {
            return false;
        },
    };
    if pairs_grid_separated(&config, cz_pairs, index) {
        return true;
    }
    let indices = pair_slot_indices(targets.as_slice(), cz_pairs, ctx.slots, Ghost(model));
    let mut i: usize = 0;
    while i < cz_pairs.len()
        invariant
            i <= cz_pairs@.len(),
            model == reach_of(targets@, cz_pairs@, index.arch(), ctx.slots@, ctx.blocked@),
            valid_targets(targets@),
            place_map(config@) == place_map(decoded(targets@)),
            indices@.len() == cz_pairs@.len(),
            forall|k: int|
                0 <= k < indices@.len() ==> match #[trigger] indices@[k] {
                    Some(j) => model.slot_index(cz_pairs@[k]) == Some(j as int),
                    None => model.slot_index(cz_pairs@[k]) is None,
                },
            forall|k: int, j: int, swapped: bool| #[trigger]
                is_way_out(
                    targets@,
                    cz_pairs@,
                    index.arch(),
                    ctx.slots@,
                    ctx.blocked@,
                    k,
                    j,
                    swapped,
                ) ==> k >= i,
        decreases cz_pairs.len() - i,
    {
        let pair = cz_pairs[i];
        if pair_participates_in_violation(pair.0, pair.1, &config, cz_pairs, index) {
            let taken = taken_slots(cz_pairs, pair, &indices, ctx.slots.len(), Ghost(model));
            if some_move_separates(
                targets,
                pair,
                indices[i],
                &taken,
                cz_pairs,
                index,
                ctx,
                Ghost(model),
            ) {
                proof {
                    let (j, swapped) = choose|j: int, swapped: bool| #[trigger]
                        model.works(pair, j, swapped);
                    assert(is_way_out(
                        targets@,
                        cz_pairs@,
                        index.arch(),
                        ctx.slots@,
                        ctx.blocked@,
                        i as int,
                        j,
                        swapped,
                    ));
                }
                return true;
            }
        }
        i += 1;
    }
    false
}

fn some_move_separates(
    targets: &Vec<(u32, u64)>,
    pair: (u32, u32),
    current: Option<usize>,
    taken: &Vec<bool>,
    cz_pairs: &[(u32, u32)],
    index: &LaneIndex,
    ctx: &RepairContext<'_>,
    Ghost(model): Ghost<Repair>,
) -> (b: bool)
    requires
        model == reach_of(targets@, cz_pairs@, index.arch(), ctx.slots@, ctx.blocked@),
        taken@.len() == ctx.slots@.len(),
        forall|j: int| 0 <= j < taken@.len() ==> #[trigger] taken@[j] == model.taken(pair, j),
        match current {
            Some(j) => model.slot_index(pair) == Some(j as int),
            None => model.slot_index(pair) is None,
        },
    ensures
        b <==> exists|j: int, swapped: bool| #[trigger] model.works(pair, j, swapped),
{
    let mut j: usize = 0;
    while j < ctx.slots.len()
        invariant
            j <= ctx.slots@.len(),
            model == reach_of(targets@, cz_pairs@, index.arch(), ctx.slots@, ctx.blocked@),
            taken@.len() == ctx.slots@.len(),
            forall|k: int| 0 <= k < taken@.len() ==> #[trigger] taken@[k] == model.taken(pair, k),
            match current {
                Some(j) => model.slot_index(pair) == Some(j as int),
                None => model.slot_index(pair) is None,
            },
            forall|k: int, swapped: bool| #[trigger] model.works(pair, k, swapped) ==> k >= j,
        decreases ctx.slots.len() - j,
    {
        let slot = ctx.slots[j];
        let is_current = match current {
            Some(k) => k == j,
            None => false,
        };
        let open = !is_current && !taken[j] && !ctx.blocked.contains(&slot.loc_a)
            && !ctx.blocked.contains(&slot.loc_b);
        assert(open == model.is_open(pair, j as int));
        if open {
            if trial_separates(targets, pair, &slot, false, cz_pairs, index) {
                assert(model.works(pair, j as int, false));
                return true;
            }
            if trial_separates(targets, pair, &slot, true, cz_pairs, index) {
                assert(model.works(pair, j as int, true));
                return true;
            }
        }
        j += 1;
    }
    false
}

/// The assignment is one that a repair could be needed for: several pairs, all
/// of them with targets.
pub open spec fn is_applicable(pre: Seq<(u32, u64)>, pairs: Seq<(u32, u32)>) -> bool {
    &&& pre.len() > 0
    &&& pairs.len() >= 2
    &&& valid_targets(pre)
    &&& covers(place_map(decoded(pre)), pairs)
}

/// The record of an assignment that was `pre` before its repair and `post`
/// after it.
pub open spec fn is_record_of(
    record: AssignmentRecord,
    pre: Seq<(u32, u64)>,
    post: Seq<(u32, u64)>,
    pairs: Seq<(u32, u32)>,
    arch: ArchModel,
    ctx: Option<RepairContext<'_>>,
) -> bool {
    &&& record.pair_count == pairs.len()
    &&& record.pre_violated == (is_applicable(pre, pairs) && !separated_targets(pre, pairs, arch))
    &&& record.post_separated == (!is_applicable(pre, pairs) || (covers(
        place_map(decoded(post)),
        pairs,
    ) && separated_targets(post, pairs, arch)))
    &&& record.needed_repair == record.pre_violated
    &&& record.repair_succeeded == (record.needed_repair && record.post_separated)
    &&& record.repair_failed == (record.needed_repair && !record.post_separated)
    &&& record.had_repair_ctx == (ctx is Some)
    &&& record.empty_assignment == (pre.len() == 0 && pairs.len() >= 2)
    &&& match record.post_repair_detail {
        Some(detail) => {
            &&& record.repair_failed
            &&& valid_targets(post)
            &&& lists_close_pairs(
                detail.close_pair_indices@,
                place_map(decoded(post)),
                pairs,
                arch,
            )
            &&& match ctx {
                Some(ctx) => {
                    &&& detail.separated_slot_existed == separable(
                        post,
                        pairs,
                        arch,
                        ctx.slots@,
                        ctx.blocked@,
                    )
                    &&& detail.kind == if detail.separated_slot_existed {
                        PostRepairKind::CascadeCandidate
                    } else {
                        PostRepairKind::Infeasible
                    }
                },
                None => !detail.separated_slot_existed && detail.kind == PostRepairKind::Ambiguous,
            }
        },
        None => !record.repair_failed || !valid_targets(post),
    }
}

/// Record an assignment.
pub fn record_assignment(
    pre: &Vec<(u32, u64)>,
    post: &Vec<(u32, u64)>,
    cz_pairs: &[(u32, u32)],
    index: &LaneIndex,
    repair_ctx: Option<RepairContext<'_>>,
) -> (record: AssignmentRecord)
    ensures
        is_record_of(record, pre@, post@, cz_pairs@, index.arch(), repair_ctx),
{
    let pair_count = cz_pairs.len();
    let post_config = config_from_assignment_targets(post.as_slice());
    let mut applicable = false;
    let mut pre_violated = false;
    if pre.len() > 0 && pair_count >= 2 {
        match config_from_assignment_targets(pre.as_slice()) {
            Some(config) => {
                if config_covers_pairs(&config, cz_pairs) {
                    applicable = true;
                    pre_violated = !pairs_grid_separated(&config, cz_pairs, index);
                }
            },
            None => {},
        }
    }
    let post_separated = !applicable || match &post_config {
        Some(config) => config_covers_pairs(config, cz_pairs) && pairs_grid_separated(
            config,
            cz_pairs,
            index,
        ),
        None => false,
    };
    let repair_failed = pre_violated && !post_separated;
    let post_repair_detail = match (repair_failed, &post_config) {
        (true, Some(config)) => {
            let close_pair_indices = close_pair_index_pairs(config, cz_pairs, index);
            match &repair_ctx {
                Some(ctx) => {
                    let existed = any_separated_reassignment_exists(post, cz_pairs, index, ctx);
                    Some(
                        PostRepairDetail {
                            kind: if existed {
                                PostRepairKind::CascadeCandidate
                            } else {
                                PostRepairKind::Infeasible
                            },
                            close_pair_indices,
                            separated_slot_existed: existed,
                        },
                    )
                },
                None => Some(
                    PostRepairDetail {
                        kind: PostRepairKind::Ambiguous,
                        close_pair_indices,
                        separated_slot_existed: false,
                    },
                ),
            }
        },
        _ => None,
    };
    AssignmentRecord {
        pair_count,
        pre_violated,
        post_separated,
        needed_repair: pre_violated,
        repair_succeeded: pre_violated && post_separated,
        repair_failed,
        had_repair_ctx: repair_ctx.is_some(),
        empty_assignment: pre.len() == 0 && pair_count >= 2,
        post_repair_detail,
    }
}

} // verus!
