//! What the record of an assignment says, stated on targets and grid positions.

use crate::arch::{ArchModel, LocationAddr};
use crate::config::{lemma_entry_of_location, ordered_by_qubit, place_map, Config};
use crate::goals::{grid_of, on_grid, pairs_apart};
use crate::lane_index::LaneIndex;
use crate::layer_laws::is_missing;
use crate::measurement::{
    any_separated_reassignment_exists, close_pair_index_pairs, config_covers_pairs, covers,
    is_way_out, reach_of, record_assignment, separable, too_close, AssignmentRecord, RepairContext,
};
use crate::placement_laws::qubits_disjoint;
use crate::repair::{
    decoded, first_half, in_violation, pair_participates_in_violation, same_pair, second_half,
    separated_targets, valid_targets, Repair,
};
use crate::repair_laws::{
    halves, lemma_close, lemma_valid, lemma_well_apart, sent, stand_close, well_apart, would_do,
};
use crate::rows::slots_disjoint;
use crate::separation_laws::{
    in_pair, lemma_atoms_stand_apart, lemma_grid_of_entry, stand_apart,
};
use vstd::prelude::*;

verus! {

/// An atom is placed on a site that the architecture has.
pub open spec fn has_site(entries: Seq<(u32, LocationAddr)>, arch: ArchModel, q: u32) -> bool {
    exists|m: int|
        0 <= m < entries.len() && (#[trigger] entries[m]).0 == q && entries[m].1.word_id
            < arch.words.len() && entries[m].1.site_id
            < arch.words[entries[m].1.word_id as int].len()
}

/// All atoms of two pairs are on sites, and some atom of one does not stand apart
/// from some atom of the other.
pub open spec fn are_close(
    entries: Seq<(u32, LocationAddr)>,
    arch: ArchModel,
    p: (u32, u32),
    q: (u32, u32),
) -> bool {
    &&& has_site(entries, arch, p.0) && has_site(entries, arch, p.1)
    &&& has_site(entries, arch, q.0) && has_site(entries, arch, q.1)
    &&& exists|u: u32, v: u32| #[trigger]
        in_pair(p, u) && #[trigger] in_pair(q, v) && !stand_apart(entries, arch, u, v)
}

proof fn lemma_has_site(entries: Seq<(u32, LocationAddr)>, arch: ArchModel, q: u32)
    requires
        crate::config::distinct_qubits(entries),
    ensures
        has_site(entries, arch, q) <==> grid_of(place_map(entries), q, arch) is Some,
{
    if has_site(entries, arch, q) {
        let m = choose|m: int|
            0 <= m < entries.len() && (#[trigger] entries[m]).0 == q && entries[m].1.word_id
                < arch.words.len() && entries[m].1.site_id
                < arch.words[entries[m].1.word_id as int].len();
        lemma_grid_of_entry(entries, arch, m);
    }
    if grid_of(place_map(entries), q, arch) is Some {
        lemma_entry_of_location(entries, q);
        let loc = crate::config::location_in(entries, q)->0;
        let m = choose|m: int| 0 <= m < entries.len() && entries[m] == (q, loc);
        lemma_grid_of_entry(entries, arch, m);
        assert(entries[m].0 == q);
    }
}

proof fn lemma_are_close(
    entries: Seq<(u32, LocationAddr)>,
    arch: ArchModel,
    p: (u32, u32),
    q: (u32, u32),
)
    requires
        crate::config::distinct_qubits(entries),
    ensures
        are_close(entries, arch, p, q) <==> {
            let places = place_map(entries);
            on_grid(places, p, arch) && on_grid(places, q, arch) && !pairs_apart(
                places,
                p,
                q,
                arch,
            )
        },
{
    lemma_has_site(entries, arch, p.0);
    lemma_has_site(entries, arch, p.1);
    lemma_has_site(entries, arch, q.0);
    lemma_has_site(entries, arch, q.1);
    lemma_atoms_stand_apart(entries, arch, p.0, q.0);
    lemma_atoms_stand_apart(entries, arch, p.0, q.1);
    lemma_atoms_stand_apart(entries, arch, p.1, q.0);
    lemma_atoms_stand_apart(entries, arch, p.1, q.1);
    assert(in_pair(p, p.0) && in_pair(p, p.1) && in_pair(q, q.0) && in_pair(q, q.1));
}

/// The close combinations are those of two pairs of which some atoms do not stand
/// apart, in order, each once.
pub proof fn lemma_close_combinations(
    config: &Config,
    cz_pairs: &[(u32, u32)],
    index: &LaneIndex,
    close: Vec<(usize, usize)>,
    i: usize,
    j: usize,
)
    requires
        ordered_by_qubit(config@),
        call_ensures(close_pair_index_pairs, (config, cz_pairs, index), close),
    ensures
        close@.contains((i, j)) <==> i < j < cz_pairs@.len() && are_close(
            config@,
            index.arch(),
            cz_pairs@[i as int],
            cz_pairs@[j as int],
        ),
        forall|m: int, n: int|
            0 <= m < n < close@.len() ==> (#[trigger] close@[m]).0 < (#[trigger] close@[n]).0
                || close@[m].0 == close@[n].0 && close@[m].1 < close@[n].1,
{
    if i < j < cz_pairs@.len() {
        lemma_are_close(config@, index.arch(), cz_pairs@[i as int], cz_pairs@[j as int]);
    }
    assert(close@.contains((i, j)) <==> too_close(
        place_map(config@),
        cz_pairs@,
        index.arch(),
        i as int,
        j as int,
    ));
}

/// A pair takes part in a violation exactly where it is close to some pair of other
/// qubits.
pub proof fn lemma_participates(
    qa: u32,
    qb: u32,
    config: &Config,
    cz_pairs: &[(u32, u32)],
    index: &LaneIndex,
    b: bool,
)
    requires
        ordered_by_qubit(config@),
        cz_pairs@.len() > 0,
        call_ensures(pair_participates_in_violation, (qa, qb, config, cz_pairs, index), b),
    ensures
        b <==> exists|i: int|
            0 <= i < cz_pairs@.len() && (#[trigger] cz_pairs@[i]) != (qa, qb) && cz_pairs@[i] != (
            qb,
            qa,
        ) && are_close(config@, index.arch(), (qa, qb), cz_pairs@[i]),
{
    let (places, arch) = (place_map(config@), index.arch());
    if b {
        let i = choose|i: int|
            0 <= i < cz_pairs@.len() && !same_pair(#[trigger] cz_pairs@[i], (qa, qb)) && on_grid(
                places,
                cz_pairs@[i],
                arch,
            ) && !pairs_apart(places, (qa, qb), cz_pairs@[i], arch);
        lemma_are_close(config@, arch, (qa, qb), cz_pairs@[i]);
        assert(cz_pairs@[i] != (qa, qb) && cz_pairs@[i] != (qb, qa));
    }
    if exists|i: int|
        0 <= i < cz_pairs@.len() && (#[trigger] cz_pairs@[i]) != (qa, qb) && cz_pairs@[i] != (
        qb,
        qa,
    ) && are_close(config@, arch, (qa, qb), cz_pairs@[i]) {
        let i = choose|i: int|
            0 <= i < cz_pairs@.len() && (#[trigger] cz_pairs@[i]) != (qa, qb) && cz_pairs@[i] != (
            qb,
            qa,
        ) && are_close(config@, arch, (qa, qb), cz_pairs@[i]);
        lemma_are_close(config@, arch, (qa, qb), cz_pairs@[i]);
        assert(!same_pair(cz_pairs@[i], (qa, qb)));
        assert(in_violation(places, (qa, qb), cz_pairs@, arch));
    }
}

/// Pairs are covered exactly where none has a missing atom.
pub proof fn lemma_config_covers(config: &Config, cz_pairs: &[(u32, u32)], b: bool)
    requires
        call_ensures(config_covers_pairs, (config, cz_pairs), b),
    ensures
        b <==> forall|i: int|
            0 <= i < cz_pairs@.len() ==> !is_missing(config@, (#[trigger] cz_pairs@[i]).0)
                && !is_missing(config@, cz_pairs@[i].1),
{
    lemma_covers(config@, cz_pairs@);
}

proof fn lemma_covers(entries: Seq<(u32, LocationAddr)>, pairs: Seq<(u32, u32)>)
    ensures
        covers(place_map(entries), pairs) <==> forall|i: int|
            0 <= i < pairs.len() ==> !is_missing(entries, (#[trigger] pairs[i]).0) && !is_missing(
                entries,
                pairs[i].1,
            ),
{
    assert forall|q: u32| #[trigger] place_map(entries).contains_key(q) <==> !is_missing(
        entries,
        q,
    ) by {
        lemma_entry_of_location(entries, q);
        if place_map(entries).contains_key(q) {
            let loc = crate::config::location_in(entries, q)->0;
            let m = choose|m: int| 0 <= m < entries.len() && entries[m] == (q, loc);
            assert(entries[m].0 == q);
        }
    }
    if covers(place_map(entries), pairs) {
        assert forall|i: int| 0 <= i < pairs.len() implies !is_missing(
            entries,
            (#[trigger] pairs[i]).0,
        ) && !is_missing(entries, pairs[i].1) by {
            assert(place_map(entries).contains_key(pairs[i].0));
            assert(place_map(entries).contains_key(pairs[i].1));
        }
    }
}

/// Every qubit has one target at most.
pub open spec fn one_target_each(targets: Seq<(u32, u64)>) -> bool {
    forall|i: int, j: int|
        0 <= i < j < targets.len() ==> (#[trigger] targets[i]).0 != (#[trigger] targets[j]).0
}

/// Every qubit of every pair has a target.
pub open spec fn all_have_targets(targets: Seq<(u32, u64)>, pairs: Seq<(u32, u32)>) -> bool {
    forall|i: int|
        0 <= i < pairs.len() ==> has_target(targets, (#[trigger] pairs[i]).0) && has_target(
            targets,
            pairs[i].1,
        )
}

/// A qubit has a target.
pub open spec fn has_target(targets: Seq<(u32, u64)>, q: u32) -> bool {
    exists|k: int| 0 <= k < targets.len() && (#[trigger] targets[k]).0 == q
}

proof fn lemma_all_have_targets(targets: Seq<(u32, u64)>, pairs: Seq<(u32, u32)>)
    ensures
        all_have_targets(targets, pairs) <==> covers(place_map(decoded(targets)), pairs),
{
    let entries = decoded(targets);
    lemma_covers(entries, pairs);
    assert forall|q: u32| has_target(targets, q) <==> !#[trigger] is_missing(entries, q) by {
        if has_target(targets, q) {
            let k = choose|k: int| 0 <= k < targets.len() && (#[trigger] targets[k]).0 == q;
            assert(entries[k].0 == q);
        }
        if !is_missing(entries, q) {
            let k = choose|k: int| 0 <= k < entries.len() && (#[trigger] entries[k]).0 == q;
            assert(targets[k].0 == q);
        }
    }
    if all_have_targets(targets, pairs) {
        assert forall|i: int| 0 <= i < pairs.len() implies !is_missing(
            entries,
            (#[trigger] pairs[i]).0,
        ) && !is_missing(entries, pairs[i].1) by {
            assert(has_target(targets, pairs[i].0));
        }
    }
    if covers(place_map(entries), pairs) {
        assert forall|i: int| 0 <= i < pairs.len() implies has_target(
            targets,
            (#[trigger] pairs[i]).0,
        ) && has_target(targets, pairs[i].1) by {
            assert(!is_missing(entries, pairs[i].0));
            assert(!is_missing(entries, pairs[i].1));
        }
    }
}

/// A pair that stands close to another one could go to a vacant position, after
/// which all pairs are well apart.
pub open spec fn could_be_repaired(reach: Repair) -> bool {
    exists|i: int, n: int, s: u64, t: u64|
        0 <= i < reach.pairs.len() && 0 <= n < reach.pairs.len() && i != n
            && #[trigger] stand_close(
            reach.targets,
            reach.arch,
            reach.pairs[i],
            reach.pairs[n],
        ) && #[trigger] would_do(reach, reach.pairs[i], s, t)
}

proof fn lemma_could_be_repaired(reach: Repair)
    requires
        slots_disjoint(reach.slots),
        qubits_disjoint(reach.pairs),
        valid_targets(reach.targets),
    ensures
        could_be_repaired(reach) <==> exists|i: int, j: int, swapped: bool|
            0 <= i < reach.pairs.len() && reach.is_close(reach.pairs[i]) && #[trigger] reach.works(
                reach.pairs[i],
                j,
                swapped,
            ),
{
    if could_be_repaired(reach) {
        let (i, n, s, t) = choose|i: int, n: int, s: u64, t: u64|
            0 <= i < reach.pairs.len() && 0 <= n < reach.pairs.len() && i != n
                && #[trigger] stand_close(
                reach.targets,
                reach.arch,
                reach.pairs[i],
                reach.pairs[n],
            ) && #[trigger] would_do(reach, reach.pairs[i], s, t);
        let (j, swapped) = reach.lemma_would_do(i, s, t);
        reach.lemma_is_close(i, n);
        assert(reach.works(reach.pairs[i], j, swapped));
    }
    if exists|i: int, j: int, swapped: bool|
        0 <= i < reach.pairs.len() && reach.is_close(reach.pairs[i]) && #[trigger] reach.works(
            reach.pairs[i],
            j,
            swapped,
        ) {
        let (i, j, swapped) = choose|i: int, j: int, swapped: bool|
            0 <= i < reach.pairs.len() && reach.is_close(reach.pairs[i]) && #[trigger] reach.works(
                reach.pairs[i],
                j,
                swapped,
            );
        let pair = reach.pairs[i];
        let places = place_map(decoded(reach.targets));
        let n = choose|n: int|
            0 <= n < reach.pairs.len() && !same_pair(#[trigger] reach.pairs[n], pair) && on_grid(
                places,
                reach.pairs[n],
                reach.arch,
            ) && !pairs_apart(places, pair, reach.pairs[n], reach.arch);
        lemma_close(reach.targets, reach.arch, pair, reach.pairs[n]);
        let (s, t) = (first_half(reach.slots[j], swapped), second_half(reach.slots[j], swapped));
        let after = reach.trial(pair, j, swapped);
        reach.lemma_open(i, j);
        reach.lemma_trial(pair, j, swapped, after);
        lemma_well_apart(after, reach.pairs, reach.arch);
        assert(halves(reach.slots[j], s, t));
        assert(sent(reach.targets, pair, s, t, after));
        assert(would_do(reach, pair, s, t));
        assert(i != n);
    }
}

/// A reassignment that separates all pairs exists exactly where they are well apart
/// already or sending one close pair to a vacant position sets them well apart.
pub proof fn lemma_reassignment_exists(
    targets: &Vec<(u32, u64)>,
    cz_pairs: &[(u32, u32)],
    index: &LaneIndex,
    ctx: &RepairContext<'_>,
    b: bool,
)
    requires
        slots_disjoint(ctx.slots@),
        qubits_disjoint(cz_pairs@),
        call_ensures(any_separated_reassignment_exists, (targets, cz_pairs, index, ctx), b),
    ensures
        b <==> one_target_each(targets@) && (well_apart(targets@, cz_pairs@, index.arch())
            || could_be_repaired(
            reach_of(targets@, cz_pairs@, index.arch(), ctx.slots@, ctx.blocked@),
        )),
{
    lemma_separable(targets@, cz_pairs@, index.arch(), *ctx);
}

proof fn lemma_separable(
    targets: Seq<(u32, u64)>,
    pairs: Seq<(u32, u32)>,
    arch: ArchModel,
    ctx: RepairContext<'_>,
)
    requires
        slots_disjoint(ctx.slots@),
        qubits_disjoint(pairs),
    ensures
        separable(targets, pairs, arch, ctx.slots@, ctx.blocked@) <==> one_target_each(targets) && (
        well_apart(targets, pairs, arch) || could_be_repaired(
            reach_of(targets, pairs, arch, ctx.slots@, ctx.blocked@),
        )),
{
    let (slots, blocked) = (ctx.slots@, ctx.blocked@);
    let reach = reach_of(targets, pairs, arch, slots, blocked);
    lemma_valid(targets);
    lemma_well_apart(targets, pairs, arch);
    if valid_targets(targets) {
        lemma_could_be_repaired(reach);
        if separable(targets, pairs, arch, slots, blocked) && !separated_targets(
            targets,
            pairs,
            arch,
        ) {
            let (i, j, swapped) = choose|i: int, j: int, swapped: bool| #[trigger]
                is_way_out(targets, pairs, arch, slots, blocked, i, j, swapped);
            assert(reach.works(reach.pairs[i], j, swapped));
        }
        if could_be_repaired(reach) {
            let (i, j, swapped) = choose|i: int, j: int, swapped: bool|
                0 <= i < reach.pairs.len() && reach.is_close(reach.pairs[i])
                    && #[trigger] reach.works(reach.pairs[i], j, swapped);
            assert(is_way_out(targets, pairs, arch, slots, blocked, i, j, swapped));
        }
    }
}

/// A repair was needed where there are several pairs, all with one target each, and
/// they were not well apart; it succeeded where they all have targets and are well
/// apart afterwards, and failed otherwise.
pub proof fn lemma_record_outcome(
    pre: &Vec<(u32, u64)>,
    post: &Vec<(u32, u64)>,
    cz_pairs: &[(u32, u32)],
    index: &LaneIndex,
    ctx: Option<RepairContext<'_>>,
    record: AssignmentRecord,
)
    requires
        call_ensures(record_assignment, (pre, post, cz_pairs, index, ctx), record),
    ensures
        ({
            let (pairs, arch) = (cz_pairs@, index.arch());
            let several = pairs.len() >= 2;
            let needed = pre@.len() > 0 && several && one_target_each(pre@) && all_have_targets(
                pre@,
                pairs,
            ) && !well_apart(pre@, pairs, arch);
            let done = all_have_targets(post@, pairs) && well_apart(post@, pairs, arch);
            &&& record.pair_count == pairs.len()
            &&& record.needed_repair == needed
            &&& record.pre_violated == needed
            &&& record.repair_succeeded == (needed && done)
            &&& record.repair_failed == (needed && !done)
            &&& needed ==> record.post_separated == done
            &&& record.empty_assignment == (pre@.len() == 0 && several)
            &&& record.had_repair_ctx == (ctx is Some)
            &&& record.post_repair_detail is Some <==> record.repair_failed && one_target_each(
                post@,
            )
        }),
{
    lemma_valid(pre@);
    lemma_valid(post@);
    lemma_well_apart(pre@, cz_pairs@, index.arch());
    lemma_well_apart(post@, cz_pairs@, index.arch());
    lemma_all_have_targets(pre@, cz_pairs@);
    lemma_all_have_targets(post@, cz_pairs@);
}

/// After a failed repair, the record lists the combinations of pairs that still stand
/// close.
pub proof fn lemma_record_close_pairs(
    pre: &Vec<(u32, u64)>,
    post: &Vec<(u32, u64)>,
    cz_pairs: &[(u32, u32)],
    index: &LaneIndex,
    ctx: Option<RepairContext<'_>>,
    record: AssignmentRecord,
    i: usize,
    j: usize,
)
    requires
        call_ensures(record_assignment, (pre, post, cz_pairs, index, ctx), record),
        record.post_repair_detail is Some,
    ensures
        (record.post_repair_detail->0).close_pair_indices@.contains((i, j)) <==> i < j
            < cz_pairs@.len() && stand_close(
            post@,
            index.arch(),
            cz_pairs@[i as int],
            cz_pairs@[j as int],
        ),
{
    let arch = index.arch();
    let detail = record.post_repair_detail->0;
    assert(valid_targets(post@));
    assert(detail.close_pair_indices@.contains((i, j)) <==> too_close(
        place_map(decoded(post@)),
        cz_pairs@,
        arch,
        i as int,
        j as int,
    ));
    if i < j < cz_pairs@.len() {
        lemma_close(post@, arch, cz_pairs@[i as int], cz_pairs@[j as int]);
    }
}

/// After a failed repair, the record says whether one more move would have helped,
/// as far as the positions are known.
pub proof fn lemma_record_reason(
    pre: &Vec<(u32, u64)>,
    post: &Vec<(u32, u64)>,
    cz_pairs: &[(u32, u32)],
    index: &LaneIndex,
    ctx: Option<RepairContext<'_>>,
    record: AssignmentRecord,
)
    requires
        qubits_disjoint(cz_pairs@),
        ctx is Some ==> slots_disjoint((ctx->0).slots@),
        call_ensures(record_assignment, (pre, post, cz_pairs, index, ctx), record),
        record.post_repair_detail is Some,
    ensures
        ({
            let detail = record.post_repair_detail->0;
            match ctx {
                Some(ctx) => {
                    let could = could_be_repaired(
                        reach_of(post@, cz_pairs@, index.arch(), ctx.slots@, ctx.blocked@),
                    );
                    &&& detail.separated_slot_existed == could
                    &&& could ==> detail.kind is CascadeCandidate
                    &&& !could ==> detail.kind is Infeasible
                },
                None => detail.kind is Ambiguous && !detail.separated_slot_existed,
            }
        }),
{
    let arch = index.arch();
    let detail = record.post_repair_detail->0;
    if let Some(ctx) = ctx {
        assert(one_target_each(post@) && !well_apart(post@, cz_pairs@, arch)) by {
            assert(valid_targets(post@));
            lemma_valid(post@);
            lemma_well_apart(post@, cz_pairs@, arch);
            lemma_all_have_targets(post@, cz_pairs@);
            assert(record.repair_failed);
            if well_apart(post@, cz_pairs@, arch) {
                lemma_apart_have_targets(post@, cz_pairs@, arch);
            }
        }
        assert(detail.separated_slot_existed == separable(
            post@,
            cz_pairs@,
            arch,
            ctx.slots@,
            ctx.blocked@,
        ));
        lemma_separable(post@, cz_pairs@, arch, ctx);
    }
}

/// Pairs that are well apart all have targets.
proof fn lemma_apart_have_targets(
    targets: Seq<(u32, u64)>,
    pairs: Seq<(u32, u32)>,
    arch: ArchModel,
)
    requires
        pairs.len() >= 2,
        well_apart(targets, pairs, arch),
    ensures
        all_have_targets(targets, pairs),
{
    let entries = decoded(targets);
    assert forall|i: int| 0 <= i < pairs.len() implies has_target(targets, (#[trigger] pairs[i]).0)
        && has_target(targets, pairs[i].1) by {
        let n = if i == 0 {
            1
        } else {
            0int
        };
        assert(in_pair(pairs[i], pairs[i].0) && in_pair(pairs[i], pairs[i].1));
        assert(in_pair(pairs[n], pairs[n].0));
        assert(stand_apart(entries, arch, pairs[i].0, pairs[n].0));
        assert(stand_apart(entries, arch, pairs[i].1, pairs[n].0));
        let m = choose|m: int| 0 <= m < entries.len() && (#[trigger] entries[m]).0 == pairs[i].0;
        assert(targets[m].0 == pairs[i].0);
        let k = choose|k: int| 0 <= k < entries.len() && (#[trigger] entries[k]).0 == pairs[i].1;
        assert(targets[k].0 == pairs[i].1);
    }
}

} // verus!
