//! Which atoms stand in the way of an assignment, and what becomes of them,
//! stated on atoms, targets and lanes.

use crate::arch::{ArchModel, ArchSpec, LocationAddr};
use crate::assignment::Staged;
use crate::assignment_laws::placed_qubits;
use crate::blockers::{
    blocks_exit, blocks_target, detect_accidental_cz_spectators, detect_accidentals_created,
    detect_blockers, exits_to, is_blocker, is_created_accidental, is_held, is_pair_target,
    Spectators,
};
use crate::cleanup_laws::atoms_distinct;
use crate::config::{lemma_occupant_entry, occupant_in, Config};
use crate::entangling::is_regular;
use crate::lane_index::{has_lane, Lane, LaneIndex};
use crate::position_laws::{faces, lemma_cz_partner_faces};
use crate::rows::is_row_solution;
use crate::seqs::{lemma_sorted_members_hold, sorted_members};
use std::collections::HashSet;
use vstd::prelude::*;

verus! {

/// Atom `m` sits where a pair qubit shall go.
pub open spec fn sits_on_pair_target(
    entries: Seq<(u32, LocationAddr)>,
    targets: Seq<(u32, u64)>,
    pair_qubits: Set<u32>,
    m: int,
) -> bool {
    exists|t: int|
        0 <= t < targets.len() && pair_qubits.contains((#[trigger] targets[t]).0) && targets[t].1
            == entries[m].1.code()
}

/// Atom `p` is a pair qubit, every lane from it leads to where some atom sits, and
/// one of them leads to where atom `m` sits.
pub open spec fn hems_in(
    entries: Seq<(u32, LocationAddr)>,
    pair_qubits: Set<u32>,
    arch: ArchModel,
    p: int,
    m: int,
) -> bool {
    &&& 0 <= p < entries.len()
    &&& pair_qubits.contains(entries[p].0)
    &&& has_lane(arch, Lane { src: entries[p].1, dst: entries[m].1 })
    &&& forall|lane: Lane| #[trigger]
        has_lane(arch, lane) && lane.src == entries[p].1 ==> exists|k: int|
            0 <= k < entries.len() && (#[trigger] entries[k]).1.code() == lane.dst.code()
}

/// Atom `m` sits on the target of a pair qubit or hems one in.
pub open spec fn blocks_pairs(
    entries: Seq<(u32, LocationAddr)>,
    targets: Seq<(u32, u64)>,
    pair_qubits: Set<u32>,
    arch: ArchModel,
    m: int,
) -> bool {
    ||| sits_on_pair_target(entries, targets, pair_qubits, m)
    ||| exists|p: int| #[trigger] hems_in(entries, pair_qubits, arch, p, m)
}

/// Atom `m` sits across from an atom that is in no row either.
pub open spec fn crosses_free(
    entries: Seq<(u32, LocationAddr)>,
    arch: ArchModel,
    row_qubits: Set<u32>,
    m: int,
) -> bool {
    exists|n: int|
        0 <= n < entries.len() && !row_qubits.contains((#[trigger] entries[n]).0) && faces(
            arch,
            entries[m].1,
            entries[n].1,
        )
}

/// Atom `m` sits across from where an atom of no pair shall go.
pub open spec fn crosses_target(
    entries: Seq<(u32, LocationAddr)>,
    targets: Seq<(u32, u64)>,
    pair_qubits: Set<u32>,
    arch: ArchModel,
    m: int,
) -> bool {
    exists|t: int|
        0 <= t < targets.len() && !pair_qubits.contains((#[trigger] targets[t]).0) && faces(
            arch,
            LocationAddr::of_code(targets[t].1),
            entries[m].1,
        )
}

proof fn lemma_sits(
    entries: Seq<(u32, LocationAddr)>,
    loc: LocationAddr,
    q: u32,
)
    requires
        atoms_distinct(entries),
    ensures
        occupant_in(entries, loc) == Some(q) <==> exists|m: int|
            0 <= m < entries.len() && #[trigger] entries[m] == (q, loc),
{
    lemma_occupant_entry(entries, loc);
    if exists|m: int| 0 <= m < entries.len() && #[trigger] entries[m] == (q, loc) {
        let m = choose|m: int| 0 <= m < entries.len() && #[trigger] entries[m] == (q, loc);
        assert(entries[m].1 == loc);
        let r = occupant_in(entries, loc)->0;
        let n = choose|n: int| 0 <= n < entries.len() && entries[n] == (r, loc);
        if m < n {
            assert(entries[m].1 != entries[n].1);
        } else if n < m {
            assert(entries[n].1 != entries[m].1);
        }
    }
    if occupant_in(entries, loc) == Some(q) {
        let n = choose|n: int| 0 <= n < entries.len() && entries[n] == (q, loc);
        assert(entries[n] == (q, loc));
    }
}

proof fn lemma_exit(
    entries: Seq<(u32, LocationAddr)>,
    pair_qubits: Set<u32>,
    arch: ArchModel,
    q: u32,
    p: int,
)
    requires
        atoms_distinct(entries),
        0 <= p < entries.len(),
    ensures
        blocks_exit(entries, pair_qubits, arch, q, p) <==> exists|m: int|
            0 <= m < entries.len() && (#[trigger] entries[m]).0 == q && hems_in(
                entries,
                pair_qubits,
                arch,
                p,
                m,
            ),
{
    if blocks_exit(entries, pair_qubits, arch, q, p) {
        let lane = choose|lane: Lane| #[trigger]
            has_lane(arch, lane) && lane.src == entries[p].1 && occupant_in(entries, lane.dst)
                == Some(q);
        lemma_sits(entries, lane.dst, q);
        let m = choose|m: int| 0 <= m < entries.len() && #[trigger] entries[m] == (q, lane.dst);
        assert(lane == Lane { src: entries[p].1, dst: entries[m].1 });
        assert forall|lane: Lane| #[trigger]
            has_lane(arch, lane) && lane.src == entries[p].1 implies exists|k: int|
            0 <= k < entries.len() && (#[trigger] entries[k]).1.code() == lane.dst.code() by {
            assert(is_held(entries, lane.dst.code()));
        }
        assert(entries[m].0 == q && hems_in(entries, pair_qubits, arch, p, m));
    }
    if exists|m: int|
        0 <= m < entries.len() && (#[trigger] entries[m]).0 == q && hems_in(
            entries,
            pair_qubits,
            arch,
            p,
            m,
        ) {
        let m = choose|m: int|
            0 <= m < entries.len() && (#[trigger] entries[m]).0 == q && hems_in(
                entries,
                pair_qubits,
                arch,
                p,
                m,
            );
        let lane = Lane { src: entries[p].1, dst: entries[m].1 };
        lemma_sits(entries, lane.dst, q);
        assert(entries[m] == (q, lane.dst));
        assert(has_lane(arch, lane));
        assert(exits_to(entries, arch, q, entries[p].1));
        assert forall|lane: Lane| #[trigger]
            has_lane(arch, lane) && lane.src == entries[p].1 implies is_held(
            entries,
            lane.dst.code(),
        ) by {
            let k = choose|k: int|
                0 <= k < entries.len() && (#[trigger] entries[k]).1.code() == lane.dst.code();
            assert(entries[k].1.code() == lane.dst.code());
        }
    }
}

/// The blockers are the atoms outside the rows that sit on a pair's target or hem
/// a pair qubit in.
pub proof fn lemma_blocker_reasons(
    targets: Seq<(u32, u64)>,
    pair_qubits: Set<u32>,
    entries: Seq<(u32, LocationAddr)>,
    row_qubits: Set<u32>,
    arch: ArchModel,
    q: u32,
)
    requires
        atoms_distinct(entries),
    ensures
        is_blocker(targets, pair_qubits, entries, row_qubits, arch)(q) <==> !row_qubits.contains(q)
            && exists|m: int|
            0 <= m < entries.len() && (#[trigger] entries[m]).0 == q && blocks_pairs(
                entries,
                targets,
                pair_qubits,
                arch,
                m,
            ),
{
    if is_blocker(targets, pair_qubits, entries, row_qubits, arch)(q) {
        if exists|i: int|
            0 <= i < entries.len() && (#[trigger] entries[i]).0 == q && blocks_target(
                entries,
                targets,
                pair_qubits,
                i,
            ) {
            let m = choose|i: int|
                0 <= i < entries.len() && (#[trigger] entries[i]).0 == q && blocks_target(
                    entries,
                    targets,
                    pair_qubits,
                    i,
                );
            assert(sits_on_pair_target(entries, targets, pair_qubits, m));
            assert(blocks_pairs(entries, targets, pair_qubits, arch, m));
        } else {
            let p = choose|i: int|
                0 <= i < entries.len() && #[trigger] blocks_exit(
                    entries,
                    pair_qubits,
                    arch,
                    q,
                    i,
                );
            lemma_exit(entries, pair_qubits, arch, q, p);
            let m = choose|m: int|
                0 <= m < entries.len() && (#[trigger] entries[m]).0 == q && hems_in(
                    entries,
                    pair_qubits,
                    arch,
                    p,
                    m,
                );
            assert(blocks_pairs(entries, targets, pair_qubits, arch, m));
        }
    }
    if !row_qubits.contains(q) && exists|m: int|
        0 <= m < entries.len() && (#[trigger] entries[m]).0 == q && blocks_pairs(
            entries,
            targets,
            pair_qubits,
            arch,
            m,
        ) {
        let m = choose|m: int|
            0 <= m < entries.len() && (#[trigger] entries[m]).0 == q && blocks_pairs(
                entries,
                targets,
                pair_qubits,
                arch,
                m,
            );
        if sits_on_pair_target(entries, targets, pair_qubits, m) {
            let t = choose|t: int|
                0 <= t < targets.len() && pair_qubits.contains((#[trigger] targets[t]).0)
                    && targets[t].1 == entries[m].1.code();
            assert(is_pair_target(targets, pair_qubits, entries[m].1.code()));
            assert(blocks_target(entries, targets, pair_qubits, m));
        } else {
            let p = choose|p: int| #[trigger] hems_in(entries, pair_qubits, arch, p, m);
            lemma_exit(entries, pair_qubits, arch, q, p);
            assert(entries[m].0 == q);
            assert(blocks_exit(entries, pair_qubits, arch, q, p));
        }
    }
}

/// [`detect_blockers`] finds exactly the atoms outside the rows that sit on a
/// pair's target or hem a pair qubit in.
pub proof fn lemma_detect_blockers(
    targets: &[(u32, u64)],
    pair_qubits: &HashSet<u32>,
    config: &Config,
    row_qubits: &HashSet<u32>,
    index: &LaneIndex,
    found: Vec<u32>,
    q: u32,
)
    requires
        atoms_distinct(config@),
        call_ensures(detect_blockers, (targets, pair_qubits, config, row_qubits, index), found),
    ensures
        found@.contains(q) <==> !row_qubits@.contains(q) && exists|m: int|
            0 <= m < config@.len() && (#[trigger] config@[m]).0 == q && blocks_pairs(
                config@,
                targets@,
                pair_qubits@,
                index.arch(),
                m,
            ),
        forall|i: int, j: int|
            0 <= i < j < found@.len() ==> #[trigger] found@[i] < #[trigger] found@[j],
{
    lemma_blocker_reasons(
        targets@,
        pair_qubits@,
        config@,
        row_qubits@,
        index.arch(),
        q,
    );
    assert(found@.contains(q) <==> is_blocker(
        targets@,
        pair_qubits@,
        config@,
        row_qubits@,
        index.arch(),
    )(q));
}

proof fn lemma_codes_distinct(entries: Seq<(u32, LocationAddr)>, i: int, j: int)
    requires
        atoms_distinct(entries),
        0 <= i < j < entries.len(),
    ensures
        entries[i].1.code() != entries[j].1.code(),
        entries[i].0 != entries[j].0,
{
    assert(entries[i].1 != entries[j].1);
    assert(entries[i].0 < entries[j].0);
    if entries[i].1.code() == entries[j].1.code() {
        entries[i].1.lemma_code_injective(entries[j].1);
    }
}

proof fn lemma_spectators(model: Spectators, q: u32)
    requires
        atoms_distinct(model.entries),
        is_regular(model.arch),
        model.pair_qubits.subset_of(model.row_qubits),
    ensures
        model.is_member()(q) <==> !model.row_qubits.contains(q) && exists|m: int|
            0 <= m < model.entries.len() && (#[trigger] model.entries[m]).0 == q && crosses_free(
                model.entries,
                model.arch,
                model.row_qubits,
                m,
            ),
{
    let entries = model.entries;
    assert forall|i: int, j: int| 0 <= i < j < entries.len() implies (#[trigger] entries[i]).1.code()
        != (#[trigger] entries[j]).1.code() by {
        lemma_codes_distinct(entries, i, j);
    }
    assert forall|i: int, j: int| 0 <= i < j < entries.len() implies (#[trigger] entries[i]).0 != (
    #[trigger] entries[j]).0 by {
        lemma_codes_distinct(entries, i, j);
    }
    assert forall|i: int| 0 <= i < entries.len() implies match model.arch.cz_partner(
        (#[trigger] entries[i]).1,
    ) {
        Some(partner) => model.arch.cz_partner(partner) == Some(entries[i].1),
        None => true,
    } by {
        if let Some(partner) = model.arch.cz_partner(entries[i].1) {
            lemma_cz_partner_faces(model.arch, entries[i].1, partner);
        }
    }
    assert(model.is_regular());
    if model.is_member()(q) {
        let i = choose|i: int|
            0 <= i < entries.len() && #[trigger] model.shows(i) && (entries[i].0 == q
                || model.other(i) == Some(q));
        let other = model.other(i)->0;
        let partner = model.arch.cz_partner(entries[i].1)->0;
        lemma_cz_partner_faces(model.arch, entries[i].1, partner);
        lemma_cz_partner_faces(model.arch, partner, entries[i].1);
        lemma_sits(entries, partner, other);
        let n = choose|n: int| 0 <= n < entries.len() && #[trigger] entries[n] == (other, partner);
        if entries[i].0 == q {
            assert(faces(model.arch, entries[i].1, entries[n].1));
            assert(crosses_free(entries, model.arch, model.row_qubits, i));
            assert(entries[i].0 == q);
        } else {
            assert(faces(model.arch, entries[n].1, entries[i].1));
            assert(crosses_free(entries, model.arch, model.row_qubits, n));
            assert(entries[n].0 == q);
        }
    }
    if !model.row_qubits.contains(q) && exists|m: int|
        0 <= m < entries.len() && (#[trigger] entries[m]).0 == q && crosses_free(
            entries,
            model.arch,
            model.row_qubits,
            m,
        ) {
        let m = choose|m: int|
            0 <= m < entries.len() && (#[trigger] entries[m]).0 == q && crosses_free(
                entries,
                model.arch,
                model.row_qubits,
                m,
            );
        let n = choose|n: int|
            0 <= n < entries.len() && !model.row_qubits.contains((#[trigger] entries[n]).0)
                && faces(model.arch, entries[m].1, entries[n].1);
        lemma_cz_partner_faces(model.arch, entries[m].1, entries[n].1);
        lemma_sits(entries, entries[n].1, entries[n].0);
        assert(entries[n] == (entries[n].0, entries[n].1));
        assert(model.other(m) == Some(entries[n].0));
        model.lemma_both_members(m);
    }
}

/// [`detect_accidental_cz_spectators`] finds exactly the atoms that are in no row
/// and sit across from an atom that is in none either: both of each accidental CZ.
pub proof fn lemma_detect_spectators(
    config: &Config,
    arch: &ArchSpec,
    pair_qubits: &HashSet<u32>,
    row_qubits: &HashSet<u32>,
    found: Vec<u32>,
    q: u32,
)
    requires
        atoms_distinct(config@),
        is_regular(arch@),
        pair_qubits@.subset_of(row_qubits@),
        call_ensures(
            detect_accidental_cz_spectators,
            (config, arch, pair_qubits, row_qubits),
            found,
        ),
    ensures
        found@.contains(q) <==> !row_qubits@.contains(q) && exists|m: int|
            0 <= m < config@.len() && (#[trigger] config@[m]).0 == q && crosses_free(
                config@,
                arch@,
                row_qubits@,
                m,
            ),
        forall|i: int, j: int|
            0 <= i < j < found@.len() ==> #[trigger] found@[i] < #[trigger] found@[j],
{
    let model = Spectators {
        entries: config@,
        arch: arch@,
        pair_qubits: pair_qubits@,
        row_qubits: row_qubits@,
    };
    lemma_spectators(model, q);
    assert(found@.contains(q) <==> model.is_member()(q));
}

proof fn lemma_created(
    targets: Seq<(u32, u64)>,
    arch: ArchModel,
    entries: Seq<(u32, LocationAddr)>,
    pair_qubits: Set<u32>,
    row_qubits: Set<u32>,
    q: u32,
)
    requires
        atoms_distinct(entries),
        is_regular(arch),
    ensures
        is_created_accidental(targets, arch, entries, pair_qubits, row_qubits)(q)
            <==> !row_qubits.contains(q) && exists|m: int|
            0 <= m < entries.len() && (#[trigger] entries[m]).0 == q && crosses_target(
                entries,
                targets,
                pair_qubits,
                arch,
                m,
            ),
{
    if is_created_accidental(targets, arch, entries, pair_qubits, row_qubits)(q) {
        let t = choose|i: int|
            0 <= i < targets.len() && !pair_qubits.contains((#[trigger] targets[i]).0)
                && crate::blockers::across_from(
                entries,
                arch,
                LocationAddr::of_code(targets[i].1),
            ) == Some(q);
        let loc = LocationAddr::of_code(targets[t].1);
        let partner = arch.cz_partner(loc)->0;
        lemma_cz_partner_faces(arch, loc, partner);
        lemma_sits(entries, partner, q);
        let m = choose|m: int| 0 <= m < entries.len() && #[trigger] entries[m] == (q, partner);
        assert(faces(arch, LocationAddr::of_code(targets[t].1), entries[m].1));
        assert(crosses_target(entries, targets, pair_qubits, arch, m));
        assert(entries[m].0 == q);
    }
    if !row_qubits.contains(q) && exists|m: int|
        0 <= m < entries.len() && (#[trigger] entries[m]).0 == q && crosses_target(
            entries,
            targets,
            pair_qubits,
            arch,
            m,
        ) {
        let m = choose|m: int|
            0 <= m < entries.len() && (#[trigger] entries[m]).0 == q && crosses_target(
                entries,
                targets,
                pair_qubits,
                arch,
                m,
            );
        let t = choose|t: int|
            0 <= t < targets.len() && !pair_qubits.contains((#[trigger] targets[t]).0) && faces(
                arch,
                LocationAddr::of_code(targets[t].1),
                entries[m].1,
            );
        let loc = LocationAddr::of_code(targets[t].1);
        lemma_cz_partner_faces(arch, loc, entries[m].1);
        lemma_sits(entries, entries[m].1, q);
        assert(entries[m] == (q, entries[m].1));
        assert(crate::blockers::across_from(entries, arch, loc) == Some(q));
    }
}

/// [`detect_accidentals_created`] finds exactly the atoms that are in no row and
/// sit across from where an atom of no pair shall go.
pub proof fn lemma_detect_created(
    targets: &[(u32, u64)],
    arch: &ArchSpec,
    config: &Config,
    pair_qubits: &HashSet<u32>,
    row_qubits: &HashSet<u32>,
    found: Vec<u32>,
    q: u32,
)
    requires
        atoms_distinct(config@),
        is_regular(arch@),
        call_ensures(
            detect_accidentals_created,
            (targets, arch, config, pair_qubits, row_qubits),
            found,
        ),
    ensures
        found@.contains(q) <==> !row_qubits@.contains(q) && exists|m: int|
            0 <= m < config@.len() && (#[trigger] config@[m]).0 == q && crosses_target(
                config@,
                targets@,
                pair_qubits@,
                arch@,
                m,
            ),
        forall|i: int, j: int|
            0 <= i < j < found@.len() ==> #[trigger] found@[i] < #[trigger] found@[j],
{
    lemma_created(targets@, arch@, config@, pair_qubits@, row_qubits@, q);
    assert(found@.contains(q) <==> is_created_accidental(
        targets@,
        arch@,
        config@,
        pair_qubits@,
        row_qubits@,
    )(q));
}

/// Why atom `m` is in the way: it sits on a pair's target or hems a pair qubit in;
/// where accidental CZs count, also that it sits across from another atom outside
/// the rows, or across from where an atom of no pair shall go.
pub open spec fn in_the_way(
    staged: Staged,
    row_qubits: Set<u32>,
    targets: Seq<(u32, u64)>,
    m: int,
) -> bool {
    let entries = staged.layer.entries;
    let pairs = staged.layer.pair_qubits();
    ||| blocks_pairs(entries, targets, pairs, staged.lanes, m)
    ||| staged.accidentals && crosses_free(entries, staged.layer.arch, row_qubits, m)
    ||| staged.accidentals && crosses_target(entries, targets, pairs, staged.layer.arch, m)
}

proof fn lemma_appended(a: Seq<u32>, b: Seq<u32>, q: u32)
    ensures
        (a + b).contains(q) <==> a.contains(q) || b.contains(q),
{
    if (a + b).contains(q) {
        let k = choose|k: int| 0 <= k < (a + b).len() && (a + b)[k] == q;
        if k < a.len() {
            assert(a[k] == q);
        } else {
            assert(b[k - a.len()] == q);
        }
    }
    if a.contains(q) {
        let k = choose|k: int| 0 <= k < a.len() && a[k] == q;
        assert((a + b)[k] == q);
    }
    if b.contains(q) {
        let k = choose|k: int| 0 <= k < b.len() && b[k] == q;
        assert((a + b)[a.len() + k] == q);
    }
}

impl Staged {
    /// The obstacles of a pass are exactly the atoms outside its rows that are in
    /// the way.
    pub proof fn lemma_obstacle_reasons(
        self,
        blockers: Seq<u32>,
        targets: Seq<(u32, u64)>,
        q: u32,
    )
        requires
            atoms_distinct(self.layer.entries),
            is_regular(self.layer.arch),
        ensures
            self.obstacles(blockers, targets).contains(q) <==> {
                &&& !self.layer.pair_qubits().contains(q)
                &&& !blockers.contains(q)
                &&& exists|m: int|
                    0 <= m < self.layer.entries.len() && (#[trigger] self.layer.entries[m]).0 == q
                        && in_the_way(self, self.row_qubits(blockers), targets, m)
            },
    {
        let pairs = self.layer.pair_qubits();
        let rows = self.row_qubits(blockers);
        let entries = self.layer.entries;
        let arch = self.layer.arch;
        let model = Spectators { entries, arch, pair_qubits: pairs, row_qubits: rows };
        let by_pairs = is_blocker(targets, pairs, entries, rows, self.lanes);
        let created = is_created_accidental(targets, arch, entries, pairs, rows);
        lemma_blocker_reasons(targets, pairs, entries, rows, self.lanes, q);
        lemma_spectators(model, q);
        lemma_created(targets, arch, entries, pairs, rows, q);
        lemma_sorted_members_hold(by_pairs);
        lemma_sorted_members_hold(model.is_member());
        lemma_sorted_members_hold(created);
        let (a, b, c) = (
            sorted_members(by_pairs),
            sorted_members(model.is_member()),
            sorted_members(created),
        );
        assert(a.contains(q) <==> by_pairs(q));
        assert(b.contains(q) <==> model.is_member()(q));
        assert(c.contains(q) <==> created(q));
        lemma_appended(a, b, q);
        lemma_appended(a + b, c, q);
        assert(rows.contains(q) <==> pairs.contains(q) || blockers.contains(q));
        if by_pairs(q) {
            let m = choose|m: int|
                0 <= m < entries.len() && (#[trigger] entries[m]).0 == q && blocks_pairs(
                    entries,
                    targets,
                    pairs,
                    self.lanes,
                    m,
                );
            assert(entries[m].0 == q && in_the_way(self, rows, targets, m));
        }
        if self.accidentals && model.is_member()(q) {
            let m = choose|m: int|
                0 <= m < entries.len() && (#[trigger] entries[m]).0 == q && crosses_free(
                    entries,
                    arch,
                    rows,
                    m,
                );
            assert(entries[m].0 == q && in_the_way(self, rows, targets, m));
        }
        if self.accidentals && created(q) {
            let m = choose|m: int|
                0 <= m < entries.len() && (#[trigger] entries[m]).0 == q && crosses_target(
                    entries,
                    targets,
                    pairs,
                    arch,
                    m,
                );
            assert(entries[m].0 == q && in_the_way(self, rows, targets, m));
        }
        if exists|m: int|
            0 <= m < entries.len() && (#[trigger] entries[m]).0 == q && in_the_way(
                self,
                rows,
                targets,
                m,
            ) {
            let m = choose|m: int|
                0 <= m < entries.len() && (#[trigger] entries[m]).0 == q && in_the_way(
                    self,
                    rows,
                    targets,
                    m,
                );
            assert(entries[m].0 == q);
        }
    }

    /// Where the passes settle, no atom that was left out of the rows is in the way
    /// of their targets: none sits on the target of a pair qubit, none hems one in,
    /// and, where accidental CZs count, no two of them sit on partner sites and none
    /// sits across from where an atom of no pair shall go.
    pub proof fn lemma_settled_is_clear(self, seed: u64, draws: Seq<Seq<i32>>, m: int)
        requires
            atoms_distinct(self.layer.entries),
            is_regular(self.layer.arch),
            self.is_run(seed, draws),
            self.run(draws).settled,
            0 <= m < self.layer.entries.len(),
            !self.layer.pair_qubits().contains(self.layer.entries[m].0),
            !self.run(draws).blockers.contains(self.layer.entries[m].0),
        ensures
            !in_the_way(
                self,
                self.row_qubits(self.run(draws).blockers),
                self.run(draws).targets,
                m,
            ),
    {
        self.lemma_settled(seed, draws);
        let (blockers, targets) = (self.run(draws).blockers, self.run(draws).targets);
        let q = self.layer.entries[m].0;
        self.lemma_obstacle_reasons(blockers, targets, q);
        assert(!self.obstacles(blockers, targets).contains(q));
        assert(self.layer.entries[m].0 == q);
    }

    /// The rows of pass `n`, besides the pairs.
    pub open spec fn rows_at(self, draws: Seq<Seq<i32>>, n: int) -> Seq<u32> {
        self.kept(self.run(draws.take(n)).blockers)
    }

    /// The targets of pass `n`.
    pub open spec fn targets_at(self, draws: Seq<Seq<i32>>, n: int) -> Seq<(u32, u64)> {
        self.problem(self.rows_at(draws, n)).targets(draws[n])
    }

    proof fn lemma_joined_from(self, blockers: Seq<u32>, found: Seq<u32>, n: nat, q: u32)
        requires
            n <= found.len(),
        ensures
            self.joined(blockers, found, n).contains(q) ==> blockers.contains(q) || found.contains(
                q,
            ),
            blockers.contains(q) ==> self.joined(blockers, found, n).contains(q),
            !self.layer.pair_qubits().contains(q) && found.take(n as int).contains(q)
                ==> self.joined(blockers, found, n).contains(q),
        decreases n,
    {
        if n > 0 {
            let rest = self.joined(blockers, found, (n - 1) as nat);
            let all = self.joined(blockers, found, n);
            self.lemma_joined_from(blockers, found, (n - 1) as nat, q);
            if rest.contains(q) {
                let k = choose|k: int| 0 <= k < rest.len() && rest[k] == q;
                assert(all[k] == q);
            }
            if all.contains(q) {
                let k = choose|k: int| 0 <= k < all.len() && all[k] == q;
                if k < rest.len() {
                    assert(rest[k] == q);
                } else {
                    assert(found[n - 1] == q);
                }
            }
            if found.take(n as int).contains(q) {
                let part = found.take(n as int);
                let k = choose|k: int| 0 <= k < part.len() && part[k] == q;
                if k < n - 1 {
                    assert(found.take(n - 1)[k] == q);
                } else if !self.layer.pair_qubits().contains(q) {
                    if self.row_qubits(rest).contains(q) {
                        assert(rest.contains(q));
                    } else {
                        assert(all[rest.len() as int] == q);
                    }
                }
            }
        }
    }

    /// An atom becomes a row only for a reason: in some earlier pass, of which it
    /// was no row, it was in the way of the targets.
    pub proof fn lemma_rows_have_a_reason(self, seed: u64, draws: Seq<Seq<i32>>, q: u32)
        requires
            atoms_distinct(self.layer.entries),
            is_regular(self.layer.arch),
            self.is_run(seed, draws),
            self.layer.placed().len() <= self.layer.slots().len(),
            self.run(draws).blockers.contains(q),
        ensures
            exists|n: int, m: int|
                0 <= n < draws.len() && 0 <= m < self.layer.entries.len() && (
                #[trigger] self.layer.entries[m]).0 == q && in_the_way(
                    self,
                    self.row_qubits(self.rows_at(draws, n)),
                    #[trigger] self.targets_at(draws, n),
                    m,
                ),
        decreases draws.len(),
    {
        let last = draws.len() - 1;
        self.lemma_last_pass(seed, draws);
        assert(draws.take(last) =~= draws.drop_last());
        let before = self.run(draws.drop_last());
        let kept = self.kept(before.blockers);
        let targets = self.problem(kept).targets(draws.last());
        let found = self.obstacles(kept, targets);
        if found.len() > 0 {
            self.lemma_joined_from(kept, found, found.len(), q);
        }
        if kept.contains(q) {
            let k = choose|k: int| 0 <= k < kept.len() && kept[k] == q;
            assert(before.blockers[k] == q);
            self.lemma_shorter_run(seed, draws, last);
            self.lemma_rows_have_a_reason(seed, draws.drop_last(), q);
            let shorter = draws.drop_last();
            let (n, m) = choose|n: int, m: int|
                0 <= n < shorter.len() && 0 <= m < self.layer.entries.len() && (
                #[trigger] self.layer.entries[m]).0 == q && in_the_way(
                    self,
                    self.row_qubits(self.rows_at(shorter, n)),
                    #[trigger] self.targets_at(shorter, n),
                    m,
                );
            assert(shorter.take(n) =~= draws.take(n));
            assert(shorter[n] == draws[n]);
            assert(self.targets_at(shorter, n) == self.targets_at(draws, n));
            assert(self.layer.entries[m].0 == q);
        } else {
            self.lemma_obstacle_reasons(kept, targets, q);
            let m = choose|m: int|
                0 <= m < self.layer.entries.len() && (#[trigger] self.layer.entries[m]).0 == q
                    && in_the_way(self, self.row_qubits(kept), targets, m);
            assert(self.targets_at(draws, last) == targets);
            assert(self.layer.entries[m].0 == q);
        }
    }

    /// Where every pair qubit is placed and there is room, whatever is in the way
    /// in the first pass is a row ever after.
    proof fn lemma_first_obstacles_stay(self, seed: u64, draws: Seq<Seq<i32>>, q: u32)
        requires
            atoms_distinct(self.layer.entries),
            is_regular(self.layer.arch),
            self.layer.pair_qubits().subset_of(placed_qubits(self.layer.entries)),
            self.is_roomy(),
            self.is_run(seed, draws),
            draws.len() > 0,
            self.obstacles(Seq::empty(), self.targets_at(draws, 0)).contains(q),
        ensures
            self.run(draws).blockers.contains(q),
        decreases draws.len(),
    {
        let none: Seq<u32> = Seq::empty();
        let last = draws.len() - 1;
        self.lemma_last_pass(seed, draws);
        assert(draws.take(last) =~= draws.drop_last());
        self.lemma_shorter_run(seed, draws, last);
        let before = self.run(draws.drop_last());
        let kept = self.kept(before.blockers);
        let targets = self.problem(kept).targets(draws.last());
        let found = self.obstacles(kept, targets);
        self.lemma_blockers_grow(seed, draws.drop_last());
        self.lemma_blocker_count(before.blockers);
        assert(kept == before.blockers);
        if last == 0 {
            assert(draws.take(0) =~= Seq::<Seq<i32>>::empty());
            assert(before == self.start());
            assert(kept =~= none);
            assert(targets == self.targets_at(draws, 0));
            assert(found.take(found.len() as int) =~= found);
            self.lemma_obstacle_reasons(none, targets, q);
            self.lemma_joined_from(kept, found, found.len(), q);
        } else {
            let shorter = draws.drop_last();
            assert(shorter.take(0) =~= draws.take(0));
            assert(shorter[0] == draws[0]);
            assert(self.targets_at(shorter, 0) == self.targets_at(draws, 0));
            self.lemma_first_obstacles_stay(seed, shorter, q);
            if found.len() > 0 {
                self.lemma_joined_from(kept, found, found.len(), q);
            }
        }
    }

    /// Where accidental CZs count, every pair qubit is placed and there is room,
    /// both spectators of every accidental CZ become rows and compete for a
    /// position.
    pub proof fn lemma_crossing_spectators_become_rows(
        self,
        seed: u64,
        draws: Seq<Seq<i32>>,
        m: int,
        n: int,
    )
        requires
            atoms_distinct(self.layer.entries),
            is_regular(self.layer.arch),
            self.layer.pair_qubits().subset_of(placed_qubits(self.layer.entries)),
            self.is_roomy(),
            self.is_run(seed, draws),
            draws.len() > 0,
            self.accidentals,
            0 <= m < self.layer.entries.len(),
            0 <= n < self.layer.entries.len(),
            !self.layer.pair_qubits().contains(self.layer.entries[m].0),
            !self.layer.pair_qubits().contains(self.layer.entries[n].0),
            faces(self.layer.arch, self.layer.entries[m].1, self.layer.entries[n].1),
        ensures
            self.run(draws).blockers.contains(self.layer.entries[m].0),
    {
        let none: Seq<u32> = Seq::empty();
        let q = self.layer.entries[m].0;
        let targets = self.targets_at(draws, 0);
        let rows = self.row_qubits(none);
        assert(!rows.contains(self.layer.entries[n].0));
        assert(crosses_free(self.layer.entries, self.layer.arch, rows, m));
        assert(in_the_way(self, rows, targets, m));
        assert(self.layer.entries[m].0 == q);
        self.lemma_obstacle_reasons(none, targets, q);
        self.lemma_first_obstacles_stay(seed, draws, q);
    }
}

/// The list holds, in increasing order, the atoms outside some rows for which `reason`
/// holds of their entry.
pub open spec fn lists_atoms(
    list: Seq<u32>,
    entries: Seq<(u32, LocationAddr)>,
    row_qubits: Set<u32>,
    reason: spec_fn(int) -> bool,
) -> bool {
    &&& forall|i: int, j: int| 0 <= i < j < list.len() ==> #[trigger] list[i] < #[trigger] list[j]
    &&& forall|q: u32| #[trigger]
        list.contains(q) <==> !row_qubits.contains(q) && exists|m: int|
            0 <= m < entries.len() && (#[trigger] entries[m]).0 == q && reason(m)
}

impl Staged {
    /// Obstacles come reason by reason, and by qubit within each: atoms in the way of pairs,
    /// then atoms across from each other, then atoms across from targets.
    pub proof fn lemma_obstacles_in_order(self, blockers: Seq<u32>, targets: Seq<(u32, u64)>) -> (
        parts: (Seq<u32>, Seq<u32>, Seq<u32>))
        requires
            atoms_distinct(self.layer.entries),
            is_regular(self.layer.arch),
        ensures
            ({
                let entries = self.layer.entries;
                let pairs = self.layer.pair_qubits();
                let rows = Set::new(|q: u32| pairs.contains(q) || blockers.contains(q));
                let (parked, crossing, created) = parts;
                &&& self.obstacles(blockers, targets) == if self.accidentals {
                    parked + crossing + created
                } else {
                    parked
                }
                &&& lists_atoms(
                    parked,
                    entries,
                    rows,
                    |m: int| blocks_pairs(entries, targets, pairs, self.lanes, m),
                )
                &&& lists_atoms(
                    crossing,
                    entries,
                    rows,
                    |m: int| crosses_free(entries, self.layer.arch, rows, m),
                )
                &&& lists_atoms(
                    created,
                    entries,
                    rows,
                    |m: int| crosses_target(entries, targets, pairs, self.layer.arch, m),
                )
            }),
    {
        let entries = self.layer.entries;
        let arch = self.layer.arch;
        let pairs = self.layer.pair_qubits();
        let rows = self.row_qubits(blockers);
        assert(rows =~= Set::new(|q: u32| pairs.contains(q) || blockers.contains(q)));
        let model = Spectators { entries, arch, pair_qubits: pairs, row_qubits: rows };
        let by_pairs = is_blocker(targets, pairs, entries, rows, self.lanes);
        let made = is_created_accidental(targets, arch, entries, pairs, rows);
        lemma_sorted_members_hold(by_pairs);
        lemma_sorted_members_hold(model.is_member());
        lemma_sorted_members_hold(made);
        let parked = sorted_members(by_pairs);
        let crossing = sorted_members(model.is_member());
        let created = sorted_members(made);
        let blocks = |m: int| blocks_pairs(entries, targets, pairs, self.lanes, m);
        let crosses = |m: int| crosses_free(entries, arch, rows, m);
        let meets = |m: int| crosses_target(entries, targets, pairs, arch, m);
        assert forall|q: u32| #[trigger]
            parked.contains(q) <==> !rows.contains(q) && exists|m: int|
                0 <= m < entries.len() && (#[trigger] entries[m]).0 == q && blocks(m) by {
            lemma_blocker_reasons(targets, pairs, entries, rows, self.lanes, q);
            assert(parked.contains(q) <==> by_pairs(q));
        }
        assert forall|q: u32| #[trigger]
            crossing.contains(q) <==> !rows.contains(q) && exists|m: int|
                0 <= m < entries.len() && (#[trigger] entries[m]).0 == q && crosses(m) by {
            lemma_spectators(model, q);
            assert(crossing.contains(q) <==> model.is_member()(q));
        }
        assert forall|q: u32| #[trigger]
            created.contains(q) <==> !rows.contains(q) && exists|m: int|
                0 <= m < entries.len() && (#[trigger] entries[m]).0 == q && meets(m) by {
            lemma_created(targets, arch, entries, pairs, rows, q);
            assert(created.contains(q) <==> made(q));
        }
        (parked, crossing, created)
    }

    /// New blockers follow the ones before, in the order in which they were found.
    pub proof fn lemma_joined_in_order(self, blockers: Seq<u32>, found: Seq<u32>, n: nat) -> (
        at: Seq<int>)
        requires
            n <= found.len(),
        ensures
            ({
                let all = self.joined(blockers, found, n);
                &&& all.len() == blockers.len() + at.len()
                &&& forall|k: int| 0 <= k < blockers.len() ==> #[trigger] all[k] == blockers[k]
                &&& forall|k: int|
                    0 <= k < at.len() ==> 0 <= #[trigger] at[k] < n && all[blockers.len() + k]
                        == found[at[k]]
                &&& forall|k: int, l: int|
                    0 <= k < l < at.len() ==> #[trigger] at[k] < #[trigger] at[l]
            }),
        decreases n,
    {
        if n == 0 {
            Seq::empty()
        } else {
            let before = self.lemma_joined_in_order(blockers, found, (n - 1) as nat);
            let rest = self.joined(blockers, found, (n - 1) as nat);
            let all = self.joined(blockers, found, n);
            if all == rest {
                before
            } else {
                let at = before.push(n - 1);
                assert(all == rest.push(found[n - 1]));
                assert forall|k: int| 0 <= k < at.len() implies 0 <= #[trigger] at[k] < n
                    && all[blockers.len() + k] == found[at[k]] by {
                    if k < before.len() {
                        assert(at[k] == before[k]);
                        assert(rest[blockers.len() + k] == found[before[k]]);
                    }
                }
                at
            }
        }
    }
}

impl Staged {
    /// What one pass hands on to the next. The first pass has no rows but the pairs. The rows of
    /// a pass stay rows; further ones are obstacles of that pass, in the order in which they
    /// were found, all of them or as many as there is room for.
    pub proof fn lemma_next_rows(self, seed: u64, draws: Seq<Seq<i32>>, n: int) -> (at: Seq<int>)
        requires
            self.layer.placed().len() <= self.layer.slots().len(),
            self.is_run(seed, draws),
            0 <= n,
            n + 1 < draws.len(),
        ensures
            self.rows_at(draws, 0).len() == 0,
            ({
                let (now, next) = (self.rows_at(draws, n), self.rows_at(draws, n + 1));
                let found = self.obstacles(now, self.targets_at(draws, n));
                let room = self.layer.slots().len() - self.layer.placed().len();
                &&& found.len() > 0
                &&& next.len() == now.len() + at.len()
                &&& forall|k: int| 0 <= k < now.len() ==> #[trigger] next[k] == now[k]
                &&& forall|k: int|
                    0 <= k < at.len() ==> 0 <= #[trigger] at[k] < found.len() && next[now.len() + k]
                        == found[at[k]]
                &&& forall|k: int, l: int|
                    0 <= k < l < at.len() ==> #[trigger] at[k] < #[trigger] at[l]
                &&& next.len() == room || forall|q: u32| #[trigger]
                    found.contains(q) && !self.layer.pair_qubits().contains(q) ==> next.contains(q)
            }),
    {
        let before = self.run(draws.take(n));
        let after = self.run(draws.take(n + 1));
        let now = self.rows_at(draws, n);
        let found = self.obstacles(now, self.targets_at(draws, n));
        assert(draws.take(n + 1).drop_last() =~= draws.take(n));
        assert(draws.take(n + 1).last() == draws[n]);
        assert(after == self.after(before, draws[n]));
        assert(!after.settled);
        let all = self.joined(now, found, found.len());
        assert(after.blockers == all);
        let whole = self.lemma_joined_in_order(now, found, found.len());
        let next = self.rows_at(draws, n + 1);
        self.lemma_kept(all);
        self.lemma_kept(before.blockers);
        let at = whole.take(next.len() - now.len());
        assert(draws.take(0) =~= Seq::<Seq<i32>>::empty());
        assert(self.run(draws.take(0)) == self.start());
        assert forall|k: int| 0 <= k < at.len() implies 0 <= #[trigger] at[k] < found.len()
            && next[now.len() + k] == found[at[k]] by {
            assert(at[k] == whole[k]);
            assert(all[now.len() + k] == found[whole[k]]);
        }
        let room = self.layer.slots().len() - self.layer.placed().len();
        if next.len() != room {
            assert(next == all);
            assert forall|q: u32| #[trigger]
                found.contains(q) && !self.layer.pair_qubits().contains(q) implies next.contains(
                q,
            ) by {
                assert(found.take(found.len() as int) =~= found);
                self.lemma_joined_from(now, found, found.len(), q);
            }
        }
        at
    }

    /// A run ends with the targets of its last pass, and has settled exactly where that pass
    /// found no obstacle.
    pub proof fn lemma_last_targets(self, seed: u64, draws: Seq<Seq<i32>>)
        requires
            self.is_run(seed, draws),
            draws.len() > 0,
        ensures
            ({
                let last = draws.len() - 1;
                let rows = self.rows_at(draws, last);
                &&& self.run(draws).targets == self.targets_at(draws, last)
                &&& is_row_solution(
                    self.problem(rows),
                    seed,
                    draws[last],
                    self.targets_at(draws, last),
                )
                &&& self.run(draws).settled <==> self.obstacles(
                    rows,
                    self.targets_at(draws, last),
                ).len() == 0
            }),
    {
        self.lemma_last_pass(seed, draws);
        assert(draws.take(draws.len() - 1) =~= draws.drop_last());
    }
}

} // verus!
