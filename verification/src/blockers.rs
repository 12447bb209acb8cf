//! Atoms that stand in the way of an assignment.

use crate::arch::{ArchModel, ArchSpec, LocationAddr};
use crate::config::{lemma_occupant_entry, occupant_in, Config};
use crate::lane_index::{has_lane, Lane, LaneIndex};
use crate::seqs::{
    increasing_u32, insert_sorted_u32, is_sorted_members, lemma_sorted_members, sorted_members,
};
use std::collections::HashSet;
use vstd::prelude::*;

verus! {

broadcast use vstd::std_specs::hash::group_hash_axioms;

/// `target` is where a pair qubit shall go.
pub open spec fn is_pair_target(
    targets: Seq<(u32, u64)>,
    pair_qubits: Set<u32>,
    target: u64,
) -> bool {
    exists|i: int|
        0 <= i < targets.len() && pair_qubits.contains((#[trigger] targets[i]).0) && targets[i].1
            == target
}

/// Some atom sits at the packed location.
pub open spec fn is_held(entries: Seq<(u32, LocationAddr)>, loc: u64) -> bool {
    exists|i: int| 0 <= i < entries.len() && (#[trigger] entries[i]).1.code() == loc
}

/// No lane leads from `loc` to a location that is free.
pub open spec fn is_hemmed_in(
    entries: Seq<(u32, LocationAddr)>,
    arch: ArchModel,
    loc: LocationAddr,
) -> bool {
    forall|lane: Lane| #[trigger]
        has_lane(arch, lane) && lane.src == loc ==> is_held(entries, lane.dst.code())
}

/// The atom at position `i` sits on the target of a pair qubit.
pub open spec fn blocks_target(
    entries: Seq<(u32, LocationAddr)>,
    targets: Seq<(u32, u64)>,
    pair_qubits: Set<u32>,
    i: int,
) -> bool {
    is_pair_target(targets, pair_qubits, entries[i].1.code())
}

/// The pair qubit at position `i` is hemmed in, among others by `qubit_id`.
pub open spec fn blocks_exit(
    entries: Seq<(u32, LocationAddr)>,
    pair_qubits: Set<u32>,
    arch: ArchModel,
    qubit_id: u32,
    i: int,
) -> bool {
    &&& pair_qubits.contains(entries[i].0)
    &&& is_hemmed_in(entries, arch, entries[i].1)
    &&& exits_to(entries, arch, qubit_id, entries[i].1)
}

/// A lane leads from `loc` to where `qubit_id` sits.
pub open spec fn exits_to(
    entries: Seq<(u32, LocationAddr)>,
    arch: ArchModel,
    qubit_id: u32,
    loc: LocationAddr,
) -> bool {
    exists|lane: Lane| #[trigger]
        has_lane(arch, lane) && lane.src == loc && occupant_in(entries, lane.dst) == Some(qubit_id)
}

/// The atoms outside `row_qubits` that sit on the target of a pair qubit, or
/// that hem a pair qubit in.
pub open spec fn is_blocker(
    targets: Seq<(u32, u64)>,
    pair_qubits: Set<u32>,
    entries: Seq<(u32, LocationAddr)>,
    row_qubits: Set<u32>,
    arch: ArchModel,
) -> spec_fn(u32) -> bool {
    |qubit_id: u32|
        {
            &&& !row_qubits.contains(qubit_id)
            &&& {
                ||| exists|i: int|
                    0 <= i < entries.len() && (#[trigger] entries[i]).0 == qubit_id
                        && blocks_target(entries, targets, pair_qubits, i)
                ||| exists|i: int|
                    0 <= i < entries.len() && #[trigger] blocks_exit(
                        entries,
                        pair_qubits,
                        arch,
                        qubit_id,
                        i,
                    )
            }
        }
}

fn collect_pair_targets(targets: &[(u32, u64)], pair_qubits: &HashSet<u32>) -> (locs: HashSet<u64>)
    ensures
        forall|loc: u64| #[trigger]
            locs@.contains(loc) <==> is_pair_target(targets@, pair_qubits@, loc),
{
    let mut locs: HashSet<u64> = HashSet::new();
    let mut i: usize = 0;
    while i < targets.len()
        invariant
            i <= targets@.len(),
            forall|loc: u64| #[trigger]
                locs@.contains(loc) <==> exists|k: int|
                    0 <= k < i && pair_qubits@.contains((#[trigger] targets@[k]).0) && targets@[k].1
                        == loc,
        decreases targets.len() - i,
    {
        let (qubit_id, target) = targets[i];
        if pair_qubits.contains(&qubit_id) {
            locs.insert(target);
        }
        i += 1;
    }
    locs
}

fn collect_held(entries: &[(u32, LocationAddr)]) -> (locs: HashSet<u64>)
    ensures
        forall|loc: u64| #[trigger] locs@.contains(loc) <==> is_held(entries@, loc),
{
    let mut locs: HashSet<u64> = HashSet::new();
    let mut i: usize = 0;
    while i < entries.len()
        invariant
            i <= entries@.len(),
            forall|loc: u64| #[trigger]
                locs@.contains(loc) <==> exists|k: int|
                    0 <= k < i && (#[trigger] entries@[k]).1.code() == loc,
        decreases entries.len() - i,
    {
        locs.insert(entries[i].1.encode());
        i += 1;
    }
    locs
}

/// Whether some of the lanes leads to a free location.
fn has_free_exit(lanes: &Vec<Lane>, held: &HashSet<u64>) -> (free: bool)
    ensures
        free <==> exists|i: int|
            0 <= i < lanes@.len() && !held@.contains((#[trigger] lanes@[i]).dst.code()),
{
    let mut i: usize = 0;
    while i < lanes.len()
        invariant
            i <= lanes.len(),
            forall|k: int| 0 <= k < i ==> held@.contains((#[trigger] lanes@[k]).dst.code()),
        decreases lanes.len() - i,
    {
        let dst = lanes[i].dst.encode();
        if !held.contains(&dst) {
            assert(!held@.contains(lanes@[i as int].dst.code()));
            return true;
        }
        i += 1;
    }
    false
}

/// Adds the atoms outside `row_qubits` at the ends of the lanes.
fn add_exit_holders(
    found: &mut Vec<u32>,
    lanes: &Vec<Lane>,
    config: &Config,
    row_qubits: &HashSet<u32>,
)
    requires
        increasing_u32(old(found)@),
    ensures
        increasing_u32(final(found)@),
        forall|q: u32| #[trigger]
            final(found)@.contains(q) <==> old(found)@.contains(q) || (!row_qubits@.contains(q)
                && exists|i: int|
                0 <= i < lanes@.len() && config.occupant((#[trigger] lanes@[i]).dst) == Some(q)),
{
    let mut i: usize = 0;
    while i < lanes.len()
        invariant
            i <= lanes.len(),
            increasing_u32(found@),
            forall|q: u32| #[trigger]
                found@.contains(q) <==> old(found)@.contains(q) || (!row_qubits@.contains(q)
                    && exists|k: int|
                    0 <= k < i && config.occupant((#[trigger] lanes@[k]).dst) == Some(q)),
        decreases lanes.len() - i,
    {
        let ghost prior = found@;
        let holder = config.qubit_at(lanes[i].dst);
        let ghost added: Option<u32> = match holder {
            Some(q) => if row_qubits@.contains(q) {
                None
            } else {
                Some(q)
            },
            None => None,
        };
        match holder {
            Some(q) => {
                if !row_qubits.contains(&q) {
                    insert_sorted_u32(found, q);
                }
            },
            None => {},
        }
        proof {
            assert(forall|q: u32| #[trigger]
                found@.contains(q) <==> prior.contains(q) || added == Some(q));
            assert forall|q: u32| #[trigger]
                found@.contains(q) <==> old(found)@.contains(q) || (!row_qubits@.contains(q)
                && exists|k: int|
                0 <= k < i + 1 && config.occupant((#[trigger] lanes@[k]).dst) == Some(q)) by {
                assert(prior.contains(q) <==> old(found)@.contains(q) || (!row_qubits@.contains(
                    q,
                ) && exists|k: int|
                    0 <= k < i && config.occupant((#[trigger] lanes@[k]).dst) == Some(q)));
                assert(config.occupant(lanes@[i as int].dst) == holder);
            }
        }
        i += 1;
    }
}

/// Detect the atoms that stand in the way of an assignment.
///
/// An atom outside `row_qubits` blocks a target where it is parked on a
/// location that the assignment gives to a CZ pair qubit. Targets of other rows
/// do not count: those are destinations, not obstacles.
///
/// It blocks an exit where a CZ pair qubit has no lane to a free location and
/// the atom sits at the end of one of its lanes.
///
/// The result is in increasing order, each qubit once.
pub fn detect_blockers(
    targets: &[(u32, u64)],
    pair_qubits: &HashSet<u32>,
    config: &Config,
    row_qubits: &HashSet<u32>,
    index: &LaneIndex,
) -> (blockers: Vec<u32>)
    ensures
        is_sorted_members(
            is_blocker(targets@, pair_qubits@, config@, row_qubits@, index.arch()),
            blockers@,
        ),
        blockers@ == sorted_members(
            is_blocker(targets@, pair_qubits@, config@, row_qubits@, index.arch()),
        ),
{
    let pair_targets = collect_pair_targets(targets, pair_qubits);
    let entries = config.entries();
    let held = collect_held(entries);
    let ghost arch = index.arch();
    let mut found: Vec<u32> = Vec::new();
    let mut n: usize = 0;
    while n < entries.len()
        invariant
            n <= entries@.len(),
            entries@ == config@,
            increasing_u32(found@),
            forall|loc: u64| #[trigger]
                pair_targets@.contains(loc) <==> is_pair_target(targets@, pair_qubits@, loc),
            forall|q: u32| #[trigger]
                found@.contains(q) <==> !row_qubits@.contains(q) && exists|i: int|
                    0 <= i < n && (#[trigger] entries@[i]).0 == q && blocks_target(
                        entries@,
                        targets@,
                        pair_qubits@,
                        i,
                    ),
        decreases entries.len() - n,
    {
        let (qubit_id, loc) = entries[n];
        let code = loc.encode();
        let ghost prior = found@;
        if !row_qubits.contains(&qubit_id) && pair_targets.contains(&code) {
            insert_sorted_u32(&mut found, qubit_id);
        }
        proof {
            let hit = !row_qubits@.contains(qubit_id) && blocks_target(
                entries@,
                targets@,
                pair_qubits@,
                n as int,
            );
            assert forall|q: u32| #[trigger]
                found@.contains(q) <==> !row_qubits@.contains(q) && exists|i: int|
                0 <= i < n + 1 && (#[trigger] entries@[i]).0 == q && blocks_target(
                    entries@,
                    targets@,
                    pair_qubits@,
                    i,
                ) by {
                assert(found@.contains(q) <==> prior.contains(q) || (hit && q == qubit_id));
                assert(entries@[n as int] == (qubit_id, loc));
            }
        }
        n += 1;
    }
    let ghost parked = found@;
    let mut m: usize = 0;
    while m < entries.len()
        invariant
            m <= entries@.len(),
            entries@ == config@,
            arch == index.arch(),
            increasing_u32(found@),
            forall|loc: u64| #[trigger] held@.contains(loc) <==> is_held(entries@, loc),
            forall|q: u32| #[trigger]
                found@.contains(q) <==> parked.contains(q) || (!row_qubits@.contains(q)
                    && exists|i: int|
                    0 <= i < m && #[trigger] blocks_exit(entries@, pair_qubits@, arch, q, i)),
        decreases entries.len() - m,
    {
        let (qubit_id, loc) = entries[m];
        let ghost prior = found@;
        if pair_qubits.contains(&qubit_id) {
            let lanes = index.outgoing_lanes(loc);
            let free = has_free_exit(&lanes, &held);
            proof {
                assert(free <==> !is_hemmed_in(entries@, arch, loc)) by {
                    if free {
                        let i = choose|i: int|
                            0 <= i < lanes@.len() && !held@.contains(
                                (#[trigger] lanes@[i]).dst.code(),
                            );
                        assert(lanes@.contains(lanes@[i]));
                        assert(has_lane(arch, lanes@[i]));
                        assert(!is_held(entries@, lanes@[i].dst.code()));
                    } else {
                        assert forall|lane: Lane| #[trigger]
                            has_lane(arch, lane) && lane.src == loc implies is_held(
                            entries@,
                            lane.dst.code(),
                        ) by {
                            assert(lanes@.contains(lane));
                            let i = choose|i: int| 0 <= i < lanes@.len() && lanes@[i] == lane;
                            assert(held@.contains(lanes@[i].dst.code()));
                        }
                    }
                }
            }
            if !free {
                add_exit_holders(&mut found, &lanes, config, row_qubits);
                proof {
                    assert forall|q: u32| (exists|i: int|
                        0 <= i < lanes@.len() && config.occupant((#[trigger] lanes@[i]).dst)
                            == Some(q)) <==> exits_to(entries@, arch, q, loc) by {
                        if exists|i: int|
                            0 <= i < lanes@.len() && config.occupant((#[trigger] lanes@[i]).dst)
                                == Some(q) {
                            let i = choose|i: int|
                                0 <= i < lanes@.len() && config.occupant(
                                    (#[trigger] lanes@[i]).dst,
                                ) == Some(q);
                            assert(lanes@.contains(lanes@[i]));
                            assert(has_lane(arch, lanes@[i]));
                        }
                        if exits_to(entries@, arch, q, loc) {
                            let lane = choose|lane: Lane| #[trigger]
                                has_lane(arch, lane) && lane.src == loc && occupant_in(
                                    entries@,
                                    lane.dst,
                                ) == Some(q);
                            assert(lanes@.contains(lane));
                            let i = choose|i: int| 0 <= i < lanes@.len() && lanes@[i] == lane;
                            assert(config.occupant(lanes@[i].dst) == Some(q));
                        }
                    }
                }
            }
        }
        proof {
            assert(entries@[m as int] == (qubit_id, loc));
            assert forall|q: u32| #[trigger]
                found@.contains(q) <==> parked.contains(q) || (!row_qubits@.contains(q)
                && exists|i: int|
                0 <= i < m + 1 && #[trigger] blocks_exit(entries@, pair_qubits@, arch, q, i)) by {
                assert(prior.contains(q) <==> parked.contains(q) || (!row_qubits@.contains(q)
                    && exists|i: int|
                    0 <= i < m && #[trigger] blocks_exit(entries@, pair_qubits@, arch, q, i)));
                assert(found@.contains(q) <==> prior.contains(q) || (!row_qubits@.contains(q)
                    && blocks_exit(entries@, pair_qubits@, arch, q, m as int)));
            }
        }
        m += 1;
    }
    proof {
        let p = is_blocker(targets@, pair_qubits@, config@, row_qubits@, arch);
        assert forall|q: u32| #[trigger] found@.contains(q) <==> p(q) by {
            assert(parked.contains(q) <==> !row_qubits@.contains(q) && exists|i: int|
                0 <= i < entries@.len() && (#[trigger] entries@[i]).0 == q && blocks_target(
                    entries@,
                    targets@,
                    pair_qubits@,
                    i,
                ));
        }
        lemma_sorted_members(p, found@);
    }
    found
}

/// Blockers are placed atoms outside the rows.
pub proof fn lemma_blockers_outside_rows(
    targets: Seq<(u32, u64)>,
    pair_qubits: Set<u32>,
    entries: Seq<(u32, LocationAddr)>,
    row_qubits: Set<u32>,
    arch: ArchModel,
    qubit_id: u32,
)
    requires
        is_blocker(targets, pair_qubits, entries, row_qubits, arch)(qubit_id),
    ensures
        !row_qubits.contains(qubit_id),
        exists|i: int| 0 <= i < entries.len() && (#[trigger] entries[i]).0 == qubit_id,
{
    if exists|i: int|
        0 <= i < entries.len() && #[trigger] blocks_exit(
            entries,
            pair_qubits,
            arch,
            qubit_id,
            i,
        ) {
        let i = choose|i: int|
            0 <= i < entries.len() && #[trigger] blocks_exit(
                entries,
                pair_qubits,
                arch,
                qubit_id,
                i,
            );
        let lane = choose|lane: Lane| #[trigger]
            has_lane(arch, lane) && lane.src == entries[i].1 && occupant_in(entries, lane.dst)
                == Some(qubit_id);
        lemma_occupant_entry(entries, lane.dst);
        let k = choose|k: int| 0 <= k < entries.len() && entries[k] == (qubit_id, lane.dst);
        assert(entries[k].0 == qubit_id);
    }
}

/// The atom at the CZ partner of a location.
pub open spec fn across_from(
    entries: Seq<(u32, LocationAddr)>,
    arch: ArchModel,
    loc: LocationAddr,
) -> Option<u32> {
    match arch.cz_partner(loc) {
        Some(partner) => occupant_in(entries, partner),
        None => None,
    }
}

fn find_across(config: &Config, arch: &ArchSpec, loc: &LocationAddr) -> (holder: Option<u32>)
    ensures
        holder == across_from(config@, arch@, *loc),
{
    match arch.get_cz_partner(loc) {
        Some(partner) => config.qubit_at(partner),
        None => None,
    }
}

/// The atoms outside `row_qubits` across from the target of a row that is no
/// pair.
pub open spec fn is_created_accidental(
    targets: Seq<(u32, u64)>,
    arch: ArchModel,
    entries: Seq<(u32, LocationAddr)>,
    pair_qubits: Set<u32>,
    row_qubits: Set<u32>,
) -> spec_fn(u32) -> bool {
    |qubit_id: u32|
        {
            &&& !row_qubits.contains(qubit_id)
            &&& exists|i: int|
                0 <= i < targets.len() && !pair_qubits.contains((#[trigger] targets[i]).0)
                    && across_from(entries, arch, LocationAddr::of_code(targets[i].1)) == Some(
                    qubit_id,
                )
        }
}

/// Detect the atoms that would form a new accidental CZ once the targets are
/// applied.
///
/// Such an atom is in no row, so it stays; it sits across from where the
/// assignment sends a spectator. Pair targets fill both halves of a position,
/// and whatever is parked there is found by [`detect_blockers`].
///
/// The result is in increasing order, each qubit once.
pub fn detect_accidentals_created(
    targets: &[(u32, u64)],
    arch: &ArchSpec,
    config: &Config,
    pair_qubits: &HashSet<u32>,
    row_qubits: &HashSet<u32>,
) -> (found: Vec<u32>)
    ensures
        is_sorted_members(
            is_created_accidental(targets@, arch@, config@, pair_qubits@, row_qubits@),
            found@,
        ),
        found@ == sorted_members(
            is_created_accidental(targets@, arch@, config@, pair_qubits@, row_qubits@),
        ),
{
    let mut found: Vec<u32> = Vec::new();
    let mut n: usize = 0;
    while n < targets.len()
        invariant
            n <= targets@.len(),
            increasing_u32(found@),
            forall|q: u32| #[trigger]
                found@.contains(q) <==> !row_qubits@.contains(q) && exists|i: int|
                    0 <= i < n && !pair_qubits@.contains((#[trigger] targets@[i]).0) && across_from(
                        config@,
                        arch@,
                        LocationAddr::of_code(targets@[i].1),
                    ) == Some(q),
        decreases targets.len() - n,
    {
        let (qubit_id, target) = targets[n];
        let ghost prior = found@;
        let ghost mut added: Option<u32> = None;
        if !pair_qubits.contains(&qubit_id) {
            match find_across(config, arch, &LocationAddr::decode(target)) {
                Some(holder) => {
                    if !row_qubits.contains(&holder) {
                        insert_sorted_u32(&mut found, holder);
                        proof {
                            added = Some(holder);
                        }
                    }
                },
                None => {},
            }
        }
        proof {
            assert(targets@[n as int] == (qubit_id, target));
            assert(forall|q: u32| #[trigger]
                found@.contains(q) <==> prior.contains(q) || added == Some(q));
            assert forall|q: u32| #[trigger]
                found@.contains(q) <==> !row_qubits@.contains(q) && exists|i: int|
                0 <= i < n + 1 && !pair_qubits@.contains((#[trigger] targets@[i]).0)
                    && across_from(config@, arch@, LocationAddr::of_code(targets@[i].1)) == Some(
                    q,
                ) by {
                assert(prior.contains(q) <==> !row_qubits@.contains(q) && exists|i: int|
                    0 <= i < n && !pair_qubits@.contains((#[trigger] targets@[i]).0)
                        && across_from(config@, arch@, LocationAddr::of_code(targets@[i].1))
                        == Some(q));
            }
        }
        n += 1;
    }
    proof {
        lemma_sorted_members(
            is_created_accidental(targets@, arch@, config@, pair_qubits@, row_qubits@),
            found@,
        );
    }
    found
}

/// What detecting accidental CZs in a configuration looks at.
pub ghost struct Spectators {
    pub entries: Seq<(u32, LocationAddr)>,
    pub arch: ArchModel,
    pub pair_qubits: Set<u32>,
    pub row_qubits: Set<u32>,
}

impl Spectators {
    /// The qubit is in no pair and in no row.
    pub open spec fn is_free(self, qubit_id: u32) -> bool {
        !self.pair_qubits.contains(qubit_id) && !self.row_qubits.contains(qubit_id)
    }

    /// The free qubit across from the free qubit at position `i`.
    pub open spec fn other(self, i: int) -> Option<u32> {
        let (qubit_id, loc) = self.entries[i];
        match across_from(self.entries, self.arch, loc) {
            Some(other) => if self.is_free(qubit_id) && self.is_free(other) {
                Some(other)
            } else {
                None
            },
            None => None,
        }
    }

    /// Locations of the accidental CZs among the first `n` atoms. A location
    /// that is known already is not looked at again.
    pub open spec fn seen(self, n: nat) -> Set<u64>
        decreases n,
    {
        if n == 0 {
            Set::empty()
        } else {
            let rest = self.seen((n - 1) as nat);
            let loc = self.entries[n - 1].1;
            if self.other(n - 1) is Some && !rest.contains(loc.code()) {
                rest.insert(loc.code()).insert(self.arch.cz_partner(loc)->0.code())
            } else {
                rest
            }
        }
    }

    /// The atom at position `i` shows an accidental CZ that was not known.
    pub open spec fn shows(self, i: int) -> bool {
        self.other(i) is Some && !self.seen(i as nat).contains(self.entries[i].1.code())
    }

    /// The members of the accidental CZs.
    pub open spec fn is_member(self) -> spec_fn(u32) -> bool {
        |qubit_id: u32|
            exists|i: int|
                0 <= i < self.entries.len() && #[trigger] self.shows(i) && (self.entries[i].0
                    == qubit_id || self.other(i) == Some(qubit_id))
    }
}

/// Detect spectators that form an accidental CZ in a configuration.
///
/// Two atoms that are in no pair and in no row form one where they sit on
/// partner locations. Both are returned, so that both compete for the position
/// and only one can stay.
///
/// The result is in increasing order, each qubit once.
pub fn detect_accidental_cz_spectators(
    config: &Config,
    arch: &ArchSpec,
    pair_qubits: &HashSet<u32>,
    row_qubits: &HashSet<u32>,
) -> (found: Vec<u32>)
    ensures
        is_sorted_members(
            (Spectators {
                entries: config@,
                arch: arch@,
                pair_qubits: pair_qubits@,
                row_qubits: row_qubits@,
            }).is_member(),
            found@,
        ),
        found@ == sorted_members(
            (Spectators {
                entries: config@,
                arch: arch@,
                pair_qubits: pair_qubits@,
                row_qubits: row_qubits@,
            }).is_member(),
        ),
{
    let ghost model = Spectators {
        entries: config@,
        arch: arch@,
        pair_qubits: pair_qubits@,
        row_qubits: row_qubits@,
    };
    let entries = config.entries();
    let mut found: Vec<u32> = Vec::new();
    let mut seen: HashSet<u64> = HashSet::new();
    let mut n: usize = 0;
    while n < entries.len()
        invariant
            n <= entries@.len(),
            entries@ == config@,
            model == (Spectators {
                entries: config@,
                arch: arch@,
                pair_qubits: pair_qubits@,
                row_qubits: row_qubits@,
            }),
            increasing_u32(found@),
            seen@ == model.seen(n as nat),
            forall|q: u32| #[trigger]
                found@.contains(q) <==> exists|i: int|
                    0 <= i < n && #[trigger] model.shows(i) && (model.entries[i].0 == q
                        || model.other(i) == Some(q)),
        decreases entries.len() - n,
    {
        let (qubit_id, loc) = entries[n];
        let code = loc.encode();
        let ghost prior = found@;
        if !pair_qubits.contains(&qubit_id) && !row_qubits.contains(&qubit_id) && !seen.contains(
            &code,
        ) {
            match arch.get_cz_partner(&loc) {
                Some(partner) => {
                    match config.qubit_at(partner) {
                        Some(other) => {
                            if !pair_qubits.contains(&other) && !row_qubits.contains(&other) {
                                assert(model.shows(n as int));
                                assert(model.other(n as int) == Some(other));
                                insert_sorted_u32(&mut found, qubit_id);
                                insert_sorted_u32(&mut found, other);
                                seen.insert(code);
                                seen.insert(partner.encode());
                            }
                        },
                        None => {},
                    }
                },
                None => {},
            }
        }
        proof {
            assert(model.entries[n as int] == (qubit_id, loc));
            assert forall|q: u32| #[trigger]
                found@.contains(q) <==> exists|i: int|
                0 <= i < n + 1 && #[trigger] model.shows(i) && (model.entries[i].0 == q
                    || model.other(i) == Some(q)) by {
                assert(prior.contains(q) <==> exists|i: int|
                    0 <= i < n && #[trigger] model.shows(i) && (model.entries[i].0 == q
                        || model.other(i) == Some(q)));
                assert(found@.contains(q) <==> prior.contains(q) || (model.shows(n as int) && (
                model.entries[n as int].0 == q || model.other(n as int) == Some(q))));
            }
        }
        n += 1;
    }
    proof {
        lemma_sorted_members(model.is_member(), found@);
    }
    found
}

impl Spectators {
    /// Partner locations are mutual, and no two atoms share a location.
    pub open spec fn is_regular(self) -> bool {
        &&& forall|i: int, j: int|
            0 <= i < j < self.entries.len() ==> (#[trigger] self.entries[i]).1.code() != (
            #[trigger] self.entries[j]).1.code()
        &&& forall|i: int|
            0 <= i < self.entries.len() ==> match self.arch.cz_partner(
                (#[trigger] self.entries[i]).1,
            ) {
                Some(partner) => self.arch.cz_partner(partner) == Some(self.entries[i].1),
                None => true,
            }
    }

    proof fn lemma_other(self, i: int) -> (j: int)
        requires
            self.is_regular(),
            0 <= i < self.entries.len(),
            self.other(i) is Some,
        ensures
            0 <= j < self.entries.len(),
            self.entries[j].0 == self.other(i)->0,
            Some(self.entries[j].1) == self.arch.cz_partner(self.entries[i].1),
            self.other(j) == Some(self.entries[i].0),
    {
        let loc = self.entries[i].1;
        let partner = self.arch.cz_partner(loc)->0;
        lemma_occupant_entry(self.entries, partner);
        let other = self.other(i)->0;
        let j = choose|j: int| 0 <= j < self.entries.len() && self.entries[j] == (other, partner);
        assert(self.arch.cz_partner(partner) == Some(loc));
        lemma_occupant_entry(self.entries, loc);
        let back = occupant_in(self.entries, loc);
        if back is None {
            assert(self.entries[i].1 != loc);
        }
        let k = choose|k: int|
            0 <= k < self.entries.len() && self.entries[k] == (back->0, loc);
        if k < i {
            assert(self.entries[k].1.code() != self.entries[i].1.code());
        } else if i < k {
            assert(self.entries[i].1.code() != self.entries[k].1.code());
        }
        j
    }

    proof fn lemma_seen(self, n: nat, i: int)
        requires
            self.is_regular(),
            n <= self.entries.len(),
            0 <= i < self.entries.len(),
            self.seen(n).contains(self.entries[i].1.code()),
        ensures
            self.other(i) is Some,
            exists|k: int|
                0 <= k < n && #[trigger] self.shows(k) && (k == i || self.other(k) == Some(
                    self.entries[i].0,
                )),
        decreases n,
    {
        let k = n - 1;
        let rest = self.seen((n - 1) as nat);
        if rest.contains(self.entries[i].1.code()) {
            self.lemma_seen((n - 1) as nat, i);
        } else {
            assert(self.shows(k));
            let j = self.lemma_other(k);
            if self.entries[i].1.code() == self.entries[k].1.code() {
                if i < k {
                    assert(self.entries[i].1.code() != self.entries[k].1.code());
                } else if k < i {
                    assert(self.entries[k].1.code() != self.entries[i].1.code());
                }
            } else {
                assert(self.entries[i].1.code() == self.entries[j].1.code());
                if i < j {
                    assert(self.entries[i].1.code() != self.entries[j].1.code());
                } else if j < i {
                    assert(self.entries[j].1.code() != self.entries[i].1.code());
                }
            }
        }
    }

    /// Where partner locations are mutual and no two atoms share a location,
    /// exactly the free atoms across from a free atom are found: both members
    /// of every accidental CZ.
    pub proof fn lemma_both_members(self, i: int)
        requires
            self.is_regular(),
            forall|a: int, b: int|
                0 <= a < b < self.entries.len() ==> (#[trigger] self.entries[a]).0 != (
                #[trigger] self.entries[b]).0,
            0 <= i < self.entries.len(),
        ensures
            self.is_member()(self.entries[i].0) <==> self.other(i) is Some,
    {
        let qubit_id = self.entries[i].0;
        if self.is_member()(qubit_id) {
            let k = choose|k: int|
                0 <= k < self.entries.len() && #[trigger] self.shows(k) && (self.entries[k].0
                    == qubit_id || self.other(k) == Some(qubit_id));
            let j = self.lemma_other(k);
            if self.entries[k].0 == qubit_id {
                if k < i {
                    assert(self.entries[k].0 != self.entries[i].0);
                } else if i < k {
                    assert(self.entries[i].0 != self.entries[k].0);
                }
            } else {
                if j < i {
                    assert(self.entries[j].0 != self.entries[i].0);
                } else if i < j {
                    assert(self.entries[i].0 != self.entries[j].0);
                }
            }
        }
        if self.other(i) is Some {
            if self.shows(i) {
                assert(self.is_member()(qubit_id));
            } else {
                self.lemma_seen(i as nat, i);
                let k = choose|k: int|
                    0 <= k < i && #[trigger] self.shows(k) && (k == i || self.other(k) == Some(
                        self.entries[i].0,
                    ));
                assert(self.is_member()(qubit_id));
            }
        }
    }
}

} // verus!
