//! Accidental CZs and how they are cleaned up, stated on atoms, partner sites and
//! lanes.

use crate::accidental::{find_accidental_cz, Crossings};
use crate::arch::{ArchModel, LocationAddr};
use crate::config::{
    lemma_entry_of_location, lemma_location_of_entry, lemma_occupant_entry, occupant_in,
    ordered_by_qubit, Config,
};
use crate::engine::SearchEngine;
use crate::entangling::{
    is_partner_map, is_placement, is_regular, lemma_slots_disjoint, placements_of, position_slots,
};
use crate::goals::{
    accidental_partner, pair_placed, pair_qubits, EntanglingConstraintGoal, Goal,
};
use crate::lane_index::{starts_at, Lane};
use crate::loose_goal::{
    cleanup_movers, cleanup_of, cleanup_targets, Cleanup, SolveResult, SolveStatus,
};
use crate::seqs::{first_where, is_first, lemma_first_cases, lemma_first_found, lemma_first_none};
use std::collections::{HashMap, HashSet};
use vstd::prelude::*;

verus! {

/// Every partner of a location has that location as its partner, and all of them
/// are packed addresses.
pub open spec fn partners_mutual(partners: Map<u64, u64>) -> bool {
    forall|a: u64| #[trigger]
        partners.contains_key(a) ==> {
            &&& a < 0x100_0000_0000
            &&& partners[a] != a
            &&& partners.contains_key(partners[a])
            &&& partners[partners[a]] == a
        }
}

/// No two atoms share a qubit or a location, and every address fits.
pub open spec fn atoms_distinct(entries: Seq<(u32, LocationAddr)>) -> bool {
    &&& ordered_by_qubit(entries)
    &&& forall|i: int| 0 <= i < entries.len() ==> (#[trigger] entries[i]).1.fits()
    &&& forall|i: int, j: int|
        0 <= i < j < entries.len() ==> (#[trigger] entries[i]).1 != (#[trigger] entries[j]).1
}

/// Atoms `i` and `j` are in no pair and sit on partner sites.
pub open spec fn cross(
    entries: Seq<(u32, LocationAddr)>,
    cz_qubits: Set<u32>,
    partners: Map<u64, u64>,
    i: int,
    j: int,
) -> bool {
    &&& 0 <= i < entries.len()
    &&& 0 <= j < entries.len()
    &&& !cz_qubits.contains(entries[i].0)
    &&& !cz_qubits.contains(entries[j].0)
    &&& partners.contains_key(entries[i].1.code())
    &&& partners[entries[i].1.code()] == entries[j].1.code()
}

/// The partners of a regular architecture's locations are mutual.
pub proof fn lemma_regular_partners(arch: ArchModel, partners: Map<u64, u64>)
    requires
        is_regular(arch),
        is_partner_map(placements_of(position_slots(arch)), partners),
    ensures
        partners_mutual(partners),
{
    let slots = position_slots(arch);
    let set = placements_of(slots);
    assert forall|a: u64| #[trigger] partners.contains_key(a) implies a < 0x100_0000_0000
        && partners[a] != a && partners.contains_key(partners[a]) && partners[partners[a]]
        == a by {
        let b = partners[a];
        assert(set.contains((a, b)));
        let k = choose|k: int|
            0 <= k < slots.len() && (((#[trigger] slots[k]).loc_a == a && slots[k].loc_b == b) || (
            slots[k].loc_a == b && slots[k].loc_b == a));
        assert(is_placement(slots, b, a)) by {
            assert((slots[k].loc_a == b && slots[k].loc_b == a) || (slots[k].loc_a == a
                && slots[k].loc_b == b));
        }
        assert(set.contains((b, a)));
        let c = partners[b];
        assert(set.contains((b, c)));
        let m = choose|m: int|
            0 <= m < slots.len() && (((#[trigger] slots[m]).loc_a == b && slots[m].loc_b == c) || (
            slots[m].loc_a == c && slots[m].loc_b == b));
        lemma_slots_disjoint(arch, k, m);
        lemma_slot_codes(arch, k);
    }
}

proof fn lemma_slot_codes(arch: ArchModel, k: int)
    requires
        0 <= k < position_slots(arch).len(),
    ensures
        position_slots(arch)[k].loc_a < 0x100_0000_0000,
        position_slots(arch)[k].loc_b < 0x100_0000_0000,
{
}

impl Crossings {
    proof fn lemma_other(self, i: int)
        requires
            atoms_distinct(self.entries),
            partners_mutual(self.partners),
            0 <= i < self.entries.len(),
        ensures
            self.other(i) is Some <==> exists|j: int| #[trigger]
                cross(self.entries, self.cz_qubits, self.partners, i, j),
            forall|j: int| #[trigger]
                cross(self.entries, self.cz_qubits, self.partners, i, j) ==> self.other(i) == Some(
                    self.entries[j].0,
                ) && LocationAddr::of_code(self.across(i)) == self.entries[j].1 && cross(
                    self.entries,
                    self.cz_qubits,
                    self.partners,
                    j,
                    i,
                ),
    {
        let here = self.entries[i].1;
        if self.partners.contains_key(here.code()) {
            let code = self.partners[here.code()];
            let across = LocationAddr::of_code(code);
            assert(self.partners.contains_key(code));
            LocationAddr::lemma_encode_decode(code);
            lemma_occupant_entry(self.entries, across);
            assert forall|j: int| #[trigger]
                cross(self.entries, self.cz_qubits, self.partners, i, j) implies self.other(i)
                == Some(self.entries[j].0) && LocationAddr::of_code(self.across(i))
                == self.entries[j].1 && cross(
                self.entries,
                self.cz_qubits,
                self.partners,
                j,
                i,
            ) by {
                self.entries[j].1.lemma_decode_encode();
                assert(self.entries[j].1 == across);
                let holder = occupant_in(self.entries, across)->0;
                let m = choose|m: int|
                    0 <= m < self.entries.len() && self.entries[m] == (holder, across);
                if m < j {
                    assert(self.entries[m].1 != self.entries[j].1);
                } else if j < m {
                    assert(self.entries[j].1 != self.entries[m].1);
                }
            }
            if self.other(i) is Some {
                let holder = self.other(i)->0;
                let m = choose|m: int|
                    0 <= m < self.entries.len() && self.entries[m] == (holder, across);
                assert(cross(self.entries, self.cz_qubits, self.partners, i, m));
            }
        }
    }

    proof fn lemma_mover_index(self, n: nat, a: int) -> (i: int)
        requires
            0 <= a < self.movers(n).len(),
        ensures
            0 <= i < n,
            self.shows(i),
            self.movers(n)[a] == self.mover(i),
        decreases n,
    {
        let rest = self.movers((n - 1) as nat);
        if a < rest.len() {
            self.lemma_mover_index((n - 1) as nat, a)
        } else {
            n - 1
        }
    }

    proof fn lemma_shown_moves(self, n: nat, i: int)
        requires
            0 <= i < n,
            self.shows(i),
        ensures
            self.movers(n).contains(self.mover(i)),
        decreases n,
    {
        let rest = self.movers((n - 1) as nat);
        if i == n - 1 {
            assert(self.movers(n)[rest.len() as int] == self.mover(i));
        } else {
            self.lemma_shown_moves((n - 1) as nat, i);
            let a = choose|a: int| 0 <= a < rest.len() && rest[a] == self.mover(i);
            assert(self.movers(n)[a] == self.mover(i));
        }
    }

    /// The spectators to move are exactly those that cross a spectator with a
    /// lower id: of each accidental CZ, one.
    pub proof fn lemma_movers_are_higher(self, mover: (u32, LocationAddr))
        requires
            atoms_distinct(self.entries),
            partners_mutual(self.partners),
        ensures
            self.movers(self.entries.len()).contains(mover) <==> exists|i: int, j: int| #[trigger]
                cross(self.entries, self.cz_qubits, self.partners, i, j) && self.entries[i] == mover
                    && self.entries[j].0 < mover.0,
    {
        let all = self.movers(self.entries.len());
        if all.contains(mover) {
            let a = choose|a: int| 0 <= a < all.len() && all[a] == mover;
            let k = self.lemma_mover_index(self.entries.len(), a);
            self.lemma_other(k);
            let j = choose|j: int| #[trigger]
                cross(self.entries, self.cz_qubits, self.partners, k, j);
            assert(cross(self.entries, self.cz_qubits, self.partners, j, k));
            self.entries[k].1.lemma_decode_encode();
            if self.entries[k].0 == self.entries[j].0 {
                assert(k == j) by {
                    if k < j {
                        assert(self.entries[k].0 < self.entries[j].0);
                    } else if j < k {
                        assert(self.entries[j].0 < self.entries[k].0);
                    }
                }
            }
            if self.entries[k].0 > self.entries[j].0 {
                assert(self.entries[k] == mover);
            } else {
                assert(self.entries[j] == mover);
            }
        }
        if exists|i: int, j: int| #[trigger]
            cross(self.entries, self.cz_qubits, self.partners, i, j) && self.entries[i] == mover
                && self.entries[j].0 < mover.0 {
            let (i, j) = choose|i: int, j: int| #[trigger]
                cross(self.entries, self.cz_qubits, self.partners, i, j) && self.entries[i] == mover
                    && self.entries[j].0 < mover.0;
            self.lemma_other(i);
            self.lemma_other(j);
            assert(cross(self.entries, self.cz_qubits, self.partners, j, i));
            assert(j < i) by {
                if i < j {
                    assert(self.entries[i].0 < self.entries[j].0);
                }
            }
            assert(self.shows(j)) by {
                assert forall|k: int|
                    0 <= k < j && (#[trigger] self.other(k)) is Some implies self.sites(k)
                    != self.sites(j) by {
                    if self.sites(k) == self.sites(j) {
                        self.lemma_other(k);
                        let kk = self.entries[k].1;
                        let (ci, cj) = (self.entries[i].1, self.entries[j].1);
                        assert(kk.code() == ci.code() || kk.code() == cj.code());
                        assert(kk == ci || kk == cj) by {
                            kk.lemma_decode_encode();
                            ci.lemma_decode_encode();
                            cj.lemma_decode_encode();
                        }
                        assert(self.entries[k].1 != self.entries[j].1);
                        assert(self.entries[k].1 != self.entries[i].1);
                    }
                }
            }
            assert(self.mover(j) == mover);
            self.lemma_shown_moves(self.entries.len(), j);
        }
    }
}

/// [`find_accidental_cz`] returns exactly the spectators that cross a spectator
/// with a lower id.
pub proof fn lemma_find_accidental_cz(
    config: &Config,
    cz_qubits: &HashSet<u32>,
    partner_map: &HashMap<u64, u64>,
    movers: Vec<(u32, LocationAddr)>,
    mover: (u32, LocationAddr),
)
    requires
        atoms_distinct(config@),
        partners_mutual(partner_map@),
        call_ensures(find_accidental_cz, (config, cz_qubits, partner_map), movers),
    ensures
        movers@.contains(mover) <==> exists|i: int, j: int| #[trigger]
            cross(config@, cz_qubits@, partner_map@, i, j) && config@[i] == mover && config@[j].0
                < mover.0,
{
    (Crossings {
        entries: config@,
        cz_qubits: cz_qubits@,
        partners: partner_map@,
    }).lemma_movers_are_higher(mover);
}

/// Nobody sits at the location.
pub open spec fn is_free(entries: Seq<(u32, LocationAddr)>, loc: LocationAddr) -> bool {
    forall|m: int| 0 <= m < entries.len() ==> (#[trigger] entries[m]).1 != loc
}

/// A lane out of an accidental CZ: it leads from `loc` to a free location, and
/// nobody but a qubit of a pair sits across from there.
pub open spec fn leads_out(
    entries: Seq<(u32, LocationAddr)>,
    cz_qubits: Set<u32>,
    arch: ArchModel,
    loc: LocationAddr,
    lane: Lane,
) -> bool {
    &&& lane.src == loc
    &&& is_free(entries, lane.dst)
    &&& forall|m: int|
        0 <= m < entries.len() && arch.cz_partner(lane.dst) == Some((#[trigger] entries[m]).1)
            ==> cz_qubits.contains(entries[m].0)
}

/// The first of the lanes that leads out.
pub open spec fn is_first_way(
    entries: Seq<(u32, LocationAddr)>,
    cz_qubits: Set<u32>,
    arch: ArchModel,
    lanes: Seq<Lane>,
    loc: LocationAddr,
    l: int,
) -> bool {
    &&& 0 <= l < lanes.len()
    &&& leads_out(entries, cz_qubits, arch, loc, lanes[l])
    &&& forall|m: int|
        0 <= m < l ==> !leads_out(entries, cz_qubits, arch, loc, #[trigger] lanes[m])
}

proof fn lemma_first_of_filter<A>(
    s: Seq<A>,
    p: spec_fn(A) -> bool,
    e: spec_fn(A) -> bool,
    l: int,
)
    requires
        0 <= l < s.len(),
        p(s[l]),
        e(s[l]),
        forall|m: int| 0 <= m < l ==> !(p(#[trigger] s[m]) && e(s[m])),
    ensures
        first_where(s.filter(p), e) is Some,
        s.filter(p)[first_where(s.filter(p), e)->0] == s[l],
    decreases s.len(),
{
    reveal(Seq::filter);
    let t = s.drop_last();
    let f = t.filter(p);
    if l == s.len() - 1 {
        lemma_none_of_filter(t, p, e);
        assert(s.filter(p) == f.push(s.last()));
        lemma_first_cases(f, e);
        assert(is_first(s.filter(p), e, f.len() as int));
        lemma_first_found(s.filter(p), e, f.len() as int);
    } else {
        lemma_first_of_filter(t, p, e, l);
        lemma_first_cases(f, e);
        let i = first_where(f, e)->0;
        assert(is_first(s.filter(p), e, i)) by {
            assert forall|k: int| 0 <= k < i implies !e(#[trigger] s.filter(p)[k]) by {
                assert(s.filter(p)[k] == f[k]);
            }
            assert(s.filter(p)[i] == f[i]);
        }
        lemma_first_found(s.filter(p), e, i);
    }
}

proof fn lemma_none_of_filter<A>(s: Seq<A>, p: spec_fn(A) -> bool, e: spec_fn(A) -> bool)
    requires
        forall|m: int| 0 <= m < s.len() ==> !(p(#[trigger] s[m]) && e(s[m])),
    ensures
        first_where(s.filter(p), e) is None,
{
    crate::lane_index::lemma_filter_contains(s, p);
    assert forall|k: int| 0 <= k < s.filter(p).len() implies !e(#[trigger] s.filter(p)[k]) by {
        assert(s.filter(p).contains(s.filter(p)[k]));
        let m = choose|m: int| 0 <= m < s.len() && s[m] == s.filter(p)[k];
        assert(!(p(s[m]) && e(s[m])));
    }
    lemma_first_none(s.filter(p), e);
}

proof fn lemma_least_where<A>(s: Seq<A>, q: spec_fn(A) -> bool)
    ensures
        (forall|m: int| 0 <= m < s.len() ==> !q(#[trigger] s[m])) || exists|l: int| #[trigger]
            is_first(s, q, l),
{
    lemma_first_cases(s, q);
}

impl Cleanup {
    proof fn lemma_is_exit(self, loc: LocationAddr, lane: Lane)
        requires
            atoms_distinct(self.entries),
        ensures
            starts_at(loc)(lane) && self.is_exit()(lane) <==> leads_out(
                self.entries,
                self.cz_qubits,
                self.arch,
                loc,
                lane,
            ),
    {
        lemma_occupant_entry(self.entries, lane.dst);
        if occupant_in(self.entries, lane.dst) is Some {
            let q = occupant_in(self.entries, lane.dst)->0;
            let m = choose|m: int| 0 <= m < self.entries.len() && self.entries[m] == (q, lane.dst);
            assert(self.entries[m].1 == lane.dst);
        }
        if let Some(partner) = self.arch.cz_partner(lane.dst) {
            lemma_occupant_entry(self.entries, partner);
            if let Some(holder) = occupant_in(self.entries, partner) {
                let m = choose|m: int|
                    0 <= m < self.entries.len() && self.entries[m] == (holder, partner);
                assert(self.entries[m].1 == partner);
                assert forall|n: int|
                    0 <= n < self.entries.len() && (#[trigger] self.entries[n]).1
                        == partner implies n == m by {
                    if m < n {
                        assert(self.entries[m].1 != self.entries[n].1);
                    } else if n < m {
                        assert(self.entries[n].1 != self.entries[m].1);
                    }
                }
            }
        }
    }

    /// A way out is the end of the first lane that leads out.
    pub proof fn lemma_way_out(self, loc: LocationAddr)
        requires
            atoms_distinct(self.entries),
        ensures
            match self.way_out(loc) {
                Some(dst) => exists|l: int| #[trigger]
                    is_first_way(self.entries, self.cz_qubits, self.arch, self.lanes, loc, l)
                        && dst == self.lanes[l].dst,
                None => forall|l: int|
                    0 <= l < self.lanes.len() ==> !leads_out(
                        self.entries,
                        self.cz_qubits,
                        self.arch,
                        loc,
                        #[trigger] self.lanes[l],
                    ),
            },
    {
        let (p, e) = (starts_at(loc), self.is_exit());
        let q = |lane: Lane|
            leads_out(self.entries, self.cz_qubits, self.arch, loc, lane);
        assert forall|lane: Lane| p(lane) && e(lane) <==> #[trigger] q(lane) by {
            self.lemma_is_exit(loc, lane);
        }
        lemma_least_where(self.lanes, q);
        if exists|l: int| #[trigger] is_first(self.lanes, q, l) {
            let l = choose|l: int| #[trigger] is_first(self.lanes, q, l);
            assert(q(self.lanes[l]));
            assert forall|m: int| 0 <= m < l implies !(p(#[trigger] self.lanes[m]) && e(
                self.lanes[m],
            )) by {
                assert(!q(self.lanes[m]));
            }
            lemma_first_of_filter(self.lanes, p, e, l);
            assert forall|m: int| 0 <= m < l implies !leads_out(
                self.entries,
                self.cz_qubits,
                self.arch,
                loc,
                #[trigger] self.lanes[m],
            ) by {
                assert(!q(self.lanes[m]));
            }
            assert(is_first_way(self.entries, self.cz_qubits, self.arch, self.lanes, loc, l));
        } else {
            assert forall|m: int| 0 <= m < self.lanes.len() implies !(p(#[trigger] self.lanes[m])
                && e(self.lanes[m])) by {
                assert(!q(self.lanes[m]));
            }
            lemma_none_of_filter(self.lanes, p, e);
            assert forall|l: int| 0 <= l < self.lanes.len() implies !leads_out(
                self.entries,
                self.cz_qubits,
                self.arch,
                loc,
                #[trigger] self.lanes[l],
            ) by {
                assert(!q(self.lanes[l]));
            }
        }
    }

    /// A mover gets its way out, whatever the other movers get.
    proof fn lemma_mover_target(self, movers: Seq<(u32, LocationAddr)>, n: nat, k: int)
        requires
            n <= movers.len(),
            0 <= k < self.entries.len(),
            forall|a: int|
                0 <= a < n && (#[trigger] movers[a]).0 == self.entries[k].0 ==> movers[a]
                    == self.entries[k],
        ensures
            self.targets(movers, n).len() == self.entries.len(),
            self.targets(movers, n)[k].0 == self.entries[k].0,
            self.targets(movers, n)[k].1 == {
                if exists|a: int| 0 <= a < n && #[trigger] movers[a] == self.entries[k] {
                    match self.way_out(self.entries[k].1) {
                        Some(dst) => dst,
                        None => self.entries[k].1,
                    }
                } else {
                    self.entries[k].1
                }
            },
        decreases n,
    {
        if n > 0 {
            self.lemma_mover_target(movers, (n - 1) as nat, k);
            let last = movers[n - 1];
            let rest = self.targets(movers, (n - 1) as nat);
            if last.0 == self.entries[k].0 {
                assert(last == self.entries[k]);
                assert(movers[n - 1] == self.entries[k]);
            } else {
                assert(self.targets(movers, n)[k] == rest[k]);
            }
        }
    }
}

/// Cleaning up dissolves every accidental CZ that it can. The targets list the
/// atoms of the solved configuration. A spectator that crosses one with a lower id
/// is sent along the first lane that leads out, hence elsewhere; where there is no
/// such lane it stays, and so does every other atom. There is nothing to clean up
/// exactly where the search did not succeed or no two spectators cross.
pub proof fn lemma_cleanup_targets(
    engine: &SearchEngine,
    cz_pairs: &[(u32, u32)],
    result: &SolveResult,
    cleanup: Option<Vec<(u32, LocationAddr)>>,
)
    requires
        atoms_distinct(result.goal_config@),
        partners_mutual(engine.derived().partner_map@),
        call_ensures(cleanup_targets, (engine, cz_pairs, result), cleanup),
    ensures
        ({
            let entries = result.goal_config@;
            let cz_qubits = pair_qubits(cz_pairs@);
            let partners = engine.derived().partner_map@;
            let arch = engine.lane_index().arch();
            let lanes = engine.lane_index().lanes();
            &&& cleanup is Some <==> result.status == SolveStatus::Solved && exists|i: int, j: int|
                #[trigger] cross(entries, cz_qubits, partners, i, j)
            &&& cleanup matches Some(targets) ==> {
                &&& targets@.len() == entries.len()
                &&& forall|k: int|
                    0 <= k < entries.len() ==> (#[trigger] targets@[k]).0 == entries[k].0
                &&& forall|i: int, j: int, l: int|
                    #![trigger cross(entries, cz_qubits, partners, i, j), lanes[l]]
                    cross(entries, cz_qubits, partners, i, j) && entries[j].0 < entries[i].0
                        && is_first_way(entries, cz_qubits, arch, lanes, entries[i].1, l)
                        ==> targets@[i].1 == lanes[l].dst && targets@[i].1 != entries[i].1
                &&& forall|k: int|
                    0 <= k < entries.len() && (#[trigger] targets@[k]).1 != entries[k].1 ==> {
                        &&& exists|j: int| #[trigger]
                            cross(entries, cz_qubits, partners, k, j) && entries[j].0 < entries[k].0
                        &&& exists|l: int| #[trigger]
                            is_first_way(entries, cz_qubits, arch, lanes, entries[k].1, l)
                    }
            }
        }),
{
    let entries = result.goal_config@;
    let cz_qubits = pair_qubits(cz_pairs@);
    let partners = engine.derived().partner_map@;
    let arch = engine.lane_index().arch();
    let lanes = engine.lane_index().lanes();
    let crossings = Crossings { entries, cz_qubits, partners };
    let movers = cleanup_movers(engine, &result.goal_config, cz_pairs@);
    let model = cleanup_of(engine, &result.goal_config, cz_pairs@);
    if movers.len() > 0 {
        crossings.lemma_movers_are_higher(movers[0]);
        assert(movers.contains(movers[0]));
    }
    if exists|i: int, j: int| #[trigger] cross(entries, cz_qubits, partners, i, j) {
        let (i, j) = choose|i: int, j: int| #[trigger] cross(entries, cz_qubits, partners, i, j);
        crossings.lemma_other(i);
        assert(cross(entries, cz_qubits, partners, j, i));
        assert(i != j);
        if i < j {
            assert(entries[i].0 < entries[j].0);
            crossings.lemma_movers_are_higher(entries[j]);
        } else {
            assert(entries[j].0 < entries[i].0);
            crossings.lemma_movers_are_higher(entries[i]);
        }
    }
    if let Some(targets) = cleanup {
        assert forall|k: int| 0 <= k < entries.len() implies (#[trigger] targets@[k]).0
            == entries[k].0 && targets@.len() == entries.len() by {
            lemma_movers_sit(crossings, k);
            model.lemma_mover_target(movers, movers.len(), k);
        }
        lemma_movers_list(model, movers);
        assert forall|i: int, j: int, l: int|
            #![trigger cross(entries, cz_qubits, partners, i, j), lanes[l]]
            cross(entries, cz_qubits, partners, i, j) && entries[j].0 < entries[i].0
                && is_first_way(entries, cz_qubits, arch, lanes, entries[i].1, l) implies
            targets@[i].1 == lanes[l].dst && targets@[i].1 != entries[i].1 by {
            crossings.lemma_movers_are_higher(entries[i]);
            lemma_movers_sit(crossings, i);
            model.lemma_mover_target(movers, movers.len(), i);
            model.lemma_way_out(entries[i].1);
            let a = choose|a: int| 0 <= a < movers.len() && movers[a] == entries[i];
            assert(movers[a] == entries[i]);
            assert(model.way_out(entries[i].1) is Some) by {
                assert(leads_out(entries, cz_qubits, arch, entries[i].1, lanes[l]));
            }
            let m = choose|m: int| #[trigger]
                is_first_way(entries, cz_qubits, arch, lanes, entries[i].1, m)
                    && model.way_out(entries[i].1) == Some(lanes[m].dst);
            if m < l {
                assert(!leads_out(entries, cz_qubits, arch, entries[i].1, lanes[m]));
            } else if l < m {
                assert(!leads_out(entries, cz_qubits, arch, entries[i].1, lanes[l]));
            }
            assert(is_free(entries, lanes[l].dst));
        }
        assert forall|k: int|
            0 <= k < entries.len() && (#[trigger] targets@[k]).1 != entries[k].1 implies (exists|
            j: int,
        | #[trigger]
            cross(entries, cz_qubits, partners, k, j) && entries[j].0 < entries[k].0) && (exists|
            l: int,
        | #[trigger]
            is_first_way(entries, cz_qubits, arch, lanes, entries[k].1, l)) by {
            lemma_movers_sit(crossings, k);
            model.lemma_mover_target(movers, movers.len(), k);
            model.lemma_way_out(entries[k].1);
            assert(exists|a: int| 0 <= a < movers.len() && #[trigger] movers[a] == entries[k]);
            assert(movers.contains(entries[k]));
            crossings.lemma_movers_are_higher(entries[k]);
            let (i, j) = choose|i: int, j: int| #[trigger]
                cross(entries, cz_qubits, partners, i, j) && entries[i] == entries[k]
                    && entries[j].0 < entries[k].0;
            if i < k {
                assert(entries[i].0 < entries[k].0);
            } else if k < i {
                assert(entries[k].0 < entries[i].0);
            }
            assert(cross(entries, cz_qubits, partners, k, j));
        }
    }
}

/// A list of targets is as long as the list of atoms.
proof fn lemma_movers_list(model: Cleanup, movers: Seq<(u32, LocationAddr)>)
    ensures
        model.targets(movers, movers.len()).len() == model.entries.len(),
{
    lemma_targets_length(model, movers, movers.len());
}

proof fn lemma_targets_length(model: Cleanup, movers: Seq<(u32, LocationAddr)>, n: nat)
    ensures
        model.targets(movers, n).len() == model.entries.len(),
    decreases n,
{
    if n > 0 {
        lemma_targets_length(model, movers, (n - 1) as nat);
    }
}

/// Movers are where the atoms are.
proof fn lemma_movers_sit(crossings: Crossings, k: int)
    requires
        atoms_distinct(crossings.entries),
        partners_mutual(crossings.partners),
        0 <= k < crossings.entries.len(),
    ensures
        forall|a: int|
            0 <= a < crossings.movers(crossings.entries.len()).len() && (
            #[trigger] crossings.movers(crossings.entries.len())[a]).0 == crossings.entries[k].0
                ==> crossings.movers(crossings.entries.len())[a] == crossings.entries[k],
{
    let entries = crossings.entries;
    let movers = crossings.movers(entries.len());
    assert forall|a: int|
        0 <= a < movers.len() && (#[trigger] movers[a]).0 == entries[k].0 implies movers[a]
        == entries[k] by {
        assert(movers.contains(movers[a]));
        crossings.lemma_movers_are_higher(movers[a]);
        let (i, j) = choose|i: int, j: int| #[trigger]
            cross(entries, crossings.cz_qubits, crossings.partners, i, j) && entries[i] == movers[a]
                && entries[j].0 < movers[a].0;
        if i < k {
            assert(entries[i].0 < entries[k].0);
        } else if k < i {
            assert(entries[k].0 < entries[i].0);
        }
    }
}

/// The atoms of the pair sit on a valid placement.
pub open spec fn pair_sits(
    entries: Seq<(u32, LocationAddr)>,
    placements: Set<(u64, u64)>,
    pair: (u32, u32),
) -> bool {
    exists|m: int, n: int|
        0 <= m < entries.len() && 0 <= n < entries.len() && (#[trigger] entries[m]).0 == pair.0 && (
        #[trigger] entries[n]).0 == pair.1 && placements.contains(
            (entries[m].1.code(), entries[n].1.code()),
        )
}

proof fn lemma_pair_sits(config: Config, placements: Set<(u64, u64)>, pair: (u32, u32))
    requires
        ordered_by_qubit(config@),
    ensures
        pair_placed(config, pair, placements) <==> pair_sits(config@, placements, pair),
{
    let entries = config@;
    if pair_placed(config, pair, placements) {
        lemma_entry_of_location(entries, pair.0);
        lemma_entry_of_location(entries, pair.1);
        let m = choose|m: int|
            0 <= m < entries.len() && entries[m] == (pair.0, config.at(pair.0)->0);
        let n = choose|n: int|
            0 <= n < entries.len() && entries[n] == (pair.1, config.at(pair.1)->0);
        assert(entries[m].0 == pair.0 && entries[n].0 == pair.1);
    }
    if pair_sits(entries, placements, pair) {
        let (m, n) = choose|m: int, n: int|
            0 <= m < entries.len() && 0 <= n < entries.len() && (#[trigger] entries[m]).0 == pair.0
                && (#[trigger] entries[n]).0 == pair.1 && placements.contains(
                (entries[m].1.code(), entries[n].1.code()),
            );
        lemma_location_of_entry(entries, m);
        lemma_location_of_entry(entries, n);
    }
}

/// An entangling goal is met exactly where the atoms of every pair sit on a valid
/// placement and no two spectators cross.
pub proof fn lemma_entangling_goal(goal: EntanglingConstraintGoal, config: Config)
    requires
        atoms_distinct(config@),
        partners_mutual(goal.partners()),
    ensures
        goal.holds(config) <==> {
            &&& forall|p: int|
                0 <= p < goal.pairs().len() ==> pair_sits(
                    config@,
                    goal.placements(),
                    #[trigger] goal.pairs()[p],
                )
            &&& forall|i: int, j: int| !#[trigger]
                cross(config@, pair_qubits(goal.pairs()), goal.partners(), i, j)
        },
{
    let (entries, cz_qubits) = (config@, pair_qubits(goal.pairs()));
    let crossings = Crossings { entries, cz_qubits, partners: goal.partners() };
    assert forall|p: int| 0 <= p < goal.pairs().len() implies pair_placed(
        config,
        #[trigger] goal.pairs()[p],
        goal.placements(),
    ) == pair_sits(entries, goal.placements(), goal.pairs()[p]) by {
        lemma_pair_sits(config, goal.placements(), goal.pairs()[p]);
    }
    if goal.holds(config) {
        assert forall|i: int, j: int| !#[trigger]
            cross(entries, cz_qubits, goal.partners(), i, j) by {
            if cross(entries, cz_qubits, goal.partners(), i, j) {
                crossings.lemma_other(i);
                assert(accidental_partner(entries, cz_qubits, goal.partners(), i) is None);
            }
        }
    }
    if forall|i: int, j: int| !#[trigger] cross(entries, cz_qubits, goal.partners(), i, j) {
        assert forall|i: int| 0 <= i < entries.len() implies (#[trigger] accidental_partner(
            entries,
            cz_qubits,
            goal.partners(),
            i,
        )) is None by {
            crossings.lemma_other(i);
            assert(crossings.other(i) is None);
        }
    }
}

} // verus!
