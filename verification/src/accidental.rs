//! Spectators on partner sites.

use crate::arch::LocationAddr;
use crate::config::Config;
use crate::entangling::PlacementSet;
use crate::goals::{
    accidental_partner, find_accidental_partner, pair_placed, pair_qubits, EntanglingConstraintGoal,
    Goal,
};
use std::collections::{HashMap, HashSet};
use vstd::prelude::*;

verus! {

broadcast use vstd::std_specs::hash::group_hash_axioms;

/// What looking for accidental CZs reads: the placed atoms, the qubits of CZ
/// pairs, and the partner of each entangling location.
pub ghost struct Crossings {
    pub entries: Seq<(u32, LocationAddr)>,
    pub cz_qubits: Set<u32>,
    pub partners: Map<u64, u64>,
}

impl Crossings {
    /// The spectator across from the spectator at position `i`.
    pub open spec fn other(self, i: int) -> Option<u32> {
        accidental_partner(self.entries, self.cz_qubits, self.partners, i)
    }

    /// The location across from the atom at position `i`.
    pub open spec fn across(self, i: int) -> u64 {
        self.partners[self.entries[i].1.code()]
    }

    /// The two locations of the accidental CZ at position `i`, lower one first.
    pub open spec fn sites(self, i: int) -> (u64, u64) {
        let here = self.entries[i].1.code();
        if here < self.across(i) {
            (here, self.across(i))
        } else {
            (self.across(i), here)
        }
    }

    /// The atom at position `i` shows an accidental CZ that no earlier one
    /// shows.
    pub open spec fn shows(self, i: int) -> bool {
        &&& self.other(i) is Some
        &&& forall|k: int|
            0 <= k < i && (#[trigger] self.other(k)) is Some ==> self.sites(k) != self.sites(i)
    }

    /// Of the two spectators, the one with the higher id and where it sits.
    pub open spec fn mover(self, i: int) -> (u32, LocationAddr) {
        let other = self.other(i)->0;
        if self.entries[i].0 > other {
            self.entries[i]
        } else {
            (other, LocationAddr::of_code(self.across(i)))
        }
    }

    /// The spectators to move, for the accidental CZs that the first `n` atoms
    /// show.
    pub open spec fn movers(self, n: nat) -> Seq<(u32, LocationAddr)>
        decreases n,
    {
        if n == 0 {
            Seq::empty()
        } else if self.shows(n - 1) {
            self.movers((n - 1) as nat).push(self.mover(n - 1))
        } else {
            self.movers((n - 1) as nat)
        }
    }

    /// Sites of the accidental CZs that the first `n` atoms show.
    spec fn is_known(self, n: int, sites: (u64, u64)) -> bool {
        exists|k: int|
            0 <= k < n && (#[trigger] self.other(k)) is Some && self.sites(k) == sites
    }

    proof fn lemma_movers_some(self, n: nat, i: int)
        requires
            0 <= i < n,
            self.other(i) is Some,
        ensures
            self.movers(n).len() > 0,
        decreases n,
    {
        if exists|k: int| 0 <= k < n - 1 && (#[trigger] self.other(k)) is Some {
            let k = choose|k: int| 0 <= k < n - 1 && (#[trigger] self.other(k)) is Some;
            self.lemma_movers_some((n - 1) as nat, k);
        } else {
            assert(i == n - 1);
            assert(self.shows(i));
        }
    }

    proof fn lemma_movers_none(self, n: nat)
        requires
            forall|i: int| 0 <= i < n ==> (#[trigger] self.other(i)) is None,
        ensures
            self.movers(n).len() == 0,
        decreases n,
    {
        if n > 0 {
            self.lemma_movers_none((n - 1) as nat);
            assert(self.other(n - 1) is None);
        }
    }

    /// A spectator is to be moved exactly where there is an accidental CZ.
    pub proof fn lemma_movers(self)
        ensures
            self.movers(self.entries.len()).len() == 0 <==> forall|i: int|
                0 <= i < self.entries.len() ==> (#[trigger] self.other(i)) is None,
    {
        if forall|i: int| 0 <= i < self.entries.len() ==> (#[trigger] self.other(i)) is None {
            self.lemma_movers_none(self.entries.len());
        } else {
            let i = choose|i: int|
                0 <= i < self.entries.len() && !((#[trigger] self.other(i)) is None);
            self.lemma_movers_some(self.entries.len(), i);
        }
    }
}

/// The entangling goal is the demand on the pairs together with there being no
/// accidental CZ to clean up.
pub proof fn lemma_goal_without_accidentals(goal: EntanglingConstraintGoal, config: Config)
    ensures
        goal.holds(config) <==> {
            &&& forall|i: int|
                0 <= i < goal.pairs().len() ==> pair_placed(
                    config,
                    #[trigger] goal.pairs()[i],
                    goal.placements(),
                )
            &&& (Crossings {
                entries: config@,
                cz_qubits: pair_qubits(goal.pairs()),
                partners: goal.partners(),
            }).movers(config@.len()).len() == 0
        },
{
    let crossings = Crossings {
        entries: config@,
        cz_qubits: pair_qubits(goal.pairs()),
        partners: goal.partners(),
    };
    crossings.lemma_movers();
    assert(forall|i: int|
        crossings.other(i) == #[trigger] accidental_partner(
            config@,
            pair_qubits(goal.pairs()),
            goal.partners(),
            i,
        ));
}

/// Find spectators in accidental CZ positions.
///
/// An accidental CZ occurs when two spectators, qubits outside `cz_qubits`,
/// occupy partner sites. One qubit per accidental CZ is returned, the one with
/// the higher id, together with the location that it has to leave.
pub fn find_accidental_cz(
    config: &Config,
    cz_qubits: &HashSet<u32>,
    partner_map: &HashMap<u64, u64>,
) -> (movers: Vec<(u32, LocationAddr)>)
    ensures
        movers@ == (Crossings {
            entries: config@,
            cz_qubits: cz_qubits@,
            partners: partner_map@,
        }).movers(config@.len()),
{
    let ghost model = Crossings {
        entries: config@,
        cz_qubits: cz_qubits@,
        partners: partner_map@,
    };
    let entries = config.entries();
    let mut movers: Vec<(u32, LocationAddr)> = Vec::new();
    let mut seen = PlacementSet::new();
    let mut n: usize = 0;
    while n < entries.len()
        invariant
            n <= entries@.len(),
            entries@ == config@,
            model == (Crossings {
                entries: config@,
                cz_qubits: cz_qubits@,
                partners: partner_map@,
            }),
            movers@ == model.movers(n as nat),
            forall|sites: (u64, u64)| #[trigger]
                seen@.contains(sites) <==> model.is_known(n as int, sites),
        decreases entries.len() - n,
    {
        let (qubit_id, loc) = entries[n];
        let ghost known = seen@;
        assert(config@[n as int] == (qubit_id, loc));
        match find_accidental_partner(config, cz_qubits, partner_map, qubit_id, loc) {
            Some(other) => {
                let here = loc.encode();
                assert(model.other(n as int) == Some(other));
                let across: u64 = match partner_map.get(&here) {
                    Some(across) => *across,
                    None => here,
                };
                let sites = if here < across {
                    (here, across)
                } else {
                    (across, here)
                };
                assert(sites == model.sites(n as int));
                let fresh = !seen.contains(&sites);
                proof {
                    assert(fresh <==> model.shows(n as int)) by {
                        if !fresh {
                            assert(model.is_known(n as int, sites));
                        } else {
                            assert(!model.is_known(n as int, sites));
                        }
                    }
                }
                if fresh {
                    seen.insert(sites.0, sites.1);
                    if qubit_id > other {
                        movers.push((qubit_id, loc));
                    } else {
                        movers.push((other, LocationAddr::decode(across)));
                    }
                }
            },
            None => {},
        }
        proof {
            assert forall|sites: (u64, u64)| #[trigger]
                seen@.contains(sites) <==> model.is_known(n + 1, sites) by {
                assert(known.contains(sites) <==> model.is_known(n as int, sites));
                if model.is_known(n as int, sites) {
                    let k = choose|k: int|
                        0 <= k < n && (#[trigger] model.other(k)) is Some && model.sites(k)
                            == sites;
                    assert(model.is_known(n + 1, sites));
                }
                if model.other(n as int) is Some && sites == model.sites(n as int) {
                    assert(model.is_known(n + 1, sites));
                }
            }
        }
        n += 1;
    }
    movers
}

} // verus!
