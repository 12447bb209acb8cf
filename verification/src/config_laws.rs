//! What configurations hold, stated on placements and moves.

use crate::arch::LocationAddr;
use crate::config::{
    after_moves, distinct_qubits, first_repeat, lemma_entry_of_location,
    ordered_by_qubit, place_map, relocated, sits_at, Config,
    ConfigError,
};
use crate::lookahead::{collect_target_map, target_map, with_targets};
use crate::repair::{config_from_assignment_targets, decoded};
use crate::seqs::{first_where, lemma_first_cases};
use std::collections::HashMap;
use vstd::prelude::*;

verus! {

/// Placements make a configuration unless two of them place the same qubit; the
/// error names the first qubit that comes a second time.
pub proof fn lemma_config_new(
    placements: &[(u32, LocationAddr)],
    result: Result<Config, ConfigError>,
)
    requires
        call_ensures(Config::new, (placements,), result),
    ensures
        result is Ok <==> (forall|i: int, j: int|
            0 <= i < j < placements@.len() ==> (#[trigger] placements@[i]).0 != (
            #[trigger] placements@[j]).0),
        match result {
            Ok(config) => config@.len() == placements@.len() && forall|i: int|
                0 <= i < placements@.len() ==> config@.contains(#[trigger] placements@[i]),
            Err(ConfigError::DuplicateQubit { qubit_id }) => exists|i: int, j: int|
                0 <= i < j < placements@.len() && (#[trigger] placements@[i]).0 == qubit_id && (
                #[trigger] placements@[j]).0 == qubit_id && (forall|k: int, m: int|
                    0 <= k < m < j ==> (#[trigger] placements@[k]).0 != (
                    #[trigger] placements@[m]).0),
        },
{
    match result {
        Ok(config) => {
            assert forall|i: int| 0 <= i < placements@.len() implies config@.contains(
                #[trigger] placements@[i],
            ) by {
                assert(placements@.contains(placements@[i]));
            }
        },
        Err(ConfigError::DuplicateQubit { qubit_id }) => {
            let j = choose|j: int| first_repeat(placements@, j) && placements@[j].0 == qubit_id;
            let i = choose|k: int| 0 <= k < j && (#[trigger] placements@[k]).0 == placements@[j].0;
            let head = placements@.take(j);
            assert forall|k: int, m: int| 0 <= k < m < j implies (#[trigger] placements@[k]).0 != (
            #[trigger] placements@[m]).0 by {
                assert(head[k].0 != head[m].0);
            }
            assert(placements@[i].0 == qubit_id && placements@[j].0 == qubit_id);
        },
    }
}

/// A qubit is found exactly where it is placed.
pub proof fn lemma_location_of(
    config: &Config,
    qubit_id: u32,
    found: Option<LocationAddr>,
    loc: LocationAddr,
)
    requires
        ordered_by_qubit(config@),
        call_ensures(Config::location_of, (config, qubit_id), found),
    ensures
        found == Some(loc) <==> config@.contains((qubit_id, loc)),
{
    lemma_entry_of_location(config@, qubit_id);
    if config@.contains((qubit_id, loc)) {
        let i = choose|i: int| 0 <= i < config@.len() && config@[i] == (qubit_id, loc);
        assert(config@[i].0 == qubit_id);
        assert(config@.contains((qubit_id, found->0)));
        let j = choose|j: int| 0 <= j < config@.len() && config@[j] == (qubit_id, found->0);
        assert(i == j);
    }
}

/// The occupant of a location is the lowest of the qubits that are placed there.
pub proof fn lemma_qubit_at(config: &Config, loc: LocationAddr, found: Option<u32>, qubit_id: u32)
    requires
        ordered_by_qubit(config@),
        call_ensures(Config::qubit_at, (config, loc), found),
    ensures
        found == Some(qubit_id) <==> {
            &&& config@.contains((qubit_id, loc))
            &&& forall|other: u32|
                other < qubit_id ==> !#[trigger] config@.contains((other, loc))
        },
{
    lemma_first_cases(config@, sits_at(loc));
    if let Some(k) = first_where(config@, sits_at(loc)) {
        assert(config@[k] == (config@[k].0, loc));
        assert(config@.contains((config@[k].0, loc)));
        assert forall|other: u32| other < config@[k].0 implies !#[trigger] config@.contains(
            (other, loc),
        ) by {
            if config@.contains((other, loc)) {
                let j = choose|j: int| 0 <= j < config@.len() && config@[j] == (other, loc);
                assert(sits_at(loc)(config@[j]));
                assert(k <= j);
            }
        }
        if config@.contains((qubit_id, loc)) {
            let j = choose|j: int| 0 <= j < config@.len() && config@[j] == (qubit_id, loc);
            assert(sits_at(loc)(config@[j]));
        }
    } else if config@.contains((qubit_id, loc)) {
        let j = choose|j: int| 0 <= j < config@.len() && config@[j] == (qubit_id, loc);
        assert(sits_at(loc)(config@[j]));
    }
}

/// Move `m` is the last of the moves of a qubit.
pub open spec fn is_last_move(moves: Seq<(u32, LocationAddr)>, qubit_id: u32, m: int) -> bool {
    &&& 0 <= m < moves.len()
    &&& moves[m].0 == qubit_id
    &&& forall|n: int| m < n < moves.len() ==> (#[trigger] moves[n]).0 != qubit_id
}

proof fn lemma_moved(
    entries: Seq<(u32, LocationAddr)>,
    moves: Seq<(u32, LocationAddr)>,
    k: int,
    m: int,
)
    requires
        0 <= k < entries.len(),
    ensures
        after_moves(entries, moves).len() == entries.len(),
        after_moves(entries, moves)[k].0 == entries[k].0,
        is_last_move(moves, entries[k].0, m) ==> after_moves(entries, moves)[k].1 == moves[m].1,
        (forall|n: int| 0 <= n < moves.len() ==> (#[trigger] moves[n]).0 != entries[k].0)
            ==> after_moves(entries, moves)[k] == entries[k],
    decreases moves.len(),
{
    if moves.len() > 0 {
        let rest = moves.drop_last();
        lemma_moved(entries, rest, k, m);
        let before = after_moves(entries, rest);
        assert(after_moves(entries, moves) == relocated(before, moves.last().0, moves.last().1));
        if is_last_move(moves, entries[k].0, m) && m < moves.len() - 1 {
            assert(moves[moves.len() - 1].0 != entries[k].0);
            assert forall|n: int| m < n < rest.len() implies (#[trigger] rest[n]).0
                != entries[k].0 by {
                assert(moves[n].0 != entries[k].0);
            }
            assert(is_last_move(rest, entries[k].0, m));
            assert(rest[m] == moves[m]);
        }
        if forall|n: int| 0 <= n < moves.len() ==> (#[trigger] moves[n]).0 != entries[k].0 {
            assert(moves[moves.len() - 1].0 != entries[k].0);
            assert forall|n: int| 0 <= n < rest.len() implies (#[trigger] rest[n]).0
                != entries[k].0 by {
                assert(moves[n].0 != entries[k].0);
            }
        }
    }
}

/// After some moves every placed qubit is where its last move sent it, and those
/// that no move names are where they were; moves of other qubits change nothing.
pub proof fn lemma_with_moves(
    config: &Config,
    moves: &[(u32, LocationAddr)],
    moved: Config,
    k: int,
    m: int,
)
    requires
        call_ensures(Config::with_moves, (config, moves), moved),
        0 <= k < config@.len(),
    ensures
        moved@.len() == config@.len(),
        moved@[k].0 == config@[k].0,
        is_last_move(moves@, config@[k].0, m) ==> moved@[k].1 == moves@[m].1,
        (forall|n: int| 0 <= n < moves@.len() ==> (#[trigger] moves@[n]).0 != config@[k].0)
            ==> moved@[k].1 == config@[k].1,
{
    lemma_moved(config@, moves@, k, m);
}

/// Target `m` is the last of the targets of a qubit.
pub open spec fn is_last_target(targets: Seq<(u32, u64)>, qubit_id: u32, m: int) -> bool {
    &&& 0 <= m < targets.len()
    &&& targets[m].0 == qubit_id
    &&& forall|n: int| m < n < targets.len() ==> (#[trigger] targets[n]).0 != qubit_id
}

/// Every placed qubit moves to its last target, and stays where it has none.
pub proof fn lemma_with_targets(
    config: &Config,
    targets: &[(u32, u64)],
    moved: Config,
    k: int,
    m: int,
    loc: LocationAddr,
)
    requires
        call_ensures(with_targets, (config, targets), moved),
        0 <= k < config@.len(),
        is_last_target(targets@, config@[k].0, m) ==> loc.fits() && targets@[m].1 == loc.code(),
    ensures
        moved@.len() == config@.len(),
        moved@[k].0 == config@[k].0,
        is_last_target(targets@, config@[k].0, m) ==> moved@[k].1 == loc,
        (forall|n: int| 0 <= n < targets@.len() ==> (#[trigger] targets@[n]).0 != config@[k].0)
            ==> moved@[k].1 == config@[k].1,
{
    let moves = decoded(targets@);
    lemma_moved(config@, moves, k, m);
    if is_last_target(targets@, config@[k].0, m) {
        loc.lemma_decode_encode();
        assert forall|n: int| m < n < moves.len() implies (#[trigger] moves[n]).0
            != config@[k].0 by {
            assert(targets@[n].0 != config@[k].0);
        }
        assert(is_last_move(moves, config@[k].0, m));
    }
    if forall|n: int| 0 <= n < targets@.len() ==> (#[trigger] targets@[n]).0 != config@[k].0 {
        assert forall|n: int| 0 <= n < moves.len() implies (#[trigger] moves[n]).0
            != config@[k].0 by {
            assert(targets@[n].0 != config@[k].0);
        }
    }
}

proof fn lemma_target_map(targets: Seq<(u32, u64)>, qubit_id: u32, code: u64)
    ensures
        target_map(targets).contains_pair(qubit_id, code) <==> exists|m: int| #[trigger]
            is_last_target(targets, qubit_id, m) && targets[m].1 == code,
    decreases targets.len(),
{
    if targets.len() > 0 {
        let rest = targets.drop_last();
        let last = targets.len() - 1;
        lemma_target_map(rest, qubit_id, code);
        if targets.last().0 == qubit_id {
            assert(is_last_target(targets, qubit_id, last));
            if exists|m: int| #[trigger]
                is_last_target(targets, qubit_id, m) && targets[m].1 == code {
                let m = choose|m: int| #[trigger]
                    is_last_target(targets, qubit_id, m) && targets[m].1 == code;
                if m < last {
                    assert(targets[last].0 != qubit_id);
                }
            }
        } else {
            assert forall|m: int|
                is_last_target(targets, qubit_id, m) <==> #[trigger] is_last_target(
                    rest,
                    qubit_id,
                    m,
                ) by {
                if is_last_target(targets, qubit_id, m) {
                    assert forall|n: int| m < n < rest.len() implies (#[trigger] rest[n]).0
                        != qubit_id by {
                        assert(targets[n].0 != qubit_id);
                    }
                }
                if is_last_target(rest, qubit_id, m) {
                    assert forall|n: int| m < n < targets.len() implies (#[trigger] targets[n]).0
                        != qubit_id by {
                        if n < last {
                            assert(rest[n].0 != qubit_id);
                        }
                    }
                }
            }
            if exists|m: int| #[trigger]
                is_last_target(targets, qubit_id, m) && targets[m].1 == code {
                let m = choose|m: int| #[trigger]
                    is_last_target(targets, qubit_id, m) && targets[m].1 == code;
                assert(is_last_target(rest, qubit_id, m));
                assert(rest[m] == targets[m]);
            }
            if exists|m: int| #[trigger]
                is_last_target(rest, qubit_id, m) && rest[m].1 == code {
                let m = choose|m: int| #[trigger]
                    is_last_target(rest, qubit_id, m) && rest[m].1 == code;
                assert(is_last_target(targets, qubit_id, m));
            }
        }
    }
}

/// The collected target of a qubit is its last one.
pub proof fn lemma_collect_target_map(
    targets: &[(u32, u64)],
    map: HashMap<u32, u64>,
    qubit_id: u32,
    code: u64,
)
    requires
        call_ensures(collect_target_map, (targets,), map),
    ensures
        map@.contains_pair(qubit_id, code) <==> exists|m: int| #[trigger]
            is_last_target(targets@, qubit_id, m) && targets@[m].1 == code,
{
    lemma_target_map(targets@, qubit_id, code);
}

/// Targets make a configuration unless a qubit has two of them; every qubit is
/// then at its target.
pub proof fn lemma_config_from_targets(
    targets: &[(u32, u64)],
    result: Option<Config>,
    m: int,
    loc: LocationAddr,
)
    requires
        call_ensures(config_from_assignment_targets, (targets,), result),
        0 <= m < targets@.len(),
        loc.fits(),
        targets@[m].1 == loc.code(),
    ensures
        result is Some <==> (forall|i: int, j: int|
            0 <= i < j < targets@.len() ==> (#[trigger] targets@[i]).0 != (
            #[trigger] targets@[j]).0),
        result is Some ==> (result->0)@.contains((targets@[m].0, loc)),
{
    let all = decoded(targets@);
    if forall|i: int, j: int|
        0 <= i < j < targets@.len() ==> (#[trigger] targets@[i]).0 != (#[trigger] targets@[j]).0 {
        assert(distinct_qubits(all));
    }
    if distinct_qubits(all) {
        assert forall|i: int, j: int| 0 <= i < j < targets@.len() implies (
        #[trigger] targets@[i]).0 != (#[trigger] targets@[j]).0 by {
            assert(all[i].0 != all[j].0);
        }
    }
    if let Some(config) = result {
        loc.lemma_decode_encode();
        let qubit_id = targets@[m].0;
        lemma_entry_of_location(all, qubit_id);
        assert(all[m] == (qubit_id, loc));
        let found = crate::config::location_in(all, qubit_id)->0;
        assert(all.contains((qubit_id, found)));
        let n = choose|n: int| 0 <= n < all.len() && all[n] == (qubit_id, found);
        assert(m == n);
        assert(place_map(all).contains_pair(qubit_id, loc));
        assert(place_map(config@).contains_pair(qubit_id, loc));
        lemma_entry_of_location(config@, qubit_id);
    }
}

} // verus!
