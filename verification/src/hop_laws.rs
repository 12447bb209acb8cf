//! Sums and minima of hop counts, stated on single distances.

use crate::arch::{ArchSpec, LocationAddr};
use crate::config::{lemma_entry_of_location, location_in, ordered_by_qubit, Config};
use crate::distance::{hops, DistanceTable};
use crate::entangling::{
    assignment_cost, collapse_min_distances, has_unplaced_target, is_nearest, slot_sites,
    total_hops, word_locations, EntanglingWordPair, WordPairDistances,
};
use crate::layer_laws::is_missing;
use std::collections::HashMap;
use vstd::prelude::*;

verus! {

/// Without targets an assignment costs nothing.
pub proof fn lemma_no_targets_cost_nothing(
    config: &Config,
    targets: &[(u32, u64)],
    table: &DistanceTable,
    cost: u32,
)
    requires
        targets@.len() == 0,
        call_ensures(assignment_cost, (config, targets, table), cost),
    ensures
        cost == 0,
{
}

proof fn lemma_total_hops(
    config: Config,
    targets: Seq<(u32, u64)>,
    table: Map<u64, Map<u64, u32>>,
)
    ensures
        0 <= total_hops(config, targets, table),
    decreases targets.len(),
{
    if targets.len() > 0 {
        lemma_total_hops(config, targets.drop_last(), table);
    }
}

/// One more target adds the hops of its qubit: none where it sits there, a large
/// number where it cannot get there. The cost stays what a `u32` can hold, and is
/// that with a target for a missing qubit.
pub proof fn lemma_one_more_target(
    config: &Config,
    targets: &[(u32, u64)],
    more: &[(u32, u64)],
    table: &DistanceTable,
    before: u32,
    after: u32,
    m: int,
    target: u64,
    n: Option<u32>,
)
    requires
        ordered_by_qubit(config@),
        0 <= m < config@.len(),
        more@ == targets@.push((config@[m].0, target)),
        call_ensures(assignment_cost, (config, targets, table), before),
        call_ensures(assignment_cost, (config, more, table), after),
        call_ensures(DistanceTable::distance, (table, config@[m].1.code(), target), n),
    ensures
        ({
            let own: int = if config@[m].1.code() == target {
                0
            } else {
                match n {
                    Some(n) => n as int,
                    None => 0x7fff_ffff,
                }
            };
            after == if before + own < u32::MAX {
                before + own
            } else {
                u32::MAX as int
            }
        }),
{
    let q = config@[m].0;
    let loc = location_in(config@, q);
    lemma_entry_of_location(config@, q);
    assert(loc is Some);
    let k = choose|k: int| 0 <= k < config@.len() && config@[k] == (q, loc->0);
    assert(k == m);
    assert(more@.drop_last() =~= targets@);
    assert(more@.last() == (q, target));
    lemma_total_hops(*config, targets@, table@);
    lemma_total_hops(*config, more@, table@);
    if has_unplaced_target(*config, targets@) {
        let i = choose|i: int|
            0 <= i < targets@.len() && config.at((#[trigger] targets@[i]).0) is None;
        assert(more@[i] == targets@[i]);
        assert(has_unplaced_target(*config, more@));
    }
    if has_unplaced_target(*config, more@) {
        let i = choose|i: int|
            0 <= i < more@.len() && config.at((#[trigger] more@[i]).0) is None;
        assert(i < targets@.len());
        assert(more@[i] == targets@[i]);
        assert(has_unplaced_target(*config, targets@));
    }
}

/// A target for a missing qubit makes an assignment as costly as can be.
pub proof fn lemma_missing_qubit_costs_all(
    config: &Config,
    targets: &[(u32, u64)],
    table: &DistanceTable,
    cost: u32,
    i: int,
)
    requires
        0 <= i < targets@.len(),
        is_missing(config@, targets@[i].0),
        call_ensures(assignment_cost, (config, targets, table), cost),
    ensures
        cost == u32::MAX,
{
    let q = targets@[i].0;
    lemma_entry_of_location(config@, q);
    if location_in(config@, q) is Some {
        let loc = location_in(config@, q)->0;
        let n = choose|n: int| 0 <= n < config@.len() && config@[n] == (q, loc);
        assert(config@[n].0 == q);
    }
    assert(config.at(targets@[i].0) is None);
}

/// `n` is the least number of hops from a location to any of some targets.
pub open spec fn least_hops(
    table: Map<u64, Map<u64, u32>>,
    from: u64,
    targets: Seq<u64>,
    n: u32,
) -> bool {
    &&& exists|i: int|
        0 <= i < targets.len() && #[trigger] hops(table, from, targets[i]) == Some(n)
    &&& forall|i: int|
        0 <= i < targets.len() && (#[trigger] hops(table, from, targets[i])) is Some ==> n <= hops(
            table,
            from,
            targets[i],
        )->0
}

proof fn lemma_nearest(
    table: Map<u64, Map<u64, u32>>,
    targets: Seq<u64>,
    nearest: Map<u64, u32>,
    from: u64,
    n: u32,
)
    requires
        is_nearest(table, targets, nearest),
    ensures
        nearest.contains_pair(from, n) <==> least_hops(table, from, targets, n),
{
    if nearest.contains_key(from) {
        let i = choose|i: int|
            0 <= i < targets.len() && #[trigger] hops(table, from, targets[i]) == Some(
                nearest[from],
            );
        assert(hops(table, from, targets[i]) is Some);
    }
    if least_hops(table, from, targets, n) {
        let i = choose|i: int|
            0 <= i < targets.len() && #[trigger] hops(table, from, targets[i]) == Some(n);
        assert(nearest.contains_key(from));
        assert(nearest[from] <= n);
        let k = choose|k: int|
            0 <= k < targets.len() && #[trigger] hops(table, from, targets[k]) == Some(
                nearest[from],
            );
        assert(n <= nearest[from]);
    }
}

/// Collapsed distances are the least ones to any of the targets.
pub proof fn lemma_collapsed_distances(
    table: &DistanceTable,
    targets: &[u64],
    nearest: HashMap<u64, u32>,
    from: u64,
    n: u32,
)
    requires
        call_ensures(collapse_min_distances, (table, targets), nearest),
    ensures
        nearest@.contains_pair(from, n) <==> least_hops(table@, from, targets@, n),
{
    lemma_nearest(table@, targets@, nearest@, from, n);
}

/// `n` is the least number of hops from a location to any site of a word.
pub open spec fn least_hops_to_word(
    table: Map<u64, Map<u64, u32>>,
    from: u64,
    zone_id: u32,
    word_id: u32,
    sites: u32,
    n: u32,
) -> bool {
    &&& exists|s: u32|
        s < sites && #[trigger] hops(
            table,
            from,
            (LocationAddr { zone_id, word_id, site_id: s }).code(),
        ) == Some(n)
    &&& forall|s: u32|
        s < sites && (#[trigger] hops(
            table,
            from,
            (LocationAddr { zone_id, word_id, site_id: s }).code(),
        )) is Some ==> n <= hops(
            table,
            from,
            (LocationAddr { zone_id, word_id, site_id: s }).code(),
        )->0
}

proof fn lemma_word_hops(
    table: Map<u64, Map<u64, u32>>,
    from: u64,
    zone_id: u32,
    word_id: u32,
    sites: u32,
    n: u32,
)
    ensures
        least_hops(table, from, word_locations(zone_id, word_id, sites), n) <==> least_hops_to_word(
            table,
            from,
            zone_id,
            word_id,
            sites,
            n,
        ),
{
    let locs = word_locations(zone_id, word_id, sites);
    if least_hops(table, from, locs, n) {
        let i = choose|i: int|
            0 <= i < locs.len() && #[trigger] hops(table, from, locs[i]) == Some(n);
        let s = i as u32;
        assert(hops(
            table,
            from,
            (LocationAddr { zone_id, word_id, site_id: s }).code(),
        ) == Some(n));
        assert forall|s: u32|
            s < sites && (#[trigger] hops(
                table,
                from,
                (LocationAddr { zone_id, word_id, site_id: s }).code(),
            )) is Some implies n <= hops(
            table,
            from,
            (LocationAddr { zone_id, word_id, site_id: s }).code(),
        )->0 by {
            assert(hops(table, from, locs[s as int]) is Some);
        }
    }
    if least_hops_to_word(table, from, zone_id, word_id, sites, n) {
        let s = choose|s: u32|
            s < sites && #[trigger] hops(
                table,
                from,
                (LocationAddr { zone_id, word_id, site_id: s }).code(),
            ) == Some(n);
        assert(hops(table, from, locs[s as int]) == Some(n));
        assert forall|i: int|
            0 <= i < locs.len() && (#[trigger] hops(table, from, locs[i])) is Some implies n
            <= hops(table, from, locs[i])->0 by {
            let s = i as u32;
            assert(hops(
                table,
                from,
                (LocationAddr { zone_id, word_id, site_id: s }).code(),
            ) is Some);
        }
    }
}

/// The distances of a word pair are the least ones to any site of its first word,
/// and to any of its second.
pub proof fn lemma_word_pair_distances(
    word_pairs: &[EntanglingWordPair],
    arch: &ArchSpec,
    table: &DistanceTable,
    distances: WordPairDistances,
    i: int,
    from: u64,
    n: u32,
)
    requires
        call_ensures(WordPairDistances::from_dist_table, (word_pairs, arch, table), distances),
        arch@.site_count() <= u32::MAX,
        0 <= i < word_pairs@.len(),
    ensures
        distances@.len() == word_pairs@.len(),
        distances@[i].0 == word_pairs@[i],
        ({
            let pair = word_pairs@[i];
            let sites = arch@.site_count() as u32;
            &&& distances@[i].1.contains_pair(from, n) <==> least_hops_to_word(
                table@,
                from,
                pair.zone_id,
                pair.word_a,
                sites,
                n,
            )
            &&& distances@[i].2.contains_pair(from, n) <==> least_hops_to_word(
                table@,
                from,
                pair.zone_id,
                pair.word_b,
                sites,
                n,
            )
        }),
{
    let pair = word_pairs@[i];
    let sites = slot_sites(arch@);
    let entry = distances@[i];
    lemma_nearest(
        table@,
        word_locations(pair.zone_id, pair.word_a, sites),
        entry.1,
        from,
        n,
    );
    lemma_nearest(
        table@,
        word_locations(pair.zone_id, pair.word_b, sites),
        entry.2,
        from,
        n,
    );
    lemma_word_hops(table@, from, pair.zone_id, pair.word_a, sites, n);
    lemma_word_hops(table@, from, pair.zone_id, pair.word_b, sites, n);
}

} // verus!
