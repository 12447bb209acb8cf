//! An architecture together with what placement derives from it.

use crate::arch::ArchModel;
use crate::distance::{is_distance_table, DistanceTable};
use crate::entangling::{
    all_entangling_locations, build_entangling_set, build_partner_map, enumerate_word_pairs,
    is_half, is_nearest, is_partner_map, placements_of, position_slots, slot_sites, word_locations,
    word_pairs, PlacementSet, WordPairDistances,
};
use crate::lane_index::{Lane, LaneIndex};
use crate::seqs::increasing_u64;
use std::collections::HashMap;
use vstd::prelude::*;

verus! {

/// What depends on the architecture alone.
#[derive(Debug)]
pub struct EntanglingCache {
    /// Distances to all entangling locations.
    pub dist_table: DistanceTable,
    /// Valid placements of a pair.
    pub ent_set: PlacementSet,
    /// CZ partner of each entangling location.
    pub partner_map: HashMap<u64, u64>,
    /// Distances to each entangling word.
    pub wpd: WordPairDistances,
}

/// `locs` lists the halves of all positions in increasing order.
pub open spec fn lists_halves(arch: ArchModel, locs: Seq<u64>) -> bool {
    increasing_u64(locs) && forall|loc: u64| #[trigger]
        locs.contains(loc) <==> is_half(position_slots(arch), loc)
}

impl EntanglingCache {
    /// The cache belongs to the architecture and its lanes.
    pub open spec fn is_for(self, arch: ArchModel, lanes: Seq<Lane>) -> bool {
        &&& exists|locs: Seq<u64>| #[trigger]
            lists_halves(arch, locs) && is_distance_table(lanes, locs, self.dist_table@)
        &&& self.ent_set@ == placements_of(position_slots(arch))
        &&& is_partner_map(self.ent_set@, self.partner_map@)
        &&& self.wpd@.len() == word_pairs(arch).len()
        &&& forall|i: int|
            0 <= i < self.wpd@.len() ==> {
                let pair = word_pairs(arch)[i];
                let sites = slot_sites(arch);
                let entry = #[trigger] self.wpd@[i];
                &&& entry.0 == pair
                &&& is_nearest(
                    self.dist_table@,
                    word_locations(pair.zone_id, pair.word_a, sites),
                    entry.1,
                )
                &&& is_nearest(
                    self.dist_table@,
                    word_locations(pair.zone_id, pair.word_b, sites),
                    entry.2,
                )
            }
    }
}

/// The architecture-bound state that searches share.
#[derive(Debug)]
pub struct SearchEngine {
    index: LaneIndex,
    cache: EntanglingCache,
}

impl SearchEngine {
    /// The lane index.
    pub closed spec fn lane_index(self) -> LaneIndex {
        self.index
    }

    /// What depends on the architecture alone.
    pub closed spec fn derived(self) -> EntanglingCache {
        self.cache
    }

    #[verifier::type_invariant]
    spec fn consistent(self) -> bool {
        self.cache.is_for(self.index.arch(), self.index.lanes())
    }

    /// Derive everything from a lane index.
    pub fn from_index(index: LaneIndex) -> (engine: SearchEngine)
        ensures
            engine.lane_index() == index,
    {
        let arch = index.arch_spec();
        let locs = all_entangling_locations(arch);
        let dist_table = DistanceTable::new(locs.as_slice(), &index);
        let ent_set = build_entangling_set(arch);
        let partner_map = build_partner_map(&ent_set);
        let pairs = enumerate_word_pairs(arch);
        let wpd = WordPairDistances::from_dist_table(pairs.as_slice(), arch, &dist_table);
        proof {
            assert(lists_halves(index.arch(), locs@));
        }
        SearchEngine { index, cache: EntanglingCache { dist_table, ent_set, partner_map, wpd } }
    }

    /// The lane index.
    pub fn index(&self) -> (index: &LaneIndex)
        ensures
            *index == self.lane_index(),
    {
        &self.index
    }

    /// What depends on the architecture alone.
    pub fn entangling_cache(&self) -> (cache: &EntanglingCache)
        ensures
            *cache == self.derived(),
            cache.is_for(self.lane_index().arch(), self.lane_index().lanes()),
    {
        proof {
            use_type_invariant(self);
        }
        &self.cache
    }
}

} // verus!
