//! Lanes and hop counts, stated on the buses of an architecture.

use crate::arch::{ArchModel, BusModel, LocationAddr};
use crate::distance::{
    hop, hops, is_row, lemma_shortest_exists, lemma_shortest_step, shortest,
    walk, DistanceTable, BIG,
};
use crate::lane_index::{bus_lane, has_lane, rides, some_bus_lane, BusScope, Lane, LaneIndex};
use std::collections::HashMap;
use vstd::prelude::*;

verus! {

/// One of the buses pairs `a` and `b`, one as a source and the other as the
/// destination at the same position.
pub open spec fn paired_by_bus(buses: Seq<BusModel>, a: u32, b: u32) -> bool {
    exists|n: int, k: int|
        0 <= n < buses.len() && 0 <= k < buses[n].src.len() && k < buses[n].dst.len() && {
            ||| (#[trigger] buses[n].src[k]) == a && buses[n].dst[k] == b
            ||| buses[n].src[k] == b && buses[n].dst[k] == a
        }
}

/// An atom can go from `src` to `dst` in one move: both lie in one zone, and
/// either in one word with site buses, of which one pairs the two sites, or at one
/// site with word buses, of which one pairs the two words.
pub open spec fn one_move(arch: ArchModel, src: LocationAddr, dst: LocationAddr) -> bool {
    let zone = arch.zones[src.zone_id as int];
    &&& src.zone_id == dst.zone_id
    &&& src.zone_id < arch.zones.len()
    &&& {
        ||| {
            &&& src.word_id == dst.word_id
            &&& zone.words_with_site_buses.contains(src.word_id)
            &&& paired_by_bus(zone.site_buses, src.site_id, dst.site_id)
        }
        ||| {
            &&& src.site_id == dst.site_id
            &&& zone.sites_with_word_buses.contains(src.site_id)
            &&& paired_by_bus(zone.word_buses, src.word_id, dst.word_id)
        }
    }
}

proof fn lemma_some_bus(
    zone_id: u32,
    scope: BusScope,
    fixed: Seq<u32>,
    buses: Seq<BusModel>,
    lane: Lane,
    f: u32,
    from: u32,
    to: u32,
)
    requires
        lane.src.zone_id == zone_id,
        lane.dst.zone_id == zone_id,
        match scope {
            BusScope::Sites => f == lane.src.word_id && f == lane.dst.word_id && from
                == lane.src.site_id && to == lane.dst.site_id,
            BusScope::Words => f == lane.src.site_id && f == lane.dst.site_id && from
                == lane.src.word_id && to == lane.dst.word_id,
        },
    ensures
        some_bus_lane(zone_id, scope, fixed, buses, lane) <==> fixed.contains(f) && paired_by_bus(
            buses,
            from,
            to,
        ),
{
    if some_bus_lane(zone_id, scope, fixed, buses, lane) {
        let (m, n) = choose|m: int, n: int|
            0 <= m < fixed.len() && 0 <= n < buses.len() && bus_lane(
                zone_id,
                scope,
                #[trigger] fixed[m],
                #[trigger] buses[n],
                lane,
            );
        assert(fixed[m] == f);
        let bus = buses[n];
        assert(rides(bus, from, to));
        let k = choose|k: int|
            0 <= k < bus.src.len() && k < bus.dst.len() && (((#[trigger] bus.src[k]) == from
                && bus.dst[k] == to) || (bus.src[k] == to && bus.dst[k] == from));
        assert(buses[n].src[k] == bus.src[k]);
    }
    if fixed.contains(f) && paired_by_bus(buses, from, to) {
        let m = choose|m: int| 0 <= m < fixed.len() && fixed[m] == f;
        let (n, k) = choose|n: int, k: int|
            0 <= n < buses.len() && 0 <= k < buses[n].src.len() && k < buses[n].dst.len() && {
                ||| (#[trigger] buses[n].src[k]) == from && buses[n].dst[k] == to
                ||| buses[n].src[k] == to && buses[n].dst[k] == from
            };
        assert(rides(buses[n], from, to));
        assert(bus_lane(zone_id, scope, fixed[m], buses[n], lane));
    }
}

/// A lane is one move between paired ends of a bus.
pub proof fn lemma_lanes_follow_buses(arch: ArchModel, lane: Lane)
    ensures
        has_lane(arch, lane) <==> one_move(arch, lane.src, lane.dst),
        has_lane(arch, lane) <==> has_lane(arch, (Lane { src: lane.dst, dst: lane.src })),
{
    lemma_one_lane(arch, lane);
    lemma_one_lane(arch, Lane { src: lane.dst, dst: lane.src });
}

proof fn lemma_one_lane(arch: ArchModel, lane: Lane)
    ensures
        has_lane(arch, lane) <==> one_move(arch, lane.src, lane.dst),
{
    let z = lane.src.zone_id;
    let zone = arch.zones[z as int];
    if lane.dst.zone_id == z {
        if lane.src.word_id == lane.dst.word_id {
            lemma_some_bus(
                z,
                BusScope::Sites,
                zone.words_with_site_buses,
                zone.site_buses,
                lane,
                lane.src.word_id,
                lane.src.site_id,
                lane.dst.site_id,
            );
        }
        if lane.src.site_id == lane.dst.site_id {
            lemma_some_bus(
                z,
                BusScope::Words,
                zone.sites_with_word_buses,
                zone.word_buses,
                lane,
                lane.src.site_id,
                lane.src.word_id,
                lane.dst.word_id,
            );
        }
    }
}

/// All lanes of an architecture are its single moves.
pub proof fn lemma_all_lanes(index: &LaneIndex, lanes: &[Lane], lane: Lane)
    requires
        call_ensures(LaneIndex::all_lanes, (index,), lanes),
    ensures
        lanes@ == index.lanes(),
        lanes@.contains(lane) <==> one_move(index.arch(), lane.src, lane.dst),
{
    lemma_one_lane(index.arch(), lane);
}

/// The lanes out of a location are the single moves that start there.
pub proof fn lemma_outgoing_lanes(
    index: &LaneIndex,
    loc: LocationAddr,
    lanes: Vec<Lane>,
    lane: Lane,
)
    requires
        call_ensures(LaneIndex::outgoing_lanes, (index, loc), lanes),
    ensures
        lanes@.contains(lane) <==> lane.src == loc && one_move(index.arch(), loc, lane.dst),
{
    lemma_one_lane(index.arch(), lane);
}

/// Hop counts to a target: none for other locations, 0 from the target itself and
/// from nowhere else, and else one more than from some location that a lane leads
/// to.
pub proof fn lemma_hops_count_lanes(
    targets: &[u64],
    index: &LaneIndex,
    table: DistanceTable,
    from: u64,
    to: u64,
    n: Option<u32>,
)
    requires
        call_ensures(DistanceTable::new, (targets, index), table),
        call_ensures(DistanceTable::distance, (&table, from, to), n),
    ensures
        !targets@.contains(to) ==> n is None,
        targets@.contains(to) && from == to ==> n == Some(0u32),
        n == Some(0u32) ==> from == to,
        n is Some && n->0 > 0 ==> exists|lane: Lane| #[trigger]
            index.lanes().contains(lane) && lane.src.code() == from && hops(
                table@,
                lane.dst.code(),
                to,
            ) == Some((n->0 - 1) as u32),
{
    let lanes = index.lanes();
    let bound = u32::MAX as nat;
    if targets@.contains(to) {
        assert(table@.contains_key(to));
        let row = table@[to];
        assert(is_row(lanes, to, bound, row));
        if from == to {
            assert(walk(lanes, from, to, 0));
            assert(shortest(lanes, from, to, 0u32 as nat));
            assert(row.contains_pair(from, 0u32));
        }
        if let Some(k) = n {
            assert(row.contains_pair(from, k));
            assert(shortest(lanes, from, to, k as nat));
            if k > 0 {
                lemma_shortest_step(lanes, from, to, k as nat);
                let mid = choose|mid: u64| #[trigger]
                    hop(lanes, from, mid) && shortest(lanes, mid, to, (k - 1) as nat);
                let i = choose|i: int|
                    0 <= i < lanes.len() && (#[trigger] lanes[i]).src.code() == from
                        && lanes[i].dst.code() == mid;
                assert(shortest(lanes, mid, to, ((k - 1) as u32) as nat));
                assert(row.contains_pair(mid, (k - 1) as u32));
                assert(lanes.contains(lanes[i]));
            }
        }
    } else {
        assert(!table@.contains_key(to));
    }
}

/// A lane shortens the way by one hop at most.
pub proof fn lemma_hops_take_shortest(
    targets: &[u64],
    index: &LaneIndex,
    table: DistanceTable,
    lane: Lane,
    to: u64,
    n: Option<u32>,
    rest: Option<u32>,
)
    requires
        call_ensures(DistanceTable::new, (targets, index), table),
        index.lanes().contains(lane),
        call_ensures(DistanceTable::distance, (&table, lane.src.code(), to), n),
        call_ensures(DistanceTable::distance, (&table, lane.dst.code(), to), rest),
        rest is Some,
        rest->0 + 1 < u32::MAX,
    ensures
        n is Some,
        n->0 <= rest->0 + 1,
{
    let lanes = index.lanes();
    let (from, mid) = (lane.src.code(), lane.dst.code());
    let row = table@[to];
    assert(table@.contains_key(to));
    assert(is_row(lanes, to, u32::MAX as nat, row));
    assert(row.contains_pair(mid, rest->0));
    assert(shortest(lanes, mid, to, rest->0 as nat));
    let i = choose|i: int| 0 <= i < lanes.len() && lanes[i] == lane;
    assert(lanes[i].src.code() == from);
    assert(hop(lanes, from, mid));
    let longer = (rest->0 + 1) as nat;
    assert(walk(lanes, mid, to, (longer - 1) as nat));
    assert(walk(lanes, from, to, longer));
    lemma_shortest_exists(lanes, from, to, longer);
    let k = choose|k: nat| k <= longer && #[trigger] shortest(lanes, from, to, k);
    assert(shortest(lanes, from, to, (k as u32) as nat));
    assert(row.contains_pair(from, k as u32));
}

/// A distance that is not known counts as [`BIG`].
pub proof fn lemma_distance_or_big(
    table: DistanceTable,
    from: u64,
    to: u64,
    n: Option<u32>,
    cost: u32,
)
    requires
        call_ensures(DistanceTable::distance, (&table, from, to), n),
        call_ensures(DistanceTable::distance_or_big, (&table, from, to), cost),
    ensures
        match n {
            Some(n) => cost == n,
            None => cost == BIG && cost == u32::MAX / 4,
        },
{
}

/// The sources of a target are the locations with a known distance to it.
pub proof fn lemma_sources(
    table: &DistanceTable,
    from: u64,
    to: u64,
    n: Option<u32>,
    row: Option<&HashMap<u64, u32>>,
    k: u32,
)
    requires
        call_ensures(DistanceTable::distance, (table, from, to), n),
        call_ensures(DistanceTable::sources, (table, to), row),
    ensures
        n == Some(k) <==> row is Some && (row->0)@.contains_pair(from, k),
{
}

} // verus!
