//! The lanes that an architecture offers: single moves along its buses.

use crate::arch::{ArchModel, ArchSpec, Bus, BusModel, LocationAddr};
use vstd::prelude::*;

verus! {

broadcast use vstd::seq_lib::group_seq_properties;

/// One move of an atom from a location to another.
#[derive(Clone, Copy, Debug, PartialEq, Eq, Hash, Structural)]
pub struct Lane {
    pub src: LocationAddr,
    pub dst: LocationAddr,
}

/// A bus that joins sites works inside a word; one that joins words works at a
/// site.
#[derive(Clone, Copy, Debug, PartialEq, Eq, Structural)]
pub enum BusScope {
    Sites,
    Words,
}

/// The bus carries `from` to `to`, in either direction.
pub open spec fn rides(bus: BusModel, from: u32, to: u32) -> bool {
    exists|k: int|
        0 <= k < bus.src.len() && k < bus.dst.len() && (((#[trigger] bus.src[k]) == from
            && bus.dst[k] == to) || (bus.src[k] == to && bus.dst[k] == from))
}

/// The bus of a zone carries `lane`, where `fixed` is the word or the site that
/// stays.
pub open spec fn bus_lane(
    zone_id: u32,
    scope: BusScope,
    fixed: u32,
    bus: BusModel,
    lane: Lane,
) -> bool {
    &&& lane.src.zone_id == zone_id
    &&& lane.dst.zone_id == zone_id
    &&& match scope {
        BusScope::Sites => lane.src.word_id == fixed && lane.dst.word_id == fixed && rides(
            bus,
            lane.src.site_id,
            lane.dst.site_id,
        ),
        BusScope::Words => lane.src.site_id == fixed && lane.dst.site_id == fixed && rides(
            bus,
            lane.src.word_id,
            lane.dst.word_id,
        ),
    }
}

/// One of the buses carries `lane` at one of the fixed words or sites.
pub open spec fn some_bus_lane(
    zone_id: u32,
    scope: BusScope,
    fixed: Seq<u32>,
    buses: Seq<BusModel>,
    lane: Lane,
) -> bool {
    exists|f: int, b: int|
        0 <= f < fixed.len() && 0 <= b < buses.len() && bus_lane(
            zone_id,
            scope,
            #[trigger] fixed[f],
            #[trigger] buses[b],
            lane,
        )
}

/// The zone offers `lane`.
pub open spec fn zone_lane(arch: ArchModel, zone_id: u32, lane: Lane) -> bool {
    let zone = arch.zones[zone_id as int];
    ||| some_bus_lane(zone_id, BusScope::Sites, zone.words_with_site_buses, zone.site_buses, lane)
    ||| some_bus_lane(zone_id, BusScope::Words, zone.sites_with_word_buses, zone.word_buses, lane)
}

/// The architecture offers `lane`.
pub open spec fn has_lane(arch: ArchModel, lane: Lane) -> bool {
    lane.src.zone_id < arch.zones.len() && zone_lane(arch, lane.src.zone_id, lane)
}

/// Whether a lane starts at `loc`.
pub open spec fn starts_at(loc: LocationAddr) -> spec_fn(Lane) -> bool {
    |lane: Lane| lane.src == loc
}

/// An architecture together with all of its lanes.
#[derive(Debug)]
pub struct LaneIndex {
    arch: ArchSpec,
    lanes: Vec<Lane>,
}

impl Clone for LaneIndex {
    fn clone(&self) -> (copy: LaneIndex)
        ensures
            copy.arch() == self.arch(),
            copy.lanes() == self.lanes(),
    {
        proof {
            use_type_invariant(self);
        }
        LaneIndex { arch: self.arch.clone(), lanes: crate::seqs::copied(self.lanes.as_slice()) }
    }
}

impl LaneIndex {
    /// The architecture.
    pub closed spec fn arch(self) -> ArchModel {
        self.arch@
    }

    /// The lanes.
    pub closed spec fn lanes(self) -> Seq<Lane> {
        self.lanes@
    }

    #[verifier::type_invariant]
    spec fn complete(self) -> bool {
        forall|lane: Lane| #[trigger] self.lanes@.contains(lane) <==> has_lane(self.arch@, lane)
    }

    /// Collect the lanes of an architecture.
    pub fn new(arch: ArchSpec) -> (index: LaneIndex)
        ensures
            index.arch() == arch@,
    {
        let mut lanes: Vec<Lane> = Vec::new();
        let mut z: usize = 0;
        while z < arch.zones.len() && z <= u32::MAX as usize
            invariant
                z <= arch.zones.len(),
                z <= u32::MAX + 1,
                forall|lane: Lane| #[trigger]
                    lanes@.contains(lane) <==> lane.src.zone_id < z && has_lane(arch@, lane),
            decreases arch.zones.len() - z,
        {
            let zone = &arch.zones[z];
            let zone_id: u32 = z as u32;
            let ghost before = lanes@;
            push_lanes(
                &mut lanes,
                zone_id,
                BusScope::Sites,
                zone.words_with_site_buses.as_slice(),
                zone.site_buses.as_slice(),
            );
            let ghost half = lanes@;
            push_lanes(
                &mut lanes,
                zone_id,
                BusScope::Words,
                zone.sites_with_word_buses.as_slice(),
                zone.word_buses.as_slice(),
            );
            proof {
                assert(arch@.zones[z as int] == zone@);
                assert forall|lane: Lane| #[trigger]
                    lanes@.contains(lane) <==> lane.src.zone_id < z + 1 && has_lane(
                    arch@,
                    lane,
                ) by {
                    assert(half.contains(lane) <==> before.contains(lane) || some_bus_lane(
                        zone_id,
                        BusScope::Sites,
                        zone@.words_with_site_buses,
                        zone@.site_buses,
                        lane,
                    ));
                }
            }
            z += 1;
        }
        LaneIndex { arch, lanes }
    }

    /// The architecture.
    pub fn arch_spec(&self) -> (arch: &ArchSpec)
        ensures
            arch@ == self.arch(),
    {
        &self.arch
    }

    /// All lanes: those that the architecture offers.
    pub fn all_lanes(&self) -> (lanes: &[Lane])
        ensures
            lanes@ == self.lanes(),
            forall|lane: Lane| #[trigger] lanes@.contains(lane) <==> has_lane(self.arch(), lane),
    {
        proof {
            use_type_invariant(self);
        }
        self.lanes.as_slice()
    }

    /// The lanes that start at a location.
    pub fn outgoing_lanes(&self, loc: LocationAddr) -> (lanes: Vec<Lane>)
        ensures
            lanes@ == self.lanes().filter(starts_at(loc)),
            forall|lane: Lane| #[trigger]
                lanes@.contains(lane) <==> lane.src == loc && has_lane(self.arch(), lane),
    {
        proof {
            use_type_invariant(self);
        }
        let mut lanes: Vec<Lane> = Vec::new();
        let mut i: usize = 0;
        assert(self.lanes@.take(0) =~= seq![]);
        reveal(Seq::filter);
        while i < self.lanes.len()
            invariant
                i <= self.lanes.len(),
                lanes@ == self.lanes@.take(i as int).filter(starts_at(loc)),
            decreases self.lanes.len() - i,
        {
            let lane = self.lanes[i];
            proof {
                reveal(Seq::filter);
                assert(self.lanes@.take(i + 1).drop_last() =~= self.lanes@.take(i as int));
            }
            if lane.src == loc {
                lanes.push(lane);
            }
            i += 1;
        }
        proof {
            assert(self.lanes@.take(i as int) =~= self.lanes@);
            lemma_filter_contains(self.lanes@, starts_at(loc));
        }
        lanes
    }
}

/// A filtered sequence holds what satisfies the filter.
pub proof fn lemma_filter_contains<A>(s: Seq<A>, p: spec_fn(A) -> bool)
    ensures
        forall|a: A| #[trigger] s.filter(p).contains(a) <==> s.contains(a) && p(a),
    decreases s.len(),
{
    reveal(Seq::filter);
    if s.len() > 0 {
        let t = s.drop_last();
        lemma_filter_contains(t, p);
        assert forall|a: A| #[trigger] s.filter(p).contains(a) <==> s.contains(a) && p(a) by {
            assert(s.contains(a) <==> t.contains(a) || a == s.last()) by {
                assert(s =~= t.push(s.last()));
                if t.contains(a) {
                    let i = choose|i: int| 0 <= i < t.len() && t[i] == a;
                    assert(s[i] == a);
                }
                if s.contains(a) && a != s.last() {
                    let i = choose|i: int| 0 <= i < s.len() && s[i] == a;
                    assert(t[i] == a);
                }
                assert(s[s.len() - 1] == s.last());
            }
            let f = t.filter(p);
            if p(s.last()) {
                assert(s.filter(p) == f.push(s.last()));
                assert(f.push(s.last()).contains(a) <==> f.contains(a) || a == s.last()) by {
                    let g = f.push(s.last());
                    assert(g[g.len() - 1] == s.last());
                    if f.contains(a) {
                        let i = choose|i: int| 0 <= i < f.len() && f[i] == a;
                        assert(g[i] == a);
                    }
                }
            }
        }
    }
}

spec fn buses_seen(
    zone_id: u32,
    scope: BusScope,
    fixed: u32,
    buses: Seq<BusModel>,
    n: int,
    lane: Lane,
) -> bool {
    exists|b: int| 0 <= b < n && bus_lane(zone_id, scope, fixed, #[trigger] buses[b], lane)
}

spec fn fixed_seen(
    zone_id: u32,
    scope: BusScope,
    fixed: Seq<u32>,
    buses: Seq<BusModel>,
    n: int,
    lane: Lane,
) -> bool {
    exists|f: int|
        0 <= f < n && buses_seen(
            zone_id,
            scope,
            #[trigger] fixed[f],
            buses,
            buses.len() as int,
            lane,
        )
}

fn push_lanes(
    lanes: &mut Vec<Lane>,
    zone_id: u32,
    scope: BusScope,
    fixed: &[u32],
    buses: &[Bus],
)
    ensures
        forall|lane: Lane| #[trigger]
            final(lanes)@.contains(lane) <==> old(lanes)@.contains(lane) || some_bus_lane(
                zone_id,
                scope,
                fixed@,
                buses@.map_values(|bus: Bus| bus@),
                lane,
            ),
{
    let ghost models = buses@.map_values(|bus: Bus| bus@);
    let mut f: usize = 0;
    while f < fixed.len()
        invariant
            f <= fixed@.len(),
            models == buses@.map_values(|bus: Bus| bus@),
            forall|lane: Lane| #[trigger]
                lanes@.contains(lane) <==> old(lanes)@.contains(lane) || fixed_seen(
                    zone_id,
                    scope,
                    fixed@,
                    models,
                    f as int,
                    lane,
                ),
        decreases fixed.len() - f,
    {
        let ghost start = lanes@;
        let mut b: usize = 0;
        while b < buses.len()
            invariant
                b <= buses@.len(),
                f < fixed@.len(),
                models == buses@.map_values(|bus: Bus| bus@),
                forall|lane: Lane| #[trigger]
                    lanes@.contains(lane) <==> start.contains(lane) || buses_seen(
                        zone_id,
                        scope,
                        fixed@[f as int],
                        models,
                        b as int,
                        lane,
                    ),
            decreases buses.len() - b,
        {
            let ghost prior = lanes@;
            push_bus_lanes(lanes, zone_id, scope, fixed[f], &buses[b]);
            proof {
                assert(models[b as int] == buses@[b as int]@);
                assert forall|lane: Lane| #[trigger]
                    lanes@.contains(lane) <==> start.contains(lane) || buses_seen(
                    zone_id,
                    scope,
                    fixed@[f as int],
                    models,
                    b + 1,
                    lane,
                ) by {
                    assert(lanes@.contains(lane) <==> prior.contains(lane) || bus_lane(
                        zone_id,
                        scope,
                        fixed@[f as int],
                        models[b as int],
                        lane,
                    ));
                }
            }
            b += 1;
        }
        proof {
            assert forall|lane: Lane| #[trigger]
                lanes@.contains(lane) <==> old(lanes)@.contains(lane) || fixed_seen(
                zone_id,
                scope,
                fixed@,
                models,
                f + 1,
                lane,
            ) by {
                assert(start.contains(lane) <==> old(lanes)@.contains(lane) || fixed_seen(
                    zone_id,
                    scope,
                    fixed@,
                    models,
                    f as int,
                    lane,
                ));
                if buses_seen(
                    zone_id,
                    scope,
                    fixed@[f as int],
                    models,
                    models.len() as int,
                    lane,
                ) {
                    assert(fixed_seen(zone_id, scope, fixed@, models, f + 1, lane));
                }
            }
        }
        f += 1;
    }
    proof {
        assert forall|lane: Lane| #[trigger]
            lanes@.contains(lane) <==> old(lanes)@.contains(lane) || some_bus_lane(
            zone_id,
            scope,
            fixed@,
            models,
            lane,
        ) by {
            if some_bus_lane(zone_id, scope, fixed@, models, lane) {
                let (f, b) = choose|f: int, b: int|
                    0 <= f < fixed@.len() && 0 <= b < models.len() && bus_lane(
                        zone_id,
                        scope,
                        #[trigger] fixed@[f],
                        #[trigger] models[b],
                        lane,
                    );
                assert(buses_seen(
                    zone_id,
                    scope,
                    fixed@[f],
                    models,
                    models.len() as int,
                    lane,
                ));
            }
        }
    }
}

spec fn rides_before(bus: BusModel, n: int, from: u32, to: u32) -> bool {
    exists|k: int|
        0 <= k < n && (((#[trigger] bus.src[k]) == from && bus.dst[k] == to) || (bus.src[k] == to
            && bus.dst[k] == from))
}

spec fn bus_lane_before(
    zone_id: u32,
    scope: BusScope,
    fixed: u32,
    bus: BusModel,
    n: int,
    lane: Lane,
) -> bool {
    &&& lane.src.zone_id == zone_id
    &&& lane.dst.zone_id == zone_id
    &&& match scope {
        BusScope::Sites => lane.src.word_id == fixed && lane.dst.word_id == fixed && rides_before(
            bus,
            n,
            lane.src.site_id,
            lane.dst.site_id,
        ),
        BusScope::Words => lane.src.site_id == fixed && lane.dst.site_id == fixed && rides_before(
            bus,
            n,
            lane.src.word_id,
            lane.dst.word_id,
        ),
    }
}


fn push_bus_lanes(lanes: &mut Vec<Lane>, zone_id: u32, scope: BusScope, fixed: u32, bus: &Bus)
    ensures
        forall|lane: Lane| #[trigger]
            final(lanes)@.contains(lane) <==> old(lanes)@.contains(lane) || bus_lane(
                zone_id,
                scope,
                fixed,
                bus@,
                lane,
            ),
{
    let mut k: usize = 0;
    while k < bus.src.len() && k < bus.dst.len()
        invariant
            k <= bus.src.len(),
            k <= bus.dst.len(),
            forall|lane: Lane| #[trigger]
                lanes@.contains(lane) <==> old(lanes)@.contains(lane) || bus_lane_before(
                    zone_id,
                    scope,
                    fixed,
                    bus@,
                    k as int,
                    lane,
                ),
        decreases bus.src.len() - k,
    {
        let (from, to) = match scope {
            BusScope::Sites => (
                LocationAddr { zone_id, word_id: fixed, site_id: bus.src[k] },
                LocationAddr { zone_id, word_id: fixed, site_id: bus.dst[k] },
            ),
            BusScope::Words => (
                LocationAddr { zone_id, word_id: bus.src[k], site_id: fixed },
                LocationAddr { zone_id, word_id: bus.dst[k], site_id: fixed },
            ),
        };
        let ghost prior = lanes@;
        lanes.push(Lane { src: from, dst: to });
        lanes.push(Lane { src: to, dst: from });
        proof {
            assert forall|lane: Lane| #[trigger]
                lanes@.contains(lane) <==> old(lanes)@.contains(lane) || bus_lane_before(
                zone_id,
                scope,
                fixed,
                bus@,
                k + 1,
                lane,
            ) by {
                let forth = Lane { src: from, dst: to };
                let back = Lane { src: to, dst: from };
                assert(lanes@ =~= prior.push(forth).push(back));
                assert(lanes@[prior.len() as int] == forth);
                assert(lanes@[prior.len() as int + 1] == back);
                assert(lanes@.contains(lane) <==> prior.contains(lane) || lane == forth || lane
                    == back) by {
                    if prior.contains(lane) {
                        let i = choose|i: int| 0 <= i < prior.len() && prior[i] == lane;
                        assert(lanes@[i] == lane);
                    }
                }
                assert(prior.contains(lane) <==> old(lanes)@.contains(lane) || bus_lane_before(
                    zone_id,
                    scope,
                    fixed,
                    bus@,
                    k as int,
                    lane,
                ));
                assert(bus@.src[k as int] == bus.src[k as int]);
                assert(bus_lane_before(zone_id, scope, fixed, bus@, k + 1, lane)
                    <==> bus_lane_before(zone_id, scope, fixed, bus@, k as int, lane) || lane
                    == forth || lane == back);
            }
        }
        k += 1;
    }
    proof {
        assert forall|lane: Lane| #[trigger]
            lanes@.contains(lane) <==> old(lanes)@.contains(lane) || bus_lane(
            zone_id,
            scope,
            fixed,
            bus@,
            lane,
        ) by {
            assert(bus_lane(zone_id, scope, fixed, bus@, lane) <==> bus_lane_before(
                zone_id,
                scope,
                fixed,
                bus@,
                k as int,
                lane,
            ));
        }
    }
}

} // verus!
