use bloqade_lanes_search::arch::{ArchSpec, Bus, LocationAddr, Word, Zone};
use bloqade_lanes_search::config::{Config, ConfigError};
use bloqade_lanes_search::distance::{DistanceTable, BIG};
use bloqade_lanes_search::entangling::{
    all_entangling_locations, assignment_cost, build_entangling_set, build_partner_map,
    enumerate_slots, enumerate_word_pairs, PlacementSet, WordPairDistances, UNREACHABLE_HOPS,
};
use bloqade_lanes_search::lane_index::LaneIndex;

fn loc(word_id: u32, site_id: u32) -> LocationAddr {
    LocationAddr { zone_id: 0, word_id, site_id }
}

/// Two words of ten sites, two grid rows each; a site bus from the lower row to
/// the upper one and a word bus between the upper rows.
fn make_arch() -> ArchSpec {
    let word = |y: u32| Word {
        sites: (0..10u32).map(|s| (s % 5, y + s / 5)).collect(),
    };
    ArchSpec {
        words: vec![word(0), word(2)],
        zones: vec![Zone {
            site_buses: vec![Bus { src: (0..5).collect(), dst: (5..10).collect() }],
            word_buses: vec![Bus { src: vec![0], dst: vec![1] }],
            words_with_site_buses: vec![0, 1],
            sites_with_word_buses: (5..10).collect(),
            entangling_pairs: vec![(0, 1)],
        }],
    }
}

fn make_index() -> LaneIndex {
    LaneIndex::new(make_arch())
}

#[test]
fn enumerate_example_arch() {
    let arch = make_arch();
    let pairs = enumerate_word_pairs(&arch);
    assert_eq!(pairs.len(), 1);
    assert_eq!(pairs[0].zone_id, 0);
    assert_eq!(pairs[0].word_a, 0);
    assert_eq!(pairs[0].word_b, 1);
}

#[test]
fn entangling_locations_count() {
    let arch = make_arch();
    let locs = all_entangling_locations(&arch);
    // 1 word pair × 10 sites × 2 words = 20 locations.
    assert_eq!(locs.len(), 20);
}

#[test]
fn entangling_locations_are_sorted_without_repeats() {
    let locs = all_entangling_locations(&make_arch());
    assert!(locs.windows(2).all(|w| w[0] < w[1]));
    assert_eq!(locs[0], loc(0, 0).encode());
    assert_eq!(locs[19], loc(1, 9).encode());
}

#[test]
fn entangling_set_contains_valid_pairs() {
    let arch = make_arch();
    let set = build_entangling_set(&arch);
    // (word 0 site 5, word 1 site 5) should be valid.
    let a = loc(0, 5).encode();
    let b = loc(1, 5).encode();
    assert!(set.contains(&(a, b)));
    assert!(set.contains(&(b, a))); // both orderings
}

#[test]
fn entangling_set_rejects_different_sites() {
    let arch = make_arch();
    let set = build_entangling_set(&arch);
    // (word 0 site 3, word 1 site 5): different sites, not valid.
    let a = loc(0, 3).encode();
    let b = loc(1, 5).encode();
    assert!(!set.contains(&(a, b)));
}

#[test]
fn entangling_set_rejects_same_word() {
    let arch = make_arch();
    let set = build_entangling_set(&arch);
    // (word 0 site 5, word 0 site 5): same word, not valid.
    let a = loc(0, 5).encode();
    assert!(!set.contains(&(a, a)));
}

#[test]
fn placement_set_holds_what_was_inserted() {
    let mut set = PlacementSet::new();
    assert!(!set.contains(&(1, 2)));
    set.insert(1, 2);
    set.insert(u64::MAX, 0);
    assert!(set.contains(&(1, 2)));
    assert!(set.contains(&(u64::MAX, 0)));
    assert!(!set.contains(&(2, 1)));
    let copy = set.clone();
    let mut pairs = copy.pairs();
    pairs.sort();
    assert_eq!(pairs, vec![(1, 2), (u64::MAX, 0)]);
}

#[test]
fn word_pair_distances_basic() {
    let arch = make_arch();
    let index = make_index();
    let locs = all_entangling_locations(&arch);
    let dist_table = DistanceTable::new(&locs, &index);
    let word_pairs = enumerate_word_pairs(&arch);
    let wpd = WordPairDistances::from_dist_table(&word_pairs, &arch, &dist_table);

    assert_eq!(wpd.len(), 1);
    assert!(!wpd.is_empty());

    // From word 0 site 0 to word 0 (any site): should be 0 or 1 hop.
    let entries = wpd.iter();
    let (_, min_a, _) = entries.iter().next().unwrap();
    let from = loc(0, 0).encode();
    let d = min_a.get(&from).copied().unwrap_or(u32::MAX);
    assert!(d <= 1, "distance from word 0 to nearest word 0 site: {d}");
}

#[test]
fn word_pair_distances_cross_word() {
    let arch = make_arch();
    let index = make_index();
    let locs = all_entangling_locations(&arch);
    let dist_table = DistanceTable::new(&locs, &index);
    let word_pairs = enumerate_word_pairs(&arch);
    let wpd = WordPairDistances::from_dist_table(&word_pairs, &arch, &dist_table);

    // From word 0 site 0 to word 1 (any site): should need site bus + word bus = 2 hops.
    let entries = wpd.iter();
    let (_, _, min_b) = entries.iter().next().unwrap();
    let from = loc(0, 0).encode();
    let d = min_b.get(&from).copied().unwrap_or(u32::MAX);
    assert!(d >= 1, "cross-word distance should be at least 1: {d}");
    assert_eq!(d, 2);
}

#[test]
fn partner_map_bidirectional() {
    let arch = make_arch();
    let eset = build_entangling_set(&arch);
    let pmap = build_partner_map(&eset);
    // (word 0, site 5) → (word 1, site 5) and vice versa.
    let a = loc(0, 5).encode();
    let b = loc(1, 5).encode();
    assert_eq!(pmap.get(&a), Some(&b));
    assert_eq!(pmap.get(&b), Some(&a));
}

#[test]
fn partner_map_agrees_with_the_architecture() {
    let arch = make_arch();
    let pmap = build_partner_map(&build_entangling_set(&arch));
    for word in 0..2 {
        for site in 0..10 {
            let partner = arch.get_cz_partner(&loc(word, site)).unwrap();
            assert_eq!(partner, loc(1 - word, site));
            assert_eq!(pmap.get(&loc(word, site).encode()), Some(&partner.encode()));
        }
    }
    assert_eq!(arch.get_cz_partner(&loc(2, 0)), None);
    assert_eq!(arch.sites_per_word(), 10);
}

#[test]
fn slots_pair_equal_sites() {
    let arch = make_arch();
    let slots = enumerate_slots(&enumerate_word_pairs(&arch), 10);
    assert_eq!(slots.len(), 10);
    assert_eq!(slots[3].loc_a, loc(0, 3).encode());
    assert_eq!(slots[3].loc_b, loc(1, 3).encode());
}

#[test]
fn assignment_cost_adds_the_hops_of_all() {
    let index = make_index();
    let locs = all_entangling_locations(&make_arch());
    let dist_table = DistanceTable::new(&locs, &index);
    let config = Config::new(&[(0, loc(0, 0)), (1, loc(1, 1))]).unwrap();
    let to = |w: u32, s: u32| loc(w, s).encode();
    let cost = |targets: &[(u32, u64)]| assignment_cost(&config, targets, &dist_table);
    assert_eq!(cost(&[]), 0);
    assert_eq!(cost(&[(0, to(0, 0))]), 0);
    assert_eq!(cost(&[(0, to(1, 5)), (1, to(1, 6))]), 3);
    assert_eq!(cost(&[(0, to(0, 1))]), UNREACHABLE_HOPS);
    assert_eq!(cost(&[(0, to(0, 1)), (1, to(1, 0)), (0, to(0, 1))]), u32::MAX);
    assert_eq!(cost(&[(0, to(0, 0)), (7, to(0, 0))]), u32::MAX);
}

#[test]
fn distances_follow_the_buses() {
    let index = make_index();
    let locs = all_entangling_locations(&make_arch());
    let dist_table = DistanceTable::new(&locs, &index);
    let at = |w: u32, s: u32| loc(w, s).encode();
    assert_eq!(dist_table.distance(at(0, 0), at(0, 0)), Some(0));
    assert_eq!(dist_table.distance(at(0, 0), at(0, 5)), Some(1));
    assert_eq!(dist_table.distance(at(0, 0), at(1, 5)), Some(2));
    assert_eq!(dist_table.distance(at(0, 0), at(1, 0)), Some(3));
    assert_eq!(dist_table.distance(at(0, 0), at(0, 1)), None);
    assert_eq!(dist_table.distance_or_big(at(0, 0), at(0, 1)), BIG);
    assert_eq!(BIG, u32::MAX / 4);
}

#[test]
fn packed_locations_unpack() {
    let place = LocationAddr { zone_id: 3, word_id: 7, site_id: 11 };
    assert_eq!(LocationAddr::decode(place.encode()), place);
    assert_ne!(place.encode(), loc(7, 11).encode());
}

#[test]
fn lanes_lead_along_buses_both_ways() {
    let index = make_index();
    // 10 site lanes and 5 word lanes, each in both directions.
    assert_eq!(index.all_lanes().len(), 30);
    let from_lower = index.outgoing_lanes(loc(0, 2));
    assert_eq!(from_lower.len(), 1);
    assert_eq!(from_lower[0].dst, loc(0, 7));
    let mut from_upper: Vec<LocationAddr> =
        index.outgoing_lanes(loc(0, 7)).iter().map(|lane| lane.dst).collect();
    from_upper.sort_by_key(|l| l.encode());
    assert_eq!(from_upper, vec![loc(0, 2), loc(1, 7)]);
    assert!(index.outgoing_lanes(loc(4, 0)).is_empty());
}

#[test]
fn a_configuration_places_each_qubit_once() {
    let twice = Config::new(&[(4, loc(0, 0)), (2, loc(0, 1)), (4, loc(0, 2))]);
    assert!(matches!(twice, Err(ConfigError::DuplicateQubit { qubit_id: 4 })));

    let config = Config::new(&[(4, loc(0, 0)), (2, loc(0, 1))]).unwrap();
    assert_eq!(config.entries(), &[(2, loc(0, 1)), (4, loc(0, 0))]);
    assert_eq!(config.len(), 2);
    assert!(!config.is_empty());
    assert_eq!(config.location_of(4), Some(loc(0, 0)));
    assert_eq!(config.location_of(3), None);
    assert_eq!(config.qubit_at(loc(0, 1)), Some(2));
    assert_eq!(config.qubit_at(loc(0, 9)), None);

    let moved = config.with_moves(&[(2, loc(0, 6))]);
    assert_eq!(moved.entries(), &[(2, loc(0, 6)), (4, loc(0, 0))]);
}
