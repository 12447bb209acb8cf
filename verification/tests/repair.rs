use bloqade_lanes_search::arch::{ArchSpec, Bus, LocationAddr, Word, Zone};
use bloqade_lanes_search::distance::DistanceTable;
use bloqade_lanes_search::entangling::{
    all_entangling_locations, enumerate_slots, enumerate_word_pairs, PositionSlot,
};
use bloqade_lanes_search::goals::pairs_grid_separated;
use bloqade_lanes_search::lane_index::LaneIndex;
use bloqade_lanes_search::repair::{
    apply_pair_slot, config_from_assignment_targets, finalize_assignment_targets,
    locate_pair_slot, pair_participates_in_violation, repair_pair_separation, target_enc,
};
use std::collections::HashSet;

fn loc(word_id: u32, site_id: u32) -> LocationAddr {
    LocationAddr { zone_id: 0, word_id, site_id }
}

/// Two words of ten sites, two grid rows each; a site bus from the lower row to
/// the upper one and a word bus between the upper rows.
fn make_arch() -> ArchSpec {
    let word = |y: u32| Word {
        sites: (0..10u32).map(|s| (s % 5, y + s / 5)).collect(),
    };
    ArchSpec {
        words: vec![word(0), word(2)],
        zones: vec![Zone {
            site_buses: vec![Bus { src: (0..5).collect(), dst: (5..10).collect() }],
            word_buses: vec![Bus { src: vec![0], dst: vec![1] }],
            words_with_site_buses: vec![0, 1],
            sites_with_word_buses: (5..10).collect(),
            entangling_pairs: vec![(0, 1)],
        }],
    }
}

fn make_index() -> LaneIndex {
    LaneIndex::new(make_arch())
}

fn build_slots(arch: &ArchSpec) -> Vec<PositionSlot> {
    enumerate_slots(&enumerate_word_pairs(arch), arch.sites_per_word() as u32)
}

#[test]
fn repair_moves_too_close_pair_to_separated_slot() {
    let arch = make_arch();
    let index = make_index();
    let locs = all_entangling_locations(&arch);
    let dist_table = DistanceTable::new(&locs, &index);
    let slots = build_slots(&arch);
    let blocked = HashSet::new();

    let cz_pairs = [(0u32, 1u32), (2, 3)];
    let valid_pairs = vec![
        ((0, 1), loc(0, 0).encode(), loc(0, 1).encode()),
        ((2, 3), loc(0, 2).encode(), loc(0, 3).encode()),
    ];

    // Hungarian-style targets: pair A at site 5, pair B at adjacent site 6.
    let too_close = vec![
        (0, loc(0, 5).encode()),
        (1, loc(1, 5).encode()),
        (2, loc(0, 6).encode()),
        (3, loc(1, 6).encode()),
    ];
    assert!(!pairs_grid_separated(
        &config_from_assignment_targets(&too_close).unwrap(),
        &cz_pairs,
        &index,
    ));

    let repaired = repair_pair_separation(
        too_close.clone(),
        &cz_pairs,
        &valid_pairs,
        &slots,
        &dist_table,
        &index,
        &blocked,
    );

    let repaired_cfg = config_from_assignment_targets(&repaired).unwrap();
    assert!(pairs_grid_separated(&repaired_cfg, &cz_pairs, &index));
    assert_ne!(repaired, too_close, "repair should move at least one pair target");
}

#[test]
fn repair_leaves_already_separated_targets_unchanged() {
    let arch = make_arch();
    let index = make_index();
    let locs = all_entangling_locations(&arch);
    let dist_table = DistanceTable::new(&locs, &index);
    let slots = build_slots(&arch);
    let blocked = HashSet::new();

    let cz_pairs = [(0u32, 1u32), (2, 3)];
    let valid_pairs = vec![
        ((0, 1), loc(0, 0).encode(), loc(0, 1).encode()),
        ((2, 3), loc(0, 2).encode(), loc(0, 3).encode()),
    ];

    let separated = vec![
        (0, loc(0, 5).encode()),
        (1, loc(1, 5).encode()),
        (2, loc(0, 8).encode()),
        (3, loc(1, 8).encode()),
    ];
    let repaired = repair_pair_separation(
        separated.clone(),
        &cz_pairs,
        &valid_pairs,
        &slots,
        &dist_table,
        &index,
        &blocked,
    );
    assert_eq!(repaired, separated);
}

#[test]
fn repair_preserves_spectator_rows() {
    let arch = make_arch();
    let index = make_index();
    let locs = all_entangling_locations(&arch);
    let dist_table = DistanceTable::new(&locs, &index);
    let slots = build_slots(&arch);
    let blocked = HashSet::new();

    let cz_pairs = [(0u32, 1u32), (2, 3)];
    let valid_pairs = vec![
        ((0, 1), loc(0, 0).encode(), loc(0, 1).encode()),
        ((2, 3), loc(0, 2).encode(), loc(0, 3).encode()),
    ];
    let spectator_target = (9u32, loc(0, 4).encode());

    let too_close = vec![
        (0, loc(0, 5).encode()),
        (1, loc(1, 5).encode()),
        (2, loc(0, 6).encode()),
        (3, loc(1, 6).encode()),
        spectator_target,
    ];

    let repaired = repair_pair_separation(
        too_close.clone(),
        &cz_pairs,
        &valid_pairs,
        &slots,
        &dist_table,
        &index,
        &blocked,
    );

    assert_eq!(
        repaired
            .iter()
            .find(|&&(q, _)| q == spectator_target.0)
            .copied(),
        Some(spectator_target),
        "spectator displacement row must be unchanged"
    );
}

#[test]
fn repair_infeasible_arch_returns_best_effort_without_looping() {
    let arch = ArchSpec {
        words: vec![
            Word { sites: vec![(0, 0), (1, 0)] },
            Word { sites: vec![(0, 1), (1, 1)] },
        ],
        zones: vec![Zone {
            site_buses: vec![],
            word_buses: vec![],
            words_with_site_buses: vec![],
            sites_with_word_buses: vec![],
            entangling_pairs: vec![(0, 1)],
        }],
    };
    let index = LaneIndex::new(arch.clone());
    let locs = all_entangling_locations(&arch);
    let dist_table = DistanceTable::new(&locs, &index);
    let slots = build_slots(&arch);
    let blocked = HashSet::new();

    let cz_pairs = [(0u32, 1u32), (2, 3)];
    let valid_pairs = vec![
        ((0, 1), loc(0, 0).encode(), loc(1, 0).encode()),
        ((2, 3), loc(0, 1).encode(), loc(1, 1).encode()),
    ];

    // Only two entangling slots, grid-adjacent: separation is impossible.
    let violating = vec![
        (0, loc(0, 0).encode()),
        (1, loc(1, 0).encode()),
        (2, loc(0, 1).encode()),
        (3, loc(1, 1).encode()),
    ];
    let cfg = config_from_assignment_targets(&violating).unwrap();
    assert!(!pairs_grid_separated(&cfg, &cz_pairs, &index));

    let repaired = repair_pair_separation(
        violating.clone(),
        &cz_pairs,
        &valid_pairs,
        &slots,
        &dist_table,
        &index,
        &blocked,
    );

    assert_eq!(
        repaired, violating,
        "infeasible layout should be returned unchanged (best-effort)"
    );
    assert!(!pairs_grid_separated(
        &config_from_assignment_targets(&repaired).unwrap(),
        &cz_pairs,
        &index,
    ));
}

#[test]
fn repair_is_deterministic() {
    let arch = make_arch();
    let index = make_index();
    let locs = all_entangling_locations(&arch);
    let dist_table = DistanceTable::new(&locs, &index);
    let slots = build_slots(&arch);
    let blocked = HashSet::new();

    let cz_pairs = [(0u32, 1u32), (2, 3)];
    let valid_pairs = vec![
        ((0, 1), loc(0, 0).encode(), loc(0, 1).encode()),
        ((2, 3), loc(0, 2).encode(), loc(0, 3).encode()),
    ];
    let too_close = vec![
        (0, loc(0, 5).encode()),
        (1, loc(1, 5).encode()),
        (2, loc(0, 6).encode()),
        (3, loc(1, 6).encode()),
    ];

    let once = repair_pair_separation(
        too_close.clone(),
        &cz_pairs,
        &valid_pairs,
        &slots,
        &dist_table,
        &index,
        &blocked,
    );
    let twice = repair_pair_separation(
        too_close,
        &cz_pairs,
        &valid_pairs,
        &slots,
        &dist_table,
        &index,
        &blocked,
    );
    assert_eq!(once, twice);
}

#[test]
fn repair_takes_the_first_pair_and_its_nearest_position() {
    let arch = make_arch();
    let index = make_index();
    let locs = all_entangling_locations(&arch);
    let dist_table = DistanceTable::new(&locs, &index);
    let slots = build_slots(&arch);
    let cz_pairs = [(0u32, 1u32), (2, 3)];
    let placed = vec![
        ((0, 1), loc(0, 7).encode(), loc(1, 7).encode()),
        ((2, 3), loc(0, 8).encode(), loc(1, 8).encode()),
    ];
    let close = vec![
        (0, loc(0, 7).encode()),
        (1, loc(1, 7).encode()),
        (2, loc(0, 8).encode()),
        (3, loc(1, 8).encode()),
    ];
    let repair = |blocked: &HashSet<u64>| {
        repair_pair_separation(
            close.clone(),
            &cz_pairs,
            &placed,
            &slots,
            &dist_table,
            &index,
            blocked,
        )
    };
    // Nothing but the own column is within reach, so the first position wins.
    let repaired = repair(&HashSet::new());
    assert_eq!(target_enc(&repaired, 0), Some(loc(0, 0).encode()));
    assert_eq!(target_enc(&repaired, 1), Some(loc(1, 0).encode()));
    assert_eq!(target_enc(&repaired, 2), Some(loc(0, 8).encode()));
    // A blocked half rules a position out.
    let blocked: HashSet<u64> = [loc(1, 0).encode()].into_iter().collect();
    let repaired = repair(&blocked);
    assert_eq!(target_enc(&repaired, 0), Some(loc(0, 1).encode()));
    // Repairing once more changes nothing.
    let again = repair_pair_separation(
        repaired.clone(),
        &cz_pairs,
        &placed,
        &slots,
        &dist_table,
        &index,
        &blocked,
    );
    assert_eq!(again, repaired);
}

#[test]
fn finalizing_leaves_single_pairs_and_empty_targets() {
    let arch = make_arch();
    let index = make_index();
    let locs = all_entangling_locations(&arch);
    let dist_table = DistanceTable::new(&locs, &index);
    let slots = build_slots(&arch);
    let finalize = |targets: Vec<(u32, u64)>, cz_pairs: &[(u32, u32)]| {
        finalize_assignment_targets(
            targets,
            cz_pairs,
            &[],
            &slots,
            &dist_table,
            &index,
            &HashSet::new(),
        )
    };
    let one = vec![(0, loc(0, 5).encode()), (1, loc(1, 5).encode())];
    assert_eq!(finalize(one.clone(), &[(0, 1)]), one);
    assert!(finalize(vec![], &[(0, 1), (2, 3)]).is_empty());
}

#[test]
fn targets_for_one_qubit_twice_are_no_configuration() {
    let twice = [(0, loc(0, 0).encode()), (0, loc(0, 1).encode())];
    assert!(config_from_assignment_targets(&twice).is_none());
    let config = config_from_assignment_targets(&twice[..1]).unwrap();
    assert_eq!(config.location_of(0), Some(loc(0, 0)));
}

#[test]
fn pairs_are_found_and_moved_by_position() {
    let slots = build_slots(&make_arch());
    let (a, b) = (loc(0, 4).encode(), loc(1, 4).encode());
    assert_eq!(locate_pair_slot(a, b, &slots), Some((4, false)));
    assert_eq!(locate_pair_slot(b, a, &slots), Some((4, true)));
    assert_eq!(locate_pair_slot(a, a, &slots), None);

    let mut targets = vec![(0, 1), (1, 2), (2, 3)];
    apply_pair_slot(&mut targets, 0, 1, &slots[4], true);
    assert_eq!(targets, vec![(0, b), (1, a), (2, 3)]);
    assert_eq!(target_enc(&targets, 1), Some(a));
    assert_eq!(target_enc(&targets, 5), None);
}

#[test]
fn only_close_pairs_take_part_in_a_violation() {
    let index = make_index();
    let targets = [
        (0, loc(0, 5).encode()),
        (1, loc(1, 5).encode()),
        (2, loc(0, 6).encode()),
        (3, loc(1, 6).encode()),
        (4, loc(0, 9).encode()),
        (5, loc(1, 9).encode()),
    ];
    let config = config_from_assignment_targets(&targets).unwrap();
    let pairs = [(0, 1), (2, 3), (4, 5), (6, 7)];
    let takes_part =
        |a: u32, b: u32| pair_participates_in_violation(a, b, &config, &pairs, &index);
    assert!(takes_part(0, 1));
    assert!(takes_part(3, 2));
    assert!(!takes_part(4, 5));
    assert!(!takes_part(6, 7));
}
