use bloqade_lanes_search::arch::{ArchSpec, Bus, LocationAddr, Word, Zone};
use bloqade_lanes_search::config::Config;
use bloqade_lanes_search::entangling::{build_entangling_set, PlacementSet};
use bloqade_lanes_search::goals::{
    atoms_grid_separated, location_grid_index, pairs_grid_separated, AllAtTarget,
    EntanglingConstraintGoal, Goal, PairSeparationGoal, PartialPlacementGoal,
    PAIR_SEPARATION_MIN_GRID_DISTANCE,
};
use bloqade_lanes_search::lane_index::LaneIndex;

fn loc(word_id: u32, site_id: u32) -> LocationAddr {
    LocationAddr { zone_id: 0, word_id, site_id }
}

/// Two words of ten sites, two grid rows each; a site bus from the lower row to
/// the upper one and a word bus between the upper rows.
fn example_arch() -> ArchSpec {
    let word = |y: u32| Word {
        sites: (0..10u32).map(|s| (s % 5, y + s / 5)).collect(),
    };
    ArchSpec {
        words: vec![word(0), word(2)],
        zones: vec![Zone {
            site_buses: vec![Bus { src: (0..5).collect(), dst: (5..10).collect() }],
            word_buses: vec![Bus { src: vec![0], dst: vec![1] }],
            words_with_site_buses: vec![0, 1],
            sites_with_word_buses: (5..10).collect(),
            entangling_pairs: vec![(0, 1)],
        }],
    }
}

fn example_index() -> LaneIndex {
    LaneIndex::new(example_arch())
}

fn example_entangling_set() -> PlacementSet {
    build_entangling_set(&example_arch())
}

fn config(placements: &[(u32, LocationAddr)]) -> Config {
    Config::new(placements).unwrap()
}

#[test]
fn all_at_target_when_matched() {
    let targets = vec![(0u32, loc(0, 5).encode())];
    let goal = AllAtTarget::new(&targets);
    let config = config(&[(0, loc(0, 5))]);
    assert!(goal.is_goal(&config));
}

#[test]
fn all_at_target_when_not_matched() {
    let targets = vec![(0u32, loc(0, 5).encode())];
    let goal = AllAtTarget::new(&targets);
    let config = config(&[(0, loc(0, 0))]);
    assert!(!goal.is_goal(&config));
}

#[test]
fn all_at_target_missing_qubit() {
    let targets = vec![(0u32, loc(0, 5).encode())];
    let goal = AllAtTarget::new(&targets);
    let config = config(&[(1, loc(0, 5))]);
    assert!(!goal.is_goal(&config));
}

#[test]
fn partial_all_placed() {
    let targets = vec![(0u32, loc(0, 5).encode()), (1, loc(0, 3).encode())];
    let goal = PartialPlacementGoal::new(&targets, Some(2));
    let config = config(&[(0, loc(0, 5)), (1, loc(0, 3))]);
    assert!(goal.is_goal(&config));
}

#[test]
fn partial_one_of_two() {
    let targets = vec![(0u32, loc(0, 5).encode()), (1, loc(0, 3).encode())];
    let goal = PartialPlacementGoal::new(&targets, Some(1));
    let config = config(&[(0, loc(0, 5)), (1, loc(0, 0))]);
    assert!(goal.is_goal(&config)); // only q0 placed, but min_placed=1
}

#[test]
fn partial_none_placed() {
    let targets = vec![(0u32, loc(0, 5).encode())];
    let goal = PartialPlacementGoal::new(&targets, Some(1));
    let config = config(&[(0, loc(0, 0))]);
    assert!(!goal.is_goal(&config));
}

#[test]
fn partial_none_defaults_to_all() {
    let targets = vec![(0u32, loc(0, 5).encode()), (1, loc(0, 3).encode())];
    let goal = PartialPlacementGoal::new(&targets, None);
    // Only q0 placed: needs both.
    let config = config(&[(0, loc(0, 5)), (1, loc(0, 0))]);
    assert!(!goal.is_goal(&config));
}

#[test]
fn partial_goal_agrees_with_all_at_target() {
    let targets = vec![(0u32, loc(0, 5).encode()), (1, loc(0, 3).encode())];
    let all = AllAtTarget::new(&targets);
    let partial = PartialPlacementGoal::new(&targets, Some(2));
    let none = PartialPlacementGoal::new(&targets, Some(0));
    let more = PartialPlacementGoal::new(&targets, Some(3));
    for (a, b) in [(5, 3), (5, 0), (0, 3), (1, 2)] {
        let config = config(&[(0, loc(0, a)), (1, loc(0, b))]);
        assert_eq!(all.is_goal(&config), partial.is_goal(&config));
        assert!(none.is_goal(&config));
        assert!(!more.is_goal(&config));
    }
}

#[test]
fn entangling_goal_satisfied() {
    let eset = example_entangling_set();
    let goal = EntanglingConstraintGoal::new(&[(0, 1)], eset);
    // q0 on word 0 site 5, q1 on word 1 site 5: valid entangling pair.
    let config = config(&[(0, loc(0, 5)), (1, loc(1, 5))]);
    assert!(goal.is_goal(&config));
}

#[test]
fn entangling_goal_wrong_site() {
    let eset = example_entangling_set();
    let goal = EntanglingConstraintGoal::new(&[(0, 1)], eset);
    // Same words but different sites: not valid.
    let config = config(&[(0, loc(0, 3)), (1, loc(1, 5))]);
    assert!(!goal.is_goal(&config));
}

#[test]
fn entangling_goal_same_word() {
    let eset = example_entangling_set();
    let goal = EntanglingConstraintGoal::new(&[(0, 1)], eset);
    // Both on same word: not an entangling pair.
    let config = config(&[(0, loc(0, 5)), (1, loc(0, 6))]);
    assert!(!goal.is_goal(&config));
}

#[test]
fn entangling_goal_reversed_words() {
    let eset = example_entangling_set();
    let goal = EntanglingConstraintGoal::new(&[(0, 1)], eset);
    // q0 on word 1, q1 on word 0: still valid, both orderings are stored.
    let config = config(&[(0, loc(1, 5)), (1, loc(0, 5))]);
    assert!(goal.is_goal(&config));
}

#[test]
fn entangling_goal_missing_qubit() {
    let eset = example_entangling_set();
    let goal = EntanglingConstraintGoal::new(&[(0, 1)], eset);
    // q1 not in config.
    let config = config(&[(0, loc(0, 5))]);
    assert!(!goal.is_goal(&config));
}

#[test]
fn entangling_goal_multiple_pairs() {
    let eset = example_entangling_set();
    let goal = EntanglingConstraintGoal::new(&[(0, 1), (2, 3)], eset);
    // Both pairs satisfied.
    let config = config(&[
        (0, loc(0, 5)),
        (1, loc(1, 5)),
        (2, loc(0, 6)),
        (3, loc(1, 6)),
    ]);
    assert!(goal.is_goal(&config));
}

#[test]
fn entangling_goal_one_pair_unsatisfied() {
    let eset = example_entangling_set();
    let goal = EntanglingConstraintGoal::new(&[(0, 1), (2, 3)], eset);
    // First pair ok, second pair on wrong sites.
    let config = config(&[
        (0, loc(0, 5)),
        (1, loc(1, 5)),
        (2, loc(0, 6)),
        (3, loc(1, 7)),
    ]);
    assert!(!goal.is_goal(&config));
}

#[test]
fn entangling_goal_empty_pairs() {
    let eset = example_entangling_set();
    let goal = EntanglingConstraintGoal::new(&[], eset);
    // No pairs to satisfy and no spectator conflict either.
    let config = config(&[(0, loc(0, 0))]);
    assert!(goal.is_goal(&config));
}

#[test]
fn entangling_goal_rejects_accidental_cz() {
    let eset = example_entangling_set();
    // CZ pair (0, 1): qubits 2 and 3 are spectators.
    let goal = EntanglingConstraintGoal::new(&[(0, 1)], eset);
    // q0/q1 at valid CZ positions, q2/q3 at partner sites.
    let config = config(&[
        (0, loc(0, 5)),
        (1, loc(1, 5)),
        (2, loc(0, 6)),
        (3, loc(1, 6)),
    ]);
    assert!(!goal.is_goal(&config));
}

#[test]
fn entangling_goal_accepts_spectator_with_empty_partner() {
    let eset = example_entangling_set();
    let goal = EntanglingConstraintGoal::new(&[(0, 1)], eset);
    // q0/q1 at valid CZ. q2 at entangling site but partner is empty.
    let config = config(&[(0, loc(0, 5)), (1, loc(1, 5)), (2, loc(0, 6))]);
    assert!(goal.is_goal(&config));
}

#[test]
fn entangling_goal_accepts_spectator_paired_with_cz_participant() {
    let eset = example_entangling_set();
    let goal = EntanglingConstraintGoal::new(&[(0, 1)], eset);
    // q2 at (word 1, site 6), partner (word 0, site 6) is empty.
    let config = config(&[(0, loc(0, 5)), (1, loc(1, 5)), (2, loc(1, 6))]);
    assert!(goal.is_goal(&config));
}

/// Word 0 site 0 at (0, 0), site 1 at (1, 0), site 2 at (2, 0); word 1 site 0
/// at (0, 2) and so on.
fn four_qubit_config(q0_site: u32, q1_site: u32, q2_site: u32, q3_site: u32) -> Config {
    config(&[
        (0, loc(0, q0_site)),
        (1, loc(1, q1_site)),
        (2, loc(0, q2_site)),
        (3, loc(1, q3_site)),
    ])
}

#[test]
fn pairs_grid_separated_rejects_orthogonal_neighbors() {
    let index = example_index();
    // Pair A at x=0, pair B at x=1 on the same rows: Chebyshev 1.
    let config = four_qubit_config(0, 0, 1, 1);
    let pairs = [(0u32, 1), (2, 3)];
    assert!(!pairs_grid_separated(&config, &pairs, &index));
}

#[test]
fn pairs_grid_separated_rejects_diagonal_neighbors() {
    let index = example_index();
    // q0 (0, 0), q2 (1, 1): Chebyshev 1 diagonally.
    let config = four_qubit_config(0, 0, 6, 6);
    let pairs = [(0u32, 1), (2, 3)];
    assert!(!pairs_grid_separated(&config, &pairs, &index));
}

#[test]
fn pairs_grid_separated_accepts_chebyshev_two() {
    let index = example_index();
    // q0 (0, 0), q2 (2, 0): Chebyshev 2; partner rows aligned.
    let config = four_qubit_config(0, 0, 2, 2);
    let pairs = [(0u32, 1), (2, 3)];
    assert!(pairs_grid_separated(&config, &pairs, &index));
}

#[test]
fn pairs_grid_separated_ignores_intra_pair_proximity() {
    let index = example_index();
    // A single pair is not compared with itself.
    let config = config(&[(0, loc(0, 0)), (1, loc(1, 0))]);
    let pairs = [(0u32, 1)];
    assert!(pairs_grid_separated(&config, &pairs, &index));
}

#[test]
fn pairs_grid_separated_single_pair_accepted() {
    let index = example_index();
    let config = config(&[(0, loc(0, 5)), (1, loc(1, 5))]);
    assert!(pairs_grid_separated(&config, &[(0, 1)], &index));
}

#[test]
fn pairs_grid_separated_cross_zone_deferred() {
    let word = || Word { sites: vec![(0, 0), (1, 0)] };
    let zone = |pair: (u32, u32)| Zone {
        site_buses: vec![],
        word_buses: vec![],
        words_with_site_buses: vec![],
        sites_with_word_buses: vec![],
        entangling_pairs: vec![pair],
    };
    let index = LaneIndex::new(ArchSpec {
        words: vec![word(), word(), word(), word()],
        zones: vec![zone((0, 1)), zone((2, 3))],
    });
    // Both pairs sit at grid (0, 0) in their zones: they would violate in one zone.
    let config = config(&[
        (0, LocationAddr { zone_id: 0, word_id: 0, site_id: 0 }),
        (1, LocationAddr { zone_id: 0, word_id: 1, site_id: 0 }),
        (2, LocationAddr { zone_id: 1, word_id: 2, site_id: 0 }),
        (3, LocationAddr { zone_id: 1, word_id: 3, site_id: 0 }),
    ]);
    let pairs = [(0u32, 1), (2, 3)];
    assert!(pairs_grid_separated(&config, &pairs, &index));
}

#[test]
fn pairs_without_grid_position_are_not_separated() {
    let index = example_index();
    let unplaced = config(&[(0, loc(0, 0)), (1, loc(1, 0)), (2, loc(0, 4))]);
    assert!(!pairs_grid_separated(&unplaced, &[(0, 1), (2, 3)], &index));
    assert!(pairs_grid_separated(&unplaced, &[(2, 3)], &index));
    let off_grid = config(&[
        (0, loc(0, 0)),
        (1, loc(1, 0)),
        (2, loc(0, 4)),
        (3, loc(1, 10)),
    ]);
    assert!(!pairs_grid_separated(&off_grid, &[(0, 1), (2, 3)], &index));
}

#[test]
fn grid_index_reads_word_and_site() {
    let index = example_index();
    assert_eq!(location_grid_index(&loc(1, 7), &index), Some((0, 2, 3)));
    assert_eq!(location_grid_index(&loc(1, 10), &index), None);
    assert_eq!(location_grid_index(&loc(2, 0), &index), None);
}

#[test]
fn grid_separation_needs_two_steps_in_one_direction() {
    assert_eq!(PAIR_SEPARATION_MIN_GRID_DISTANCE, 2);
    assert!(!atoms_grid_separated((0, 3, 3), (0, 4, 4)));
    assert!(atoms_grid_separated((0, 3, 3), (0, 5, 3)));
    assert!(atoms_grid_separated((0, 5, 3), (0, 3, 3)));
    assert!(atoms_grid_separated((0, 3, 1), (0, 4, 3)));
    assert!(atoms_grid_separated((0, 3, 3), (1, 3, 3)));
}

struct AlwaysGoal;

impl Goal for AlwaysGoal {
    fn holds(&self, _config: Config) -> bool {
        true
    }

    fn is_goal(&self, _config: &Config) -> bool {
        true
    }
}

#[test]
fn pair_separation_goal_rejects_when_inner_passes_but_separation_fails() {
    let index = example_index();
    let goal = PairSeparationGoal::new(AlwaysGoal, &[(0, 1), (2, 3)], &index);
    let config = four_qubit_config(0, 0, 1, 1);
    assert!(!goal.is_goal(&config));
}

#[test]
fn pair_separation_goal_accepts_when_both_pass() {
    let index = example_index();
    let goal = PairSeparationGoal::new(AlwaysGoal, &[(0, 1), (2, 3)], &index);
    let config = four_qubit_config(0, 0, 2, 2);
    assert!(goal.is_goal(&config));
}

#[test]
fn pair_separation_goal_needs_the_inner_goal() {
    let index = example_index();
    let inner = EntanglingConstraintGoal::new(&[(0, 1), (2, 3)], example_entangling_set());
    let goal = PairSeparationGoal::new(inner, &[(0, 1), (2, 3)], &index);
    assert!(goal.is_goal(&four_qubit_config(5, 5, 8, 8)));
    assert!(!goal.is_goal(&four_qubit_config(5, 5, 6, 6)));
    assert!(!goal.is_goal(&four_qubit_config(5, 6, 9, 9)));
}
