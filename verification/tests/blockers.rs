use bloqade_lanes_search::accidental::find_accidental_cz;
use bloqade_lanes_search::arch::{ArchSpec, Bus, LocationAddr, Word, Zone};
use bloqade_lanes_search::blockers::{
    detect_accidental_cz_spectators, detect_accidentals_created, detect_blockers,
};
use bloqade_lanes_search::config::Config;
use bloqade_lanes_search::entangling::{build_entangling_set, build_partner_map};
use bloqade_lanes_search::lane_index::LaneIndex;
use std::collections::HashSet;

fn loc(word_id: u32, site_id: u32) -> LocationAddr {
    LocationAddr { zone_id: 0, word_id, site_id }
}

/// Two words of ten sites, two grid rows each; a site bus from the lower row to
/// the upper one and a word bus between the upper rows.
fn make_arch() -> ArchSpec {
    let word = |y: u32| Word {
        sites: (0..10u32).map(|s| (s % 5, y + s / 5)).collect(),
    };
    ArchSpec {
        words: vec![word(0), word(2)],
        zones: vec![Zone {
            site_buses: vec![Bus { src: (0..5).collect(), dst: (5..10).collect() }],
            word_buses: vec![Bus { src: vec![0], dst: vec![1] }],
            words_with_site_buses: vec![0, 1],
            sites_with_word_buses: (5..10).collect(),
            entangling_pairs: vec![(0, 1)],
        }],
    }
}

fn make_index() -> LaneIndex {
    LaneIndex::new(make_arch())
}

#[test]
fn detect_blockers_case_a_finds_target_blocker() {
    // Hand-craft Hungarian targets and a config where a spectator
    // sits exactly on a pair-target location. detect_blockers must
    // identify the spectator.
    let index = make_index();
    let config = Config::new(&[
        (0, loc(0, 0)),
        (1, loc(1, 0)),
        (2, loc(0, 5)), // spectator
    ])
    .unwrap();
    // Hand-crafted targets: pair (q0, q1) → (0, 5), (1, 5). q2 at (0, 5) blocks q0's target.
    let targets = vec![(0u32, loc(0, 5).encode()), (1u32, loc(1, 5).encode())];
    let pair_qubits: HashSet<u32> = [0u32, 1u32].into_iter().collect();
    let row_qubits = pair_qubits.clone();
    let blockers = detect_blockers(&targets, &pair_qubits, &config, &row_qubits, &index);
    assert_eq!(blockers, vec![2], "q2 must be flagged: it sits on a pair target");
}

#[test]
fn detect_blockers_skips_spectator_row_targets() {
    // Spectator-row targets are destinations, not blockers: only spectators
    // sitting on *pair*-target locations are flagged.
    // Setup: pair (q0, q1) anchored at slot site 5 (cost 0); q2 is a
    // spectator row whose target is (0, 7); q3 sits on (0, 7).
    // q3 is sitting on q2's *spectator-row target*, not on any pair
    // target, and the pair atoms have no free egress in this arch
    // (terminal at site 5), so nobody is flagged for hemming them in.
    let index = make_index();
    let config = Config::new(&[
        (0, loc(0, 5)), // pair member, anchored
        (1, loc(1, 5)), // pair member, anchored
        (2, loc(0, 6)), // spectator row
        (3, loc(0, 7)), // sits on q2's spectator target: NOT a pair target
    ])
    .unwrap();
    let targets = vec![
        (0u32, loc(0, 5).encode()),
        (1u32, loc(1, 5).encode()),
        (2u32, loc(0, 7).encode()),
    ];
    let pair_qubits: HashSet<u32> = [0u32, 1u32].into_iter().collect();
    let row_qubits: HashSet<u32> = [0u32, 1u32, 2u32].into_iter().collect();
    let blockers = detect_blockers(&targets, &pair_qubits, &config, &row_qubits, &index);
    assert!(
        blockers.is_empty(),
        "q3 sits on q2's spectator-target, not on any pair target: must not be flagged"
    );
}

#[test]
fn detect_blockers_excludes_existing_row_qubits() {
    // A qubit already in row_qubits must never be re-added.
    let index = make_index();
    let config = Config::new(&[(0, loc(0, 0)), (1, loc(1, 0)), (2, loc(0, 5))]).unwrap();
    let targets = vec![(0u32, loc(0, 5).encode()), (1u32, loc(1, 5).encode())];
    let pair_qubits: HashSet<u32> = [0u32, 1u32].into_iter().collect();
    let mut row_qubits = pair_qubits.clone();
    row_qubits.insert(2); // q2 is already a (spectator) row.
    let blockers = detect_blockers(&targets, &pair_qubits, &config, &row_qubits, &index);
    assert!(blockers.is_empty(), "row qubits must not be re-flagged");
}

#[test]
fn detect_accidentals_created_flags_partner_at_target() {
    // Spectator-row q5 (loc (0,3)) is assigned target (0,5). The
    // partner half (1,5) currently holds q6, who is NOT a row qubit.
    // q6 must be flagged so the next iteration can give it its own
    // target and prevent q5+q6 ending up at slot partner halves.
    let arch = make_arch();
    let pair_qubits: HashSet<u32> = [0u32, 1u32].into_iter().collect();
    let row_qubits: HashSet<u32> = [0u32, 1u32, 5u32].into_iter().collect();
    let config = Config::new(&[
        (0, loc(0, 0)),
        (1, loc(1, 0)),
        (5, loc(0, 3)),
        (6, loc(1, 5)),
    ])
    .unwrap();
    let targets = vec![
        (0u32, loc(0, 0).encode()),
        (1u32, loc(1, 0).encode()),
        (5u32, loc(0, 5).encode()),
    ];
    let new = detect_accidentals_created(&targets, &arch, &config, &pair_qubits, &row_qubits);
    assert_eq!(new, vec![6], "q6 sits at q5's target's partner half");
}

#[test]
fn detect_accidentals_created_skips_row_partner() {
    // Same setup but q6 is already a row qubit. Then it will move to
    // its own assigned target and the half becomes free: no accidental.
    let arch = make_arch();
    let pair_qubits: HashSet<u32> = [0u32, 1u32].into_iter().collect();
    let row_qubits: HashSet<u32> = [0u32, 1u32, 5u32, 6u32].into_iter().collect();
    let config = Config::new(&[
        (0, loc(0, 0)),
        (1, loc(1, 0)),
        (5, loc(0, 3)),
        (6, loc(1, 5)),
    ])
    .unwrap();
    let targets = vec![
        (0u32, loc(0, 0).encode()),
        (1u32, loc(1, 0).encode()),
        (5u32, loc(0, 5).encode()),
    ];
    let new = detect_accidentals_created(&targets, &arch, &config, &pair_qubits, &row_qubits);
    assert!(new.is_empty(), "row qubits at the partner half move away");
}

#[test]
fn detect_accidentals_created_ignores_pair_targets() {
    // Pair-row targets occupy *both* halves; any non-row at the pair
    // target is caught by `detect_blockers`, and must not be flagged twice.
    let arch = make_arch();
    let pair_qubits: HashSet<u32> = [0u32, 1u32].into_iter().collect();
    let row_qubits: HashSet<u32> = [0u32, 1u32].into_iter().collect();
    let config = Config::new(&[(0, loc(0, 0)), (1, loc(1, 0)), (6, loc(1, 5))]).unwrap();
    // Pair (0,1) targets slot site 5; q6 sits on the other half.
    let targets = vec![(0u32, loc(0, 5).encode()), (1u32, loc(1, 5).encode())];
    let new = detect_accidentals_created(&targets, &arch, &config, &pair_qubits, &row_qubits);
    assert!(new.is_empty(), "pair-row partner-half conflicts are left to detect_blockers");
}

#[test]
fn detect_accidental_cz_finds_both_partners() {
    // 1 CZ pair (q0, q1) far away; 2 spectators (q5, q6) at partner
    // halves of the (0, 1) word pair at site 5. Both must be flagged.
    let arch = make_arch();
    let pair_qubits: HashSet<u32> = [0u32, 1u32].into_iter().collect();
    let row_qubits = pair_qubits.clone();
    let config = Config::new(&[
        (0, loc(0, 0)),
        (1, loc(1, 0)),
        (5, loc(0, 5)),
        (6, loc(1, 5)),
    ])
    .unwrap();
    let mut new = detect_accidental_cz_spectators(&config, &arch, &pair_qubits, &row_qubits);
    new.sort();
    assert_eq!(
        new,
        vec![5, 6],
        "both partners of the accidental CZ at slot site 5 must be flagged"
    );
}

#[test]
fn detect_accidental_cz_skips_existing_rows() {
    // If one of the accidental partners is already in row_qubits,
    // the other should not be re-added.
    let arch = make_arch();
    let pair_qubits: HashSet<u32> = [0u32, 1u32].into_iter().collect();
    let mut row_qubits = pair_qubits.clone();
    row_qubits.insert(5); // q5 already a row.
    let config = Config::new(&[
        (0, loc(0, 0)),
        (1, loc(1, 0)),
        (5, loc(0, 5)),
        (6, loc(1, 5)),
    ])
    .unwrap();
    let new = detect_accidental_cz_spectators(&config, &arch, &pair_qubits, &row_qubits);
    assert!(
        new.is_empty(),
        "accidental partner of an already-row qubit must not be added"
    );
}

#[test]
fn no_accidental_cz_when_partner_empty() {
    let arch = make_arch();
    let eset = build_entangling_set(&arch);
    let pmap = build_partner_map(&eset);
    // q0 at (word 0, site 5), q1 at (word 0, site 6): no partner occupied.
    let config = Config::new(&[(0, loc(0, 5)), (1, loc(0, 6))]).unwrap();
    let cz_qubits = HashSet::new();
    let accidental = find_accidental_cz(&config, &cz_qubits, &pmap);
    assert!(accidental.is_empty());
}

#[test]
fn detects_accidental_cz() {
    let arch = make_arch();
    let eset = build_entangling_set(&arch);
    let pmap = build_partner_map(&eset);
    // q0 at (word 0, site 5), q1 at (word 1, site 5): partner sites!
    let config = Config::new(&[(0, loc(0, 5)), (1, loc(1, 5))]).unwrap();
    let cz_qubits = HashSet::new(); // both are spectators
    let accidental = find_accidental_cz(&config, &cz_qubits, &pmap);
    assert_eq!(accidental.len(), 1); // one of the pair needs to move
}

#[test]
fn no_accidental_cz_when_partner_is_cz_participant() {
    let arch = make_arch();
    let eset = build_entangling_set(&arch);
    let pmap = build_partner_map(&eset);
    // q0 at (word 0, site 5), q1 at (word 1, site 5): but q1 is a CZ participant.
    let config = Config::new(&[(0, loc(0, 5)), (1, loc(1, 5))]).unwrap();
    let cz_qubits: HashSet<u32> = [1].into_iter().collect();
    let accidental = find_accidental_cz(&config, &cz_qubits, &pmap);
    assert!(accidental.is_empty());
}
