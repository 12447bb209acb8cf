use bloqade_lanes_search::arch::{ArchSpec, Bus, LocationAddr, Word, Zone};
use bloqade_lanes_search::config::Config;
use bloqade_lanes_search::entangling::{enumerate_slots, enumerate_word_pairs, PositionSlot};
use bloqade_lanes_search::lane_index::LaneIndex;
use bloqade_lanes_search::loose_goal::{SolveResult, SolveStatus};
use bloqade_lanes_search::measurement::{
    any_separated_reassignment_exists, close_pair_index_pairs, config_covers_pairs,
    record_assignment, AssignmentRecord, PostRepairKind, RepairContext,
};
use bloqade_lanes_search::tally::{
    status_str, AssignmentStats, PairCountHistogram, StageChain,
};
use std::collections::HashSet;

fn loc(word_id: u32, site_id: u32) -> LocationAddr {
    LocationAddr { zone_id: 0, word_id, site_id }
}

/// Two words of ten sites, two grid rows each; a site bus from the lower row to
/// the upper one and a word bus between the upper rows.
fn make_arch() -> ArchSpec {
    let word = |y: u32| Word {
        sites: (0..10u32).map(|s| (s % 5, y + s / 5)).collect(),
    };
    ArchSpec {
        words: vec![word(0), word(2)],
        zones: vec![Zone {
            site_buses: vec![Bus { src: (0..5).collect(), dst: (5..10).collect() }],
            word_buses: vec![Bus { src: vec![0], dst: vec![1] }],
            words_with_site_buses: vec![0, 1],
            sites_with_word_buses: (5..10).collect(),
            entangling_pairs: vec![(0, 1)],
        }],
    }
}

fn make_index() -> LaneIndex {
    LaneIndex::new(make_arch())
}

const PAIRS: [(u32, u32); 2] = [(0, 1), (2, 3)];

fn slots() -> Vec<PositionSlot> {
    enumerate_slots(&enumerate_word_pairs(&make_arch()), 10)
}

/// Both pairs at a position each, by site.
fn targets(first: u32, second: u32) -> Vec<(u32, u64)> {
    vec![
        (0, loc(0, first).encode()),
        (1, loc(1, first).encode()),
        (2, loc(0, second).encode()),
        (3, loc(1, second).encode()),
    ]
}

fn record(
    pre: &Vec<(u32, u64)>,
    post: &Vec<(u32, u64)>,
    slots: Option<&[PositionSlot]>,
) -> AssignmentRecord {
    let blocked = HashSet::new();
    let ctx = slots.map(|slots| RepairContext { slots, blocked: &blocked });
    record_assignment(pre, post, &PAIRS, &make_index(), ctx)
}

#[test]
fn a_separated_assignment_needs_no_repair() {
    let fine = targets(5, 8);
    let rec = record(&fine, &fine, Some(&slots()));
    assert_eq!(rec.pair_count, 2);
    assert!(!rec.pre_violated && !rec.needed_repair);
    assert!(rec.post_separated);
    assert!(!rec.repair_succeeded && !rec.repair_failed);
    assert!(rec.had_repair_ctx && !rec.empty_assignment);
    assert!(rec.post_repair_detail.is_none());
}

#[test]
fn a_repair_that_separates_succeeds() {
    let rec = record(&targets(5, 6), &targets(5, 8), Some(&slots()));
    assert!(rec.needed_repair && rec.repair_succeeded && !rec.repair_failed);
    assert!(rec.post_repair_detail.is_none());
}

#[test]
fn a_failed_repair_is_explained() {
    let close = targets(5, 6);
    let rec = record(&close, &close, Some(&slots()));
    assert!(rec.repair_failed && !rec.repair_succeeded);
    let detail = rec.post_repair_detail.unwrap();
    assert_eq!(detail.kind, PostRepairKind::CascadeCandidate);
    assert!(detail.separated_slot_existed);
    assert_eq!(detail.close_pair_indices, vec![(0, 1)]);

    // Only the two positions that are too close to each other.
    let tight = &slots()[5..7];
    let detail = record(&close, &close, Some(tight)).post_repair_detail.unwrap();
    assert_eq!(detail.kind, PostRepairKind::Infeasible);
    assert!(!detail.separated_slot_existed);

    let rec = record(&close, &close, None);
    assert!(!rec.had_repair_ctx);
    assert_eq!(rec.post_repair_detail.unwrap().kind, PostRepairKind::Ambiguous);
}

#[test]
fn an_assignment_without_targets_is_empty() {
    let rec = record(&vec![], &vec![], None);
    assert!(rec.empty_assignment);
    assert!(rec.post_separated && !rec.needed_repair);

    // Not every pair has targets: no repair could be needed.
    let partial = targets(5, 6)[..3].to_vec();
    let rec = record(&partial, &partial, None);
    assert!(!rec.empty_assignment && !rec.needed_repair && rec.post_separated);
}

#[test]
fn blocked_positions_are_no_way_out() {
    let index = make_index();
    let slots = slots();
    let close = targets(5, 6);
    let none = HashSet::new();
    let exists = |blocked: &HashSet<u64>, targets: &Vec<(u32, u64)>| {
        let ctx = RepairContext { slots: &slots, blocked };
        any_separated_reassignment_exists(targets, &PAIRS, &index, &ctx)
    };
    assert!(exists(&none, &close));
    assert!(exists(&none, &targets(5, 8)));
    let all: HashSet<u64> = slots.iter().map(|s| s.loc_a).collect();
    assert!(!exists(&all, &close));
    assert!(exists(&all, &targets(5, 8)));
    let twice = vec![(0, loc(0, 0).encode()), (0, loc(0, 1).encode())];
    assert!(!exists(&none, &twice));
}

#[test]
fn close_pairs_are_listed_in_order() {
    let index = make_index();
    let config = Config::new(&[
        (0, loc(0, 5)),
        (1, loc(1, 5)),
        (2, loc(0, 6)),
        (3, loc(1, 6)),
        (4, loc(0, 7)),
        (5, loc(1, 7)),
        (6, loc(0, 9)),
        (7, loc(1, 9)),
    ])
    .unwrap();
    let pairs = [(0, 1), (2, 3), (4, 5), (6, 7), (8, 9)];
    assert_eq!(close_pair_index_pairs(&config, &pairs, &index), vec![(0, 1), (1, 2)]);
    assert!(config_covers_pairs(&config, &pairs[..4]));
    assert!(!config_covers_pairs(&config, &pairs));
}

#[test]
fn statistics_count_records() {
    let close = targets(5, 6);
    let slots = slots();
    let records = vec![
        record(&targets(5, 8), &targets(5, 8), None),
        record(&close, &targets(5, 8), Some(&slots)),
        record(&close, &close, Some(&slots)),
        record(&close, &close, Some(&slots[5..7])),
        record(&close, &close, None),
        record(&vec![], &vec![], None),
    ];
    let stats = AssignmentStats::from_records(&records);
    assert_eq!(
        stats,
        AssignmentStats {
            total: 6,
            needed_repair: 4,
            repair_succeeded: 1,
            repair_failed: 3,
            post_repair_still_violating: 3,
            cascade_candidates: 1,
            infeasible: 1,
            empty_assignments: 1,
        }
    );
    let mut halves = AssignmentStats::from_records(&records[..3]);
    halves.merge(&AssignmentStats::from_records(&records[3..]));
    assert_eq!(halves, stats);
}

#[test]
fn a_histogram_counts_stages_with_pairs() {
    let mut histogram = PairCountHistogram::default();
    for n in [0, 1, 2, 2, 3, 4, 9] {
        histogram.record(n);
    }
    let expected = PairCountHistogram { one: 1, two: 2, three: 1, four_plus: 2 };
    assert_eq!(histogram, expected);
    assert_eq!(histogram.total_stages(), 6);
    histogram.merge(&expected);
    assert_eq!(histogram.total_stages(), 12);
    assert_eq!(histogram.four_plus, 4);
}

#[test]
fn a_full_counter_leaves_room_in_the_others() {
    let mut histogram =
        PairCountHistogram { one: u64::MAX, two: 0, three: u64::MAX, four_plus: u64::MAX };
    histogram.record(2);
    histogram.record(0);
    assert_eq!(
        histogram,
        PairCountHistogram { one: u64::MAX, two: 1, three: u64::MAX, four_plus: u64::MAX }
    );
}

#[test]
fn chained_stages_go_on_from_the_last_solved_one() {
    let ended = |status: SolveStatus, site: u32| SolveResult {
        status,
        move_layers: Vec::new(),
        goal_config: Config::new(&[(0, loc(0, site))]).unwrap(),
        nodes_expanded: 0,
        deadlocks: 0,
    };
    let says = [(0, loc(0, 1))];
    let mut chain = StageChain::new(true);
    assert_eq!(chain.start(&says), says.to_vec());
    chain.advance(&ended(SolveStatus::Solved, 6));
    assert_eq!(chain.start(&says), vec![(0, loc(0, 6))]);
    chain.advance(&ended(SolveStatus::Unsolvable, 9));
    assert_eq!(chain.start(&says), vec![(0, loc(0, 6))]);

    let mut loose = StageChain::new(false);
    loose.advance(&ended(SolveStatus::Solved, 6));
    assert_eq!(loose.start(&says), says.to_vec());
}

#[test]
fn statuses_have_names() {
    assert_eq!(status_str(SolveStatus::Solved), "Solved");
    assert_eq!(status_str(SolveStatus::Unsolvable), "Unsolvable");
    assert_eq!(status_str(SolveStatus::BudgetExceeded), "BudgetExceeded");
}
