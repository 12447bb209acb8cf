use bloqade_lanes_search::arch::{ArchSpec, Bus, LocationAddr, Word, Zone};
use bloqade_lanes_search::config::Config;
use bloqade_lanes_search::lane_index::LaneIndex;
use bloqade_lanes_search::loose_goal::{InnerStrategy, SolveStatus, Strategy};
use bloqade_lanes_search::probe::{
    first_search, second_search, takes_better_of_both, DeadlockChoice, DepthBucket, Estimate,
    ProbeSearch, ProbeSettings, SearchEvent, SeparationProbe, SeparationProbeStats,
};

fn loc(word_id: u32, site_id: u32) -> LocationAddr {
    LocationAddr { zone_id: 0, word_id, site_id }
}

/// Two words of ten sites, two grid rows each; a site bus from the lower row to
/// the upper one and a word bus between the upper rows.
fn make_arch() -> ArchSpec {
    let word = |y: u32| Word {
        sites: (0..10u32).map(|s| (s % 5, y + s / 5)).collect(),
    };
    ArchSpec {
        words: vec![word(0), word(2)],
        zones: vec![Zone {
            site_buses: vec![Bus { src: (0..5).collect(), dst: (5..10).collect() }],
            word_buses: vec![Bus { src: vec![0], dst: vec![1] }],
            words_with_site_buses: vec![0, 1],
            sites_with_word_buses: (5..10).collect(),
            entangling_pairs: vec![(0, 1)],
        }],
    }
}

fn make_index() -> LaneIndex {
    LaneIndex::new(make_arch())
}

fn two_pairs(site: u32) -> Config {
    Config::new(&[
        (0, loc(0, 0)),
        (1, loc(1, 0)),
        (2, loc(0, site)),
        (3, loc(1, site)),
    ])
    .unwrap()
}

/// A probe that saw these depths, each with pairs too close or not.
fn watched(visits: &[(u32, bool)]) -> SeparationProbeStats {
    let index = make_index();
    let pairs = [(0, 1), (2, 3)];
    let mut probe = SeparationProbe::new(&pairs, &index);
    let (close, apart) = (two_pairs(1), two_pairs(2));
    for &(depth, violates) in visits {
        let config = if violates { &close } else { &apart };
        probe.on_event(SearchEvent::NodeExpanded { depth, config });
        probe.on_event(SearchEvent::Other);
    }
    probe.stats
}

#[test]
fn a_probe_counts_expanded_nodes_by_depth() {
    let stats = watched(&[(0, false), (1, true), (1, false), (2, true)]);
    assert_eq!(stats.total_expanded, 4);
    assert_eq!(stats.violating_expanded, 2);
    assert_eq!(stats.depth_total[&0], 1);
    assert_eq!(stats.depth_total[&1], 2);
    assert_eq!(stats.depth_total[&2], 1);
    assert_eq!(stats.depth_violating.get(&0), None);
    assert_eq!(stats.depth_violating[&1], 1);
    assert_eq!(stats.depth_violating[&2], 1);
    assert_eq!(stats.max_depth(), 2);
}

#[test]
fn merged_probes_add_up_depth_by_depth() {
    let mut stats = watched(&[(0, true), (3, false)]);
    stats.merge(watched(&[(3, true), (4, false)]));
    assert_eq!(stats.total_expanded, 4);
    assert_eq!(stats.violating_expanded, 2);
    assert_eq!(stats.depth_total[&0], 1);
    assert_eq!(stats.depth_total[&3], 2);
    assert_eq!(stats.depth_total[&4], 1);
    assert_eq!(stats.depth_violating[&0], 1);
    assert_eq!(stats.depth_violating[&3], 1);
    assert_eq!(stats.depth_violating.get(&4), None);
}

#[test]
fn depths_fall_into_thirds() {
    let stats = watched(&[
        (0, false),
        (2, true),
        (3, true),
        (4, false),
        (4, false),
        (6, true),
        (9, true),
    ]);
    let buckets = stats.depth_buckets();
    // Up to 3, up to 6, up to 9.
    assert_eq!(buckets.shallow, DepthBucket { total: 3, violating: 2 });
    assert_eq!(buckets.middle, DepthBucket { total: 3, violating: 1 });
    assert_eq!(buckets.deep, DepthBucket { total: 1, violating: 1 });
}

#[test]
fn without_depth_everything_is_shallow() {
    let none = DepthBucket { total: 0, violating: 0 };
    let buckets = watched(&[(0, true), (0, false)]).depth_buckets();
    assert_eq!(buckets.shallow, DepthBucket { total: 2, violating: 1 });
    assert_eq!((buckets.middle, buckets.deep), (none, none));

    let empty = SeparationProbeStats::default();
    assert_eq!(empty.max_depth(), 0);
    assert_eq!(empty.depth_buckets().shallow, none);
}

#[test]
fn one_step_deep_is_the_deep_third() {
    let buckets = watched(&[(0, false), (1, true)]).depth_buckets();
    assert_eq!(buckets.shallow, DepthBucket { total: 1, violating: 0 });
    assert_eq!(buckets.middle, DepthBucket { total: 0, violating: 0 });
    assert_eq!(buckets.deep, DepthBucket { total: 1, violating: 1 });
}

#[test]
fn a_strategy_says_which_searches_to_run() {
    let cascade = Strategy::Cascade { inner: InnerStrategy::Ids };
    assert_eq!(first_search(Strategy::Ids), Some(ProbeSearch::Ids));
    assert_eq!(first_search(cascade), Some(ProbeSearch::Ids));
    assert_eq!(
        first_search(Strategy::AStar),
        Some(ProbeSearch::AStar { max_depth: None })
    );
    assert_eq!(first_search(Strategy::Entropy), None);

    let follow = Some(ProbeSearch::AStar { max_depth: Some(4) });
    assert_eq!(second_search(cascade, SolveStatus::Solved, 4), follow);
    assert_eq!(second_search(cascade, SolveStatus::BudgetExceeded, 4), None);
    assert_eq!(second_search(Strategy::Ids, SolveStatus::Solved, 4), None);
    assert_eq!(second_search(Strategy::AStar, SolveStatus::Solved, 4), None);

    assert!(takes_better_of_both(SolveStatus::Solved));
    assert!(!takes_better_of_both(SolveStatus::Unsolvable));
}

#[test]
fn best_first_moves_blockers_and_diving_follows_the_options() {
    let best_first = |max_depth: Option<u32>| ProbeSettings {
        deadlocks: DeadlockChoice::MoveBlockers,
        estimate: Estimate::Largest,
        weighted: true,
        max_depth,
        seed: 0,
    };
    assert_eq!(ProbeSearch::AStar { max_depth: None }.settings(), best_first(None));
    assert_eq!(ProbeSearch::AStar { max_depth: Some(4) }.settings(), best_first(Some(4)));
    assert_eq!(
        ProbeSearch::Ids.settings(),
        ProbeSettings {
            deadlocks: DeadlockChoice::FromOptions,
            estimate: Estimate::Sum,
            weighted: false,
            max_depth: None,
            seed: 0,
        }
    );
}

#[test]
fn counts_that_do_not_add_up_are_taken_as_they_are() {
    let stats = SeparationProbeStats {
        total_expanded: 0,
        violating_expanded: 9,
        depth_total: [(0, 2), (3, 4)].into_iter().collect(),
        depth_violating: [(0, 5), (2, 7)].into_iter().collect(),
    };
    let buckets = stats.depth_buckets();
    assert_eq!(buckets.shallow, DepthBucket { total: 2, violating: 5 });
    assert_eq!(buckets.middle, DepthBucket { total: 0, violating: 0 });
    assert_eq!(buckets.deep, DepthBucket { total: 4, violating: 0 });

    let index = make_index();
    let pairs = [(0, 1), (2, 3)];
    let mut probe = SeparationProbe::new(&pairs, &index);
    probe.stats = stats;
    let config = two_pairs(1);
    probe.on_event(SearchEvent::NodeExpanded { depth: 2, config: &config });
    assert_eq!(probe.stats.total_expanded, 1);
    assert_eq!(probe.stats.violating_expanded, 10);
    assert_eq!(probe.stats.depth_total[&2], 1);
    assert_eq!(probe.stats.depth_violating[&2], 8);
}
