use bloqade_lanes_search::arch::{ArchSpec, Bus, LocationAddr, Word, Zone};
use bloqade_lanes_search::config::{Config, ConfigError};
use bloqade_lanes_search::costs::OccupancyCosts;
use bloqade_lanes_search::engine::SearchEngine;
use bloqade_lanes_search::goals::Goal;
use bloqade_lanes_search::lane_index::LaneIndex;
use bloqade_lanes_search::loose_goal::{
    absorb_cleanup, cleanup_targets, generator_settings, zip_pairs, EntanglingOptions,
    LooseGoalCzPlacement, MoveSearch, SolveOptions, SolveResult, SolveStatus, Strategy, LOOKAHEAD_BETA, MOVE_PENALTY,
};
use bloqade_lanes_search::solver::{CandidateAttempt, CandidateRun, CandidateStep, MoveSolver};
use std::sync::Arc;

fn loc(word_id: u32, site_id: u32) -> LocationAddr {
    LocationAddr { zone_id: 0, word_id, site_id }
}

/// Two words of ten sites, two grid rows each; a site bus from the lower row to
/// the upper one and a word bus between the upper rows.
fn make_arch() -> ArchSpec {
    let word = |y: u32| Word {
        sites: (0..10u32).map(|s| (s % 5, y + s / 5)).collect(),
    };
    ArchSpec {
        words: vec![word(0), word(2)],
        zones: vec![Zone {
            site_buses: vec![Bus { src: (0..5).collect(), dst: (5..10).collect() }],
            word_buses: vec![Bus { src: vec![0], dst: vec![1] }],
            words_with_site_buses: vec![0, 1],
            sites_with_word_buses: (5..10).collect(),
            entangling_pairs: vec![(0, 1)],
        }],
    }
}

fn make_index() -> LaneIndex {
    LaneIndex::new(make_arch())
}

fn placement(entangling_options: EntanglingOptions) -> LooseGoalCzPlacement {
    let engine = Arc::new(SearchEngine::from_index(make_index()));
    let search = MoveSearch { options: SolveOptions::default() };
    LooseGoalCzPlacement::new(engine, search, entangling_options)
}

fn result(status: SolveStatus, placements: &[(u32, LocationAddr)], nodes: u32) -> SolveResult {
    SolveResult {
        status,
        move_layers: Vec::new(),
        goal_config: Config::new(placements).unwrap(),
        nodes_expanded: nodes,
        deadlocks: 0,
    }
}

#[test]
fn candidates_are_generated_at_the_costs_of_the_options() {
    let options = SolveOptions { lookahead: true, top_c: Some(5), ..SolveOptions::default() };
    let within = |horizon: usize| EntanglingOptions {
        max_loss: Some(7),
        occupancy: OccupancyCosts { one: 3, both: 6 },
        hungarian_horizon: horizon,
    };
    let pairs = [(0, 1)];
    let later = vec![vec![(2, 3)], vec![(4, 5)], vec![(6, 7)]];

    let two = within(2);
    let settings = generator_settings(&options, &two, &pairs, &later);
    assert_eq!(settings.cz_pairs, &pairs);
    assert!(settings.lookahead);
    assert_eq!(settings.candidates_per_step, 5);
    assert_eq!(settings.max_loss, Some(7));
    assert_eq!(settings.occupancy, OccupancyCosts { one: 3, both: 6 });
    assert_eq!(settings.move_penalty, 1);
    let blend = settings.blend.unwrap();
    assert_eq!(blend.layers, &later[..2]);
    assert_eq!(blend.beta, 2);

    assert!(generator_settings(&options, &within(0), &pairs, &later).blend.is_none());
    assert!(generator_settings(&options, &two, &pairs, &[]).blend.is_none());
    let plain = generator_settings(&SolveOptions::default(), &two, &pairs, &later);
    assert!(!plain.lookahead);
    assert_eq!(plain.candidates_per_step, 3);
}

#[test]
fn a_placement_keeps_its_pieces() {
    let loose = placement(EntanglingOptions::default());
    assert_eq!(loose.search().options.strategy, Strategy::AStar);
    assert_eq!(loose.search().options.top_c, None);
    assert!(!loose.search().options.lookahead);
    assert_eq!(loose.entangling_options().max_loss, None);
    assert_eq!(
        loose.entangling_options().occupancy,
        OccupancyCosts { one: 1, both: 2 }
    );
    assert_eq!(loose.entangling_options().hungarian_horizon, 0);
    assert_eq!(loose.engine().index().all_lanes().len(), 30);
    assert_eq!((MOVE_PENALTY, LOOKAHEAD_BETA), (1, 2));
    assert_eq!(loose.search().options.candidates_per_step(), 3);
    let two = SolveOptions { top_c: Some(2), ..SolveOptions::default() };
    assert_eq!(two.candidates_per_step(), 2);
}

#[test]
fn a_plan_rejects_a_qubit_placed_twice() {
    let loose = placement(EntanglingOptions::default());
    let plan = loose.plan_pairs(&[(0, loc(0, 0)), (0, loc(0, 1))], &[(0, 1)], &[], &[]);
    assert!(matches!(plan, Err(ConfigError::DuplicateQubit { qubit_id: 0 })));
}

#[test]
fn a_plan_holds_the_goal_and_where_to_steer() {
    let loose = placement(EntanglingOptions::default());
    let initial = [(0, loc(0, 5)), (1, loc(1, 5)), (2, loc(0, 3))];
    let plan = loose.plan_pairs(&initial, &[(0, 1)], &[loc(0, 9)], &[]).unwrap();
    assert_eq!(plan.root.entries(), &initial);
    assert_eq!(plan.targets, vec![(0, loc(0, 5).encode()), (1, loc(1, 5).encode())]);
    assert_eq!(plan.blocked.len(), 1);
    assert!(plan.blocked.contains(&loc(0, 9).encode()));
    assert!(plan.goal.is_goal(&plan.root));

    let apart = [(0, loc(0, 5)), (1, loc(1, 0))];
    let plan = loose.plan_pairs(&apart, &[(0, 1)], &[], &[]).unwrap();
    assert!(!plan.goal.is_goal(&plan.root));
    assert_eq!(plan.targets.len(), 2);

    // No bus leads from one column to another: no position is in reach of both.
    let columns = [(0, loc(0, 5)), (1, loc(1, 6))];
    let plan = loose.plan_pairs(&columns, &[(0, 1)], &[], &[]).unwrap();
    assert!(plan.targets.is_empty());
}

#[test]
fn a_plan_of_pairs_that_are_too_close_is_no_goal() {
    let loose = placement(EntanglingOptions::default());
    let pairs = [(0, 1), (2, 3)];
    let at = |site: u32| [(0, loc(0, 0)), (1, loc(1, 0)), (2, loc(0, site)), (3, loc(1, site))];
    let plan = loose.plan_pairs(&at(2), &pairs, &[], &[]).unwrap();
    assert!(plan.goal.is_goal(&plan.root));
    let plan = loose.plan_pairs(&at(1), &pairs, &[], &[]).unwrap();
    assert!(!plan.goal.is_goal(&plan.root));
}

#[test]
fn the_horizon_clips_later_layers() {
    let layers = vec![vec![(0, 1)], vec![(2, 3)], vec![(4, 5)]];
    let clip = |horizon: usize| {
        let options = EntanglingOptions {
            hungarian_horizon: horizon,
            ..EntanglingOptions::default()
        };
        options.clipped_future_layers(&layers).to_vec()
    };
    assert!(clip(0).is_empty());
    assert_eq!(clip(2), layers[..2].to_vec());
    assert_eq!(clip(3), layers);
    assert_eq!(clip(9), layers);
}

#[test]
fn controls_and_targets_make_pairs() {
    assert_eq!(zip_pairs(&[0, 4], &[1, 5]), vec![(0, 1), (4, 5)]);
    assert!(zip_pairs(&[], &[]).is_empty());
}

#[test]
fn cleanup_moves_a_spectator_out_of_an_accidental_cz() {
    let loose = placement(EntanglingOptions::default());
    let at = [(0, loc(0, 0)), (1, loc(1, 0)), (2, loc(0, 7)), (3, loc(1, 7))];
    let solved = result(SolveStatus::Solved, &at, 4);
    let targets = cleanup_targets(loose.engine(), &[(0, 1)], &solved).unwrap();
    assert_eq!(targets.len(), 4);
    assert_eq!(targets[0], at[0]);
    assert_eq!(targets[1], at[1]);
    // One of the two spectators goes along the site bus, the other one stays.
    let moved: Vec<_> = (2..4).filter(|&k| targets[k] != at[k]).collect();
    assert_eq!(moved.len(), 1);
    let (qubit, to) = targets[moved[0]];
    assert_eq!(to, if qubit == 2 { loc(0, 2) } else { loc(1, 2) });
}

#[test]
fn cleanup_has_nothing_to_do() {
    let loose = placement(EntanglingOptions::default());
    let at = [(0, loc(0, 0)), (1, loc(1, 0)), (2, loc(0, 7)), (3, loc(1, 7))];
    let failed = result(SolveStatus::BudgetExceeded, &at, 4);
    assert!(cleanup_targets(loose.engine(), &[(0, 1)], &failed).is_none());
    let clean = result(SolveStatus::Solved, &at[..3], 4);
    assert!(cleanup_targets(loose.engine(), &[(0, 1)], &clean).is_none());
}

#[test]
fn a_spectator_without_a_way_out_stays() {
    let loose = placement(EntanglingOptions::default());
    // The lower row leads only to the upper row of the same word, which is held.
    let at = [
        (2, loc(0, 2)),
        (3, loc(1, 2)),
        (4, loc(0, 7)),
        (5, loc(1, 7)),
    ];
    let solved = result(SolveStatus::Solved, &at, 0);
    let targets = cleanup_targets(loose.engine(), &[(4, 5)], &solved).unwrap();
    assert_eq!(targets, at.to_vec());
}

#[test]
fn a_solved_cleanup_is_absorbed() {
    let mut first = result(SolveStatus::Solved, &[(0, loc(0, 0))], 4);
    first.move_layers.push(vec![1, 2]);
    let mut second = result(SolveStatus::Solved, &[(0, loc(0, 5))], 3);
    second.move_layers.push(vec![3]);
    absorb_cleanup(&mut first, Ok(second));
    assert_eq!(first.move_layers, vec![vec![1, 2], vec![3]]);
    assert_eq!(first.goal_config.location_of(0), Some(loc(0, 5)));
    assert_eq!(first.nodes_expanded, 7);

    let third = result(SolveStatus::Unsolvable, &[(0, loc(0, 9))], 3);
    absorb_cleanup(&mut first, Ok(third));
    absorb_cleanup(&mut first, Err(ConfigError::DuplicateQubit { qubit_id: 1 }));
    assert_eq!(first.goal_config.location_of(0), Some(loc(0, 5)));
    assert_eq!(first.nodes_expanded, 7);
}

#[test]
fn a_solver_shares_its_engine() {
    let solver = MoveSolver::from_arch_spec(&make_arch());
    assert_eq!(solver.index().all_lanes().len(), 30);
    let engine = MoveSolver::from_index(make_index()).into_engine();
    let solver = MoveSolver::from_engine(engine);
    assert_eq!(solver.engine().index().outgoing_lanes(loc(0, 0)).len(), 1);
    let cache = solver.engine().entangling_cache();
    assert!(cache.ent_set.contains(&(loc(0, 5).encode(), loc(1, 5).encode())));
    assert_eq!(cache.partner_map.len(), 20);
    assert_eq!(cache.wpd.len(), 1);
    assert_eq!(cache.dist_table.distance(loc(0, 0).encode(), loc(0, 5).encode()), Some(1));
}

#[test]
fn the_first_candidate_that_solves_wins() {
    let run = CandidateRun::new(Some(10));
    assert_eq!(run.next_step(), CandidateStep::Try { max_expansions: Some(10) });
    let run = run.record(0, result(SolveStatus::Unsolvable, &[(0, loc(0, 0))], 4));
    assert_eq!(run.next_step(), CandidateStep::Try { max_expansions: Some(6) });
    let run = run.record(2, result(SolveStatus::Solved, &[(0, loc(0, 5))], 1));
    assert_eq!(run.next_step(), CandidateStep::Stop);
    let outcome = run.finish(Config::new(&[]).unwrap());
    assert_eq!(outcome.candidate_index, Some(2));
    assert_eq!(outcome.total_expansions, 5);
    assert_eq!(outcome.candidates_tried, 2);
    assert_eq!(outcome.result.goal_config.location_of(0), Some(loc(0, 5)));
    assert_eq!(
        outcome.attempts,
        vec![
            CandidateAttempt {
                candidate_index: 0,
                status: SolveStatus::Unsolvable,
                nodes_expanded: 4,
            },
            CandidateAttempt {
                candidate_index: 2,
                status: SolveStatus::Solved,
                nodes_expanded: 1,
            },
        ]
    );
}

#[test]
fn candidates_share_one_budget() {
    let run = CandidateRun::new(Some(5));
    let run = run.record(0, result(SolveStatus::BudgetExceeded, &[(0, loc(0, 0))], 5));
    assert_eq!(run.next_step(), CandidateStep::Stop);
    let outcome = run.finish(Config::new(&[]).unwrap());
    assert_eq!(outcome.candidate_index, None);
    assert_eq!(outcome.result.status, SolveStatus::BudgetExceeded);
    let free = CandidateRun::new(None);
    assert_eq!(free.next_step(), CandidateStep::Try { max_expansions: None });
}

#[test]
fn no_candidate_is_no_solution() {
    let initial = Config::new(&[(0, loc(0, 0))]).unwrap();
    let outcome = CandidateRun::new(Some(1000)).finish(initial);
    assert_eq!(outcome.result.status, SolveStatus::Unsolvable);
    assert_eq!(outcome.candidate_index, None);
    assert_eq!(outcome.candidates_tried, 0);
    assert!(outcome.attempts.is_empty());
    assert_eq!(outcome.result.goal_config.location_of(0), Some(loc(0, 0)));
}
