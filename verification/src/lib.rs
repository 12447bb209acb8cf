//! Placement and assignment primitives for neutral-atom move synthesis.

pub mod accidental;
pub mod agreement_laws;
pub mod arch;
pub mod assignment;
pub mod assignment_laws;
pub mod blockers;
pub mod cleanup_laws;
pub mod config;
pub mod config_laws;
pub mod congestion;
pub mod congestion_laws;
pub mod cost_laws;
pub mod costs;
pub mod distance;
pub mod engine;
pub mod entangling;
pub mod goal_laws;
pub mod goals;
pub mod hop_laws;
pub mod hungarian;
pub mod lane_index;
pub mod lane_laws;
pub mod layer_laws;
pub mod lookahead;
pub mod lookahead_laws;
pub mod loose_goal;
pub mod measurement;
pub mod measurement_laws;
pub mod obstacle_laws;
pub mod perturbation;
pub mod perturbation_laws;
pub mod placement_laws;
pub mod plan_laws;
pub mod position_laws;
pub mod probe;
pub mod probe_laws;
pub mod repair;
pub mod repair_laws;
pub mod rows;
pub mod separation_laws;
pub mod seqs;
pub mod set_laws;
pub mod solver;
pub mod solver_laws;
pub mod tally;
pub mod tally_laws;
