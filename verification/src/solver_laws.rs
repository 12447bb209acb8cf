//! How a run over candidates goes on, attempt by attempt.

use crate::config::Config;
use crate::loose_goal::{SolveResult, SolveStatus};
use crate::solver::{CandidateAttempt, CandidateRun, CandidateStep, MultiSolveResult};
use vstd::prelude::*;

verus! {

/// A run starts with the whole budget, and stops at once only where there is none.
pub proof fn lemma_run_starts(budget: Option<u32>, run: CandidateRun, step: CandidateStep)
    requires
        call_ensures(CandidateRun::new, (budget,), run),
        call_ensures(CandidateRun::next_step, (&run,), step),
    ensures
        budget == Some(0u32) ==> step is Stop,
        budget != Some(0u32) ==> step == (CandidateStep::Try { max_expansions: budget }),
{
}

/// After an attempt a run stops if it solved or used up what was left of the budget,
/// and else goes on with the rest.
pub proof fn lemma_run_goes_on(
    run: CandidateRun,
    left: Option<u32>,
    candidate_index: usize,
    result: SolveResult,
    next: CandidateRun,
    step: CandidateStep,
)
    requires
        call_ensures(
            CandidateRun::next_step,
            (&run,),
            CandidateStep::Try { max_expansions: left },
        ),
        call_ensures(CandidateRun::record, (run, candidate_index, result), next),
        call_ensures(CandidateRun::next_step, (&next,), step),
    ensures
        result.status == SolveStatus::Solved ==> step is Stop,
        result.status != SolveStatus::Solved ==> match left {
            None => step == (CandidateStep::Try { max_expansions: None }),
            Some(left) => if result.nodes_expanded < left {
                step == (CandidateStep::Try {
                    max_expansions: Some((left - result.nodes_expanded) as u32),
                })
            } else {
                step is Stop
            },
        },
{
    let attempt = CandidateAttempt {
        candidate_index,
        status: result.status,
        nodes_expanded: result.nodes_expanded,
    };
    assert(next.tried() == run.tried().push(attempt));
    assert(next.tried().drop_last() =~= run.tried());
    assert(next.tried().last() == attempt);
}

/// What one more attempt adds to the outcome: itself, its nodes, and its result; the
/// candidate wins if it solved.
pub proof fn lemma_outcome_grows(
    run: CandidateRun,
    candidate_index: usize,
    result: SolveResult,
    next: CandidateRun,
    initial: Config,
    before: MultiSolveResult,
    after: MultiSolveResult,
)
    requires
        call_ensures(CandidateRun::record, (run, candidate_index, result), next),
        call_ensures(CandidateRun::finish, (run, initial), before),
        call_ensures(CandidateRun::finish, (next, initial), after),
    ensures
        after.result == result,
        after.total_expansions == before.total_expansions + result.nodes_expanded,
        after.candidates_tried == before.candidates_tried + 1,
        after.attempts@.len() == before.attempts@.len() + 1,
        forall|k: int|
            0 <= k < before.attempts@.len() ==> #[trigger] after.attempts@[k]
                == before.attempts@[k],
        after.attempts@.last().candidate_index == candidate_index,
        after.attempts@.last().status == result.status,
        after.attempts@.last().nodes_expanded == result.nodes_expanded,
        result.status == SolveStatus::Solved ==> after.candidate_index == Some(candidate_index),
        result.status != SolveStatus::Solved ==> after.candidate_index is None,
{
    let attempt = CandidateAttempt {
        candidate_index,
        status: result.status,
        nodes_expanded: result.nodes_expanded,
    };
    assert(next.tried() == run.tried().push(attempt));
    assert(next.tried().drop_last() =~= run.tried());
    assert(next.tried().last() == attempt);
}

/// A run without attempts ends where it started, with nothing expanded and nothing
/// solved.
pub proof fn lemma_empty_outcome(
    budget: Option<u32>,
    run: CandidateRun,
    initial: Config,
    outcome: MultiSolveResult,
)
    requires
        call_ensures(CandidateRun::new, (budget,), run),
        call_ensures(CandidateRun::finish, (run, initial), outcome),
    ensures
        outcome.candidate_index is None,
        outcome.total_expansions == 0,
        outcome.candidates_tried == 0,
        outcome.attempts@.len() == 0,
        outcome.result.status == SolveStatus::Unsolvable,
        outcome.result.goal_config == initial,
        outcome.result.move_layers@.len() == 0,
        outcome.result.nodes_expanded == 0,
        outcome.result.deadlocks == 0,
{
}

} // verus!
