//! The solver facade, and the order in which candidate targets are tried.

use crate::arch::ArchSpec;
use crate::config::Config;
use crate::engine::SearchEngine;
use crate::lane_index::LaneIndex;
use crate::loose_goal::{SolveResult, SolveStatus};
use vstd::prelude::*;

verus! {

/// Reusable move synthesis solver, made once per architecture.
#[derive(Debug)]
pub struct MoveSolver {
    engine: SearchEngine,
}

impl MoveSolver {
    /// The architecture-bound state.
    pub closed spec fn the_engine(self) -> SearchEngine {
        self.engine
    }

    /// Construct from a lane index.
    pub fn from_index(index: LaneIndex) -> (solver: MoveSolver)
        ensures
            solver.the_engine().lane_index() == index,
    {
        MoveSolver { engine: SearchEngine::from_index(index) }
    }

    /// Construct from an architecture.
    pub fn from_arch_spec(arch_spec: &ArchSpec) -> (solver: MoveSolver)
        ensures
            solver.the_engine().lane_index().arch() == arch_spec@,
    {
        MoveSolver::from_index(LaneIndex::new(arch_spec.clone()))
    }

    /// Construct from an engine.
    pub fn from_engine(engine: SearchEngine) -> (solver: MoveSolver)
        ensures
            solver.the_engine() == engine,
    {
        MoveSolver { engine }
    }

    /// Borrow the engine.
    pub fn engine(&self) -> (engine: &SearchEngine)
        ensures
            *engine == self.the_engine(),
    {
        &self.engine
    }

    /// Consume the solver and return the engine.
    pub fn into_engine(self) -> (engine: SearchEngine)
        ensures
            engine == self.the_engine(),
    {
        self.engine
    }

    /// Borrow the lane index.
    pub fn index(&self) -> (index: &LaneIndex)
        ensures
            *index == self.the_engine().lane_index(),
    {
        self.engine.index()
    }
}

/// What came of one candidate.
#[derive(Clone, Copy, Debug, PartialEq, Eq, Structural)]
pub struct CandidateAttempt {
    /// Index of the candidate among all that were generated.
    pub candidate_index: usize,
    pub status: SolveStatus,
    pub nodes_expanded: u32,
}

/// What came of all candidates.
#[derive(Debug)]
pub struct MultiSolveResult {
    /// The result of the candidate that succeeded, or of the last one tried.
    pub result: SolveResult,
    /// The candidate that succeeded.
    pub candidate_index: Option<usize>,
    /// Nodes expanded over all candidates.
    pub total_expansions: u32,
    /// How many candidates were tried. Candidates that are not valid are not.
    pub candidates_tried: usize,
    pub attempts: Vec<CandidateAttempt>,
}

/// Nodes expanded over all attempts.
pub open spec fn expansions(attempts: Seq<CandidateAttempt>) -> nat
    decreases attempts.len(),
{
    if attempts.len() == 0 {
        0
    } else {
        expansions(attempts.drop_last()) + attempts.last().nodes_expanded as nat
    }
}

/// The candidate that succeeded, where the last attempt did.
pub open spec fn winner_of(attempts: Seq<CandidateAttempt>) -> Option<usize> {
    if attempts.len() > 0 && attempts.last().status == SolveStatus::Solved {
        Some(attempts.last().candidate_index)
    } else {
        None
    }
}

/// What to do next.
#[derive(Clone, Copy, Debug, PartialEq, Eq, Structural)]
pub enum CandidateStep {
    /// Try the next valid candidate, expanding no more nodes than this.
    Try { max_expansions: Option<u32> },
    /// Try no further candidate.
    Stop,
}

/// Candidates tried in order, with one expansion budget for all of them.
#[derive(Debug)]
pub struct CandidateRun {
    max_expansions: Option<u32>,
    total: u32,
    attempts: Vec<CandidateAttempt>,
    last: Option<SolveResult>,
}

impl CandidateRun {
    /// The budget for all candidates.
    pub closed spec fn budget(self) -> Option<u32> {
        self.max_expansions
    }

    /// The attempts so far.
    pub closed spec fn tried(self) -> Seq<CandidateAttempt> {
        self.attempts@
    }

    /// The result of the last attempt.
    pub closed spec fn last_result(self) -> Option<SolveResult> {
        self.last
    }

    #[verifier::type_invariant]
    spec fn counted(self) -> bool {
        &&& self.total == expansions(self.attempts@)
        &&& is_run(self.max_expansions, self.attempts@)
        &&& self.last is Some <==> self.attempts@.len() > 0
        &&& self.last matches Some(last) ==> last.status == self.attempts@.last().status
            && last.nodes_expanded == self.attempts@.last().nodes_expanded
    }

    /// The next step: stop after a success or where nothing is left of the
    /// budget, else try on with what is left.
    pub open spec fn step(self) -> CandidateStep {
        if winner_of(self.tried()) is Some {
            CandidateStep::Stop
        } else {
            match self.budget() {
                None => CandidateStep::Try { max_expansions: None },
                Some(max) => if expansions(self.tried()) < max {
                    CandidateStep::Try {
                        max_expansions: Some((max - expansions(self.tried())) as u32),
                    }
                } else {
                    CandidateStep::Stop
                },
            }
        }
    }

    /// Start with a budget and no attempt.
    pub fn new(max_expansions: Option<u32>) -> (run: CandidateRun)
        ensures
            run.budget() == max_expansions,
            run.tried() == Seq::<CandidateAttempt>::empty(),
            run.last_result() is None,
    {
        CandidateRun { max_expansions, total: 0, attempts: Vec::new(), last: None }
    }

    /// What to do next.
    pub fn next_step(&self) -> (step: CandidateStep)
        ensures
            step == self.step(),
    {
        proof {
            use_type_invariant(self);
        }
        match &self.last {
            Some(last) => {
                if last.status == SolveStatus::Solved {
                    return CandidateStep::Stop;
                }
            },
            None => {},
        }
        match self.max_expansions {
            None => CandidateStep::Try { max_expansions: None },
            Some(max) => {
                if self.total < max {
                    CandidateStep::Try { max_expansions: Some(max - self.total) }
                } else {
                    CandidateStep::Stop
                }
            },
        }
    }

    /// Take down what came of a candidate.
    pub fn record(self, candidate_index: usize, result: SolveResult) -> (run: CandidateRun)
        requires
            self.step() is Try,
            expansions(self.tried()) + result.nodes_expanded <= u32::MAX,
        ensures
            run.budget() == self.budget(),
            run.tried() == self.tried().push(
                CandidateAttempt {
                    candidate_index,
                    status: result.status,
                    nodes_expanded: result.nodes_expanded,
                },
            ),
            run.last_result() == Some(result),
    {
        proof {
            use_type_invariant(&self);
        }
        let attempt = CandidateAttempt {
            candidate_index,
            status: result.status,
            nodes_expanded: result.nodes_expanded,
        };
        let ghost before = self.attempts@;
        let mut attempts = self.attempts;
        attempts.push(attempt);
        proof {
            assert(attempts@.drop_last() =~= before);
        }
        CandidateRun {
            max_expansions: self.max_expansions,
            total: self.total + result.nodes_expanded,
            attempts,
            last: Some(result),
        }
    }

    /// The outcome: the result of the last attempt, or that nothing can be
    /// solved from `initial` where there was none.
    pub fn finish(self, initial: Config) -> (outcome: MultiSolveResult)
        ensures
            outcome.candidate_index == winner_of(self.tried()),
            outcome.total_expansions == expansions(self.tried()),
            outcome.candidates_tried == self.tried().len(),
            outcome.attempts@ == self.tried(),
            is_run(self.budget(), outcome.attempts@),
            match self.last_result() {
                Some(last) => outcome.result == last,
                None => {
                    &&& self.tried().len() == 0
                    &&& outcome.result.status == SolveStatus::Unsolvable
                    &&& outcome.result.move_layers@.len() == 0
                    &&& outcome.result.goal_config == initial
                    &&& outcome.result.nodes_expanded == 0
                    &&& outcome.result.deadlocks == 0
                },
            },
            outcome.candidate_index is Some <==> outcome.result.status == SolveStatus::Solved,
    {
        proof {
            use_type_invariant(&self);
        }
        let candidates_tried = self.attempts.len();
        match self.last {
            Some(result) => {
                let candidate_index = if result.status == SolveStatus::Solved {
                    Some(self.attempts[candidates_tried - 1].candidate_index)
                } else {
                    None
                };
                MultiSolveResult {
                    result,
                    candidate_index,
                    total_expansions: self.total,
                    candidates_tried,
                    attempts: self.attempts,
                }
            },
            None => MultiSolveResult {
                result: SolveResult {
                    status: SolveStatus::Unsolvable,
                    move_layers: Vec::new(),
                    goal_config: initial,
                    nodes_expanded: 0,
                    deadlocks: 0,
                },
                candidate_index: None,
                total_expansions: self.total,
                candidates_tried,
                attempts: self.attempts,
            },
        }
    }
}

/// A run of which every attempt was made when a step allowed it.
pub open spec fn is_run(budget: Option<u32>, attempts: Seq<CandidateAttempt>) -> bool
    decreases attempts.len(),
{
    attempts.len() > 0 ==> {
        let before = attempts.drop_last();
        &&& is_run(budget, before)
        &&& winner_of(before) is None
        &&& budget matches Some(max) ==> expansions(before) < max
    }
}

/// Candidates are tried until the first success: only the last attempt of a run
/// can have solved.
pub proof fn lemma_first_success_wins(
    budget: Option<u32>,
    attempts: Seq<CandidateAttempt>,
    k: int,
)
    requires
        is_run(budget, attempts),
        0 <= k < attempts.len() - 1,
    ensures
        attempts[k].status != SolveStatus::Solved,
    decreases attempts.len(),
{
    let before = attempts.drop_last();
    if k < before.len() - 1 {
        lemma_first_success_wins(budget, before, k);
    } else {
        assert(attempts[k] == before.last());
    }
}

} // verus!
