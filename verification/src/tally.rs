//! Tallies over assignments and stages of a circuit.

use crate::arch::{ArchModel, LocationAddr};
use crate::loose_goal::{SolveResult, SolveStatus};
use crate::measurement::{is_record_of, AssignmentRecord, PostRepairKind, RepairContext};
use crate::seqs::copied;
use vstd::prelude::*;

verus! {

/// How many records `kind` holds of.
pub open spec fn count_where(
    records: Seq<AssignmentRecord>,
    kind: spec_fn(AssignmentRecord) -> bool,
) -> nat
    decreases records.len(),
{
    if records.len() == 0 {
        0
    } else {
        count_where(records.drop_last(), kind) + if kind(records.last()) {
            1nat
        } else {
            0nat
        }
    }
}

proof fn lemma_count_next(
    records: Seq<AssignmentRecord>,
    kind: spec_fn(AssignmentRecord) -> bool,
    n: int,
)
    requires
        0 <= n < records.len(),
    ensures
        count_where(records.take(n + 1), kind) == count_where(records.take(n), kind) + if kind(
            records[n],
        ) {
            1nat
        } else {
            0nat
        },
        count_where(records.take(n), kind) <= n,
    decreases n,
{
    assert(records.take(n + 1).drop_last() =~= records.take(n));
    if n > 0 {
        lemma_count_next(records, kind, n - 1);
    }
}

proof fn lemma_count_joined(
    a: Seq<AssignmentRecord>,
    b: Seq<AssignmentRecord>,
    kind: spec_fn(AssignmentRecord) -> bool,
)
    ensures
        count_where(a + b, kind) == count_where(a, kind) + count_where(b, kind),
    decreases b.len(),
{
    if b.len() == 0 {
        assert(a + b =~= a);
    } else {
        assert((a + b).drop_last() =~= a + b.drop_last());
        lemma_count_joined(a, b.drop_last(), kind);
    }
}

/// A repair was needed.
pub open spec fn needs_repair() -> spec_fn(AssignmentRecord) -> bool {
    |record: AssignmentRecord| record.needed_repair
}

/// The repair succeeded.
pub open spec fn is_repaired() -> spec_fn(AssignmentRecord) -> bool {
    |record: AssignmentRecord| record.repair_succeeded
}

/// The repair failed.
pub open spec fn is_not_repaired() -> spec_fn(AssignmentRecord) -> bool {
    |record: AssignmentRecord| record.repair_failed
}

/// There was nothing to repair.
pub open spec fn is_empty_assignment() -> spec_fn(AssignmentRecord) -> bool {
    |record: AssignmentRecord| record.empty_assignment
}

/// Something is left to explain.
pub open spec fn still_violates() -> spec_fn(AssignmentRecord) -> bool {
    |record: AssignmentRecord| record.post_repair_detail is Some
}

/// Something is left, for this reason.
pub open spec fn has_kind(kind: PostRepairKind) -> spec_fn(AssignmentRecord) -> bool {
    |record: AssignmentRecord|
        match record.post_repair_detail {
            Some(detail) => detail.kind == kind,
            None => false,
        }
}

/// How many assignments needed a repair, and what came of it.
#[derive(Clone, Copy, Debug, PartialEq, Eq, Structural)]
pub struct AssignmentStats {
    pub total: u64,
    pub needed_repair: u64,
    pub repair_succeeded: u64,
    pub repair_failed: u64,
    pub post_repair_still_violating: u64,
    pub cascade_candidates: u64,
    pub infeasible: u64,
    pub empty_assignments: u64,
}

impl Default for AssignmentStats {
    fn default() -> (stats: AssignmentStats)
        ensures
            stats.tallies(Seq::empty()),
    {
        AssignmentStats {
            total: 0,
            needed_repair: 0,
            repair_succeeded: 0,
            repair_failed: 0,
            post_repair_still_violating: 0,
            cascade_candidates: 0,
            infeasible: 0,
            empty_assignments: 0,
        }
    }
}

impl AssignmentStats {
    /// The tallies are those of `records`.
    pub open spec fn tallies(self, records: Seq<AssignmentRecord>) -> bool {
        &&& self.total == records.len()
        &&& self.needed_repair == count_where(records, needs_repair())
        &&& self.repair_succeeded == count_where(records, is_repaired())
        &&& self.repair_failed == count_where(records, is_not_repaired())
        &&& self.post_repair_still_violating == count_where(records, still_violates())
        &&& self.cascade_candidates == count_where(
            records,
            has_kind(PostRepairKind::CascadeCandidate),
        )
        &&& self.infeasible == count_where(records, has_kind(PostRepairKind::Infeasible))
        &&& self.empty_assignments == count_where(records, is_empty_assignment())
    }

    /// The tallies of both, one by one.
    pub open spec fn is_sum(self, a: Self, b: Self) -> bool {
        &&& self.total == a.total + b.total
        &&& self.needed_repair == a.needed_repair + b.needed_repair
        &&& self.repair_succeeded == a.repair_succeeded + b.repair_succeeded
        &&& self.repair_failed == a.repair_failed + b.repair_failed
        &&& self.post_repair_still_violating == a.post_repair_still_violating
            + b.post_repair_still_violating
        &&& self.cascade_candidates == a.cascade_candidates + b.cascade_candidates
        &&& self.infeasible == a.infeasible + b.infeasible
        &&& self.empty_assignments == a.empty_assignments + b.empty_assignments
    }

    /// The tallies of both fit.
    pub open spec fn fits_with(self, other: Self) -> bool {
        &&& self.total + other.total <= u64::MAX
        &&& self.needed_repair + other.needed_repair <= u64::MAX
        &&& self.repair_succeeded + other.repair_succeeded <= u64::MAX
        &&& self.repair_failed + other.repair_failed <= u64::MAX
        &&& self.post_repair_still_violating + other.post_repair_still_violating <= u64::MAX
        &&& self.cascade_candidates + other.cascade_candidates <= u64::MAX
        &&& self.infeasible + other.infeasible <= u64::MAX
        &&& self.empty_assignments + other.empty_assignments <= u64::MAX
    }

    /// Add the tallies of other assignments.
    pub fn merge(&mut self, other: &Self)
        requires
            old(self).fits_with(*other),
        ensures
            final(self).is_sum(*old(self), *other),
    {
        self.total = self.total + other.total;
        self.needed_repair = self.needed_repair + other.needed_repair;
        self.repair_succeeded = self.repair_succeeded + other.repair_succeeded;
        self.repair_failed = self.repair_failed + other.repair_failed;
        self.post_repair_still_violating = self.post_repair_still_violating
            + other.post_repair_still_violating;
        self.cascade_candidates = self.cascade_candidates + other.cascade_candidates;
        self.infeasible = self.infeasible + other.infeasible;
        self.empty_assignments = self.empty_assignments + other.empty_assignments;
    }

    /// Tally records.
    pub fn from_records(records: &[AssignmentRecord]) -> (stats: AssignmentStats)
        ensures
            stats.tallies(records@),
    {
        let mut stats = AssignmentStats::default();
        let mut i: usize = 0;
        assert(records@.take(0) =~= Seq::empty());
        while i < records.len()
            invariant
                i <= records@.len(),
                stats.tallies(records@.take(i as int)),
            decreases records.len() - i,
        {
            let record = &records[i];
            proof {
                lemma_count_next(records@, needs_repair(), i as int);
                lemma_count_next(records@, is_repaired(), i as int);
                lemma_count_next(records@, is_not_repaired(), i as int);
                lemma_count_next(records@, still_violates(), i as int);
                lemma_count_next(
                    records@,
                    has_kind(PostRepairKind::CascadeCandidate),
                    i as int,
                );
                lemma_count_next(records@, has_kind(PostRepairKind::Infeasible), i as int);
                lemma_count_next(records@, is_empty_assignment(), i as int);
            }
            stats.total = stats.total + 1;
            if record.needed_repair {
                stats.needed_repair = stats.needed_repair + 1;
            }
            if record.repair_succeeded {
                stats.repair_succeeded = stats.repair_succeeded + 1;
            }
            if record.repair_failed {
                stats.repair_failed = stats.repair_failed + 1;
            }
            if record.empty_assignment {
                stats.empty_assignments = stats.empty_assignments + 1;
            }
            match &record.post_repair_detail {
                Some(detail) => {
                    stats.post_repair_still_violating = stats.post_repair_still_violating + 1;
                    match detail.kind {
                        PostRepairKind::CascadeCandidate => {
                            stats.cascade_candidates = stats.cascade_candidates + 1;
                        },
                        PostRepairKind::Infeasible => {
                            stats.infeasible = stats.infeasible + 1;
                        },
                        PostRepairKind::Ambiguous => {},
                    }
                },
                None => {},
            }
            i += 1;
        }
        assert(records@.take(i as int) =~= records@);
        stats
    }

    /// Merging tallies is tallying all records together.
    pub proof fn lemma_merge_is_tally(
        self,
        a: Self,
        a_records: Seq<AssignmentRecord>,
        b: Self,
        b_records: Seq<AssignmentRecord>,
    )
        requires
            a.tallies(a_records),
            b.tallies(b_records),
            self.is_sum(a, b),
        ensures
            self.tallies(a_records + b_records),
    {
        lemma_count_joined(a_records, b_records, needs_repair());
        lemma_count_joined(a_records, b_records, is_repaired());
        lemma_count_joined(a_records, b_records, is_not_repaired());
        lemma_count_joined(a_records, b_records, still_violates());
        lemma_count_joined(
            a_records,
            b_records,
            has_kind(PostRepairKind::CascadeCandidate),
        );
        lemma_count_joined(a_records, b_records, has_kind(PostRepairKind::Infeasible));
        lemma_count_joined(a_records, b_records, is_empty_assignment());
    }

    /// Every repair that was needed succeeded or failed, and only failed ones
    /// leave something to explain, in one way each.
    pub proof fn lemma_outcomes_add_up(self, records: Seq<AssignmentRecord>)
        requires
            self.tallies(records),
            forall|i: int| 0 <= i < records.len() ==> is_consistent(#[trigger] records[i]),
        ensures
            self.needed_repair == self.repair_succeeded + self.repair_failed,
            self.needed_repair <= self.total,
            self.post_repair_still_violating <= self.repair_failed,
            self.cascade_candidates + self.infeasible <= self.post_repair_still_violating,
    {
        lemma_outcomes(records);
    }
}

/// What every record of an assignment keeps to.
pub open spec fn is_consistent(record: AssignmentRecord) -> bool {
    &&& record.needed_repair <==> record.repair_succeeded || record.repair_failed
    &&& !(record.repair_succeeded && record.repair_failed)
    &&& record.post_repair_detail is Some ==> record.repair_failed
}

/// Records of assignments are consistent.
pub proof fn lemma_record_is_consistent(
    record: AssignmentRecord,
    pre: Seq<(u32, u64)>,
    post: Seq<(u32, u64)>,
    pairs: Seq<(u32, u32)>,
    arch: ArchModel,
    ctx: Option<RepairContext<'_>>,
)
    requires
        is_record_of(record, pre, post, pairs, arch, ctx),
    ensures
        is_consistent(record),
{
}

proof fn lemma_outcomes(records: Seq<AssignmentRecord>)
    requires
        forall|i: int| 0 <= i < records.len() ==> is_consistent(#[trigger] records[i]),
    ensures
        count_where(records, needs_repair()) == count_where(records, is_repaired()) + count_where(
            records,
            is_not_repaired(),
        ),
        count_where(records, needs_repair()) <= records.len(),
        count_where(records, still_violates()) <= count_where(records, is_not_repaired()),
        count_where(records, has_kind(PostRepairKind::CascadeCandidate)) + count_where(
            records,
            has_kind(PostRepairKind::Infeasible),
        ) <= count_where(records, still_violates()),
    decreases records.len(),
{
    if records.len() > 0 {
        lemma_outcomes(records.drop_last());
        assert(is_consistent(records[records.len() - 1]));
    }
}

/// How many stages have one, two, three or more pairs.
#[derive(Clone, Copy, Debug, PartialEq, Eq, Structural)]
pub struct PairCountHistogram {
    pub one: u64,
    pub two: u64,
    pub three: u64,
    pub four_plus: u64,
}

impl Default for PairCountHistogram {
    fn default() -> (histogram: PairCountHistogram)
        ensures
            histogram == (PairCountHistogram { one: 0, two: 0, three: 0, four_plus: 0 }),
    {
        PairCountHistogram { one: 0, two: 0, three: 0, four_plus: 0 }
    }
}

impl PairCountHistogram {
    /// Stages in all.
    pub open spec fn stages(self) -> int {
        self.one + self.two + self.three + self.four_plus
    }

    /// Count a stage of `n` pairs. A stage without pairs counts for nothing.
    pub fn record(&mut self, n: usize)
        requires
            n == 1 ==> old(self).one < u64::MAX,
            n == 2 ==> old(self).two < u64::MAX,
            n == 3 ==> old(self).three < u64::MAX,
            n > 3 ==> old(self).four_plus < u64::MAX,
        ensures
            *final(self) == match n {
                0 => *old(self),
                1 => (PairCountHistogram { one: (old(self).one + 1) as u64, ..*old(self) }),
                2 => (PairCountHistogram { two: (old(self).two + 1) as u64, ..*old(self) }),
                3 => (PairCountHistogram { three: (old(self).three + 1) as u64, ..*old(self) }),
                _ => (PairCountHistogram {
                    four_plus: (old(self).four_plus + 1) as u64,
                    ..*old(self)
                }),
            },
            final(self).stages() == old(self).stages() + if n == 0 {
                0int
            } else {
                1int
            },
    {
        match n {
            0 => {},
            1 => {
                self.one = self.one + 1;
            },
            2 => {
                self.two = self.two + 1;
            },
            3 => {
                self.three = self.three + 1;
            },
            _ => {
                self.four_plus = self.four_plus + 1;
            },
        }
    }

    /// Add the stages of another histogram.
    pub fn merge(&mut self, other: &Self)
        requires
            old(self).one + other.one <= u64::MAX,
            old(self).two + other.two <= u64::MAX,
            old(self).three + other.three <= u64::MAX,
            old(self).four_plus + other.four_plus <= u64::MAX,
        ensures
            final(self).one == old(self).one + other.one,
            final(self).two == old(self).two + other.two,
            final(self).three == old(self).three + other.three,
            final(self).four_plus == old(self).four_plus + other.four_plus,
            final(self).stages() == old(self).stages() + other.stages(),
    {
        self.one = self.one + other.one;
        self.two = self.two + other.two;
        self.three = self.three + other.three;
        self.four_plus = self.four_plus + other.four_plus;
    }

    /// Stages in all.
    pub fn total_stages(&self) -> (total: u64)
        requires
            self.stages() <= u64::MAX,
        ensures
            total == self.stages(),
    {
        self.one + self.two + self.three + self.four_plus
    }
}

/// Where the stages of a circuit start: each where it says, or, in a chained
/// circuit, where the last solved stage ended.
#[derive(Debug)]
pub struct StageChain {
    pub chained: bool,
    pub reached: Option<Vec<(u32, LocationAddr)>>,
}

impl StageChain {
    /// Nothing reached yet.
    pub fn new(chained: bool) -> (chain: StageChain)
        ensures
            chain.chained == chained,
            chain.reached is None,
    {
        StageChain { chained, reached: None }
    }

    /// Where a stage that says `initial` starts.
    pub fn start(&self, initial: &[(u32, LocationAddr)]) -> (start: Vec<(u32, LocationAddr)>)
        ensures
            start@ == match self.reached {
                Some(reached) if self.chained => reached@,
                _ => initial@,
            },
    {
        match &self.reached {
            Some(reached) if self.chained => copied(reached.as_slice()),
            _ => copied(initial),
        }
    }

    /// Go on from the result of a stage.
    pub fn advance(&mut self, result: &SolveResult)
        ensures
            final(self).chained == old(self).chained,
            if old(self).chained && result.status == SolveStatus::Solved {
                final(self).reached matches Some(reached) && reached@ == result.goal_config@
            } else {
                final(self).reached == old(self).reached
            },
    {
        if self.chained && result.status == SolveStatus::Solved {
            self.reached = Some(copied(result.goal_config.entries()));
        }
    }
}

/// The name of a status.
pub fn status_str(status: SolveStatus) -> (name: &'static str)
    ensures
        name == match status {
            SolveStatus::Solved => "Solved",
            SolveStatus::Unsolvable => "Unsolvable",
            SolveStatus::BudgetExceeded => "BudgetExceeded",
        },
{
    match status {
        SolveStatus::Solved => "Solved",
        SolveStatus::Unsolvable => "Unsolvable",
        SolveStatus::BudgetExceeded => "BudgetExceeded",
    }
}

} // verus!
