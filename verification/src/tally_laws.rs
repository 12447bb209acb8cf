//! How tallies change, record by record and stage by stage.

use crate::arch::LocationAddr;
use crate::loose_goal::{SolveResult, SolveStatus};
use crate::measurement::{AssignmentRecord, PostRepairKind};
use crate::tally::{AssignmentStats, PairCountHistogram, StageChain};
use vstd::prelude::*;

verus! {

/// One for what is the case.
pub open spec fn one_if(b: bool) -> int {
    if b {
        1
    } else {
        0
    }
}

/// Whether something is left to explain, for this reason.
pub open spec fn left_with(record: AssignmentRecord, kind: PostRepairKind) -> bool {
    match record.post_repair_detail {
        Some(detail) => detail.kind == kind,
        None => false,
    }
}

/// One more record adds one to each tally that it belongs to, and nothing to the
/// others.
pub proof fn lemma_one_more_record(
    records: &[AssignmentRecord],
    more: &[AssignmentRecord],
    record: AssignmentRecord,
    before: AssignmentStats,
    after: AssignmentStats,
)
    requires
        call_ensures(AssignmentStats::from_records, (records,), before),
        call_ensures(AssignmentStats::from_records, (more,), after),
        more@ == records@.push(record),
    ensures
        after.total == before.total + 1,
        after.needed_repair == before.needed_repair + one_if(record.needed_repair),
        after.repair_succeeded == before.repair_succeeded + one_if(record.repair_succeeded),
        after.repair_failed == before.repair_failed + one_if(record.repair_failed),
        after.post_repair_still_violating == before.post_repair_still_violating + one_if(
            record.post_repair_detail is Some,
        ),
        after.cascade_candidates == before.cascade_candidates + one_if(
            left_with(record, PostRepairKind::CascadeCandidate),
        ),
        after.infeasible == before.infeasible + one_if(
            left_with(record, PostRepairKind::Infeasible),
        ),
        after.empty_assignments == before.empty_assignments + one_if(record.empty_assignment),
{
    assert(more@.drop_last() =~= records@);
    assert(more@.last() == record);
}

/// Without records every tally is 0.
pub proof fn lemma_no_records(records: &[AssignmentRecord], stats: AssignmentStats)
    requires
        call_ensures(AssignmentStats::from_records, (records,), stats),
        records@.len() == 0,
    ensures
        stats == (AssignmentStats {
            total: 0,
            needed_repair: 0,
            repair_succeeded: 0,
            repair_failed: 0,
            post_repair_still_violating: 0,
            cascade_candidates: 0,
            infeasible: 0,
            empty_assignments: 0,
        }),
{
}

/// Tallies of two lists of records, merged, are those of both lists.
pub proof fn lemma_merged(
    stats: &mut AssignmentStats,
    other: AssignmentStats,
    first: &[AssignmentRecord],
    second: &[AssignmentRecord],
    both: &[AssignmentRecord],
    all: AssignmentStats,
)
    requires
        call_ensures(AssignmentStats::from_records, (first,), *old(stats)),
        call_ensures(AssignmentStats::from_records, (second,), other),
        call_ensures(AssignmentStats::from_records, (both,), all),
        both@ == first@ + second@,
        call_ensures(AssignmentStats::merge, (stats, &other), ()),
    ensures
        *final(stats) == all,
{
    final(stats).lemma_merge_is_tally(*old(stats), first@, other, second@);
}

/// A stage counts once, under its number of pairs, and not at all without pairs.
pub proof fn lemma_stage_counts_once(histogram: &mut PairCountHistogram, n: usize)
    requires
        call_ensures(PairCountHistogram::record, (histogram, n), ()),
        n == 1 ==> old(histogram).one < u64::MAX,
        n == 2 ==> old(histogram).two < u64::MAX,
        n == 3 ==> old(histogram).three < u64::MAX,
        n > 3 ==> old(histogram).four_plus < u64::MAX,
    ensures
        final(histogram).one == old(histogram).one + one_if(n == 1),
        final(histogram).two == old(histogram).two + one_if(n == 2),
        final(histogram).three == old(histogram).three + one_if(n == 3),
        final(histogram).four_plus == old(histogram).four_plus + one_if(n > 3),
{
}

/// Merged histograms hold the stages of both, number by number.
pub proof fn lemma_merged_histograms(histogram: &mut PairCountHistogram, other: PairCountHistogram)
    requires
        call_ensures(PairCountHistogram::merge, (histogram, &other), ()),
    ensures
        final(histogram).one - old(histogram).one == other.one,
        final(histogram).two - old(histogram).two == other.two,
        final(histogram).three - old(histogram).three == other.three,
        final(histogram).four_plus - old(histogram).four_plus == other.four_plus,
{
}

/// The stages in all are one more after each stage that has pairs.
pub proof fn lemma_total_stages(
    histogram: &mut PairCountHistogram,
    n: usize,
    before: u64,
    after: u64,
)
    requires
        n == 1 ==> old(histogram).one < u64::MAX,
        n == 2 ==> old(histogram).two < u64::MAX,
        n == 3 ==> old(histogram).three < u64::MAX,
        n > 3 ==> old(histogram).four_plus < u64::MAX,
        call_ensures(PairCountHistogram::total_stages, (&*old(histogram),), before),
        call_ensures(PairCountHistogram::record, (histogram, n), ()),
        call_ensures(PairCountHistogram::total_stages, (&*final(histogram),), after),
    ensures
        after == before + one_if(n > 0),
        before == old(histogram).one + old(histogram).two + old(histogram).three
            + old(histogram).four_plus,
{
}

/// The stage after a solved one starts where that one ended if the circuit is
/// chained, and where it says otherwise; a stage that was not solved changes
/// nothing.
pub proof fn lemma_chain(
    chain: &mut StageChain,
    result: SolveResult,
    initial: &[(u32, LocationAddr)],
    before: Vec<(u32, LocationAddr)>,
    after: Vec<(u32, LocationAddr)>,
)
    requires
        call_ensures(StageChain::start, (&*old(chain), initial), before),
        call_ensures(StageChain::advance, (chain, &result), ()),
        call_ensures(StageChain::start, (&*final(chain), initial), after),
    ensures
        !old(chain).chained ==> before@ == initial@ && after@ == initial@,
        old(chain).reached is None ==> before@ == initial@,
        old(chain).chained && result.status == SolveStatus::Solved ==> after@
            == result.goal_config@,
        result.status != SolveStatus::Solved ==> after@ == before@,
{
}

} // verus!
