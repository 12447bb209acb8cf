//! How the counts of a probe change, event by event and depth by depth.

use crate::config::ordered_by_qubit;
use crate::loose_goal::{SolveStatus, Strategy};
use crate::probe::{
    count_at, count_within, first_search, is_max_depth, lemma_raised_within, raised,
    second_search, takes_better_of_both, DeadlockChoice, DepthBuckets, Estimate, ProbeSearch,
    ProbeSettings, SearchEvent, SeparationProbe, SeparationProbeStats,
};
use crate::separation_laws::{all_stand_apart, lemma_separated_is_standing_apart};
use crate::tally_laws::one_if;
use vstd::prelude::*;

verus! {

/// How often a depth was counted.
pub open spec fn counted(counts: Map<u32, u64>, depth: u32) -> int {
    if counts.contains_key(depth) {
        counts[depth] as int
    } else {
        0
    }
}

/// An expanded node counts once in all and once at its depth. It counts as violating
/// exactly where there are two pairs or more and they do not all stand apart. Other
/// depths stay as they are.
pub proof fn lemma_expanded_node(
    probe: &mut SeparationProbe<'_>,
    depth: u32,
    config: &crate::config::Config,
    other: u32,
)
    requires
        ordered_by_qubit(config@),
        old(probe).has_room_for(SearchEvent::NodeExpanded { depth, config }),
        call_ensures(
            SeparationProbe::on_event,
            (probe, SearchEvent::NodeExpanded { depth, config }),
            (),
        ),
    ensures
        ({
            let (before, after) = (old(probe).stats, final(probe).stats);
            let pairs = old(probe).pairs@;
            let bad = pairs.len() >= 2 && !all_stand_apart(
                config@,
                pairs,
                old(probe).index.arch(),
            );
            &&& after.total_expanded == before.total_expanded + 1
            &&& after.violating_expanded == before.violating_expanded + one_if(bad)
            &&& counted(after.depth_total@, other) == counted(before.depth_total@, other) + one_if(
                other == depth,
            )
            &&& counted(after.depth_violating@, other) == counted(before.depth_violating@, other)
                + one_if(other == depth && bad)
            &&& final(probe).pairs == old(probe).pairs
        }),
{
    lemma_separated_is_standing_apart(config@, old(probe).pairs@, old(probe).index.arch());
}

/// Other events count for nothing.
pub proof fn lemma_other_event(probe: &mut SeparationProbe<'_>)
    requires
        call_ensures(SeparationProbe::on_event, (probe, SearchEvent::Other), ()),
    ensures
        final(probe).stats == old(probe).stats,
{
}

/// Merged counts are those of both, in all and at every depth.
pub proof fn lemma_merged_counts(
    stats: &mut SeparationProbeStats,
    other: SeparationProbeStats,
    depth: u32,
)
    requires
        counted(old(stats).depth_total@, depth) + counted(other.depth_total@, depth) <= u64::MAX,
        counted(old(stats).depth_violating@, depth) + counted(other.depth_violating@, depth)
            <= u64::MAX,
        call_ensures(SeparationProbeStats::merge, (stats, other), ()),
    ensures
        final(stats).total_expanded - old(stats).total_expanded == other.total_expanded,
        final(stats).violating_expanded - old(stats).violating_expanded
            == other.violating_expanded,
        counted(final(stats).depth_total@, depth) == counted(old(stats).depth_total@, depth)
            + counted(other.depth_total@, depth),
        counted(final(stats).depth_violating@, depth) == counted(
            old(stats).depth_violating@,
            depth,
        ) + counted(other.depth_violating@, depth),
{
}

/// The greatest depth is one that was reached, and no other is greater; it is 0 where
/// none was.
pub proof fn lemma_max_depth(stats: &SeparationProbeStats, max: u32, depth: u32)
    requires
        call_ensures(SeparationProbeStats::max_depth, (stats,), max),
        stats.depth_total@.contains_key(depth),
    ensures
        stats.depth_total@.contains_key(max),
        depth <= max,
{
    assert(stats.depth_total@.dom().contains(depth));
}

/// One more node at a depth that was reached before counts in the bucket of its third of
/// the depths: the shallow one up to a third of the greatest depth, the middle one up to
/// two thirds, and else the deep one. Where no node is deeper than 0, it is shallow.
pub proof fn lemma_bucket_of_depth(
    stats: &SeparationProbeStats,
    more: &SeparationProbeStats,
    max: u32,
    depth: u32,
    bad: bool,
    before: DepthBuckets,
    after: DepthBuckets,
)
    requires
        stats.wf(),
        more.wf(),
        2 * max <= u32::MAX,
        stats.depth_total@.contains_key(max),
        forall|d: u32| #[trigger] stats.depth_total@.contains_key(d) ==> d <= max,
        stats.depth_total@.contains_key(depth),
        stats.total_expanded + 1 == more.total_expanded,
        stats.violating_expanded + one_if(bad) == more.violating_expanded,
        more.depth_total@ == stats.depth_total@.insert(
            depth,
            (counted(stats.depth_total@, depth) + 1) as u64,
        ),
        counted(stats.depth_total@, depth) < u64::MAX,
        counted(stats.depth_violating@, depth) < u64::MAX,
        if bad {
            more.depth_violating@ == stats.depth_violating@.insert(
                depth,
                (counted(stats.depth_violating@, depth) + 1) as u64,
            )
        } else {
            more.depth_violating@ == stats.depth_violating@
        },
        call_ensures(SeparationProbeStats::depth_buckets, (stats,), before),
        call_ensures(SeparationProbeStats::depth_buckets, (more,), after),
    ensures
        ({
            let shallow = 3 * depth <= max;
            let deep = 3 * depth > 2 * max;
            let middle = !shallow && !deep;
            &&& after.shallow.total == before.shallow.total + one_if(shallow)
            &&& after.middle.total == before.middle.total + one_if(middle)
            &&& after.deep.total == before.deep.total + one_if(deep)
            &&& after.shallow.violating == before.shallow.violating + one_if(shallow && bad)
            &&& after.middle.violating == before.middle.violating + one_if(middle && bad)
            &&& after.deep.violating == before.deep.violating + one_if(deep && bad)
        }),
{
    let (a, b) = (*stats, *more);
    assert(a.depth_total@.dom().contains(depth));
    let m1 = choose|m: u32| #[trigger] is_max_depth(a.depth_total@, m) && before == a.thirds(m);
    assert(b.depth_total@.dom().contains(depth));
    let m2 = choose|m: u32| #[trigger] is_max_depth(b.depth_total@, m) && after == b.thirds(m);
    assert(b.depth_total@.contains_key(max));
    assert(m1 == max);
    assert(b.depth_total@.contains_key(m2));
    assert(a.depth_total@.contains_key(m2));
    assert(m2 == max);
    if max > 0 {
        a.lemma_buckets_fit(max);
        b.lemma_buckets_fit(max);
        let (first, second) = ((max / 3) as int, (2 * max) / 3);
        lemma_bucket_raised(a, b, depth, bad, 0, first + 1);
        lemma_bucket_raised(a, b, depth, bad, first + 1, second + 1);
        lemma_bucket_raised(a, b, depth, bad, second + 1, max + 1);
    }
}

proof fn lemma_bucket_raised(
    a: SeparationProbeStats,
    b: SeparationProbeStats,
    depth: u32,
    bad: bool,
    lo: int,
    hi: int,
)
    requires
        0 <= lo,
        hi <= u32::MAX + 1,
        a.depth_total@.contains_key(depth),
        counted(a.depth_total@, depth) < u64::MAX,
        counted(a.depth_violating@, depth) < u64::MAX,
        b.depth_total@ == a.depth_total@.insert(
            depth,
            (counted(a.depth_total@, depth) + 1) as u64,
        ),
        if bad {
            b.depth_violating@ == a.depth_violating@.insert(
                depth,
                (counted(a.depth_violating@, depth) + 1) as u64,
            )
        } else {
            b.depth_violating@ == a.depth_violating@
        },
    ensures
        count_within(b.depth_total@, lo, hi) == count_within(a.depth_total@, lo, hi) + one_if(
            lo <= depth < hi,
        ),
        count_within(b.violating_reached(), lo, hi) == count_within(a.violating_reached(), lo, hi)
            + one_if(lo <= depth < hi && bad),
{
    assert(b.depth_total@ == raised(a.depth_total@, depth, 1));
    lemma_raised_within(a.depth_total@, depth, 1, lo, hi);
    let (before, after) = (a.violating_reached(), b.violating_reached());
    assert(b.depth_total@.dom() =~= a.depth_total@.dom());
    assert(count_at(before, depth) == counted(a.depth_violating@, depth));
    if bad {
        assert(after =~= raised(before, depth, 1));
        lemma_raised_within(before, depth, 1, lo, hi);
    } else {
        assert(after =~= before);
    }
}

/// Every strategy but one can be probed. Best first starts best first, without a depth;
/// the others start diving. Only a cascade searches again, once it has solved, and no
/// deeper than what it found.
pub proof fn lemma_probe_searches(
    strategy: Strategy,
    status: SolveStatus,
    depth: u32,
    first: Option<ProbeSearch>,
    second: Option<ProbeSearch>,
    better: bool,
)
    requires
        call_ensures(first_search, (strategy,), first),
        call_ensures(second_search, (strategy, status, depth), second),
        call_ensures(takes_better_of_both, (status,), better),
    ensures
        first is None <==> strategy is Entropy,
        first is Some ==> (first->0 is AStar <==> strategy is AStar),
        first is Some && first->0 is AStar ==> (first->0)->max_depth is None,
        second is Some <==> strategy is Cascade && status is Solved,
        second is Some ==> second->0 is AStar && (second->0)->max_depth == Some(depth),
        better <==> status is Solved,
{
}

/// Diving follows the options and sums distances up, unweighted and without a depth. Best
/// first moves what is in the way, looks at the largest distance, weighted, and keeps its
/// depth. Neither is seeded.
pub proof fn lemma_probe_settings(search: ProbeSearch, settings: ProbeSettings)
    requires
        call_ensures(ProbeSearch::settings, (search,), settings),
    ensures
        settings.seed == 0,
        settings.weighted <==> search is AStar,
        settings.deadlocks == DeadlockChoice::MoveBlockers <==> search is AStar,
        settings.estimate == Estimate::Largest <==> search is AStar,
        search is AStar ==> settings.max_depth == search->max_depth,
        search is Ids ==> settings.max_depth is None,
{
}

} // verus!
