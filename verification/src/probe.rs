//! How often a search visits configurations whose pairs are too close.

use crate::config::{place_map, Config};
use crate::goals::{pairs_grid_separated, separated};
use crate::lane_index::LaneIndex;
use crate::loose_goal::{InnerStrategy, SolveStatus, Strategy};
use std::collections::HashMap;
use vstd::prelude::*;

verus! {

broadcast use vstd::std_specs::hash::group_hash_axioms;

/// What `counts` says of a depth; nothing is none.
pub open spec fn count_at(counts: Map<u32, u64>, depth: u32) -> u64 {
    if counts.contains_key(depth) {
        counts[depth]
    } else {
        0
    }
}

/// The counts of the depths from `lo` to before `hi` together.
pub open spec fn count_within(counts: Map<u32, u64>, lo: int, hi: int) -> nat
    decreases hi - lo,
{
    if hi <= lo {
        0
    } else {
        count_within(counts, lo, hi - 1) + count_at(counts, (hi - 1) as u32) as nat
    }
}

/// The counts of all depths together.
pub open spec fn count_all(counts: Map<u32, u64>) -> nat {
    count_within(counts, 0, u32::MAX + 1)
}

/// `counts` with `n` more at a depth.
pub open spec fn raised(counts: Map<u32, u64>, depth: u32, n: u64) -> Map<u32, u64> {
    counts.insert(depth, (count_at(counts, depth) + n) as u64)
}

/// The counts of both, depth by depth.
pub open spec fn summed(a: Map<u32, u64>, b: Map<u32, u64>) -> Map<u32, u64> {
    Map::new(
        |depth: u32| a.contains_key(depth) || b.contains_key(depth),
        |depth: u32| (count_at(a, depth) + count_at(b, depth)) as u64,
    )
}

/// The counts of both fit.
pub open spec fn sums_fit(a: Map<u32, u64>, b: Map<u32, u64>) -> bool {
    forall|depth: u32| #[trigger] count_at(a, depth) + count_at(b, depth) <= u64::MAX
}

pub proof fn lemma_raised_within(counts: Map<u32, u64>, depth: u32, n: u64, lo: int, hi: int)
    requires
        count_at(counts, depth) + n <= u64::MAX,
        0 <= lo,
        hi <= u32::MAX + 1,
    ensures
        count_within(raised(counts, depth, n), lo, hi) == count_within(counts, lo, hi) + (if lo
            <= depth < hi {
            n as nat
        } else {
            0
        }),
    decreases hi - lo,
{
    if lo < hi {
        lemma_raised_within(counts, depth, n, lo, hi - 1);
    }
}

proof fn lemma_summed_within(a: Map<u32, u64>, b: Map<u32, u64>, lo: int, hi: int)
    requires
        sums_fit(a, b),
        0 <= lo,
        hi <= u32::MAX + 1,
    ensures
        count_within(summed(a, b), lo, hi) == count_within(a, lo, hi) + count_within(b, lo, hi),
    decreases hi - lo,
{
    if lo < hi {
        lemma_summed_within(a, b, lo, hi - 1);
        assert(count_at(a, (hi - 1) as u32) + count_at(b, (hi - 1) as u32) <= u64::MAX);
    }
}

proof fn lemma_within_splits(counts: Map<u32, u64>, lo: int, mid: int, hi: int)
    requires
        lo <= mid <= hi,
    ensures
        count_within(counts, lo, hi) == count_within(counts, lo, mid) + count_within(
            counts,
            mid,
            hi,
        ),
    decreases hi - mid,
{
    if mid < hi {
        lemma_within_splits(counts, lo, mid, hi - 1);
    }
}

proof fn lemma_within_zero(counts: Map<u32, u64>, lo: int, hi: int)
    requires
        0 <= lo,
        hi <= u32::MAX + 1,
        forall|depth: u32| lo <= depth < hi ==> #[trigger] count_at(counts, depth) == 0,
    ensures
        count_within(counts, lo, hi) == 0,
    decreases hi - lo,
{
    if lo < hi {
        lemma_within_zero(counts, lo, hi - 1);
        assert(count_at(counts, (hi - 1) as u32) == 0);
    }
}

proof fn lemma_within_bounded(a: Map<u32, u64>, b: Map<u32, u64>, lo: int, hi: int)
    requires
        0 <= lo,
        hi <= u32::MAX + 1,
        forall|depth: u32| #[trigger] count_at(a, depth) <= count_at(b, depth),
    ensures
        count_within(a, lo, hi) <= count_within(b, lo, hi),
    decreases hi - lo,
{
    if lo < hi {
        lemma_within_bounded(a, b, lo, hi - 1);
        assert(count_at(a, (hi - 1) as u32) <= count_at(b, (hi - 1) as u32));
    }
}

/// No count is more than all together.
proof fn lemma_part_of_all(counts: Map<u32, u64>, lo: int, hi: int)
    requires
        0 <= lo <= hi <= u32::MAX + 1,
    ensures
        count_within(counts, lo, hi) <= count_all(counts),
{
    lemma_within_splits(counts, 0, lo, u32::MAX + 1);
    lemma_within_splits(counts, lo, hi, u32::MAX + 1);
}

proof fn lemma_one_of_all(counts: Map<u32, u64>, depth: u32)
    ensures
        count_at(counts, depth) <= count_all(counts),
{
    lemma_part_of_all(counts, depth as int, depth + 1);
    assert(count_within(counts, depth as int, depth as int) == 0);
    assert(count_within(counts, depth as int, depth + 1) == count_at(counts, depth));
}

/// Counts of expanded nodes, in all and by depth, and how many of them had
/// pairs too close to each other.
#[derive(Debug)]
pub struct SeparationProbeStats {
    pub total_expanded: u64,
    pub violating_expanded: u64,
    pub depth_total: HashMap<u32, u64>,
    pub depth_violating: HashMap<u32, u64>,
}

impl Default for SeparationProbeStats {
    fn default() -> (stats: SeparationProbeStats)
        ensures
            stats.wf(),
            stats.total_expanded == 0,
            stats.violating_expanded == 0,
            stats.depth_total@ == Map::<u32, u64>::empty(),
            stats.depth_violating@ == Map::<u32, u64>::empty(),
    {
        proof {
            lemma_within_zero(Map::<u32, u64>::empty(), 0, u32::MAX + 1);
        }
        SeparationProbeStats {
            total_expanded: 0,
            violating_expanded: 0,
            depth_total: HashMap::new(),
            depth_violating: HashMap::new(),
        }
    }
}

/// Expanded nodes in a range of depths, and how many of them violate.
#[derive(Clone, Copy, Debug, PartialEq, Eq, Structural)]
pub struct DepthBucket {
    pub total: u64,
    pub violating: u64,
}

/// The shallow, the middle and the deep third of the depths.
#[derive(Clone, Copy, Debug, PartialEq, Eq, Structural)]
pub struct DepthBuckets {
    pub shallow: DepthBucket,
    pub middle: DepthBucket,
    pub deep: DepthBucket,
}

/// `max` is the greatest depth that `counts` knows; 0 where it knows none.
pub open spec fn is_max_depth(counts: Map<u32, u64>, max: u32) -> bool {
    &&& forall|depth: u32| #[trigger] counts.contains_key(depth) ==> depth <= max
    &&& counts.contains_key(max) || (max == 0 && counts.dom() == Set::<u32>::empty())
}

impl SeparationProbeStats {
    /// The depths add up, and nothing violates that was not expanded.
    pub open spec fn wf(self) -> bool {
        &&& self.total_expanded == count_all(self.depth_total@)
        &&& self.violating_expanded == count_all(self.depth_violating@)
        &&& forall|depth: u32| #[trigger]
            count_at(self.depth_violating@, depth) <= count_at(self.depth_total@, depth)
    }

    /// The counts of both fit.
    pub open spec fn fits_with(self, other: Self) -> bool {
        &&& self.total_expanded + other.total_expanded <= u64::MAX
        &&& self.violating_expanded + other.violating_expanded <= u64::MAX
        &&& sums_fit(self.depth_total@, other.depth_total@)
        &&& sums_fit(self.depth_violating@, other.depth_violating@)
    }

    /// No more nodes violate than are expanded.
    pub proof fn lemma_violating_at_most_total(self)
        requires
            self.wf(),
        ensures
            self.violating_expanded <= self.total_expanded,
    {
        lemma_within_bounded(self.depth_violating@, self.depth_total@, 0, u32::MAX + 1);
    }

    /// Where the numbers of expanded nodes fit together, all counts do.
    pub proof fn lemma_totals_fit(self, other: Self)
        requires
            self.wf(),
            other.wf(),
            self.total_expanded + other.total_expanded <= u64::MAX,
        ensures
            self.fits_with(other),
    {
        self.lemma_violating_at_most_total();
        other.lemma_violating_at_most_total();
        assert forall|depth: u32| #[trigger]
            count_at(self.depth_total@, depth) + count_at(other.depth_total@, depth)
                <= u64::MAX by {
            lemma_one_of_all(self.depth_total@, depth);
            lemma_one_of_all(other.depth_total@, depth);
        }
        assert forall|depth: u32| #[trigger]
            count_at(self.depth_violating@, depth) + count_at(other.depth_violating@, depth)
                <= u64::MAX by {
            lemma_one_of_all(self.depth_violating@, depth);
            lemma_one_of_all(other.depth_violating@, depth);
        }
    }

    /// Add the counts of another probe.
    pub fn merge(&mut self, other: Self)
        requires
            old(self).fits_with(other),
        ensures
            final(self).total_expanded == old(self).total_expanded + other.total_expanded,
            final(self).violating_expanded == old(self).violating_expanded
                + other.violating_expanded,
            final(self).depth_total@ == summed(old(self).depth_total@, other.depth_total@),
            final(self).depth_violating@ == summed(
                old(self).depth_violating@,
                other.depth_violating@,
            ),
            old(self).wf() && other.wf() ==> final(self).wf(),
    {
        self.total_expanded = self.total_expanded + other.total_expanded;
        self.violating_expanded = self.violating_expanded + other.violating_expanded;
        add_counts(&mut self.depth_total, &other.depth_total);
        add_counts(&mut self.depth_violating, &other.depth_violating);
        proof {
            if old(self).wf() && other.wf() {
                lemma_summed_within(old(self).depth_total@, other.depth_total@, 0, u32::MAX + 1);
                lemma_summed_within(
                    old(self).depth_violating@,
                    other.depth_violating@,
                    0,
                    u32::MAX + 1,
                );
                assert forall|depth: u32| #[trigger]
                    count_at(self.depth_violating@, depth) <= count_at(
                        self.depth_total@,
                        depth,
                    ) by {
                    assert(count_at(old(self).depth_violating@, depth) <= count_at(
                        old(self).depth_total@,
                        depth,
                    ));
                    assert(count_at(other.depth_violating@, depth) <= count_at(
                        other.depth_total@,
                        depth,
                    ));
                    assert(count_at(old(self).depth_total@, depth) + count_at(
                        other.depth_total@,
                        depth,
                    ) <= u64::MAX);
                }
            }
        }
    }

    /// The greatest depth reached.
    pub fn max_depth(&self) -> (max: u32)
        ensures
            is_max_depth(self.depth_total@, max),
    {
        let entries = entries_of(&self.depth_total);
        let mut max: u32 = 0;
        let mut i: usize = 0;
        while i < entries.len()
            invariant
                i <= entries.len(),
                i == 0 ==> max == 0,
                i > 0 ==> exists|k: int| 0 <= k < i && (#[trigger] entries@[k]).0 == max,
                forall|k: int| 0 <= k < i ==> (#[trigger] entries@[k]).0 <= max,
            decreases entries.len() - i,
        {
            if i == 0 || entries[i].0 > max {
                max = entries[i].0;
            }
            assert(entries@[i as int].0 <= max);
            i += 1;
        }
        proof {
            if entries@.len() == 0 {
                assert(self.depth_total@.dom() =~= Set::<u32>::empty());
            }
        }
        max
    }

    /// The violating counts of the depths that nodes were expanded at.
    pub open spec fn violating_reached(self) -> Map<u32, u64> {
        self.depth_violating@.restrict(self.depth_total@.dom())
    }

    /// The bucket of the depths from `lo` to `hi`.
    pub open spec fn bucket(self, lo: int, hi: int) -> DepthBucket {
        DepthBucket {
            total: count_within(self.depth_total@, lo, hi + 1) as u64,
            violating: count_within(self.violating_reached(), lo, hi + 1) as u64,
        }
    }

    /// The counts of a bucket fit.
    pub open spec fn bucket_fits(self, lo: int, hi: int) -> bool {
        &&& count_within(self.depth_total@, lo, hi + 1) <= u64::MAX
        &&& count_within(self.violating_reached(), lo, hi + 1) <= u64::MAX
    }

    /// The thirds of the depths up to `max`. With no depth but 0, everything is
    /// shallow.
    pub open spec fn thirds(self, max: u32) -> DepthBuckets {
        if max == 0 {
            DepthBuckets {
                shallow: DepthBucket {
                    total: self.total_expanded,
                    violating: self.violating_expanded,
                },
                middle: DepthBucket { total: 0, violating: 0 },
                deep: DepthBucket { total: 0, violating: 0 },
            }
        } else {
            DepthBuckets {
                shallow: self.bucket(0, (max / 3) as int),
                middle: self.bucket(max / 3 + 1, (2 * max) / 3),
                deep: self.bucket((2 * max) / 3 + 1, max as int),
            }
        }
    }

    /// The bounds of the thirds and their counts fit.
    pub open spec fn thirds_fit(self, max: u32) -> bool {
        &&& 2 * max <= u32::MAX
        &&& max > 0 ==> {
            &&& self.bucket_fits(0, (max / 3) as int)
            &&& self.bucket_fits(max / 3 + 1, (2 * max) / 3)
            &&& self.bucket_fits((2 * max) / 3 + 1, max as int)
        }
    }

    /// Expanded and violating nodes in the shallow, the middle and the deep
    /// third of the depths reached. Violations at a depth where no node was
    /// expanded are not looked at.
    pub fn depth_buckets(&self) -> (buckets: DepthBuckets)
        requires
            forall|max: u32| #[trigger]
                is_max_depth(self.depth_total@, max) ==> self.thirds_fit(max),
        ensures
            exists|max: u32| #[trigger]
                is_max_depth(self.depth_total@, max) && buckets == self.thirds(max),
    {
        let max = self.max_depth();
        assert(is_max_depth(self.depth_total@, max));
        assert(self.thirds_fit(max));
        let first: u32 = max / 3;
        let second: u32 = (2 * max) / 3;
        if max == 0 {
            return DepthBuckets {
                shallow: DepthBucket {
                    total: self.total_expanded,
                    violating: self.violating_expanded,
                },
                middle: DepthBucket { total: 0, violating: 0 },
                deep: DepthBucket { total: 0, violating: 0 },
            };
        }
        DepthBuckets {
            shallow: self.count_bucket(0, first),
            middle: self.count_bucket(first + 1, second),
            deep: self.count_bucket(second + 1, max),
        }
    }

    /// Where the counts add up, violations are at depths that nodes were
    /// expanded at.
    proof fn lemma_all_reached(self, lo: int, hi: int)
        requires
            self.wf(),
            0 <= lo,
            hi <= u32::MAX + 1,
        ensures
            count_within(self.violating_reached(), lo, hi) == count_within(
                self.depth_violating@,
                lo,
                hi,
            ),
    {
        let reached = self.violating_reached();
        assert forall|depth: u32| #[trigger] count_at(reached, depth) == count_at(
            self.depth_violating@,
            depth,
        ) by {
            assert(count_at(self.depth_violating@, depth) <= count_at(self.depth_total@, depth));
        }
        assert forall|depth: u32| #[trigger] count_at(self.depth_violating@, depth) <= count_at(
            reached,
            depth,
        ) by {
            assert(count_at(reached, depth) == count_at(self.depth_violating@, depth));
        }
        lemma_within_bounded(reached, self.depth_violating@, lo, hi);
        lemma_within_bounded(self.depth_violating@, reached, lo, hi);
    }

    /// Where the counts add up, every bucket fits.
    pub proof fn lemma_buckets_fit(self, max: u32)
        requires
            self.wf(),
            2 * max <= u32::MAX,
        ensures
            self.thirds_fit(max),
    {
        let (first, second) = (max / 3 + 1, (2 * max) / 3 + 1);
        self.lemma_part_fits(0, first);
        self.lemma_part_fits(first, second);
        self.lemma_part_fits(second, max + 1);
    }

    proof fn lemma_part_fits(self, lo: int, hi: int)
        requires
            self.wf(),
            0 <= lo <= hi <= u32::MAX + 1,
        ensures
            self.bucket_fits(lo, hi - 1),
    {
        self.lemma_all_reached(lo, hi);
        lemma_part_of_all(self.depth_total@, lo, hi);
        lemma_part_of_all(self.depth_violating@, lo, hi);
    }

    proof fn lemma_nothing_below(self, max: u32)
        requires
            self.wf(),
            is_max_depth(self.depth_total@, max),
        ensures
            count_within(self.depth_total@, max + 1, u32::MAX + 1) == 0,
            count_within(self.depth_violating@, max + 1, u32::MAX + 1) == 0,
    {
        assert forall|depth: u32| max < depth implies #[trigger] count_at(
            self.depth_violating@,
            depth,
        ) == 0 by {
            assert(count_at(self.depth_total@, depth) == 0);
        }
        lemma_within_zero(self.depth_total@, max + 1, u32::MAX + 1);
        lemma_within_zero(self.depth_violating@, max + 1, u32::MAX + 1);
    }

    /// Every expanded node is in exactly one bucket.
    pub proof fn lemma_buckets_add_up(self, max: u32)
        requires
            self.wf(),
            is_max_depth(self.depth_total@, max),
        ensures
            self.thirds(max).shallow.total + self.thirds(max).middle.total + self.thirds(
                max,
            ).deep.total == self.total_expanded,
            self.thirds(max).shallow.violating + self.thirds(max).middle.violating + self.thirds(
                max,
            ).deep.violating == self.violating_expanded,
    {
        let (first, second) = (max / 3 + 1, (2 * max) / 3 + 1);
        self.lemma_nothing_below(max);
        self.lemma_all_reached(0, first);
        self.lemma_all_reached(first, second);
        self.lemma_all_reached(second, max + 1);
        self.lemma_three_parts(self.depth_total@, first, second, max + 1);
        self.lemma_three_parts(self.depth_violating@, first, second, max + 1);
    }

    proof fn lemma_three_parts(self, counts: Map<u32, u64>, a: int, b: int, c: int)
        requires
            0 <= a <= b <= c <= u32::MAX + 1,
            count_within(counts, c, u32::MAX + 1) == 0,
        ensures
            count_within(counts, 0, a) + count_within(counts, a, b) + count_within(counts, b, c)
                == count_all(counts),
    {
        lemma_within_splits(counts, 0, a, b);
        lemma_within_splits(counts, 0, b, c);
        lemma_within_splits(counts, 0, c, u32::MAX + 1);
    }

    fn count_bucket(&self, lo: u32, hi: u32) -> (bucket: DepthBucket)
        requires
            hi < u32::MAX,
            self.bucket_fits(lo as int, hi as int),
        ensures
            bucket == self.bucket(lo as int, hi as int),
    {
        let ghost reached = self.violating_reached();
        let entries = entries_of(&self.depth_total);
        let ghost lower: int = lo as int;
        let ghost upper: int = if lo <= hi {
            hi + 1
        } else {
            lo as int
        };
        let mut total: u64 = 0;
        let mut violating: u64 = 0;
        let ghost mut seen: Map<u32, u64> = Map::empty();
        let ghost mut seen_violating: Map<u32, u64> = Map::empty();
        proof {
            lemma_within_zero(seen, lower, upper);
        }
        let mut i: usize = 0;
        while i < entries.len()
            invariant
                reached == self.violating_reached(),
                i <= entries.len(),
                lists_counts(entries@, self.depth_total@),
                lower == lo,
                lo <= hi ==> upper == hi + 1,
                lo > hi ==> upper == lo,
                0 <= lower <= upper <= u32::MAX,
                count_within(self.depth_total@, lower, upper) <= u64::MAX,
                count_within(reached, lower, upper) <= u64::MAX,
                total == count_within(seen, lower, upper),
                violating == count_within(seen_violating, lower, upper),
                forall|depth: u32| #[trigger]
                    count_at(seen, depth) == if met(entries@, i as int, depth) {
                        count_at(self.depth_total@, depth)
                    } else {
                        0
                    },
                forall|depth: u32| #[trigger]
                    count_at(seen_violating, depth) == if met(entries@, i as int, depth) {
                        count_at(reached, depth)
                    } else {
                        0
                    },
            decreases entries.len() - i,
        {
            let (depth, n) = entries[i];
            let v: u64 = match self.depth_violating.get(&depth) {
                Some(v) => *v,
                None => 0,
            };
            let ghost before = seen;
            let ghost before_violating = seen_violating;
            proof {
                assert(entries@[i as int].0 == depth);
                assert(count_at(seen, depth) == 0);
                assert(count_at(seen_violating, depth) == 0);
                assert(n == count_at(self.depth_total@, depth));
                assert(v == count_at(reached, depth));
                seen = raised(before, depth, n);
                seen_violating = raised(before_violating, depth, v);
                lemma_raised_within(before, depth, n, lower, upper);
                lemma_raised_within(before_violating, depth, v, lower, upper);
                assert forall|d: u32| #[trigger]
                    count_at(seen, d) == if met(entries@, i + 1, d) {
                        count_at(self.depth_total@, d)
                    } else {
                        0
                    } by {
                    lemma_met_next(entries@, i as int, d);
                    assert(count_at(before, d) == if met(entries@, i as int, d) {
                        count_at(self.depth_total@, d)
                    } else {
                        0
                    });
                }
                assert forall|d: u32| #[trigger]
                    count_at(seen_violating, d) == if met(entries@, i + 1, d) {
                        count_at(reached, d)
                    } else {
                        0
                    } by {
                    lemma_met_next(entries@, i as int, d);
                    assert(count_at(before_violating, d) == if met(entries@, i as int, d) {
                        count_at(reached, d)
                    } else {
                        0
                    });
                }
                lemma_within_bounded(seen, self.depth_total@, lower, upper);
                lemma_within_bounded(seen_violating, reached, lower, upper);
            }
            if depth >= lo && depth <= hi {
                total = total + n;
                violating = violating + v;
            }
            i += 1;
        }
        proof {
            assert forall|depth: u32| #[trigger] count_at(seen, depth) == count_at(
                self.depth_total@,
                depth,
            ) by {
                if self.depth_total@.contains_key(depth) {
                    let k = choose|k: int|
                        0 <= k < entries@.len() && (#[trigger] entries@[k]).0 == depth;
                    assert(entries@[k].0 == depth);
                }
            }
            assert forall|depth: u32| #[trigger] count_at(seen_violating, depth) == count_at(
                reached,
                depth,
            ) by {
                if self.depth_total@.contains_key(depth) {
                    let k = choose|k: int|
                        0 <= k < entries@.len() && (#[trigger] entries@[k]).0 == depth;
                    assert(entries@[k].0 == depth);
                } else {
                    assert(count_at(self.depth_total@, depth) == 0);
                }
            }
            lemma_within_bounded(seen, self.depth_total@, lower, upper);
            lemma_within_bounded(self.depth_total@, seen, lower, upper);
            lemma_within_bounded(seen_violating, reached, lower, upper);
            lemma_within_bounded(reached, seen_violating, lower, upper);
        }
        DepthBucket { total, violating }
    }
}

/// `entries` holds every depth of `counts` once, with its count.
pub open spec fn lists_counts(entries: Seq<(u32, u64)>, counts: Map<u32, u64>) -> bool {
    &&& forall|i: int, j: int|
        0 <= i < j < entries.len() ==> (#[trigger] entries[i]).0 != (#[trigger] entries[j]).0
    &&& forall|i: int|
        0 <= i < entries.len() ==> counts.contains_key((#[trigger] entries[i]).0)
            && counts[entries[i].0] == entries[i].1
    &&& forall|depth: u32| #[trigger]
        counts.contains_key(depth) ==> exists|i: int|
            0 <= i < entries.len() && (#[trigger] entries[i]).0 == depth
}

/// `depth` is among the first `n` entries.
spec fn met(entries: Seq<(u32, u64)>, n: int, depth: u32) -> bool {
    exists|k: int| 0 <= k < n && (#[trigger] entries[k]).0 == depth
}

proof fn lemma_met_next(entries: Seq<(u32, u64)>, n: int, depth: u32)
    requires
        0 <= n < entries.len(),
    ensures
        met(entries, n + 1, depth) <==> met(entries, n, depth) || entries[n].0 == depth,
{
    if met(entries, n + 1, depth) {
        let k = choose|k: int| 0 <= k < n + 1 && (#[trigger] entries[k]).0 == depth;
        assert(entries[k].0 == depth);
    }
}

fn entries_of(counts: &HashMap<u32, u64>) -> (entries: Vec<(u32, u64)>)
    ensures
        lists_counts(entries@, counts@),
{
    let mut entries: Vec<(u32, u64)> = Vec::new();
    for entry in it: counts.iter()
        invariant
            entries@.len() == it.index(),
            forall|i: int|
                0 <= i < entries@.len() ==> #[trigger] entries@[i] == (
                    *it.seq()[i].0,
                    *it.seq()[i].1,
                ),
    {
        entries.push((*entry.0, *entry.1));
    }
    proof {
        let seq = vstd::std_specs::iter::IteratorSpec::remaining(
            &vstd::std_specs::hash::spec_hash_map_iter(counts),
        );
        assert forall|i: int| 0 <= i < entries@.len() implies counts@.contains_key(
            (#[trigger] entries@[i]).0,
        ) && counts@[entries@[i].0] == entries@[i].1 by {
            assert(counts@.contains_key(*seq[i].0));
        }
        assert forall|i: int, j: int| 0 <= i < j < entries@.len() implies (#[trigger] entries@[i]).0
            != (#[trigger] entries@[j]).0 by {
            assert(seq[i] != seq[j]);
        }
        assert forall|depth: u32| #[trigger] counts@.contains_key(depth) implies exists|i: int|
            0 <= i < entries@.len() && (#[trigger] entries@[i]).0 == depth by {
            assert(seq.contains((&depth, &counts@[depth])));
            let i = choose|i: int| 0 <= i < seq.len() && seq[i] == (&depth, &counts@[depth]);
            assert(entries@[i].0 == depth);
        }
    }
    entries
}

fn add_counts(counts: &mut HashMap<u32, u64>, other: &HashMap<u32, u64>)
    requires
        sums_fit(old(counts)@, other@),
    ensures
        final(counts)@ == summed(old(counts)@, other@),
{
    let entries = entries_of(other);
    let mut i: usize = 0;
    while i < entries.len()
        invariant
            i <= entries.len(),
            lists_counts(entries@, other@),
            sums_fit(old(counts)@, other@),
            forall|depth: u32| #[trigger]
                counts@.contains_key(depth) <==> old(counts)@.contains_key(depth) || met(entries@, i as int, depth),
            forall|depth: u32| #[trigger]
                count_at(counts@, depth) == if met(entries@, i as int, depth) {
                    count_at(old(counts)@, depth) + count_at(other@, depth)
                } else {
                    count_at(old(counts)@, depth) as int
                },
        decreases entries.len() - i,
    {
        let (depth, n) = entries[i];
        let ghost before = counts@;
        proof {
            assert(entries@[i as int].0 == depth);
            assert(count_at(before, depth) == count_at(old(counts)@, depth));
            assert(n == count_at(other@, depth));
        }
        raise(counts, depth, n);
        proof {
            assert forall|d: u32| #[trigger]
                count_at(counts@, d) == if met(entries@, i + 1, d) {
                    count_at(old(counts)@, d) + count_at(other@, d)
                } else {
                    count_at(old(counts)@, d) as int
                } by {
                lemma_met_next(entries@, i as int, d);
                assert(count_at(before, d) == if met(entries@, i as int, d) {
                    count_at(old(counts)@, d) + count_at(other@, d)
                } else {
                    count_at(old(counts)@, d) as int
                });
            }
        }
        i += 1;
    }
    proof {
        assert forall|depth: u32| #[trigger]
            counts@.contains_key(depth) implies counts@[depth] == summed(
            old(counts)@,
            other@,
        )[depth] by {
            assert(count_at(counts@, depth) == counts@[depth]);
            if other@.contains_key(depth) {
                let k = choose|k: int|
                    0 <= k < entries@.len() && (#[trigger] entries@[k]).0 == depth;
                assert(entries@[k].0 == depth);
            }
        }
        assert forall|depth: u32| other@.contains_key(depth) implies #[trigger]
            counts@.contains_key(depth) by {
            let k = choose|k: int| 0 <= k < entries@.len() && (#[trigger] entries@[k]).0 == depth;
            assert(entries@[k].0 == depth);
        }
        assert(counts@ =~= summed(old(counts)@, other@));
    }
}

fn raise(counts: &mut HashMap<u32, u64>, depth: u32, n: u64)
    requires
        count_at(old(counts)@, depth) + n <= u64::MAX,
    ensures
        final(counts)@ == raised(old(counts)@, depth, n),
{
    let before: u64 = match counts.get(&depth) {
        Some(count) => *count,
        None => 0,
    };
    counts.insert(depth, before + n);
}

/// What a search tells its observer.
pub enum SearchEvent<'a> {
    /// A node was expanded.
    NodeExpanded { depth: u32, config: &'a Config },
    /// Anything else.
    Other,
}

/// Counts expanded nodes whose pairs are too close to each other.
pub struct SeparationProbe<'a> {
    /// The pairs to watch.
    pub pairs: &'a [(u32, u32)],
    pub index: &'a LaneIndex,
    pub stats: SeparationProbeStats,
}

impl<'a> SeparationProbe<'a> {
    /// Watch `pairs`.
    pub fn new(pairs: &'a [(u32, u32)], index: &'a LaneIndex) -> (probe: Self)
        ensures
            probe.pairs == pairs,
            probe.index == index,
            probe.stats.wf(),
            probe.stats.total_expanded == 0,
            probe.stats.violating_expanded == 0,
            probe.stats.depth_total@ == Map::<u32, u64>::empty(),
            probe.stats.depth_violating@ == Map::<u32, u64>::empty(),
    {
        SeparationProbe { pairs, index, stats: SeparationProbeStats::default() }
    }

    /// The pairs are too close to each other in `config`.
    pub open spec fn violates(self, config: Config) -> bool {
        !separated(place_map(config@), self.pairs@, self.index.arch())
    }

    /// There is room in the counters for an event.
    pub open spec fn has_room_for(self, event: SearchEvent<'_>) -> bool {
        match event {
            SearchEvent::NodeExpanded { depth, config } => {
                &&& self.stats.total_expanded < u64::MAX
                &&& count_at(self.stats.depth_total@, depth) < u64::MAX
                &&& self.violates(*config) ==> self.stats.violating_expanded < u64::MAX
                    && count_at(self.stats.depth_violating@, depth) < u64::MAX
            },
            SearchEvent::Other => true,
        }
    }

    /// Where the counts add up, the number of expanded nodes alone decides
    /// whether there is room.
    pub proof fn lemma_has_room(self, event: SearchEvent<'_>)
        requires
            self.stats.wf(),
            self.stats.total_expanded < u64::MAX,
        ensures
            self.has_room_for(event),
    {
        self.stats.lemma_violating_at_most_total();
        if let SearchEvent::NodeExpanded { depth, config } = event {
            lemma_one_of_all(self.stats.depth_total@, depth);
            lemma_one_of_all(self.stats.depth_violating@, depth);
        }
    }

    /// Count an expanded node.
    pub fn on_event(&mut self, event: SearchEvent<'_>)
        requires
            old(self).has_room_for(event),
        ensures
            final(self).pairs == old(self).pairs,
            final(self).index == old(self).index,
            old(self).stats.wf() ==> final(self).stats.wf(),
            match event {
                SearchEvent::NodeExpanded { depth, config } => {
                    &&& final(self).stats.total_expanded == old(self).stats.total_expanded + 1
                    &&& final(self).stats.depth_total@ == raised(
                        old(self).stats.depth_total@,
                        depth,
                        1,
                    )
                    &&& if old(self).violates(*config) {
                        &&& final(self).stats.violating_expanded
                            == old(self).stats.violating_expanded + 1
                        &&& final(self).stats.depth_violating@ == raised(
                            old(self).stats.depth_violating@,
                            depth,
                            1,
                        )
                    } else {
                        &&& final(self).stats.violating_expanded
                            == old(self).stats.violating_expanded
                        &&& final(self).stats.depth_violating == old(self).stats.depth_violating
                    }
                },
                SearchEvent::Other => *final(self) == *old(self),
            },
    {
        match event {
            SearchEvent::NodeExpanded { depth, config } => {
                proof {
                    let stats = old(self).stats;
                    lemma_raised_within(stats.depth_total@, depth, 1, 0, u32::MAX + 1);
                    if old(self).violates(*config) {
                        lemma_raised_within(stats.depth_violating@, depth, 1, 0, u32::MAX + 1);
                    }
                }
                self.stats.total_expanded = self.stats.total_expanded + 1;
                raise(&mut self.stats.depth_total, depth, 1);
                if !pairs_grid_separated(config, self.pairs, self.index) {
                    self.stats.violating_expanded = self.stats.violating_expanded + 1;
                    raise(&mut self.stats.depth_violating, depth, 1);
                }
                proof {
                    if old(self).stats.wf() {
                        assert forall|d: u32| #[trigger]
                            count_at(self.stats.depth_violating@, d) <= count_at(
                                self.stats.depth_total@,
                                d,
                            ) by {
                            assert(count_at(old(self).stats.depth_violating@, d) <= count_at(
                                old(self).stats.depth_total@,
                                d,
                            ));
                        }
                    }
                }
            },
            SearchEvent::Other => {},
        }
    }
}

/// One search of a probe run.
#[derive(Clone, Copy, Debug, PartialEq, Eq, Structural)]
pub enum ProbeSearch {
    /// Iterative diving.
    Ids,
    /// Best first, no deeper than `max_depth`.
    AStar { max_depth: Option<u32> },
}

/// The search that a probe run starts with, where the strategy can be probed.
pub fn first_search(strategy: Strategy) -> (search: Option<ProbeSearch>)
    ensures
        search == match strategy {
            Strategy::Ids => Some(ProbeSearch::Ids),
            Strategy::Cascade { inner: InnerStrategy::Ids } => Some(ProbeSearch::Ids),
            Strategy::AStar => Some(ProbeSearch::AStar { max_depth: None }),
            Strategy::Entropy => None,
        },
{
    match strategy {
        Strategy::Ids => Some(ProbeSearch::Ids),
        Strategy::Cascade { inner: InnerStrategy::Ids } => Some(ProbeSearch::Ids),
        Strategy::AStar => Some(ProbeSearch::AStar { max_depth: None }),
        Strategy::Entropy => None,
    }
}

/// The search that follows one that ended with `status` and a cost of at most
/// `depth` layers: a cascade looks for something shorter.
pub fn second_search(strategy: Strategy, status: SolveStatus, depth: u32) -> (search: Option<
    ProbeSearch,
>)
    ensures
        search == if strategy is Cascade && status == SolveStatus::Solved {
            Some(ProbeSearch::AStar { max_depth: Some(depth) })
        } else {
            None
        },
{
    match strategy {
        Strategy::Cascade { inner: InnerStrategy::Ids } => {
            if status == SolveStatus::Solved {
                Some(ProbeSearch::AStar { max_depth: Some(depth) })
            } else {
                None
            }
        },
        _ => None,
    }
}

/// What a search does where atoms stand in each other's way.
#[derive(Clone, Copy, Debug, PartialEq, Eq, Structural)]
pub enum DeadlockChoice {
    /// What the options of the run say.
    FromOptions,
    /// Move the atoms in the way, whatever the options say.
    MoveBlockers,
}

/// How a search estimates the distance that is left.
#[derive(Clone, Copy, Debug, PartialEq, Eq, Structural)]
pub enum Estimate {
    /// The largest distance of a pair.
    Largest,
    /// The distances of all pairs together.
    Sum,
}

/// What one search of a probe run is set up with.
#[derive(Clone, Copy, Debug, PartialEq, Eq, Structural)]
pub struct ProbeSettings {
    pub deadlocks: DeadlockChoice,
    pub estimate: Estimate,
    /// The weight of the options scales the estimate.
    pub weighted: bool,
    /// No deeper than this.
    pub max_depth: Option<u32>,
    /// Seed of the candidates.
    pub seed: u64,
}

impl ProbeSearch {
    /// What the search is set up with. Diving follows the policy of the options
    /// and looks at all pairs together. Best first always moves the atoms in the
    /// way and looks at the pair that is farthest apart, weighted. Neither
    /// spreads its candidates.
    pub fn settings(self) -> (settings: ProbeSettings)
        ensures
            settings == match self {
                ProbeSearch::Ids => (ProbeSettings {
                    deadlocks: DeadlockChoice::FromOptions,
                    estimate: Estimate::Sum,
                    weighted: false,
                    max_depth: None,
                    seed: 0,
                }),
                ProbeSearch::AStar { max_depth } => (ProbeSettings {
                    deadlocks: DeadlockChoice::MoveBlockers,
                    estimate: Estimate::Largest,
                    weighted: true,
                    max_depth,
                    seed: 0,
                }),
            },
    {
        match self {
            ProbeSearch::Ids => ProbeSettings {
                deadlocks: DeadlockChoice::FromOptions,
                estimate: Estimate::Sum,
                weighted: false,
                max_depth: None,
                seed: 0,
            },
            ProbeSearch::AStar { max_depth } => ProbeSettings {
                deadlocks: DeadlockChoice::MoveBlockers,
                estimate: Estimate::Largest,
                weighted: true,
                max_depth,
                seed: 0,
            },
        }
    }
}

/// Whether the result of a run with two searches is the better one of both, and
/// not that of the first.
pub fn takes_better_of_both(second: SolveStatus) -> (b: bool)
    ensures
        b == (second == SolveStatus::Solved),
{
    second == SolveStatus::Solved
}

} // verus!
