//! Hop distances between locations.

use crate::lane_index::{Lane, LaneIndex};
use std::collections::HashMap;
use vstd::prelude::*;

verus! {

broadcast use vstd::std_specs::hash::group_hash_axioms;

/// Some lane leads from location `from` to location `to`.
pub open spec fn hop(lanes: Seq<Lane>, from: u64, to: u64) -> bool {
    exists|i: int|
        0 <= i < lanes.len() && (#[trigger] lanes[i]).src.code() == from && lanes[i].dst.code()
            == to
}

/// `n` lanes in a row lead from `from` to `to`.
pub open spec fn walk(lanes: Seq<Lane>, from: u64, to: u64, n: nat) -> bool
    decreases n,
{
    if n == 0 {
        from == to
    } else {
        exists|mid: u64| #[trigger] hop(lanes, from, mid) && walk(lanes, mid, to, (n - 1) as nat)
    }
}

/// The shortest walk from `from` to `to` has `n` lanes.
pub open spec fn shortest(lanes: Seq<Lane>, from: u64, to: u64, n: nat) -> bool {
    walk(lanes, from, to, n) && forall|k: nat| k < n ==> !#[trigger] walk(lanes, from, to, k)
}

/// `row` gives, for every location from which `to` can be reached in fewer than
/// `bound` hops, the least number of hops.
pub open spec fn is_row(lanes: Seq<Lane>, to: u64, bound: nat, row: Map<u64, u32>) -> bool {
    forall|from: u64, n: u32|
        #![trigger shortest(lanes, from, to, n as nat)]
        #![trigger row.contains_pair(from, n)]
        row.contains_pair(from, n) <==> n < bound && shortest(lanes, from, to, n as nat)
}

/// Shortest hop counts to a set of target locations.
#[derive(Debug)]
pub struct DistanceTable {
    rows: HashMap<u64, HashMap<u64, u32>>,
}

impl View for DistanceTable {
    type V = Map<u64, Map<u64, u32>>;

    /// For each target the hop count from each location that can reach it.
    closed spec fn view(&self) -> Map<u64, Map<u64, u32>> {
        self.rows@.map_values(|row: HashMap<u64, u32>| row@)
    }
}

/// The hop count that a table holds for a pair of locations.
pub open spec fn hops(table: Map<u64, Map<u64, u32>>, from: u64, to: u64) -> Option<u32> {
    if table.contains_key(to) && table[to].contains_key(from) {
        Some(table[to][from])
    } else {
        None
    }
}

/// Cost of a cell that cannot be used, and of a distance that is not known.
/// Small enough for a few of them to be added up.
pub const BIG: u32 = 0x3fff_ffff;

/// The hop count that a table holds, or [`BIG`].
pub open spec fn hops_or_big(table: Map<u64, Map<u64, u32>>, from: u64, to: u64) -> u32 {
    match hops(table, from, to) {
        Some(n) => n,
        None => BIG,
    }
}

/// The table has a row for exactly the given targets, with every shortest
/// distance that a `u32` holds.
pub open spec fn is_distance_table(
    lanes: Seq<Lane>,
    targets: Seq<u64>,
    table: Map<u64, Map<u64, u32>>,
) -> bool {
    &&& forall|to: u64| #[trigger] table.contains_key(to) <==> targets.contains(to)
    &&& forall|to: u64| #[trigger]
        table.contains_key(to) ==> is_row(lanes, to, u32::MAX as nat, table[to])
}

impl DistanceTable {
    /// Hop count from `from` to `to`.
    pub open spec fn between(self, from: u64, to: u64) -> Option<u32> {
        hops(self@, from, to)
    }

    /// Compute the distances to all targets.
    pub fn new(targets: &[u64], index: &LaneIndex) -> (table: DistanceTable)
        ensures
            is_distance_table(index.lanes(), targets@, table@),
    {
        let lanes = index.all_lanes();
        let mut rows: HashMap<u64, HashMap<u64, u32>> = HashMap::new();
        let mut i: usize = 0;
        while i < targets.len()
            invariant
                i <= targets@.len(),
                lanes@ == index.lanes(),
                forall|to: u64| #[trigger]
                    rows@.contains_key(to) <==> targets@.take(i as int).contains(to),
                forall|to: u64| #[trigger]
                    rows@.contains_key(to) ==> is_row(lanes@, to, u32::MAX as nat, rows@[to]@),
            decreases targets.len() - i,
        {
            let row = distances_to(lanes, targets[i]);
            let ghost before = targets@.take(i as int);
            let ghost after = targets@.take(i + 1);
            proof {
                assert(after =~= before.push(targets@[i as int]));
                assert forall|to: u64| after.contains(to) <==> before.contains(to) || to
                    == targets@[i as int] by {
                    if before.contains(to) {
                        let k = choose|k: int| 0 <= k < before.len() && before[k] == to;
                        assert(after[k] == to);
                    }
                    if after.contains(to) && to != targets@[i as int] {
                        let k = choose|k: int| 0 <= k < after.len() && after[k] == to;
                        assert(before[k] == to);
                    }
                    assert(after[i as int] == targets@[i as int]);
                }
            }
            rows.insert(targets[i], row);
            i += 1;
        }
        assert(targets@.take(i as int) =~= targets@);
        DistanceTable { rows }
    }

    /// Hop count from `from` to `to`, where `to` is a target that `from` can
    /// reach.
    pub fn distance(&self, from: u64, to: u64) -> (hops: Option<u32>)
        ensures
            hops == self.between(from, to),
    {
        match self.rows.get(&to) {
            Some(row) => match row.get(&from) {
                Some(n) => Some(*n),
                None => None,
            },
            None => None,
        }
    }

    /// Hop count from `from` to `to`, or [`BIG`].
    pub fn distance_or_big(&self, from: u64, to: u64) -> (n: u32)
        ensures
            n == hops_or_big(self@, from, to),
    {
        match self.distance(from, to) {
            Some(n) => n,
            None => BIG,
        }
    }

    /// Hop counts to a target from every location that can reach it.
    pub fn sources(&self, to: u64) -> (row: Option<&HashMap<u64, u32>>)
        ensures
            match row {
                Some(row) => self@.contains_key(to) && row@ == self@[to],
                None => !self@.contains_key(to),
            },
    {
        self.rows.get(&to)
    }
}

pub proof fn lemma_shortest_step(lanes: Seq<Lane>, from: u64, to: u64, n: nat)
    requires
        n > 0,
        shortest(lanes, from, to, n),
    ensures
        exists|mid: u64| #[trigger] hop(lanes, from, mid) && shortest(lanes, mid, to, (n - 1) as nat),
{
    let mid = choose|mid: u64|
        #[trigger] hop(lanes, from, mid) && walk(lanes, mid, to, (n - 1) as nat);
    assert forall|k: nat| k < n - 1 implies !#[trigger] walk(lanes, mid, to, k) by {
        if walk(lanes, mid, to, k) {
            assert(walk(lanes, from, to, k + 1));
        }
    }
    assert(shortest(lanes, mid, to, (n - 1) as nat));
}

/// A location with a hop to one at distance `n` is at distance `n + 1` at most.
proof fn lemma_shortest_bound(lanes: Seq<Lane>, from: u64, mid: u64, to: u64, n: nat)
    requires
        hop(lanes, from, mid),
        walk(lanes, mid, to, n),
        forall|k: nat| k <= n ==> !#[trigger] walk(lanes, from, to, k),
    ensures
        shortest(lanes, from, to, n + 1),
{
    assert(walk(lanes, mid, to, (n + 1 - 1) as nat));
}

pub proof fn lemma_shortest_exists(lanes: Seq<Lane>, from: u64, to: u64, n: nat)
    requires
        walk(lanes, from, to, n),
    ensures
        exists|k: nat| k <= n && #[trigger] shortest(lanes, from, to, k),
    decreases n,
{
    if shortest(lanes, from, to, n) {
    } else {
        let k = choose|k: nat| k < n && #[trigger] walk(lanes, from, to, k);
        lemma_shortest_exists(lanes, from, to, k);
    }
}

proof fn lemma_shortest_unique(lanes: Seq<Lane>, from: u64, to: u64, m: nat, n: nat)
    requires
        shortest(lanes, from, to, m),
        shortest(lanes, from, to, n),
    ensures
        m == n,
{
    if m < n {
        assert(!walk(lanes, from, to, m));
    } else if n < m {
        assert(!walk(lanes, from, to, n));
    }
}

/// With no location at distance `level`, none is further away.
proof fn lemma_no_level(lanes: Seq<Lane>, from: u64, to: u64, level: nat, n: nat)
    requires
        forall|s: u64| !#[trigger] shortest(lanes, s, to, level),
        shortest(lanes, from, to, n),
    ensures
        n < level,
    decreases n,
{
    if n > level {
        lemma_shortest_step(lanes, from, to, n);
        let mid = choose|mid: u64|
            #[trigger] hop(lanes, from, mid) && shortest(lanes, mid, to, (n - 1) as nat);
        lemma_no_level(lanes, mid, to, level, (n - 1) as nat);
    }
}

/// Locations at distance `level + 1` that a hop along the first `n` lanes shows.
spec fn found(lanes: Seq<Lane>, to: u64, level: nat, n: int, from: u64) -> bool {
    exists|i: int|
        0 <= i < n && (#[trigger] lanes[i]).src.code() == from && shortest(
            lanes,
            lanes[i].dst.code(),
            to,
            level,
        )
}

fn distances_to(lanes: &[Lane], to: u64) -> (row: HashMap<u64, u32>)
    ensures
        is_row(lanes@, to, u32::MAX as nat, row@),
{
    let mut row: HashMap<u64, u32> = HashMap::new();
    row.insert(to, 0);
    let mut level: u32 = 0;
    let mut grew = true;
    proof {
        assert forall|from: u64, n: u32| row@.contains_pair(from, n) <==> n < 1 && shortest(
            lanes@,
            from,
            to,
            n as nat,
        ) by {
            if n == 0 {
                assert(walk(lanes@, from, to, 0) <==> from == to);
            }
        }
    }
    while grew && level < u32::MAX - 1
        invariant
            level <= u32::MAX - 1,
            is_row(lanes@, to, level as nat + 1, row@),
            !grew ==> forall|s: u64| !#[trigger] shortest(lanes@, s, to, level as nat),
        decreases u32::MAX - level,
    {
        grew = grow(lanes, to, level, &mut row);
        level += 1;
    }
    proof {
        assert forall|from: u64, n: u32|
            row@.contains_pair(from, n) <==> n < u32::MAX && shortest(
            lanes@,
            from,
            to,
            n as nat,
        ) by {
            if n < u32::MAX && shortest(lanes@, from, to, n as nat) && !grew {
                lemma_no_level(lanes@, from, to, level as nat, n as nat);
            }
        }
    }
    row
}

/// Add the locations at distance `level + 1`; tell whether there is one.
fn grow(lanes: &[Lane], to: u64, level: u32, row: &mut HashMap<u64, u32>) -> (grew: bool)
    requires
        level < u32::MAX - 1,
        is_row(lanes@, to, level as nat + 1, old(row)@),
    ensures
        is_row(lanes@, to, level as nat + 2, final(row)@),
        !grew ==> forall|s: u64| !#[trigger] shortest(lanes@, s, to, level as nat + 1),
{
    let ghost base = row@;
    let mut grew = false;
    let mut i: usize = 0;
    while i < lanes.len()
        invariant
            i <= lanes@.len(),
            level < u32::MAX - 1,
            is_row(lanes@, to, level as nat + 1, base),
            forall|from: u64, n: u32|
                #![trigger row@.contains_pair(from, n)]
                row@.contains_pair(from, n) <==> base.contains_pair(from, n) || (n == level + 1
                    && !base.contains_key(from) && found(
                    lanes@,
                    to,
                    level as nat,
                    i as int,
                    from,
                )),
            !grew ==> forall|from: u64| #[trigger]
                found(lanes@, to, level as nat, i as int, from) ==> base.contains_key(from),
        decreases lanes.len() - i,
    {
        let from = lanes[i].src.encode();
        let mid = lanes[i].dst.encode();
        let at_level = match row.get(&mid) {
            Some(n) => *n == level,
            None => false,
        };
        let ghost prior = row@;
        proof {
            assert(at_level <==> row@.contains_pair(mid, level));
            assert(at_level <==> base.contains_pair(mid, level));
            assert(at_level <==> shortest(lanes@, mid, to, level as nat));
            assert(forall|s: u64| #[trigger]
                found(lanes@, to, level as nat, i + 1, s) <==> found(
                    lanes@,
                    to,
                    level as nat,
                    i as int,
                    s,
                ) || (s == from && at_level));
        }
        if at_level && !row.contains_key(&from) {
            proof {
                assert(!base.contains_key(from)) by {
                    if base.contains_key(from) {
                        assert(base.contains_pair(from, base[from]));
                        assert(row@.contains_pair(from, base[from]));
                    }
                }
            }
            row.insert(from, level + 1);
            grew = true;
        } else if at_level {
            proof {
                assert(row@.contains_pair(from, row@[from]));
            }
        }
        proof {
            assert forall|s: u64, n: u32| #[trigger]
                row@.contains_pair(s, n) <==> base.contains_pair(s, n) || (n == level + 1 && !base.contains_key(s) && found(
                lanes@,
                to,
                level as nat,
                i + 1,
                s,
            )) by {
                assert(prior.contains_pair(s, n) <==> base.contains_pair(s, n) || (n == level + 1
                    && !base.contains_key(s) && found(lanes@, to, level as nat, i as int, s)));
                if base.contains_key(s) {
                    assert(base.contains_pair(s, base[s]));
                    assert(prior.contains_pair(s, base[s]));
                }
                if prior.contains_key(s) {
                    assert(prior.contains_pair(s, prior[s]));
                }
            }
            if !grew {
                assert forall|s: u64| #[trigger]
                    found(lanes@, to, level as nat, i + 1, s) implies base.contains_key(s) by {
                    if s == from && at_level {
                        assert(prior.contains_pair(s, prior[s]));
                        if !base.contains_key(s) {
                            assert(found(lanes@, to, level as nat, i as int, s));
                        }
                    }
                }
            }
        }
        i += 1;
    }
    proof {
        assert forall|s: u64|
            (!base.contains_key(s) && found(lanes@, to, level as nat, i as int, s))
                <==> #[trigger] shortest(lanes@, s, to, level as nat + 1) by {
            lemma_found(lanes@, to, level, base, s);
        }
        assert forall|s: u64, n: u32| row@.contains_pair(s, n) <==> n < level + 2 && shortest(
            lanes@,
            s,
            to,
            n as nat,
        ) by {
            assert(base.contains_pair(s, n) <==> n < level + 1 && shortest(
                lanes@,
                s,
                to,
                n as nat,
            ));
        }
    }
    grew
}

proof fn lemma_found(lanes: Seq<Lane>, to: u64, level: u32, base: Map<u64, u32>, s: u64)
    requires
        level < u32::MAX - 1,
        is_row(lanes, to, level as nat + 1, base),
    ensures
        (!base.contains_key(s) && found(lanes, to, level as nat, lanes.len() as int, s))
            <==> shortest(lanes, s, to, level as nat + 1),
{
    if !base.contains_key(s) && found(lanes, to, level as nat, lanes.len() as int, s) {
        let i = choose|i: int|
            0 <= i < lanes.len() && (#[trigger] lanes[i]).src.code() == s && shortest(
                lanes,
                lanes[i].dst.code(),
                to,
                level as nat,
            );
        let mid = lanes[i].dst.code();
        assert(hop(lanes, s, mid));
        assert forall|k: nat| k <= level implies !#[trigger] walk(lanes, s, to, k) by {
            if walk(lanes, s, to, k) {
                lemma_shortest_exists(lanes, s, to, k);
                let m = choose|m: nat| m <= k && #[trigger] shortest(lanes, s, to, m);
                assert(base.contains_pair(s, m as u32));
            }
        }
        lemma_shortest_bound(lanes, s, mid, to, level as nat);
    }
    if shortest(lanes, s, to, level as nat + 1) {
        if base.contains_key(s) {
            assert(base.contains_pair(s, base[s]));
            lemma_shortest_unique(lanes, s, to, base[s] as nat, level as nat + 1);
        }
        lemma_shortest_step(lanes, s, to, level as nat + 1);
        let mid = choose|mid: u64|
            #[trigger] hop(lanes, s, mid) && shortest(lanes, mid, to, (level + 1 - 1) as nat);
        let i = choose|i: int|
            0 <= i < lanes.len() && (#[trigger] lanes[i]).src.code() == s && lanes[i].dst.code()
                == mid;
        assert(found(lanes, to, level as nat, lanes.len() as int, s));
    }
}

/// A location is at distance zero from itself, a hop adds at most one, and
/// distances are exact: no shorter walk exists.
pub proof fn lemma_distance_laws(
    lanes: Seq<Lane>,
    targets: Seq<u64>,
    table: Map<u64, Map<u64, u32>>,
    from: u64,
    mid: u64,
    to: u64,
)
    requires
        is_distance_table(lanes, targets, table),
        targets.contains(to),
        hop(lanes, from, mid),
    ensures
        hops(table, to, to) == Some(0u32),
        match (hops(table, mid, to), hops(table, from, to)) {
            (Some(m), Some(n)) => n <= m + 1,
            (Some(m), None) => m + 1 == u32::MAX,
            _ => true,
        },
{
    let row = table[to];
    assert(table.contains_key(to));
    assert(walk(lanes, to, to, 0));
    assert(shortest(lanes, to, to, 0));
    assert(row.contains_pair(to, 0u32));
    if let Some(m) = hops(table, mid, to) {
        assert(row.contains_pair(mid, m));
        assert(walk(lanes, mid, to, (m as nat + 1 - 1) as nat));
        assert(walk(lanes, from, to, m as nat + 1));
        lemma_shortest_exists(lanes, from, to, m as nat + 1);
        let k = choose|k: nat| k <= m + 1 && #[trigger] shortest(lanes, from, to, k);
        if k < u32::MAX {
            assert(shortest(lanes, from, to, (k as u32) as nat));
            assert(row.contains_pair(from, k as u32));
        }
        if let Some(n) = hops(table, from, to) {
            assert(row.contains_pair(from, n));
            lemma_shortest_unique(lanes, from, to, k, n as nat);
        }
    }
}

} // verus!
