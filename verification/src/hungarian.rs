//! Rectangular min-cost assignment.

use vstd::prelude::*;

verus! {

/// Entry `(r, c)` of a flattened row-major matrix with `n_cols` columns.
pub open spec fn cell(costs: Seq<u32>, n_cols: int, r: int, c: int) -> int {
    costs[r * n_cols + c] as int
}

/// `a` sends each of `n_rows` rows to a column of its own.
pub open spec fn is_assignment(n_rows: int, n_cols: int, a: Seq<usize>) -> bool {
    &&& a.len() == n_rows
    &&& forall|r: int| 0 <= r < a.len() ==> #[trigger] a[r] < n_cols
    &&& forall|r: int, s: int| 0 <= r < s < a.len() ==> #[trigger] a[r] != #[trigger] a[s]
}

/// Sum of the cells that `a` picks, one per row.
pub open spec fn total_cost(costs: Seq<u32>, n_cols: int, a: Seq<usize>) -> int
    decreases a.len(),
{
    if a.len() == 0 {
        0
    } else {
        total_cost(costs, n_cols, a.drop_last()) + cell(
            costs,
            n_cols,
            a.len() - 1,
            a.last() as int,
        )
    }
}

/// `a` is an assignment, and no assignment is cheaper.
pub open spec fn is_min_cost_assignment(
    costs: Seq<u32>,
    n_rows: int,
    n_cols: int,
    a: Seq<usize>,
) -> bool {
    &&& is_assignment(n_rows, n_cols, a)
    &&& forall|b: Seq<usize>| #[trigger]
        is_assignment(n_rows, n_cols, b) ==> total_cost(costs, n_cols, a) <= total_cost(
            costs,
            n_cols,
            b,
        )
}

/// Reads entry `(r, c)` of the matrix.
fn cell_at(costs: &[u32], n_rows: usize, n_cols: usize, r: usize, c: usize) -> (x: i64)
    requires
        costs.len() == n_rows * n_cols,
        r < n_rows,
        c < n_cols,
    ensures
        x == cell(costs@, n_cols as int, r as int, c as int),
        0 <= x <= u32::MAX,
{
    proof {
        lemma_cell_index(n_rows as int, n_cols as int, r as int, c as int);
    }
    costs[r * n_cols + c] as i64
}

/// Row-major indices stay inside the matrix.
pub proof fn lemma_cell_index(n_rows: int, n_cols: int, r: int, c: int)
    requires
        0 <= r < n_rows,
        0 <= c < n_cols,
    ensures
        0 <= r * n_cols <= r * n_cols + c < n_rows * n_cols,
{
    assert(0 <= r * n_cols && r * n_cols + c < n_rows * n_cols) by (nonlinear_arith)
        requires
            0 <= r < n_rows,
            0 <= c < n_cols,
    ;
}

// ── Dual certificate ──────────────────────────────────────────────
//
// Rows and columns are numbered from 1 in the working arrays. `p[c]` is the
// row matched to column `c`, with 0 for none; `u` and `v` are the row and
// column potentials.

/// Reduced cost of matching row `r` to column `c`.
spec fn reduced(costs: Seq<u32>, m: int, u: Seq<i64>, v: Seq<i64>, r: int, c: int) -> int {
    cell(costs, m, r - 1, c - 1) - u[r] - v[c]
}

/// The potentials lie below the matrix, rows from `k + 1` on are untouched,
/// and free columns have potential 0.
spec fn duals_ok(
    costs: Seq<u32>,
    n: int,
    m: int,
    u: Seq<i64>,
    v: Seq<i64>,
    p: Seq<usize>,
    k: int,
) -> bool {
    &&& u.len() == n + 1
    &&& v.len() == m + 1
    &&& p.len() == m + 1
    &&& forall|r: int, c: int|
        1 <= r <= n && 1 <= c <= m ==> #[trigger] reduced(costs, m, u, v, r, c) >= 0
    &&& forall|r: int| 1 <= r <= n ==> #[trigger] u[r] >= 0
    &&& forall|r: int| k < r <= n ==> #[trigger] u[r] == 0
    &&& forall|c: int| 1 <= c <= m ==> #[trigger] v[c] <= 0
    &&& forall|c: int| 1 <= c <= m && #[trigger] p[c] == 0 ==> v[c] == 0
    &&& forall|c: int|
        1 <= c <= m && #[trigger] p[c] != 0 ==> reduced(costs, m, u, v, p[c] as int, c) == 0
}

/// `p` matches exactly the rows `1..=k`, each to one column.
spec fn matched(m: int, p: Seq<usize>, k: int) -> bool {
    &&& p.len() == m + 1
    &&& forall|c: int| 1 <= c <= m ==> #[trigger] p[c] <= k
    &&& forall|c: int, d: int|
        1 <= c <= m && 1 <= d <= m && c != d && #[trigger] p[c] != 0 ==> p[c] != #[trigger] p[d]
    &&& forall|r: int| 1 <= r <= k ==> #[trigger] has_column(m, p, r)
}

/// Some column other than 0 holds row `r`.
spec fn has_column(m: int, p: Seq<usize>, r: int) -> bool {
    exists|c: int| 1 <= c <= m && p[c] == r
}

/// A sequence of distinct numbers drawn from `lo..hi` has at most `hi - lo` entries.
proof fn lemma_pigeonhole(s: Seq<int>, lo: int, hi: int)
    requires
        lo <= hi,
        s.no_duplicates(),
        forall|i: int| 0 <= i < s.len() ==> lo <= #[trigger] s[i] < hi,
    ensures
        s.len() <= hi - lo,
{
    s.unique_seq_to_set();
    vstd::set_lib::lemma_int_range(lo, hi);
    assert(s.to_set().subset_of(vstd::set_lib::set_int_range(lo, hi)));
    vstd::set_lib::lemma_len_subset(s.to_set(), vstd::set_lib::set_int_range(lo, hi));
}

/// While fewer than `m` rows are matched, a column is free.
proof fn lemma_free_column(m: int, p: Seq<usize>, k: int) -> (f: int)
    requires
        matched(m, p, k),
        0 <= k < m,
    ensures
        1 <= f <= m,
        p[f] == 0,
{
    if forall|c: int| 1 <= c <= m ==> p[c] != 0 {
        let s = Seq::new(m as nat, |j: int| p[j + 1] as int);
        assert(s.no_duplicates()) by {
            assert forall|i: int, j: int| 0 <= i < s.len() && 0 <= j < s.len() && i != j implies s[i]
                != s[j] by {
                assert(p[i + 1] != p[j + 1]);
            }
        }
        lemma_pigeonhole(s, 1, k + 1);
        assert(false);
    }
    choose|c: int| 1 <= c <= m && p[c] == 0
}

/// While a column is free, every potential is bounded by the largest entry.
proof fn lemma_bounds(
    costs: Seq<u32>,
    n: int,
    m: int,
    u: Seq<i64>,
    v: Seq<i64>,
    p: Seq<usize>,
    k: int,
    f: int,
)
    requires
        duals_ok(costs, n, m, u, v, p, k),
        forall|c: int| 1 <= c <= m ==> #[trigger] p[c] <= n,
        1 <= f <= m,
        p[f] == 0,
    ensures
        forall|r: int| 1 <= r <= n ==> 0 <= #[trigger] u[r] <= u32::MAX,
        forall|c: int| 1 <= c <= m ==> -u32::MAX <= #[trigger] v[c] <= 0,
{
    assert forall|r: int| 1 <= r <= n implies 0 <= #[trigger] u[r] <= u32::MAX by {
        assert(reduced(costs, m, u, v, r, f) >= 0);
    }
    assert forall|c: int| 1 <= c <= m implies -u32::MAX <= #[trigger] v[c] <= 0 by {
        if p[c] != 0 {
            assert(reduced(costs, m, u, v, p[c] as int, c) == 0);
        }
    }
}

// ── Shortest augmenting path ──────────────────────────────────────
//
// Column 0 is virtual: while row `i` is being placed, `p[0] == i`.

/// Larger than any reduced cost.
const INF: i64 = 0x3fff_ffff_ffff_ffff;

/// Columns `0..=m` that were visited, in the order of the visits; `parent[k]`
/// is the position of the column from which `order[k]` was reached.
spec fn tree_ok(
    m: int,
    visited: Seq<bool>,
    prev: Seq<usize>,
    order: Seq<int>,
    parent: Seq<int>,
) -> bool {
    &&& visited.len() == m + 1
    &&& prev.len() == m + 1
    &&& parent.len() == order.len()
    &&& order.no_duplicates()
    &&& order.len() > 0 ==> order[0] == 0
    &&& forall|k: int|
        0 <= k < order.len() ==> 0 <= #[trigger] order[k] <= m && visited[order[k]]
    &&& forall|k: int|
        1 <= k < order.len() ==> 0 <= #[trigger] parent[k] < k && prev[order[k]]
            == order[parent[k]]
    &&& forall|c: int| 0 <= c <= m && #[trigger] visited[c] ==> order.contains(c)
}

/// Every edge of the tree has reduced cost 0.
spec fn tree_tight(
    costs: Seq<u32>,
    m: int,
    u: Seq<i64>,
    v: Seq<i64>,
    p: Seq<usize>,
    prev: Seq<usize>,
    order: Seq<int>,
) -> bool {
    forall|k: int|
        1 <= k < order.len() ==> reduced(
            costs,
            m,
            u,
            v,
            p[prev[#[trigger] order[k]] as int] as int,
            order[k],
        ) == 0
}

/// `mc` is the least reduced cost of an edge from a visited column's row to
/// column `c`, attained from column `from`.
spec fn frontier_at(
    costs: Seq<u32>,
    m: int,
    u: Seq<i64>,
    v: Seq<i64>,
    p: Seq<usize>,
    visited: Seq<bool>,
    from: usize,
    mc: i64,
    c: int,
) -> bool {
    &&& from <= m
    &&& visited[from as int]
    &&& mc == reduced(costs, m, u, v, p[from as int] as int, c)
    &&& forall|k: int|
        0 <= k <= m && #[trigger] visited[k] ==> mc <= reduced(costs, m, u, v, p[k] as int, c)
}

/// Rows held by visited columns are rows of the matrix, all different.
spec fn visited_rows_ok(n: int, m: int, p: Seq<usize>, visited: Seq<bool>) -> bool {
    &&& p.len() == m + 1
    &&& visited.len() == m + 1
    &&& forall|k: int| 0 <= k <= m && #[trigger] visited[k] ==> 1 <= p[k] <= n
    &&& forall|j: int, k: int|
        0 <= j <= m && 0 <= k <= m && j != k && #[trigger] visited[j] && #[trigger] visited[k]
            ==> p[j] != p[k]
}

spec fn potentials_bounded(n: int, m: int, u: Seq<i64>, v: Seq<i64>) -> bool {
    &&& u.len() == n + 1
    &&& v.len() == m + 1
    &&& forall|r: int| 1 <= r <= n ==> 0 <= #[trigger] u[r] <= u32::MAX
    &&& forall|c: int| 1 <= c <= m ==> -u32::MAX <= #[trigger] v[c] <= 0
}

/// State of column `c` before the row of `cur` has been scanned.
spec fn pending_at(
    costs: Seq<u32>,
    m: int,
    u: Seq<i64>,
    v: Seq<i64>,
    p: Seq<usize>,
    visited: Seq<bool>,
    cur: int,
    from: usize,
    mc: i64,
    c: int,
) -> bool {
    ||| mc == INF && forall|k: int| 0 <= k <= m && #[trigger] visited[k] ==> k == cur
    ||| frontier_at(costs, m, u, v, p, visited.update(cur, false), from, mc, c)
}

// ── Choice among assignments of equal cost ────────────────────────
//
// Which column a search reaches first decides between assignments of equal
// cost. The functions below follow the search.

/// State of one search: potentials, visited columns, links, distances, and the
/// column to visit next.
ghost struct Search {
    u: Seq<i64>,
    v: Seq<i64>,
    visited: Seq<bool>,
    prev: Seq<usize>,
    min_cost: Seq<i64>,
    cur: usize,
}

/// Row and column potentials with the row of each column.
ghost struct Matching {
    u: Seq<i64>,
    v: Seq<i64>,
    p: Seq<usize>,
}

spec fn improves(
    costs: Seq<u32>,
    m: int,
    u: Seq<i64>,
    v: Seq<i64>,
    row: int,
    visited: Seq<bool>,
    min_cost: Seq<i64>,
    c: int,
) -> bool {
    1 <= c && !visited[c] && reduced(costs, m, u, v, row, c) < min_cost[c]
}

spec fn scanned_cost(
    costs: Seq<u32>,
    m: int,
    u: Seq<i64>,
    v: Seq<i64>,
    row: int,
    visited: Seq<bool>,
    min_cost: Seq<i64>,
) -> Seq<i64> {
    Seq::new(
        min_cost.len(),
        |c: int|
            if improves(costs, m, u, v, row, visited, min_cost, c) {
                reduced(costs, m, u, v, row, c) as i64
            } else {
                min_cost[c]
            },
    )
}

spec fn scanned_prev(
    costs: Seq<u32>,
    m: int,
    u: Seq<i64>,
    v: Seq<i64>,
    row: int,
    visited: Seq<bool>,
    min_cost: Seq<i64>,
    prev: Seq<usize>,
    cur: usize,
) -> Seq<usize> {
    Seq::new(
        prev.len(),
        |c: int|
            if improves(costs, m, u, v, row, visited, min_cost, c) {
                cur
            } else {
                prev[c]
            },
    )
}

/// The nearest unvisited column among `1..=j` and its distance; the first of
/// several.
spec fn nearest(visited: Seq<bool>, min_cost: Seq<i64>, j: nat) -> (i64, usize)
    decreases j,
{
    if j == 0 {
        (INF, 0)
    } else {
        let best = nearest(visited, min_cost, (j - 1) as nat);
        if !visited[j as int] && min_cost[j as int] < best.0 {
            (min_cost[j as int], j as usize)
        } else {
            best
        }
    }
}

spec fn raised(
    m: int,
    p: Seq<usize>,
    visited: Seq<bool>,
    delta: i64,
    u: Seq<i64>,
) -> Seq<i64> {
    Seq::new(
        u.len(),
        |r: int|
            if row_hit(p, visited, m + 1, r) {
                (u[r] + delta) as i64
            } else {
                u[r]
            },
    )
}

spec fn lowered(visited: Seq<bool>, delta: i64, v: Seq<i64>) -> Seq<i64> {
    Seq::new(
        v.len(),
        |c: int|
            if 1 <= c && visited[c] {
                (v[c] - delta) as i64
            } else {
                v[c]
            },
    )
}

spec fn closer(visited: Seq<bool>, delta: i64, min_cost: Seq<i64>) -> Seq<i64> {
    Seq::new(
        min_cost.len(),
        |c: int|
            if visited[c] {
                min_cost[c]
            } else {
                (min_cost[c] - delta) as i64
            },
    )
}

/// Visit the current column.
spec fn search_step(costs: Seq<u32>, m: int, p: Seq<usize>, s: Search) -> Search {
    let visited = s.visited.update(s.cur as int, true);
    let row = p[s.cur as int] as int;
    let min_cost = scanned_cost(costs, m, s.u, s.v, row, visited, s.min_cost);
    let (delta, next) = nearest(visited, min_cost, m as nat);
    Search {
        u: raised(m, p, visited, delta, s.u),
        v: lowered(visited, delta, s.v),
        visited,
        prev: scanned_prev(costs, m, s.u, s.v, row, visited, s.min_cost, s.prev, s.cur),
        min_cost: closer(visited, delta, min_cost),
        cur: next,
    }
}

/// Visit columns until the next one is free.
spec fn search_from(costs: Seq<u32>, m: int, p: Seq<usize>, s: Search, limit: nat) -> Search
    decreases limit,
{
    let t = search_step(costs, m, p, s);
    if limit == 0 || p[t.cur as int] == 0 {
        t
    } else {
        search_from(costs, m, p, t, (limit - 1) as nat)
    }
}

/// Hand rows on along the links from `cur` to column 0.
spec fn traced(p: Seq<usize>, prev: Seq<usize>, cur: usize, limit: nat) -> Seq<usize>
    decreases limit,
{
    if limit == 0 || cur == 0 {
        p
    } else {
        traced(
            p.update(cur as int, p[prev[cur as int] as int]),
            prev,
            prev[cur as int],
            (limit - 1) as nat,
        )
    }
}

/// The search for a column for row `i` before its first step.
spec fn search_start(m: int, s: Matching) -> Search {
    Search {
        u: s.u,
        v: s.v,
        visited: Seq::new((m + 1) as nat, |c: int| false),
        prev: Seq::new((m + 1) as nat, |c: int| 0usize),
        min_cost: Seq::new((m + 1) as nat, |c: int| INF),
        cur: 0,
    }
}

/// The matching after row `i` got a column.
spec fn placed(costs: Seq<u32>, m: int, i: usize, s: Matching) -> Matching {
    let p = s.p.update(0, i);
    let end = search_from(costs, m, p, search_start(m, s), m as nat);
    Matching { u: end.u, v: end.v, p: traced(p, end.prev, end.cur, (m + 1) as nat) }
}

/// The matching of the first `k` rows.
spec fn matching(costs: Seq<u32>, n: int, m: int, k: nat) -> Matching
    decreases k,
{
    if k == 0 {
        Matching {
            u: Seq::new((n + 1) as nat, |r: int| 0i64),
            v: Seq::new((m + 1) as nat, |c: int| 0i64),
            p: Seq::new((m + 1) as nat, |c: int| 0usize),
        }
    } else {
        placed(costs, m, k as usize, matching(costs, n, m, (k - 1) as nat))
    }
}

/// The columns of all rows, from the columns `1..=j` of a matching.
spec fn row_columns(n: int, p: Seq<usize>, j: nat) -> Seq<usize>
    decreases j,
{
    if j == 0 {
        Seq::new(n as nat, |r: int| 0usize)
    } else {
        let rest = row_columns(n, p, (j - 1) as nat);
        if p[j as int] > 0 {
            rest.update(p[j as int] - 1, (j - 1) as usize)
        } else {
            rest
        }
    }
}

/// The assignment that [`hungarian`] chooses for a matrix. It is one of least
/// total cost; among several, the one that shortest augmenting paths, row by
/// row and with the lowest of equally near columns first, lead to.
pub closed spec fn chosen_assignment(costs: Seq<u32>, n_rows: int, n_cols: int) -> Seq<usize> {
    row_columns(n_rows, matching(costs, n_rows, n_cols, n_rows as nat).p, n_cols as nat)
}

/// The matching behind the chosen assignment has a column for every row, and its
/// potentials show that it is of least cost.
pub closed spec fn is_settled(costs: Seq<u32>, n_rows: int, n_cols: int) -> bool {
    let s = matching(costs, n_rows, n_cols, n_rows as nat);
    matched(n_cols, s.p, n_rows) && duals_ok(costs, n_rows, n_cols, s.u, s.v, s.p, n_rows)
}

/// Relaxes every unvisited column from the row of column `cur`, and returns the
/// least reduced cost together with the column that attains it.
fn scan_columns(
    costs: &[u32],
    n_rows: usize,
    n_cols: usize,
    u: &Vec<i64>,
    v: &Vec<i64>,
    p: &Vec<usize>,
    visited: &Vec<bool>,
    cur: usize,
    min_cost: &mut Vec<i64>,
    prev: &mut Vec<usize>,
) -> (res: (i64, usize))
    requires
        costs.len() == n_rows * n_cols,
        n_cols < usize::MAX,
        potentials_bounded(n_rows as int, n_cols as int, u@, v@),
        visited_rows_ok(n_rows as int, n_cols as int, p@, visited@),
        cur <= n_cols,
        visited[cur as int],
        old(min_cost).len() == n_cols + 1,
        old(prev).len() == n_cols + 1,
        exists|c: int| 1 <= c <= n_cols && !#[trigger] visited[c],
        forall|c: int|
            1 <= c <= n_cols && !visited[c] ==> pending_at(
                costs@,
                n_cols as int,
                u@,
                v@,
                p@,
                visited@,
                cur as int,
                #[trigger] old(prev)[c],
                old(min_cost)[c],
                c,
            ),
    ensures
        final(min_cost).len() == n_cols + 1,
        final(prev).len() == n_cols + 1,
        forall|c: int|
            0 <= c <= n_cols && (c == 0 || visited[c]) ==> #[trigger] final(prev)[c] == old(
                prev,
            )[c],
        forall|c: int|
            1 <= c <= n_cols && !visited[c] ==> frontier_at(
                costs@,
                n_cols as int,
                u@,
                v@,
                p@,
                visited@,
                #[trigger] final(prev)[c],
                final(min_cost)[c],
                c,
            ),
        1 <= res.1 <= n_cols,
        !visited[res.1 as int],
        res.0 == final(min_cost)[res.1 as int],
        forall|c: int|
            1 <= c <= n_cols && !#[trigger] visited[c] ==> res.0 <= final(min_cost)[c],
        final(min_cost)@ == scanned_cost(
            costs@,
            n_cols as int,
            u@,
            v@,
            p[cur as int] as int,
            visited@,
            old(min_cost)@,
        ),
        final(prev)@ == scanned_prev(
            costs@,
            n_cols as int,
            u@,
            v@,
            p[cur as int] as int,
            visited@,
            old(min_cost)@,
            old(prev)@,
            cur,
        ),
        res == nearest(visited@, final(min_cost)@, n_cols as nat),
{
    let cur_row = p[cur];
    let mut delta: i64 = INF;
    let mut next_col: usize = 0;
    let ghost m = n_cols as int;
    let ghost seen = visited@;
    let ghost cost_after = scanned_cost(costs@, m, u@, v@, cur_row as int, seen, min_cost@);
    let ghost prev_after = scanned_prev(
        costs@,
        m,
        u@,
        v@,
        cur_row as int,
        seen,
        min_cost@,
        prev@,
        cur,
    );
    let mut j: usize = 1;
    while j <= n_cols
        invariant
            old(min_cost).len() == n_cols + 1,
            old(prev).len() == n_cols + 1,
            cost_after == scanned_cost(
                costs@,
                m,
                u@,
                v@,
                cur_row as int,
                seen,
                old(min_cost)@,
            ),
            prev_after == scanned_prev(
                costs@,
                m,
                u@,
                v@,
                cur_row as int,
                seen,
                old(min_cost)@,
                old(prev)@,
                cur,
            ),
            forall|c: int|
                0 <= c <= m ==> #[trigger] min_cost[c] == if c < j {
                    cost_after[c]
                } else {
                    old(min_cost)[c]
                },
            forall|c: int|
                0 <= c <= m ==> #[trigger] prev[c] == if c < j {
                    prev_after[c]
                } else {
                    old(prev)[c]
                },
            (delta, next_col) == nearest(seen, cost_after, (j - 1) as nat),
            1 <= j <= n_cols + 1,
            n_cols < usize::MAX,
            m == n_cols,
            seen == visited@,
            costs.len() == n_rows * n_cols,
            potentials_bounded(n_rows as int, m, u@, v@),
            visited_rows_ok(n_rows as int, m, p@, seen),
            cur <= n_cols,
            seen[cur as int],
            cur_row == p[cur as int],
            min_cost.len() == n_cols + 1,
            prev.len() == n_cols + 1,
            forall|c: int|
                0 <= c <= m && (c == 0 || seen[c]) ==> #[trigger] prev[c] == old(prev)[c],
            forall|c: int|
                j <= c <= m && !seen[c] ==> pending_at(
                    costs@,
                    m,
                    u@,
                    v@,
                    p@,
                    seen,
                    cur as int,
                    #[trigger] prev[c],
                    min_cost[c],
                    c,
                ),
            forall|c: int|
                1 <= c < j && !seen[c] ==> frontier_at(
                    costs@,
                    m,
                    u@,
                    v@,
                    p@,
                    seen,
                    #[trigger] prev[c],
                    min_cost[c],
                    c,
                ),
            next_col < j,
            next_col == 0 ==> delta == INF && forall|c: int|
                1 <= c < j ==> #[trigger] seen[c],
            next_col != 0 ==> !seen[next_col as int] && delta == min_cost[next_col as int],
            forall|c: int| 1 <= c < j && !#[trigger] seen[c] ==> delta <= min_cost[c],
        decreases n_cols + 1 - j,
    {
        if !visited[j] {
            let red: i64 = cell_at(costs, n_rows, n_cols, cur_row - 1, j - 1) - u[cur_row] - v[j];
            proof {
                assert(red == reduced(costs@, m, u@, v@, cur_row as int, j as int));
                assert(pending_at(
                    costs@,
                    m,
                    u@,
                    v@,
                    p@,
                    seen,
                    cur as int,
                    prev[j as int],
                    min_cost[j as int],
                    j as int,
                ));
                let before = seen.update(cur as int, false);
                assert forall|k: int| 0 <= k <= m && seen[k] && k != cur implies #[trigger] before[k] by {}
            }
            if red < min_cost[j] {
                min_cost[j] = red;
                prev[j] = cur;
            }
            proof {
                let before = seen.update(cur as int, false);
                let mc = min_cost[j as int];
                assert forall|k: int| 0 <= k <= m && #[trigger] seen[k] implies mc <= reduced(
                    costs@,
                    m,
                    u@,
                    v@,
                    p[k] as int,
                    j as int,
                ) by {
                    if k != cur {
                        assert(before[k]);
                    }
                }
                assert(frontier_at(costs@, m, u@, v@, p@, seen, prev[j as int], mc, j as int));
            }
            if min_cost[j] < delta {
                delta = min_cost[j];
                next_col = j;
            }
            proof {
                assert(min_cost[j as int] <= red);
                assert(red < INF);
            }
        }
        j += 1;
    }
    assert(min_cost@ =~= cost_after);
    assert(prev@ =~= prev_after);
    (delta, next_col)
}

/// One of the columns `0..j` is visited and holds row `r`.
spec fn row_hit(p: Seq<usize>, visited: Seq<bool>, j: int, r: int) -> bool {
    exists|c: int| 0 <= c < j && #[trigger] visited[c] && p[c] == r
}

/// Raises the potentials of the visited rows by `delta`, lowers those of the
/// visited columns by `delta`, and brings the unvisited columns closer by it.
fn shift_duals(
    n_rows: usize,
    n_cols: usize,
    p: &Vec<usize>,
    visited: &Vec<bool>,
    delta: i64,
    u: &mut Vec<i64>,
    v: &mut Vec<i64>,
    min_cost: &mut Vec<i64>,
)
    requires
        n_cols < usize::MAX,
        potentials_bounded(n_rows as int, n_cols as int, old(u)@, old(v)@),
        visited_rows_ok(n_rows as int, n_cols as int, p@, visited@),
        visited[0],
        old(min_cost).len() == n_cols + 1,
        0 <= delta <= u32::MAX,
        forall|c: int|
            1 <= c <= n_cols && !visited[c] ==> 0 <= #[trigger] old(min_cost)[c] <= INF,
    ensures
        final(u).len() == n_rows + 1,
        final(v).len() == n_cols + 1,
        final(min_cost).len() == n_cols + 1,
        forall|c: int|
            0 <= c <= n_cols && #[trigger] visited[c] ==> final(u)[p[c] as int] == old(
                u,
            )[p[c] as int] + delta,
        forall|r: int|
            0 <= r <= n_rows && !row_hit(p@, visited@, n_cols + 1, r) ==> #[trigger] final(u)[r]
                == old(u)[r],
        forall|c: int|
            1 <= c <= n_cols ==> #[trigger] final(v)[c] == old(v)[c] - (if visited[c] {
                delta as int
            } else {
                0
            }),
        forall|c: int|
            1 <= c <= n_cols && !visited[c] ==> #[trigger] final(min_cost)[c] == old(min_cost)[c]
                - delta,
        final(u)@ == raised(n_cols as int, p@, visited@, delta, old(u)@),
        final(v)@ == lowered(visited@, delta, old(v)@),
        final(min_cost)@ == closer(visited@, delta, old(min_cost)@),
{
    let ghost m = n_cols as int;
    let ghost seen = visited@;
    let mut j: usize = 0;
    while j <= n_cols
        invariant
            0 <= j <= n_cols + 1,
            n_cols < usize::MAX,
            m == n_cols,
            seen == visited@,
            potentials_bounded(n_rows as int, m, old(u)@, old(v)@),
            visited_rows_ok(n_rows as int, m, p@, seen),
            seen[0],
            0 <= delta <= u32::MAX,
            u.len() == n_rows + 1,
            v.len() == n_cols + 1,
            min_cost.len() == n_cols + 1,
            old(min_cost).len() == n_cols + 1,
            forall|c: int|
                1 <= c <= n_cols && !seen[c] ==> 0 <= #[trigger] old(min_cost)[c] <= INF,
            forall|c: int|
                0 <= c < j && #[trigger] seen[c] ==> u[p[c] as int] == old(u)[p[c] as int] + delta,
            forall|r: int|
                0 <= r <= n_rows && !row_hit(p@, seen, j as int, r) ==> #[trigger] u[r] == old(
                    u,
                )[r],
            forall|c: int|
                1 <= c < j ==> #[trigger] v[c] == old(v)[c] - (if seen[c] {
                    delta as int
                } else {
                    0
                }),
            forall|c: int| j <= c <= m ==> #[trigger] v[c] == old(v)[c],
            forall|c: int|
                1 <= c < j && !seen[c] ==> #[trigger] min_cost[c] == old(min_cost)[c] - delta,
            forall|c: int|
                0 <= c <= m && (j <= c || seen[c]) ==> #[trigger] min_cost[c] == old(min_cost)[c],
            v[0] == old(v)[0],
        decreases n_cols + 1 - j,
    {
        let ghost u0 = u@;
        if visited[j] {
            let row = p[j];
            proof {
                assert(!row_hit(p@, seen, j as int, row as int));
            }
            u[row] = u[row] + delta;
            if j > 0 {
                v[j] = v[j] - delta;
            }
        } else {
            min_cost[j] = min_cost[j] - delta;
        }
        proof {
            assert forall|r: int|
                0 <= r <= n_rows && !row_hit(p@, seen, j + 1, r) implies #[trigger] u[r] == old(
                u,
            )[r] by {
                if row_hit(p@, seen, j as int, r) {
                    let c = choose|c: int| 0 <= c < j && #[trigger] seen[c] && p[c] == r;
                    assert(0 <= c < j + 1 && seen[c] && p[c] == r);
                }
                if seen[j as int] {
                    assert(p[j as int] != r);
                }
            }
            assert forall|c: int| 0 <= c < j + 1 && #[trigger] seen[c] implies u[p[c] as int]
                == old(u)[p[c] as int] + delta by {
                if c < j && seen[j as int] {
                    assert(p[c] != p[j as int]);
                }
            }
        }
        j += 1;
    }
    proof {
        assert forall|r: int| 0 <= r <= n_rows implies u[r] == raised(
            m,
            p@,
            seen,
            delta,
            old(u)@,
        )[r] by {
            if row_hit(p@, seen, m + 1, r) {
                let c = choose|c: int| 0 <= c < m + 1 && #[trigger] seen[c] && p[c] == r;
                assert(u[p[c] as int] == old(u)[p[c] as int] + delta);
            }
        }
        assert(u@ =~= raised(m, p@, seen, delta, old(u)@));
        assert(v@ =~= lowered(seen, delta, old(v)@));
        assert(min_cost@ =~= closer(seen, delta, old(min_cost)@));
    }
}

/// Shifting keeps the certificate, the tree and the frontier, and makes the
/// edge into the nearest column tight.
proof fn lemma_shift(
    costs: Seq<u32>,
    n: int,
    m: int,
    p: Seq<usize>,
    k: int,
    visited: Seq<bool>,
    prev: Seq<usize>,
    order: Seq<int>,
    parent: Seq<int>,
    delta: int,
    u0: Seq<i64>,
    v0: Seq<i64>,
    mc0: Seq<i64>,
    u1: Seq<i64>,
    v1: Seq<i64>,
    mc1: Seq<i64>,
)
    requires
        1 <= k <= n,
        u1.len() == n + 1,
        v1.len() == m + 1,
        mc0.len() == m + 1,
        mc1.len() == m + 1,
        p[0] == k,
        matched(m, p, k - 1),
        duals_ok(costs, n, m, u0, v0, p, k),
        visited_rows_ok(n, m, p, visited),
        visited[0],
        tree_ok(m, visited, prev, order, parent),
        tree_tight(costs, m, u0, v0, p, prev, order),
        forall|c: int|
            1 <= c <= m && !visited[c] ==> frontier_at(
                costs,
                m,
                u0,
                v0,
                p,
                visited,
                #[trigger] prev[c],
                mc0[c],
                c,
            ),
        0 <= delta,
        forall|c: int| 1 <= c <= m && !#[trigger] visited[c] ==> delta <= mc0[c],
        forall|c: int|
            0 <= c <= m && #[trigger] visited[c] ==> u1[p[c] as int] == u0[p[c] as int] + delta,
        forall|r: int|
            0 <= r <= n && !row_hit(p, visited, m + 1, r) ==> #[trigger] u1[r] == u0[r],
        forall|c: int|
            1 <= c <= m ==> #[trigger] v1[c] == v0[c] - (if visited[c] {
                delta
            } else {
                0
            }),
        forall|c: int| 1 <= c <= m && !visited[c] ==> #[trigger] mc1[c] == mc0[c] - delta,
    ensures
        duals_ok(costs, n, m, u1, v1, p, k),
        tree_tight(costs, m, u1, v1, p, prev, order),
        forall|c: int|
            1 <= c <= m && !visited[c] ==> frontier_at(
                costs,
                m,
                u1,
                v1,
                p,
                visited,
                #[trigger] prev[c],
                mc1[c],
                c,
            ),
{
    assert forall|r: int| 1 <= r <= n implies #[trigger] u1[r] >= u0[r] by {
        if row_hit(p, visited, m + 1, r) {
            let c = choose|c: int| 0 <= c < m + 1 && #[trigger] visited[c] && p[c] == r;
            assert(u1[p[c] as int] == u0[p[c] as int] + delta);
        }
    }
    assert forall|r: int, c: int| 1 <= r <= n && 1 <= c <= m implies #[trigger] reduced(
        costs,
        m,
        u1,
        v1,
        r,
        c,
    ) >= 0 by {
        assert(reduced(costs, m, u0, v0, r, c) >= 0);
        if row_hit(p, visited, m + 1, r) {
            let d = choose|d: int| 0 <= d < m + 1 && #[trigger] visited[d] && p[d] == r;
            assert(u1[p[d] as int] == u0[p[d] as int] + delta);
            if !visited[c] {
                assert(frontier_at(costs, m, u0, v0, p, visited, prev[c], mc0[c], c));
                assert(mc0[c] <= reduced(costs, m, u0, v0, p[d] as int, c));
            }
        }
    }
    assert forall|r: int| k < r <= n implies #[trigger] u1[r] == 0 by {
        assert(u0[r] == 0);
        if row_hit(p, visited, m + 1, r) {
            let c = choose|c: int| 0 <= c < m + 1 && #[trigger] visited[c] && p[c] == r;
            assert(c != 0);
            assert(p[c] <= k - 1);
        }
    }
    assert forall|c: int| 1 <= c <= m && #[trigger] p[c] == 0 implies v1[c] == 0 by {
        assert(v0[c] == 0);
        assert(!visited[c]);
    }
    assert forall|c: int| 1 <= c <= m && #[trigger] p[c] != 0 implies reduced(
        costs,
        m,
        u1,
        v1,
        p[c] as int,
        c,
    ) == 0 by {
        assert(reduced(costs, m, u0, v0, p[c] as int, c) == 0);
        if !visited[c] {
            if row_hit(p, visited, m + 1, p[c] as int) {
                let d = choose|d: int| 0 <= d < m + 1 && #[trigger] visited[d] && p[d] == p[c];
                if d == 0 {
                    assert(p[c] <= k - 1);
                } else {
                    assert(p[d] != 0);
                    assert(p[d] != p[c]);
                }
            }
            assert(u1[p[c] as int] == u0[p[c] as int]);
        }
    }
    assert forall|i: int| 1 <= i < order.len() implies reduced(
        costs,
        m,
        u1,
        v1,
        p[prev[#[trigger] order[i]] as int] as int,
        order[i],
    ) == 0 by {
        let from = order[parent[i]];
        assert(prev[order[i]] == from);
        assert(visited[from]);
        assert(visited[order[i]]);
        assert(order[i] != order[0]);
        assert(u1[p[from] as int] == u0[p[from] as int] + delta);
    }
    assert forall|c: int| 1 <= c <= m && !visited[c] implies frontier_at(
        costs,
        m,
        u1,
        v1,
        p,
        visited,
        #[trigger] prev[c],
        mc1[c],
        c,
    ) by {
        assert(frontier_at(costs, m, u0, v0, p, visited, prev[c], mc0[c], c));
        assert forall|j: int| 0 <= j <= m && #[trigger] visited[j] implies mc1[c] <= reduced(
            costs,
            m,
            u1,
            v1,
            p[j] as int,
            c,
        ) by {
            assert(mc0[c] <= reduced(costs, m, u0, v0, p[j] as int, c));
        }
    }
}

/// State of the search for a column for row `i`, with `cur` next to be visited.
spec fn search_ok(
    costs: Seq<u32>,
    n: int,
    m: int,
    u: Seq<i64>,
    v: Seq<i64>,
    p: Seq<usize>,
    i: int,
    visited: Seq<bool>,
    prev: Seq<usize>,
    min_cost: Seq<i64>,
    order: Seq<int>,
    parent: Seq<int>,
    cur: int,
) -> bool {
    &&& p[0] == i
    &&& matched(m, p, i - 1)
    &&& duals_ok(costs, n, m, u, v, p, i)
    &&& visited_rows_ok(n, m, p, visited)
    &&& tree_ok(m, visited, prev, order, parent)
    &&& tree_tight(costs, m, u, v, p, prev, order)
    &&& min_cost.len() == m + 1
    &&& 0 <= cur <= m
    &&& !visited[cur]
    &&& order.len() == 0 ==> cur == 0 && forall|c: int|
        1 <= c <= m ==> #[trigger] min_cost[c] == INF
    &&& order.len() > 0 ==> {
        &&& visited[0]
        &&& cur >= 1
        &&& min_cost[cur] == 0
        &&& forall|c: int|
            1 <= c <= m && !visited[c] ==> frontier_at(
                costs,
                m,
                u,
                v,
                p,
                visited,
                #[trigger] prev[c],
                min_cost[c],
                c,
            )
    }
}

/// Visiting `cur` extends the tree by it.
proof fn lemma_visit(
    costs: Seq<u32>,
    n: int,
    m: int,
    u: Seq<i64>,
    v: Seq<i64>,
    p: Seq<usize>,
    i: int,
    visited: Seq<bool>,
    prev: Seq<usize>,
    min_cost: Seq<i64>,
    order: Seq<int>,
    parent: Seq<int>,
    cur: int,
) -> (up: int)
    requires
        search_ok(costs, n, m, u, v, p, i, visited, prev, min_cost, order, parent, cur),
        1 <= i <= n,
    ensures
        tree_ok(m, visited.update(cur, true), prev, order.push(cur), parent.push(up)),
        tree_tight(costs, m, u, v, p, prev, order.push(cur)),
        order.len() < m + 1,
        order.len() > 0 ==> 0 <= up < order.len() && order[up] == prev[cur],
{
    let seen = visited.update(cur, true);
    let up = if order.len() == 0 {
        0
    } else {
        assert(frontier_at(costs, m, u, v, p, visited, prev[cur], min_cost[cur], cur));
        assert(order.contains(prev[cur] as int));
        order.index_of(prev[cur] as int)
    };
    let next = order.push(cur);
    assert(!order.contains(cur)) by {
        if order.contains(cur) {
            let k = choose|k: int| 0 <= k < order.len() && order[k] == cur;
            assert(visited[order[k]]);
        }
    }
    assert(next.no_duplicates());
    assert forall|c: int| 0 <= c <= m && #[trigger] seen[c] implies next.contains(c) by {
        if c == cur {
            assert(next[order.len() as int] == cur);
        } else {
            assert(visited[c]);
            let k = choose|k: int| 0 <= k < order.len() && order[k] == c;
            assert(next[k] == c);
        }
    }
    assert forall|k: int| 0 <= k < next.len() implies 0 <= #[trigger] next[k] <= m
        && seen[next[k]] by {
        if k < order.len() {
            assert(next[k] == order[k]);
        }
    }
    assert forall|k: int| 1 <= k < next.len() implies 0 <= #[trigger] parent.push(up)[k] < k
        && prev[next[k]] == next[parent.push(up)[k]] by {
        if k < order.len() {
            assert(parent.push(up)[k] == parent[k]);
            assert(next[k] == order[k]);
        }
    }
    assert forall|k: int| 1 <= k < next.len() implies reduced(
        costs,
        m,
        u,
        v,
        p[prev[#[trigger] next[k]] as int] as int,
        next[k],
    ) == 0 by {
        if k < order.len() {
            assert(next[k] == order[k]);
        }
    }
    lemma_pigeonhole(next, 0, m + 1);
    up
}

/// A column other than `gap` holds row `r`.
spec fn held_besides(m: int, p: Seq<usize>, gap: int, r: int) -> bool {
    exists|c: int| 0 <= c <= m && c != gap && #[trigger] p[c] == r
}

/// Hands the rows along the tree path that ends in `cur` one column on, which
/// gives row `i` a column.
fn trace_back(
    Ghost(costs): Ghost<Seq<u32>>,
    Ghost(u): Ghost<Seq<i64>>,
    Ghost(v): Ghost<Seq<i64>>,
    n_rows: usize,
    n_cols: usize,
    i: usize,
    prev: &Vec<usize>,
    start: usize,
    p: &mut Vec<usize>,
    Ghost(visited): Ghost<Seq<bool>>,
    Ghost(order): Ghost<Seq<int>>,
    Ghost(parent): Ghost<Seq<int>>,
)
    requires
        1 <= i <= n_rows,
        n_cols < usize::MAX,
        1 <= start <= n_cols,
        old(p)[0] == i,
        old(p)[start as int] == 0,
        matched(n_cols as int, old(p)@, i - 1),
        duals_ok(costs, n_rows as int, n_cols as int, u, v, old(p)@, i as int),
        tree_ok(n_cols as int, visited, prev@, order, parent),
        tree_tight(costs, n_cols as int, u, v, old(p)@, prev@, order),
        order.len() > 1,
        order.last() == start,
        forall|k: int| 0 <= k < order.len() - 1 ==> old(p)[#[trigger] order[k]] != 0,
    ensures
        matched(n_cols as int, final(p)@, i as int),
        duals_ok(costs, n_rows as int, n_cols as int, u, v, final(p)@, i as int),
        final(p)@ == traced(old(p)@, prev@, start, n_cols as nat + 1),
{
    let ghost m = n_cols as int;
    let ghost p0 = p@;
    let ghost mut pos: int = order.len() - 1;
    let ghost mut limit: nat = n_cols as nat + 1;
    let mut cur: usize = start;
    proof {
        lemma_pigeonhole(order, 0, m + 1);
        assert forall|r: int| 1 <= r <= i implies #[trigger] held_besides(
            m,
            p@,
            cur as int,
            r,
        ) by {
            if r == i {
                assert(p[0] == r);
            } else {
                assert(has_column(m, p@, r));
                let c = choose|c: int| 1 <= c <= m && p[c] == r;
                assert(p[c] == r);
            }
        }
    }
    while cur != 0
        invariant
            1 <= i <= n_rows,
            m == n_cols,
            n_cols < usize::MAX,
            p.len() == m + 1,
            p0.len() == m + 1,
            tree_ok(m, visited, prev@, order, parent),
            tree_tight(costs, m, u, v, p0, prev@, order),
            0 <= pos < order.len(),
            pos <= limit,
            traced(p0, prev@, start, n_cols as nat + 1) == traced(p@, prev@, cur, limit),
            order[pos] == cur,
            cur <= n_cols,
            duals_ok(costs, n_rows as int, m, u, v, p0, i as int),
            forall|k: int| 0 <= k < pos ==> p[#[trigger] order[k]] == p0[order[k]],
            forall|k: int| 0 <= k < pos ==> p0[#[trigger] order[k]] != 0,
            forall|c: int| 0 <= c <= m ==> #[trigger] p[c] <= i,
            forall|c: int|
                1 <= c <= m && c != cur && #[trigger] p[c] != 0 ==> reduced(
                    costs,
                    m,
                    u,
                    v,
                    p[c] as int,
                    c,
                ) == 0,
            forall|c: int| 1 <= c <= m && c != cur && #[trigger] p[c] == 0 ==> v[c] == 0,
            forall|c: int, d: int|
                0 <= c <= m && 0 <= d <= m && c != d && c != cur && d != cur && #[trigger] p[c]
                    != 0 ==> p[c] != #[trigger] p[d],
            forall|r: int| 1 <= r <= i ==> #[trigger] held_besides(m, p@, cur as int, r),
        decreases pos,
    {
        let ghost before = p@;
        let ghost gone = cur as int;
        let prev_col = prev[cur];
        proof {
            assert(order[0] == 0);
            assert(pos >= 1);
            assert(0 <= parent[pos] < pos);
            assert(prev_col == order[parent[pos]]);
            assert(0 <= order[parent[pos]] <= m);
            assert(reduced(costs, m, u, v, p0[prev[order[pos]] as int] as int, order[pos]) == 0);
            assert(p[order[parent[pos]]] == p0[order[parent[pos]]]);
            assert(order[parent[pos]] != order[pos]);
        }
        p[cur] = p[prev_col];
        cur = prev_col;
        proof {
            let old_pos = pos;
            pos = parent[pos];
            limit = (limit - 1) as nat;
            assert forall|k: int| 0 <= k < pos implies p[#[trigger] order[k]] == p0[order[k]] by {
                assert(order[k] != order[old_pos]);
            }
            assert forall|r: int| 1 <= r <= i implies #[trigger] held_besides(
                m,
                p@,
                cur as int,
                r,
            ) by {
                assert(held_besides(m, before, gone, r));
                let c = choose|c: int| 0 <= c <= m && c != gone && #[trigger] before[c] == r;
                if c == cur {
                    assert(p[gone] == r);
                } else {
                    assert(p[c] == r);
                }
            }
            assert forall|c: int, d: int|
                0 <= c <= m && 0 <= d <= m && c != d && c != cur && d != cur && #[trigger] p[c]
                    != 0 implies p[c] != #[trigger] p[d] by {
                if c == gone {
                    assert(before[cur as int] != before[d]);
                } else if d == gone {
                    assert(before[c] != before[cur as int]);
                } else {
                    assert(before[c] != before[d]);
                }
            }
            assert forall|c: int| 1 <= c <= m && c != cur && #[trigger] p[c] == 0 implies v[c]
                == 0 by {
                assert(p[gone] != 0);
            }
        }
    }
    proof {
        assert forall|r: int| 1 <= r <= i implies #[trigger] has_column(m, p@, r) by {
            assert(held_besides(m, p@, 0, r));
            let c = choose|c: int| 0 <= c <= m && c != 0 && #[trigger] p[c] == r;
            assert(1 <= c <= m && p[c] == r);
        }
    }
}

/// Gives row `i` a column along a shortest augmenting path, keeping the dual
/// certificate for the rows placed before.
fn augment_row(
    costs: &[u32],
    n_rows: usize,
    n_cols: usize,
    i: usize,
    u: &mut Vec<i64>,
    v: &mut Vec<i64>,
    col_to_row: &mut Vec<usize>,
)
    requires
        costs.len() == n_rows * n_cols,
        n_rows <= n_cols < usize::MAX,
        1 <= i <= n_rows,
        matched(n_cols as int, old(col_to_row)@, i - 1),
        duals_ok(costs@, n_rows as int, n_cols as int, old(u)@, old(v)@, old(col_to_row)@, i - 1),
    ensures
        matched(n_cols as int, final(col_to_row)@, i as int),
        duals_ok(
            costs@,
            n_rows as int,
            n_cols as int,
            final(u)@,
            final(v)@,
            final(col_to_row)@,
            i as int,
        ),
        (Matching { u: final(u)@, v: final(v)@, p: final(col_to_row)@ }) == placed(
            costs@,
            n_cols as int,
            i,
            (Matching { u: old(u)@, v: old(v)@, p: old(col_to_row)@ }),
        ),
{
    let ghost n = n_rows as int;
    let ghost m = n_cols as int;
    let ghost start = search_start(m, Matching { u: u@, v: v@, p: col_to_row@ });
    let ghost f = lemma_free_column(m, col_to_row@, i - 1);
    let ghost p_in = col_to_row@;
    col_to_row[0] = i;
    let ghost p = col_to_row@;
    proof {
        assert forall|c: int| 1 <= c <= m implies p[c] == p_in[c] by {}
        assert forall|c: int| 1 <= c <= m && #[trigger] p[c] == 0 implies v[c] == 0 by {
            assert(p_in[c] == 0);
        }
        assert forall|c: int| 1 <= c <= m && #[trigger] p[c] != 0 implies reduced(
            costs@,
            m,
            u@,
            v@,
            p[c] as int,
            c,
        ) == 0 by {
            assert(p_in[c] != 0);
        }
        assert forall|r: int| 1 <= r <= i - 1 implies #[trigger] has_column(m, p, r) by {
            assert(has_column(m, p_in, r));
            let c = choose|c: int| 1 <= c <= m && p_in[c] == r;
            assert(p[c] == r);
        }
        assert forall|c: int, d: int|
            1 <= c <= m && 1 <= d <= m && c != d && #[trigger] p[c] != 0 implies p[c]
            != #[trigger] p[d] by {
            assert(p_in[c] != p_in[d]);
        }
        assert forall|c: int| 1 <= c <= m implies #[trigger] p[c] <= i - 1 by {
            assert(p_in[c] <= i - 1);
        }
    }
    let mut min_cost: Vec<i64> = vec![INF; n_cols + 1];
    let mut visited: Vec<bool> = vec![false; n_cols + 1];
    let mut prev: Vec<usize> = vec![0; n_cols + 1];
    let ghost mut order: Seq<int> = Seq::empty();
    let ghost mut parent: Seq<int> = Seq::empty();
    let mut cur: usize = 0;
    let ghost end = search_from(costs@, m, p, start, m as nat);
    let ghost mut limit: nat = m as nat;
    proof {
        assert(visited@ =~= start.visited);
        assert(prev@ =~= start.prev);
        assert(min_cost@ =~= start.min_cost);
    }
    loop
        invariant_except_break
            limit + order.len() == m,
            end == search_from(
                costs@,
                m,
                p,
                (Search {
                    u: u@,
                    v: v@,
                    visited: visited@,
                    prev: prev@,
                    min_cost: min_cost@,
                    cur,
                }),
                limit,
            ),
            search_ok(
                costs@,
                n,
                m,
                u@,
                v@,
                p,
                i as int,
                visited@,
                prev@,
                min_cost@,
                order,
                parent,
                cur as int,
            ),
            p[cur as int] != 0,
        invariant
            costs.len() == n_rows * n_cols,
            n_rows <= n_cols < usize::MAX,
            1 <= i <= n_rows,
            n == n_rows,
            m == n_cols,
            p == col_to_row@,
            1 <= f <= m,
            p[f] == 0,
        ensures
            1 <= cur <= n_cols,
            p[cur as int] == 0,
            order.len() > 0,
            end.u == u@,
            end.v == v@,
            end.prev == prev@,
            end.cur == cur,
            search_ok(
                costs@,
                n,
                m,
                u@,
                v@,
                p,
                i as int,
                visited@,
                prev@,
                min_cost@,
                order,
                parent,
                cur as int,
            ),
        decreases m + 1 - order.len(),
    {
        let ghost up = lemma_visit(
            costs@,
            n,
            m,
            u@,
            v@,
            p,
            i as int,
            visited@,
            prev@,
            min_cost@,
            order,
            parent,
            cur as int,
        );
        let ghost before = visited@;
        let ghost state = Search {
            u: u@,
            v: v@,
            visited: visited@,
            prev: prev@,
            min_cost: min_cost@,
            cur,
        };
        visited[cur] = true;
        let ghost seen = visited@;
        proof {
            lemma_bounds(costs@, n, m, u@, v@, p, i as int, f);
            assert forall|j: int, k: int|
                0 <= j <= m && 0 <= k <= m && j != k && #[trigger] seen[j]
                    && #[trigger] seen[k] implies p[j] != p[k] by {
                if j != cur && k != cur {
                    assert(before[j] && before[k]);
                } else if j >= 1 && k >= 1 {
                    assert(p[j] != 0 && p[k] != 0);
                } else if j == 0 {
                    assert(p[k] <= i - 1);
                } else {
                    assert(p[j] <= i - 1);
                }
            }
            assert forall|k: int| 0 <= k <= m && #[trigger] seen[k] implies 1 <= p[k] <= n by {
                if k != cur {
                    assert(before[k]);
                } else if k > 0 {
                    assert(p[k] <= i - 1);
                }
            }
            assert(visited_rows_ok(n, m, p, seen));
            assert(!seen[f]);
            assert(seen.update(cur as int, false) =~= before);
            assert forall|c: int| 1 <= c <= m && !seen[c] implies pending_at(
                costs@,
                m,
                u@,
                v@,
                p,
                seen,
                cur as int,
                #[trigger] prev[c],
                min_cost[c],
                c,
            ) by {
                if order.len() == 0 {
                    assert forall|k: int| 0 <= k <= m && #[trigger] seen[k] implies k == cur by {
                        if k != cur {
                            assert(before[k]);
                            assert(order.contains(k));
                        }
                    }
                } else {
                    assert(!before[c]);
                }
            }
            order = order.push(cur as int);
            parent = parent.push(up);
        }
        let ghost prev0 = prev@;
        let (delta, next_col) = scan_columns(
            costs,
            n_rows,
            n_cols,
            u,
            v,
            col_to_row,
            &visited,
            cur,
            &mut min_cost,
            &mut prev,
        );
        let ghost u0 = u@;
        let ghost v0 = v@;
        let ghost mc0 = min_cost@;
        proof {
            // The tree only looks at links of visited columns.
            assert forall|k: int| 0 <= k < order.len() implies prev[#[trigger] order[k]]
                == prev0[order[k]] by {
                assert(seen[order[k]]);
            }
            assert(tree_ok(m, seen, prev@, order, parent));
            assert forall|k: int| 1 <= k < order.len() implies reduced(
                costs@,
                m,
                u@,
                v@,
                p[prev[#[trigger] order[k]] as int] as int,
                order[k],
            ) == 0 by {
                assert(prev[order[k]] == prev0[order[k]]);
            }
            assert(tree_tight(costs@, m, u@, v@, p, prev@, order));
            assert forall|c: int| 1 <= c <= m && !seen[c] implies 0 <= #[trigger] mc0[c] <= INF by {
                assert(frontier_at(costs@, m, u0, v0, p, seen, prev[c], mc0[c], c));
                assert(reduced(costs@, m, u0, v0, p[prev[c] as int] as int, c) >= 0);
            }
            assert(order[0] == 0);
            assert(seen[0]);
            assert(frontier_at(costs@, m, u0, v0, p, seen, prev[f], mc0[f], f));
            assert(mc0[f] <= u32::MAX);
            assert(0 <= mc0[next_col as int]);
        }
        shift_duals(n_rows, n_cols, col_to_row, &visited, delta, u, v, &mut min_cost);
        proof {
            lemma_shift(
                costs@,
                n,
                m,
                p,
                i as int,
                seen,
                prev@,
                order,
                parent,
                delta as int,
                u0,
                v0,
                mc0,
                u@,
                v@,
                min_cost@,
            );
        }
        cur = next_col;
        let ghost after = Search {
            u: u@,
            v: v@,
            visited: visited@,
            prev: prev@,
            min_cost: min_cost@,
            cur,
        };
        assert(after == search_step(costs@, m, p, state));
        if col_to_row[cur] == 0 {
            break;
        }
        proof {
            let _ = lemma_visit(
                costs@,
                n,
                m,
                u@,
                v@,
                p,
                i as int,
                visited@,
                prev@,
                min_cost@,
                order,
                parent,
                cur as int,
            );
            limit = (limit - 1) as nat;
        }
    }
    let ghost up = lemma_visit(
        costs@,
        n,
        m,
        u@,
        v@,
        p,
        i as int,
        visited@,
        prev@,
        min_cost@,
        order,
        parent,
        cur as int,
    );
    proof {
        assert forall|k: int| 0 <= k < order.push(cur as int).len() - 1 implies p[#[trigger] order.push(
            cur as int,
        )[k]] != 0 by {
            assert(order.push(cur as int)[k] == order[k]);
            assert(visited[order[k]]);
        }
    }
    trace_back(
        Ghost(costs@),
        Ghost(u@),
        Ghost(v@),
        n_rows,
        n_cols,
        i,
        &prev,
        cur,
        col_to_row,
        Ghost(visited@.update(cur as int, true)),
        Ghost(order.push(cur as int)),
        Ghost(parent.push(up)),
    );
}

// ── Optimality ────────────────────────────────────────────────────

/// Sum of a sequence.
spec fn sum(s: Seq<int>) -> int
    decreases s.len(),
{
    if s.len() == 0 {
        0
    } else {
        sum(s.drop_last()) + s.last()
    }
}

/// Sum of `w` over the columns that `a` picks.
spec fn picked_sum(w: Seq<int>, a: Seq<usize>) -> int
    decreases a.len(),
{
    if a.len() == 0 {
        0
    } else {
        picked_sum(w, a.drop_last()) + w[a.last() as int]
    }
}

proof fn lemma_sum_update(s: Seq<int>, c: int, x: int)
    requires
        0 <= c < s.len(),
    ensures
        sum(s.update(c, x)) == sum(s) - s[c] + x,
    decreases s.len(),
{
    let t = s.update(c, x);
    if c == s.len() - 1 {
        assert(t.drop_last() =~= s.drop_last());
    } else {
        lemma_sum_update(s.drop_last(), c, x);
        assert(t.drop_last() =~= s.drop_last().update(c, x));
    }
}

proof fn lemma_picked_sum_update(w: Seq<int>, a: Seq<usize>, c: int, x: int)
    requires
        0 <= c < w.len(),
        forall|k: int| 0 <= k < a.len() ==> #[trigger] a[k] < w.len() && a[k] != c,
    ensures
        picked_sum(w.update(c, x), a) == picked_sum(w, a),
    decreases a.len(),
{
    if a.len() > 0 {
        let b = a.drop_last();
        assert forall|k: int| 0 <= k < b.len() implies #[trigger] b[k] < w.len() && b[k] != c by {
            assert(b[k] == a[k]);
        }
        lemma_picked_sum_update(w, b, c, x);
        assert(a[a.len() - 1] != c);
    }
}

proof fn lemma_sum_nonpositive(w: Seq<int>)
    requires
        forall|c: int| 0 <= c < w.len() ==> #[trigger] w[c] <= 0,
    ensures
        sum(w) <= 0,
        (forall|c: int| 0 <= c < w.len() ==> #[trigger] w[c] == 0) ==> sum(w) == 0,
    decreases w.len(),
{
    if w.len() > 0 {
        let x = w.drop_last();
        assert forall|c: int| 0 <= c < x.len() implies #[trigger] x[c] <= 0 by {
            assert(x[c] == w[c]);
        }
        lemma_sum_nonpositive(x);
        if forall|c: int| 0 <= c < w.len() ==> #[trigger] w[c] == 0 {
            assert forall|c: int| 0 <= c < x.len() implies #[trigger] x[c] == 0 by {
                assert(x[c] == w[c]);
            }
        }
    }
}

/// Distinct columns of nonpositive weight weigh at least as much as all
/// columns, and exactly as much when the others weigh nothing.
proof fn lemma_picked_sum(w: Seq<int>, n_rows: int, a: Seq<usize>)
    requires
        w.len() <= usize::MAX,
        is_assignment(n_rows, w.len() as int, a),
        forall|c: int| 0 <= c < w.len() ==> #[trigger] w[c] <= 0,
    ensures
        picked_sum(w, a) >= sum(w),
        (forall|c: int|
            0 <= c < w.len() && !a.contains(c as usize) ==> #[trigger] w[c] == 0) ==> picked_sum(
            w,
            a,
        ) == sum(w),
    decreases a.len(),
{
    if a.len() == 0 {
        lemma_sum_nonpositive(w);
        if forall|c: int| 0 <= c < w.len() && !a.contains(c as usize) ==> #[trigger] w[c] == 0 {
            assert forall|c: int| 0 <= c < w.len() implies #[trigger] w[c] == 0 by {
                assert(!a.contains(c as usize));
            }
        }
    } else {
        let b = a.drop_last();
        let c0 = a.last() as int;
        assert(a[a.len() - 1] == c0);
        let x = w.update(c0, 0);
        assert forall|k: int| 0 <= k < b.len() implies #[trigger] b[k] < w.len() && b[k] != c0 by {
            assert(b[k] == a[k]);
        }
        assert(is_assignment(n_rows - 1, x.len() as int, b)) by {
            assert forall|r: int, s: int| 0 <= r < s < b.len() implies #[trigger] b[r]
                != #[trigger] b[s] by {
                assert(a[r] != a[s]);
            }
        }
        lemma_picked_sum(x, n_rows - 1, b);
        lemma_sum_update(w, c0, 0);
        lemma_picked_sum_update(w, b, c0, 0);
        if forall|c: int| 0 <= c < w.len() && !a.contains(c as usize) ==> #[trigger] w[c] == 0 {
            assert forall|c: int| 0 <= c < x.len() && !b.contains(c as usize) implies #[trigger] x[c]
                == 0 by {
                if c != c0 {
                    assert(w[c] == x[c]);
                    if a.contains(c as usize) {
                        let k = choose|k: int| 0 <= k < a.len() && a[k] == c as usize;
                        assert(b[k] == c as usize);
                    }
                }
            }
        }
    }
}

/// Lower bound of an assignment's cost by the potentials, attained when every
/// picked cell is tight.
proof fn lemma_dual_bound(
    costs: Seq<u32>,
    m: int,
    ru: Seq<int>,
    cv: Seq<int>,
    n_rows: int,
    a: Seq<usize>,
)
    requires
        is_assignment(n_rows, m, a),
        ru.len() >= n_rows,
        cv.len() == m,
        forall|r: int, c: int|
            0 <= r < n_rows && 0 <= c < m ==> #[trigger] cell(costs, m, r, c) >= ru[r] + cv[c],
    ensures
        total_cost(costs, m, a) >= sum(ru.take(n_rows)) + picked_sum(cv, a),
        (forall|r: int|
            0 <= r < n_rows ==> cell(costs, m, r, #[trigger] a[r] as int) == ru[r]
                + cv[a[r] as int]) ==> total_cost(costs, m, a) == sum(ru.take(n_rows))
            + picked_sum(cv, a),
    decreases a.len(),
{
    if a.len() == 0 {
        assert(ru.take(n_rows) =~= Seq::empty());
    } else {
        let b = a.drop_last();
        assert forall|k: int| 0 <= k < b.len() implies #[trigger] b[k] < m by {
            assert(b[k] == a[k]);
        }
        assert forall|r: int, s: int| 0 <= r < s < b.len() implies #[trigger] b[r]
            != #[trigger] b[s] by {
            assert(a[r] != a[s]);
        }
        lemma_dual_bound(costs, m, ru, cv, n_rows - 1, b);
        assert(ru.take(n_rows).drop_last() =~= ru.take(n_rows - 1));
        assert(a[n_rows - 1] < m);
        assert(cell(costs, m, n_rows - 1, a[n_rows - 1] as int) >= ru[n_rows - 1]
            + cv[a[n_rows - 1] as int]);
        if forall|r: int|
            0 <= r < n_rows ==> cell(costs, m, r, #[trigger] a[r] as int) == ru[r]
                + cv[a[r] as int] {
            assert forall|r: int| 0 <= r < n_rows - 1 implies cell(
                costs,
                m,
                r,
                #[trigger] b[r] as int,
            ) == ru[r] + cv[b[r] as int] by {
                assert(b[r] == a[r]);
            }
        }
    }
}

/// A complete matching with a dual certificate is a min-cost assignment.
proof fn lemma_certificate(
    costs: Seq<u32>,
    n: int,
    m: int,
    u: Seq<i64>,
    v: Seq<i64>,
    p: Seq<usize>,
    a: Seq<usize>,
)
    requires
        0 <= n <= m <= usize::MAX,
        matched(m, p, n),
        duals_ok(costs, n, m, u, v, p, n),
        is_assignment(n, m, a),
        forall|r: int| 0 <= r < n ==> p[#[trigger] a[r] + 1] == r + 1,
    ensures
        is_min_cost_assignment(costs, n, m, a),
{
    let ru = Seq::new(n as nat, |r: int| u[r + 1] as int);
    let cv = Seq::new(m as nat, |c: int| v[c + 1] as int);
    assert forall|r: int, c: int| 0 <= r < n && 0 <= c < m implies #[trigger] cell(costs, m, r, c)
        >= ru[r] + cv[c] by {
        assert(reduced(costs, m, u, v, r + 1, c + 1) >= 0);
    }
    assert forall|r: int| 0 <= r < n implies cell(costs, m, r, #[trigger] a[r] as int) == ru[r]
        + cv[a[r] as int] by {
        assert(p[a[r] + 1] != 0);
        assert(reduced(costs, m, u, v, p[a[r] + 1] as int, a[r] + 1) == 0);
    }
    assert forall|c: int| 0 <= c < cv.len() implies #[trigger] cv[c] <= 0 by {
        assert(v[c + 1] <= 0);
    }
    assert forall|c: int| 0 <= c < cv.len() && !a.contains(c as usize) implies #[trigger] cv[c]
        == 0 by {
        if p[c + 1] != 0 {
            let r = p[c + 1] as int;
            assert(p[c + 1] <= n);
            assert(p[a[r - 1] + 1] == r);
            if a[r - 1] != c {
                assert(p[c + 1] != p[a[r - 1] + 1]);
            }
            assert(a[r - 1] == c as usize);
            assert(false);
        }
    }
    lemma_dual_bound(costs, m, ru, cv, n, a);
    lemma_picked_sum(cv, n, a);
    assert forall|b: Seq<usize>| #[trigger] is_assignment(n, m, b) implies total_cost(costs, m, a)
        <= total_cost(costs, m, b) by {
        lemma_dual_bound(costs, m, ru, cv, n, b);
        lemma_picked_sum(cv, n, b);
    }
}

/// Solve the rectangular min-cost assignment problem (`n_rows <= n_cols`).
///
/// `costs` is a flattened row-major `n_rows` by `n_cols` matrix. Entry `i` of
/// the result is the column assigned to row `i`. Where several assignments
/// share the least total cost, the matrix alone decides between them.
///
/// Uses the shortest-augmenting-path variant of the Hungarian algorithm,
/// O(n_rows^2 * n_cols).
pub fn hungarian(costs: &[u32], n_rows: usize, n_cols: usize) -> (result: Vec<usize>)
    requires
        n_rows <= n_cols < usize::MAX,
        costs.len() == n_rows * n_cols,
    ensures
        is_min_cost_assignment(costs@, n_rows as int, n_cols as int, result@),
        result@ == chosen_assignment(costs@, n_rows as int, n_cols as int),
        is_settled(costs@, n_rows as int, n_cols as int),
{
    let ghost n = n_rows as int;
    let ghost m = n_cols as int;
    let mut u: Vec<i64> = vec![0; n_rows + 1];
    let mut v: Vec<i64> = vec![0; n_cols + 1];
    let mut col_to_row: Vec<usize> = vec![0; n_cols + 1];
    let mut placed: usize = 0;
    proof {
        let base = matching(costs@, n, m, 0);
        assert(u@ =~= base.u);
        assert(v@ =~= base.v);
        assert(col_to_row@ =~= base.p);
    }
    while placed < n_rows
        invariant
            placed <= n_rows,
            n == n_rows,
            m == n_cols,
            n_rows <= n_cols < usize::MAX,
            costs.len() == n_rows * n_cols,
            matched(m, col_to_row@, placed as int),
            duals_ok(costs@, n, m, u@, v@, col_to_row@, placed as int),
            (Matching { u: u@, v: v@, p: col_to_row@ }) == matching(costs@, n, m, placed as nat),
        decreases n_rows - placed,
    {
        placed += 1;
        augment_row(costs, n_rows, n_cols, placed, &mut u, &mut v, &mut col_to_row);
    }
    let mut result: Vec<usize> = vec![0; n_rows];
    let ghost p = col_to_row@;
    let mut j: usize = 1;
    assert(result@ =~= row_columns(n, p, 0));
    while j <= n_cols
        invariant
            1 <= j <= n_cols + 1,
            n == n_rows,
            m == n_cols,
            n_cols < usize::MAX,
            p == col_to_row@,
            matched(m, p, n),
            result.len() == n_rows,
            result@ == row_columns(n, p, (j - 1) as nat),
            forall|c: int| 1 <= c < j && #[trigger] p[c] != 0 ==> result[p[c] - 1] == c - 1,
        decreases n_cols + 1 - j,
    {
        let row = col_to_row[j];
        if row > 0 {
            assert(p[j as int] <= n);
            result[row - 1] = j - 1;
            assert forall|c: int| 1 <= c < j && #[trigger] p[c] != 0 implies result[p[c] - 1] == c
                - 1 by {
                assert(p[c] != p[j as int]);
                assert(p[c] <= n);
            }
        }
        j += 1;
    }
    proof {
        assert forall|r: int| 0 <= r < n implies #[trigger] result[r] < m && p[result[r] + 1] == r
            + 1 by {
            assert(has_column(m, p, r + 1));
            let c = choose|c: int| 1 <= c <= m && p[c] == r + 1;
            assert(p[c] != 0);
        }
        assert(is_assignment(n, m, result@));
        lemma_certificate(costs@, n, m, u@, v@, p, result@);
    }
    result
}

// ── One more row ──────────────────────────────────────────────────

/// `more` is `costs` with one more row.
spec fn has_one_more_row(costs: Seq<u32>, more: Seq<u32>, n: int, m: int) -> bool {
    forall|k: int| 0 <= k < n * m ==> #[trigger] more[k] == costs[k]
}

/// Potentials of `n` rows, and of one more that is untouched.
spec fn agree_on_rows(n: int, u: Seq<i64>, w: Seq<i64>) -> bool {
    &&& u.len() == n + 1
    &&& w.len() == n + 2
    &&& w[n + 1] == 0
    &&& forall|r: int| 0 <= r <= n ==> #[trigger] w[r] == u[r]
}

/// Two searches differ in the untouched row only.
spec fn searches_agree(n: int, m: int, s: Search, t: Search) -> bool {
    &&& agree_on_rows(n, s.u, t.u)
    &&& t == (Search { u: t.u, ..s })
    &&& s.v.len() == m + 1
    &&& s.visited.len() == m + 1
    &&& s.prev.len() == m + 1
    &&& s.min_cost.len() == m + 1
    &&& s.cur <= m
    &&& forall|c: int| 0 <= c <= m ==> #[trigger] s.prev[c] <= m
}

spec fn rows_below(p: Seq<usize>, n: int, m: int) -> bool {
    p.len() == m + 1 && forall|c: int| 0 <= c <= m ==> #[trigger] p[c] <= n
}

proof fn lemma_nearest_in_range(visited: Seq<bool>, min_cost: Seq<i64>, j: nat)
    requires
        j <= usize::MAX,
    ensures
        nearest(visited, min_cost, j).1 <= j,
    decreases j,
{
    if j > 0 {
        lemma_nearest_in_range(visited, min_cost, (j - 1) as nat);
    }
}

proof fn lemma_step_agrees(
    costs: Seq<u32>,
    more: Seq<u32>,
    n: int,
    m: int,
    p: Seq<usize>,
    s: Search,
    t: Search,
)
    requires
        has_one_more_row(costs, more, n, m),
        0 <= m <= usize::MAX,
        rows_below(p, n, m),
        searches_agree(n, m, s, t),
        p[s.cur as int] >= 1,
    ensures
        searches_agree(n, m, search_step(costs, m, p, s), search_step(more, m, p, t)),
{
    let visited = s.visited.update(s.cur as int, true);
    let row = p[s.cur as int] as int;
    assert forall|c: int| 1 <= c <= m implies reduced(more, m, t.u, t.v, row, c) == reduced(
        costs,
        m,
        s.u,
        s.v,
        row,
        c,
    ) by {
        lemma_cell_index(n, m, row - 1, c - 1);
    }
    let near = scanned_cost(costs, m, s.u, s.v, row, visited, s.min_cost);
    assert(scanned_cost(more, m, t.u, t.v, row, visited, t.min_cost) =~= near);
    assert(scanned_prev(more, m, t.u, t.v, row, visited, t.min_cost, t.prev, t.cur)
        =~= scanned_prev(costs, m, s.u, s.v, row, visited, s.min_cost, s.prev, s.cur));
    lemma_nearest_in_range(visited, near, m as nat);
    let delta = nearest(visited, near, m as nat).0;
    assert(!row_hit(p, visited, m + 1, n + 1));
    assert(agree_on_rows(n, raised(m, p, visited, delta, s.u), raised(m, p, visited, delta, t.u)));
}

proof fn lemma_search_agrees(
    costs: Seq<u32>,
    more: Seq<u32>,
    n: int,
    m: int,
    p: Seq<usize>,
    s: Search,
    t: Search,
    limit: nat,
)
    requires
        has_one_more_row(costs, more, n, m),
        0 <= m <= usize::MAX,
        rows_below(p, n, m),
        searches_agree(n, m, s, t),
        p[s.cur as int] >= 1,
    ensures
        searches_agree(
            n,
            m,
            search_from(costs, m, p, s, limit),
            search_from(more, m, p, t, limit),
        ),
    decreases limit,
{
    lemma_step_agrees(costs, more, n, m, p, s, t);
    let (s2, t2) = (search_step(costs, m, p, s), search_step(more, m, p, t));
    if limit > 0 && p[s2.cur as int] != 0 {
        lemma_search_agrees(costs, more, n, m, p, s2, t2, (limit - 1) as nat);
    }
}

proof fn lemma_traced_below(
    p: Seq<usize>,
    prev: Seq<usize>,
    cur: usize,
    limit: nat,
    n: int,
    m: int,
)
    requires
        rows_below(p, n, m),
        prev.len() == m + 1,
        cur <= m,
        forall|c: int| 0 <= c <= m ==> #[trigger] prev[c] <= m,
    ensures
        rows_below(traced(p, prev, cur, limit), n, m),
    decreases limit,
{
    if limit > 0 && cur != 0 {
        let q = p.update(cur as int, p[prev[cur as int] as int]);
        assert(prev[cur as int] <= m);
        assert(rows_below(q, n, m));
        lemma_traced_below(q, prev, prev[cur as int], (limit - 1) as nat, n, m);
    }
}

/// The first rows are matched the same way whether another row follows or not.
proof fn lemma_matching_agrees(costs: Seq<u32>, more: Seq<u32>, n: int, m: int, k: nat)
    requires
        has_one_more_row(costs, more, n, m),
        k <= n,
        n <= usize::MAX,
        0 <= m < usize::MAX,
    ensures
        ({
            let (s, t) = (matching(costs, n, m, k), matching(more, n + 1, m, k));
            &&& agree_on_rows(n, s.u, t.u)
            &&& s.v == t.v
            &&& s.v.len() == m + 1
            &&& s.p == t.p
            &&& rows_below(s.p, n, m)
        }),
    decreases k,
{
    if k > 0 {
        lemma_matching_agrees(costs, more, n, m, (k - 1) as nat);
        let (s, t) = (
            matching(costs, n, m, (k - 1) as nat),
            matching(more, n + 1, m, (k - 1) as nat),
        );
        let p = s.p.update(0, k as usize);
        assert(rows_below(p, n, m));
        let (from_s, from_t) = (search_start(m, s), search_start(m, t));
        assert(searches_agree(n, m, from_s, from_t));
        lemma_search_agrees(costs, more, n, m, p, from_s, from_t, m as nat);
        let end = search_from(costs, m, p, from_s, m as nat);
        lemma_traced_below(p, end.prev, end.cur, (m + 1) as nat, n, m);
    }
}

proof fn lemma_row_columns(n: int, p: Seq<usize>, m: int, j: nat, c: int)
    requires
        0 <= n,
        matched(m, p, n),
        j <= m < usize::MAX,
        1 <= c <= j,
        p[c] != 0,
    ensures
        row_columns(n, p, j).len() == n,
        row_columns(n, p, j)[p[c] - 1] == c - 1,
    decreases j,
{
    lemma_row_columns_len(n, p, j);
    lemma_row_columns_len(n, p, (j - 1) as nat);
    if c < j {
        lemma_row_columns(n, p, m, (j - 1) as nat, c);
        assert(p[c] != p[j as int]);
    }
    assert(p[c] <= n);
}

proof fn lemma_row_columns_len(n: int, p: Seq<usize>, j: nat)
    requires
        0 <= n,
        forall|c: int| 1 <= c <= j ==> #[trigger] p[c] <= n,
    ensures
        row_columns(n, p, j).len() == n,
    decreases j,
{
    if j > 0 {
        lemma_row_columns_len(n, p, (j - 1) as nat);
    }
}

proof fn lemma_row_columns_pushed(n: int, p: Seq<usize>, q: Seq<usize>, m: int, x: int, j: nat)
    requires
        0 <= n < usize::MAX,
        j <= m < usize::MAX,
        1 <= x <= m,
        rows_below(p, n, m),
        p[x] == 0,
        q.len() == m + 1,
        q[x] == n + 1,
        forall|c: int| 1 <= c <= m && c != x ==> #[trigger] q[c] == p[c],
    ensures
        row_columns(n + 1, q, j) == row_columns(n, p, j).push(
            if j >= x {
                (x - 1) as usize
            } else {
                0
            },
        ),
    decreases j,
{
    lemma_row_columns_len(n, p, j);
    lemma_row_columns_len(n + 1, q, j);
    if j > 0 {
        let i = (j - 1) as nat;
        lemma_row_columns_pushed(n, p, q, m, x, i);
        lemma_row_columns_len(n, p, i);
        assert(p[j as int] <= n);
    }
    assert(row_columns(n + 1, q, j) =~= row_columns(n, p, j).push(
        if j >= x {
            (x - 1) as usize
        } else {
            0
        },
    ));
}

/// A row whose cheapest column is free takes it, and no other row moves: where the column
/// of another row, or a column further on, is just as cheap, the lower one is taken. Rows
/// get their columns one after the other.
pub proof fn lemma_free_cheapest_column(
    costs: &[u32],
    more: &[u32],
    n_rows: usize,
    n_cols: usize,
    a: Vec<usize>,
    b: Vec<usize>,
    c: int,
)
    requires
        n_rows < n_cols < usize::MAX,
        call_ensures(hungarian, (costs, n_rows, n_cols), a),
        call_ensures(hungarian, (more, (n_rows + 1) as usize, n_cols), b),
        forall|k: int| 0 <= k < n_rows * n_cols ==> #[trigger] more@[k] == costs@[k],
        0 <= c < n_cols,
        !a@.contains(c as usize),
        forall|d: int|
            0 <= d < c ==> more@[n_rows * n_cols + c] < #[trigger] more@[n_rows * n_cols + d],
        forall|d: int|
            c < d < n_cols ==> more@[n_rows * n_cols + c] <= #[trigger] more@[n_rows * n_cols + d],
    ensures
        b@ == a@.push(c as usize),
{
    let (n, m) = (n_rows as int, n_cols as int);
    let (cs, ms) = (costs@, more@);
    let x = c + 1;
    lemma_matching_agrees(cs, ms, n, m, n as nat);
    let (s, t) = (matching(cs, n, m, n as nat), matching(ms, n + 1, m, n as nat));
    if s.p[x] != 0 {
        lemma_row_columns(n, s.p, m, m as nat, x);
        assert(s.p[x] <= n);
        assert(a@[s.p[x] - 1] == c as usize);
    }
    lemma_bounds(cs, n, m, s.u, s.v, s.p, n, x);
    let p = t.p.update(0, (n + 1) as usize);
    let start = search_start(m, t);
    let visited = start.visited.update(0, true);
    let near = scanned_cost(ms, m, t.u, t.v, n + 1, visited, start.min_cost);
    assert forall|d: int| 1 <= d <= m implies near[d] == ms[n * m + (d - 1)] - t.v[d] && near[d]
        < INF && !visited[d] by {
        assert(-u32::MAX <= s.v[d] <= 0);
        assert(reduced(ms, m, t.u, t.v, n + 1, d) == ms[n * m + (d - 1)] - t.v[d]);
    }
    assert(s.v[x] == 0);
    assert forall|d: int| 1 <= d < x && !(#[trigger] visited[d]) implies near[x] < near[d] by {
        assert(ms[n * m + c] < ms[n * m + (d - 1)]);
        assert(s.v[d] <= 0);
    }
    lemma_nearest_first(visited, near, m, x, ms, n * m, s.v);
    let end = search_step(ms, m, p, start);
    assert(end.cur == x);
    assert(search_from(ms, m, p, start, m as nat) == end);
    assert(end.prev[x] == 0);
    let q = p.update(x, p[0]);
    reveal_with_fuel(traced, 3);
    assert(traced(p, end.prev, end.cur, (m + 1) as nat) == q);
    assert(matching(ms, n + 1, m, (n + 1) as nat).p == q);
    lemma_row_columns_pushed(n, s.p, q, m, x, m as nat);
}

/// The nearest column is the first one that no other is nearer than.
proof fn lemma_nearest_first(
    visited: Seq<bool>,
    near: Seq<i64>,
    m: int,
    x: int,
    ms: Seq<u32>,
    base: int,
    v: Seq<i64>,
)
    requires
        0 <= m < usize::MAX,
        1 <= x <= m,
        visited.len() == m + 1,
        near.len() == m + 1,
        forall|d: int|
            1 <= d <= m ==> !(#[trigger] visited[d]) && near[d] == ms[base + (d - 1)] - v[d] && near[d]
                < INF,
        forall|d: int| 1 <= d <= m ==> #[trigger] v[d] <= 0,
        v[x] == 0,
        forall|d: int| 1 <= d < x && !(#[trigger] visited[d]) ==> near[x] < near[d],
        forall|d: int| x - 1 < d < m ==> ms[base + (x - 1)] <= #[trigger] ms[base + d],
    ensures
        nearest(visited, near, m as nat) == (near[x], x as usize),
{
    lemma_nearest_up_to(visited, near, m, x, ms, base, v, m as nat);
}

proof fn lemma_nearest_up_to(
    visited: Seq<bool>,
    near: Seq<i64>,
    m: int,
    x: int,
    ms: Seq<u32>,
    base: int,
    v: Seq<i64>,
    j: nat,
)
    requires
        j <= m < usize::MAX,
        1 <= x <= m,
        forall|d: int|
            1 <= d <= m ==> !(#[trigger] visited[d]) && near[d] == ms[base + (d - 1)] - v[d] && near[d]
                < INF,
        forall|d: int| 1 <= d <= m ==> #[trigger] v[d] <= 0,
        v[x] == 0,
        forall|d: int| 1 <= d < x && !(#[trigger] visited[d]) ==> near[x] < near[d],
        forall|d: int| x - 1 < d < m ==> ms[base + (x - 1)] <= #[trigger] ms[base + d],
    ensures
        j < x ==> near[x] < nearest(visited, near, j).0,
        j >= x ==> nearest(visited, near, j) == (near[x], x as usize),
    decreases j,
{
    assert(!visited[x]);
    if j > 0 {
        lemma_nearest_up_to(visited, near, m, x, ms, base, v, (j - 1) as nat);
        assert(!visited[j as int]);
        if j > x {
            assert(ms[base + (x - 1)] <= ms[base + (j - 1)]);
            assert(v[j as int] <= 0);
        }
    }
}

} // verus!
