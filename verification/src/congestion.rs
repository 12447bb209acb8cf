//! Assignment with load balancing across entangling word pairs.

use crate::hungarian::{
    cell, chosen_assignment, hungarian, is_assignment, is_min_cost_assignment, lemma_cell_index,
};
use vstd::prelude::*;

verus! {

// ── Assignments with more rows than columns ───────────────────────

/// The larger of two counts.
pub open spec fn larger(a: int, b: int) -> int {
    if a >= b {
        a
    } else {
        b
    }
}

/// The cost matrix, widened to one column per row by columns of cost 0 where
/// it has more rows than columns.
pub open spec fn widened(costs: Seq<u32>, n_rows: int, n_cols: int) -> Seq<u32> {
    if n_rows <= n_cols {
        costs
    } else {
        Seq::new(
            (n_rows * n_rows) as nat,
            |k: int|
                if k % n_rows < n_cols {
                    costs[(k / n_rows) * n_cols + k % n_rows]
                } else {
                    0
                },
        )
    }
}

/// The assignment that is chosen for a matrix; see [`chosen_assignment`].
pub open spec fn best_assignment(costs: Seq<u32>, n_rows: int, n_cols: int) -> Seq<usize> {
    chosen_assignment(widened(costs, n_rows, n_cols), n_rows, larger(n_rows, n_cols))
}

/// `a` is the chosen assignment, and assigns as many rows as there are columns
/// at the least total cost. With more rows than columns the rows left over get
/// numbers from `n_cols` on.
pub open spec fn is_best_assignment(
    costs: Seq<u32>,
    n_rows: int,
    n_cols: int,
    a: Seq<usize>,
) -> bool {
    &&& a == best_assignment(costs, n_rows, n_cols)
    &&& is_min_cost_assignment(widened(costs, n_rows, n_cols), n_rows, larger(n_rows, n_cols), a)
}

/// Assigns rows to columns at least total cost; see [`hungarian`]. With more
/// rows than columns, every column is used and the rows left over get numbers
/// from `n_cols` on.
pub fn assign_rows(costs: &[u32], n_rows: usize, n_cols: usize) -> (result: Vec<usize>)
    requires
        costs.len() == n_rows * n_cols,
        n_rows < usize::MAX,
        n_cols < usize::MAX,
        n_rows > n_cols ==> n_rows * n_rows <= usize::MAX,
    ensures
        is_best_assignment(costs@, n_rows as int, n_cols as int, result@),
{
    if n_rows <= n_cols {
        return hungarian(costs, n_rows, n_cols);
    }
    let ghost wide = widened(costs@, n_rows as int, n_cols as int);
    let mut square: Vec<u32> = Vec::new();
    let mut r: usize = 0;
    while r < n_rows
        invariant
            r <= n_rows,
            n_cols < n_rows,
            costs.len() == n_rows * n_cols,
            n_rows * n_rows <= usize::MAX,
            wide == widened(costs@, n_rows as int, n_cols as int),
            square@ =~= wide.take(r * n_rows),
            r * n_rows <= n_rows * n_rows,
        decreases n_rows - r,
    {
        let mut c: usize = 0;
        proof {
            lemma_cell_index(n_rows as int, n_rows as int, r as int, 0);
        }
        while c < n_rows
            invariant
                r < n_rows,
                c <= n_rows,
                n_cols < n_rows,
                costs.len() == n_rows * n_cols,
                n_rows * n_rows <= usize::MAX,
                wide == widened(costs@, n_rows as int, n_cols as int),
                0 <= r * n_rows,
                r * n_rows + c <= n_rows * n_rows,
                square@ =~= wide.take(r * n_rows + c),
            decreases n_rows - c,
        {
            proof {
                lemma_cell_index(n_rows as int, n_rows as int, r as int, c as int);
                vstd::arithmetic::div_mod::lemma_fundamental_div_mod_converse(
                    r * n_rows + c,
                    n_rows as int,
                    r as int,
                    c as int,
                );
                if c < n_cols {
                    lemma_cell_index(n_rows as int, n_cols as int, r as int, c as int);
                }
            }
            let x: u32 = if c < n_cols {
                costs[r * n_cols + c]
            } else {
                0
            };
            square.push(x);
            c += 1;
        }
        proof {
            assert(r * n_rows + n_rows == (r + 1) * n_rows) by (nonlinear_arith);
            assert((r + 1) * n_rows <= n_rows * n_rows) by (nonlinear_arith)
                requires
                    r + 1 <= n_rows,
            ;
        }
        r += 1;
    }
    assert(square@ =~= wide);
    hungarian(square.as_slice(), n_rows, n_rows)
}

// ── Load per word pair ────────────────────────────────────────────

/// Number of rows that `a` sends to word pair `wp`, whose columns are those
/// with `column / sites_per_word == wp`.
pub open spec fn load_of(a: Seq<usize>, sites_per_word: int, wp: int) -> nat
    decreases a.len(),
{
    if a.len() == 0 {
        0
    } else {
        load_of(a.drop_last(), sites_per_word, wp) + (if a.last() as int / sites_per_word == wp {
            1nat
        } else {
            0nat
        })
    }
}

proof fn lemma_load_bound(a: Seq<usize>, sites_per_word: int, wp: int)
    ensures
        load_of(a, sites_per_word, wp) <= a.len(),
    decreases a.len(),
{
    if a.len() > 0 {
        lemma_load_bound(a.drop_last(), sites_per_word, wp);
    }
}

/// A word pair that holds a row has positive load.
proof fn lemma_load_positive(a: Seq<usize>, sites_per_word: int, i: int)
    requires
        0 <= i < a.len(),
    ensures
        load_of(a, sites_per_word, a[i] as int / sites_per_word) > 0,
    decreases a.len(),
{
    if i < a.len() - 1 {
        lemma_load_positive(a.drop_last(), sites_per_word, i);
        assert(a.drop_last()[i] == a[i]);
    }
}

/// Moving row `i` to column `j` moves one unit of load.
pub proof fn lemma_load_update(a: Seq<usize>, sites_per_word: int, i: int, j: usize, wp: int)
    requires
        0 <= i < a.len(),
    ensures
        load_of(a.update(i, j), sites_per_word, wp) == load_of(a, sites_per_word, wp) - (if a[i] as int
            / sites_per_word == wp {
            1int
        } else {
            0
        }) + (if j as int / sites_per_word == wp {
            1int
        } else {
            0
        }),
    decreases a.len(),
{
    let b = a.update(i, j);
    if i == a.len() - 1 {
        assert(b.drop_last() =~= a.drop_last());
    } else {
        lemma_load_update(a.drop_last(), sites_per_word, i, j, wp);
        assert(b.drop_last() =~= a.drop_last().update(i, j));
        assert(a.drop_last()[i] == a[i]);
    }
}

/// Number of assigned rows per word pair; columns past the last word pair are
/// not counted.
pub fn load_per_wp(assignment: &[usize], sites_per_word: usize, n_word_pairs: usize) -> (load: Vec<
    usize,
>)
    requires
        assignment.len() > 0 ==> sites_per_word > 0,
    ensures
        load.len() == n_word_pairs,
        forall|w: int|
            0 <= w < n_word_pairs ==> #[trigger] load[w] == load_of(
                assignment@,
                sites_per_word as int,
                w,
            ),
{
    let mut load: Vec<usize> = vec![0; n_word_pairs];
    let mut k: usize = 0;
    assert(assignment@.take(0) =~= Seq::empty());
    while k < assignment.len()
        invariant
            k <= assignment.len(),
            assignment.len() > 0 ==> sites_per_word > 0,
            load.len() == n_word_pairs,
            forall|w: int|
                0 <= w < n_word_pairs ==> #[trigger] load[w] == load_of(
                    assignment@.take(k as int),
                    sites_per_word as int,
                    w,
                ),
        decreases assignment.len() - k,
    {
        let wp = assignment[k] / sites_per_word;
        proof {
            assert(assignment@.take(k + 1).drop_last() =~= assignment@.take(k as int));
            assert(assignment@.take(k + 1).last() == assignment[k as int]);
            lemma_load_bound(assignment@.take(k as int), sites_per_word as int, wp as int);
        }
        if wp < n_word_pairs {
            load[wp] = load[wp] + 1;
        }
        k += 1;
    }
    assert(assignment@.take(k as int) =~= assignment@);
    load
}

/// `x` is the largest load of any word pair, or 0 where there is none.
pub open spec fn is_max_load(a: Seq<usize>, sites_per_word: int, n_word_pairs: int, x: int) -> bool {
    &&& forall|w: int| 0 <= w < n_word_pairs ==> #[trigger] load_of(a, sites_per_word, w) <= x
    &&& if n_word_pairs <= 0 {
        x == 0
    } else {
        exists|w: int| 0 <= w < n_word_pairs && #[trigger] load_of(a, sites_per_word, w) == x
    }
}

/// Largest number of assigned rows on one word pair.
pub fn max_load_per_wp(assignment: &[usize], sites_per_word: usize, n_word_pairs: usize) -> (x: usize)
    requires
        assignment.len() > 0 ==> sites_per_word > 0,
    ensures
        is_max_load(assignment@, sites_per_word as int, n_word_pairs as int, x as int),
{
    let load = load_per_wp(assignment, sites_per_word, n_word_pairs);
    if n_word_pairs == 0 {
        return 0;
    }
    let w = fullest(&load);
    assert(load[w as int] == load_of(assignment@, sites_per_word as int, w as int));
    assert forall|x: int| 0 <= x < n_word_pairs implies #[trigger] load_of(
        assignment@,
        sites_per_word as int,
        x,
    ) <= load[w as int] by {
        assert(load[x] <= load[w as int]);
    }
    load[w]
}

/// Position of the last largest entry.
fn fullest(load: &Vec<usize>) -> (w: usize)
    requires
        load.len() > 0,
    ensures
        w < load.len(),
        forall|x: int| 0 <= x < load.len() ==> #[trigger] load[x] <= load[w as int],
        forall|x: int| w < x < load.len() ==> #[trigger] load[x] < load[w as int],
{
    let mut w: usize = 0;
    let mut k: usize = 1;
    while k < load.len()
        invariant
            w < k <= load.len(),
            forall|x: int| 0 <= x < k ==> #[trigger] load[x] <= load[w as int],
            forall|x: int| w < x < k ==> #[trigger] load[x] < load[w as int],
        decreases load.len() - k,
    {
        if load[k] >= load[w] {
            w = k;
        }
        k += 1;
    }
    w
}

// ── Rebalancing ───────────────────────────────────────────────────

/// What one rebalancing looks at, besides the assignment itself.
pub ghost struct Spread {
    pub costs: Seq<u32>,
    pub n_slots: int,
    pub sites_per_word: int,
    pub n_word_pairs: int,
    /// Load per word pair that is aimed at.
    pub ideal: int,
    /// Largest cost increase that one move may bring.
    pub max_loss: int,
    /// Cells of this cost and above are unreachable.
    pub big: int,
}

impl Spread {
    pub open spec fn load(self, a: Seq<usize>, wp: int) -> nat {
        load_of(a, self.sites_per_word, wp)
    }

    /// `w` is the last of the word pairs with the largest load.
    pub open spec fn is_fullest(self, a: Seq<usize>, w: int) -> bool {
        &&& 0 <= w < self.n_word_pairs
        &&& forall|x: int|
            0 <= x < self.n_word_pairs ==> #[trigger] self.load(a, x) <= self.load(a, w)
        &&& forall|x: int|
            w < x < self.n_word_pairs ==> #[trigger] self.load(a, x) < self.load(a, w)
    }

    /// Cost increase of moving row `i` to column `j`.
    pub open spec fn loss(self, a: Seq<usize>, i: int, j: int) -> int {
        cell(self.costs, self.n_slots, i, j) - cell(self.costs, self.n_slots, i, a[i] as int)
    }

    /// Row `i` may leave the overloaded word pair `w` for the free column `j`.
    pub open spec fn may_move(self, a: Seq<usize>, w: int, i: int, j: int) -> bool {
        &&& 0 <= i < a.len()
        &&& 0 <= j < self.n_slots
        &&& a[i] < self.n_slots
        &&& a[i] as int / self.sites_per_word == w
        &&& cell(self.costs, self.n_slots, i, a[i] as int) < self.big
        &&& j / self.sites_per_word != w
        &&& self.load(a, j / self.sites_per_word) < self.ideal
        &&& !a.contains(j as usize)
        &&& cell(self.costs, self.n_slots, i, j) < self.big
        &&& self.loss(a, i, j) <= self.max_loss
    }

    /// `(i, j)` is the cheapest move off the fullest word pair `w`, which is
    /// overloaded; among equally cheap ones the first by row, then by column.
    pub open spec fn is_best_move(self, a: Seq<usize>, w: int, i: int, j: int) -> bool {
        &&& self.is_fullest(a, w)
        &&& self.load(a, w) > self.ideal
        &&& self.may_move(a, w, i, j)
        &&& forall|i2: int, j2: int| #[trigger]
            self.may_move(a, w, i2, j2) ==> {
                ||| self.loss(a, i, j) < self.loss(a, i2, j2)
                ||| self.loss(a, i, j) == self.loss(a, i2, j2) && (i < i2 || i == i2 && j <= j2)
            }
    }

    /// The assignment after at most `steps` best moves.
    pub open spec fn rebalanced(self, a: Seq<usize>, steps: nat) -> Seq<usize>
        decreases steps,
    {
        if steps > 0 && exists|w: int, i: int, j: int| self.is_best_move(a, w, i, j) {
            let (w, i, j) = choose|w: int, i: int, j: int| self.is_best_move(a, w, i, j);
            self.rebalanced(a.update(i, j as usize), (steps - 1) as nat)
        } else {
            a
        }
    }

    /// At most one move is the best.
    proof fn lemma_best_move_unique(
        self,
        a: Seq<usize>,
        w: int,
        i: int,
        j: int,
        w2: int,
        i2: int,
        j2: int,
    )
        requires
            self.is_best_move(a, w, i, j),
            self.is_best_move(a, w2, i2, j2),
        ensures
            w == w2,
            i == i2,
            j == j2,
    {
        assert(self.load(a, w) <= self.load(a, w2));
        assert(self.load(a, w2) <= self.load(a, w));
        assert(w == w2) by {
            if w < w2 {
                assert(self.load(a, w2) < self.load(a, w));
            } else if w2 < w {
                assert(self.load(a, w) < self.load(a, w2));
            }
        }
        assert(self.may_move(a, w, i, j));
        assert(self.may_move(a, w, i2, j2));
    }

    /// One best move, followed by the rest.
    proof fn lemma_step(self, a: Seq<usize>, steps: nat, w: int, i: int, j: int)
        requires
            steps > 0,
            self.is_best_move(a, w, i, j),
        ensures
            self.rebalanced(a, steps) == self.rebalanced(
                a.update(i, j as usize),
                (steps - 1) as nat,
            ),
    {
        let (w2, i2, j2) = choose|w2: int, i2: int, j2: int| self.is_best_move(a, w2, i2, j2);
        self.lemma_best_move_unique(a, w, i, j, w2, i2, j2);
    }

    /// Rebalancing keeps distinct rows on distinct columns.
    pub proof fn lemma_rebalanced_is_assignment(
        self,
        a: Seq<usize>,
        steps: nat,
        n_rows: int,
        n_cols: int,
    )
        requires
            is_assignment(n_rows, n_cols, a),
            self.n_slots <= n_cols <= usize::MAX,
        ensures
            is_assignment(n_rows, n_cols, self.rebalanced(a, steps)),
        decreases steps,
    {
        if steps > 0 && exists|w: int, i: int, j: int| self.is_best_move(a, w, i, j) {
            let (w, i, j) = choose|w: int, i: int, j: int| self.is_best_move(a, w, i, j);
            let b = a.update(i, j as usize);
            assert(is_assignment(n_rows, n_cols, b)) by {
                assert forall|r: int, s: int| 0 <= r < s < b.len() implies #[trigger] b[r]
                    != #[trigger] b[s] by {
                    assert(a[r] != a[s]);
                    assert(a.contains(a[r]));
                    assert(a.contains(a[s]));
                }
            }
            self.lemma_rebalanced_is_assignment(b, (steps - 1) as nat, n_rows, n_cols);
        }
    }

    /// Every row is where it was in `h`, or moved once, at a cost increase of at
    /// most `max_loss`, to a word pair that is not overloaded.
    pub open spec fn moved_within(self, h: Seq<usize>, a: Seq<usize>) -> bool {
        &&& a.len() == h.len()
        &&& forall|i: int|
            0 <= i < a.len() ==> #[trigger] a[i] == h[i] || {
                &&& cell(self.costs, self.n_slots, i, a[i] as int) - cell(
                    self.costs,
                    self.n_slots,
                    i,
                    h[i] as int,
                ) <= self.max_loss
                &&& self.load(a, a[i] as int / self.sites_per_word) <= self.ideal
            }
    }

    proof fn lemma_moved_within(self, h: Seq<usize>, a: Seq<usize>, steps: nat)
        requires
            self.n_slots <= usize::MAX,
            self.moved_within(h, a),
            forall|w: int|
                0 <= w < self.n_word_pairs ==> #[trigger] self.load(a, w) <= larger(
                    self.load(h, w) as int,
                    self.ideal,
                ),
        ensures
            self.moved_within(h, self.rebalanced(a, steps)),
            forall|w: int|
                0 <= w < self.n_word_pairs ==> #[trigger] self.load(self.rebalanced(a, steps), w)
                    <= larger(self.load(h, w) as int, self.ideal),
        decreases steps,
    {
        if steps > 0 && exists|w: int, i: int, j: int| self.is_best_move(a, w, i, j) {
            let (w, i, j) = choose|w: int, i: int, j: int| self.is_best_move(a, w, i, j);
            let b = a.update(i, j as usize);
            assert(self.may_move(a, w, i, j));
            assert(a[i] == h[i]);
            assert forall|k: int| 0 <= k < b.len() implies #[trigger] b[k] == h[k] || {
                &&& cell(self.costs, self.n_slots, k, b[k] as int) - cell(
                    self.costs,
                    self.n_slots,
                    k,
                    h[k] as int,
                ) <= self.max_loss
                &&& self.load(b, b[k] as int / self.sites_per_word) <= self.ideal
            } by {
                lemma_load_update(
                    a,
                    self.sites_per_word,
                    i,
                    j as usize,
                    b[k] as int / self.sites_per_word,
                );
                if k != i {
                    assert(b[k] == a[k]);
                }
            }
            assert forall|x: int| 0 <= x < self.n_word_pairs implies #[trigger] self.load(b, x)
                <= larger(self.load(h, x) as int, self.ideal) by {
                assert(self.load(a, x) <= larger(self.load(h, x) as int, self.ideal));
                lemma_load_update(a, self.sites_per_word, i, j as usize, x);
            }
            self.lemma_moved_within(h, b, (steps - 1) as nat);
            self.lemma_step(a, steps, w, i, j);
        }
    }

    /// Rebalancing never makes any word pair fuller than the fullest one was,
    /// as long as the load aimed at is no larger.
    pub proof fn lemma_rebalanced_load(self, a: Seq<usize>, steps: nat, cap: int)
        requires
            self.n_slots <= usize::MAX,
            self.ideal <= cap,
            forall|w: int| 0 <= w < self.n_word_pairs ==> #[trigger] self.load(a, w) <= cap,
        ensures
            forall|w: int|
                0 <= w < self.n_word_pairs ==> #[trigger] self.load(
                    self.rebalanced(a, steps),
                    w,
                ) <= cap,
        decreases steps,
    {
        if steps > 0 && exists|w: int, i: int, j: int| self.is_best_move(a, w, i, j) {
            let (w, i, j) = choose|w: int, i: int, j: int| self.is_best_move(a, w, i, j);
            let b = a.update(i, j as usize);
            assert forall|x: int| 0 <= x < self.n_word_pairs implies #[trigger] self.load(b, x)
                <= cap by {
                assert(self.load(a, x) <= cap);
                lemma_load_update(a, self.sites_per_word, i, j as usize, x);
            }
            self.lemma_rebalanced_load(b, (steps - 1) as nat, cap);
            self.lemma_step(a, steps, w, i, j);
        } else {
            assert(self.rebalanced(a, steps) == a);
        }
    }
}

/// Rows per word pair when `n_rows` rows are spread as evenly as they can be.
pub open spec fn ideal_load(n_rows: int, n_word_pairs: int) -> int {
    n_rows / n_word_pairs + (if n_rows % n_word_pairs > 0 {
        1int
    } else {
        0
    })
}

/// The chosen assignment, rebalanced within `max_loss` where that is given.
pub open spec fn spread_assignment(
    costs: Seq<u32>,
    n_rows: int,
    n_slots: int,
    sites_per_word: int,
    n_word_pairs: int,
    max_loss: Option<u32>,
    big: u32,
) -> Seq<usize> {
    let best = best_assignment(costs, n_rows, n_slots);
    match max_loss {
        None => best,
        Some(max_loss) => (Spread {
            costs,
            n_slots,
            sites_per_word,
            n_word_pairs,
            ideal: ideal_load(n_rows, n_word_pairs),
            max_loss: max_loss as int,
            big: big as int,
        }).rebalanced(best, n_rows as nat),
    }
}

/// `a` comes from an assignment of least cost by rebalancing it within
/// `max_loss`, or is one where rebalancing is off.
pub open spec fn is_spread_assignment(
    costs: Seq<u32>,
    n_rows: int,
    n_slots: int,
    sites_per_word: int,
    n_word_pairs: int,
    max_loss: Option<u32>,
    big: u32,
    a: Seq<usize>,
) -> bool {
    &&& is_best_assignment(costs, n_rows, n_slots, best_assignment(costs, n_rows, n_slots))
    &&& a == spread_assignment(
        costs,
        n_rows,
        n_slots,
        sites_per_word,
        n_word_pairs,
        max_loss,
        big,
    )
}

/// A single row is never spread.
pub proof fn lemma_single_row_stays(
    costs: Seq<u32>,
    n_slots: int,
    sites_per_word: int,
    n_word_pairs: int,
    max_loss: Option<u32>,
    big: u32,
)
    requires
        n_word_pairs > 0,
        best_assignment(costs, 1, n_slots).len() == 1,
    ensures
        spread_assignment(
            costs,
            1,
            n_slots,
            sites_per_word,
            n_word_pairs,
            max_loss,
            big,
        ) == best_assignment(costs, 1, n_slots),
{
    if let Some(max_loss) = max_loss {
        let spread = Spread {
            costs,
            n_slots,
            sites_per_word,
            n_word_pairs,
            ideal: ideal_load(1, n_word_pairs),
            max_loss: max_loss as int,
            big: big as int,
        };
        assert(ideal_load(1, n_word_pairs) >= 1) by (nonlinear_arith)
            requires
                n_word_pairs > 0,
                ideal_load(1, n_word_pairs) == 1int / n_word_pairs + (if 1int % n_word_pairs > 0 {
                    1int
                } else {
                    0
                }),
        ;
        let a = best_assignment(costs, 1, n_slots);
        assert forall|w: int, i: int, j: int| !spread.is_best_move(a, w, i, j) by {
            lemma_load_bound(a, sites_per_word, w);
        }
    }
}

/// What spreading costs and gains, compared with the least-cost assignment that
/// it starts from. No row's cost rises by more than `max_loss`. No word pair
/// gets fuller than it was and than the even load. Nothing changes where
/// spreading is off, or where no word pair is fuller than the even load.
pub proof fn lemma_spread_bounds(
    costs: Seq<u32>,
    n_rows: int,
    n_slots: int,
    sites_per_word: int,
    n_word_pairs: int,
    max_loss: Option<u32>,
    big: u32,
    a: Seq<usize>,
)
    requires
        n_slots <= usize::MAX,
        is_spread_assignment(
            costs,
            n_rows,
            n_slots,
            sites_per_word,
            n_word_pairs,
            max_loss,
            big,
            a,
        ),
    ensures
        ({
            let best = best_assignment(costs, n_rows, n_slots);
            let ideal = ideal_load(n_rows, n_word_pairs);
            let allowed: int = match max_loss {
                Some(max_loss) => max_loss as int,
                None => 0,
            };
            &&& a.len() == best.len()
            &&& forall|i: int|
                0 <= i < a.len() ==> cell(costs, n_slots, i, #[trigger] a[i] as int) - cell(
                    costs,
                    n_slots,
                    i,
                    best[i] as int,
                ) <= allowed
            &&& max_loss is Some ==> forall|w: int|
                0 <= w < n_word_pairs ==> #[trigger] load_of(a, sites_per_word, w) <= larger(
                    load_of(best, sites_per_word, w) as int,
                    ideal,
                )
            &&& max_loss is None || (forall|w: int|
                0 <= w < n_word_pairs ==> #[trigger] load_of(best, sites_per_word, w) <= ideal)
                ==> a == best
        }),
{
    let best = best_assignment(costs, n_rows, n_slots);
    if let Some(max_loss) = max_loss {
        let spread = Spread {
            costs,
            n_slots,
            sites_per_word,
            n_word_pairs,
            ideal: ideal_load(n_rows, n_word_pairs),
            max_loss: max_loss as int,
            big: big as int,
        };
        spread.lemma_moved_within(best, best, n_rows as nat);
        assert forall|w: int| 0 <= w < n_word_pairs implies #[trigger] load_of(
            a,
            sites_per_word,
            w,
        ) <= larger(load_of(best, sites_per_word, w) as int, spread.ideal) by {
            assert(spread.load(a, w) <= larger(spread.load(best, w) as int, spread.ideal));
        }
        if forall|w: int|
            0 <= w < n_word_pairs ==> #[trigger] load_of(best, sites_per_word, w) <= spread.ideal {
            assert forall|w: int, i: int, j: int| !spread.is_best_move(best, w, i, j) by {
                if spread.is_fullest(best, w) {
                    assert(load_of(best, sites_per_word, w) <= spread.ideal);
                }
            }
        }
    }
}

/// Without positions there is nothing to spread over.
proof fn lemma_nowhere_to_move(
    costs: Seq<u32>,
    n_rows: int,
    sites_per_word: int,
    n_word_pairs: int,
    max_loss: Option<u32>,
    big: u32,
)
    requires
        n_rows >= 0,
    ensures
        spread_assignment(costs, n_rows, 0, sites_per_word, n_word_pairs, max_loss, big)
            == best_assignment(costs, n_rows, 0),
{
    if let Some(max_loss) = max_loss {
        let spread = Spread {
            costs,
            n_slots: 0,
            sites_per_word,
            n_word_pairs,
            ideal: ideal_load(n_rows, n_word_pairs),
            max_loss: max_loss as int,
            big: big as int,
        };
        let a = best_assignment(costs, n_rows, 0);
        assert forall|w: int, i: int, j: int| !spread.is_best_move(a, w, i, j) by {
            assert(!spread.may_move(a, w, i, j));
        }
    }
}

/// Spreading keeps distinct rows on distinct columns.
pub proof fn lemma_spread_is_assignment(
    costs: Seq<u32>,
    n_rows: int,
    n_slots: int,
    sites_per_word: int,
    n_word_pairs: int,
    max_loss: Option<u32>,
    big: u32,
    a: Seq<usize>,
)
    requires
        0 <= n_rows <= usize::MAX,
        0 <= n_slots <= usize::MAX,
        is_spread_assignment(
            costs,
            n_rows,
            n_slots,
            sites_per_word,
            n_word_pairs,
            max_loss,
            big,
            a,
        ),
    ensures
        is_assignment(n_rows, larger(n_rows, n_slots), a),
{
    if let Some(max_loss) = max_loss {
        let spread = Spread {
            costs,
            n_slots,
            sites_per_word,
            n_word_pairs,
            ideal: ideal_load(n_rows, n_word_pairs),
            max_loss: max_loss as int,
            big: big as int,
        };
        let a0 = best_assignment(costs, n_rows, n_slots);
        spread.lemma_rebalanced_is_assignment(
            a0,
            n_rows as nat,
            n_rows,
            larger(n_rows, n_slots),
        );
    }
}

/// The best move off the fullest word pair, where there is one.
fn best_move(
    Ghost(spread): Ghost<Spread>,
    base_costs: &[u32],
    n_pairs: usize,
    n_slots: usize,
    sites_per_word: usize,
    ideal: usize,
    max_loss: u32,
    big: u32,
    assignment: &Vec<usize>,
    load: &Vec<usize>,
    slot_used: &Vec<bool>,
    w: usize,
) -> (best: Option<(usize, usize)>)
    requires
        base_costs.len() == n_pairs * n_slots,
        sites_per_word > 0,
        spread.costs == base_costs@,
        spread.n_slots == n_slots,
        spread.sites_per_word == sites_per_word,
        spread.n_word_pairs == load.len(),
        spread.ideal == ideal,
        spread.max_loss == max_loss,
        spread.big == big,
        n_slots <= sites_per_word * load.len(),
        assignment.len() == n_pairs,
        slot_used.len() == n_slots,
        forall|x: int|
            0 <= x < load.len() ==> #[trigger] load[x] == spread.load(assignment@, x),
        forall|j: int|
            0 <= j < n_slots ==> #[trigger] slot_used[j] == assignment@.contains(j as usize),
        spread.is_fullest(assignment@, w as int),
        spread.load(assignment@, w as int) > ideal,
    ensures
        match best {
            Some((i, j)) => spread.is_best_move(assignment@, w as int, i as int, j as int),
            None => forall|i: int, j: int| !spread.may_move(assignment@, w as int, i, j),
        },
{
    let ghost a = assignment@;
    let mut best: Option<(usize, usize)> = None;
    let mut best_loss: i64 = 0;
    let mut i: usize = 0;
    while i < n_pairs
        invariant
            i <= n_pairs,
            a == assignment@,
            base_costs.len() == n_pairs * n_slots,
            sites_per_word > 0,
            spread.costs == base_costs@,
            spread.n_slots == n_slots,
            spread.sites_per_word == sites_per_word,
            spread.n_word_pairs == load.len(),
            spread.ideal == ideal,
            spread.max_loss == max_loss,
            spread.big == big,
            n_slots <= sites_per_word * load.len(),
            assignment.len() == n_pairs,
            slot_used.len() == n_slots,
            forall|x: int| 0 <= x < load.len() ==> #[trigger] load[x] == spread.load(a, x),
            forall|j: int|
                0 <= j < n_slots ==> #[trigger] slot_used[j] == a.contains(j as usize),
            match best {
                Some((bi, bj)) => {
                    &&& bi < i
                    &&& spread.may_move(a, w as int, bi as int, bj as int)
                    &&& best_loss == spread.loss(a, bi as int, bj as int)
                    &&& forall|i2: int, j2: int| #[trigger]
                        spread.may_move(a, w as int, i2, j2) && i2 < i ==> {
                            ||| best_loss < spread.loss(a, i2, j2)
                            ||| best_loss == spread.loss(a, i2, j2) && (bi < i2 || bi == i2 && bj
                                <= j2)
                        }
                },
                None => forall|i2: int, j2: int| #[trigger]
                    spread.may_move(a, w as int, i2, j2) ==> i2 >= i,
            },
        decreases n_pairs - i,
    {
        let col = assignment[i];
        if col < n_slots && col / sites_per_word == w {
            proof {
                lemma_cell_index(n_pairs as int, n_slots as int, i as int, col as int);
            }
            let cur_cost = base_costs[i * n_slots + col];
            if cur_cost < big {
                let mut j: usize = 0;
                while j < n_slots
                    invariant
                        i < n_pairs,
                        j <= n_slots,
                        a == assignment@,
                        col == a[i as int],
                        col < n_slots,
                        col as int / sites_per_word as int == w,
                        cur_cost == cell(base_costs@, n_slots as int, i as int, col as int),
                        cur_cost < big,
                        base_costs.len() == n_pairs * n_slots,
                        sites_per_word > 0,
                        spread.costs == base_costs@,
                        spread.n_slots == n_slots,
                        spread.sites_per_word == sites_per_word,
                        spread.n_word_pairs == load.len(),
                        spread.ideal == ideal,
                        spread.max_loss == max_loss,
                        spread.big == big,
                        n_slots <= sites_per_word * load.len(),
                        assignment.len() == n_pairs,
                        slot_used.len() == n_slots,
                        forall|x: int|
                            0 <= x < load.len() ==> #[trigger] load[x] == spread.load(a, x),
                        forall|k: int|
                            0 <= k < n_slots ==> #[trigger] slot_used[k] == a.contains(k as usize),
                        match best {
                            Some((bi, bj)) => {
                                &&& bi <= i
                                &&& bi == i ==> bj < j
                                &&& spread.may_move(a, w as int, bi as int, bj as int)
                                &&& best_loss == spread.loss(a, bi as int, bj as int)
                                &&& forall|i2: int, j2: int| #[trigger]
                                    spread.may_move(a, w as int, i2, j2) && (i2 < i || i2 == i && j2
                                        < j) ==> {
                                        ||| best_loss < spread.loss(a, i2, j2)
                                        ||| best_loss == spread.loss(a, i2, j2) && (bi < i2 || bi
                                            == i2 && bj <= j2)
                                    }
                            },
                            None => forall|i2: int, j2: int| #[trigger]
                                spread.may_move(a, w as int, i2, j2) ==> i2 > i || i2 == i && j2
                                    >= j,
                        },
                    decreases n_slots - j,
                {
                    let wp = j / sites_per_word;
                    proof {
                        assert(wp < load.len()) by (nonlinear_arith)
                            requires
                                wp == j as int / sites_per_word as int,
                                j < sites_per_word * load.len(),
                                sites_per_word > 0,
                        ;
                        assert(load[wp as int] == spread.load(a, wp as int));
                        lemma_cell_index(n_pairs as int, n_slots as int, i as int, j as int);
                    }
                    if wp != w && load[wp] < ideal && !slot_used[j] {
                        let new_cost = base_costs[i * n_slots + j];
                        if new_cost < big {
                            let loss: i64 = new_cost as i64 - cur_cost as i64;
                            assert(loss == spread.loss(a, i as int, j as int));
                            if loss <= max_loss as i64 {
                                assert(spread.may_move(a, w as int, i as int, j as int));
                                if best.is_none() || loss < best_loss {
                                    best = Some((i, j));
                                    best_loss = loss;
                                }
                            }
                        }
                    }
                    j += 1;
                }
            }
        }
        i += 1;
    }
    best
}

/// Congestion-aware assignment: a best assignment followed by greedy
/// rebalancing that re-routes rows from over-loaded entangling word pairs to
/// under-loaded ones, cheapest move first.
///
/// Slots are laid out word pair by word pair, so `slot / sites_per_word` is the
/// word pair. `max_loss` is the largest cost increase that rebalancing accepts
/// to move one row; `None` turns rebalancing off. Cells of cost `big` and above
/// are unreachable.
pub fn congestion_aware_hungarian(
    base_costs: &[u32],
    n_pairs: usize,
    n_slots: usize,
    sites_per_word: usize,
    n_word_pairs: usize,
    max_loss: Option<u32>,
    big: u32,
) -> (assignment: Vec<usize>)
    requires
        base_costs.len() == n_pairs * n_slots,
        n_pairs < usize::MAX,
        n_slots < usize::MAX,
        n_pairs > n_slots ==> n_pairs * n_pairs <= usize::MAX,
        max_loss is Some ==> n_word_pairs > 0 && n_slots <= sites_per_word * n_word_pairs,
    ensures
        is_spread_assignment(
            base_costs@,
            n_pairs as int,
            n_slots as int,
            sites_per_word as int,
            n_word_pairs as int,
            max_loss,
            big,
            assignment@,
        ),
{
    let mut assignment = assign_rows(base_costs, n_pairs, n_slots);
    let max_loss = match max_loss {
        Some(x) => x,
        None => {
            return assignment;
        },
    };
    if n_slots == 0 {
        proof {
            lemma_nowhere_to_move(
                base_costs@,
                n_pairs as int,
                sites_per_word as int,
                n_word_pairs as int,
                Some(max_loss),
                big,
            );
        }
        return assignment;
    }
    proof {
        assert(sites_per_word > 0) by (nonlinear_arith)
            requires
                0 < n_slots <= sites_per_word * n_word_pairs,
        ;
    }
    let ideal: usize = n_pairs / n_word_pairs + (if n_pairs % n_word_pairs > 0 {
        1
    } else {
        0
    });
    let ghost spread = Spread {
        costs: base_costs@,
        n_slots: n_slots as int,
        sites_per_word: sites_per_word as int,
        n_word_pairs: n_word_pairs as int,
        ideal: ideal as int,
        max_loss: max_loss as int,
        big: big as int,
    };
    let ghost a0 = assignment@;
    let ghost width = larger(n_pairs as int, n_slots as int);
    if n_pairs == 0 {
        return assignment;
    }
    let mut load = load_per_wp(assignment.as_slice(), sites_per_word, n_word_pairs);
    let mut slot_used: Vec<bool> = vec![false; n_slots];
    let mut k: usize = 0;
    while k < n_pairs
        invariant
            k <= n_pairs,
            assignment.len() == n_pairs,
            slot_used.len() == n_slots,
            forall|j: int|
                0 <= j < n_slots ==> #[trigger] slot_used[j] == assignment@.take(
                    k as int,
                ).contains(j as usize),
        decreases n_pairs - k,
    {
        let col = assignment[k];
        let ghost before = slot_used@;
        if col < n_slots {
            slot_used[col] = true;
        }
        proof {
            let s = assignment@.take(k as int);
            let t = assignment@.take(k + 1);
            assert(t =~= s.push(col));
            assert forall|j: int| 0 <= j < n_slots implies #[trigger] slot_used[j] == t.contains(
                j as usize,
            ) by {
                assert(before[j] == s.contains(j as usize));
                if s.contains(j as usize) {
                    let x = choose|x: int| 0 <= x < s.len() && s[x] == j as usize;
                    assert(t[x] == j as usize);
                }
                assert(t[k as int] == col);
            }
        }
        k += 1;
    }
    assert(assignment@.take(k as int) =~= assignment@);
    let mut left: usize = n_pairs;
    while left > 0
        invariant
            left <= n_pairs,
            n_pairs > 0,
            base_costs.len() == n_pairs * n_slots,
            sites_per_word > 0,
            n_word_pairs > 0,
            n_slots < usize::MAX,
            n_pairs < usize::MAX,
            n_slots <= sites_per_word * n_word_pairs,
            width == larger(n_pairs as int, n_slots as int),
            spread == (Spread {
                costs: base_costs@,
                n_slots: n_slots as int,
                sites_per_word: sites_per_word as int,
                n_word_pairs: n_word_pairs as int,
                ideal: ideal as int,
                max_loss: max_loss as int,
                big: big as int,
            }),
            is_assignment(n_pairs as int, width, assignment@),
            load.len() == n_word_pairs,
            slot_used.len() == n_slots,
            forall|x: int|
                0 <= x < load.len() ==> #[trigger] load[x] == spread.load(assignment@, x),
            forall|j: int|
                0 <= j < n_slots ==> #[trigger] slot_used[j] == assignment@.contains(j as usize),
            spread.rebalanced(a0, n_pairs as nat) == spread.rebalanced(assignment@, left as nat),
        ensures
            spread.rebalanced(a0, n_pairs as nat) == assignment@,
        decreases left,
    {
        let ghost a = assignment@;
        let w = fullest(&load);
        proof {
            assert forall|x: int| 0 <= x < n_word_pairs implies #[trigger] spread.load(a, x)
                <= spread.load(a, w as int) by {
                assert(load[x] <= load[w as int]);
            }
            assert forall|x: int| w < x < n_word_pairs implies #[trigger] spread.load(a, x)
                < spread.load(a, w as int) by {
                assert(load[x] < load[w as int]);
            }
            assert(spread.is_fullest(a, w as int));
            // No other word pair can be the fullest.
            assert forall|w2: int, i2: int, j2: int| spread.is_best_move(a, w2, i2, j2) implies w2
                == w by {
                assert(spread.load(a, w2) <= spread.load(a, w as int));
                assert(spread.load(a, w as int) <= spread.load(a, w2));
                if w2 < w {
                    assert(spread.load(a, w as int) < spread.load(a, w2));
                } else if w2 > w {
                    assert(spread.load(a, w2) < spread.load(a, w as int));
                }
            }
        }
        if load[w] <= ideal {
            break;
        }
        let (i, j) = match best_move(
            Ghost(spread),
            base_costs,
            n_pairs,
            n_slots,
            sites_per_word,
            ideal,
            max_loss,
            big,
            &assignment,
            &load,
            &slot_used,
            w,
        ) {
            Some(best) => best,
            None => {
                break;
            },
        };
        let old_col = assignment[i];
        let old_wp = old_col / sites_per_word;
        let new_wp = j / sites_per_word;
        proof {
            assert(old_wp == w);
            assert(new_wp < n_word_pairs) by (nonlinear_arith)
                requires
                    new_wp == j as int / sites_per_word as int,
                    j < sites_per_word * n_word_pairs,
                    sites_per_word > 0,
            ;
            assert(load[old_wp as int] > 0);
            assert(load[new_wp as int] == spread.load(a, new_wp as int));
            lemma_load_bound(a, sites_per_word as int, new_wp as int);
            spread.lemma_step(a, left as nat, w as int, i as int, j as int);
        }
        let ghost used0 = slot_used@;
        let ghost load0 = load@;
        slot_used[old_col] = false;
        slot_used[j] = true;
        load[old_wp] = load[old_wp] - 1;
        load[new_wp] = load[new_wp] + 1;
        assignment[i] = j;
        proof {
            let b = assignment@;
            assert(b =~= a.update(i as int, j));
            assert forall|x: int| 0 <= x < load.len() implies #[trigger] load[x] == spread.load(
                b,
                x,
            ) by {
                assert(load0[x] == spread.load(a, x));
                lemma_load_update(a, sites_per_word as int, i as int, j, x);
            }
            assert forall|r: int, s: int| 0 <= r < s < b.len() implies #[trigger] b[r]
                != #[trigger] b[s] by {
                assert(a[r] != a[s]);
                assert(a.contains(a[r]));
                assert(a.contains(a[s]));
            }
            assert forall|x: int| 0 <= x < n_slots implies #[trigger] slot_used[x] == b.contains(
                x as usize,
            ) by {
                assert(used0[x] == a.contains(x as usize));
                if x == j {
                    assert(b[i as int] == j);
                } else if x == old_col {
                    if b.contains(x as usize) {
                        let y = choose|y: int| 0 <= y < b.len() && b[y] == x as usize;
                        assert(y != i);
                        assert(a[y] == a[i as int]);
                    }
                } else {
                    if a.contains(x as usize) {
                        let y = choose|y: int| 0 <= y < a.len() && a[y] == x as usize;
                        assert(b[y] == x as usize);
                    }
                    if b.contains(x as usize) {
                        let y = choose|y: int| 0 <= y < b.len() && b[y] == x as usize;
                        assert(a[y] == x as usize);
                    }
                }
            }
        }
        left -= 1;
    }
    assert(is_best_assignment(base_costs@, n_pairs as int, n_slots as int, a0));
    assignment
}

} // verus!
