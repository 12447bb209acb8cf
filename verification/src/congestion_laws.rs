//! How rows are spread over word pairs, stated on rows, columns and costs.

use crate::congestion::{
    assign_rows, best_assignment, congestion_aware_hungarian, ideal_load, larger, lemma_load_update,
    load_of, load_per_wp, max_load_per_wp, spread_assignment, widened, Spread,
};
use crate::cost_laws::injective_below;
use crate::hungarian::{cell, is_assignment, lemma_cell_index, total_cost};
use vstd::arithmetic::div_mod::lemma_fundamental_div_mod_converse;
use vstd::prelude::*;

verus! {

/// The rows that sit on a word pair.
pub open spec fn rows_on(a: Seq<usize>, sites_per_word: int, wp: int) -> Set<int> {
    Set::new(|i: int| 0 <= i < a.len() && a[i] as int / sites_per_word == wp)
}

/// The load of a word pair is the number of rows on it.
pub proof fn lemma_load_counts_rows(a: Seq<usize>, sites_per_word: int, wp: int)
    ensures
        rows_on(a, sites_per_word, wp).finite(),
        load_of(a, sites_per_word, wp) == rows_on(a, sites_per_word, wp).len(),
    decreases a.len(),
{
    let all = rows_on(a, sites_per_word, wp);
    if a.len() == 0 {
        assert(all =~= Set::empty());
    } else {
        let rest = a.drop_last();
        let last = a.len() - 1;
        let before = rows_on(rest, sites_per_word, wp);
        lemma_load_counts_rows(rest, sites_per_word, wp);
        assert forall|i: int| 0 <= i < last implies rest[i] == a[i] by {}
        if a.last() as int / sites_per_word == wp {
            assert(all =~= before.insert(last));
        } else {
            assert(all =~= before);
        }
    }
}

/// [`load_per_wp`] counts the rows on each word pair.
pub proof fn lemma_load_per_wp(
    assignment: &[usize],
    sites_per_word: usize,
    n_word_pairs: usize,
    load: Vec<usize>,
    wp: int,
)
    requires
        call_ensures(load_per_wp, (assignment, sites_per_word, n_word_pairs), load),
        0 <= wp < n_word_pairs,
    ensures
        load@.len() == n_word_pairs,
        load@[wp] == rows_on(assignment@, sites_per_word as int, wp).len(),
{
    lemma_load_counts_rows(assignment@, sites_per_word as int, wp);
}

/// [`max_load_per_wp`] is the number of rows on the fullest word pair.
pub proof fn lemma_max_load(
    assignment: &[usize],
    sites_per_word: usize,
    n_word_pairs: usize,
    max: usize,
)
    requires
        call_ensures(max_load_per_wp, (assignment, sites_per_word, n_word_pairs), max),
        n_word_pairs > 0,
    ensures
        forall|wp: int|
            0 <= wp < n_word_pairs ==> (#[trigger] rows_on(assignment@, sites_per_word as int, wp)).len()
                <= max,
        exists|wp: int|
            0 <= wp < n_word_pairs && (#[trigger] rows_on(assignment@, sites_per_word as int, wp)).len()
                == max,
{
    let (a, sites) = (assignment@, sites_per_word as int);
    assert forall|wp: int| 0 <= wp < n_word_pairs implies (#[trigger] rows_on(a, sites, wp)).len()
        <= max by {
        lemma_load_counts_rows(a, sites, wp);
        assert(load_of(a, sites, wp) <= max);
    }
    let wp = choose|w: int| 0 <= w < n_word_pairs && #[trigger] load_of(a, sites, w) == max;
    lemma_load_counts_rows(a, sites, wp);
    assert(rows_on(a, sites, wp).len() == max);
}

/// The even load is the least that can hold all rows.
pub proof fn lemma_even_load(n_rows: int, n_word_pairs: int)
    requires
        0 <= n_rows,
        0 < n_word_pairs,
    ensures
        n_rows <= ideal_load(n_rows, n_word_pairs) * n_word_pairs,
        n_rows > 0 ==> (ideal_load(n_rows, n_word_pairs) - 1) * n_word_pairs < n_rows,
        n_rows == 0 ==> ideal_load(n_rows, n_word_pairs) == 0,
{
    let (q, r) = (n_rows / n_word_pairs, n_rows % n_word_pairs);
    assert(n_rows == q * n_word_pairs + r && 0 <= r < n_word_pairs && 0 <= q) by (nonlinear_arith)
        requires
            0 <= n_rows,
            0 < n_word_pairs,
            q == n_rows / n_word_pairs,
            r == n_rows % n_word_pairs,
    ;
    assert((q + 1) * n_word_pairs == q * n_word_pairs + n_word_pairs) by (nonlinear_arith);
    assert((q - 1) * n_word_pairs == q * n_word_pairs - n_word_pairs) by (nonlinear_arith);
    if n_rows == 0 {
        assert(q == 0 && r == 0) by (nonlinear_arith)
            requires
                0 == q * n_word_pairs + r,
                0 <= r,
                0 <= q,
                0 < n_word_pairs,
        ;
    }
}

/// Row `i` sits on the overloaded word pair `w`, and could go to column `j`, which
/// no row has, on a word pair that has room: neither cell is unreachable, and the
/// cost rises by `max_loss` at most.
pub open spec fn can_move(
    costs: Seq<u32>,
    n_slots: int,
    sites_per_word: int,
    even: int,
    max_loss: int,
    big: int,
    a: Seq<usize>,
    w: int,
    i: int,
    j: int,
) -> bool {
    &&& 0 <= i < a.len()
    &&& 0 <= j < n_slots
    &&& a[i] < n_slots
    &&& a[i] as int / sites_per_word == w
    &&& j / sites_per_word != w
    &&& rows_on(a, sites_per_word, j / sites_per_word).len() < even
    &&& forall|k: int| 0 <= k < a.len() ==> #[trigger] a[k] != j
    &&& costs[i * n_slots + a[i]] < big
    &&& costs[i * n_slots + j] < big
    &&& costs[i * n_slots + j] <= costs[i * n_slots + a[i]] + max_loss
}

/// `w` has more rows than any later word pair, at least as many as any other one,
/// and more than the even load.
pub open spec fn overfull(
    a: Seq<usize>,
    sites_per_word: int,
    n_word_pairs: int,
    even: int,
    w: int,
) -> bool {
    &&& 0 <= w < n_word_pairs
    &&& rows_on(a, sites_per_word, w).len() > even
    &&& forall|x: int|
        0 <= x < n_word_pairs ==> (#[trigger] rows_on(a, sites_per_word, x)).len() <= rows_on(
            a,
            sites_per_word,
            w,
        ).len()
    &&& forall|x: int|
        w < x < n_word_pairs ==> (#[trigger] rows_on(a, sites_per_word, x)).len() < rows_on(
            a,
            sites_per_word,
            w,
        ).len()
}

impl Spread {
    proof fn lemma_can_move(self, a: Seq<usize>, w: int, i: int, j: int)
        requires
            self.n_slots <= usize::MAX,
        ensures
            self.may_move(a, w, i, j) <==> can_move(
                self.costs,
                self.n_slots,
                self.sites_per_word,
                self.ideal,
                self.max_loss,
                self.big,
                a,
                w,
                i,
                j,
            ),
    {
        lemma_load_counts_rows(a, self.sites_per_word, j / self.sites_per_word);
        if 0 <= j < self.n_slots {
            if a.contains(j as usize) {
                let k = choose|k: int| 0 <= k < a.len() && a[k] == j as usize;
                assert(a[k] == j);
            } else {
                assert forall|k: int| 0 <= k < a.len() implies #[trigger] a[k] != j by {
                    if a[k] == j {
                        assert(a[k] == j as usize);
                    }
                }
            }
        }
    }

    proof fn lemma_overfull(self, a: Seq<usize>, w: int)
        ensures
            self.is_fullest(a, w) && self.load(a, w) > self.ideal <==> overfull(
                a,
                self.sites_per_word,
                self.n_word_pairs,
                self.ideal,
                w,
            ),
    {
        assert forall|x: int| self.load(a, x) == (#[trigger] rows_on(
            a,
            self.sites_per_word,
            x,
        )).len() by {
            lemma_load_counts_rows(a, self.sites_per_word, x);
        }
        if overfull(a, self.sites_per_word, self.n_word_pairs, self.ideal, w) {
            assert forall|x: int| 0 <= x < self.n_word_pairs implies #[trigger] self.load(a, x)
                <= self.load(a, w) by {
                assert(rows_on(a, self.sites_per_word, x).len() == self.load(a, x));
                assert(rows_on(a, self.sites_per_word, w).len() == self.load(a, w));
            }
            assert forall|x: int| w < x < self.n_word_pairs implies #[trigger] self.load(a, x)
                < self.load(a, w) by {
                assert(rows_on(a, self.sites_per_word, x).len() == self.load(a, x));
                assert(rows_on(a, self.sites_per_word, w).len() == self.load(a, w));
            }
            assert(rows_on(a, self.sites_per_word, w).len() == self.load(a, w));
        }
    }

    /// Whether a cell comes before column `m` of row `n`.
    spec fn is_below(self, i: int, j: int, n: int, m: int) -> bool {
        i < n || (i == n && j < m)
    }

    /// Whether a move is the best of those before column `m` of row `n`.
    spec fn is_best_below(self, a: Seq<usize>, w: int, i: int, j: int, n: int, m: int) -> bool {
        &&& self.may_move(a, w, i, j)
        &&& self.is_below(i, j, n, m)
        &&& forall|i2: int, j2: int| #[trigger]
            self.may_move(a, w, i2, j2) && self.is_below(i2, j2, n, m) ==> {
                ||| self.loss(a, i, j) < self.loss(a, i2, j2)
                ||| self.loss(a, i, j) == self.loss(a, i2, j2) && (i < i2 || i == i2 && j <= j2)
            }
    }

    /// If a row may move off a word pair, there is a best move.
    proof fn lemma_best_exists(self, a: Seq<usize>, w: int, i: int, j: int, n: nat, m: nat) -> (best: (
        int,
        int,
    ))
        requires
            self.may_move(a, w, i, j),
            self.is_below(i, j, n as int, m as int),
        ensures
            self.is_best_below(a, w, best.0, best.1, n as int, m as int),
        decreases n, m,
    {
        if m == 0 {
            let all = self.n_slots as nat;
            let best = self.lemma_best_exists(a, w, i, j, (n - 1) as nat, all);
            assert forall|i2: int, j2: int| #[trigger]
                self.may_move(a, w, i2, j2) && self.is_below(i2, j2, n as int, 0) implies self.is_below(
                i2,
                j2,
                n - 1,
                all as int,
            ) by {}
            best
        } else {
            let (ln, lm) = (n as int, m - 1);
            if exists|i2: int, j2: int| #[trigger]
                self.may_move(a, w, i2, j2) && self.is_below(i2, j2, ln, lm) {
                let (i2, j2) = choose|i2: int, j2: int| #[trigger]
                    self.may_move(a, w, i2, j2) && self.is_below(i2, j2, ln, lm);
                let best = self.lemma_best_exists(a, w, i2, j2, n, lm as nat);
                if self.may_move(a, w, ln, lm) && self.loss(a, ln, lm) < self.loss(
                    a,
                    best.0,
                    best.1,
                ) {
                    (ln, lm)
                } else {
                    best
                }
            } else {
                (ln, lm)
            }
        }
    }

    /// Where the fullest word pair is overloaded and a row may move off it, there
    /// is a best move.
    proof fn lemma_move_exists(self, a: Seq<usize>, w: int, i: int, j: int)
        requires
            self.is_fullest(a, w),
            self.load(a, w) > self.ideal,
            self.may_move(a, w, i, j),
        ensures
            exists|w: int, i: int, j: int| self.is_best_move(a, w, i, j),
    {
        let best = self.lemma_best_exists(a, w, i, j, a.len(), 0);
        assert(self.is_best_move(a, w, best.0, best.1)) by {
            assert forall|i2: int, j2: int| #[trigger] self.may_move(a, w, i2, j2) implies self.is_below(
                i2,
                j2,
                a.len() as int,
                0,
            ) by {}
        }
    }

    /// Rows that are where they were in `h`.
    spec fn unmoved(self, h: Seq<usize>, a: Seq<usize>) -> Set<int> {
        Set::new(|i: int| 0 <= i < a.len() && a[i] == h[i])
    }

    /// As many steps as there are rows which have not moved are enough: afterwards
    /// no move is left.
    proof fn lemma_runs_out(self, h: Seq<usize>, a: Seq<usize>, steps: nat, w: int, i: int, j: int)
        requires
            self.n_slots <= usize::MAX,
            self.moved_within(h, a),
            self.unmoved(h, a).finite(),
            self.unmoved(h, a).len() <= steps,
        ensures
            !self.is_best_move(self.rebalanced(a, steps), w, i, j),
        decreases steps,
    {
        if exists|w: int, i: int, j: int| self.is_best_move(a, w, i, j) {
            let (w1, i1, j1) = choose|w: int, i: int, j: int| self.is_best_move(a, w, i, j);
            assert(self.may_move(a, w1, i1, j1));
            assert(a[i1] == h[i1]);
            assert(self.unmoved(h, a).contains(i1));
            if steps == 0 {
                assert(false);
            }
            let b = a.update(i1, j1 as usize);
            assert(a.contains(a[i1]));
            assert(b[i1] != h[i1]);
            assert(self.unmoved(h, b) =~= self.unmoved(h, a).remove(i1));
            self.lemma_one_move(h, a, w1, i1, j1);
            self.lemma_runs_out(h, b, (steps - 1) as nat, w, i, j);
        }
    }

    /// One move keeps every moved row within its bounds.
    proof fn lemma_one_move(self, h: Seq<usize>, a: Seq<usize>, w: int, i: int, j: int)
        requires
            self.n_slots <= usize::MAX,
            self.moved_within(h, a),
            self.is_best_move(a, w, i, j),
        ensures
            self.moved_within(h, a.update(i, j as usize)),
    {
        let b = a.update(i, j as usize);
        assert(self.may_move(a, w, i, j));
        assert(a[i] == h[i]);
        assert forall|k: int| 0 <= k < b.len() implies #[trigger] b[k] == h[k] || {
            &&& cell(self.costs, self.n_slots, k, b[k] as int) - cell(
                self.costs,
                self.n_slots,
                k,
                h[k] as int,
            ) <= self.max_loss
            &&& self.load(b, b[k] as int / self.sites_per_word) <= self.ideal
        } by {
            lemma_load_update(
                a,
                self.sites_per_word,
                i,
                j as usize,
                b[k] as int / self.sites_per_word,
            );
            if k != i {
                assert(b[k] == a[k]);
            }
        }
    }

    /// A row on a word pair that is not overloaded stays where it is.
    proof fn lemma_settled_row_stays(self, a: Seq<usize>, steps: nat, k: int)
        requires
            self.n_slots <= usize::MAX,
            0 <= k < a.len(),
            self.load(a, a[k] as int / self.sites_per_word) <= self.ideal,
        ensures
            self.rebalanced(a, steps).len() == a.len(),
            self.rebalanced(a, steps)[k] == a[k],
        decreases steps,
    {
        if steps > 0 && exists|w: int, i: int, j: int| self.is_best_move(a, w, i, j) {
            let (w, i, j) = choose|w: int, i: int, j: int| self.is_best_move(a, w, i, j);
            assert(self.may_move(a, w, i, j));
            assert(i != k);
            let b = a.update(i, j as usize);
            lemma_load_update(
                a,
                self.sites_per_word,
                i,
                j as usize,
                a[k] as int / self.sites_per_word,
            );
            assert(b[k] == a[k]);
            self.lemma_settled_row_stays(b, (steps - 1) as nat, k);
        }
    }

    /// The first move is the best one, and it stays.
    proof fn lemma_first_move(self, a: Seq<usize>, steps: nat) -> (step: (int, int, int))
        requires
            self.n_slots <= usize::MAX,
            self.rebalanced(a, steps) != a,
        ensures
            self.is_best_move(a, step.0, step.1, step.2),
            self.rebalanced(a, steps).len() == a.len(),
            self.rebalanced(a, steps)[step.1] == step.2,
            a[step.1] != step.2,
    {
        let (w, i, j) = choose|w: int, i: int, j: int| self.is_best_move(a, w, i, j);
        assert(self.may_move(a, w, i, j));
        let b = a.update(i, j as usize);
        lemma_load_update(a, self.sites_per_word, i, j as usize, j / self.sites_per_word);
        assert(a.contains(a[i]));
        self.lemma_settled_row_stays(b, (steps - 1) as nat, i);
        (w, i, j)
    }
}

proof fn lemma_rows_finite(h: Seq<usize>, a: Seq<usize>, n: nat)
    requires
        n <= a.len(),
    ensures
        Set::new(|i: int| 0 <= i < n && a[i] == h[i]).finite(),
        Set::new(|i: int| 0 <= i < n && a[i] == h[i]).len() <= n,
    decreases n,
{
    let all = Set::new(|i: int| 0 <= i < n && a[i] == h[i]);
    if n == 0 {
        assert(all =~= Set::empty());
    } else {
        let before = Set::new(|i: int| 0 <= i < n - 1 && a[i] == h[i]);
        lemma_rows_finite(h, a, (n - 1) as nat);
        if a[n - 1] == h[n - 1] {
            assert(all =~= before.insert(n - 1));
        } else {
            assert(all =~= before);
        }
    }
}

/// No row could still move off the fullest word pair of a spread assignment, where
/// that is overloaded.
pub proof fn lemma_spread_is_complete(
    costs: Seq<u32>,
    n_rows: int,
    n_slots: int,
    sites_per_word: int,
    n_word_pairs: int,
    max_loss: u32,
    big: u32,
    w: int,
    i: int,
    j: int,
)
    requires
        n_slots <= usize::MAX,
        best_assignment(costs, n_rows, n_slots).len() == n_rows,
        overfull(
            spread_assignment(
                costs,
                n_rows,
                n_slots,
                sites_per_word,
                n_word_pairs,
                Some(max_loss),
                big,
            ),
            sites_per_word,
            n_word_pairs,
            ideal_load(n_rows, n_word_pairs),
            w,
        ),
    ensures
        !can_move(
            costs,
            n_slots,
            sites_per_word,
            ideal_load(n_rows, n_word_pairs),
            max_loss as int,
            big as int,
            spread_assignment(
                costs,
                n_rows,
                n_slots,
                sites_per_word,
                n_word_pairs,
                Some(max_loss),
                big,
            ),
            w,
            i,
            j,
        ),
{
    let best = best_assignment(costs, n_rows, n_slots);
    let spread = Spread {
        costs,
        n_slots,
        sites_per_word,
        n_word_pairs,
        ideal: ideal_load(n_rows, n_word_pairs),
        max_loss: max_loss as int,
        big: big as int,
    };
    let a = spread.rebalanced(best, n_rows as nat);
    spread.lemma_can_move(a, w, i, j);
    spread.lemma_overfull(a, w);
    lemma_rows_finite(best, best, best.len());
    assert(spread.unmoved(best, best) =~= Set::new(
        |k: int| 0 <= k < best.len() && best[k] == best[k],
    ));
    if spread.may_move(a, w, i, j) {
        spread.lemma_move_exists(a, w, i, j);
        let (w1, i1, j1) = choose|w: int, i: int, j: int| spread.is_best_move(a, w, i, j);
        spread.lemma_runs_out(best, best, n_rows as nat, w1, i1, j1);
    }
}

/// Spreading goes on for as long as it can: in the result no row could still move
/// off the fullest word pair where that is overloaded.
pub proof fn lemma_spread_goes_all_the_way(
    base_costs: &[u32],
    n_pairs: usize,
    n_slots: usize,
    sites_per_word: usize,
    n_word_pairs: usize,
    max_loss: u32,
    big: u32,
    a: Vec<usize>,
    w: int,
    i: int,
    j: int,
)
    requires
        call_ensures(
            congestion_aware_hungarian,
            (base_costs, n_pairs, n_slots, sites_per_word, n_word_pairs, Some(max_loss), big),
            a,
        ),
        overfull(
            a@,
            sites_per_word as int,
            n_word_pairs as int,
            ideal_load(n_pairs as int, n_word_pairs as int),
            w,
        ),
    ensures
        !can_move(
            base_costs@,
            n_slots as int,
            sites_per_word as int,
            ideal_load(n_pairs as int, n_word_pairs as int),
            max_loss as int,
            big as int,
            a@,
            w,
            i,
            j,
        ),
{
    lemma_spread_is_complete(
        base_costs@,
        n_pairs as int,
        n_slots as int,
        sites_per_word as int,
        n_word_pairs as int,
        max_loss,
        big,
        w,
        i,
        j,
    );
}

/// The cheapest move comes first: where spreading has moved one row only, from `w`
/// to column `j`, no other row could have moved off `w` for less, and
/// of equal moves it is the first one.
pub proof fn lemma_spread_moves_cheapest(
    base_costs: &[u32],
    n_pairs: usize,
    n_slots: usize,
    sites_per_word: usize,
    n_word_pairs: usize,
    max_loss: u32,
    big: u32,
    best: Vec<usize>,
    a: Vec<usize>,
    i: int,
    i2: int,
    j2: int,
)
    requires
        call_ensures(
            congestion_aware_hungarian,
            (base_costs, n_pairs, n_slots, sites_per_word, n_word_pairs, None::<u32>, big),
            best,
        ),
        call_ensures(
            congestion_aware_hungarian,
            (base_costs, n_pairs, n_slots, sites_per_word, n_word_pairs, Some(max_loss), big),
            a,
        ),
        a@.len() == best@.len(),
        0 <= i < a@.len(),
        a@[i] != best@[i],
        forall|k: int| 0 <= k < a@.len() && k != i ==> #[trigger] a@[k] == best@[k],
        can_move(
            base_costs@,
            n_slots as int,
            sites_per_word as int,
            ideal_load(n_pairs as int, n_word_pairs as int),
            max_loss as int,
            big as int,
            best@,
            best@[i] as int / sites_per_word as int,
            i2,
            j2,
        ),
    ensures
        base_costs@[i * n_slots + a@[i]] - base_costs@[i * n_slots + best@[i]]
            <= base_costs@[i2 * n_slots + j2] - base_costs@[i2 * n_slots + best@[i2]],
        base_costs@[i * n_slots + a@[i]] - base_costs@[i * n_slots + best@[i]]
            == base_costs@[i2 * n_slots + j2] - base_costs@[i2 * n_slots + best@[i2]] ==> i < i2
            || i == i2 && a@[i] <= j2,
{
    let spread = Spread {
        costs: base_costs@,
        n_slots: n_slots as int,
        sites_per_word: sites_per_word as int,
        n_word_pairs: n_word_pairs as int,
        ideal: ideal_load(n_pairs as int, n_word_pairs as int),
        max_loss: max_loss as int,
        big: big as int,
    };
    let (w, i1, j1) = spread.lemma_first_move(best@, n_pairs as nat);
    assert(i1 == i);
    assert(spread.may_move(best@, w, i1, j1));
    spread.lemma_can_move(best@, w, i2, j2);
    assert(spread.may_move(best@, w, i2, j2));
}

/// What `a` picks of the matrix, for the rows that get a column of it.
pub open spec fn picked_within(costs: Seq<u32>, n_cols: nat, a: Seq<usize>, n: nat) -> int
    decreases n,
{
    if n == 0 {
        0
    } else {
        picked_within(costs, n_cols, a, (n - 1) as nat) + if a[n - 1] < n_cols {
            costs[(n - 1) * n_cols + a[n - 1]] as int
        } else {
            0
        }
    }
}

/// What is picked of the matrix is the total cost in the widened matrix.
pub proof fn lemma_picked_within(
    costs: Seq<u32>,
    n_rows: nat,
    n_cols: nat,
    a: Seq<usize>,
    n: nat,
)
    requires
        n <= a.len(),
        n <= n_rows,
        forall|i: int|
            0 <= i < a.len() ==> #[trigger] a[i] < larger(n_rows as int, n_cols as int),
    ensures
        picked_within(costs, n_cols, a, n) == total_cost(
            widened(costs, n_rows as int, n_cols as int),
            larger(n_rows as int, n_cols as int),
            a.take(n as int),
        ),
    decreases n,
{
    if n > 0 {
        let part = a.take(n as int);
        assert(part.drop_last() =~= a.take(n - 1));
        assert(part.last() == a[n - 1]);
        lemma_picked_within(costs, n_rows, n_cols, a, (n - 1) as nat);
        let width = larger(n_rows as int, n_cols as int);
        let (r, c) = (n - 1, a[n - 1] as int);
        assert(a[n - 1] < width);
        if n_rows > n_cols {
            lemma_cell_index(n_rows as int, n_rows as int, r, c);
            lemma_fundamental_div_mod_converse(r * n_rows + c, n_rows as int, r, c);
        }
    }
}

/// [`assign_rows`] uses the columns at the least total cost also where there are
/// more rows than columns: no other way to give rows columns of their own, with
/// numbers past the last column for rows without one, picks less.
pub proof fn lemma_assign_rows_picks_least(
    costs: &[u32],
    n_rows: usize,
    n_cols: usize,
    a: Vec<usize>,
    b: Seq<usize>,
)
    requires
        call_ensures(assign_rows, (costs, n_rows, n_cols), a),
        injective_below(b, n_rows as nat, larger(n_rows as int, n_cols as int) as nat),
    ensures
        injective_below(a@, n_rows as nat, larger(n_rows as int, n_cols as int) as nat),
        picked_within(costs@, n_cols as nat, a@, n_rows as nat) <= picked_within(
            costs@,
            n_cols as nat,
            b,
            n_rows as nat,
        ),
{
    let width = larger(n_rows as int, n_cols as int);
    assert(is_assignment(n_rows as int, width, b));
    lemma_picked_within(costs@, n_rows as nat, n_cols as nat, a@, n_rows as nat);
    lemma_picked_within(costs@, n_rows as nat, n_cols as nat, b, n_rows as nat);
    assert(a@.take(n_rows as int) =~= a@);
    assert(b.take(n_rows as int) =~= b);
}

} // verus!
