use bloqade_lanes_search::congestion::{
    assign_rows, congestion_aware_hungarian, load_per_wp, max_load_per_wp,
};
use bloqade_lanes_search::hungarian::hungarian;

const BIG: u32 = u32::MAX / 4;

#[test]
fn hungarian_2x3_optimal() {
    // 2 rows (pairs), 3 columns (positions).
    // Cost matrix:
    //   [ 3, 1, 5 ]
    //   [ 2, 4, 1 ]
    // Optimal: row 0 to column 1 (cost 1), row 1 to column 2 (cost 1): total 2.
    let costs = vec![3, 1, 5, 2, 4, 1];
    let result = hungarian(&costs, 2, 3);
    assert_eq!(result[0], 1); // row 0, column 1
    assert_eq!(result[1], 2); // row 1, column 2
}

#[test]
fn hungarian_3x3_square() {
    // [ 1, 2, 3 ]
    // [ 2, 4, 6 ]
    // [ 3, 6, 9 ]
    // Optimal total is 10: 0 to 2, 1 to 1, 2 to 0.
    let costs = vec![1, 2, 3, 2, 4, 6, 3, 6, 9];
    let result = hungarian(&costs, 3, 3);
    let total: u32 = result
        .iter()
        .enumerate()
        .map(|(r, &c)| costs[r * 3 + c])
        .sum();
    assert_eq!(total, 10);
}

#[test]
fn hungarian_1x1() {
    let costs = vec![42];
    let result = hungarian(&costs, 1, 1);
    assert_eq!(result, vec![0]);
}

/// Least total cost over all assignments, by trying each.
fn least_total(costs: &[u32], n_cols: usize, row: usize, used: &mut Vec<bool>) -> u64 {
    let n_rows = costs.len() / n_cols;
    if row == n_rows {
        return 0;
    }
    let mut best = u64::MAX;
    for c in 0..n_cols {
        if !used[c] {
            used[c] = true;
            let rest = least_total(costs, n_cols, row + 1, used);
            best = best.min(costs[row * n_cols + c] as u64 + rest);
            used[c] = false;
        }
    }
    best
}

#[test]
fn hungarian_matches_exhaustive_search() {
    let mut state: u64 = 7;
    for n_rows in 1..5usize {
        for n_cols in n_rows..6usize {
            for round in 0..20 {
                let costs: Vec<u32> = (0..n_rows * n_cols)
                    .map(|_| {
                        state = state.wrapping_mul(6364136223846793005).wrapping_add(1442695040888963407);
                        let x = (state >> 33) as u32 % 12;
                        if x == 0 && round % 2 == 0 { u32::MAX } else { x }
                    })
                    .collect();
                let result = hungarian(&costs, n_rows, n_cols);
                let mut cols = result.clone();
                cols.sort();
                cols.dedup();
                assert_eq!(cols.len(), n_rows);
                let total: u64 = result
                    .iter()
                    .enumerate()
                    .map(|(r, &c)| costs[r * n_cols + c] as u64)
                    .sum();
                assert_eq!(total, least_total(&costs, n_cols, 0, &mut vec![false; n_cols]));
            }
        }
    }
}

#[test]
fn hungarian_prefers_the_first_of_equal_columns() {
    assert_eq!(hungarian(&[5, 5, 5, 5, 5, 5], 2, 3), vec![0, 1]);
    assert_eq!(hungarian(&[], 0, 4), Vec::<usize>::new());
}

#[test]
fn assign_rows_leaves_the_dearest_row_out() {
    // Three rows for two columns: row 1 is the one that costs too much.
    let costs = vec![1, 9, 8, 8, 9, 1];
    let result = assign_rows(&costs, 3, 2);
    assert_eq!(result, vec![0, 2, 1]);
}

#[test]
fn congestion_aware_hungarian_spreads_load() {
    // 4 pairs and 8 slots (2 word pairs of 4 sites): the ideal load is 2.
    // Costs are nearly tied between word pairs (gap 1).
    let n_pairs = 4;
    let sites_per_word = 4;
    let n_word_pairs = 2;
    let n_slots = sites_per_word * n_word_pairs;
    let mut costs = vec![0u32; n_pairs * n_slots];
    for i in 0..n_pairs {
        for j in 0..n_slots {
            let wp = j / sites_per_word;
            let base = if wp == 0 { 5 } else { 6 };
            // Prefer matching slot to differentiate within a word pair.
            let bonus = if (j % sites_per_word) == i { 0 } else { 2 };
            costs[i * n_slots + j] = base + bonus;
        }
    }

    let no_penalty = hungarian(&costs, n_pairs, n_slots);
    let max_load_no = max_load_per_wp(&no_penalty, sites_per_word, n_word_pairs);
    assert_eq!(
        max_load_no, n_pairs,
        "without penalty, all pairs concentrate on the cheapest wp"
    );

    let with_penalty = congestion_aware_hungarian(
        &costs,
        n_pairs,
        n_slots,
        sites_per_word,
        n_word_pairs,
        Some(1),
        BIG,
    );
    let max_load_w = max_load_per_wp(&with_penalty, sites_per_word, n_word_pairs);
    assert_eq!(with_penalty.len(), n_pairs, "all pairs must be assigned");
    let mut used = std::collections::HashSet::new();
    for &col in &with_penalty {
        assert!(col < n_slots, "all pairs must be assigned to a slot");
        assert!(used.insert(col), "no double-booking of slots");
    }
    assert!(
        max_load_w < max_load_no,
        "congestion_weight should reduce max load, got {max_load_w} (was {max_load_no})"
    );
    let ideal = n_pairs.div_ceil(n_word_pairs);
    assert!(
        max_load_w <= ideal,
        "rebalance should reach ideal load when feasible: {max_load_w} > {ideal}"
    );
}

#[test]
fn rebalancing_stays_within_its_budget() {
    // Two rows on the cheap word pair; leaving it costs 3.
    let costs = vec![0, 1, 3, 4, 1, 0, 4, 3];
    let off = congestion_aware_hungarian(&costs, 2, 4, 2, 2, None, BIG);
    assert_eq!(off, vec![0, 1]);
    let tight = congestion_aware_hungarian(&costs, 2, 4, 2, 2, Some(2), BIG);
    assert_eq!(tight, vec![0, 1]);
    let wide = congestion_aware_hungarian(&costs, 2, 4, 2, 2, Some(3), BIG);
    assert_eq!(wide, vec![2, 1]);
    // Unreachable cells are no destination.
    let costs = vec![0, 1, BIG, BIG, 1, 0, BIG, BIG];
    let stuck = congestion_aware_hungarian(&costs, 2, 4, 2, 2, Some(u32::MAX), BIG);
    assert_eq!(stuck, vec![0, 1]);
}

#[test]
fn spreading_keeps_to_its_bounds() {
    // Five rows that all want the first of three word pairs with three sites.
    let (rows, sites, pairs) = (5usize, 3usize, 3usize);
    let slots = sites * pairs;
    let costs: Vec<u32> = (0..rows * slots)
        .map(|k| {
            let (r, c) = (k / slots, k % slots);
            (4 * (c / sites) + (r + c) % 3) as u32
        })
        .collect();
    let best = hungarian(&costs, rows, slots);
    let before = load_per_wp(&best, sites, pairs);
    let ideal = rows.div_ceil(pairs);
    for max_loss in 0..12u32 {
        let spread =
            congestion_aware_hungarian(&costs, rows, slots, sites, pairs, Some(max_loss), 1000);
        let after = load_per_wp(&spread, sites, pairs);
        for w in 0..pairs {
            assert!(after[w] <= before[w].max(ideal));
        }
        for r in 0..rows {
            let (new, old) = (costs[r * slots + spread[r]], costs[r * slots + best[r]]);
            assert!(new <= old + max_loss);
        }
    }
    let off = congestion_aware_hungarian(&costs, rows, slots, sites, pairs, None, 1000);
    assert_eq!(off, best);
    // Without rebalancing, nothing is asked of the word pairs.
    assert_eq!(congestion_aware_hungarian(&costs, rows, slots, 0, 0, None, 1000), best);
}

#[test]
fn loads_are_counted_per_word_pair() {
    assert_eq!(load_per_wp(&[0, 1, 5, 9], 3, 2), vec![2, 1]);
    assert_eq!(max_load_per_wp(&[0, 1, 5, 9], 3, 2), 2);
    assert_eq!(max_load_per_wp(&[], 3, 0), 0);
}
