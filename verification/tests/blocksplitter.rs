use zopfli::blocksplitter::{
    AddSorted, EstimateCost, FindLargestSplittableBlock, PrintBlockSplitPoints, SplitCost,
    SplitCostContext, ZopfliBlockSplitLZ77,
};
use zopfli::lz77::Lz77Store;
use zopfli::minimum::FindMinimum;
use zopfli::stats::WriteStatistics;

fn literals(n: usize) -> Lz77Store {
    let mut store = Lz77Store::new();
    for i in 0..n {
        store.lit_len_dist((i % 256) as u16, 0);
    }
    store
}

fn distance(a: usize, b: usize) -> u64 {
    if a > b {
        (a - b) as u64
    } else {
        (b - a) as u64
    }
}

#[test]
fn find_minimum_scans_short_ranges() {
    let costs = [9u64, 4, 7, 2, 8, 2, 5];
    let f = |i: usize, table: &[u64; 7]| -> u64 { table[i] };
    assert_eq!(FindMinimum(&f, &costs, 0, 7), (3, 2));
    assert_eq!(FindMinimum(&f, &costs, 4, 7), (5, 2));
    assert_eq!(FindMinimum(&f, &costs, 0, 3), (1, 4));
    assert_eq!(FindMinimum(&f, &costs, 2, 3), (2, 7));
}

#[test]
fn find_minimum_first_of_equal_costs_wins() {
    let f = |_i: usize, _c: &()| -> u64 { 5 };
    assert_eq!(FindMinimum(&f, &(), 3, 900), (3, 5));
}

#[test]
fn find_minimum_narrows_wide_ranges() {
    // Samples 200 apart, then 40, 8 and 1 apart; the last bracket 696..704 is
    // scanned.
    let f = |i: usize, target: &usize| -> u64 { distance(i, *target) };
    assert_eq!(FindMinimum(&f, &700, 0, 2000), (700, 0));
}

#[test]
fn find_minimum_stops_on_flat_costs() {
    // The second round finds nothing better than the first sample of the
    // first round.
    let f = |_i: usize, _c: &()| -> u64 { 7 };
    assert_eq!(FindMinimum(&f, &(), 0, 2000), (200, 7));
}

#[test]
fn find_minimum_takes_the_best_sample_not_the_minimum() {
    // A single cheap index between the samples is not seen.
    let f = |i: usize, _c: &()| -> u64 {
        if i == 1001 {
            0
        } else {
            distance(i, 600) + 10
        }
    };
    assert_eq!(FindMinimum(&f, &(), 0, 2000), (600, 10));
}

#[test]
fn estimate_cost_asks_the_estimator() {
    let store = literals(12);
    let estimate = |_lz: &Lz77Store, s: usize, e: usize| -> u64 { (3 * s + 5 * e) as u64 };
    assert_eq!(EstimateCost(&estimate, &store, 2, 7), 41);
}

#[test]
fn split_cost_adds_both_sides() {
    let store = literals(12);
    let estimate = |_lz: &Lz77Store, s: usize, e: usize| -> u64 { ((e - s) * (e - s)) as u64 };
    let c = SplitCostContext { estimate: &estimate, lz77: &store, start: 2, end: 11 };
    assert_eq!(SplitCost(5, &c), 9 + 36);
    assert_eq!(SplitCost(2, &c), 81);
}

#[test]
fn largest_block_is_the_first_of_the_widest() {
    let done = vec![0u8; 30];
    assert_eq!(FindLargestSplittableBlock(30, &done, &[10, 20], 3, 4), (true, 0, 10));
    assert_eq!(FindLargestSplittableBlock(30, &done, &[5, 20], 3, 4), (true, 5, 20));
    assert_eq!(FindLargestSplittableBlock(30, &done, &[], 3, 4), (true, 0, 29));
}

#[test]
fn largest_block_skips_done_blocks() {
    let mut done = vec![0u8; 30];
    done[5] = 1;
    assert_eq!(FindLargestSplittableBlock(30, &done, &[5, 20], 3, 4), (true, 20, 29));
    done[0] = 1;
    done[20] = 1;
    assert_eq!(FindLargestSplittableBlock(30, &done, &[5, 20], 3, 4), (false, 3, 4));
}

#[test]
fn largest_block_ignores_an_empty_last_block() {
    let mut done = vec![0u8; 30];
    done[0] = 1;
    assert_eq!(FindLargestSplittableBlock(30, &done, &[29], 7, 8), (false, 7, 8));
}

#[test]
fn add_sorted_keeps_the_order() {
    let mut points = Vec::new();
    AddSorted(12, &mut points);
    AddSorted(5, &mut points);
    AddSorted(20, &mut points);
    AddSorted(9, &mut points);
    assert_eq!(points, vec![5, 9, 12, 20]);
}

#[test]
fn split_points_are_reported_in_bytes() {
    let mut store = Lz77Store::new();
    store.lit_len_dist(65, 0);
    store.lit_len_dist(66, 0);
    store.lit_len_dist(10, 2);
    store.lit_len_dist(67, 0);
    store.lit_len_dist(258, 1);
    store.lit_len_dist(68, 0);
    assert_eq!(PrintBlockSplitPoints(&store, &[2, 3, 5]), vec![2, 12, 271]);
    assert_eq!(PrintBlockSplitPoints(&store, &[0]), vec![0]);
    assert_eq!(PrintBlockSplitPoints(&store, &[]), Vec::<usize>::new());
}

#[test]
fn streams_under_ten_tokens_are_not_split() {
    let estimate = |_lz: &Lz77Store, s: usize, e: usize| -> u64 { ((e - s) * (e - s)) as u64 };
    for n in 0..10 {
        let store = literals(n);
        assert_eq!(ZopfliBlockSplitLZ77(&estimate, &store, 0), Vec::<usize>::new());
    }
}

// A block that holds the tokens 11 and 12 together is dear, every other cheap.
fn seam(_lz: &Lz77Store, s: usize, e: usize) -> u64 {
    if s <= 11 && e > 12 {
        100
    } else {
        10
    }
}

#[test]
fn splits_where_two_blocks_are_cheaper() {
    let store = literals(24);
    assert_eq!(ZopfliBlockSplitLZ77(&seam, &store, 0), vec![12]);
}

#[test]
fn no_split_where_it_costs_as_much() {
    let store = literals(24);
    let estimate = |_lz: &Lz77Store, s: usize, e: usize| -> u64 { (e - s) as u64 };
    assert_eq!(ZopfliBlockSplitLZ77(&estimate, &store, 0), Vec::<usize>::new());
}

#[test]
fn max_blocks_bounds_the_split_points() {
    let store = literals(200);
    let estimate = |_lz: &Lz77Store, s: usize, e: usize| -> u64 { ((e - s) * (e - s)) as u64 };
    assert_eq!(ZopfliBlockSplitLZ77(&estimate, &store, 1), Vec::<usize>::new());
    for maxblocks in 2..8 {
        let points = ZopfliBlockSplitLZ77(&estimate, &store, maxblocks);
        assert_eq!(points.len(), maxblocks - 1);
    }
}

#[test]
fn split_points_ascend_inside_the_stream() {
    let store = literals(300);
    let estimate = |_lz: &Lz77Store, s: usize, e: usize| -> u64 { ((e - s) * (e - s)) as u64 };
    let points = ZopfliBlockSplitLZ77(&estimate, &store, 0);
    assert!(points.len() > 2);
    for i in 0..points.len() {
        assert!(0 < points[i] && points[i] < 299);
        if i > 0 {
            assert!(points[i - 1] < points[i]);
        }
    }
}

#[test]
fn a_first_split_before_the_last_token_is_taken() {
    // Only the whole stream can be split at its last token: every later
    // block ends there.
    let store = literals(10);
    let estimate = |_lz: &Lz77Store, s: usize, e: usize| -> u64 {
        if (s, e) == (0, 9) || (s, e) == (9, 10) {
            0
        } else {
            1
        }
    };
    assert_eq!(ZopfliBlockSplitLZ77(&estimate, &store, 0), vec![9]);
}

#[test]
fn a_split_after_the_first_token_is_not_taken() {
    let store = literals(12);
    let estimate = |_lz: &Lz77Store, s: usize, e: usize| -> u64 {
        if (s, e) == (0, 1) || (s, e) == (1, 12) {
            0
        } else {
            5
        }
    };
    assert_eq!(ZopfliBlockSplitLZ77(&estimate, &store, 0), Vec::<usize>::new());
}

#[test]
fn a_split_that_costs_as_much_is_not_taken() {
    // Two blocks of 5 against one of 10.
    let store = literals(12);
    let estimate = |_lz: &Lz77Store, s: usize, e: usize| -> u64 {
        if (s, e) == (0, 12) {
            10
        } else if (s, e) == (0, 6) || (s, e) == (6, 12) {
            5
        } else {
            9
        }
    };
    assert_eq!(ZopfliBlockSplitLZ77(&estimate, &store, 0), Vec::<usize>::new());
}

#[test]
fn halves_first_with_quadratic_costs() {
    // The cheapest split of 0..40 is its middle; of the two blocks 0..20 and
    // 20..39 the first is the wider.
    let store = literals(40);
    let estimate = |_lz: &Lz77Store, s: usize, e: usize| -> u64 { ((e - s) * (e - s)) as u64 };
    assert_eq!(ZopfliBlockSplitLZ77(&estimate, &store, 2), vec![20]);
    assert_eq!(ZopfliBlockSplitLZ77(&estimate, &store, 3), vec![10, 20]);
}

#[test]
fn same_input_same_split() {
    let store = literals(120);
    let estimate = |_lz: &Lz77Store, s: usize, e: usize| -> u64 { ((e - s) * (e - s)) as u64 };
    assert_eq!(
        ZopfliBlockSplitLZ77(&estimate, &store, 5),
        ZopfliBlockSplitLZ77(&estimate, &store, 5)
    );
}

#[test]
fn write_statistics_counts_bytes() {
    let mut stats = WriteStatistics::new(Vec::<u8>::new());
    assert_eq!(stats.count, 0);
    stats.written(12);
    stats.written(0);
    stats.written(30);
    assert_eq!(stats.count, 42);
    assert!(stats.inner.is_empty());
}
