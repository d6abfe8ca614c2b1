use ledger_stats::balances::WalletSeries;
use ledger_stats::binning::LogBins;
use ledger_stats::buckets::{bucket_of, BucketTable};
use ledger_stats::histogram::Histogram;
use ledger_stats::ledger::{transaction_total, Block, Output, StatsError, Transaction};
use ledger_stats::miners::{reward_output, MinerWindow};
use ledger_stats::rates::{converted_exceeds, utc_day, Rate, RateTable};
use ledger_stats::time_series::{block_volume, LargeCountSeries, VolumeSeries};

fn out(value: u64, addresses: &[u64]) -> Output {
    Output { value, addresses: addresses.to_vec() }
}

fn tx(outputs: Vec<Output>) -> Transaction {
    Transaction { outputs }
}

fn block(timestamp: u32, transactions: Vec<Transaction>) -> Block {
    Block { timestamp, transactions }
}

/// One transaction per total, each paying the total to wallet 0.
fn block_of_totals(timestamp: u32, totals: &[u64]) -> Block {
    block(timestamp, totals.iter().map(|t| tx(vec![out(*t, &[0])])).collect())
}

/// Edges of decades from 10^0: bins of width 1.0 starting at bin 0.
fn decade_bins(n: u32) -> LogBins {
    LogBins { first: 0, scale: 1, edges: (0..n).map(|i| 10u128.pow(i)).collect() }
}

const DAY: u32 = 86400;

#[test]
fn volume_three_blocks_two_buckets() {
    let mut s = VolumeSeries::new(100);
    s.add_block(&block(100, vec![tx(vec![out(4, &[1]), out(6, &[2])])])).unwrap();
    s.add_block(&block(200, vec![tx(vec![out(20, &[1])])])).unwrap();
    s.add_block(&block(205, vec![tx(vec![out(5, &[3])])])).unwrap();
    assert_eq!(s.table(), vec![(100, 10), (200, 25)]);
}

#[test]
fn volume_out_of_order_blocks_are_sorted_by_key() {
    let mut s = VolumeSeries::new(100);
    s.add_block(&block_of_totals(350, &[7])).unwrap();
    s.add_block(&block_of_totals(120, &[1, 2])).unwrap();
    s.add_block(&block_of_totals(399, &[3])).unwrap();
    assert_eq!(s.table(), vec![(100, 3), (300, 10)]);
    for (k, _) in s.table() {
        assert_eq!(k % 100, 0);
    }
}

#[test]
fn volume_block_without_transactions_opens_no_bucket() {
    let mut s = VolumeSeries::new(60);
    s.add_block(&block(30, vec![])).unwrap();
    assert_eq!(s.table(), vec![]);
    s.add_block(&block_of_totals(30, &[0])).unwrap();
    assert_eq!(s.table(), vec![(0, 0)]);
}

#[test]
fn volume_overflow_is_reported() {
    let mut s = VolumeSeries::new(10);
    let b = block(5, vec![tx(vec![out(u64::MAX, &[1]), out(1, &[2])])]);
    assert_eq!(s.add_block(&b), Err(StatsError::Overflow));
    assert_eq!(s.table(), vec![]);
    let mut s2 = VolumeSeries::new(10);
    s2.add_block(&block_of_totals(5, &[u64::MAX])).unwrap();
    assert_eq!(s2.add_block(&block_of_totals(7, &[1])), Err(StatsError::Overflow));
    assert_eq!(s2.table(), vec![(0, u64::MAX)]);
}

#[test]
fn histogram_decades() {
    let mut h = Histogram::new(decade_bins(20));
    h.add_block(&block_of_totals(1, &[5, 50, 500, 5000])).unwrap();
    assert_eq!(h.table(), vec![(0, 1), (1, 1), (2, 1), (3, 1)]);
}

#[test]
fn histogram_edges_belong_to_their_own_bin() {
    let mut h = Histogram::new(decade_bins(20));
    h.add_block(&block_of_totals(1, &[1, 9, 10, 99, 100, u64::MAX])).unwrap();
    assert_eq!(h.table(), vec![(0, 2), (1, 2), (2, 1), (19, 1)]);
}

#[test]
fn histogram_counts_only_positive_totals() {
    let mut h = Histogram::new(decade_bins(20));
    h.add_block(&block_of_totals(1, &[0, 3, 0, 30])).unwrap();
    h.add_block(&block(2, vec![tx(vec![]), tx(vec![out(0, &[1]), out(0, &[2])])])).unwrap();
    let total: u64 = h.table().iter().map(|(_, c)| *c).sum();
    assert_eq!(total, 2);
}

#[test]
fn histogram_fine_bins_with_repeated_edges() {
    // bin width 0.5 from bin 0: ceil(10^(j/2)) = 1, 4, 10, 32, 100
    let bins = LogBins { first: 0, scale: 1, edges: vec![1, 4, 10, 32, 100] };
    let mut h = Histogram::new(bins);
    h.add_block(&block_of_totals(1, &[3, 4, 31, 32, 1000])).unwrap();
    assert_eq!(h.table(), vec![(0, 1), (1, 1), (2, 1), (3, 1), (4, 1)]);
    let dup = LogBins { first: -2, scale: 1, edges: vec![1, 1, 2, 2, 3] };
    let mut h2 = Histogram::new(dup);
    h2.add_block(&block_of_totals(1, &[1, 2, 5])).unwrap();
    assert_eq!(h2.table(), vec![(-1, 1), (1, 1), (2, 1)]);
}

#[test]
fn histogram_converted_skips_unrated_days() {
    let mut rates = RateTable::new(0);
    assert!(rates.set(0, Rate { num: 3, den: 1 }));
    let mut h = Histogram::new(decade_bins(20));
    h.add_block_converted(&block_of_totals(10, &[4, 40]), &rates).unwrap();
    h.add_block_converted(&block_of_totals(DAY + 10, &[4, 40]), &rates).unwrap();
    assert_eq!(h.table(), vec![(1, 1), (2, 1)]);
}

#[test]
fn histogram_converted_value_below_first_edge_is_left_out() {
    let mut rates = RateTable::new(0);
    assert!(rates.set(0, Rate { num: 1, den: 100 }));
    let mut h = Histogram::new(decade_bins(5));
    h.add_block_converted(&block_of_totals(10, &[99, 100, 1000]), &rates).unwrap();
    assert_eq!(h.table(), vec![(0, 1), (1, 1)]);
}

#[test]
fn large_count_threshold_is_strict_and_needs_a_rate() {
    let mut rates = RateTable::new(0);
    assert!(rates.set(0, Rate { num: 1, den: 2 }));
    let mut s = LargeCountSeries::new(100, DAY);
    s.add_block(&block_of_totals(10, &[200, 201, 1000, 5]), &rates).unwrap();
    s.add_block(&block_of_totals(DAY + 10, &[1000, 1000]), &rates).unwrap();
    assert_eq!(s.table(), vec![(0, 2)]);
}

#[test]
fn large_count_no_large_transaction_opens_no_bucket() {
    let mut rates = RateTable::new(0);
    assert!(rates.set(0, Rate { num: 1, den: 1 }));
    let mut s = LargeCountSeries::new(100, 50);
    s.add_block(&block_of_totals(10, &[1, 100]), &rates).unwrap();
    s.add_block(&block_of_totals(60, &[101]), &rates).unwrap();
    assert_eq!(s.table(), vec![(50, 1)]);
}

#[test]
fn miner_window_samples_distinct_wallets() {
    let mut w = MinerWindow::new(2, 2);
    let rewards = [1u64, 1, 2, 3, 3, 3];
    for (i, a) in rewards.iter().enumerate() {
        w.add_block(&block(i as u32 * 10, vec![tx(vec![out(50, &[*a])])])).unwrap();
    }
    // sampled before blocks 2 and 4, over the two wallets of the blocks before
    assert_eq!(w.samples(), vec![(20, 2, 1), (40, 4, 2)]);
    for (_, seen, n) in w.samples() {
        assert!(n <= 2 && n <= seen);
    }
}

#[test]
fn miner_window_takes_last_of_equal_highest_outputs() {
    let outs = vec![out(5, &[1]), out(7, &[2]), out(7, &[3]), out(6, &[4])];
    assert_eq!(reward_output(&outs), 2);
    let mut w = MinerWindow::new(3, 1);
    w.add_block(&block(0, vec![tx(outs), tx(vec![out(100, &[9])])])).unwrap();
    assert_eq!(w.window.iter().copied().collect::<Vec<u64>>(), vec![3]);
}

#[test]
fn miner_window_evicts_oldest_and_pushes_every_address() {
    let mut w = MinerWindow::new(3, 1);
    w.add_block(&block(0, vec![tx(vec![out(1, &[1, 2])])])).unwrap();
    w.add_block(&block(1, vec![tx(vec![out(1, &[3, 4])])])).unwrap();
    assert_eq!(w.window.iter().copied().collect::<Vec<u64>>(), vec![2, 3, 4]);
    w.add_block(&block(2, vec![tx(vec![out(1, &[])])])).unwrap();
    w.add_block(&block(3, vec![tx(vec![out(1, &[4])])])).unwrap();
    assert_eq!(w.samples(), vec![(3, 3, 3)]);
    assert_eq!(w.seen, 4);
}

#[test]
fn miner_window_rejects_malformed_blocks() {
    let mut w = MinerWindow::new(3, 1);
    assert_eq!(w.add_block(&block(0, vec![])), Err(StatsError::NoRewardTransaction));
    assert_eq!(w.add_block(&block(0, vec![tx(vec![])])), Err(StatsError::NoRewardOutputs));
    assert_eq!(w.seen, 0);
}

#[test]
fn wallets_flush_at_bucket_boundaries_and_at_the_end() {
    let mut rates = RateTable::new(0);
    assert!(rates.set(0, Rate { num: 2, den: 1 }));
    let mut s = WalletSeries::new(100, DAY);
    s.add_block(&block(10, vec![tx(vec![out(60, &[0]), out(40, &[1])])]), &rates).unwrap();
    s.add_block(&block(20, vec![tx(vec![out(10, &[1, 2])])]), &rates).unwrap();
    assert_eq!(s.balances, vec![60, 50, 10]);
    // a second day without a rate: skipped entirely
    s.add_block(&block(DAY + 5, vec![tx(vec![out(1000, &[2])])]), &rates).unwrap();
    assert_eq!(s.balances, vec![60, 50, 10]);
    assert!(rates.set(2, Rate { num: 1, den: 1 }));
    s.add_block(&block(2 * DAY + 5, vec![tx(vec![out(45, &[1])])]), &rates).unwrap();
    assert_eq!(s.balances, vec![60, 95, 10]);
    let table = s.finish();
    // at day 2, balances 60 and 50 against a threshold of 100 at rate 1: none;
    // at the end, rate 1, balances 60, 95, 10: none; then rate 2 would count two
    assert_eq!(table, vec![(2 * DAY as u64, 0), (3 * DAY as u64, 0)]);
}

#[test]
fn wallets_count_uses_the_current_rate() {
    let mut rates = RateTable::new(0);
    assert!(rates.set(0, Rate { num: 1, den: 1 }));
    assert!(rates.set(1, Rate { num: 3, den: 1 }));
    let mut s = WalletSeries::new(100, DAY);
    s.add_block(&block(0, vec![tx(vec![out(40, &[5]), out(30, &[1])])]), &rates).unwrap();
    s.add_block(&block(DAY, vec![tx(vec![out(1, &[5])])]), &rates).unwrap();
    let table = s.finish();
    // at day 1: 40 * 3 = 120 > 100, 30 * 3 = 90: one wallet; at the end 41 * 3 too
    assert_eq!(table, vec![(DAY as u64, 1), (2 * DAY as u64, 1)]);
    for (k, _) in &table {
        assert_eq!(k % DAY as u64, 0);
    }
}

#[test]
fn wallets_balances_never_decrease() {
    let mut rates = RateTable::new(0);
    assert!(rates.set(0, Rate { num: 1, den: 1 }));
    let mut s = WalletSeries::new(10, 100);
    let mut before: Vec<u64> = Vec::new();
    for i in 0..5u32 {
        s.add_block(&block(i * 30, vec![tx(vec![out(i as u64, &[i as u64 % 3, 4])])]), &rates).unwrap();
        for (w, b) in before.iter().enumerate() {
            assert!(s.balances[w] >= *b);
        }
        before = s.balances.clone();
    }
    assert_eq!(s.balances, vec![3, 5, 2, 0, 10]);
}

#[test]
fn wallets_without_rated_blocks_record_nothing() {
    let rates = RateTable::new(0);
    let mut s = WalletSeries::new(10, 100);
    s.add_block(&block(5, vec![tx(vec![out(50, &[1])])]), &rates).unwrap();
    assert_eq!(s.finish(), vec![]);
    assert_eq!(s.balances, Vec::<u64>::new());
}

#[test]
fn wallets_balance_overflow_is_reported() {
    let mut rates = RateTable::new(0);
    assert!(rates.set(0, Rate { num: 1, den: 1 }));
    let mut s = WalletSeries::new(10, 100);
    s.add_block(&block(5, vec![tx(vec![out(u64::MAX, &[1])])]), &rates).unwrap();
    assert_eq!(s.add_block(&block(6, vec![tx(vec![out(1, &[1])])]), &rates), Err(StatsError::Overflow));
}

#[test]
fn missing_rate_day_is_absent_from_every_converted_statistic() {
    let mut rates = RateTable::new(0);
    assert!(rates.set(0, Rate { num: 1, den: 1 }));
    assert!(rates.set(2, Rate { num: 1, den: 1 }));
    let unrated = block_of_totals(DAY + 7, &[5000, 50]);
    let mut h = Histogram::new(decade_bins(10));
    let mut c = LargeCountSeries::new(10, DAY);
    let mut w = WalletSeries::new(10, DAY);
    for b in [block_of_totals(3, &[20]), unrated, block_of_totals(2 * DAY, &[300])] {
        h.add_block_converted(&b, &rates).unwrap();
        c.add_block(&b, &rates).unwrap();
        w.add_block(&b, &rates).unwrap();
    }
    assert_eq!(h.table(), vec![(1, 1), (2, 1)]);
    assert_eq!(c.table(), vec![(0, 1), (2 * DAY as u64, 1)]);
    assert_eq!(w.balances, vec![320]);
    assert_eq!(w.finish(), vec![(2 * DAY as u64, 1), (3 * DAY as u64, 1)]);
}

#[test]
fn rerun_gives_identical_tables() {
    let blocks = vec![
        block_of_totals(5, &[1, 22, 333]),
        block_of_totals(150, &[4444]),
        block_of_totals(90, &[0, 55]),
    ];
    let run = || {
        let mut h = Histogram::new(decade_bins(20));
        let mut v = VolumeSeries::new(100);
        for b in &blocks {
            h.add_block(b).unwrap();
            v.add_block(b).unwrap();
        }
        (h.table(), v.table())
    };
    assert_eq!(run(), run());
    assert_eq!(run().1, vec![(0, 411), (100, 4444)]);
}

#[test]
fn totals_and_volumes() {
    assert_eq!(transaction_total(&tx(vec![out(3, &[]), out(4, &[1, 2])])), Some(7));
    assert_eq!(transaction_total(&tx(vec![])), Some(0));
    assert_eq!(transaction_total(&tx(vec![out(u64::MAX, &[]), out(1, &[])])), None);
    assert_eq!(block_volume(&vec![tx(vec![out(3, &[])]), tx(vec![out(9, &[])])]), Some(12));
    assert_eq!(block_volume(&vec![tx(vec![out(u64::MAX, &[])]), tx(vec![out(1, &[])])]), None);
}

#[test]
fn rates_and_days() {
    assert_eq!(utc_day(0), 0);
    assert_eq!(utc_day(DAY - 1), 0);
    assert_eq!(utc_day(DAY), 1);
    assert_eq!(utc_day(1_600_000_000), 18518);
    assert!(converted_exceeds(101, Rate { num: 1, den: 1 }, 100));
    assert!(!converted_exceeds(100, Rate { num: 1, den: 1 }, 100));
    assert!(converted_exceeds(u64::MAX, Rate { num: u64::MAX, den: 1 }, u64::MAX));
    assert!(!converted_exceeds(300, Rate { num: 1, den: 3 }, 100));
    let mut t = RateTable::new(10);
    assert!(!t.set(9, Rate { num: 1, den: 1 }));
    assert!(t.set(12, Rate { num: 5, den: 7 }));
    assert_eq!(t.lookup(12 * DAY + 100), Some(Rate { num: 5, den: 7 }));
    assert_eq!(t.lookup(11 * DAY), None);
    assert_eq!(t.lookup(13 * DAY), None);
    assert_eq!(t.lookup(0), None);
}

#[test]
fn bucket_table_and_slots() {
    assert_eq!(bucket_of(205, 100), 200);
    assert_eq!(bucket_of(99, 100), 0);
    let mut t = BucketTable::new();
    t.add(30, 1).unwrap();
    t.add(10, 2).unwrap();
    t.add(30, 4).unwrap();
    t.put(20, 9);
    t.put(10, 1);
    assert_eq!(t.to_vec(), vec![(10, 1), (20, 9), (30, 5)]);
    assert_eq!(t.get(30), 5);
    assert_eq!(t.get(40), 0);
    assert_eq!(t.add(20, u64::MAX), Err(StatsError::Overflow));
    let bins = decade_bins(4);
    assert_eq!(bins.slot(0, Rate::unit()), 0);
    assert_eq!(bins.slot(999, Rate::unit()), 3);
    assert_eq!(bins.slot(1000, Rate::unit()), 4);
    assert_eq!(bins.slot(100, Rate { num: 1, den: 10 }), 2);
}

#[test]
fn histogram_converted_value_below_one_unit_lands_in_a_negative_bin() {
    let mut rates = RateTable::new(0);
    assert!(rates.set(0, Rate { num: 1, den: 2 }));
    // edges 10^-1, 10^0, 10^1 in tenths of a unit
    let bins = LogBins { first: -1, scale: 10, edges: vec![1, 10, 100] };
    let mut h = Histogram::new(bins);
    h.add_block_converted(&block_of_totals(10, &[1, 0, 3, 40]), &rates).unwrap();
    // 0.5 -> bin -1, 0 -> none, 1.5 -> bin 0, 20 -> bin 1
    assert_eq!(h.table(), vec![(-1, 1), (0, 1), (1, 1)]);
}

#[test]
fn histogram_converted_smallest_values_with_fine_scale() {
    let mut rates = RateTable::new(0);
    assert!(rates.set(0, Rate { num: 1, den: u64::MAX }));
    let bins = LogBins { first: -19, scale: 10_000_000_000_000_000_000, edges: (0..39).map(|i| 10u128.pow(i)).collect() };
    let mut h = Histogram::new(bins);
    h.add_block_converted(&block_of_totals(10, &[1, u64::MAX]), &rates).unwrap();
    // 1 / (2^64 - 1) is about 5.4e-20, below the first edge 10^-19 (a table
    // that starts there does not reach the least positive value at this rate);
    // u64::MAX converts to exactly 1, in bin 0
    assert_eq!(h.table(), vec![(0, 1)]);
}

#[test]
fn slot_compares_exactly_beyond_128_bits() {
    let bins = LogBins { first: 0, scale: 1_000_000_000_000_000_000, edges: vec![1, u128::MAX] };
    let big = Rate { num: u64::MAX, den: 1 };
    assert_eq!(bins.slot(u64::MAX, big), 2);
    assert_eq!(bins.slot(0, big), 0);
    let tiny = Rate { num: 1, den: u64::MAX };
    assert_eq!(bins.slot(1, tiny), 0);
    let edge_bins = LogBins { first: 0, scale: u64::MAX, edges: vec![1, 2] };
    assert_eq!(edge_bins.slot(1, tiny), 1);
    assert_eq!(edge_bins.slot(2, tiny), 2);
}

#[test]
fn wallets_counts_never_fall_at_one_rate() {
    let mut rates = RateTable::new(0);
    for d in 0..6 {
        assert!(rates.set(d, Rate { num: 1, den: 1 }));
    }
    let mut s = WalletSeries::new(50, DAY);
    let pays = [(0u64, 30u64), (1, 60), (0, 30), (2, 10), (2, 45)];
    for (i, (w, v)) in pays.iter().enumerate() {
        s.add_block(&block(i as u32 * DAY, vec![tx(vec![out(*v, &[*w])])]), &rates).unwrap();
    }
    let table = s.finish();
    assert_eq!(table, vec![(DAY as u64, 0), (2 * DAY as u64, 1), (3 * DAY as u64, 2), (4 * DAY as u64, 2), (5 * DAY as u64, 3)]);
    for pair in table.windows(2) {
        assert!(pair[0].1 <= pair[1].1);
    }
}
