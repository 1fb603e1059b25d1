use cranker_expense::aggregation::ExpenseAggregator;
use cranker_expense::aggregation::RunTotals;
use cranker_expense::aggregation::TransactionFeeRecord;
use cranker_expense::fetch::accumulate_burst;
use cranker_expense::fetch::burst_fee_total;
use cranker_expense::fetch::chunk_signatures;
use cranker_expense::fetch::processed_count;

fn rec(fee: u64, ids: &[&str]) -> TransactionFeeRecord {
    TransactionFeeRecord { fee, program_ids: ids.iter().map(|s| s.to_string()).collect() }
}

fn bucket(agg: &ExpenseAggregator, account: &str, program: &str) -> Option<(usize, u64)> {
    for r in agg.records.iter() {
        if r.account == account && r.program_id == program {
            return Some((r.transaction_count, r.total_fees_lamports));
        }
    }
    None
}

fn snapshot(agg: &ExpenseAggregator) -> Vec<(String, String, usize, u64)> {
    let mut v: Vec<(String, String, usize, u64)> = agg
        .records
        .iter()
        .map(|r| (r.account.clone(), r.program_id.clone(), r.transaction_count, r.total_fees_lamports))
        .collect();
    v.sort();
    v
}

#[test]
fn fee_double_counted_across_programs() {
    // One transaction with fee F touching {A, B}: both buckets gain the
    // whole F, not a share of it.
    let account = "X".to_string();
    let mut agg = ExpenseAggregator::new();
    assert!(agg.accumulate(&account, &rec(7000, &["A", "B"])));
    assert_eq!(bucket(&agg, "X", "A"), Some((1, 7000)));
    assert_eq!(bucket(&agg, "X", "B"), Some((1, 7000)));
}

#[test]
fn duplicate_program_in_one_record_counts_twice() {
    let account = "X".to_string();
    let mut agg = ExpenseAggregator::new();
    assert!(agg.accumulate(&account, &rec(100, &["A", "A"])));
    assert_eq!(bucket(&agg, "X", "A"), Some((2, 200)));
}

#[test]
fn aggregation_is_permutation_invariant() {
    // The same records in three different orders and burst groupings
    // give identical bucket sets.
    let account = "X".to_string();
    let records = vec![
        rec(5000, &["A"]),
        rec(3000, &["A", "B"]),
        rec(200, &["C"]),
        rec(70, &["B", "C", "A"]),
    ];
    let orders: Vec<Vec<usize>> = vec![vec![0, 1, 2, 3], vec![3, 2, 1, 0], vec![2, 0, 3, 1]];
    let mut snapshots = Vec::new();
    for order in &orders {
        let mut agg = ExpenseAggregator::new();
        for &i in order {
            assert!(agg.accumulate(&account, &records[i]));
        }
        snapshots.push(snapshot(&agg));
    }
    assert_eq!(snapshots[0], snapshots[1]);
    assert_eq!(snapshots[0], snapshots[2]);
}

#[test]
fn burst_partition_does_not_change_the_aggregate() {
    let account = "X".to_string();
    let results: Vec<Option<TransactionFeeRecord>> = vec![
        Some(rec(5000, &["A"])),
        None,
        Some(rec(3000, &["A", "B"])),
        Some(rec(70, &["B"])),
    ];
    // All in one burst.
    let mut one = ExpenseAggregator::new();
    assert!(accumulate_burst(&mut one, &account, &results));
    // Split into two bursts.
    let mut two = ExpenseAggregator::new();
    let first: Vec<Option<TransactionFeeRecord>> = vec![
        Some(rec(5000, &["A"])),
        None,
    ];
    let second: Vec<Option<TransactionFeeRecord>> = vec![
        Some(rec(3000, &["A", "B"])),
        Some(rec(70, &["B"])),
    ];
    assert!(accumulate_burst(&mut two, &account, &first));
    assert!(accumulate_burst(&mut two, &account, &second));
    assert_eq!(snapshot(&one), snapshot(&two));
    assert_eq!(bucket(&one, "X", "A"), Some((2, 8000)));
    assert_eq!(bucket(&one, "X", "B"), Some((2, 3070)));
}

#[test]
fn keys_appear_in_first_seen_order() {
    let account = "X".to_string();
    let mut agg = ExpenseAggregator::new();
    assert!(agg.accumulate(&account, &rec(10, &["B", "A", "B"])));
    assert!(agg.accumulate(&account, &rec(20, &["C", "A"])));
    let keys: Vec<&str> = agg.records.iter().map(|r| r.program_id.as_str()).collect();
    assert_eq!(keys, vec!["B", "A", "C"]);
}

#[test]
fn merge_adds_buckets_and_appends_new_keys() {
    let acc1 = "X".to_string();
    let acc2 = "Y".to_string();
    let mut global = ExpenseAggregator::new();
    assert!(global.accumulate(&acc1, &rec(100, &["A"])));
    let mut per_account = ExpenseAggregator::new();
    assert!(per_account.accumulate(&acc1, &rec(50, &["A"])));
    assert!(per_account.accumulate(&acc2, &rec(7, &["A"])));
    assert!(global.merge(&per_account));
    assert_eq!(bucket(&global, "X", "A"), Some((2, 150)));
    assert_eq!(bucket(&global, "Y", "A"), Some((1, 7)));
    assert_eq!(global.records.len(), 2);
}

#[test]
fn fee_overflow_is_reported_and_leaves_the_aggregate_unchanged() {
    let account = "X".to_string();
    let mut agg = ExpenseAggregator::new();
    assert!(agg.accumulate(&account, &rec(u64::MAX, &["A"])));
    let before = snapshot(&agg);
    // A second full-fee record on the same bucket cannot fit.
    assert!(!agg.accumulate(&account, &rec(u64::MAX, &["B", "A"])));
    assert_eq!(snapshot(&agg), before);
    assert!(bucket(&agg, "X", "B").is_none());
}

#[test]
fn burst_overflow_rolls_the_whole_burst_back() {
    let account = "X".to_string();
    let mut agg = ExpenseAggregator::new();
    assert!(agg.accumulate(&account, &rec(u64::MAX, &["A"])));
    let before = snapshot(&agg);
    let results: Vec<Option<TransactionFeeRecord>> = vec![
        Some(rec(1, &["B"])),
        Some(rec(u64::MAX, &["A"])),
    ];
    assert!(!accumulate_burst(&mut agg, &account, &results));
    // Even the first record of the failed burst is rolled back.
    assert_eq!(snapshot(&agg), before);
}

#[test]
fn merge_overflow_leaves_the_target_unchanged() {
    let account = "X".to_string();
    let mut global = ExpenseAggregator::new();
    assert!(global.accumulate(&account, &rec(u64::MAX, &["A"])));
    let before = snapshot(&global);
    let mut other = ExpenseAggregator::new();
    assert!(other.accumulate(&account, &rec(1, &["B"])));
    assert!(other.accumulate(&account, &rec(u64::MAX, &["A"])));
    assert!(!global.merge(&other));
    assert_eq!(snapshot(&global), before);
}

#[test]
fn run_totals_absorb_and_overflow() {
    let mut t = RunTotals::new();
    assert!(t.absorb(2, 8000));
    assert_eq!(t.processed, 2);
    assert_eq!(t.total_fees_lamports, 8000);
    assert!(!t.absorb(1, u64::MAX as u128));
    assert_eq!(t.processed, 2);
    assert_eq!(t.total_fees_lamports, 8000);
}

#[test]
fn burst_counting_skips_failures() {
    let results: Vec<Option<TransactionFeeRecord>> = vec![
        Some(rec(5000, &["A"])),
        None,
        Some(rec(3000, &["B"])),
        None,
    ];
    assert_eq!(processed_count(&results), 2);
    assert_eq!(burst_fee_total(&results), 8000u128);
}

#[test]
fn chunking_partitions_in_order() {
    let sigs: Vec<String> = (0..7).map(|i| format!("s{}", i)).collect();
    let bursts = chunk_signatures(sigs.clone(), 3);
    assert_eq!(bursts.len(), 3);
    assert_eq!(bursts[0], vec!["s0", "s1", "s2"]);
    assert_eq!(bursts[1], vec!["s3", "s4", "s5"]);
    assert_eq!(bursts[2], vec!["s6"]);
    let exact = chunk_signatures(sigs.clone(), 7);
    assert_eq!(exact.len(), 1);
    assert_eq!(exact[0].len(), 7);
    let empty = chunk_signatures(Vec::new(), 4);
    assert_eq!(empty.len(), 0);
}
