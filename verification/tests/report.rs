use cranker_expense::aggregation::ExpenseAggregator;
use cranker_expense::aggregation::ExpenseRecord;
use cranker_expense::aggregation::RunTotals;
use cranker_expense::fetch::accumulate_burst;
use cranker_expense::fetch::build_fee_record;
use cranker_expense::fetch::burst_fee_total;
use cranker_expense::fetch::processed_count;
use cranker_expense::attribution::DecodedMessage;
use cranker_expense::numfmt::format_sol;
use cranker_expense::numfmt::format_u64;
use cranker_expense::numfmt::pad_left;
use cranker_expense::numfmt::pad_right;
use cranker_expense::numfmt::truncate_to;
use cranker_expense::report::render_csv;
use cranker_expense::report::render_table;
use cranker_expense::report::sort_by_fees;

fn bucket(account: &str, program: &str, count: usize, fees: u64) -> ExpenseRecord {
    ExpenseRecord {
        account: account.to_string(),
        program_id: program.to_string(),
        transaction_count: count,
        total_fees_lamports: fees,
    }
}

#[test]
fn decimal_rendering_exact_values() {
    assert_eq!(format_u64(0), "0");
    assert_eq!(format_u64(7), "7");
    assert_eq!(format_u64(1234567890123), "1234567890123");
    assert_eq!(format_u64(u64::MAX), "18446744073709551615");
}

#[test]
fn scaled_rendering_has_fixed_nine_decimals() {
    assert_eq!(format_sol(0), "0.000000000");
    assert_eq!(format_sol(8000), "0.000008000");
    assert_eq!(format_sol(1_000_000_000), "1.000000000");
    assert_eq!(format_sol(1_500_000_001), "1.500000001");
    assert_eq!(format_sol(999_999_999), "0.999999999");
    assert_eq!(format_sol(12_345_678_901), "12.345678901");
}

#[test]
fn padding_and_truncation() {
    assert_eq!(pad_left("ab", 5), "   ab");
    assert_eq!(pad_right("ab", 5), "ab   ");
    assert_eq!(pad_left("abcdef", 3), "abcdef");
    assert_eq!(truncate_to("abcdef", 4), "abcd");
    assert_eq!(truncate_to("ab", 4), "ab");
}

#[test]
fn sort_is_descending_and_stable() {
    // Equal totals keep their first-seen relative order.
    let records = vec![
        bucket("X", "A", 1, 500),
        bucket("X", "B", 1, 900),
        bucket("X", "C", 1, 500),
        bucket("X", "D", 1, 1000),
        bucket("X", "E", 1, 500),
    ];
    let sorted = sort_by_fees(records);
    let order: Vec<&str> = sorted.iter().map(|r| r.program_id.as_str()).collect();
    assert_eq!(order, vec!["D", "B", "A", "C", "E"]);
}

#[test]
fn csv_export_matches_expected_lines() {
    let records = vec![bucket("X", "A", 2, 8000), bucket("X", "B", 1, 3000)];
    let csv = render_csv(&records);
    let expected = "account,program_id,transaction_count,total_fees_lamports,total_fees_sol\n\
                    X,A,2,8000,0.000008000\n\
                    X,B,1,3000,0.000003000\n";
    assert_eq!(csv, expected);
}

#[test]
fn table_matches_fixed_width_layout() {
    let records = vec![bucket("X", "A", 2, 8000)];
    let mut totals = RunTotals::new();
    assert!(totals.absorb(2, 8000));
    let table = render_table(&records, &totals);
    let mut expected = String::new();
    expected.push_str(&format!(
        "{:<45} {:>12} {:>15}\n",
        "Program ID", "Tx Count", "Total Fees (SOL)"
    ));
    expected.push_str(&"-".repeat(80));
    expected.push('\n');
    expected.push_str(&format!("{:<45} {:>12} {:>15}\n", "A", "2", "0.000008000"));
    expected.push_str(&"-".repeat(80));
    expected.push('\n');
    expected.push_str(&format!("{:<45} {:>12} {:>15}\n", "TOTAL", "2", "0.000008000"));
    assert_eq!(table, expected);
}

#[test]
fn long_program_ids_are_cut_to_44_characters() {
    let long_id = "Q".repeat(60);
    let records = vec![bucket("X", &long_id, 1, 1)];
    let totals = RunTotals::new();
    let table = render_table(&records, &totals);
    let first_data_line = table.lines().nth(2).unwrap();
    assert!(first_data_line.starts_with(&"Q".repeat(44)));
    assert!(!first_data_line.starts_with(&"Q".repeat(45)));
}

#[test]
fn end_to_end_three_transactions() {
    // tx1 fee=5000 touching [A]; tx2 fee=3000 touching [A, B];
    // tx3 without metadata, dropped. Expected: A -> 2/8000, B -> 1/3000,
    // TOTAL row 2 processed / 8000 lamports.
    let account = "X".to_string();
    let keys = vec!["A".to_string(), "B".to_string()];
    let tx1 = build_fee_record(
        Some(5000),
        &DecodedMessage::Raw { program_indices: vec![0], account_keys: keys.clone() },
    );
    let tx2 = build_fee_record(
        Some(3000),
        &DecodedMessage::Raw { program_indices: vec![0, 1], account_keys: keys.clone() },
    );
    let tx3 = build_fee_record(
        None,
        &DecodedMessage::Raw { program_indices: vec![0], account_keys: keys.clone() },
    );
    assert!(tx3.is_none());
    let results = vec![tx1, tx2, tx3];
    let mut agg = ExpenseAggregator::new();
    let mut totals = RunTotals::new();
    let processed = processed_count(&results);
    let fees = burst_fee_total(&results);
    assert!(accumulate_burst(&mut agg, &account, &results));
    assert!(totals.absorb(processed, fees));
    assert_eq!(totals.processed, 2);
    assert_eq!(totals.total_fees_lamports, 8000);
    let sorted = sort_by_fees(agg.records);
    assert_eq!(sorted.len(), 2);
    assert_eq!(sorted[0].program_id, "A");
    assert_eq!(sorted[0].transaction_count, 2);
    assert_eq!(sorted[0].total_fees_lamports, 8000);
    assert_eq!(sorted[1].program_id, "B");
    assert_eq!(sorted[1].transaction_count, 1);
    assert_eq!(sorted[1].total_fees_lamports, 3000);
    let csv = render_csv(&sorted);
    let expected = "account,program_id,transaction_count,total_fees_lamports,total_fees_sol\n\
                    X,A,2,8000,0.000008000\n\
                    X,B,1,3000,0.000003000\n";
    assert_eq!(csv, expected);
    let table = render_table(&sorted, &totals);
    assert!(table.contains("TOTAL"));
    assert!(table.contains("0.000008000"));
}

#[test]
fn empty_run_renders_header_and_zero_totals() {
    // An account with no history: the export holds only the header
    // line, and the table's TOTAL row reads 0 transactions, 0 fees.
    let records: Vec<ExpenseRecord> = Vec::new();
    let csv = render_csv(&records);
    assert_eq!(csv, "account,program_id,transaction_count,total_fees_lamports,total_fees_sol\n");
    let totals = RunTotals::new();
    let table = render_table(&records, &totals);
    let last_line = table.lines().last().unwrap();
    assert!(last_line.starts_with("TOTAL"));
    assert!(last_line.ends_with("0.000000000"));
    assert_eq!(table.lines().count(), 4);
}
