//! The sorted expense report and its two renderings.
//!
//! Buckets are ordered by descending fee total; buckets with equal
//! totals keep the relative order they first appeared in (a stable
//! sort). The sorted collection is rendered twice from the same integer
//! quantities: a fixed-width table with a trailing TOTAL row, and a
//! comma-delimited export with one header line and one line per bucket.

use vstd::prelude::*;

use crate::aggregation::ExpenseRecord;
use crate::aggregation::RunTotals;
use crate::numfmt::decimal_chars;
use crate::numfmt::format_sol;
use crate::numfmt::format_u64;
use crate::numfmt::format_usize;
use crate::numfmt::pad_left;
use crate::numfmt::pad_left_chars;
use crate::numfmt::pad_right;
use crate::numfmt::pad_right_chars;
use crate::numfmt::sol_chars;
use crate::numfmt::truncate_chars;
use crate::numfmt::truncate_to;

verus! {

/// The predicate "this bucket's fee total is exactly `f`".
pub open spec fn fee_is(f: u64) -> spec_fn(ExpenseRecord) -> bool {
    |r: ExpenseRecord| r.total_fees_lamports == f
}

/// Fee totals never increase along the sequence.
pub open spec fn sorted_desc(s: Seq<ExpenseRecord>) -> bool {
    forall|i: int, j: int|
        0 <= i <= j < s.len() ==> (#[trigger] s[i]).total_fees_lamports >= (
        #[trigger] s[j]).total_fees_lamports
}

/// Insert one bucket into a descending-sorted vector, after every
/// bucket whose total is at least as large: the insertion point that
/// keeps equal totals in arrival order.
fn insert_sorted(v: Vec<ExpenseRecord>, rec: ExpenseRecord) -> (out: Vec<ExpenseRecord>)
    requires
        sorted_desc(v@),
    ensures
        sorted_desc(out@),
        out@.len() == v@.len() + 1,
        out@.filter(fee_is(rec.total_fees_lamports)) == v@.filter(
            fee_is(rec.total_fees_lamports),
        ).push(rec),
        forall|f: u64|
            f != rec.total_fees_lamports ==> #[trigger] out@.filter(fee_is(f)) == v@.filter(
                fee_is(f),
            ),
{
    let ghost v0 = v@;
    let mut v = v;
    let n: usize = v.len();
    let mut k: usize = 0;
    while k < n && v[k].total_fees_lamports >= rec.total_fees_lamports
        invariant
            v@ == v0,
            sorted_desc(v0),
            n == v0.len(),
            k <= n,
            forall|j: int|
                0 <= j < k ==> (#[trigger] v0[j]).total_fees_lamports
                    >= rec.total_fees_lamports,
        decreases n - k,
    {
        k = k + 1;
    }
    proof {
        assert(forall|j: int|
            k <= j < v0.len() ==> (#[trigger] v0[j]).total_fees_lamports
                < rec.total_fees_lamports) by {
            if k < v0.len() {
                assert(v0[k as int].total_fees_lamports < rec.total_fees_lamports);
            }
        }
    }
    v.insert(k, rec);
    proof {
        let out = v@;
        let ki = k as int;
        assert(out =~= v0.take(ki) + seq![rec] + v0.skip(ki));
        assert(v0.take(ki) + v0.skip(ki) =~= v0);
        assert(sorted_desc(out)) by {
            assert forall|i: int, j: int| 0 <= i <= j < out.len() implies (
            #[trigger] out[i]).total_fees_lamports >= (#[trigger] out[j]).total_fees_lamports by {
                if i < ki {
                    assert(out[i] == v0[i]);
                }
                if i > ki {
                    assert(out[i] == v0[i - 1]);
                }
                if j < ki {
                    assert(out[j] == v0[j]);
                }
                if j > ki {
                    assert(out[j] == v0[j - 1]);
                }
            }
        }
        let fr = rec.total_fees_lamports;
        assert forall|f: u64| true implies #[trigger] out.filter(fee_is(f)) == if f == fr {
            v0.filter(fee_is(f)).push(rec)
        } else {
            v0.filter(fee_is(f))
        } by {
            Seq::filter_distributes_over_add(v0.take(ki) + seq![rec], v0.skip(ki), fee_is(f));
            Seq::filter_distributes_over_add(v0.take(ki), seq![rec], fee_is(f));
            Seq::filter_distributes_over_add(v0.take(ki), v0.skip(ki), fee_is(f));
            assert(seq![rec].filter(fee_is(f)) == if f == fr {
                seq![rec]
            } else {
                Seq::<ExpenseRecord>::empty()
            }) by {
                reveal(Seq::filter);
                let single = seq![rec];
                assert(single.drop_last().len() == 0);
                assert(single.drop_last().filter(fee_is(f)) == single.drop_last());
                assert(single.last() == rec);
                if f == fr {
                    assert(fee_is(f)(rec));
                    assert(single.filter(fee_is(f)) == single.drop_last().push(rec));
                    assert(single.drop_last().push(rec) =~= single);
                } else {
                    assert(!fee_is(f)(rec));
                    assert(single.filter(fee_is(f)) == single.drop_last());
                    assert(single.drop_last() =~= Seq::<ExpenseRecord>::empty());
                }
            }
            if f == fr {
                v0.skip(ki).lemma_all_neg_filter_empty(fee_is(f));
                assert(out.filter(fee_is(f)) =~= v0.take(ki).filter(fee_is(f)).push(rec));
                assert(v0.filter(fee_is(f)) =~= v0.take(ki).filter(fee_is(f)));
            } else {
                assert(out.filter(fee_is(f)) =~= v0.take(ki).filter(fee_is(f)) + v0.skip(
                    ki,
                ).filter(fee_is(f)));
            }
        }
    }
    v
}

/// Sort the buckets by descending fee total, stably: for every fee
/// value, the buckets carrying it appear in the output exactly as they
/// appeared in the input, so equal totals keep their first-seen
/// relative order.
pub fn sort_by_fees(records: Vec<ExpenseRecord>) -> (out: Vec<ExpenseRecord>)
    ensures
        sorted_desc(out@),
        out@.len() == records@.len(),
        forall|f: u64| #[trigger] out@.filter(fee_is(f)) == records@.filter(fee_is(f)),
{
    let ghost orig = records@;
    let mut records = records;
    let mut out: Vec<ExpenseRecord> = Vec::new();
    proof {
        assert forall|f: u64| #[trigger] out@.filter(fee_is(f)) == orig.take(0).filter(
            fee_is(f),
        ) by {
            reveal(Seq::filter);
            assert(orig.take(0) =~= Seq::<ExpenseRecord>::empty());
            assert(out@ =~= Seq::<ExpenseRecord>::empty());
        }
    }
    while records.len() > 0
        invariant
            orig.len() == out@.len() + records@.len(),
            records@ == orig.skip(out@.len() as int),
            sorted_desc(out@),
            forall|f: u64| #[trigger] out@.filter(fee_is(f)) == orig.take(out@.len() as int).filter(
                fee_is(f),
            ),
        decreases records@.len(),
    {
        let ghost i = out@.len() as int;
        let rec = records.remove(0);
        proof {
            assert(rec == orig[i]);
            assert(records@ =~= orig.skip(i + 1));
        }
        let ghost before = out@;
        out = insert_sorted(out, rec);
        proof {
            assert(orig.take(i + 1) =~= orig.take(i).push(rec));
            assert forall|f: u64| #[trigger] out@.filter(fee_is(f)) == orig.take(i + 1).filter(
                fee_is(f),
            ) by {
                assert(orig.take(i + 1).drop_last() =~= orig.take(i));
                assert(orig.take(i + 1).last() == rec);
                reveal(Seq::filter);
                if f == rec.total_fees_lamports {
                    assert(out@.filter(fee_is(f)) == before.filter(fee_is(f)).push(rec));
                } else {
                    assert(out@.filter(fee_is(f)) == before.filter(fee_is(f)));
                }
            }
        }
    }
    proof {
        assert(orig.take(out@.len() as int) =~= orig);
    }
    out
}

/// One bucket as a line of the delimited export: account, program,
/// count, fees in lamports, and the same fees scaled to whole coins
/// with nine fractional digits.
pub open spec fn csv_row_chars(r: ExpenseRecord) -> Seq<char> {
    r.account@ + ","@ + r.program_id@ + ","@ + decimal_chars(r.transaction_count as nat) + ","@
        + decimal_chars(r.total_fees_lamports as nat) + ","@ + sol_chars(
        r.total_fees_lamports as nat,
    ) + "\n"@
}

/// The export's lines for a bucket sequence, in order.
pub open spec fn csv_rows_chars(s: Seq<ExpenseRecord>) -> Seq<char>
    decreases s.len(),
{
    if s.len() == 0 {
        Seq::empty()
    } else {
        csv_rows_chars(s.drop_last()) + csv_row_chars(s.last())
    }
}

/// The whole export: one header line naming every column, then one
/// line per bucket, in the given order.
pub open spec fn csv_chars(s: Seq<ExpenseRecord>) -> Seq<char> {
    "account,program_id,transaction_count,total_fees_lamports,total_fees_sol\n"@ + csv_rows_chars(s)
}

/// Render the delimited export of `records`, in their given order.
pub fn render_csv(records: &Vec<ExpenseRecord>) -> (out: String)
    ensures
        out@ == csv_chars(records@),
{
    let mut out = String::from_str(
        "account,program_id,transaction_count,total_fees_lamports,total_fees_sol\n",
    );
    let mut i: usize = 0;
    proof {
        assert(csv_rows_chars(records@.take(0)) =~= Seq::<char>::empty());
        assert(out@ =~= csv_chars(records@.take(0)));
    }
    while i < records.len()
        invariant
            i <= records@.len(),
            out@ == csv_chars(records@.take(i as int)),
        decreases records@.len() - i,
    {
        out.append(records[i].account.as_str());
        out.append(",");
        out.append(records[i].program_id.as_str());
        out.append(",");
        let cnt = format_usize(records[i].transaction_count);
        out.append(cnt.as_str());
        out.append(",");
        let fee = format_u64(records[i].total_fees_lamports);
        out.append(fee.as_str());
        out.append(",");
        let sol = format_sol(records[i].total_fees_lamports);
        out.append(sol.as_str());
        out.append("\n");
        proof {
            assert(records@.take(i + 1).drop_last() =~= records@.take(i as int));
            assert(records@.take(i + 1).last() == records@[i as int]);
            assert(out@ =~= csv_chars(records@.take(i + 1)));
        }
        i = i + 1;
    }
    proof {
        assert(records@.take(records@.len() as int) =~= records@);
    }
    out
}

/// The table's column-header line.
pub open spec fn table_header_chars() -> Seq<char> {
    pad_right_chars("Program ID"@, 45) + " "@ + pad_left_chars("Tx Count"@, 12) + " "@
        + pad_left_chars("Total Fees (SOL)"@, 15) + "\n"@
}

/// The table's separator line.
pub open spec fn separator_chars() -> Seq<char> {
    "--------------------------------------------------------------------------------\n"@
}

/// One bucket as a table line: the program identifier cut to its first
/// 44 characters and left-aligned, then the count and the scaled fee
/// total right-aligned.
pub open spec fn table_row_chars(r: ExpenseRecord) -> Seq<char> {
    pad_right_chars(truncate_chars(r.program_id@, 44), 45) + " "@ + pad_left_chars(
        decimal_chars(r.transaction_count as nat),
        12,
    ) + " "@ + pad_left_chars(sol_chars(r.total_fees_lamports as nat), 15) + "\n"@
}

/// The table's lines for a bucket sequence, in order.
pub open spec fn table_rows_chars(s: Seq<ExpenseRecord>) -> Seq<char>
    decreases s.len(),
{
    if s.len() == 0 {
        Seq::empty()
    } else {
        table_rows_chars(s.drop_last()) + table_row_chars(s.last())
    }
}

/// The trailing TOTAL line: transactions processed and their fees,
/// each counted once per transaction.
pub open spec fn total_row_chars(t: RunTotals) -> Seq<char> {
    pad_right_chars("TOTAL"@, 45) + " "@ + pad_left_chars(
        decimal_chars(t.processed as nat),
        12,
    ) + " "@ + pad_left_chars(sol_chars(t.total_fees_lamports as nat), 15) + "\n"@
}

/// The whole table: column headers, a separator, one line per bucket in
/// the given order, a separator, and the TOTAL line.
pub open spec fn table_chars(s: Seq<ExpenseRecord>, t: RunTotals) -> Seq<char> {
    table_header_chars() + separator_chars() + table_rows_chars(s) + separator_chars()
        + total_row_chars(t)
}

/// Render the fixed-width table of `records`, in their given order,
/// with the run's grand totals in the TOTAL row.
pub fn render_table(records: &Vec<ExpenseRecord>, totals: &RunTotals) -> (out: String)
    ensures
        out@ == table_chars(records@, *totals),
{
    let mut out = pad_right("Program ID", 45);
    out.append(" ");
    let h2 = pad_left("Tx Count", 12);
    out.append(h2.as_str());
    out.append(" ");
    let h3 = pad_left("Total Fees (SOL)", 15);
    out.append(h3.as_str());
    out.append("\n");
    out.append("--------------------------------------------------------------------------------\n");
    proof {
        assert(table_rows_chars(records@.take(0)) =~= Seq::<char>::empty());
        assert(out@ =~= table_header_chars() + separator_chars() + table_rows_chars(
            records@.take(0),
        ));
    }
    let mut i: usize = 0;
    while i < records.len()
        invariant
            i <= records@.len(),
            out@ == table_header_chars() + separator_chars() + table_rows_chars(
                records@.take(i as int),
            ),
        decreases records@.len() - i,
    {
        let id = truncate_to(records[i].program_id.as_str(), 44);
        let id_col = pad_right(id.as_str(), 45);
        out.append(id_col.as_str());
        out.append(" ");
        let cnt = format_usize(records[i].transaction_count);
        let cnt_col = pad_left(cnt.as_str(), 12);
        out.append(cnt_col.as_str());
        out.append(" ");
        let sol = format_sol(records[i].total_fees_lamports);
        let sol_col = pad_left(sol.as_str(), 15);
        out.append(sol_col.as_str());
        out.append("\n");
        proof {
            assert(records@.take(i + 1).drop_last() =~= records@.take(i as int));
            assert(records@.take(i + 1).last() == records@[i as int]);
            assert(out@ =~= table_header_chars() + separator_chars() + table_rows_chars(
                records@.take(i + 1),
            ));
        }
        i = i + 1;
    }
    out.append("--------------------------------------------------------------------------------\n");
    let t1 = pad_right("TOTAL", 45);
    out.append(t1.as_str());
    out.append(" ");
    let t2 = format_usize(totals.processed);
    let t2_col = pad_left(t2.as_str(), 12);
    out.append(t2_col.as_str());
    out.append(" ");
    let t3 = format_sol(totals.total_fees_lamports);
    let t3_col = pad_left(t3.as_str(), 15);
    out.append(t3_col.as_str());
    out.append("\n");
    proof {
        assert(records@.take(records@.len() as int) =~= records@);
        assert(out@ =~= table_chars(records@, *totals));
    }
    out
}

} // verus!
