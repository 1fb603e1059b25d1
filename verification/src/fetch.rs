//! The bounded fetch pool's plan and bookkeeping.
//!
//! Transaction details are fetched with at most `concurrency` requests in
//! flight: the signature list is partitioned into bursts of exactly that
//! size (the last one smaller), one burst is dispatched and fully awaited
//! before the next begins. The network calls themselves happen outside
//! the library; what is verified here is the partition, the shaping of
//! one fetched transaction into a [`TransactionFeeRecord`], and the
//! per-burst counting used for progress and grand totals.
//!
//! A fetch that failed, returned no metadata, or yielded no program
//! identifiers contributes nothing; it is dropped silently, never
//! retried.

use vstd::prelude::*;

use crate::aggregation::aggregate_records;
use crate::aggregation::apply_record;
use crate::aggregation::first_seen_keys;
use crate::aggregation::lemma_map_of_dom;
use crate::aggregation::record_fits;
use crate::aggregation::record_keys;
use crate::aggregation::ExpenseAggregator;
use crate::aggregation::FeeRecordView;
use crate::aggregation::SpecBucket;
use crate::aggregation::SpecKey;
use crate::aggregation::TransactionFeeRecord;
use crate::attribution::extract_program_ids;
use crate::attribution::message_program_ids;
use crate::attribution::DecodedMessage;

verus! {

/// The contents of a burst partition, in order.
pub open spec fn flatten_chunks(cs: Seq<Vec<String>>) -> Seq<String> {
    cs.flat_map(|v: Vec<String>| v@)
}

/// Partition the signature list into bursts of exactly `concurrency`
/// signatures, in order, the last burst holding the remainder. Nothing
/// is lost, duplicated, or reordered, and no burst is empty or larger
/// than `concurrency`.
pub fn chunk_signatures(sigs: Vec<String>, concurrency: usize) -> (bursts: Vec<Vec<String>>)
    requires
        concurrency >= 1,
    ensures
        flatten_chunks(bursts@) == sigs@,
        forall|i: int| 0 <= i < bursts@.len() ==> 1 <= (#[trigger] bursts@[i])@.len()
            <= concurrency,
        forall|i: int| 0 <= i < bursts@.len() - 1 ==> (#[trigger] bursts@[i])@.len()
            == concurrency,
{
    let ghost all = sigs@;
    let mut bursts: Vec<Vec<String>> = Vec::new();
    let mut remaining = sigs;
    proof {
        assert(flatten_chunks(bursts@) =~= Seq::<String>::empty());
        assert(flatten_chunks(bursts@) + remaining@ =~= all);
    }
    while remaining.len() > concurrency
        invariant
            concurrency >= 1,
            flatten_chunks(bursts@) + remaining@ == all,
            forall|i: int| 0 <= i < bursts@.len() ==> (#[trigger] bursts@[i])@.len()
                == concurrency,
        decreases remaining@.len(),
    {
        let tail = remaining.split_off(concurrency);
        let ghost before = bursts@;
        let ghost head_view = remaining@;
        bursts.push(remaining);
        proof {
            before.lemma_flat_map_push(|v: Vec<String>| v@, bursts@.last());
            assert(flatten_chunks(bursts@) =~= flatten_chunks(before) + head_view);
            assert(flatten_chunks(bursts@) + tail@ =~= all);
        }
        remaining = tail;
    }
    if remaining.len() > 0 {
        let ghost before = bursts@;
        let ghost head_view = remaining@;
        bursts.push(remaining);
        proof {
            before.lemma_flat_map_push(|v: Vec<String>| v@, bursts@.last());
            assert(flatten_chunks(bursts@) =~= flatten_chunks(before) + head_view);
            assert(flatten_chunks(bursts@) =~= all);
        }
    } else {
        proof {
            assert(flatten_chunks(bursts@) =~= all);
        }
    }
    bursts
}

/// Shape one fetched transaction into a fee record: present exactly when
/// the transaction carried metadata (a fee) and its message yielded at
/// least one program identifier; dropped otherwise.
pub fn build_fee_record(fee: Option<u64>, msg: &DecodedMessage) -> (r: Option<TransactionFeeRecord>)
    ensures
        r is Some <==> (fee is Some && message_program_ids(*msg).len() > 0),
        r is Some ==> r->0.fee == fee->0 && r->0.program_ids@ == message_program_ids(*msg),
{
    match fee {
        None => None,
        Some(f) => {
            let ids = extract_program_ids(msg);
            if ids.len() == 0 {
                None
            } else {
                Some(TransactionFeeRecord { fee: f, program_ids: ids })
            }
        },
    }
}

/// The records of the fetches that succeeded, in burst order.
pub open spec fn somes(s: Seq<Option<TransactionFeeRecord>>) -> Seq<TransactionFeeRecord>
    decreases s.len(),
{
    if s.len() == 0 {
        Seq::empty()
    } else {
        somes(s.drop_last()) + (match s.last() {
            Some(r) => seq![r],
            None => Seq::empty(),
        })
    }
}

/// The sum of the fees in a record sequence, in lamports.
pub open spec fn sum_fees(rs: Seq<TransactionFeeRecord>) -> int
    decreases rs.len(),
{
    if rs.len() == 0 {
        0
    } else {
        sum_fees(rs.drop_last()) + rs.last().fee
    }
}

/// No more records succeed than were attempted.
pub proof fn lemma_somes_len(s: Seq<Option<TransactionFeeRecord>>)
    ensures
        somes(s).len() <= s.len(),
    decreases s.len(),
{
    if s.len() > 0 {
        lemma_somes_len(s.drop_last());
    }
}

/// Every fee is below the counter's ceiling, so the sum is bounded by
/// the count times the ceiling.
pub proof fn lemma_sum_fees_bound(rs: Seq<TransactionFeeRecord>)
    ensures
        0 <= sum_fees(rs) <= rs.len() * (u64::MAX as int),
    decreases rs.len(),
{
    if rs.len() > 0 {
        lemma_sum_fees_bound(rs.drop_last());
    }
}

/// How many fetches of the burst succeeded.
pub fn processed_count(results: &Vec<Option<TransactionFeeRecord>>) -> (n: usize)
    ensures
        n == somes(results@).len(),
{
    let mut n: usize = 0;
    let mut i: usize = 0;
    while i < results.len()
        invariant
            i <= results@.len(),
            n == somes(results@.take(i as int)).len(),
            n <= i,
        decreases results@.len() - i,
    {
        proof {
            assert(results@.take(i + 1).drop_last() =~= results@.take(i as int));
            assert(results@.take(i + 1).last() == results@[i as int]);
        }
        if results[i].is_some() {
            n = n + 1;
        }
        i = i + 1;
    }
    proof {
        assert(results@.take(results@.len() as int) =~= results@);
    }
    n
}

/// The burst's total fees over the fetches that succeeded, summed
/// without any possibility of overflow.
pub fn burst_fee_total(results: &Vec<Option<TransactionFeeRecord>>) -> (total: u128)
    ensures
        total == sum_fees(somes(results@)),
{
    let mut total: u128 = 0;
    let mut i: usize = 0;
    while i < results.len()
        invariant
            i <= results@.len(),
            total == sum_fees(somes(results@.take(i as int))),
            somes(results@.take(i as int)).len() <= i,
        decreases results@.len() - i,
    {
        proof {
            assert(results@.take(i + 1).drop_last() =~= results@.take(i as int));
            assert(results@.take(i + 1).last() == results@[i as int]);
            lemma_sum_fees_bound(somes(results@.take(i as int)));
        }
        match &results[i] {
            Some(rec) => {
                proof {
                    let s_i = somes(results@.take(i as int));
                    assert((s_i + seq![*rec]).drop_last() =~= s_i);
                    assert((s_i + seq![*rec]).last() == *rec);
                    assert(sum_fees(somes(results@.take(i + 1))) == sum_fees(s_i) + rec.fee);
                }
                total = total + rec.fee as u128;
            },
            None => {
                proof {
                    let s_i = somes(results@.take(i as int));
                    assert(s_i + Seq::<TransactionFeeRecord>::empty() =~= s_i);
                }
            },
        }
        i = i + 1;
    }
    proof {
        assert(results@.take(results@.len() as int) =~= results@);
    }
    total
}

/// The burst's successful fetches as the aggregation model sees them,
/// under `account`.
pub open spec fn burst_views(
    results: Seq<Option<TransactionFeeRecord>>,
    account: Seq<char>,
) -> Seq<FeeRecordView> {
    somes(results).map_values(|r: TransactionFeeRecord| r.view_under(account))
}

/// Whether folding a record sequence stays within the machine counters
/// at every step.
pub open spec fn records_fit_seq(m: Map<SpecKey, SpecBucket>, rvs: Seq<FeeRecordView>) -> bool
    decreases rvs.len(),
{
    if rvs.len() == 0 {
        true
    } else {
        records_fit_seq(m, rvs.drop_last()) && record_fits(
            aggregate_records(m, rvs.drop_last()),
            rvs.last(),
        )
    }
}

/// The key order after folding a record sequence: keys new to the
/// aggregate are appended in order of first appearance.
pub open spec fn extend_keys(ks: Seq<SpecKey>, rvs: Seq<FeeRecordView>) -> Seq<SpecKey>
    decreases rvs.len(),
{
    if rvs.len() == 0 {
        ks
    } else {
        let prev = extend_keys(ks, rvs.drop_last());
        prev + first_seen_keys(prev.to_set(), record_keys(rvs.last().account, rvs.last().ids))
    }
}

/// A record-sequence fold that fits as a whole also fits on every
/// prefix, and the next record after any proper prefix fits too.
pub proof fn lemma_records_fit_prefix(
    m: Map<SpecKey, SpecBucket>,
    rvs: Seq<FeeRecordView>,
    i: int,
)
    requires
        0 <= i <= rvs.len(),
        records_fit_seq(m, rvs),
    ensures
        records_fit_seq(m, rvs.take(i)),
        i < rvs.len() ==> record_fits(aggregate_records(m, rvs.take(i)), rvs[i]),
    decreases rvs.len(),
{
    if i == rvs.len() {
        assert(rvs.take(i) =~= rvs);
    } else {
        assert(rvs.take(i) =~= rvs.drop_last().take(i));
        if i == rvs.len() - 1 {
            assert(rvs.take(i) =~= rvs.drop_last());
            assert(rvs[i] == rvs.last());
        } else {
            lemma_records_fit_prefix(m, rvs.drop_last(), i);
            assert(rvs.drop_last()[i] == rvs[i]);
        }
    }
}

/// The successes among the first `i` results are exactly the first
/// successes of the whole burst.
pub proof fn lemma_somes_prefix(s: Seq<Option<TransactionFeeRecord>>, i: int)
    requires
        0 <= i <= s.len(),
    ensures
        somes(s.take(i)).len() <= somes(s).len(),
        somes(s.take(i)) == somes(s).take(somes(s.take(i)).len() as int),
    decreases s.len(),
{
    lemma_somes_len(s.take(i));
    if i == s.len() {
        assert(s.take(i) =~= s);
        assert(somes(s).take(somes(s).len() as int) =~= somes(s));
    } else {
        assert(s.take(i) =~= s.drop_last().take(i));
        lemma_somes_prefix(s.drop_last(), i);
        let li = somes(s.take(i)).len() as int;
        match s.last() {
            Some(r) => {
                assert(somes(s) == somes(s.drop_last()) + seq![r]);
                assert(somes(s).take(li) =~= somes(s.drop_last()).take(li));
            },
            None => {
                assert(somes(s) == somes(s.drop_last()) + Seq::<TransactionFeeRecord>::empty());
                assert(somes(s) =~= somes(s.drop_last()));
            },
        }
    }
}

/// Fold one finished burst's successful fetches into the aggregate, in
/// burst order, and leave the aggregate untouched if a counter would
/// overflow anywhere along the way.
pub fn accumulate_burst(
    agg: &mut ExpenseAggregator,
    account: &String,
    results: &Vec<Option<TransactionFeeRecord>>,
) -> (ok: bool)
    requires
        old(agg).wf(),
    ensures
        final(agg).wf(),
        ok == records_fit_seq(old(agg).as_map(), burst_views(results@, account@)),
        ok ==> final(agg).as_map() == aggregate_records(
            old(agg).as_map(),
            burst_views(results@, account@),
        ),
        ok ==> final(agg).key_seq() == extend_keys(
            old(agg).key_seq(),
            burst_views(results@, account@),
        ),
        !ok ==> final(agg).records@ == old(agg).records@,
    {
        let ghost a: Seq<char> = account@;
        let ghost s0 = agg.records@;
        let ghost m0 = agg.as_map();
        let ghost ks0 = agg.key_seq();
        let ghost rvs = burst_views(results@, a);
        let saved = ExpenseAggregator::clone_records(&agg.records);
        let n: usize = results.len();
        let mut failed = false;
        let mut i: usize = 0;
        proof {
            assert(results@.take(0) =~= Seq::<Option<TransactionFeeRecord>>::empty());
            assert(burst_views(results@.take(0), a) =~= Seq::<FeeRecordView>::empty());
        }
        while i < n
            invariant_except_break
                a == account@,
                rvs == burst_views(results@, a),
                n == results@.len(),
                saved@ == s0,
                m0 == crate::aggregation::map_of(s0),
                ks0 == crate::aggregation::keys_of(s0),
                i <= n,
                !failed,
                agg.wf(),
                agg.as_map() == aggregate_records(m0, burst_views(results@.take(i as int), a)),
                records_fit_seq(m0, burst_views(results@.take(i as int), a)),
                agg.key_seq() == extend_keys(ks0, burst_views(results@.take(i as int), a)),
            ensures
                a == account@,
                rvs == burst_views(results@, a),
                saved@ == s0,
                agg.wf(),
                !failed ==> {
                    &&& i == n
                    &&& agg.as_map() == aggregate_records(
                        m0,
                        burst_views(results@.take(i as int), a),
                    )
                    &&& agg.key_seq() == extend_keys(ks0, burst_views(results@.take(i as int), a))
                    &&& records_fit_seq(m0, burst_views(results@.take(i as int), a))
                },
                failed ==> !records_fit_seq(m0, rvs),
            decreases n - i,
        {
            let ghost processed = burst_views(results@.take(i as int), a);
            proof {
                assert(results@.take(i + 1).drop_last() =~= results@.take(i as int));
                assert(results@.take(i + 1).last() == results@[i as int]);
            }
            match &results[i] {
                Some(rec) => {
                    let ghost v = rec.view_under(a);
                    proof {
                        assert(somes(results@.take(i + 1)) == somes(results@.take(i as int))
                            + seq![*rec]);
                        assert(burst_views(results@.take(i + 1), a) =~= processed.push(v));
                        assert(processed.push(v).drop_last() =~= processed);
                        assert(processed.push(v).last() == v);
                    }
                    let ghost m_cur = agg.as_map();
                    let ghost ks_cur = agg.key_seq();
                    let ghost recs_cur = agg.records@;
                    let ok = agg.accumulate(account, rec);
                    if !ok {
                        failed = true;
                        proof {
                            if records_fit_seq(m0, rvs) {
                                let li = processed.len() as int;
                                lemma_somes_prefix(results@, i as int);
                                assert(somes(results@.take(i as int)) == somes(results@).take(li));
                                assert(processed =~= rvs.take(li));
                                lemma_somes_prefix(results@, i + 1);
                                assert(somes(results@.take(i + 1)) =~= somes(
                                    results@.take(i as int),
                                ).push(*rec));
                                assert(somes(results@.take(i + 1)).len() == li + 1);
                                assert(li + 1 <= somes(results@).len());
                                assert(somes(results@).take(li + 1) == somes(
                                    results@.take(i + 1),
                                ));
                                assert(somes(results@)[li] == *rec);
                                assert(rvs.len() == somes(results@).len());
                                assert(rvs[li] == v);
                                lemma_records_fit_prefix(m0, rvs, li);
                                assert(processed == rvs.take(li));
                                assert(record_fits(aggregate_records(m0, processed), v));
                                assert(false);
                            }
                        }
                        break ;
                    }
                    proof {
                        assert(agg.as_map() == apply_record(m_cur, v));
                        assert(aggregate_records(m0, processed.push(v)) == apply_record(
                            aggregate_records(m0, processed),
                            v,
                        ));
                        assert(records_fit_seq(m0, processed.push(v)));
                        lemma_map_of_dom(recs_cur);
                        assert(m_cur.dom() =~= ks_cur.to_set());
                        assert(agg.key_seq() == extend_keys(ks0, processed.push(v)));
                    }
                },
                None => {
                    proof {
                        assert(somes(results@.take(i + 1)) == somes(results@.take(i as int))
                            + Seq::<TransactionFeeRecord>::empty());
                        assert(somes(results@.take(i + 1)) =~= somes(results@.take(i as int)));
                        assert(burst_views(results@.take(i + 1), a) == processed);
                    }
                },
            }
            i = i + 1;
        }
        if failed {
            agg.records = saved;
            return false;
        }
        proof {
            assert(results@.take(n as int) =~= results@);
        }
        true
    }

} // verus!
