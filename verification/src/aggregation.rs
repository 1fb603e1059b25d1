//! Per-program expense aggregation.
//!
//! A [`TransactionFeeRecord`] carries one processed transaction's fee and
//! the ordered program identifiers it invoked. The aggregator folds a
//! stream of such records into one bucket per `(account, program)` key:
//! each occurrence of a program in a record raises that bucket's
//! transaction count by one and its fee total by the record's whole fee.
//! A transaction touching several programs therefore contributes its full
//! fee to each of them — fees are deliberately double-counted across
//! programs, never divided.
//!
//! Buckets live in a vector ordered by first appearance of their key,
//! which is what the report's stable sort later ties against. The
//! mathematical model is a map from key to `(count, total)` pair, and the
//! lemmas at the end show the fold is insensitive to the order in which
//! records arrive or to how they were grouped into bursts.

use vstd::prelude::*;

verus! {

/// One processed transaction: its network fee and the programs its
/// top-level instructions invoked, in order, duplicates kept.
pub struct TransactionFeeRecord {
    /// The fee charged for the transaction, in lamports.
    pub fee: u64,
    /// The invoked program identifiers, in instruction order.
    pub program_ids: Vec<String>,
}

/// One aggregation bucket: an account, a program it paid fees to, and
/// the running totals.
pub struct ExpenseRecord {
    /// The analyzed account the fees were paid from.
    pub account: String,
    /// The program the fees are attributed to.
    pub program_id: String,
    /// How many instruction occurrences contributed to this bucket.
    pub transaction_count: usize,
    /// Total attributed fees, in lamports.
    pub total_fees_lamports: u64,
}

/// An aggregation key at the specification level: the account and the
/// program identifier, as character sequences.
pub type SpecKey = (Seq<char>, Seq<char>);

/// A bucket's totals at the specification level: `(count, fees)`.
pub type SpecBucket = (int, int);

/// One record at the specification level, with the account it was
/// aggregated under.
pub struct FeeRecordView {
    /// The account the record belongs to.
    pub account: Seq<char>,
    /// The transaction's fee in lamports.
    pub fee: int,
    /// The invoked program identifiers, in order, duplicates kept.
    pub ids: Seq<Seq<char>>,
}

impl TransactionFeeRecord {
    /// The record as seen by the aggregation model, under `account`.
    pub open spec fn view_under(self, account: Seq<char>) -> FeeRecordView {
        FeeRecordView {
            account,
            fee: self.fee as int,
            ids: self.program_ids@.map_values(|s: String| s@),
        }
    }
}

impl ExpenseRecord {
    /// The bucket's aggregation key.
    pub open spec fn key(self) -> SpecKey {
        (self.account@, self.program_id@)
    }

    /// The bucket's totals.
    pub open spec fn bucket(self) -> SpecBucket {
        (self.transaction_count as int, self.total_fees_lamports as int)
    }
}

/// Raise the bucket for `k` by `c` occurrences and `f` lamports,
/// creating it if absent.
pub open spec fn bump(m: Map<SpecKey, SpecBucket>, k: SpecKey, c: int, f: int) -> Map<
    SpecKey,
    SpecBucket,
> {
    if m.dom().contains(k) {
        m.insert(k, (m[k].0 + c, m[k].1 + f))
    } else {
        m.insert(k, (c, f))
    }
}

/// Whether raising the bucket for `k` by `(c, f)` stays within the
/// machine counters (a fresh bucket always does, for `c <= usize::MAX`
/// and `f <= u64::MAX`).
pub open spec fn bump_fits(m: Map<SpecKey, SpecBucket>, k: SpecKey, c: int, f: int) -> bool {
    m.dom().contains(k) ==> m[k].0 + c <= usize::MAX && m[k].1 + f <= u64::MAX
}

/// Fold one record's identifier list into the map, first to last.
pub open spec fn apply_ids(
    m: Map<SpecKey, SpecBucket>,
    account: Seq<char>,
    ids: Seq<Seq<char>>,
    fee: int,
) -> Map<SpecKey, SpecBucket>
    decreases ids.len(),
{
    if ids.len() == 0 {
        m
    } else {
        bump(apply_ids(m, account, ids.drop_last(), fee), (account, ids.last()), 1, fee)
    }
}

/// Whether folding one record's identifier list stays within the machine
/// counters at every step.
pub open spec fn ids_fit(
    m: Map<SpecKey, SpecBucket>,
    account: Seq<char>,
    ids: Seq<Seq<char>>,
    fee: int,
) -> bool
    decreases ids.len(),
{
    if ids.len() == 0 {
        true
    } else {
        ids_fit(m, account, ids.drop_last(), fee) && bump_fits(
            apply_ids(m, account, ids.drop_last(), fee),
            (account, ids.last()),
            1,
            fee,
        )
    }
}

/// Fold one whole record into the map.
pub open spec fn apply_record(m: Map<SpecKey, SpecBucket>, r: FeeRecordView) -> Map<
    SpecKey,
    SpecBucket,
> {
    apply_ids(m, r.account, r.ids, r.fee)
}

/// Whether folding one whole record stays within the machine counters.
pub open spec fn record_fits(m: Map<SpecKey, SpecBucket>, r: FeeRecordView) -> bool {
    ids_fit(m, r.account, r.ids, r.fee)
}

/// Fold a sequence of records into the map, first to last.
pub open spec fn aggregate_records(m: Map<SpecKey, SpecBucket>, rs: Seq<FeeRecordView>) -> Map<
    SpecKey,
    SpecBucket,
>
    decreases rs.len(),
{
    if rs.len() == 0 {
        m
    } else {
        apply_record(aggregate_records(m, rs.drop_last()), rs.last())
    }
}

/// The map modeled by a bucket vector: each bucket's key maps to its
/// totals, later entries shadowing earlier ones (well-formed vectors
/// have no duplicate keys, so nothing is shadowed).
pub open spec fn map_of(s: Seq<ExpenseRecord>) -> Map<SpecKey, SpecBucket>
    decreases s.len(),
{
    if s.len() == 0 {
        Map::empty()
    } else {
        map_of(s.drop_last()).insert(s.last().key(), s.last().bucket())
    }
}

/// The keys a bucket vector exposes, in vector order.
pub open spec fn keys_of(s: Seq<ExpenseRecord>) -> Seq<SpecKey> {
    s.map_values(|r: ExpenseRecord| r.key())
}

/// The keys of `ks` not yet in `dom`, in order of first appearance,
/// each kept once.
pub open spec fn first_seen_keys(dom: Set<SpecKey>, ks: Seq<SpecKey>) -> Seq<SpecKey>
    decreases ks.len(),
{
    if ks.len() == 0 {
        Seq::empty()
    } else if dom.contains(ks[0]) {
        first_seen_keys(dom, ks.drop_first())
    } else {
        seq![ks[0]] + first_seen_keys(dom.insert(ks[0]), ks.drop_first())
    }
}

/// The `(account, program)` keys one record's identifier list touches,
/// in order.
pub open spec fn record_keys(account: Seq<char>, ids: Seq<Seq<char>>) -> Seq<SpecKey> {
    ids.map_values(|p: Seq<char>| (account, p))
}

/// The domain of a bucket vector's map is exactly its key set.
pub proof fn lemma_map_of_dom(s: Seq<ExpenseRecord>)
    ensures
        map_of(s).dom() =~= keys_of(s).to_set(),
    decreases s.len(),
{
    if s.len() == 0 {
    } else {
        lemma_map_of_dom(s.drop_last());
        assert(keys_of(s.drop_last()) =~= keys_of(s).drop_last());
        let ks = keys_of(s);
        assert(ks.drop_last().to_set().insert(s.last().key()) =~= ks.to_set()) by {
            assert forall|k: SpecKey| ks.to_set().contains(k) implies ks.drop_last().to_set().insert(
                s.last().key(),
            ).contains(k) by {
                let i = choose|i: int| 0 <= i < ks.len() && ks[i] == k;
                if i < ks.len() - 1 {
                    assert(ks.drop_last()[i] == k);
                } else {
                    assert(ks[ks.len() - 1] == s.last().key());
                }
            }
            assert forall|k: SpecKey|
                ks.drop_last().to_set().insert(s.last().key()).contains(k) implies ks.to_set()
                .contains(k) by {
                if ks.drop_last().to_set().contains(k) {
                    let i = choose|i: int| 0 <= i < ks.drop_last().len() && ks.drop_last()[i] == k;
                    assert(ks[i] == k);
                } else {
                    assert(ks[ks.len() - 1] == k);
                }
            }
        }
    }
}

/// Updating one entry in place, key unchanged, re-points the map at the
/// new totals.
pub proof fn lemma_map_of_update(s: Seq<ExpenseRecord>, j: int, r: ExpenseRecord)
    requires
        0 <= j < s.len(),
        r.key() == s[j].key(),
        forall|p: int, q: int|
            0 <= p < q < s.len() ==> (#[trigger] s[p]).key() != (#[trigger] s[q]).key(),
    ensures
        map_of(s.update(j, r)) =~= map_of(s).insert(r.key(), r.bucket()),
    decreases s.len(),
{
    if j == s.len() - 1 {
        assert(s.update(j, r).drop_last() =~= s.drop_last());
        assert(s.update(j, r).last() == r);
    } else {
        assert(s.update(j, r).drop_last() =~= s.drop_last().update(j, r));
        assert(s.update(j, r).last() == s.last());
        lemma_map_of_update(s.drop_last(), j, r);
        assert(s[j].key() != s.last().key());
    }
}

/// With no duplicate keys, the map of a bucket vector reads each entry
/// back exactly.
pub proof fn lemma_map_of_index(s: Seq<ExpenseRecord>, i: int)
    requires
        0 <= i < s.len(),
        forall|p: int, q: int|
            0 <= p < q < s.len() ==> (#[trigger] s[p]).key() != (#[trigger] s[q]).key(),
    ensures
        map_of(s).dom().contains(s[i].key()),
        map_of(s)[s[i].key()] == s[i].bucket(),
    decreases s.len(),
{
    if i == s.len() - 1 {
    } else {
        lemma_map_of_index(s.drop_last(), i);
        assert(s.drop_last()[i] == s[i]);
        assert(s[i].key() != s.last().key());
    }
}

/// The expense aggregation state: one bucket per distinct
/// `(account, program)` key, in order of first appearance.
pub struct ExpenseAggregator {
    /// The buckets, keys distinct, ordered by first appearance.
    pub records: Vec<ExpenseRecord>,
}

impl ExpenseAggregator {
    /// Keys are distinct and every bucket has been touched at least once.
    pub open spec fn wf(self) -> bool {
        &&& forall|p: int, q: int|
            0 <= p < q < self.records@.len() ==> (#[trigger] self.records@[p]).key() != (
            #[trigger] self.records@[q]).key()
        &&& forall|p: int|
            0 <= p < self.records@.len() ==> (#[trigger] self.records@[p]).transaction_count >= 1
    }

    /// The aggregate as a map from key to `(count, fees)`.
    pub open spec fn as_map(self) -> Map<SpecKey, SpecBucket> {
        map_of(self.records@)
    }

    /// The keys in first-appearance order.
    pub open spec fn key_seq(self) -> Seq<SpecKey> {
        keys_of(self.records@)
    }

    /// An empty aggregate.
    pub fn new() -> (a: ExpenseAggregator)
        ensures
            a.wf(),
            a.as_map() =~= Map::<SpecKey, SpecBucket>::empty(),
            a.key_seq() =~= Seq::<SpecKey>::empty(),
            a.records@.len() == 0,
    {
        ExpenseAggregator { records: Vec::new() }
    }

    /// Raise the bucket for `(account, program_id)` by `count_delta`
    /// occurrences and `fee_delta` lamports, creating the bucket at the
    /// end of the vector if the key is new. Returns false, changing
    /// nothing, exactly when a counter would overflow.
    pub fn bump_one(
        &mut self,
        account: &String,
        program_id: &String,
        count_delta: usize,
        fee_delta: u64,
    ) -> (ok: bool)
        requires
            old(self).wf(),
            count_delta >= 1,
        ensures
            final(self).wf(),
            ok == bump_fits(
                old(self).as_map(),
                (account@, program_id@),
                count_delta as int,
                fee_delta as int,
            ),
            ok ==> final(self).as_map() == bump(
                old(self).as_map(),
                (account@, program_id@),
                count_delta as int,
                fee_delta as int,
            ),
            ok ==> final(self).key_seq() == if old(self).as_map().dom().contains(
                (account@, program_id@),
            ) {
                old(self).key_seq()
            } else {
                old(self).key_seq().push((account@, program_id@))
            },
            !ok ==> *final(self) == *old(self),
    {
        let ghost k: SpecKey = (account@, program_id@);
        let ghost s0 = self.records@;
        let n: usize = self.records.len();
        let mut i: usize = 0;
        while i < n
            invariant
                k == (account@, program_id@),
                self.records@ == s0,
                old(self).wf(),
                *self == *old(self),
                n == self.records@.len(),
                i <= n,
                forall|j: int| 0 <= j < i ==> (#[trigger] self.records@[j]).key() != k,
            decreases n - i,
        {
            let same_account: bool = self.records[i].account == *account;
            let same_program: bool = self.records[i].program_id == *program_id;
            if same_account && same_program {
                let c: usize = self.records[i].transaction_count;
                let f: u64 = self.records[i].total_fees_lamports;
                proof {
                    lemma_map_of_index(self.records@, i as int);
                }
                if count_delta > usize::MAX - c || fee_delta > u64::MAX - f {
                    return false;
                }
                let updated = ExpenseRecord {
                    account: self.records[i].account.clone(),
                    program_id: self.records[i].program_id.clone(),
                    transaction_count: c + count_delta,
                    total_fees_lamports: f + fee_delta,
                };
                proof {
                    lemma_map_of_update(self.records@, i as int, updated);
                    lemma_map_of_dom(self.records@);
                }
                let ghost before = self.records@;
                self.records[i] = updated;
                proof {
                    assert(keys_of(self.records@) =~= keys_of(before));
                }
                return true;
            }
            proof {
                assert(self.records@[i as int].key() != k) by {
                    if self.records@[i as int].key() == k {
                        assert(self.records@[i as int].account@ == account@);
                        assert(self.records@[i as int].program_id@ == program_id@);
                    }
                }
            }
            i = i + 1;
        }
        proof {
            lemma_map_of_dom(self.records@);
            assert(!map_of(self.records@).dom().contains(k)) by {
                if keys_of(s0).to_set().contains(k) {
                    let j = choose|j: int| 0 <= j < keys_of(s0).len() && keys_of(s0)[j] == k;
                    assert(s0[j].key() == k);
                }
            }
        }
        let fresh = ExpenseRecord {
            account: account.clone(),
            program_id: program_id.clone(),
            transaction_count: count_delta,
            total_fees_lamports: fee_delta,
        };
        let ghost before = self.records@;
        self.records.push(fresh);
        proof {
            assert(self.records@.drop_last() =~= before);
            assert(self.records@.last() == fresh);
            assert(fresh.key() == k);
            assert(keys_of(self.records@) =~= keys_of(before).push(k));
            assert forall|p: int, q: int|
                0 <= p < q < self.records@.len() implies (#[trigger] self.records@[p]).key() != (
            #[trigger] self.records@[q]).key() by {
                if q == self.records@.len() - 1 {
                    assert(self.records@[p] == before[p]);
                    assert(before[p].key() != k);
                }
            }
        }
        true
    }
}

/// A fold that fits as a whole also fits on every prefix, and the next
/// bump after any proper prefix fits too.
pub proof fn lemma_ids_fit_prefix(
    m: Map<SpecKey, SpecBucket>,
    account: Seq<char>,
    ids: Seq<Seq<char>>,
    fee: int,
    i: int,
)
    requires
        0 <= i <= ids.len(),
        ids_fit(m, account, ids, fee),
    ensures
        ids_fit(m, account, ids.take(i), fee),
        i < ids.len() ==> bump_fits(
            apply_ids(m, account, ids.take(i), fee),
            (account, ids[i]),
            1,
            fee,
        ),
    decreases ids.len(),
{
    if i == ids.len() {
        assert(ids.take(i) =~= ids);
    } else {
        assert(ids.take(i) =~= ids.drop_last().take(i));
        if i == ids.len() - 1 {
            assert(ids.take(i) =~= ids.drop_last());
            assert(ids[i] == ids.last());
        } else {
            lemma_ids_fit_prefix(m, account, ids.drop_last(), fee, i);
            assert(ids.drop_last()[i] == ids[i]);
        }
    }
}

impl ExpenseAggregator {
    /// A fresh deep copy of a bucket vector.
    pub(crate) fn clone_records(v: &Vec<ExpenseRecord>) -> (r: Vec<ExpenseRecord>)
        ensures
            r@ == v@,
    {
        let mut r: Vec<ExpenseRecord> = Vec::new();
        let mut i: usize = 0;
        while i < v.len()
            invariant
                i <= v@.len(),
                r@ =~= v@.take(i as int),
            decreases v@.len() - i,
        {
            r.push(
                ExpenseRecord {
                    account: v[i].account.clone(),
                    program_id: v[i].program_id.clone(),
                    transaction_count: v[i].transaction_count,
                    total_fees_lamports: v[i].total_fees_lamports,
                },
            );
            assert(r@ =~= v@.take(i + 1));
            i = i + 1;
        }
        assert(r@ =~= v@);
        r
    }

    /// Fold one processed transaction into the aggregate under `account`:
    /// every occurrence of a program in the record raises that program's
    /// bucket by one occurrence and by the record's whole fee. New keys
    /// are appended in order of first appearance. Returns false, leaving
    /// the aggregate unchanged, exactly when a counter would overflow.
    pub fn accumulate(&mut self, account: &String, rec: &TransactionFeeRecord) -> (ok: bool)
        requires
            old(self).wf(),
        ensures
            final(self).wf(),
            ok == record_fits(old(self).as_map(), rec.view_under(account@)),
            ok ==> final(self).as_map() == apply_record(
                old(self).as_map(),
                rec.view_under(account@),
            ),
            ok ==> final(self).key_seq() == old(self).key_seq() + first_seen_keys(
                old(self).as_map().dom(),
                record_keys(account@, rec.view_under(account@).ids),
            ),
            !ok ==> final(self).records@ == old(self).records@,
    {
        let ghost a: Seq<char> = account@;
        let ghost ids: Seq<Seq<char>> = rec.program_ids@.map_values(|s: String| s@);
        let ghost s0 = self.records@;
        let ghost m0 = self.as_map();
        let ghost ks0 = self.key_seq();
        let fee: u64 = rec.fee;
        let saved = Self::clone_records(&self.records);
        let n: usize = rec.program_ids.len();
        let mut failed = false;
        let mut i: usize = 0;
        proof {
            assert(ids.take(0) =~= Seq::<Seq<char>>::empty());
            assert(ids.skip(0) =~= ids);
        }
        while i < n
            invariant_except_break
                a == account@,
                ids == rec.program_ids@.map_values(|s: String| s@),
                fee == rec.fee,
                n == rec.program_ids@.len(),
                saved@ == s0,
                m0 == map_of(s0),
                ks0 == keys_of(s0),
                i <= n,
                !failed,
                self.wf(),
                self.as_map() == apply_ids(m0, a, ids.take(i as int), fee as int),
                ids_fit(m0, a, ids.take(i as int), fee as int),
                ks0 + first_seen_keys(m0.dom(), record_keys(a, ids)) =~= self.key_seq()
                    + first_seen_keys(self.as_map().dom(), record_keys(a, ids.skip(i as int))),
            ensures
                a == account@,
                ids == rec.program_ids@.map_values(|s: String| s@),
                fee == rec.fee,
                n == rec.program_ids@.len(),
                saved@ == s0,
                self.wf(),
                !failed ==> {
                    &&& i == n
                    &&& self.as_map() == apply_ids(m0, a, ids.take(i as int), fee as int)
                    &&& ids_fit(m0, a, ids.take(i as int), fee as int)
                    &&& ks0 + first_seen_keys(m0.dom(), record_keys(a, ids)) =~= self.key_seq()
                        + first_seen_keys(self.as_map().dom(), record_keys(a, ids.skip(i as int)))
                },
                failed ==> !ids_fit(m0, a, ids, fee as int),
            decreases n - i,
        {
            let ghost m_cur = self.as_map();
            let ghost ks_cur = self.key_seq();
            let ok = self.bump_one(account, &rec.program_ids[i], 1, fee);
            proof {
                assert(rec.program_ids@[i as int]@ == ids[i as int]);
            }
            if !ok {
                failed = true;
                proof {
                    if ids_fit(m0, a, ids, fee as int) {
                        lemma_ids_fit_prefix(m0, a, ids, fee as int, i as int);
                    }
                }
                break ;
            }
            proof {
                let k: SpecKey = (a, ids[i as int]);
                assert(ids.take(i + 1).drop_last() =~= ids.take(i as int));
                assert(ids.take(i + 1).last() == ids[i as int]);
                assert(self.as_map() == apply_ids(m0, a, ids.take(i + 1), fee as int));
                assert(ids_fit(m0, a, ids.take(i + 1), fee as int));
                let rk = record_keys(a, ids.skip(i as int));
                assert(rk[0] == k);
                assert(rk.drop_first() =~= record_keys(a, ids.skip(i + 1)));
                assert(self.as_map().dom() =~= m_cur.dom().insert(k));
                if m_cur.dom().contains(k) {
                    assert(self.as_map().dom() =~= m_cur.dom());
                    assert(first_seen_keys(m_cur.dom(), rk) == first_seen_keys(
                        self.as_map().dom(),
                        rk.drop_first(),
                    ));
                } else {
                    assert(first_seen_keys(m_cur.dom(), rk) == seq![k] + first_seen_keys(
                        m_cur.dom().insert(k),
                        rk.drop_first(),
                    ));
                    assert(ks_cur + first_seen_keys(m_cur.dom(), rk) =~= ks_cur.push(k)
                        + first_seen_keys(self.as_map().dom(), rk.drop_first()));
                }
            }
            i = i + 1;
        }
        if failed {
            self.records = saved;
            return false;
        }
        proof {
            assert(ids.take(n as int) =~= ids);
            assert(ids.skip(n as int) =~= Seq::<Seq<char>>::empty());
            assert(record_keys(a, ids.skip(n as int)) =~= Seq::<SpecKey>::empty());
            assert(first_seen_keys(self.as_map().dom(), record_keys(a, ids.skip(n as int)))
                =~= Seq::<SpecKey>::empty());
            assert(self.key_seq() + Seq::<SpecKey>::empty() =~= self.key_seq());
            assert(self.key_seq() =~= ks0 + first_seen_keys(m0.dom(), record_keys(a, ids)));
        }
        true
    }
}

/// Fold a finished aggregate's buckets into the map, first to last,
/// adding each bucket's whole totals at once.
pub open spec fn merge_map(m: Map<SpecKey, SpecBucket>, s: Seq<ExpenseRecord>) -> Map<
    SpecKey,
    SpecBucket,
>
    decreases s.len(),
{
    if s.len() == 0 {
        m
    } else {
        bump(
            merge_map(m, s.drop_last()),
            s.last().key(),
            s.last().bucket().0,
            s.last().bucket().1,
        )
    }
}

/// Whether folding a finished aggregate's buckets stays within the
/// machine counters at every step.
pub open spec fn merge_fits(m: Map<SpecKey, SpecBucket>, s: Seq<ExpenseRecord>) -> bool
    decreases s.len(),
{
    if s.len() == 0 {
        true
    } else {
        merge_fits(m, s.drop_last()) && bump_fits(
            merge_map(m, s.drop_last()),
            s.last().key(),
            s.last().bucket().0,
            s.last().bucket().1,
        )
    }
}

/// A merge that fits as a whole also fits on every prefix, and the next
/// bump after any proper prefix fits too.
pub proof fn lemma_merge_fits_prefix(m: Map<SpecKey, SpecBucket>, s: Seq<ExpenseRecord>, i: int)
    requires
        0 <= i <= s.len(),
        merge_fits(m, s),
    ensures
        merge_fits(m, s.take(i)),
        i < s.len() ==> bump_fits(
            merge_map(m, s.take(i)),
            s[i].key(),
            s[i].bucket().0,
            s[i].bucket().1,
        ),
    decreases s.len(),
{
    if i == s.len() {
        assert(s.take(i) =~= s);
    } else {
        assert(s.take(i) =~= s.drop_last().take(i));
        if i == s.len() - 1 {
            assert(s.take(i) =~= s.drop_last());
            assert(s[i] == s.last());
        } else {
            lemma_merge_fits_prefix(m, s.drop_last(), i);
            assert(s.drop_last()[i] == s[i]);
        }
    }
}

impl ExpenseAggregator {
    /// Fold another finished aggregate into this one, bucket by bucket:
    /// per shared key the counts and fee totals add up; keys new to this
    /// aggregate are appended in the other's order. Returns false,
    /// leaving this aggregate unchanged, exactly when a counter would
    /// overflow.
    pub fn merge(&mut self, other: &ExpenseAggregator) -> (ok: bool)
        requires
            old(self).wf(),
            other.wf(),
        ensures
            final(self).wf(),
            ok == merge_fits(old(self).as_map(), other.records@),
            ok ==> final(self).as_map() == merge_map(old(self).as_map(), other.records@),
            ok ==> final(self).key_seq() == old(self).key_seq() + first_seen_keys(
                old(self).as_map().dom(),
                other.key_seq(),
            ),
            !ok ==> final(self).records@ == old(self).records@,
    {
        let ghost os = other.records@;
        let ghost s0 = self.records@;
        let ghost m0 = self.as_map();
        let ghost ks0 = self.key_seq();
        let saved = Self::clone_records(&self.records);
        let n: usize = other.records.len();
        let mut failed = false;
        let mut i: usize = 0;
        proof {
            assert(os.take(0) =~= Seq::<ExpenseRecord>::empty());
            assert(keys_of(os).skip(0) =~= keys_of(os));
        }
        while i < n
            invariant_except_break
                os == other.records@,
                other.wf(),
                saved@ == s0,
                m0 == map_of(s0),
                ks0 == keys_of(s0),
                n == os.len(),
                i <= n,
                !failed,
                self.wf(),
                self.as_map() == merge_map(m0, os.take(i as int)),
                merge_fits(m0, os.take(i as int)),
                ks0 + first_seen_keys(m0.dom(), keys_of(os)) =~= self.key_seq() + first_seen_keys(
                    self.as_map().dom(),
                    keys_of(os).skip(i as int),
                ),
            ensures
                os == other.records@,
                saved@ == s0,
                self.wf(),
                !failed ==> {
                    &&& i == n
                    &&& self.as_map() == merge_map(m0, os.take(i as int))
                    &&& merge_fits(m0, os.take(i as int))
                    &&& ks0 + first_seen_keys(m0.dom(), keys_of(os)) =~= self.key_seq()
                        + first_seen_keys(self.as_map().dom(), keys_of(os).skip(i as int))
                },
                failed ==> !merge_fits(m0, os),
            decreases n - i,
        {
            let ghost m_cur = self.as_map();
            let ghost ks_cur = self.key_seq();
            let count: usize = other.records[i].transaction_count;
            let fees: u64 = other.records[i].total_fees_lamports;
            let ok = self.bump_one(&other.records[i].account, &other.records[i].program_id, count, fees);
            proof {
                assert((other.records@[i as int].account@, other.records@[i as int].program_id@)
                    == os[i as int].key());
            }
            if !ok {
                failed = true;
                proof {
                    if merge_fits(m0, os) {
                        lemma_merge_fits_prefix(m0, os, i as int);
                    }
                }
                break ;
            }
            proof {
                let k: SpecKey = os[i as int].key();
                assert(os.take(i + 1).drop_last() =~= os.take(i as int));
                assert(os.take(i + 1).last() == os[i as int]);
                assert(self.as_map() == merge_map(m0, os.take(i + 1)));
                assert(merge_fits(m0, os.take(i + 1)));
                let rk = keys_of(os).skip(i as int);
                assert(rk[0] == k);
                assert(rk.drop_first() =~= keys_of(os).skip(i + 1));
                assert(self.as_map().dom() =~= m_cur.dom().insert(k));
                if m_cur.dom().contains(k) {
                    assert(self.as_map().dom() =~= m_cur.dom());
                    assert(first_seen_keys(m_cur.dom(), rk) == first_seen_keys(
                        self.as_map().dom(),
                        rk.drop_first(),
                    ));
                } else {
                    assert(first_seen_keys(m_cur.dom(), rk) == seq![k] + first_seen_keys(
                        m_cur.dom().insert(k),
                        rk.drop_first(),
                    ));
                    assert(ks_cur + first_seen_keys(m_cur.dom(), rk) =~= ks_cur.push(k)
                        + first_seen_keys(self.as_map().dom(), rk.drop_first()));
                }
            }
            i = i + 1;
        }
        if failed {
            self.records = saved;
            return false;
        }
        proof {
            assert(os.take(n as int) =~= os);
            assert(keys_of(os).skip(n as int) =~= Seq::<SpecKey>::empty());
            assert(first_seen_keys(self.as_map().dom(), keys_of(os).skip(n as int)) =~= Seq::<
                SpecKey,
            >::empty());
            assert(self.key_seq() + Seq::<SpecKey>::empty() =~= self.key_seq());
            assert(self.key_seq() =~= ks0 + first_seen_keys(m0.dom(), keys_of(os)));
        }
        true
    }
}

/// Two bucket bumps commute, whether or not they hit the same key.
pub proof fn lemma_bump_comm(
    m: Map<SpecKey, SpecBucket>,
    k1: SpecKey,
    c1: int,
    f1: int,
    k2: SpecKey,
    c2: int,
    f2: int,
)
    ensures
        bump(bump(m, k1, c1, f1), k2, c2, f2) == bump(bump(m, k2, c2, f2), k1, c1, f1),
{
    if k1 == k2 {
        assert(bump(bump(m, k1, c1, f1), k2, c2, f2) =~= bump(bump(m, k2, c2, f2), k1, c1, f1));
    } else {
        assert(bump(bump(m, k1, c1, f1), k2, c2, f2) =~= bump(bump(m, k2, c2, f2), k1, c1, f1));
    }
}

/// A record fold commutes with a single bump.
pub proof fn lemma_apply_ids_bump_comm(
    m: Map<SpecKey, SpecBucket>,
    account: Seq<char>,
    ids: Seq<Seq<char>>,
    fee: int,
    k: SpecKey,
    c: int,
    f: int,
)
    ensures
        apply_ids(bump(m, k, c, f), account, ids, fee) == bump(
            apply_ids(m, account, ids, fee),
            k,
            c,
            f,
        ),
    decreases ids.len(),
{
    if ids.len() == 0 {
    } else {
        lemma_apply_ids_bump_comm(m, account, ids.drop_last(), fee, k, c, f);
        lemma_bump_comm(
            apply_ids(m, account, ids.drop_last(), fee),
            k,
            c,
            f,
            (account, ids.last()),
            1,
            fee,
        );
    }
}

/// Folding two records into the aggregate commutes.
pub proof fn lemma_apply_record_comm(m: Map<SpecKey, SpecBucket>, r1: FeeRecordView, r2: FeeRecordView)
    ensures
        apply_record(apply_record(m, r1), r2) == apply_record(apply_record(m, r2), r1),
    decreases r2.ids.len(),
{
    if r2.ids.len() == 0 {
    } else {
        let shorter = FeeRecordView { account: r2.account, fee: r2.fee, ids: r2.ids.drop_last() };
        lemma_apply_record_comm(m, r1, shorter);
        lemma_apply_ids_bump_comm(
            apply_ids(m, r2.account, r2.ids.drop_last(), r2.fee),
            r1.account,
            r1.ids,
            r1.fee,
            (r2.account, r2.ids.last()),
            1,
            r2.fee,
        );
    }
}

/// Folding a sequence of records equals folding it with any one record
/// pulled out and applied last.
pub proof fn lemma_aggregate_pull_out(m: Map<SpecKey, SpecBucket>, rs: Seq<FeeRecordView>, j: int)
    requires
        0 <= j < rs.len(),
    ensures
        aggregate_records(m, rs) == apply_record(aggregate_records(m, rs.remove(j)), rs[j]),
    decreases rs.len(),
{
    if j == rs.len() - 1 {
        assert(rs.remove(j) =~= rs.drop_last());
    } else {
        assert(rs.remove(j).drop_last() =~= rs.drop_last().remove(j));
        assert(rs.remove(j).last() == rs.last());
        lemma_aggregate_pull_out(m, rs.drop_last(), j);
        lemma_apply_record_comm(aggregate_records(m, rs.drop_last().remove(j)), rs[j], rs.last());
    }
}

/// Aggregation is order independent: two streams holding the same
/// records (as a multiset) fold to the same aggregate map, whatever
/// order they arrived in.
pub proof fn lemma_aggregation_permutation(
    m: Map<SpecKey, SpecBucket>,
    s1: Seq<FeeRecordView>,
    s2: Seq<FeeRecordView>,
)
    requires
        s1.to_multiset() == s2.to_multiset(),
    ensures
        aggregate_records(m, s1) == aggregate_records(m, s2),
    decreases s1.len(),
{
    s1.to_multiset_ensures();
    s2.to_multiset_ensures();
    if s1.len() == 0 {
        assert(s2.to_multiset().len() == 0);
        assert(s2.len() == 0);
    } else {
        let x = s1.last();
        assert(s1.contains(x));
        assert(s1.to_multiset().count(x) > 0);
        assert(s2.to_multiset().count(x) > 0);
        assert(s2.contains(x));
        let j = choose|j: int| 0 <= j < s2.len() && s2[j] == x;
        assert(s1.drop_last() =~= s1.remove(s1.len() - 1));
        assert(s1.remove(s1.len() - 1).to_multiset() =~= s1.to_multiset().remove(x));
        assert(s2.remove(j).to_multiset() =~= s2.to_multiset().remove(x));
        assert(s1.drop_last().to_multiset() == s2.remove(j).to_multiset());
        lemma_aggregation_permutation(m, s1.drop_last(), s2.remove(j));
        lemma_aggregate_pull_out(m, s2, j);
    }
}

/// Folding a concatenation is folding the two halves in turn.
pub proof fn lemma_aggregate_concat(
    m: Map<SpecKey, SpecBucket>,
    s1: Seq<FeeRecordView>,
    s2: Seq<FeeRecordView>,
)
    ensures
        aggregate_records(m, s1 + s2) == aggregate_records(aggregate_records(m, s1), s2),
    decreases s2.len(),
{
    if s2.len() == 0 {
        assert(s1 + s2 =~= s1);
    } else {
        assert((s1 + s2).drop_last() =~= s1 + s2.drop_last());
        assert((s1 + s2).last() == s2.last());
        lemma_aggregate_concat(m, s1, s2.drop_last());
    }
}

/// Folding burst by burst equals folding the concatenated stream: the
/// grouping of records into bursts, of any sizes, does not affect the
/// aggregate.
pub open spec fn aggregate_bursts(
    m: Map<SpecKey, SpecBucket>,
    bursts: Seq<Seq<FeeRecordView>>,
) -> Map<SpecKey, SpecBucket>
    decreases bursts.len(),
{
    if bursts.len() == 0 {
        m
    } else {
        aggregate_records(aggregate_bursts(m, bursts.drop_last()), bursts.last())
    }
}

/// Processing bursts one after the other yields exactly the fold of the
/// whole flattened stream; with [`lemma_aggregation_permutation`], any
/// partition of any reordering of the records gives the same aggregate.
pub proof fn lemma_aggregation_bursts(m: Map<SpecKey, SpecBucket>, bursts: Seq<Seq<FeeRecordView>>)
    ensures
        aggregate_bursts(m, bursts) == aggregate_records(m, bursts.flatten()),
    decreases bursts.len(),
{
    bursts.lemma_flatten_and_flatten_alt_are_equivalent();
    if bursts.len() == 0 {
        assert(bursts.flatten_alt() =~= Seq::<FeeRecordView>::empty());
    } else {
        lemma_aggregation_bursts(m, bursts.drop_last());
        bursts.drop_last().lemma_flatten_and_flatten_alt_are_equivalent();
        lemma_aggregate_concat(m, bursts.drop_last().flatten_alt(), bursts.last());
    }
}

/// Grand totals over all processed transactions of a run: how many
/// transactions were processed and what they paid in fees, each counted
/// once per transaction regardless of how many programs it touched.
pub struct RunTotals {
    /// Transactions processed (fetched, decoded, and attributed).
    pub processed: usize,
    /// Their summed fees, in lamports.
    pub total_fees_lamports: u64,
}

impl RunTotals {
    /// Fresh totals: nothing processed yet.
    pub fn new() -> (t: RunTotals)
        ensures
            t.processed == 0,
            t.total_fees_lamports == 0,
    {
        RunTotals { processed: 0, total_fees_lamports: 0 }
    }

    /// Add one completed batch: `processed` more transactions paying
    /// `fees` lamports altogether. Returns false, changing nothing,
    /// exactly when a counter would overflow.
    pub fn absorb(&mut self, processed: usize, fees: u128) -> (ok: bool)
        ensures
            ok == (old(self).processed + processed <= usize::MAX && old(
                self,
            ).total_fees_lamports + fees <= u64::MAX),
            ok ==> final(self).processed == old(self).processed + processed,
            ok ==> final(self).total_fees_lamports == old(self).total_fees_lamports + fees,
            !ok ==> *final(self) == *old(self),
    {
        if processed > usize::MAX - self.processed {
            return false;
        }
        if fees > (u64::MAX - self.total_fees_lamports) as u128 {
            return false;
        }
        self.processed = self.processed + processed;
        self.total_fees_lamports = self.total_fees_lamports + (fees as u64);
        true
    }
}

/// The totals a key carries in the map: `(0, 0)` for an untouched key.
pub open spec fn bucket_or_zero(m: Map<SpecKey, SpecBucket>, k: SpecKey) -> SpecBucket {
    if m.dom().contains(k) {
        m[k]
    } else {
        (0int, 0int)
    }
}

/// How often program `p` occurs in one record's identifier list.
pub open spec fn occurrences(ids: Seq<Seq<char>>, p: Seq<char>) -> int
    decreases ids.len(),
{
    if ids.len() == 0 {
        0
    } else {
        occurrences(ids.drop_last(), p) + if ids.last() == p {
            1int
        } else {
            0int
        }
    }
}

/// How many occurrences of key `k` a record stream carries in all.
pub open spec fn stream_count(rs: Seq<FeeRecordView>, k: SpecKey) -> int
    decreases rs.len(),
{
    if rs.len() == 0 {
        0
    } else {
        stream_count(rs.drop_last(), k) + if rs.last().account == k.0 {
            occurrences(rs.last().ids, k.1)
        } else {
            0int
        }
    }
}

/// The fee total key `k` earns from a record stream: each record
/// contributes its whole fee once per occurrence.
pub open spec fn stream_fees(rs: Seq<FeeRecordView>, k: SpecKey) -> int
    decreases rs.len(),
{
    if rs.len() == 0 {
        0
    } else {
        stream_fees(rs.drop_last(), k) + if rs.last().account == k.0 {
            rs.last().fee * occurrences(rs.last().ids, k.1)
        } else {
            0int
        }
    }
}

/// Folding one record moves every bucket by exactly that record's
/// occurrence count and fee-weighted occurrence count for the bucket's
/// key.
pub proof fn lemma_apply_ids_pointwise(
    m: Map<SpecKey, SpecBucket>,
    account: Seq<char>,
    ids: Seq<Seq<char>>,
    fee: int,
    k: SpecKey,
)
    ensures
        bucket_or_zero(apply_ids(m, account, ids, fee), k).0 == bucket_or_zero(m, k).0 + if account
            == k.0 {
            occurrences(ids, k.1)
        } else {
            0int
        },
        bucket_or_zero(apply_ids(m, account, ids, fee), k).1 == bucket_or_zero(m, k).1 + if account
            == k.0 {
            fee * occurrences(ids, k.1)
        } else {
            0int
        },
    decreases ids.len(),
{
    if ids.len() == 0 {
    } else {
        lemma_apply_ids_pointwise(m, account, ids.drop_last(), fee, k);
        let prev = apply_ids(m, account, ids.drop_last(), fee);
        let kk: SpecKey = (account, ids.last());
        if kk == k {
            assert(fee * occurrences(ids, k.1) == fee * occurrences(ids.drop_last(), k.1) + fee)
                by (nonlinear_arith)
                requires
                    occurrences(ids, k.1) == occurrences(ids.drop_last(), k.1) + 1,
            ;
        } else {
            if account == k.0 {
                assert(occurrences(ids, k.1) == occurrences(ids.drop_last(), k.1));
            }
        }
    }
}

/// The aggregate, bucket by bucket: after folding a record stream, each
/// key's count has grown by the stream's occurrence count for that key,
/// and its fee total by the stream's fee-weighted occurrence count.
/// This is the whole aggregation contract in one line per counter.
pub proof fn lemma_aggregate_pointwise(
    m: Map<SpecKey, SpecBucket>,
    rs: Seq<FeeRecordView>,
    k: SpecKey,
)
    ensures
        bucket_or_zero(aggregate_records(m, rs), k).0 == bucket_or_zero(m, k).0 + stream_count(
            rs,
            k,
        ),
        bucket_or_zero(aggregate_records(m, rs), k).1 == bucket_or_zero(m, k).1 + stream_fees(
            rs,
            k,
        ),
    decreases rs.len(),
{
    if rs.len() == 0 {
    } else {
        lemma_aggregate_pointwise(m, rs.drop_last(), k);
        lemma_apply_ids_pointwise(
            aggregate_records(m, rs.drop_last()),
            rs.last().account,
            rs.last().ids,
            rs.last().fee,
            k,
        );
    }
}

/// Merging a finished aggregate is bucket-wise addition: every key ends
/// up with the sum of its counts and the sum of its fee totals from the
/// two sides. This is what makes per-account partial aggregates safe to
/// fold into the cross-account map after each account completes.
pub proof fn lemma_merge_pointwise(m: Map<SpecKey, SpecBucket>, s: Seq<ExpenseRecord>, k: SpecKey)
    requires
        forall|p: int, q: int|
            0 <= p < q < s.len() ==> (#[trigger] s[p]).key() != (#[trigger] s[q]).key(),
    ensures
        bucket_or_zero(merge_map(m, s), k).0 == bucket_or_zero(m, k).0 + bucket_or_zero(
            map_of(s),
            k,
        ).0,
        bucket_or_zero(merge_map(m, s), k).1 == bucket_or_zero(m, k).1 + bucket_or_zero(
            map_of(s),
            k,
        ).1,
    decreases s.len(),
{
    if s.len() == 0 {
    } else {
        lemma_merge_pointwise(m, s.drop_last(), k);
        if k == s.last().key() {
            assert(!map_of(s.drop_last()).dom().contains(k)) by {
                lemma_map_of_dom(s.drop_last());
                if keys_of(s.drop_last()).to_set().contains(k) {
                    let j = choose|j: int|
                        0 <= j < keys_of(s.drop_last()).len() && keys_of(s.drop_last())[j] == k;
                    assert(s[j].key() == s.last().key());
                    assert(s[j] == s.drop_last()[j]);
                }
            }
        }
    }
}

/// A transaction's fee is attributed whole to every program it invoked,
/// not split among them: a record with fee `F` touching two distinct
/// programs raises both their fee totals by the full `F` (and both
/// counts by one), and touches nothing else.
pub proof fn lemma_fee_double_counting(m: Map<SpecKey, SpecBucket>, r: FeeRecordView)
    requires
        r.ids.len() == 2,
        r.ids[0] != r.ids[1],
    ensures
        ({
            let ka = (r.account, r.ids[0]);
            let kb = (r.account, r.ids[1]);
            &&& apply_record(m, r).dom().contains(ka)
            &&& apply_record(m, r).dom().contains(kb)
            &&& apply_record(m, r)[ka] == (
                bucket_or_zero(m, ka).0 + 1,
                bucket_or_zero(m, ka).1 + r.fee,
            )
            &&& apply_record(m, r)[kb] == (
                bucket_or_zero(m, kb).0 + 1,
                bucket_or_zero(m, kb).1 + r.fee,
            )
            &&& forall|k: SpecKey|
                k != ka && k != kb ==> bucket_or_zero(apply_record(m, r), k) == bucket_or_zero(
                    m,
                    k,
                )
        }),
{
    let ka = (r.account, r.ids[0]);
    let kb = (r.account, r.ids[1]);
    assert(r.ids.drop_last().drop_last() =~= Seq::<Seq<char>>::empty());
    assert(r.ids.drop_last().last() == r.ids[0]);
    assert(r.ids.last() == r.ids[1]);
    assert(apply_ids(m, r.account, r.ids.drop_last().drop_last(), r.fee) == m);
    assert(apply_ids(m, r.account, r.ids.drop_last(), r.fee) == bump(m, ka, 1, r.fee));
    assert(apply_ids(m, r.account, r.ids, r.fee) == bump(bump(m, ka, 1, r.fee), kb, 1, r.fee));
    assert(ka != kb);
}

} // verus!
