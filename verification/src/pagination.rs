//! Backward pagination over an account's transaction history.
//!
//! A remote node serves the history newest-first in pages. The first
//! request is unconstrained; every later request asks only for entries
//! strictly older than the last one already received, using that entry as
//! an exclusive cursor. The walk stops once a caller-chosen target count
//! has been collected (truncating to exactly that count) or a page comes
//! back empty (history exhausted).
//!
//! The paginator itself is a state machine over plain values: the caller
//! fetches each page and feeds it in with [`SignaturePaginator::absorb_page`].
//! [`paginate_history`] runs the same state machine against an in-memory
//! history and shows that the walk returns exactly the newest
//! `min(limit, history len)` entries, in order, and terminates.

use vstd::prelude::*;

verus! {

/// Collects transaction signatures for one account, newest first,
/// up to a target count.
pub struct SignaturePaginator {
    /// Target number of signatures to collect.
    pub limit: usize,
    /// Signatures collected so far, newest first.
    pub collected: Vec<String>,
    /// Whether the walk is finished (target reached or history exhausted).
    pub done: bool,
}

impl SignaturePaginator {
    /// The paginator never holds more than `limit` signatures, and is
    /// marked done as soon as it holds exactly `limit`.
    pub open spec fn wf(self) -> bool {
        &&& self.collected@.len() <= self.limit
        &&& !self.done ==> self.collected@.len() < self.limit
    }

    /// A fresh walk aiming for `limit` signatures; a zero target is
    /// finished before it starts.
    pub fn new(limit: usize) -> (p: SignaturePaginator)
        ensures
            p.wf(),
            p.limit == limit,
            p.collected@ =~= Seq::<String>::empty(),
            p.done == (limit == 0),
    {
        SignaturePaginator { limit, collected: Vec::new(), done: limit == 0 }
    }

    /// True once no further page should be requested.
    pub fn is_done(&self) -> (d: bool)
        ensures
            d == self.done,
    {
        self.done
    }

    /// The exclusive cursor for the next page request: none for the first
    /// request, otherwise the last signature received.
    pub fn cursor(&self) -> (c: Option<String>)
        ensures
            self.collected@.len() == 0 ==> c is None,
            self.collected@.len() > 0 ==> c == Some(self.collected@.last()),
    {
        if self.collected.len() == 0 {
            None
        } else {
            Some(self.collected[self.collected.len() - 1].clone())
        }
    }

    /// Feed in the next page of history. An empty page ends the walk with
    /// what was collected; otherwise the page is appended and, once the
    /// target count is reached, the collection is cut to exactly the
    /// target and the walk ends.
    pub fn absorb_page(&mut self, page: Vec<String>)
        requires
            old(self).wf(),
            !old(self).done,
        ensures
            final(self).wf(),
            final(self).limit == old(self).limit,
            page@.len() == 0 ==> {
                &&& final(self).done
                &&& final(self).collected@ == old(self).collected@
            },
            page@.len() > 0 ==> {
                &&& final(self).collected@ == (old(self).collected@ + page@).take(
                    vstd::math::min(
                        old(self).limit as int,
                        old(self).collected@.len() + page@.len() as int,
                    ),
                )
                &&& final(self).done == (old(self).collected@.len() + page@.len()
                    >= old(self).limit)
            },
    {
        if page.len() == 0 {
            self.done = true;
            return ;
        }
        let ghost prev = self.collected@;
        let ghost pv = page@;
        let mut page = page;
        self.collected.append(&mut page);
        assert(self.collected@ == prev + pv);
        if self.collected.len() >= self.limit {
            self.collected.truncate(self.limit);
            self.done = true;
        }
        assert(self.collected@ =~= (prev + pv).take(
            vstd::math::min(self.limit as int, prev.len() + pv.len() as int),
        ));
    }
}

/// Run a complete pagination walk against an in-memory history (newest
/// first), serving pages of at most `page_size` entries the way the remote
/// node would: the page after a cursor holds the entries strictly older
/// than it. Returns exactly the newest `min(limit, history len)` entries.
///
/// This is the reference single-machine form of the walk: it shows that
/// cursor chaining loses nothing, duplicates nothing, keeps newest-first
/// order, and terminates even when the history is shorter than the target.
pub fn paginate_history(history: &Vec<String>, limit: usize, page_size: usize) -> (r: Vec<String>)
    requires
        page_size >= 1,
    ensures
        r@ == history@.take(vstd::math::min(limit as int, history@.len() as int)),
{
    let mut p = SignaturePaginator::new(limit);
    while !p.is_done()
        invariant
            page_size >= 1,
            p.wf(),
            p.limit == limit,
            p.collected@.len() <= history@.len(),
            p.collected@ == history@.take(p.collected@.len() as int),
            p.done ==> p.collected@.len() == vstd::math::min(
                limit as int,
                history@.len() as int,
            ),
        decreases history@.len() - p.collected@.len() + (if p.done { 0int } else { 1int }),
    {
        let start: usize = p.collected.len();
        let mut page: Vec<String> = Vec::new();
        let mut i: usize = start;
        while i < history.len() && i - start < page_size
            invariant
                start <= i <= history@.len(),
                i - start <= page_size,
                page@ =~= history@.subrange(start as int, i as int),
            decreases history@.len() - i,
        {
            page.push(history[i].clone());
            i = i + 1;
        }
        let ghost page_view = page@;
        let ghost prev = p.collected@;
        p.absorb_page(page);
        proof {
            if page_view.len() == 0 {
                assert(start == history@.len());
            } else {
                let m = vstd::math::min(limit as int, prev.len() + page_view.len() as int);
                assert(prev + page_view =~= history@.take(i as int));
                assert(p.collected@ =~= history@.take(m));
            }
        }
    }
    p.collected
}

} // verus!
