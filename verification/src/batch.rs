//! The batch run: page planning and per-page bookkeeping.
//!
//! A run partitions the record listing into fixed-size pages.  Each page is
//! one unit of work: list its identifiers, then for each one fetch the
//! record, transform it, and write it back only when it changed.  Failures
//! are recorded against the identifier (or the page) that caused them and
//! never stop the rest of the page.  The caller performs the calls; the
//! worker here decides what to do next and accounts for every outcome.

use vstd::prelude::*;

use crate::document::Value;
use crate::errors::ClientError;
use crate::transform::{spec_transform, transform_record, Transformed, TransformConfig,
    TransformNote};

verus! {

/// The last page offset a run dispatches: the requested end, capped by the
/// last page the total allows.
pub fn last_page_offset(to_offset: Option<usize>, total: usize, limit: usize) -> (r: usize)
    requires
        limit >= 1,
    ensures
        r == (match to_offset {
            Some(t) => if t < total as int / limit as int {
                t as int
            } else {
                total as int / limit as int
            },
            None => total as int / limit as int,
        }),
{
    let last = total / limit;
    match to_offset {
        Some(t) => if t < last {
            t
        } else {
            last
        },
        None => last,
    }
}

/// The record offset a page starts at.
pub fn page_start(page: usize, limit: usize) -> (r: usize)
    requires
        page * limit <= usize::MAX,
    ensures
        r == page * limit,
{
    page * limit
}

/// Pagination coverage, existence: every record index from the first
/// dispatched offset up to the total lies inside the window of exactly the
/// page numbered by its quotient, and that page is dispatched.
pub proof fn lemma_pagination_covers(
    from: int,
    to: Option<int>,
    total: int,
    limit: int,
    r: int,
)
    requires
        limit >= 1,
        0 <= from,
        from * limit <= r < total,
        match to {
            Some(t) => r < (t + 1) * limit && t >= from,
            None => true,
        },
    ensures
        ({
            let last = match to {
                Some(t) => if t < total / limit {
                    t
                } else {
                    total / limit
                },
                None => total / limit,
            };
            let p = r / limit;
            from <= p <= last && p * limit <= r < p * limit + limit
        }),
{
    let p = r / limit;
    vstd::arithmetic::div_mod::lemma_fundamental_div_mod(r, limit);
    vstd::arithmetic::div_mod::lemma_mod_bound(r, limit);
    assert(limit * (r / limit) == (r / limit) * limit) by (nonlinear_arith);
    assert(p * limit <= r < p * limit + limit);
    // from <= p: otherwise p <= from - 1, so r < (p + 1) * limit <= from * limit.
    assert(from <= p) by (nonlinear_arith)
        requires
            from * limit <= r,
            p * limit <= r < p * limit + limit,
            limit >= 1,
            0 <= from,
    ;
    // p <= total / limit: p * limit <= r < total.
    let q = total / limit;
    vstd::arithmetic::div_mod::lemma_fundamental_div_mod(total, limit);
    vstd::arithmetic::div_mod::lemma_mod_bound(total, limit);
    assert(p <= q) by (nonlinear_arith)
        requires
            p * limit <= r,
            r < total,
            total < q * limit + limit,
            q * limit <= total,
            limit >= 1,
    ;
    match to {
        Some(t) => {
            assert(p <= t) by (nonlinear_arith)
                requires
                    p * limit <= r,
                    r < (t + 1) * limit,
                    limit >= 1,
            ;
        },
        None => {},
    }
}

/// Pagination coverage, uniqueness: the windows of two distinct pages are
/// disjoint — no record offset is fetched by two pages.
pub proof fn lemma_pages_disjoint(p1: int, p2: int, limit: int, r: int)
    requires
        limit >= 1,
        p1 != p2,
        p1 * limit <= r < p1 * limit + limit,
    ensures
        !(p2 * limit <= r < p2 * limit + limit),
{
    assert(!(p2 * limit <= r < p2 * limit + limit)) by (nonlinear_arith)
        requires
            limit >= 1,
            p1 != p2,
            p1 * limit <= r < p1 * limit + limit,
    ;
}

/// The fate of one identifier within a page.
pub enum PageOutcome {
    /// Fetched, changed, written back.
    Updated,
    /// Fetched, nothing to write back.
    Unchanged,
    /// The fetch failed; recorded, the page went on.
    FetchFailed,
    /// The write-back failed; recorded, the page went on.
    ReplaceFailed,
}

pub open spec fn count_updated(outs: Seq<PageOutcome>) -> int
    decreases outs.len(),
{
    if outs.len() == 0 {
        0
    } else {
        count_updated(outs.drop_last()) + (if outs.last() is Updated {
            1int
        } else {
            0int
        })
    }
}

/// The identifiers whose outcome is a recorded failure, in page order.
pub open spec fn failed_ids(ids: Seq<Seq<char>>, outs: Seq<PageOutcome>) -> Seq<Seq<char>>
    decreases outs.len(),
{
    if outs.len() == 0 || outs.len() > ids.len() {
        Seq::empty()
    } else if outs.last() is FetchFailed || outs.last() is ReplaceFailed {
        failed_ids(ids, outs.drop_last()).push(ids[outs.len() - 1])
    } else {
        failed_ids(ids, outs.drop_last())
    }
}

/// One page's worker: which identifier is up, what has been decided, and
/// the per-page tally.  The caller performs the fetches and write-backs and
/// reports each result; the worker decides and accounts.
pub struct PageWorker {
    pub ids: Vec<String>,
    /// Identifiers fully decided so far.
    pub done: usize,
    /// Whether a write-back for `ids[done]` is in flight.
    pub replacing: bool,
    pub updated: usize,
    pub failures: Vec<(String, ClientError)>,
    /// The decided outcomes, in order.
    pub outcomes: Ghost<Seq<PageOutcome>>,
}

impl PageWorker {
    pub open spec fn wf(self) -> bool {
        &&& self.done <= self.ids@.len()
        &&& self.replacing ==> self.done < self.ids@.len()
        &&& self.outcomes@.len() == self.done
        &&& self.updated as int == count_updated(self.outcomes@)
        &&& self.failures@.len() == failed_ids(
            self.ids.deep_view().take(self.done as int),
            self.outcomes@,
        ).len()
        &&& forall|i: int|
            0 <= i < self.failures@.len() ==> self.failures@[i].0@ == failed_ids(
                self.ids.deep_view().take(self.done as int),
                self.outcomes@,
            )[i]
    }

    /// A worker for one page's identifiers, in listing order.
    pub fn new(ids: Vec<String>) -> (r: PageWorker)
        ensures
            r.wf(),
            r.ids == ids,
            r.done == 0,
            !r.replacing,
            r.updated == 0,
            r.failures@.len() == 0,
            r.outcomes@ == Seq::<PageOutcome>::empty(),
    {
        let w = PageWorker {
            ids,
            done: 0,
            replacing: false,
            updated: 0,
            failures: Vec::new(),
            outcomes: Ghost(Seq::empty()),
        };
        proof {
            assert(w.ids.deep_view().take(0) =~= Seq::<Seq<char>>::empty());
        }
        w
    }

    /// The identifier to fetch next; `None` when the page is finished.
    pub fn next_to_fetch(&self) -> (r: Option<String>)
        requires
            self.wf(),
            !self.replacing,
        ensures
            match r {
                Some(id) => self.done < self.ids@.len() && id@ == self.ids@[
                    self.done as int
                ]@,
                None => self.done == self.ids@.len(),
            },
    {
        if self.done < self.ids.len() {
            Some(self.ids[self.done].clone())
        } else {
            None
        }
    }

    /// Record that fetching the current identifier failed: one recorded
    /// failure, and the page moves on.
    pub fn fetch_failed(&mut self, err: ClientError)
        requires
            old(self).wf(),
            !old(self).replacing,
            old(self).done < old(self).ids@.len(),
        ensures
            final(self).wf(),
            final(self).ids == old(self).ids,
            !final(self).replacing,
            final(self).done == old(self).done + 1,
            final(self).updated == old(self).updated,
            final(self).outcomes@ == old(self).outcomes@.push(PageOutcome::FetchFailed),
            final(self).failures@ == old(self).failures@.push(
                (old(self).ids@[old(self).done as int], err),
            ),
    {
        let n: usize = self.ids.len();
        let id = self.ids[self.done].clone();
        self.failures.push((id, err));
        self.done = self.done + 1;
        proof {
            self.outcomes@ = self.outcomes@.push(PageOutcome::FetchFailed);
            assert(self.outcomes@.drop_last() =~= old(self).outcomes@);
            assert(self.outcomes@.last() == PageOutcome::FetchFailed);
            lemma_tally_step(self.ids.deep_view(), self.outcomes@, self.done as int);
        }
    }

    /// Decide on a fetched record: when the rule changes it, the edited
    /// document to write back is returned and the worker awaits the result;
    /// otherwise the identifier is done.  The notes are the rule's
    /// observations on this record, for the caller to report.
    #[verifier::rlimit(50)]
    pub fn fetched(&mut self, record: &Value, config: &TransformConfig) -> (r: (
        Option<Value>,
        Vec<TransformNote>,
    ))
        requires
            old(self).wf(),
            !old(self).replacing,
            old(self).done < old(self).ids@.len(),
        ensures
            final(self).wf(),
            final(self).ids == old(self).ids,
            final(self).updated == old(self).updated,
            final(self).failures@ == old(self).failures@,
            match r.0 {
                Some(v) => spec_transform(record.dview(), config.deep_view()) == Some(v.dview())
                    && final(self).replacing
                    && final(self).done == old(self).done
                    && final(self).outcomes@ == old(self).outcomes@,
                None => spec_transform(record.dview(), config.deep_view()) is None
                    && !final(self).replacing
                    && final(self).done == old(self).done + 1
                    && final(self).outcomes@ == old(self).outcomes@.push(PageOutcome::Unchanged),
            },
            r.1.deep_view() == crate::transform::spec_notes(record.dview(), config.deep_view()),
    {
        let (outcome, notes) = transform_record(record, config);
        match outcome {
            Transformed::Unchanged => {
                let n: usize = self.ids.len();
                assert(self.done < n);
                self.done = self.done + 1;
                proof {
                    self.outcomes@ = self.outcomes@.push(PageOutcome::Unchanged);
                    assert(self.outcomes@.drop_last() =~= old(self).outcomes@);
                    assert(self.outcomes@.last() == PageOutcome::Unchanged);
                    lemma_tally_step(self.ids.deep_view(), self.outcomes@, self.done as int);
                }
                (None, notes)
            },
            Transformed::Changed(v) => {
                self.replacing = true;
                (Some(v), notes)
            },
        }
    }

    /// Record that the write-back succeeded: one more record updated.
    pub fn replace_ok(&mut self)
        requires
            old(self).wf(),
            old(self).replacing,
            old(self).updated < usize::MAX,
        ensures
            final(self).wf(),
            final(self).ids == old(self).ids,
            !final(self).replacing,
            final(self).done == old(self).done + 1,
            final(self).updated == old(self).updated + 1,
            final(self).failures@ == old(self).failures@,
            final(self).outcomes@ == old(self).outcomes@.push(PageOutcome::Updated),
    {
        let n: usize = self.ids.len();
        assert(self.done < n);
        self.updated = self.updated + 1;
        self.replacing = false;
        self.done = self.done + 1;
        proof {
            self.outcomes@ = self.outcomes@.push(PageOutcome::Updated);
            assert(self.outcomes@.drop_last() =~= old(self).outcomes@);
            assert(self.outcomes@.last() == PageOutcome::Updated);
            lemma_tally_step(self.ids.deep_view(), self.outcomes@, self.done as int);
        }
    }

    /// Record that the write-back failed: one recorded failure, and the page
    /// moves on.
    pub fn replace_failed(&mut self, err: ClientError)
        requires
            old(self).wf(),
            old(self).replacing,
        ensures
            final(self).wf(),
            final(self).ids == old(self).ids,
            !final(self).replacing,
            final(self).done == old(self).done + 1,
            final(self).updated == old(self).updated,
            final(self).outcomes@ == old(self).outcomes@.push(PageOutcome::ReplaceFailed),
            final(self).failures@ == old(self).failures@.push(
                (old(self).ids@[old(self).done as int], err),
            ),
    {
        let n: usize = self.ids.len();
        assert(self.done < n);
        let id = self.ids[self.done].clone();
        self.failures.push((id, err));
        self.replacing = false;
        self.done = self.done + 1;
        proof {
            self.outcomes@ = self.outcomes@.push(PageOutcome::ReplaceFailed);
            assert(self.outcomes@.drop_last() =~= old(self).outcomes@);
            assert(self.outcomes@.last() == PageOutcome::ReplaceFailed);
            lemma_tally_step(self.ids.deep_view(), self.outcomes@, self.done as int);
        }
    }
}

/// One decision step keeps the tally functions in step with the outcome
/// list.
proof fn lemma_tally_step(ids: Seq<Seq<char>>, outs: Seq<PageOutcome>, done: int)
    requires
        outs.len() == done,
        0 < done <= ids.len(),
    ensures
        count_updated(outs) == count_updated(outs.drop_last()) + (if outs.last() is Updated {
            1int
        } else {
            0int
        }),
        failed_ids(ids.take(done), outs) == (if outs.last() is FetchFailed
            || outs.last() is ReplaceFailed {
            failed_ids(ids.take(done - 1), outs.drop_last()).push(ids[done - 1])
        } else {
            failed_ids(ids.take(done - 1), outs.drop_last())
        }),
{
    lemma_failed_ids_take(ids, outs.drop_last(), done);
    assert(ids.take(done)[done - 1] == ids[done - 1]);
}

/// `failed_ids` only reads the identifiers the outcomes reach.
proof fn lemma_failed_ids_take(ids: Seq<Seq<char>>, outs: Seq<PageOutcome>, k: int)
    requires
        outs.len() <= k <= ids.len(),
    ensures
        failed_ids(ids.take(k), outs) == failed_ids(ids.take(outs.len() as int), outs),
    decreases outs.len(),
{
    if outs.len() > 0 {
        lemma_failed_ids_take(ids, outs.drop_last(), k);
        lemma_failed_ids_take(ids, outs.drop_last(), outs.len() as int);
        assert(ids.take(k)[outs.len() - 1] == ids[outs.len() - 1]);
        assert(ids.take(outs.len() as int)[outs.len() - 1] == ids[outs.len() - 1]);
    }
}

/// Partial-failure isolation: when the fetch of one identifier in a page
/// fails, exactly that identifier is recorded as failed, and every other
/// identifier's outcome still counts — the page never stops early.
pub proof fn lemma_partial_failure_isolated(ids: Seq<Seq<char>>, outs: Seq<PageOutcome>, k: int)
    requires
        outs.len() == ids.len(),
        0 <= k < outs.len(),
        outs[k] is FetchFailed,
        forall|i: int| 0 <= i < outs.len() && i != k ==> !(#[trigger] outs[i] is FetchFailed)
            && !(outs[i] is ReplaceFailed),
    ensures
        failed_ids(ids, outs) == seq![ids[k]],
        count_updated(outs) == count_updated(outs.update(k, PageOutcome::Unchanged)),
    decreases outs.len(),
{
    lemma_failed_single(ids, outs, k);
    assert(ids.take(outs.len() as int) =~= ids);
    lemma_count_ignores_non_updated(outs, k);
}

proof fn lemma_failed_single(ids: Seq<Seq<char>>, outs: Seq<PageOutcome>, k: int)
    requires
        outs.len() <= ids.len(),
        0 <= k < outs.len(),
        outs[k] is FetchFailed,
        forall|i: int| 0 <= i < outs.len() && i != k ==> !(#[trigger] outs[i] is FetchFailed)
            && !(outs[i] is ReplaceFailed),
    ensures
        failed_ids(ids.take(outs.len() as int), outs) == seq![ids[k]],
    decreases outs.len(),
{
    lemma_failed_ids_take(ids, outs, outs.len() as int);
    lemma_failed_ids_take(ids, outs.drop_last(), outs.len() as int);
    if k == outs.len() - 1 {
        lemma_failed_none(ids, outs.drop_last());
        assert(ids.take(outs.len() as int)[outs.len() - 1] == ids[k]);
        assert(Seq::<Seq<char>>::empty().push(ids[k]) =~= seq![ids[k]]);
    } else {
        lemma_failed_single(ids, outs.drop_last(), k);
        assert(!(outs.last() is FetchFailed) && !(outs.last() is ReplaceFailed));
    }
}

proof fn lemma_failed_none(ids: Seq<Seq<char>>, outs: Seq<PageOutcome>)
    requires
        outs.len() <= ids.len(),
        forall|i: int| 0 <= i < outs.len() ==> !(#[trigger] outs[i] is FetchFailed) && !(
        outs[i] is ReplaceFailed),
    ensures
        failed_ids(ids.take(outs.len() as int), outs) == Seq::<Seq<char>>::empty(),
    decreases outs.len(),
{
    if outs.len() > 0 {
        lemma_failed_none(ids, outs.drop_last());
        lemma_failed_ids_take(ids, outs.drop_last(), outs.len() as int);
    }
}

proof fn lemma_count_ignores_non_updated(outs: Seq<PageOutcome>, k: int)
    requires
        0 <= k < outs.len(),
        !(outs[k] is Updated),
    ensures
        count_updated(outs) == count_updated(outs.update(k, PageOutcome::Unchanged)),
    decreases outs.len(),
{
    let outs2 = outs.update(k, PageOutcome::Unchanged);
    assert(outs2.len() == outs.len());
    if k == outs.len() - 1 {
        assert(outs2.drop_last() =~= outs.drop_last());
    } else {
        lemma_count_ignores_non_updated(outs.drop_last(), k);
        assert(outs2.drop_last() =~= outs.drop_last().update(k, PageOutcome::Unchanged));
        assert(outs2.last() == outs.last());
    }
}

} // verus!
