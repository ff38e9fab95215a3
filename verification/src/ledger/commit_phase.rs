//! The commit phase of a command: infallible bookkeeping, and nothing else.

use crate::ledger::keeps::{
    discharged_prefix_wf, quote_closed_wf, quote_rewritten_wf, request_rewritten_wf,
};
use crate::ledger::threads::link_at;
use crate::ledger::Ledger;
use crate::quote::{Quote, QuoteIdx};
use crate::request::{ReqIdx, Request};
use crate::reservation::{ResIdx, ResOwner};
use crate::slab::{mapped_commutes, replaced_wf};
use crate::types::Amount;
use vstd::prelude::*;

verus! {

/// The commit phase of a command.
///
/// No method here returns a `Result`, so no early return can leave a command half applied.
/// Every method states the precondition the check phase must already have established.
#[derive(Debug)]
pub struct CommitPhase<'a> {
    pub ledger: &'a mut Ledger,
}

impl Ledger {
    /// Enter the commit phase, which exposes **only infallible operations**.
    pub fn commit_phase(&mut self) -> (r: CommitPhase<'_>)
        ensures
            *r.ledger == *old(self),
            *final(r.ledger) == *final(self),
    {
        CommitPhase { ledger: self }
    }

    /// A quote, mutably. As long as the quote keeps its claim, the ledger stays well-formed and
    /// nothing else changes.
    pub(crate) fn quote_mut(&mut self, quote: QuoteIdx) -> (r: Option<&mut Quote>)
        requires
            old(self).wf(),
        ensures
            match r {
                Some(record) => {
                    &&& old(self)@.quotes.get(quote) == Some(*record)
                    &&& final(record).claim == record.claim ==> final(self).wf() && final(self)@
                        == old(self)@.quote_rewritten(quote, *final(record))
                },
                None => old(self)@.quotes.get(quote) is None && *final(self) == *old(self),
            },
    {
        let ghost before = *self;
        let ghost after = *final(self);
        match self.quotes.get_mut(quote) {
            Some(record) => {
                proof {
                    quote_overwritten(before, after, quote, *final(record));
                }
                Some(record)
            },
            None => None,
        }
    }

    /// A request, mutably. As long as the request keeps its claim and the head of its committed
    /// list, the ledger stays well-formed and nothing else changes.
    pub(crate) fn request_mut(&mut self, request: ReqIdx) -> (r: Option<&mut Request>)
        requires
            old(self).wf(),
        ensures
            match r {
                Some(record) => {
                    &&& old(self)@.requests.get(request) == Some(record.unthreaded())
                    &&& final(record).claim == record.claim && final(record).committed_head
                        == record.committed_head ==> final(self).wf() && final(self)@ == old(
                        self,
                    )@.request_rewritten(request, final(record).unthreaded())
                },
                None => old(self)@.requests.get(request) is None && *final(self) == *old(self),
            },
    {
        let ghost before = *self;
        let ghost after = *final(self);
        match self.requests.get_mut(request) {
            Some(record) => {
                proof {
                    request_overwritten(before, after, request, *final(record));
                }
                Some(record)
            },
            None => None,
        }
    }
}

/// Overwriting a quote's own fields, its claim left alone.
proof fn quote_overwritten(before: Ledger, after: Ledger, quote: QuoteIdx, record: Quote)
    requires
        before.wf(),
        before.quotes@.names(quote),
        after.accounts == before.accounts,
        after.contracts == before.contracts,
        after.reservations == before.reservations,
        after.requests == before.requests,
        after.quotes.wf(),
        after.quotes@ == before.quotes@.replaced(quote.index(), record),
    ensures
        record.claim == before.quotes@.of(quote).claim ==> after.wf() && after@
            == before@.quote_rewritten(quote, record),
{
    if record.claim == before.quotes@.of(quote).claim {
        quote_rewritten_wf(before@, quote, record);
        after.quotes_changed(before, before@.quote_rewritten(quote, record));
    }
}

/// Overwriting a request's own fields, its claim and its committed list left alone.
proof fn request_overwritten(before: Ledger, after: Ledger, request: ReqIdx, record: Request)
    requires
        before.wf(),
        before.requests@.names(request),
        after.accounts == before.accounts,
        after.contracts == before.contracts,
        after.reservations == before.reservations,
        after.quotes == before.quotes,
        after.requests.wf(),
        after.requests@ == before.requests@.replaced(request.index(), record),
    ensures
        record.claim == before.requests@.of(request).claim && record.committed_head
            == before.requests@.of(request).committed_head ==> after.wf() && after@
            == before@.request_rewritten(request, record.unthreaded()),
{
    let f = |request: Request| request.unthreaded();
    before.requests.wf_model();
    replaced_wf(before.requests@, request.index(), record);
    mapped_commutes(before.requests@, f, request.index(), record);
    mapped_commutes(before.requests@, f, request.index(), before.requests@.of(request));
    if record.claim == before.requests@.of(request).claim && record.committed_head
        == before.requests@.of(request).committed_head {
        request_rewritten_wf(before@, request, record.unthreaded());
        assert forall|r: int| 0 <= r < after.requests@.slots.len() implies {
            let now = #[trigger] after.requests@.slots[r];
            &&& now.value is Some ==> after.requests@.at(r as u32).committed_head == link_at(
                before@.lists[r],
                0,
            )
            &&& now.value is None ==> before@.lists[r].len() == 0
        } by {
            assert(before.list_threaded(r, before@.lists[r]));
        }
        after.requests_changed(before, before@.request_rewritten(request, record.unthreaded()));
    }
}

impl<'a> CommitPhase<'a> {
    /// Release a reserved claim and free its slot.
    ///
    /// Precondition, established in planning: `claim` resolves and is reserved.
    pub fn release(&mut self, claim: ResIdx)
        requires
            old(self).ledger.wf(),
            old(self).ledger@.release_refused(claim) is None,
        ensures
            final(self).ledger.wf(),
            final(self).ledger@ == old(self).ledger@.released(claim.index()),
            *final(final(self).ledger) == *final(old(self).ledger),
    {
        self.ledger.let_go(claim);
    }

    /// Move `keep` of a reserved claim onto `request`'s committed list, returning the remainder
    /// to `free`.
    ///
    /// The requester's claim is reserved at the limit before any price exists, and fills at the
    /// fill price, so the over-reservation is released here rather than by a second command:
    /// one claim, one transition, no window in which the difference belongs to neither bucket.
    ///
    /// Precondition, established in the check: `claim` resolves, is reserved, and `keep` is no
    /// more than its amount; `request` resolves.
    pub fn commit(&mut self, claim: ResIdx, request: ReqIdx, keep: Amount)
        requires
            old(self).ledger.wf(),
            old(self).ledger@.commit_refused(claim, request) is None,
            keep.0 <= old(self).ledger@.claims.of(claim).amount.0,
        ensures
            final(self).ledger.wf(),
            final(self).ledger@ == old(self).ledger@.committed(claim.index(), request, keep),
            *final(final(self).ledger) == *final(old(self).ledger),
    {
        self.ledger.move_to_list(claim, request, keep);
    }

    /// Free a quote slot whose claim has already been released.
    ///
    /// Precondition: `quote` resolves and holds no claim.
    pub fn close_quote(&mut self, quote: QuoteIdx)
        requires
            old(self).ledger.wf(),
            old(self).ledger@.close_quote_refused(quote) is None,
        ensures
            final(self).ledger.wf(),
            final(self).ledger@ == old(self).ledger@.quote_closed(quote),
            *final(final(self).ledger) == *final(old(self).ledger),
    {
        let ghost before = *self.ledger;
        self.ledger.quotes.remove(quote);
        proof {
            quote_closed_wf(before@, quote);
            self.ledger.quotes_changed(before, before@.quote_closed(quote));
        }
    }

    /// Discharge every claim on a request's committed list, returning them to the accounts'
    /// free capital and freeing their slots. Returns each claim's owner and amount, in list
    /// order.
    ///
    /// One operation for both settlement outcomes, and deliberately: from the engine's side
    /// they are the same bookkeeping. Which of the two happened is a fact about custody,
    /// recorded in the request's state.
    ///
    /// Precondition, established in the check: the request resolves, and the requester's own
    /// claim, if it holds one, is on that list.
    pub fn discharge_committed(&mut self, request: ReqIdx) -> (r: Vec<(ResOwner, Amount)>)
        requires
            old(self).ledger.wf(),
            old(self).ledger@.requests.names(request),
            old(self).ledger@.requests.of(request).claim matches Some(claim) ==> old(
                self,
            ).ledger@.claims.of(claim).list() == Some(request),
        ensures
            final(self).ledger.wf(),
            final(self).ledger@ == old(self).ledger@.discharged(request),
            r@ == old(self).ledger@.list_entries(request),
            *final(final(self).ledger) == *final(old(self).ledger),
    {
        let ghost v = self.ledger@;
        let ghost q = request.index() as int;
        let ghost list = v.lists[q];
        let ghost prophecy = *final(self.ledger);
        let mut discharged: Vec<(ResOwner, Amount)> = Vec::new();
        proof {
            assert(list.skip(0) =~= list);
        }
        while self.ledger.has_committed(request)
            invariant
                v.wf(),
                v.requests.names(request),
                q == request.index(),
                list == v.lists[q],
                discharged@.len() <= list.len(),
                self.ledger.wf(),
                self.ledger@ == v.discharged_prefix(q, discharged@.len()),
                self.ledger@.requests.names(request),
                self.ledger@.lists[q] == list.skip(discharged@.len() as int),
                forall|k: int|
                    0 <= k < discharged@.len() ==> #[trigger] discharged@[k] == (
                        v.claims.at(list[k]).owner,
                        v.claims.at(list[k]).amount,
                    ),
                *final(self.ledger) == prophecy,
            decreases list.len() - discharged@.len(),
        {
            proof {
                discharged_prefix_wf(v, request, discharged@.len());
                discharged_prefix_wf(v, request, discharged@.len() + 1);
                assert(list.skip(discharged@.len() as int)[0] == list[discharged@.len() as int]);
            }
            let entry = self.ledger.discharge_head(request);
            discharged.push(entry);
        }
        proof {
            discharged_prefix_wf(v, request, list.len());
            assert(discharged@ =~= v.list_entries(request));
        }
        self.ledger.forget_claim(request);
        discharged
    }

    /// A quote, mutably. Field writes only.
    pub fn quote_mut(&mut self, quote: QuoteIdx) -> (r: Option<&mut Quote>)
        requires
            old(self).ledger.wf(),
        ensures
            *final(final(self).ledger) == *final(old(self).ledger),
            match r {
                Some(record) => {
                    &&& old(self).ledger@.quotes.get(quote) == Some(*record)
                    &&& final(record).claim == record.claim ==> final(self).ledger.wf()
                        && final(self).ledger@ == old(self).ledger@.quote_rewritten(
                        quote,
                        *final(record),
                    )
                },
                None => old(self).ledger@.quotes.get(quote) is None && *final(self).ledger == *old(
                    self,
                ).ledger,
            },
    {
        self.ledger.quote_mut(quote)
    }

    /// A request, mutably. Field writes only.
    pub fn request_mut(&mut self, request: ReqIdx) -> (r: Option<&mut Request>)
        requires
            old(self).ledger.wf(),
        ensures
            *final(final(self).ledger) == *final(old(self).ledger),
            match r {
                Some(record) => {
                    &&& old(self).ledger@.requests.get(request) == Some(record.unthreaded())
                    &&& final(record).claim == record.claim && final(record).committed_head
                        == record.committed_head ==> final(self).ledger.wf() && final(self).ledger@
                        == old(self).ledger@.request_rewritten(request, final(record).unthreaded())
                },
                None => old(self).ledger@.requests.get(request) is None && *final(self).ledger
                    == *old(self).ledger,
            },
    {
        self.ledger.request_mut(request)
    }
}

impl Ledger {
    /// Whether `request`'s committed list holds anything.
    fn has_committed(&self, request: ReqIdx) -> (r: bool)
        requires
            self.wf(),
            self@.requests.names(request),
        ensures
            r == (self@.lists[request.index() as int].len() > 0),
    {
        let ghost q = request.index() as int;
        proof {
            self.reservations.wf_model();
            assert(self.list_threaded(q, self@.lists[q]));
            if self@.lists[q].len() > 0 {
                assert(crate::ledger::threads::linked(self.reservations@, self@.lists[q], 0));
            }
        }
        match self.requests.get(request) {
            Some(record) => record.committed_head.index().is_some(),
            None => false,
        }
    }

    /// Clear `request`'s back-pointer. With nothing to clear, the ledger stays well-formed.
    fn forget_claim(&mut self, request: ReqIdx)
        requires
            old(self).wf(),
            old(self)@.requests.names(request),
        ensures
            final(self).intact(),
            final(self)@ == old(self)@.owner_set(ResOwner::Request(request), None),
            old(self)@.requests.of(request).claim is None ==> final(self).wf(),
    {
        let ghost before = *self;
        self.set_owner_claim(ResOwner::Request(request), None);
        proof {
            claim_forgotten(before, *self, request);
        }
    }
}

/// Clearing a request's back-pointer leaves every chain and every list as it was.
proof fn claim_forgotten(before: Ledger, after: Ledger, request: ReqIdx)
    requires
        before.wf(),
        before@.requests.names(request),
        after.intact(),
        after.accounts == before.accounts,
        after.contracts == before.contracts,
        after.reservations == before.reservations,
        after.quotes == before.quotes,
        after.requests@ == before.requests@.replaced(
            request.index(),
            Request { claim: None, ..before.requests@.of(request) },
        ),
    ensures
        after@ == before@.owner_set(ResOwner::Request(request), None),
        before@.requests.of(request).claim is None ==> after.wf(),
{
    let f = |request: Request| request.unthreaded();
    let record = Request { claim: None, ..before.requests@.of(request) };
    let w = before@.owner_set(ResOwner::Request(request), None);
    before.requests.wf_model();
    replaced_wf(before.requests@, request.index(), record);
    mapped_commutes(before.requests@, f, request.index(), record);
    assert forall|b: int| 0 <= b < before@.chains.len() implies after.chain_threaded(
        b,
        #[trigger] before@.chains[b],
    ) by {
        assert(before.chain_threaded(b, before@.chains[b]));
    }
    assert forall|r: int| 0 <= r < before@.lists.len() implies after.list_threaded(
        r,
        #[trigger] before@.lists[r],
    ) by {
        assert(before.list_threaded(r, before@.lists[r]));
    }
    after.view_is(before@.chains, before@.lists);
    assert(after@.accounts =~= w.accounts);
    assert(after@ == w);
    if before@.requests.of(request).claim is None {
        request_rewritten_wf(before@, request, before@.requests.of(request));
    }
}

} // verus!
