//! The steps commands are made of, and why each leaves the book sound.

use crate::account::{AccountIdx, Link, NIL};
use crate::arrays::array_from;
use crate::config::MAX_LEGS;
use crate::engine::book::{
    leg_kept, limit_total, released_sound, same_terms, spelling_is_chain, spells, stake,
    trimming_composes,
};
use crate::ledger::keeps::{
    expired_prefix_bounds, released_prefix_wf, request_opened_wf, reserved_wf,
};
use crate::ledger::model::LedgerView;
use crate::quote::{Quote, QuoteIdx, QuoteState};
use crate::request::{Leg, Nonce, ReqIdx, Request, RequestState};
use crate::reservation::{ResOwner, Reservation};
use crate::slab::{handle_of, inserted_wf};
use crate::types::{Amount, Ts};
use vstd::prelude::*;

verus! {

/// A leg with nobody quoting it.
pub open spec fn emptied(leg: Leg) -> Leg {
    Leg { quotes_head: Link(NIL), quote_count: 0, ..leg }
}

/// The legs with nobody quoting them.
pub open spec fn emptied_legs(legs: [Leg; MAX_LEGS]) -> [Leg; MAX_LEGS] {
    array_from(Seq::new(MAX_LEGS as nat, |k: int| emptied(legs@[k])))
}

impl LedgerView {
    /// After leg `l` of `request` is rewritten.
    pub open spec fn with_leg(self, request: ReqIdx, l: int, leg: Leg) -> Self {
        let record = self.requests.of(request);
        self.request_rewritten(
            request,
            Request { legs: array_from(record.legs@.update(l, leg)), ..record },
        )
    }

    /// After the quote in slot `i` is taken off leg `l` of `request`.
    pub open spec fn unlinked(self, request: ReqIdx, l: int, i: u32) -> Self {
        let leg = self.leg_at(request, l);
        let chain = self.quotes_on(request, l);
        let k = chain.index_of(i);
        let next = self.quotes.at(i).next_on_leg;
        let count = (leg.quote_count - 1) as u8;
        if k > 0 {
            let prev = self.quote_handle(chain[k - 1]);
            self.quote_rewritten(
                prev,
                Quote { next_on_leg: next, ..self.quotes.of(prev) },
            ).with_leg(request, l, Leg { quote_count: count, ..leg })
        } else {
            self.with_leg(request, l, Leg { quotes_head: next, quote_count: count, ..leg })
        }
    }

    /// After the quote in slot `i` is put at the end of leg `l` of `request`.
    pub open spec fn linked(self, request: ReqIdx, l: int, i: u32) -> Self {
        let leg = self.leg_at(request, l);
        let chain = self.quotes_on(request, l);
        let count = (leg.quote_count + 1) as u8;
        if chain.len() > 0 {
            let last = self.quote_handle(chain.last());
            self.quote_rewritten(
                last,
                Quote { next_on_leg: Link(i), ..self.quotes.of(last) },
            ).with_leg(request, l, Leg { quote_count: count, ..leg })
        } else {
            self.with_leg(request, l, Leg { quotes_head: Link(i), quote_count: count, ..leg })
        }
    }

    /// After whatever claim `quote` holds is released.
    pub open spec fn quote_freed(self, quote: QuoteIdx) -> Self {
        match self.quotes.of(quote).claim {
            Some(claim) => self.released(claim.index()),
            None => self,
        }
    }

    /// After `quote` is released and its slot freed.
    pub open spec fn dismissed(self, quote: QuoteIdx) -> Self {
        self.quote_freed(quote).quote_closed(quote)
    }

    /// After `quote` wins its leg: its claim is committed to `request` whole.
    pub open spec fn consumed(self, quote: QuoteIdx, request: ReqIdx) -> Self {
        let claim = self.quotes.of(quote).claim->0;
        let after = self.committed(claim.index(), request, self.claims.of(claim).amount);
        after.quote_rewritten(
            quote,
            Quote { state: QuoteState::Consumed, next_on_leg: Link(NIL), ..after.quotes.of(quote) },
        )
    }

    /// After `request` is left by its makers and put in `state`.
    pub open spec fn left_in(self, request: ReqIdx, state: RequestState) -> Self {
        let record = self.requests.of(request);
        self.request_rewritten(
            request,
            Request { state, legs: emptied_legs(record.legs), ..record },
        )
    }

    /// After `keep` of the requester's claim is committed and `request` starts settling.
    pub open spec fn settling(self, request: ReqIdx, keep: Amount, deadline: Ts) -> Self {
        let claim = self.requests.of(request).claim->0;
        self.committed(claim.index(), request, keep).left_in(
            request,
            RequestState::Settling { nonce: Nonce::naming(request), deadline },
        )
    }

    /// After whatever claim `request` holds is released.
    pub open spec fn request_freed(self, request: ReqIdx) -> Self {
        match self.requests.of(request).claim {
            Some(claim) => self.released(claim.index()),
            None => self,
        }
    }

    /// After everything committed to `request` is discharged and it is finished in `state`.
    pub open spec fn finished(self, request: ReqIdx, state: RequestState) -> Self {
        let after = self.discharged(request);
        after.request_rewritten(request, Request { state, ..after.requests.of(request) })
    }

    /// The quote in slot `i` is on the chain of a leg of an open request.
    pub open spec fn shelved(self, i: u32) -> bool {
        exists|r: u32, l: int|
            self.requests.occupied(r) && self.requests.at(r).state is Open && 0 <= l
                < self.requests.at(r).n_legs && #[trigger] self.quotes_on(
                self.request_handle(r),
                l,
            ).contains(i)
    }
}

// ───────────────────────────── steps that touch no book ─────────────────────────────

/// The book does not depend on the mirror or the contracts.
pub proof fn unrelated_sound(v: LedgerView, w: LedgerView)
    requires
        v.sound_book(),
        w.quotes == v.quotes,
        w.requests == v.requests,
        w.claims == v.claims,
        w.lists == v.lists,
    ensures
        w.sound_book(),
{
    assert forall|r: u32| #[trigger] w.request_ok(r) by {
        assert(v.request_ok(r));
        if v.requests.occupied(r) && v.requests.at(r).state is Open {
            let handle = v.request_handle(r);
            assert forall|l: int| 0 <= l < v.requests.at(r).n_legs implies #[trigger] w.leg_ok(
                handle,
                l,
            ) by {
                assert(v.leg_ok(handle, l));
                let chain = v.quotes_on(handle, l);
                assert forall|k: int| 0 <= k < chain.len() implies w.on_leg(
                    #[trigger] chain[k],
                    handle,
                    l,
                ) by {
                    assert(v.on_leg(chain[k], handle, l));
                }
            }
        }
    }
    assert forall|i: u32| #[trigger] w.claim_ok(i) by {
        assert(v.claim_ok(i));
    }
}

/// An empty book is sound.
pub proof fn empty_sound(v: LedgerView)
    requires
        forall|r: u32| !(#[trigger] v.requests.occupied(r)),
        forall|i: u32| !(#[trigger] v.claims.occupied(i)),
    ensures
        v.sound_book(),
{
    assert forall|r: u32| #[trigger] v.request_ok(r) by {
        assert(!v.requests.occupied(r));
    }
    assert forall|i: u32| #[trigger] v.claim_ok(i) by {
        assert(!v.claims.occupied(i));
    }
}

/// Releasing the first `n` claims of an account's chain leaves the book sound.
pub proof fn released_prefix_sound(v: LedgerView, a: int, n: nat)
    requires
        v.wf(),
        v.sound_book(),
        0 <= a < v.accounts.len(),
        n <= v.chains[a].len(),
    ensures
        v.released_prefix(a, n).sound_book(),
        v.trimmed_to(v.released_prefix(a, n)),
    decreases n,
{
    if n == 0 {
        assert forall|j: u32| #[trigger] v.same_quote(v, j) by {}
        assert forall|r: u32| #[trigger] v.same_request_at(v, r) by {}
        assert forall|i: u32| #[trigger] v.kept_claim(v, i) by {}
    } else {
        let m = (n - 1) as nat;
        released_prefix_sound(v, a, m);
        released_prefix_wf(v, a, m);
        let u = v.released_prefix(a, m);
        let i = u.chains[a][0];
        assert(u.chain_ok(a));
        assert(u.reserved_by(i, a));
        released_sound(u, i);
        trimming_composes(v, u, v.released_prefix(a, n));
    }
}

/// **Normalising an account leaves the book sound**, and takes away nothing but claims.
pub proof fn normalised_sound(v: LedgerView, account: AccountIdx, now: Ts)
    requires
        v.wf(),
        v.sound_book(),
        account.0 < v.accounts.len(),
    ensures
        v.normalised(account, now).wf(),
        v.normalised(account, now).sound_book(),
        v.trimmed_to(v.normalised(account, now)),
{
    let a = account.0 as int;
    expired_prefix_bounds(v, v.chains[a], now);
    released_prefix_sound(v, a, v.expired_prefix(v.chains[a], now));
    released_prefix_wf(v, a, v.expired_prefix(v.chains[a], now));
}

// ───────────────────────────── requests ─────────────────────────────

/// **Opening a request with its claim leaves the book sound.**
pub proof fn request_opened_sound(v: LedgerView, record: Request, amount: Amount)
    requires
        v.wf(),
        v.sound_book(),
        v.open_request_refused(record, amount) is None,
        record.state is Open,
        0 < record.n_legs <= MAX_LEGS,
        forall|l: int|
            0 <= l < MAX_LEGS ==> (#[trigger] record.legs@[l]).quotes_head == Link(NIL)
                && record.legs@[l].quote_count == 0,
        amount.0 == limit_total(record.legs@, record.n_legs as nat),
    ensures
        v.request_opened_reserving(record, amount).wf(),
        v.request_opened_reserving(record, amount).sound_book(),
{
    broadcast use handle_of;

    let bare = Request { claim: None, ..record.unthreaded() };
    let u = v.request_opened(bare);
    let handle = v.requests.next_handle::<Request>();
    let w = v.request_opened_reserving(record, amount);
    let r0 = v.requests.next_index();
    let i0 = v.claims.next_index();
    request_opened_wf(v, bare);
    inserted_wf(v.requests, bare);
    assert(u.reserve_refused(record.requester, amount, ResOwner::Request(handle)) is None);
    reserved_wf(u, record.requester, amount, record.deadline, ResOwner::Request(handle));
    inserted_wf(v.claims, Reservation::unlinked(record.requester, amount, ResOwner::Request(handle), record.deadline));
    assert(forall|r: u32| r != r0 ==> (v.requests.occupied(r) <==> #[trigger] w.requests.occupied(r)));
    assert(forall|r: u32|
        r != r0 && v.requests.occupied(r) ==> #[trigger] w.requests.at(r) == v.requests.at(r));
    assert(v.list_ok(r0 as int));
    assert forall|r: u32| #[trigger] w.request_ok(r) by {
        assert(v.request_ok(r));
        if r == r0 {
            assert forall|l: int| 0 <= l < record.n_legs implies #[trigger] w.leg_ok(
                handle,
                l,
            ) by {
                assert(record.legs@[l].quotes_head == Link(NIL));
                let none = Seq::<u32>::empty();
                assert(spells(w.quotes, Link(NIL), none));
                spelling_is_chain(w.quotes, Link(NIL), none);
            }
            assert(w.request_handle(r0) == handle);
        } else if v.requests.occupied(r) {
            let other = v.request_handle(r);
            if v.requests.at(r).state is Open {
                assert forall|l: int| 0 <= l < v.requests.at(r).n_legs implies #[trigger] w.leg_ok(
                    other,
                    l,
                ) by {
                    assert(v.leg_ok(other, l));
                    let chain = v.quotes_on(other, l);
                    assert forall|k: int| 0 <= k < chain.len() implies {
                        let i = #[trigger] chain[k];
                        w.quotes.occupied(i) && same_terms(v.quotes.at(i), w.quotes.at(i))
                    } by {
                        assert(v.on_leg(chain[k], other, l));
                    }
                    leg_kept(v, w, other, l);
                }
            }
            assert(w.request_handle(r) == other);
        }
    }
    assert forall|i: u32| #[trigger] w.claim_ok(i) by {
        assert(v.claim_ok(i));
        if i == i0 {
        } else if w.claims.occupied(i) {
            assert(v.claims.occupied(i) && w.claims.at(i) == v.claims.at(i));
            assert(v.owned(i));
            assert(v.placed(i));
            assert(v.claim_handle(i) == w.claim_handle(i));
            assert forall|r: u32| v.requests.occupied(r) implies {
                &&& #[trigger] w.requests.occupied(r)
                &&& w.requests.generation(r) == v.requests.generation(r)
                &&& v.requests.at(r).n_legs <= MAX_LEGS
                &&& same_measure(v.requests.at(r), w.requests.at(r))
                &&& v.requests.at(r).state !is Open ==> w.requests.at(r).state !is Open
            } by {
                assert(v.request_ok(r));
            }
            same_owner_claim_ok(v, w, i);
        }
    }
}

/// What the requests a claim is measured by look like when one of them is rewritten.
pub open spec fn measures_kept(v: LedgerView, w: LedgerView) -> bool {
    forall|r: u32|
        v.requests.occupied(r) ==> {
            &&& #[trigger] w.requests.occupied(r)
            &&& w.requests.generation(r) == v.requests.generation(r)
            &&& v.requests.at(r).n_legs <= MAX_LEGS
            &&& same_measure(v.requests.at(r), w.requests.at(r))
            &&& v.requests.at(r).state !is Open ==> w.requests.at(r).state !is Open
        }
}

/// A claim whose owner's record, and the requests it is measured by, are unchanged is in order.
pub proof fn same_owner_claim_ok(v: LedgerView, w: LedgerView, i: u32)
    requires
        v.claims.occupied(i),
        w.claims.occupied(i),
        v.claim_ok(i),
        w.claims.at(i) == v.claims.at(i),
        w.claims.generation(i) == v.claims.generation(i),
        match v.claims.at(i).owner {
            ResOwner::Quote(quote) => {
                &&& w.quotes.names(quote)
                &&& w.quotes.of(quote).state == v.quotes.of(quote).state
                &&& w.quotes.of(quote).request == v.quotes.of(quote).request
                &&& w.quotes.of(quote).leg == v.quotes.of(quote).leg
                &&& w.quotes.of(quote).price == v.quotes.of(quote).price
                &&& w.quotes.of(quote).maker == v.quotes.of(quote).maker
            },
            ResOwner::Request(request) => v.requests.names(request) ==> w.requests.names(request)
                && w.requests.of(request).state == v.requests.of(request).state,
        },
        v.claims.at(i).list() matches Some(list) ==> w.requests.of(list).state is Settling,
        measures_kept(v, w),
    ensures
        w.claim_ok(i),
{
    let claim = v.claims.at(i);
    match claim.owner {
        ResOwner::Quote(quote) => {
            let request = v.quotes.of(quote).request->0;
            assert(v.requests.occupied(request.index()));
            assert(w.requests.occupied(request.index()));
            match claim.list() {
                Some(list) => {
                    assert(v.requests.occupied(list.index()));
                    assert(w.requests.occupied(list.index()));
                },
                None => {},
            }
            let l = v.quotes.of(quote).leg.0 as int;
            measured_leg(v.requests.of(request), w.requests.of(request), l);
        },
        ResOwner::Request(request) => {
            assert(v.requests.occupied(request.index()));
            assert(w.requests.occupied(request.index()));
            measured_total(
                v.requests.of(request),
                w.requests.of(request),
                v.requests.of(request).n_legs as nat,
            );
        },
    }
}

/// Two requests of the same requester, with the same sizes and limits.
pub open spec fn same_measure(a: Request, b: Request) -> bool {
    &&& b.requester == a.requester
    &&& b.n_legs == a.n_legs
    &&& forall|l: int|
        0 <= l < MAX_LEGS ==> (#[trigger] b.legs@[l]).size == a.legs@[l].size && b.legs@[l].limit
            == a.legs@[l].limit
}

proof fn measured_leg(a: Request, b: Request, l: int)
    requires
        same_measure(a, b),
        0 <= l < a.n_legs,
    ensures
        l < MAX_LEGS ==> b.legs@[l].size == a.legs@[l].size,
        l < MAX_LEGS ==> forall|price: int| #[trigger]
            stake(b.legs@[l], price) == stake(a.legs@[l], price),
{
}

proof fn measured_total(a: Request, b: Request, n: nat)
    requires
        same_measure(a, b),
    ensures
        n <= MAX_LEGS ==> limit_total(b.legs@, n) == limit_total(a.legs@, n),
    decreases n,
{
    if n > 0 {
        measured_total(a, b, (n - 1) as nat);
        if n <= MAX_LEGS {
            assert(b.legs@[n - 1].size == a.legs@[n - 1].size);
        }
    }
}

} // verus!
