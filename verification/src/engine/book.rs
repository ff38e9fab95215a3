//! The order book: what holds between requests, the quotes on their legs, and the claims behind
//! both.

use crate::account::{Link, NIL};
use crate::config::{MAX_LEGS, MAX_QUOTES_PER_LEG};
use crate::ledger::model::LedgerView;
use crate::quote::{Quote, QuoteState};
use crate::request::{Leg, Nonce, ReqIdx, Request, RequestState};
use crate::reservation::ResOwner;
use crate::selection::{leg_chain, link_to, steps, walk, walk_ends, walk_is_chain};
use crate::slab::{handle_extensional, handle_of, SlabView};
use crate::types::{product, UNIT};
use vstd::prelude::*;

verus! {

/// The links from `head` spell `chain` and end in nil.
pub open spec fn spells(quotes: SlabView<Quote>, head: Link, chain: Seq<u32>) -> bool {
    &&& forall|k: int| 0 <= k < chain.len() ==> #[trigger] steps(quotes, head, chain, k)
    &&& link_to(quotes, head, chain, chain.len() as int) == Link(NIL)
}

/// What the links spell is the leg's chain.
pub proof fn spelling_is_chain(quotes: SlabView<Quote>, head: Link, chain: Seq<u32>)
    requires
        spells(quotes, head, chain),
    ensures
        walk(quotes, head, chain),
        walk_ends(quotes, head),
        leg_chain(quotes, head) == chain,
{
    walk_is_chain(quotes, head, chain);
}

/// The same quote, but for the claim it holds.
pub open spec fn same_terms(a: Quote, b: Quote) -> bool {
    b == (Quote { claim: b.claim, ..a })
}

/// The same request, but for the claim it holds.
pub open spec fn same_request(a: Request, b: Request) -> bool {
    b == (Request { claim: b.claim, ..a })
}

/// The sum of `size * limit` over the first `n` legs: what a requester reserves.
pub open spec fn limit_total(legs: Seq<Leg>, n: nat) -> int
    decreases n,
{
    if n == 0 {
        0
    } else {
        limit_total(legs, (n - 1) as nat) + product(legs[n - 1].size, legs[n - 1].limit.0 as int)
    }
}

/// What a maker reserves for a quote at `price` on `leg`: `size * (UNIT - price)`.
pub open spec fn stake(leg: Leg, price: int) -> int {
    product(leg.size, UNIT - price)
}

impl LedgerView {
    /// Leg `l` of `request`.
    pub open spec fn leg_at(self, request: ReqIdx, l: int) -> Leg {
        self.requests.of(request).legs@[l]
    }

    /// The slots of the quotes on leg `l` of `request`, in order of arrival.
    pub open spec fn quotes_on(self, request: ReqIdx, l: int) -> Seq<u32> {
        leg_chain(self.quotes, self.leg_at(request, l).quotes_head)
    }

    /// Slot `i` holds a standing quote on leg `l` of `request`, of full size.
    pub open spec fn on_leg(self, i: u32, request: ReqIdx, l: int) -> bool {
        let quote = self.quotes.at(i);
        &&& self.quotes.occupied(i)
        &&& quote.request == Some(request)
        &&& quote.leg.0 == l
        &&& quote.state == QuoteState::Active
        &&& quote.size.0 >= self.leg_at(request, l).size.0
    }

    /// The quotes on leg `l` of `request` are standing quotes of different makers, threaded in
    /// order, and as many as the leg says.
    pub open spec fn leg_ok(self, request: ReqIdx, l: int) -> bool {
        let leg = self.leg_at(request, l);
        let chain = self.quotes_on(request, l);
        &&& spells(self.quotes, leg.quotes_head, chain)
        &&& chain.no_duplicates()
        &&& chain.len() == leg.quote_count
        &&& chain.len() <= MAX_QUOTES_PER_LEG
        &&& forall|k: int| 0 <= k < chain.len() ==> self.on_leg(#[trigger] chain[k], request, l)
        &&& forall|j: int, k: int|
            0 <= j < k < chain.len() ==> self.quotes.at(#[trigger] chain[j]).maker
                != self.quotes.at(#[trigger] chain[k]).maker
    }

    /// What holds of the request in slot `r`: an open one has its legs in order and nothing
    /// committed to it; a settling one carries its own nonce and has the requester's claim and
    /// one maker's claim per leg committed to it, `short` of them still to come; a finished one
    /// has nothing committed to it.
    pub open spec fn request_ok_but(self, r: u32, short: nat) -> bool {
        self.requests.occupied(r) ==> {
            let record = self.requests.at(r);
            let handle = self.request_handle(r);
            let list = self.lists[r as int];
            &&& 0 < record.n_legs <= MAX_LEGS
            &&& match record.state {
                RequestState::Open => list.len() == 0 && forall|l: int|
                    0 <= l < record.n_legs ==> #[trigger] self.leg_ok(handle, l),
                RequestState::Settling { nonce, .. } => nonce == Nonce::naming(handle)
                    && list.len() + short == record.n_legs + 1 && record.claim is Some,
                _ => list.len() == 0,
            }
        }
    }

    /// What holds of the request in slot `r` between commands.
    pub open spec fn request_ok(self, r: u32) -> bool {
        self.request_ok_but(r, 0)
    }

    /// The claim in slot `i` is on its owner's account and of the size its owner calls for: a
    /// quote's stake, or, while the request is open, what its requester may have to pay.
    pub open spec fn claim_sized(self, i: u32) -> bool {
        let claim = self.claims.at(i);
        match claim.owner {
            ResOwner::Quote(quote) => {
                let record = self.quotes.of(quote);
                &&& record.request is Some
                &&& self.requests.names(record.request->0)
                &&& record.leg.0 < self.requests.of(record.request->0).n_legs
                &&& record.price.0 <= UNIT
                &&& claim.account == record.maker
                &&& claim.amount.0 == stake(
                    self.leg_at(record.request->0, record.leg.0 as int),
                    record.price.0 as int,
                )
            },
            ResOwner::Request(request) => {
                &&& claim.account == self.requests.of(request).requester
                &&& claim.list() is None ==> claim.amount.0 == limit_total(
                    self.requests.of(request).legs@,
                    self.requests.of(request).n_legs as nat,
                )
            },
        }
    }

    /// The claim in slot `i`, if any, is in the state its owner's state calls for, and of the
    /// size its owner calls for.
    pub open spec fn claim_ok(self, i: u32) -> bool {
        self.claims.occupied(i) ==> self.incoherence(i) is None && self.claim_sized(i)
    }

    /// What holds of the ledger between commands.
    pub open spec fn sound_book(self) -> bool {
        &&& forall|r: u32| #[trigger] self.request_ok(r)
        &&& forall|i: u32| #[trigger] self.claim_ok(i)
    }

    /// What holds of the ledger while `request` starts settling: `short` of its makers' claims
    /// are still to be committed.
    pub open spec fn sound_but(self, request: ReqIdx, short: nat) -> bool {
        &&& forall|r: u32| r != request.index() ==> #[trigger] self.request_ok(r)
        &&& self.request_ok_but(request.index(), short)
        &&& forall|i: u32| #[trigger] self.claim_ok(i)
    }

    /// The quote in slot `j` is the same in `other`, but for the claim it holds.
    pub open spec fn same_quote(self, other: Self, j: u32) -> bool {
        &&& self.quotes.occupied(j) <==> other.quotes.occupied(j)
        &&& self.quotes.occupied(j) ==> self.quotes.generation(j) == other.quotes.generation(j)
            && same_terms(self.quotes.at(j), other.quotes.at(j))
    }

    /// The request in slot `r` is the same in `other`, but for the claim it holds.
    pub open spec fn same_request_at(self, other: Self, r: u32) -> bool {
        &&& self.requests.occupied(r) <==> other.requests.occupied(r)
        &&& self.requests.occupied(r) ==> self.requests.generation(r) == other.requests.generation(
            r,
        ) && same_request(self.requests.at(r), other.requests.at(r))
    }

    /// The claim in slot `i` of `other`, if any, is this ledger's.
    pub open spec fn kept_claim(self, other: Self, i: u32) -> bool {
        other.claims.occupied(i) ==> self.claims.occupied(i) && other.claims.at(i)
            == self.claims.at(i) && other.claims.generation(i) == self.claims.generation(i)
    }

    /// `other` differs at most in that some claims are gone and their owners hold nothing.
    pub open spec fn trimmed_to(self, other: Self) -> bool {
        &&& other.quotes.slots.len() == self.quotes.slots.len()
        &&& other.requests.slots.len() == self.requests.slots.len()
        &&& other.contracts == self.contracts
        &&& other.accounts.len() == self.accounts.len()
        &&& forall|j: u32| #[trigger] self.same_quote(other, j)
        &&& forall|r: u32| #[trigger] self.same_request_at(other, r)
        &&& forall|i: u32| #[trigger] self.kept_claim(other, i)
    }
}

/// A book is coherent: every claim's state agrees with its owner's.
pub proof fn sound_books_are_coherent(v: LedgerView)
    requires
        v.sound_book(),
    ensures
        v.coherent(),
{
    assert forall|i: u32| #[trigger] v.incoherence(i) is None by {
        assert(v.claim_ok(i));
    }
}

/// A leg none of whose quotes changed is in order.
pub proof fn leg_kept(v: LedgerView, w: LedgerView, request: ReqIdx, l: int)
    requires
        v.leg_ok(request, l),
        w.leg_at(request, l).quotes_head == v.leg_at(request, l).quotes_head,
        w.leg_at(request, l).quote_count == v.leg_at(request, l).quote_count,
        w.leg_at(request, l).size == v.leg_at(request, l).size,
        forall|k: int|
            0 <= k < v.quotes_on(request, l).len() ==> {
                let i = #[trigger] v.quotes_on(request, l)[k];
                w.quotes.occupied(i) && same_terms(v.quotes.at(i), w.quotes.at(i))
            },
    ensures
        w.leg_ok(request, l),
        w.quotes_on(request, l) == v.quotes_on(request, l),
{
    let chain = v.quotes_on(request, l);
    let head = v.leg_at(request, l).quotes_head;
    assert forall|k: int| 0 <= k < chain.len() implies #[trigger] steps(
        w.quotes,
        head,
        chain,
        k,
    ) by {
        assert(steps(v.quotes, head, chain, k));
        assert(w.quotes.occupied(chain[k]));
        if k > 0 {
            assert(w.quotes.occupied(chain[k - 1]));
        }
    }
    if chain.len() > 0 {
        assert(w.quotes.occupied(chain[chain.len() - 1]));
    }
    assert(spells(w.quotes, head, chain));
    spelling_is_chain(w.quotes, head, chain);
    assert forall|k: int| 0 <= k < chain.len() implies w.on_leg(
        #[trigger] chain[k],
        request,
        l,
    ) by {
        assert(v.on_leg(chain[k], request, l));
        assert(w.quotes.occupied(chain[k]));
    }
    assert forall|j: int, k: int| 0 <= j < k < chain.len() implies w.quotes.at(
        #[trigger] chain[j],
    ).maker != w.quotes.at(#[trigger] chain[k]).maker by {
        assert(w.quotes.occupied(chain[j]));
        assert(w.quotes.occupied(chain[k]));
    }
}

/// Trimming claims trims in steps.
pub proof fn trimming_composes(u: LedgerView, v: LedgerView, w: LedgerView)
    requires
        u.trimmed_to(v),
        v.trimmed_to(w),
    ensures
        u.trimmed_to(w),
{
    assert forall|j: u32| #[trigger] u.same_quote(w, j) by {
        assert(u.same_quote(v, j));
        assert(v.same_quote(w, j));
    }
    assert forall|r: u32| #[trigger] u.same_request_at(w, r) by {
        assert(u.same_request_at(v, r));
        assert(v.same_request_at(w, r));
    }
    assert forall|i: u32| #[trigger] u.kept_claim(w, i) by {
        assert(u.kept_claim(v, i));
        assert(v.kept_claim(w, i));
    }
}

/// A claim that is still there is still in order when only claims were trimmed.
pub proof fn trimmed_claim_ok(v: LedgerView, w: LedgerView, i: u32)
    requires
        v.trimmed_to(w),
        v.claim_ok(i),
        w.claims.occupied(i),
    ensures
        w.claim_ok(i),
{
    assert(v.kept_claim(w, i));
    let claim = v.claims.at(i);
    match claim.owner {
        ResOwner::Quote(quote) => {
            assert(v.same_quote(w, quote.index()));
            let record = v.quotes.of(quote);
            assert(v.same_request_at(w, record.request->0.index()));
        },
        ResOwner::Request(request) => {
            assert(v.same_request_at(w, request.index()));
        },
    }
    match claim.list() {
        Some(list) => {
            assert(v.same_request_at(w, list.index()));
        },
        None => {},
    }
}

/// A request is still in order when only claims were trimmed, as long as what is committed to it
/// is as before and a settling request keeps its claim.
pub proof fn trimmed_request_ok(v: LedgerView, w: LedgerView, r: u32)
    requires
        v.trimmed_to(w),
        v.request_ok(r),
        v.requests.wf(),
        w.lists[r as int].len() == v.lists[r as int].len(),
        v.requests.occupied(r) && v.requests.at(r).state is Settling ==> w.requests.at(r).claim
            == v.requests.at(r).claim,
    ensures
        w.request_ok(r),
{
    assert(v.same_request_at(w, r));
    if v.requests.occupied(r) {
        let handle = v.request_handle(r);
        handle_of::<Request>(r, v.requests.generation(r));
        assert(w.request_handle(r) == handle);
        let record = v.requests.at(r);
        if record.state is Open {
            assert forall|l: int| 0 <= l < record.n_legs implies #[trigger] w.leg_ok(
                handle,
                l,
            ) by {
                assert(v.leg_ok(handle, l));
                let chain = v.quotes_on(handle, l);
                assert forall|k: int| 0 <= k < chain.len() implies {
                    let i = #[trigger] chain[k];
                    w.quotes.occupied(i) && same_terms(v.quotes.at(i), w.quotes.at(i))
                } by {
                    assert(v.on_leg(chain[k], handle, l));
                    assert(v.same_quote(w, chain[k]));
                }
                leg_kept(v, w, handle, l);
            }
        }
    }
}

/// Letting one claim go trims the book.
pub proof fn dropping_trims(v: LedgerView, u: LedgerView, i: u32)
    requires
        v.wf(),
        v.claims.occupied(i),
        u.claims == v.claims,
        u.quotes == v.quotes,
        u.requests == v.requests,
        u.contracts == v.contracts,
        u.accounts.len() == v.accounts.len(),
    ensures
        v.trimmed_to(u.dropped(i)),
        !u.dropped(i).claims.occupied(i),
        forall|j: u32|
            j != i && v.claims.occupied(j) ==> #[trigger] u.dropped(i).claims.occupied(j),
        forall|r: u32|
            v.requests.occupied(r) && v.claims.at(i).owner != ResOwner::Request(
                v.request_handle(r),
            ) ==> (#[trigger] u.dropped(i).requests.at(r)).claim == v.requests.at(r).claim,
        forall|j: u32|
            v.quotes.occupied(j) && v.claims.at(i).owner != ResOwner::Quote(v.quote_handle(j))
                ==> (#[trigger] u.dropped(i).quotes.at(j)).claim == v.quotes.at(j).claim,
        v.claims.at(i).owner matches ResOwner::Quote(quote) ==> u.dropped(i).quotes.of(
            quote,
        ).claim is None,
        v.claims.at(i).owner matches ResOwner::Request(request) ==> u.dropped(i).requests.of(
            request,
        ).claim is None,
{
    let w = u.dropped(i);
    let owner = v.claims.at(i).owner;
    assert(v.owned(i));
    assert forall|j: u32| #[trigger] v.same_quote(w, j) by {}
    assert forall|r: u32| #[trigger] v.same_request_at(w, r) by {}
    assert forall|j: u32| #[trigger] v.kept_claim(w, j) by {}
    assert forall|r: u32|
        v.requests.occupied(r) && owner != ResOwner::Request(v.request_handle(r)) implies (
    #[trigger] w.requests.at(r)).claim == v.requests.at(r).claim by {
        match owner {
            ResOwner::Request(request) => {
                if request.index() == r {
                    handle_of::<Request>(r, v.requests.generation(r));
                    handle_extensional(request, v.request_handle(r));
                }
            },
            ResOwner::Quote(_) => {},
        }
    }
    assert forall|j: u32|
        v.quotes.occupied(j) && owner != ResOwner::Quote(v.quote_handle(j)) implies (
    #[trigger] w.quotes.at(j)).claim == v.quotes.at(j).claim by {
        match owner {
            ResOwner::Quote(quote) => {
                if quote.index() == j {
                    handle_of::<Quote>(j, v.quotes.generation(j));
                    handle_extensional(quote, v.quote_handle(j));
                }
            },
            ResOwner::Request(_) => {},
        }
    }
}

/// **Releasing a reserved claim leaves the book sound.**
pub proof fn released_sound(v: LedgerView, i: u32)
    requires
        v.wf(),
        v.sound_book(),
        v.claims.occupied(i),
        v.claims.at(i).links is Reserved,
    ensures
        v.released(i).sound_book(),
        v.trimmed_to(v.released(i)),
{
    let u = v.unchained(i);
    let w = v.released(i);
    assert(v.placed(i));
    dropping_trims(v, u, i);
    assert(v.claim_ok(i));
    assert forall|j: u32| #[trigger] w.claim_ok(j) by {
        assert(v.claim_ok(j));
        if w.claims.occupied(j) {
            trimmed_claim_ok(v, w, j);
        }
    }
    assert forall|r: u32| #[trigger] w.request_ok(r) by {
        assert(v.request_ok(r));
        if v.requests.occupied(r) && v.requests.at(r).state is Settling {
            if v.claims.at(i).owner == ResOwner::Request(v.request_handle(r)) {
                handle_of::<Request>(r, v.requests.generation(r));
                assert(false);
            }
            assert(w.requests.at(r).claim == v.requests.at(r).claim);
        }
        trimmed_request_ok(v, w, r);
    }
}

} // verus!
