//! Requests being rejected, settled and finished.

use crate::account::{Link, NIL};
use crate::arrays::array_from_holds;
use crate::config::MAX_LEGS;
use crate::engine::book::{
    dropping_trims, released_sound, trimmed_claim_ok, trimmed_request_ok, trimming_composes,
};
use crate::engine::shelf::{
    legs_fit, measures_of_the_same, quote_closed_sound, quote_kept, request_kept, unshelved,
};
use crate::engine::steps::{emptied_legs, measures_kept, same_measure, same_owner_claim_ok};
use crate::ledger::keeps::{
    committed_wf, discharged_one_wf, discharged_prefix_wf, lists_are_apart, quote_rewritten_wf,
    released_wf, request_rewritten_wf,
};
use crate::ledger::model::LedgerView;
use crate::quote::{Quote, QuoteIdx, QuoteState};
use crate::request::{Nonce, ReqIdx, Request, RequestState};
use crate::reservation::ResOwner;
use crate::slab::{handle_extensional, handle_of};
use crate::types::{Amount, Ts};
use vstd::prelude::*;

verus! {

/// A claim is held by one owner: two claims with the same owner are one.
pub proof fn one_claim_per_owner(v: LedgerView, i: u32, j: u32)
    requires
        v.wf(),
        v.claims.occupied(i),
        v.claims.occupied(j),
        v.claims.at(i).owner == v.claims.at(j).owner,
    ensures
        i == j,
{
    broadcast use handle_of;

    assert(v.owned(i));
    assert(v.owned(j));
    assert(v.claim_handle(i).index() == v.claim_handle(j).index());
}

/// A standing quote's claim, if it holds one, is reserved.
pub proof fn standing_claim_is_reserved(v: LedgerView, quote: QuoteIdx)
    requires
        v.wf(),
        forall|i: u32| #[trigger] v.claim_ok(i),
        v.quotes.names(quote),
        v.quotes.of(quote).state is Active,
    ensures
        v.quotes.of(quote).claim matches Some(claim) ==> {
            &&& v.claims.names(claim)
            &&& v.claims.of(claim).owner == ResOwner::Quote(quote)
            &&& v.claims.of(claim).links is Reserved
            &&& v.release_refused(claim) is None
        },
{
    broadcast use handle_of;

    assert(v.quote_backed(quote.index()));
    match v.quotes.of(quote).claim {
        Some(claim) => {
            handle_extensional(quote, v.quote_handle(quote.index()));
            assert(v.claim_ok(claim.index()));
        },
        None => {},
    }
}

/// An open request's claim, if it holds one, is reserved.
pub proof fn open_claim_is_reserved(v: LedgerView, request: ReqIdx)
    requires
        v.wf(),
        v.sound_book(),
        v.requests.names(request),
        v.requests.of(request).state is Open,
    ensures
        v.requests.of(request).claim matches Some(claim) ==> {
            &&& v.claims.names(claim)
            &&& v.claims.of(claim).owner == ResOwner::Request(request)
            &&& v.claims.of(claim).links is Reserved
            &&& v.release_refused(claim) is None
            &&& v.commit_refused(claim, request) is None
            &&& v.claim_sized(claim.index())
        },
{
    broadcast use handle_of;

    assert(v.request_backed(request.index()));
    match v.requests.of(request).claim {
        Some(claim) => {
            handle_extensional(request, v.request_handle(request.index()));
            assert(v.claim_ok(claim.index()));
        },
        None => {},
    }
}

/// A settling request's claim is committed to it.
pub proof fn settling_claim_is_committed(v: LedgerView, request: ReqIdx)
    requires
        v.wf(),
        v.sound_book(),
        v.requests.names(request),
        v.requests.of(request).state is Settling,
    ensures
        v.requests.of(request).claim is Some,
        v.claims.names(v.requests.of(request).claim->0),
        v.claims.of(v.requests.of(request).claim->0).owner == ResOwner::Request(request),
        v.claims.of(v.requests.of(request).claim->0).list() == Some(request),
{
    broadcast use handle_of;

    assert(v.request_ok(request.index()));
    assert(v.request_backed(request.index()));
    let claim = v.requests.of(request).claim->0;
    handle_extensional(request, v.request_handle(request.index()));
    assert(v.claim_ok(claim.index()));
}

// ───────────────────────────── leaving the open state ─────────────────────────────

/// Rewriting one request's state and legs leaves every other request, and every claim measured
/// by it, as it was.
proof fn left_measures(v: LedgerView, request: ReqIdx, state: RequestState)
    requires
        v.requests.names(request),
        state !is Open,
        forall|r: u32| v.requests.occupied(r) ==> (#[trigger] v.requests.at(r)).n_legs <= MAX_LEGS,
    ensures
        measures_kept(v, v.left_in(request, state)),
{
    broadcast use array_from_holds;

    let w = v.left_in(request, state);
    assert forall|r: u32| v.requests.occupied(r) implies {
        &&& #[trigger] w.requests.occupied(r)
        &&& w.requests.generation(r) == v.requests.generation(r)
        &&& v.requests.at(r).n_legs <= MAX_LEGS
        &&& same_measure(v.requests.at(r), w.requests.at(r))
        &&& v.requests.at(r).state !is Open ==> w.requests.at(r).state !is Open
    } by {
        assert(v.requests.at(r).n_legs <= MAX_LEGS);
    }
}

/// **Rejecting a request that holds no claim leaves the book sound.**
pub proof fn rejected_sound(v: LedgerView, request: ReqIdx, state: RequestState)
    requires
        v.wf(),
        v.sound_book(),
        v.requests.names(request),
        v.requests.of(request).state is Open,
        v.requests.of(request).claim is None,
        state.terminal(),
    ensures
        v.left_in(request, state).wf(),
        v.left_in(request, state).sound_book(),
{
    broadcast use handle_of;

    let w = v.left_in(request, state);
    let r0 = request.index();
    let record = v.requests.of(request);
    request_rewritten_wf(
        v,
        request,
        Request { state, legs: emptied_legs(record.legs), ..record },
    );
    legs_fit(v);
    left_measures(v, request, state);
    handle_extensional(request, v.request_handle(r0));
    assert forall|r: u32| #[trigger] w.request_ok(r) by {
        assert(v.request_ok(r));
        if v.requests.occupied(r) && r != r0 {
            assert forall|i: u32|
                v.quotes.occupied(i) && v.quotes.at(i).request == Some(v.request_handle(r))
                    && v.quotes.at(i).state is Active implies #[trigger] quote_kept(v, w, i) by {}
            request_kept(v, w, r, 0);
        }
    }
    assert forall|i: u32| #[trigger] w.claim_ok(i) by {
        assert(v.claim_ok(i));
        if w.claims.occupied(i) {
            assert(v.owned(i));
            match v.claims.at(i).owner {
                ResOwner::Quote(quote) => {},
                ResOwner::Request(other) => {
                    if other.index() == r0 {
                        assert(false);
                    }
                },
            }
            same_owner_claim_ok(v, w, i);
        }
    }
}

/// Committing a claim changes that claim and the list it goes on, and no record.
proof fn committing(v: LedgerView, i: u32, request: ReqIdx, keep: Amount)
    requires
        v.wf(),
        v.claims.occupied(i),
        v.claims.at(i).links is Reserved,
        v.requests.names(request),
        keep.0 <= v.claims.at(i).amount.0,
    ensures
        ({
            let w = v.committed(i, request, keep);
            let r = request.index() as int;
            &&& w.wf()
            &&& w.quotes == v.quotes
            &&& w.requests == v.requests
            &&& w.contracts == v.contracts
            &&& w.accounts.len() == v.accounts.len()
            &&& w.lists.len() == v.lists.len()
            &&& w.lists[r].len() == v.lists[r].len() + 1
            &&& forall|s: int|
                0 <= s < v.lists.len() && s != r ==> #[trigger] w.lists[s] == v.lists[s]
            &&& w.claims.slots.len() == v.claims.slots.len()
            &&& w.claims.occupied(i)
            &&& w.claims.generation(i) == v.claims.generation(i)
            &&& w.claims.at(i).account == v.claims.at(i).account
            &&& w.claims.at(i).amount == keep
            &&& w.claims.at(i).owner == v.claims.at(i).owner
            &&& w.claims.at(i).list() == Some(request)
            &&& forall|j: u32| #[trigger] w.claims.occupied(j) <==> v.claims.occupied(j)
            &&& forall|j: u32|
                j != i && v.claims.occupied(j) ==> #[trigger] w.claims.at(j) == v.claims.at(j)
                    && w.claims.generation(j) == v.claims.generation(j)
        }),
{
    assert(v.placed(i));
    committed_wf(v, i, request, keep);
}

/// **Committing the requester's claim and starting to settle leaves the book sound**, but for the
/// makers' claims still to come.
pub proof fn settling_sound(v: LedgerView, request: ReqIdx, keep: Amount, deadline: Ts)
    requires
        v.wf(),
        v.sound_book(),
        v.requests.names(request),
        v.requests.of(request).state is Open,
        v.requests.of(request).claim is Some,
        keep.0 <= v.claims.of(v.requests.of(request).claim->0).amount.0,
    ensures
        ({
            let w = v.settling(request, keep, deadline);
            &&& w.wf()
            &&& w.sound_but(request, v.requests.of(request).n_legs as nat)
            &&& w.quotes == v.quotes
            &&& w.requests.names(request)
            &&& w.requests.of(request).state is Settling
            &&& w.requests.of(request).n_legs == v.requests.of(request).n_legs
            &&& w.requests.of(request).claim == v.requests.of(request).claim
            &&& w.contracts == v.contracts
            &&& w.accounts.len() == v.accounts.len()
            &&& w.claims.at(v.requests.of(request).claim->0.index()).amount == keep
            &&& forall|j: u32|
                j != v.requests.of(request).claim->0.index() && v.claims.occupied(j)
                    ==> #[trigger] w.claims.occupied(j) && w.claims.at(j) == v.claims.at(j)
                    && w.claims.generation(j) == v.claims.generation(j)
        }),
{
    broadcast use handle_of;

    let r0 = request.index();
    let claim = v.requests.of(request).claim->0;
    let c = claim.index();
    let state = RequestState::Settling { nonce: Nonce::naming(request), deadline };
    open_claim_is_reserved(v, request);
    committing(v, c, request, keep);
    let u = v.committed(c, request, keep);
    let w = v.settling(request, keep, deadline);
    let record = u.requests.of(request);
    request_rewritten_wf(
        u,
        request,
        Request { state, legs: emptied_legs(record.legs), ..record },
    );
    legs_fit(v);
    left_measures(u, request, state);
    handle_extensional(request, v.request_handle(r0));
    assert(v.request_ok(r0));
    assert forall|r: u32| r != r0 implies #[trigger] w.request_ok(r) by {
        assert(v.request_ok(r));
        if v.requests.occupied(r) {
            assert forall|i: u32|
                v.quotes.occupied(i) && v.quotes.at(i).request == Some(v.request_handle(r))
                    && v.quotes.at(i).state is Active implies #[trigger] quote_kept(v, w, i) by {}
            assert(w.lists[r as int] == v.lists[r as int]);
            request_kept(v, w, r, 0);
        }
    }
    assert(w.request_ok_but(r0, v.requests.of(request).n_legs as nat)) by {
        assert(w.request_handle(r0) == request);
    }
    assert forall|i: u32| #[trigger] w.claim_ok(i) by {
        assert(v.claim_ok(i));
        if w.claims.occupied(i) {
            assert(v.claims.occupied(i));
            if i == c {
                assert(w.requests.names(request));
            } else {
                assert(w.claims.at(i) == v.claims.at(i));
                assert(v.owned(i));
                match v.claims.at(i).owner {
                    ResOwner::Quote(quote) => {},
                    ResOwner::Request(other) => {
                        if other.index() == r0 {
                            handle_extensional(other, request);
                            one_claim_per_owner(v, i, c);
                        }
                    },
                }
                same_owner_claim_ok(v, w, i);
            }
        }
    }
}

/// **Committing a winner's claim and consuming its quote leaves the book sound**, with one maker
/// fewer to come.
pub proof fn consumed_sound(v: LedgerView, quote: QuoteIdx, request: ReqIdx, short: nat)
    requires
        v.wf(),
        v.sound_but(request, short),
        short > 0,
        v.requests.names(request),
        v.requests.of(request).state is Settling,
        v.quotes.names(quote),
        v.quotes.of(quote).state is Active,
        v.quotes.of(quote).request == Some(request),
        v.quotes.of(quote).claim is Some,
    ensures
        ({
            let w = v.consumed(quote, request);
            &&& w.wf()
            &&& w.sound_but(request, (short - 1) as nat)
            &&& w.requests == v.requests
            &&& w.contracts == v.contracts
            &&& w.accounts.len() == v.accounts.len()
            &&& w.quotes.slots.len() == v.quotes.slots.len()
            &&& w.quotes.names(quote)
            &&& w.quotes.of(quote) == (Quote {
                state: QuoteState::Consumed,
                next_on_leg: Link(NIL),
                ..v.quotes.of(quote)
            })
            &&& forall|j: u32|
                j != quote.index() && v.quotes.occupied(j) ==> #[trigger] w.quotes.occupied(j)
                    && w.quotes.at(j) == v.quotes.at(j) && w.quotes.generation(j)
                    == v.quotes.generation(j)
            &&& forall|j: u32| #[trigger] w.claims.occupied(j) <==> v.claims.occupied(j)
        }),
{
    broadcast use handle_of;

    let r0 = request.index();
    let claim = v.quotes.of(quote).claim->0;
    let c = claim.index();
    standing_claim_is_reserved(v, quote);
    let amount = v.claims.of(claim).amount;
    committing(v, c, request, amount);
    let u = v.committed(c, request, amount);
    let w = v.consumed(quote, request);
    let rewritten = Quote {
        state: QuoteState::Consumed,
        next_on_leg: Link(NIL),
        ..u.quotes.of(quote)
    };
    quote_rewritten_wf(u, quote, rewritten);
    assert forall|r: u32| v.requests.occupied(r) implies (#[trigger] v.requests.at(r)).n_legs
        <= MAX_LEGS by {
        if r != r0 {
            assert(v.request_ok(r));
        }
    }
    measures_of_the_same(v, w);
    handle_extensional(request, v.request_handle(r0));
    assert forall|r: u32| r != r0 implies #[trigger] w.request_ok(r) by {
        assert(v.request_ok(r));
        if v.requests.occupied(r) {
            assert forall|i: u32|
                v.quotes.occupied(i) && v.quotes.at(i).request == Some(v.request_handle(r))
                    && v.quotes.at(i).state is Active implies #[trigger] quote_kept(v, w, i) by {}
            assert(w.lists[r as int] == v.lists[r as int]);
            request_kept(v, w, r, 0);
        }
    }
    assert forall|i: u32| #[trigger] w.claim_ok(i) by {
        assert(v.claim_ok(i));
        if w.claims.occupied(i) {
            assert(v.claims.occupied(i));
            if i == c {
                assert(w.quotes.names(quote));
            } else {
                assert(w.claims.at(i) == v.claims.at(i));
                assert(v.owned(i));
                match v.claims.at(i).owner {
                    ResOwner::Quote(other) => {
                        if other.index() == quote.index() {
                            handle_extensional(other, quote);
                            one_claim_per_owner(v, i, c);
                        }
                    },
                    ResOwner::Request(_) => {},
                }
                same_owner_claim_ok(v, w, i);
            }
        }
    }
}

/// The quote in slot `j` is the same in `w`.
pub open spec fn quote_same(v: LedgerView, w: LedgerView, j: u32) -> bool {
    w.quotes.occupied(j) && w.quotes.at(j) == v.quotes.at(j) && w.quotes.generation(j)
        == v.quotes.generation(j)
}

/// **Releasing a standing quote whose request is no longer open leaves the book sound.**
pub proof fn dismissed_sound(v: LedgerView, quote: QuoteIdx)
    requires
        v.wf(),
        v.sound_book(),
        v.quotes.names(quote),
        v.quotes.of(quote).state is Active,
        v.quotes.of(quote).request matches Some(request) ==> v.requests.names(request)
            && v.requests.of(request).state !is Open,
    ensures
        v.quote_freed(quote).wf(),
        v.quote_freed(quote).close_quote_refused(quote) is None,
        v.dismissed(quote).wf(),
        v.dismissed(quote).sound_book(),
        v.dismissed(quote).contracts == v.contracts,
        v.dismissed(quote).accounts.len() == v.accounts.len(),
        forall|r: u32| #[trigger] v.same_request_at(v.dismissed(quote), r),
        forall|r: u32|
            v.requests.occupied(r) ==> (#[trigger] v.dismissed(quote).requests.at(r))
                == v.requests.at(r),
        forall|j: u32|
            j != quote.index() && v.quotes.occupied(j) ==> #[trigger] quote_same(
                v,
                v.dismissed(quote),
                j,
            ),
{
    broadcast use handle_of;

    let u = v.quote_freed(quote);
    freed_sound(v, quote);
    assert(v.same_quote(u, quote.index()));
    match v.quotes.of(quote).request {
        Some(request) => {
            assert(v.same_request_at(u, request.index()));
        },
        None => {},
    }
    unshelved(u, quote.index());
    quote_closed_sound(u, quote);
    let w = v.dismissed(quote);
    assert forall|r: u32| #[trigger] v.same_request_at(w, r) by {
        assert(v.same_request_at(u, r));
    }
    assert forall|r: u32| v.requests.occupied(r) implies (#[trigger] w.requests.at(r))
        == v.requests.at(r) by {
        assert(v.same_request_at(u, r));
        assert(u.requests.at(r).claim == v.requests.at(r).claim);
    }
    assert forall|j: u32| j != quote.index() && v.quotes.occupied(j) implies
        #[trigger] quote_same(v, w, j) by {
        assert(v.same_quote(u, j));
        assert(u.quotes.at(j).claim == v.quotes.at(j).claim);
    }
}

/// **Releasing a standing quote's claim leaves the book sound**, and the quote holding nothing.
pub proof fn freed_sound(v: LedgerView, quote: QuoteIdx)
    requires
        v.wf(),
        v.sound_book(),
        v.quotes.names(quote),
        v.quotes.of(quote).state is Active,
    ensures
        ({
            let u = v.quote_freed(quote);
            &&& u.wf()
            &&& u.sound_book()
            &&& v.trimmed_to(u)
            &&& u.lists == v.lists
            &&& u.quotes.names(quote)
            &&& u.quotes.of(quote).claim is None
            &&& forall|r: u32|
                v.requests.occupied(r) ==> (#[trigger] u.requests.at(r)).claim == v.requests.at(
                    r,
                ).claim
            &&& forall|j: u32|
                j != quote.index() && v.quotes.occupied(j) ==> (#[trigger] u.quotes.at(j)).claim
                    == v.quotes.at(j).claim
        }),
{
    broadcast use handle_of;

    standing_claim_is_reserved(v, quote);
    let u = v.quote_freed(quote);
    match v.quotes.of(quote).claim {
        Some(claim) => {
            let i = claim.index();
            released_sound(v, i);
            released_wf(v, i);
            assert(v.placed(i));
            dropping_trims(v, v.unchained(i), i);
            assert(v.same_quote(u, quote.index()));
            assert forall|j: u32| j != quote.index() && v.quotes.occupied(j) implies (
            #[trigger] u.quotes.at(j)).claim == v.quotes.at(j).claim by {
                assert(v.quote_handle(j) != quote);
            }
        },
        None => {
            assert forall|j: u32| #[trigger] v.same_quote(v, j) by {}
            assert forall|r: u32| #[trigger] v.same_request_at(v, r) by {}
            assert forall|i: u32| #[trigger] v.kept_claim(v, i) by {}
        },
    }
}

/// **Releasing an open request's claim leaves the book sound**, and the request holding nothing.
pub proof fn request_freed_sound(v: LedgerView, request: ReqIdx)
    requires
        v.wf(),
        v.sound_book(),
        v.requests.names(request),
        v.requests.of(request).state is Open,
    ensures
        ({
            let u = v.request_freed(request);
            &&& u.wf()
            &&& u.sound_book()
            &&& v.trimmed_to(u)
            &&& u.requests.names(request)
            &&& u.requests.of(request).claim is None
            &&& u.quotes == v.quotes
        }),
{
    broadcast use handle_of;

    open_claim_is_reserved(v, request);
    let u = v.request_freed(request);
    match v.requests.of(request).claim {
        Some(claim) => {
            let i = claim.index();
            released_sound(v, i);
            released_wf(v, i);
            assert(v.placed(i));
            dropping_trims(v, v.unchained(i), i);
            assert(v.same_request_at(u, request.index()));
        },
        None => {
            assert forall|j: u32| #[trigger] v.same_quote(v, j) by {}
            assert forall|r: u32| #[trigger] v.same_request_at(v, r) by {}
            assert forall|i: u32| #[trigger] v.kept_claim(v, i) by {}
        },
    }
}

// ───────────────────────────── finishing ─────────────────────────────

/// The claim in slot `j` is among the first `n` committed to `request`.
pub open spec fn among(v: LedgerView, request: ReqIdx, n: nat, j: u32) -> bool {
    exists|k: int|
        0 <= k < n && k < v.lists[request.index() as int].len() && #[trigger] v.lists[request.index() as int][k]
            == j
}

/// `owner` owns one of the first `n` claims committed to `request`.
pub open spec fn owner_among(v: LedgerView, request: ReqIdx, n: nat, owner: ResOwner) -> bool {
    exists|k: int|
        0 <= k < n && k < v.lists[request.index() as int].len() && v.claims.at(
            #[trigger] v.lists[request.index() as int][k],
        ).owner == owner
}

/// Discharging the first `n` claims trims exactly those.
pub proof fn discharging_trims(v: LedgerView, request: ReqIdx, n: nat)
    requires
        v.wf(),
        v.requests.names(request),
        n <= v.lists[request.index() as int].len(),
    ensures
        ({
            let w = v.discharged_prefix(request.index() as int, n);
            &&& v.trimmed_to(w)
            &&& forall|j: u32|
                v.claims.occupied(j) ==> (#[trigger] w.claims.occupied(j) <==> !among(
                    v,
                    request,
                    n,
                    j,
                ))
            &&& forall|r: u32|
                v.requests.occupied(r) ==> (#[trigger] w.requests.at(r)).claim == (if owner_among(
                    v,
                    request,
                    n,
                    ResOwner::Request(v.request_handle(r)),
                ) {
                    None
                } else {
                    v.requests.at(r).claim
                })
            &&& forall|j: u32|
                v.quotes.occupied(j) ==> (#[trigger] w.quotes.at(j)).claim == (if owner_among(
                    v,
                    request,
                    n,
                    ResOwner::Quote(v.quote_handle(j)),
                ) {
                    None
                } else {
                    v.quotes.at(j).claim
                })
        }),
    decreases n,
{
    broadcast use handle_of;

    let r0 = request.index() as int;
    let list = v.lists[r0];
    let w = v.discharged_prefix(r0, n);
    if n == 0 {
        assert forall|j: u32| #[trigger] v.same_quote(v, j) by {}
        assert forall|r: u32| #[trigger] v.same_request_at(v, r) by {}
        assert forall|i: u32| #[trigger] v.kept_claim(v, i) by {}
    } else {
        let m = (n - 1) as nat;
        let u = v.discharged_prefix(r0, m);
        discharging_trims(v, request, m);
        discharged_prefix_wf(v, request, m);
        let i = list[m as int];
        assert(u.lists[r0][0] == i);
        discharged_one_wf(u, r0);
        assert(v.list_ok(r0));
        assert(v.claims.occupied(i)) by {
            assert(v.committed_to(list[m as int], v.request_handle(r0 as u32)));
        }
        assert(v.kept_claim(u, i));
        assert(u.claims.at(i) == v.claims.at(i));
        let claim = u.claims.at(i);
        let a = claim.account.0 as int;
        let entry = u.accounts[a];
        let mid = LedgerView {
            accounts: u.accounts.update(
                a,
                crate::account::MirroredBalance {
                    committed: Amount((entry.committed.0 - claim.amount.0) as u64),
                    ..entry
                },
            ),
            lists: u.lists.update(r0, u.lists[r0].drop_first()),
            ..u
        };
        dropping_trims(u, mid, i);
        assert(w == mid.dropped(i));
        trimming_composes(v, u, w);
        assert forall|j: u32| v.claims.occupied(j) implies (#[trigger] w.claims.occupied(j)
            <==> !among(v, request, n, j)) by {
            assert(u.claims.occupied(j) <==> !among(v, request, m, j));
            if among(v, request, n, j) {
                let k = choose|k: int|
                    0 <= k < n && k < list.len() && #[trigger] list[k] == j;
                if k < m {
                    assert(among(v, request, m, j));
                    assert(u.kept_claim(w, j));
                }
            } else {
                if among(v, request, m, j) {
                    let k = choose|k: int|
                        0 <= k < m && k < list.len() && #[trigger] list[k] == j;
                    assert(list[k] == j);
                    assert(among(v, request, n, j));
                }
                if j == i {
                    assert(list[m as int] == j);
                }
            }
        }
        assert forall|owner: ResOwner| #[trigger] owner_among(v, request, n, owner) <==> (
        owner_among(v, request, m, owner) || v.claims.at(i).owner == owner) by {
            if owner_among(v, request, n, owner) {
                let k = choose|k: int|
                    0 <= k < n && k < list.len() && v.claims.at(#[trigger] list[k]).owner == owner;
                if k < m {
                    assert(v.claims.at(list[k]).owner == owner);
                }
            }
            if owner_among(v, request, m, owner) {
                let k = choose|k: int|
                    0 <= k < m && k < list.len() && v.claims.at(#[trigger] list[k]).owner == owner;
                assert(v.claims.at(list[k]).owner == owner);
            }
            if v.claims.at(i).owner == owner {
                assert(v.claims.at(list[m as int]).owner == owner);
            }
        }
        assert forall|r: u32| v.requests.occupied(r) implies (#[trigger] w.requests.at(r)).claim
            == (if owner_among(v, request, n, ResOwner::Request(v.request_handle(r))) {
            None
        } else {
            v.requests.at(r).claim
        }) by {
            assert(v.same_request_at(u, r));
            assert(u.request_handle(r) == v.request_handle(r));
            let _ = u.requests.at(r);
            assert(owner_among(v, request, n, ResOwner::Request(v.request_handle(r))) <==> (
            owner_among(v, request, m, ResOwner::Request(v.request_handle(r))) || v.claims.at(
                i,
            ).owner == ResOwner::Request(v.request_handle(r))));
            if v.claims.at(i).owner == ResOwner::Request(v.request_handle(r)) {
                assert(w.requests.of(v.request_handle(r)).claim is None);
            }
        }
        assert forall|j: u32| v.quotes.occupied(j) implies (#[trigger] w.quotes.at(j)).claim == (
        if owner_among(v, request, n, ResOwner::Quote(v.quote_handle(j))) {
            None
        } else {
            v.quotes.at(j).claim
        }) by {
            assert(v.same_quote(u, j));
            assert(u.quote_handle(j) == v.quote_handle(j));
            let _ = u.quotes.at(j);
            assert(owner_among(v, request, n, ResOwner::Quote(v.quote_handle(j))) <==> (
            owner_among(v, request, m, ResOwner::Quote(v.quote_handle(j))) || v.claims.at(
                i,
            ).owner == ResOwner::Quote(v.quote_handle(j))));
            if v.claims.at(i).owner == ResOwner::Quote(v.quote_handle(j)) {
                assert(w.quotes.of(v.quote_handle(j)).claim is None);
            }
        }
    }
}

/// **Discharging what is committed to a request and finishing it leaves the book sound**: every
/// committed claim is gone, and the winners' quotes hold nothing.
pub proof fn finished_sound(v: LedgerView, request: ReqIdx, state: RequestState)
    requires
        v.wf(),
        v.sound_book(),
        v.requests.names(request),
        v.requests.of(request).state is Settling,
        state.terminal(),
    ensures
        ({
            let w = v.finished(request, state);
            let entries = v.list_entries(request);
            &&& w.wf()
            &&& w.sound_book()
            &&& v.discharged(request).wf()
            &&& v.discharged(request).requests.names(request)
            &&& w.contracts == v.contracts
            &&& w.accounts.len() == v.accounts.len()
            &&& w.requests.names(request)
            &&& w.requests.of(request).state == state
            &&& entries.len() == v.requests.of(request).n_legs + 1
            &&& forall|k: int|
                0 <= k < entries.len() ==> match (#[trigger] entries[k]).0 {
                    ResOwner::Quote(quote) => {
                        &&& v.quotes.names(quote)
                        &&& w.quotes.names(quote)
                        &&& w.quotes.of(quote) == (Quote { claim: None, ..v.quotes.of(quote) })
                        &&& v.quotes.of(quote).state is Consumed
                        &&& v.quotes.of(quote).request == Some(request)
                    },
                    ResOwner::Request(owner) => owner == request,
                }
            &&& forall|j: int, k: int|
                0 <= j < k < entries.len() ==> (#[trigger] entries[j]).0 != (
                #[trigger] entries[k]).0
        }),
{
    broadcast use handle_of;

    let r0 = request.index();
    let r = r0 as int;
    let list = v.lists[r];
    let n = list.len();
    let u = v.discharged_prefix(r, n);
    let mid = v.discharged(request);
    let w = v.finished(request, state);
    let entries = v.list_entries(request);
    assert(v.request_ok(r0));
    assert(v.list_ok(r));
    handle_extensional(request, v.request_handle(r0));
    settling_claim_is_committed(v, request);
    discharging_trims(v, request, n);
    discharged_prefix_wf(v, request, n);
    lists_are_apart(v, r);
    assert(u.requests.of(request).claim is None);
    assert(mid.requests =~= u.requests);
    assert(mid == u);
    request_rewritten_wf(mid, request, Request { state, ..mid.requests.of(request) });
    assert forall|s: u32| #[trigger] w.request_ok(s) by {
        assert(v.request_ok(s));
        assert(v.same_request_at(u, s));
        if s != r0 && v.requests.occupied(s) {
            assert(u.lists[s as int] == v.lists[s as int]);
            if v.requests.at(s).state is Settling {
                if owner_among(v, request, n, ResOwner::Request(v.request_handle(s))) {
                    let k = choose|k: int|
                        0 <= k < n && k < list.len() && v.claims.at(#[trigger] list[k]).owner
                            == ResOwner::Request(v.request_handle(s));
                    assert(v.committed_to(list[k], v.request_handle(r0)));
                    assert(v.claim_ok(list[k]));
                    assert(v.request_handle(s) == request);
                    assert(false);
                }
                assert(u.requests.at(s).claim == v.requests.at(s).claim);
            }
            trimmed_request_ok(v, u, s);
            assert forall|i: u32|
                u.quotes.occupied(i) && u.quotes.at(i).request == Some(u.request_handle(s))
                    && u.quotes.at(i).state is Active implies #[trigger] quote_kept(u, w, i) by {}
            request_kept(u, w, s, 0);
        }
    }
    assert forall|s: u32| u.requests.occupied(s) implies (#[trigger] u.requests.at(s)).n_legs
        <= MAX_LEGS by {
        assert(v.same_request_at(u, s));
        assert(v.request_ok(s));
    }
    assert forall|s: u32| u.requests.occupied(s) implies {
        &&& #[trigger] w.requests.occupied(s)
        &&& w.requests.generation(s) == u.requests.generation(s)
        &&& u.requests.at(s).n_legs <= MAX_LEGS
        &&& same_measure(u.requests.at(s), w.requests.at(s))
        &&& u.requests.at(s).state !is Open ==> w.requests.at(s).state !is Open
    } by {
        assert(u.requests.at(s).n_legs <= MAX_LEGS);
    }
    assert forall|i: u32| #[trigger] w.claim_ok(i) by {
        if w.claims.occupied(i) {
            assert(v.kept_claim(u, i));
            assert(v.claim_ok(i));
            trimmed_claim_ok(v, u, i);
            assert(u.owned(i));
            match u.claims.at(i).owner {
                ResOwner::Quote(_) => {},
                ResOwner::Request(other) => {
                    if other.index() == r0 {
                        assert(false);
                    }
                },
            }
            if let Some(other) = u.claims.at(i).list() {
                assert(u.placed(i));
                assert(u.lists[r].len() == 0);
                assert(other.index() != r0);
            }
            same_owner_claim_ok(u, w, i);
        }
    }
    assert forall|k: int| 0 <= k < entries.len() implies match (#[trigger] entries[k]).0 {
        ResOwner::Quote(quote) => {
            &&& v.quotes.names(quote)
            &&& w.quotes.names(quote)
            &&& w.quotes.of(quote) == (Quote { claim: None, ..v.quotes.of(quote) })
            &&& v.quotes.of(quote).state is Consumed
            &&& v.quotes.of(quote).request == Some(request)
        },
        ResOwner::Request(owner) => owner == request,
    } by {
        let i = list[k];
        assert(v.committed_to(list[k], v.request_handle(r0)));
        assert(v.claim_ok(i));
        assert(v.owned(i));
        match v.claims.at(i).owner {
            ResOwner::Quote(quote) => {
                assert(v.same_quote(u, quote.index()));
                handle_extensional(quote, v.quote_handle(quote.index()));
                assert(owner_among(v, request, n, ResOwner::Quote(quote)));
                assert(u.quotes.at(quote.index()).claim is None);
            },
            ResOwner::Request(_) => {},
        }
    }
    assert forall|j: int, k: int| 0 <= j < k < entries.len() implies (#[trigger] entries[j]).0 != (
    #[trigger] entries[k]).0 by {
        assert(v.committed_to(list[j], v.request_handle(r0)));
        assert(v.committed_to(list[k], v.request_handle(r0)));
        if entries[j].0 == entries[k].0 {
            one_claim_per_owner(v, list[j], list[k]);
        }
    }
}

} // verus!
