//! What each command keeps of the state it acts on.

use crate::account::AccountIdx;
use crate::arrays::array_from_holds;
use crate::command::{Command, ExpectedFill, LegSpec};
use crate::config::MAX_LEGS;
use crate::engine::accepting::{
    all_quotes_are, consumable, fills_are_within_limits, gathered, losers_are, loses, sweepable,
    winner_is,
};
use crate::engine::book::stake;
use crate::engine::closing::{
    consumed_sound, discharging_trims, dismissed_sound, finished_sound, freed_sound,
    open_claim_is_reserved, quote_same, rejected_sound, request_freed_sound, settling_sound,
    standing_claim_is_reserved,
};
use crate::engine::model::{asked_total, request_record, EngineView};
use crate::engine::opening::limit_total_grows;
use crate::engine::quoting::{
    cleared_sound, open_leg, published_sound, replacement_is_admissible, standing_is,
};
use crate::engine::shelf::{
    linked_sound, quote_closed_sound, quote_opened_sound, unlinked_sound, unshelved,
};
use crate::engine::steps::{normalised_sound, request_opened_sound, unrelated_sound};
use crate::ledger::laws::{
    claims_shrink, committed_shrinks, committing_moves_a_claim, discharged_shrinks, normalised_shrinks, released_shrinks,
    shrinking_composes, shrinking_keeps_coverage,
};
use crate::ledger::model::LedgerView;
use crate::quote::{Quote, QuoteIdx};
use crate::request::{Leg, ReqIdx, Request, RequestState};
use crate::reservation::ResOwner;
use crate::slab::{handle_extensional, handle_of, inserted_wf};
use crate::types::{Amount, LegId, Price, Size, Ts, UNIT};
use vstd::prelude::*;

verus! {

/// An accept without a refused leg has none among its first legs.
pub proof fn no_fill_fault_before(
    engine: EngineView,
    request: ReqIdx,
    expected: [ExpectedFill; MAX_LEGS],
    now: Ts,
    n: nat,
    l: nat,
)
    requires
        engine.first_fill_fault(request, expected, now, n) is None,
        l < n,
    ensures
        engine.fill_fault(request, expected, now, l as int) is None,
    decreases n,
{
    if l < n - 1 {
        no_fill_fault_before(engine, request, expected, now, (n - 1) as nat, l);
    }
}

/// An accept without a refused leg has a fill on every leg.
pub proof fn fills_are_found(
    engine: EngineView,
    request: ReqIdx,
    expected: [ExpectedFill; MAX_LEGS],
    now: Ts,
    n: nat,
)
    requires
        engine.first_fill_fault(request, expected, now, n) is None,
    ensures
        forall|l: int| 0 <= l < n ==> (#[trigger] engine.ledger.fill(request, l, now)) is Ok,
{
    assert forall|l: int| 0 <= l < n implies (#[trigger] engine.ledger.fill(
        request,
        l,
        now,
    )) is Ok by {
        no_fill_fault_before(engine, request, expected, now, n, l as nat);
    }
}

// ───────────────────────────── what every command keeps ─────────────────────────────

/// What a command may do to a request's state; only one that is `answered` ends its settling.
pub open spec fn may_become(before: RequestState, after: RequestState, answered: bool) -> bool {
    ||| after == before
    ||| before is Open && (after is Rejected || after is Settling)
    ||| answered && before is Settling && (after is Escrowed || after is SettlementFailed)
}

/// The request in slot `r` is still there, in a state it may have come to.
pub open spec fn request_moves(v: LedgerView, w: LedgerView, r: u32, answered: Option<u32>) -> bool {
    v.requests.occupied(r) ==> {
        &&& w.requests.occupied(r)
        &&& w.requests.generation(r) == v.requests.generation(r)
        &&& w.requests.at(r).requester == v.requests.at(r).requester
        &&& w.requests.at(r).n_legs == v.requests.at(r).n_legs
        &&& may_become(v.requests.at(r).state, w.requests.at(r).state, answered == Some(r))
    }
}

/// The request in slot `r` is still there, in the same state.
pub open spec fn request_stays(v: LedgerView, w: LedgerView, r: u32) -> bool {
    v.requests.occupied(r) ==> {
        &&& w.requests.occupied(r)
        &&& w.requests.generation(r) == v.requests.generation(r)
        &&& w.requests.at(r).requester == v.requests.at(r).requester
        &&& w.requests.at(r).n_legs == v.requests.at(r).n_legs
        &&& w.requests.at(r).state == v.requests.at(r).state
    }
}

/// Nobody's mirrored balance has moved.
pub open spec fn same_mirror(v: LedgerView, w: LedgerView) -> bool {
    forall|a: int|
        0 <= a < v.accounts.len() ==> (#[trigger] w.accounts[a]).free == v.accounts[a].free
}

/// What no command but a mirror update or an oracle's word goes beyond.
pub open spec fn keeps(v: LedgerView, w: LedgerView, answered: Option<u32>) -> bool {
    &&& w.wf()
    &&& w.sound_book()
    &&& w.accounts.len() == v.accounts.len()
    &&& w.contracts == v.contracts
    &&& v.covered() ==> w.covered()
    &&& same_mirror(v, w)
    &&& forall|r: u32| #[trigger] request_moves(v, w, r, answered)
}

/// Nobody has more or less committed.
pub open spec fn same_committed(v: LedgerView, w: LedgerView) -> bool {
    forall|a: int|
        0 <= a < v.accounts.len() ==> (#[trigger] w.accounts[a]).committed
            == v.accounts[a].committed
}

/// What the claims behind the first `n` of `quotes` hold of account `a`'s.
pub open spec fn staked(v: LedgerView, quotes: Seq<QuoteIdx>, a: int, n: nat) -> int
    decreases n,
{
    if n == 0 {
        0
    } else {
        let record = v.quotes.of(quotes[n - 1]);
        staked(v, quotes, a, (n - 1) as nat) + (if record.maker.0 == a {
            v.claims.of(record.claim->0).amount.0 as int
        } else {
            0
        })
    }
}

/// `quote` and what its claim holds are as they were.
pub open spec fn stake_same(v: LedgerView, w: LedgerView, quote: QuoteIdx) -> bool {
    let record = v.quotes.of(quote);
    &&& w.quotes.of(quote) == record
    &&& w.claims.of(record.claim->0).amount == v.claims.of(record.claim->0).amount
}

proof fn staked_alike(v: LedgerView, w: LedgerView, quotes: Seq<QuoteIdx>, a: int, n: nat)
    requires
        n <= quotes.len(),
        forall|k: int| 0 <= k < n ==> stake_same(v, w, #[trigger] quotes[k]),
    ensures
        staked(w, quotes, a, n) == staked(v, quotes, a, n),
    decreases n,
{
    if n > 0 {
        staked_alike(v, w, quotes, a, (n - 1) as nat);
        assert(stake_same(v, w, quotes[n - 1]));
    }
}

/// Releasing a quote's claim, and nothing else.
pub proof fn freed_shrinks(v: LedgerView, quote: QuoteIdx)
    requires
        v.wf(),
        v.sound_book(),
        v.quotes.names(quote),
        v.quotes.of(quote).state is Active,
    ensures
        claims_shrink(v, v.quote_freed(quote)),
        same_committed(v, v.quote_freed(quote)),
{
    standing_claim_is_reserved(v, quote);
    match v.quotes.of(quote).claim {
        Some(claim) => {
            released_shrinks(v, claim.index());
            assert(v.placed(claim.index()));
        },
        None => {},
    }
}

/// What sweeping quotes keeps.
pub proof fn swept_keeps(v: LedgerView, quotes: Seq<QuoteIdx>, n: nat)
    requires
        v.wf(),
        v.sound_book(),
        n <= quotes.len(),
        quotes.no_duplicates(),
        forall|k: int| 0 <= k < quotes.len() ==> sweepable(v, #[trigger] quotes[k]),
    ensures
        ({
            let w = v.swept(quotes, n);
            &&& w.wf()
            &&& w.sound_book()
            &&& w.contracts == v.contracts
            &&& claims_shrink(v, w)
            &&& same_committed(v, w)
            &&& forall|r: u32| #[trigger] v.same_request_at(w, r)
            &&& forall|k: int|
                n <= k < quotes.len() ==> quote_same(v, w, (#[trigger] quotes[k]).index())
        }),
    decreases n,
{
    broadcast use handle_of;

    if n == 0 {
        assert forall|r: u32| #[trigger] v.same_request_at(v, r) by {}
        assert forall|k: int| 0 <= k < quotes.len() implies quote_same(
            v,
            v,
            (#[trigger] quotes[k]).index(),
        ) by {
            assert(sweepable(v, quotes[k]));
        }
    } else {
        let m = (n - 1) as nat;
        swept_keeps(v, quotes, m);
        let u = v.swept(quotes, m);
        let quote = quotes[m as int];
        let w = v.swept(quotes, n);
        assert(sweepable(v, quotes[m as int]));
        assert(quote_same(v, u, quotes[m as int].index()));
        assert(v.same_request_at(u, v.quotes.of(quote).request->0.index()));
        dismissed_sound(u, quote);
        freed_shrinks(u, quote);
        assert(claims_shrink(u, w));
        assert(same_committed(u, w));
        shrinking_composes(v, u, w);
        assert forall|a: int| 0 <= a < v.accounts.len() implies (
        #[trigger] w.accounts[a]).committed == v.accounts[a].committed by {
            assert(u.accounts[a].committed == v.accounts[a].committed);
        }
        assert forall|r: u32| #[trigger] v.same_request_at(w, r) by {
            assert(v.same_request_at(u, r));
            assert(u.same_request_at(w, r));
        }
        assert forall|k: int| n <= k < quotes.len() implies quote_same(
            v,
            w,
            (#[trigger] quotes[k]).index(),
        ) by {
            assert(quote_same(v, u, quotes[k].index()));
            assert(sweepable(v, quotes[k]));
            if quotes[k].index() == quote.index() {
                handle_extensional(quotes[k], quote);
            }
            assert(quote_same(u, u.dismissed(quote), quotes[k].index()));
        }
    }
}

/// What consuming winners keeps.
pub proof fn all_consumed_keeps(v: LedgerView, quotes: Seq<QuoteIdx>, request: ReqIdx, n: nat)
    requires
        v.wf(),
        v.sound_but(request, quotes.len()),
        v.requests.names(request),
        v.requests.of(request).state is Settling,
        n <= quotes.len(),
        quotes.no_duplicates(),
        forall|k: int| 0 <= k < quotes.len() ==> consumable(v, request, #[trigger] quotes[k]),
    ensures
        ({
            let w = v.all_consumed(quotes, request, n);
            &&& w.wf()
            &&& w.sound_but(request, (quotes.len() - n) as nat)
            &&& w.contracts == v.contracts
            &&& w.requests == v.requests
            &&& claims_shrink(v, w)
            &&& forall|a: int|
                0 <= a < v.accounts.len() ==> (#[trigger] w.accounts[a]).committed.0
                    == v.accounts[a].committed.0 + staked(v, quotes, a, n)
            &&& forall|j: u32|
                v.quotes.occupied(j) && (forall|k: int|
                    0 <= k < n ==> (#[trigger] quotes[k]).index() != j) ==> #[trigger] quote_same(
                    v,
                    w,
                    j,
                )
        }),
    decreases n,
{
    if n > 0 {
        let m = (n - 1) as nat;
        all_consumed_keeps(v, quotes, request, m);
        let u = v.all_consumed(quotes, request, m);
        let quote = quotes[m as int];
        let w = v.all_consumed(quotes, request, n);
        assert(consumable(v, request, quotes[m as int]));
        assert forall|i: int| 0 <= i < m implies (#[trigger] quotes[i]).index()
            != quote.index() by {
            assert(consumable(v, request, quotes[i]));
            if quotes[i].index() == quote.index() {
                handle_extensional(quotes[i], quote);
            }
        }
        assert(quote_same(v, u, quote.index()));
        standing_claim_is_reserved(u, quote);
        consumed_sound(u, quote, request, (quotes.len() - m) as nat);
        let claim = u.quotes.of(quote).claim->0;
        committed_shrinks(u, claim.index(), request, u.claims.of(claim).amount);
        assert(claims_shrink(u, w));
        shrinking_composes(v, u, w);
        standing_claim_is_reserved(v, quote);
        committing_moves_a_claim(u, claim.index(), request, u.claims.of(claim).amount);
        assert(u.claim_ok(claim.index()));
        assert(v.claim_ok(claim.index()));
        assert(u.placed(claim.index()));
        assert(u.claims.of(claim).amount == v.claims.of(claim).amount);
        assert(u.claims.of(claim).account == v.quotes.of(quote).maker);
        assert forall|a: int| 0 <= a < v.accounts.len() implies (
        #[trigger] w.accounts[a]).committed.0 == v.accounts[a].committed.0 + staked(
            v,
            quotes,
            a,
            n,
        ) by {
            assert(u.accounts[a].committed.0 == v.accounts[a].committed.0 + staked(
                v,
                quotes,
                a,
                m,
            ));
        }
        assert forall|j: u32|
            v.quotes.occupied(j) && (forall|k: int|
                0 <= k < n ==> (#[trigger] quotes[k]).index() != j) implies #[trigger] quote_same(
            v,
            w,
            j,
        ) by {
            assert(quotes[m as int].index() != j);
            assert(quote_same(v, u, j));
            assert(u.quotes.occupied(j));
            assert(w.quotes.occupied(j));
        }
    }
}

/// What withdrawing a request keeps.
pub proof fn reject_keeps(engine: EngineView, request: ReqIdx, room: nat)
    requires
        engine.wf(),
        engine.on_reject(request, room) is Ok,
    ensures
        keeps(engine.ledger, engine.on_reject(request, room)->Ok_0.ledger, None),
{
    broadcast use handle_of;

    let v = engine.ledger;
    let record = v.requests.of(request);
    let n = record.n_legs as nat;
    let quotes = v.all_quotes(request, n);
    assert(v.request_ok(request.index()));
    all_quotes_are(v, request, n);
    open_claim_is_reserved(v, request);
    request_freed_sound(v, request);
    let freed = v.request_freed(request);
    assert(v.same_request_at(freed, request.index()));
    rejected_sound(freed, request, RequestState::Rejected);
    let left = freed.left_in(request, RequestState::Rejected);
    match record.claim {
        Some(claim) => {
            released_shrinks(v, claim.index());
        },
        None => {},
    }
    assert(claims_shrink(v, left));
    assert forall|k: int| 0 <= k < quotes.len() implies sweepable(left, #[trigger] quotes[k]) by {
        assert(gathered(v, request, n as int, quotes[k]));
    }
    swept_keeps(left, quotes, quotes.len());
    let w = left.swept(quotes, quotes.len());
    shrinking_composes(v, left, w);
    if v.covered() {
        shrinking_keeps_coverage(v, w);
    }
    assert forall|r: u32| #[trigger] request_moves(v, w, r, None) by {
        assert(v.same_request_at(freed, r));
        assert(left.same_request_at(w, r));
    }
}

/// What accepting `request` at `now` commits of account `a`'s: what the requester pays, and the
/// stakes of the legs the account wins.
pub open spec fn taken_by_accept(v: LedgerView, request: ReqIdx, now: Ts, a: int) -> int {
    let record = v.requests.of(request);
    let n = record.n_legs as nat;
    (if record.requester.0 == a {
        v.fill_total(request, now, n)
    } else {
        0
    }) + staked(v, v.winners(request, now, n), a, n)
}

/// What accepting a request keeps, and what it commits.
pub proof fn accept_keeps(
    engine: EngineView,
    request: ReqIdx,
    expected: [ExpectedFill; MAX_LEGS],
    n_legs: u8,
    now: Ts,
    room: nat,
)
    requires
        engine.wf(),
        engine.accept_refused(request, expected, n_legs, now, room) is None,
    ensures
        keeps(engine.ledger, engine.accepted(request, now), None),
        forall|a: int|
            0 <= a < engine.ledger.accounts.len() ==> (#[trigger] engine.accepted(
                request,
                now,
            ).accounts[a]).committed.0 == engine.ledger.accounts[a].committed.0
                + taken_by_accept(engine.ledger, request, now, a),
{
    broadcast use handle_of;

    let v = engine.ledger;
    let record = v.requests.of(request);
    let n = record.n_legs as nat;
    assert(v.request_ok(request.index()));
    fills_are_found(engine, request, expected, now, n);
    assert forall|l: int| 0 <= l < n implies {
        &&& gathered(v, request, n as int, #[trigger] v.winner(request, l, now))
        &&& v.quotes.of(v.winner(request, l, now)).leg.0 == l
    } by {
        assert(v.fill(request, l, now) is Ok);
        winner_is(v, request, l, now);
    }
    losers_are(v, request, now, n);
    fills_are_within_limits(v, request, now, n);
    open_claim_is_reserved(v, request);
    let total = Amount(v.fill_total(request, now, n) as u64);
    let deadline = now.plus(engine.config.max_settling_time);
    let winners = v.winners(request, now, n);
    let losers = v.losers(request, now, n);
    settling_sound(v, request, total, deadline);
    let settling = v.settling(request, total, deadline);
    let claim = record.claim->0;
    committed_shrinks(v, claim.index(), request, total);
    assert(claims_shrink(v, settling));
    assert forall|k: int| 0 <= k < winners.len() implies consumable(
        settling,
        request,
        #[trigger] winners[k],
    ) by {
        assert(winners[k] == v.winner(request, k, now));
    }
    assert forall|j: int, k: int| 0 <= j < k < winners.len() implies winners[j] != winners[k] by {
        assert(winners[j] == v.winner(request, j, now));
        assert(winners[k] == v.winner(request, k, now));
    }
    all_consumed_keeps(settling, winners, request, n);
    let consumed = settling.all_consumed(winners, request, n);
    assert forall|r: u32| #[trigger] consumed.request_ok(r) by {
        if r == request.index() {
            assert(consumed.request_ok_but(r, 0));
        }
    }
    assert forall|k: int| 0 <= k < losers.len() implies sweepable(
        consumed,
        #[trigger] losers[k],
    ) by {
        let quote = losers[k];
        assert(loses(v, request, n as int, now, quote));
        assert forall|j: int| 0 <= j < n implies (#[trigger] winners[j]).index()
            != quote.index() by {
            assert(winners[j] == v.winner(request, j, now));
            if winners[j].index() == quote.index() {
                handle_extensional(winners[j], quote);
            }
        }
        assert(quote_same(settling, consumed, quote.index()));
    }
    swept_keeps(consumed, losers, losers.len());
    let w = consumed.swept(losers, losers.len());
    shrinking_composes(v, settling, consumed);
    shrinking_composes(v, consumed, w);
    if v.covered() {
        shrinking_keeps_coverage(v, w);
    }
    assert forall|r: u32| #[trigger] request_moves(v, w, r, None) by {
        assert(consumed.same_request_at(w, r));
    }
    committing_moves_a_claim(v, claim.index(), request, total);
    assert(v.placed(claim.index()));
    assert forall|k: int| 0 <= k < n implies stake_same(v, settling, #[trigger] winners[k]) by {
        assert(winners[k] == v.winner(request, k, now));
        assert(consumable(settling, request, winners[k]));
        standing_claim_is_reserved(v, winners[k]);
        let backing = v.quotes.of(winners[k]).claim->0;
        assert(settling.claims.occupied(backing.index()));
    }
    assert forall|a: int| 0 <= a < v.accounts.len() implies (
    #[trigger] w.accounts[a]).committed.0 == v.accounts[a].committed.0 + taken_by_accept(
        v,
        request,
        now,
        a,
    ) by {
        staked_alike(v, settling, winners, a, n);
        assert(consumed.accounts[a].committed.0 == settling.accounts[a].committed.0 + staked(
            settling,
            winners,
            a,
            n,
        ));
        assert(w.accounts[a].committed == consumed.accounts[a].committed);
    }
}

/// What closing the winners' quotes of a finished request keeps.
pub proof fn owners_closed_keeps(
    finished: LedgerView,
    owners: Seq<(ResOwner, Amount)>,
    n: nat,
)
    requires
        finished.wf(),
        finished.sound_book(),
        n <= owners.len(),
        forall|k: int|
            0 <= k < owners.len() ==> match (#[trigger] owners[k]).0 {
                ResOwner::Quote(quote) => finished.quotes.names(quote) && finished.quotes.of(
                    quote,
                ).claim is None && finished.quotes.of(quote).state is Consumed,
                ResOwner::Request(_) => true,
            },
        forall|j: int, k: int|
            0 <= j < k < owners.len() ==> (#[trigger] owners[j]).0 != (#[trigger] owners[k]).0,
    ensures
        ({
            let w = finished.owners_closed(owners, n);
            &&& w.wf()
            &&& w.sound_book()
            &&& w.contracts == finished.contracts
            &&& w.accounts == finished.accounts
            &&& w.requests == finished.requests
            &&& forall|k: int|
                n <= k < owners.len() ==> match (#[trigger] owners[k]).0 {
                    ResOwner::Quote(quote) => quote_same(finished, w, quote.index()),
                    ResOwner::Request(_) => true,
                }
        }),
    decreases n,
{
    broadcast use handle_of;

    if n > 0 {
        let m = (n - 1) as nat;
        owners_closed_keeps(finished, owners, m);
        let u = finished.owners_closed(owners, m);
        let w = finished.owners_closed(owners, n);
        match owners[m as int].0 {
            ResOwner::Quote(quote) => {
                assert(quote_same(finished, u, quote.index()));
                unshelved(u, quote.index());
                quote_closed_sound(u, quote);
                assert forall|k: int| n <= k < owners.len() implies match (
                #[trigger] owners[k]).0 {
                    ResOwner::Quote(other) => quote_same(finished, w, other.index()),
                    ResOwner::Request(_) => true,
                } by {
                    match owners[k].0 {
                        ResOwner::Quote(other) => {
                            assert(quote_same(finished, u, other.index()));
                            assert(owners[m as int].0 != owners[k].0);
                            if other.index() == quote.index() {
                                handle_extensional(other, quote);
                            }
                        },
                        ResOwner::Request(_) => {},
                    }
                }
            },
            ResOwner::Request(_) => {},
        }
    }
}

/// What finishing a settling request keeps.
pub proof fn discharge_keeps(engine: EngineView, request: ReqIdx, state: RequestState)
    requires
        engine.wf(),
        engine.ledger.requests.names(request),
        engine.ledger.requests.of(request).state is Settling,
        state is Escrowed || state is SettlementFailed,
    ensures
        keeps(engine.ledger, engine.discharged(request, state), Some(request.index())),
{
    broadcast use handle_of;

    let v = engine.ledger;
    finished_sound(v, request, state);
    let finished = v.finished(request, state);
    let owners = v.list_entries(request);
    owners_closed_keeps(finished, owners, owners.len());
    let w = engine.discharged(request, state);
    discharged_shrinks(v, request);
    assert(claims_shrink(v, w));
    if v.covered() {
        shrinking_keeps_coverage(v, w);
    }
    let n = v.lists[request.index() as int].len();
    discharging_trims(v, request, n);
    let trimmed = v.discharged_prefix(request.index() as int, n);
    assert(v.same_request_at(trimmed, request.index()));
    assert forall|r: u32| #[trigger] request_moves(v, w, r, Some(request.index())) by {
        assert(v.same_request_at(trimmed, r));
    }
}

/// What opening a request keeps.
pub proof fn request_keeps(
    engine: EngineView,
    requester: AccountIdx,
    deadline: Ts,
    legs: [LegSpec; MAX_LEGS],
    n_legs: u8,
    now: Ts,
    room: nat,
)
    requires
        engine.wf(),
        engine.request_refused(requester, deadline, legs, n_legs, now, room) is None,
    ensures
        keeps(
            engine.ledger,
            engine.ledger.request_opened_reserving(
                request_record(requester, deadline, legs, n_legs),
                Amount(asked_total(legs, n_legs) as u64),
            ),
            None,
        ),
{
    broadcast use {handle_of, array_from_holds};

    let v = engine.ledger;
    let record = request_record(requester, deadline, legs, n_legs);
    limit_total_grows(record.legs@, 0, n_legs as nat);
    let amount = Amount(asked_total(legs, n_legs) as u64);
    request_opened_sound(v, record, amount);
    let w = v.request_opened_reserving(record, amount);
    inserted_wf(v.requests, record);
    if v.covered() {
        assert forall|a: int| 0 <= a < w.accounts.len() implies (
        #[trigger] w.accounts[a]).covered() by {
            assert(v.accounts[a].covered());
        }
    }
    assert forall|r: u32| #[trigger] request_moves(v, w, r, None) by {}
}

/// What a quote keeps.
pub proof fn quote_keeps(
    engine: EngineView,
    maker: AccountIdx,
    request: ReqIdx,
    leg: LegId,
    price: Price,
    size: Size,
    expires_at: Ts,
    now: Ts,
    room: nat,
)
    requires
        engine.wf(),
        engine.quote_refused(maker, request, leg, price, size, expires_at, now, room) is None,
    ensures
        keeps(
            engine.ledger,
            engine.quoted(maker, request, leg, price, size, expires_at).published(
                request,
                leg.0 as int,
                now,
            ),
            None,
        ),
{
    broadcast use {handle_of, array_from_holds};

    let v = engine.ledger;
    let l = leg.0 as int;
    let record = engine.quote_record(maker, request, leg, price, size, expires_at);
    let amount = Amount(stake(v.leg_at(request, l), price.0 as int) as u64);
    let prior = engine.old_quote(maker, request, l);
    let (units, spread) = (v.leg_at(request, l).size.0 as int, UNIT - price.0);
    assert(0 <= units * spread) by (nonlinear_arith)
        requires
            units >= 0,
            spread >= 0,
    ;
    assert(v.request_ok(request.index()));
    open_leg(v, request, l);
    standing_is(v, request, l, maker);
    replacement_is_admissible(v, request, l, prior, record, amount);
    let cleared = v.cleared(request, l, prior);
    let chain = v.quotes_on(request, l);
    match prior {
        Some(quote) => {
            cleared_sound(v, request, l, quote);
            freed_shrinks(v, quote);
            let freed = v.quote_freed(quote);
            unlinked_sound(freed, request, l, quote.index());
            freed_sound(v, quote);
            assert(claims_shrink(v, cleared));
            assert forall|r: u32| #[trigger] request_stays(v, cleared, r) by {
                assert(v.same_request_at(freed, r));
                let parted = freed.unlinked(request, l, quote.index());
                assert(v.requests.occupied(r) ==> parted.requests.occupied(r));
            }
        },
        None => {
            assert(claims_shrink(v, cleared));
            assert forall|r: u32| #[trigger] request_stays(v, cleared, r) by {}
        },
    }
    quote_opened_sound(cleared, record, amount);
    let opened = cleared.quote_opened_reserving(record, amount);
    let i = cleared.quotes.next_index();
    open_leg(cleared, request, l);
    let before = cleared.quotes_on(request, l);
    assert forall|k: int| 0 <= k < before.len() implies {
        let j = #[trigger] before[k];
        opened.quotes.occupied(j) && crate::engine::book::same_terms(
            cleared.quotes.at(j),
            opened.quotes.at(j),
        )
    } by {
        assert(cleared.on_leg(before[k], request, l));
        assert(opened.quotes.occupied(before[k]));
    }
    crate::engine::book::leg_kept(cleared, opened, request, l);
    assert(!before.contains(i)) by {
        if before.contains(i) {
            let k = before.index_of(i);
            assert(cleared.on_leg(before[k], request, l));
        }
    }
    assert forall|k: int| 0 <= k < before.len() implies opened.quotes.at(
        #[trigger] before[k],
    ).maker != record.maker by {
        assert(opened.quotes.occupied(before[k]));
        match prior {
            Some(quote) => {
                let j = before[k];
                let from = chain.index_of(j);
                assert(chain[from] == j);
            },
            None => {},
        }
    }
    inserted_wf(cleared.quotes, record);
    linked_sound(opened, request, l, i);
    let linked = opened.linked(request, l, i);
    assert(linked == engine.quoted(maker, request, leg, price, size, expires_at));
    let w = linked.published(request, l, now);
    if linked.publication(request, l, now) is Some {
        published_sound(
            linked,
            request,
            l,
            Leg {
                published: Some(linked.publication(request, l, now)->0),
                ..linked.leg_at(request, l)
            },
        );
    }
    if v.covered() {
        shrinking_keeps_coverage(v, cleared);
        assert forall|a: int| 0 <= a < w.accounts.len() implies (
        #[trigger] w.accounts[a]).covered() by {
            assert(cleared.accounts[a].covered());
        }
    }
    assert forall|r: u32| #[trigger] request_moves(v, w, r, None) by {
        assert(request_stays(v, cleared, r));
        if v.requests.occupied(r) {
            assert(opened.requests.occupied(r));
            assert(linked.requests.occupied(r));
        }
    }
}

/// Normalising moves no request.
pub proof fn ready_keeps(engine: EngineView, command: Command, now: Ts)
    requires
        engine.wf(),
    ensures
        ({
            let ready = engine.ready_for(command, now);
            &&& ready.wf()
            &&& ready.config == engine.config
            &&& ready.arrivals == engine.arrivals
            &&& ready.ledger.contracts == engine.ledger.contracts
            &&& ready.ledger.accounts.len() == engine.ledger.accounts.len()
            &&& engine.ledger.covered() ==> ready.ledger.covered()
            &&& same_mirror(engine.ledger, ready.ledger)
            &&& forall|r: u32| #[trigger] request_stays(engine.ledger, ready.ledger, r)
        }),
{
    let v = engine.ledger;
    let w = engine.ready_for(command, now).ledger;
    match engine.touched(command) {
        Some(account) => {
            if account.0 < v.accounts.len() {
                normalised_sound(v, account, now);
                normalised_shrinks(v, account, now);
                if v.covered() {
                    shrinking_keeps_coverage(v, w);
                }
                assert forall|r: u32| #[trigger] request_stays(v, w, r) by {
                    assert(v.same_request_at(w, r));
                }
            } else {
                assert forall|r: u32| #[trigger] request_stays(v, w, r) by {}
            }
        },
        None => {
            assert forall|r: u32| #[trigger] request_stays(v, w, r) by {}
        },
    }
}

/// Nothing moved but balances, contracts, or nothing at all.
pub proof fn unmoved(v: LedgerView, w: LedgerView)
    requires
        v.wf(),
        v.sound_book(),
        w.wf(),
        w == (LedgerView { accounts: w.accounts, contracts: w.contracts, ..v }),
        w.accounts.len() == v.accounts.len(),
    ensures
        w.sound_book(),
        forall|r: u32| #[trigger] request_moves(v, w, r, None),
        forall|r: u32| #[trigger] request_stays(v, w, r),
{
    unrelated_sound(v, w);
    assert forall|r: u32| #[trigger] request_moves(v, w, r, None) by {}
    assert forall|r: u32| #[trigger] request_stays(v, w, r) by {}
}

} // verus!
