//! What holds between an accept and the bundle it hands to custody.

use crate::arrays::array_from_holds;
use crate::chain::bundle::Bundle;
use crate::chain::custody::model::owed;
use crate::command::ExpectedFill;
use crate::config::MAX_LEGS;
use crate::engine::laws::{a_fill_is_the_best_eligible_quote, a_winners_claim_is_its_stake};
use crate::engine::model::EngineView;
use crate::engine::moves::{accept_keeps, fills_are_found, staked};
use crate::ledger::model::LedgerView;
use crate::quote::QuoteIdx;
use crate::request::{Nonce, ReqIdx};
use crate::runtime::settlement::{bundle_of, converted};
use crate::types::Ts;
use vstd::prelude::*;

verus! {

/// What a bundle's first `n` legs cost its requester.
pub open spec fn paid_by_requester(bundle: Bundle, n: nat) -> int
    decreases n,
{
    if n == 0 {
        0
    } else {
        paid_by_requester(bundle, (n - 1) as nat) + bundle.legs@[n - 1].requester_share()
    }
}

/// **What the engine commits is what custody debits**: the bundle an accept calls for has the
/// requester pay, over its legs, exactly what their claim keeps; and each leg's maker pay exactly
/// what the claim behind the winning quote holds.
pub proof fn the_bundle_debits_what_is_committed(
    engine: EngineView,
    request: ReqIdx,
    expected: [ExpectedFill; MAX_LEGS],
    n_legs: u8,
    now: Ts,
    room: nat,
)
    requires
        engine.wf(),
        engine.accept_refused(request, expected, n_legs, now, room) is None,
    ensures
        ({
            let v = engine.ledger;
            let bundle = bundle_of(v.intent(request, now))->0;
            &&& bundle_of(v.intent(request, now)) is Some
            &&& bundle.nonce == Nonce::naming(request)
            &&& bundle.requester == v.requests.of(request).requester
            &&& bundle.n_legs == n_legs
            &&& paid_by_requester(bundle, n_legs as nat) == v.fill_total(
                request,
                now,
                n_legs as nat,
            )
            &&& forall|l: int|
                0 <= l < n_legs ==> {
                    let won = v.quotes.of(#[trigger] v.winner(request, l, now));
                    &&& won.claim is Some
                    &&& v.claims.of(won.claim->0).account == bundle.legs@[l].maker
                    &&& v.claims.of(won.claim->0).amount.0 == bundle.legs@[l].maker_share()
                }
        }),
{
    broadcast use array_from_holds;

    let v = engine.ledger;
    let n = n_legs as nat;
    assert(v.request_ok(request.index()));
    fills_are_found(engine, request, expected, now, n);
    assert forall|l: int| 0 <= l < n implies leg_is_filled(v, request, l, now) by {
        assert(v.fill(request, l, now) is Ok);
        a_fill_is_the_best_eligible_quote(v, request, l, now);
    }
    requester_pays_the_fills(v, request, now, n);
    let bundle = bundle_of(v.intent(request, now))->0;
    assert forall|l: int| 0 <= l < n_legs implies {
        let won = v.quotes.of(#[trigger] v.winner(request, l, now));
        &&& won.claim is Some
        &&& v.claims.of(won.claim->0).account == bundle.legs@[l].maker
        &&& v.claims.of(won.claim->0).amount.0 == bundle.legs@[l].maker_share()
    } by {
        assert(v.fill(request, l, now) is Ok);
        a_winners_claim_is_its_stake(v, request, l, now);
        let leg = bundle.legs@[l];
        let intent = v.intent_leg(request, l, now);
        assert(leg == converted(intent));
    }
}

/// What account `a` puts in as the maker of the bundle's first `n` legs.
pub open spec fn put_in_by_maker(bundle: Bundle, a: int, n: nat) -> int
    decreases n,
{
    if n == 0 {
        0
    } else {
        put_in_by_maker(bundle, a, (n - 1) as nat) + (if bundle.legs@[n - 1].maker.0 == a {
            bundle.legs@[n - 1].maker_share()
        } else {
            0
        })
    }
}

/// What an account owes it owes as a maker or as the requester.
proof fn debts_split(bundle: Bundle, a: int, n: nat)
    ensures
        owed(bundle, a, n) == put_in_by_maker(bundle, a, n) + (if bundle.requester.0 == a {
            paid_by_requester(bundle, n)
        } else {
            0
        }),
    decreases n,
{
    if n > 0 {
        debts_split(bundle, a, (n - 1) as nat);
    }
}

/// The stakes behind the winners are what the makers put in.
proof fn stakes_are_put_in(
    v: LedgerView,
    bundle: Bundle,
    winners: Seq<QuoteIdx>,
    a: int,
    n: nat,
)
    requires
        n <= winners.len(),
        forall|l: int|
            0 <= l < n ==> {
                let won = v.quotes.of(#[trigger] winners[l]);
                &&& won.maker == bundle.legs@[l].maker
                &&& v.claims.of(won.claim->0).amount.0 == bundle.legs@[l].maker_share()
            },
    ensures
        staked(v, winners, a, n) == put_in_by_maker(bundle, a, n),
    decreases n,
{
    if n > 0 {
        stakes_are_put_in(v, bundle, winners, a, (n - 1) as nat);
        assert(v.quotes.of(winners[n - 1]).maker == bundle.legs@[n - 1].maker);
    }
}

/// **What an accept commits is what it will be debited**: everyone's committed total rises by
/// exactly what the bundle has them owe, summed over every leg they are party to.
pub proof fn an_accept_commits_what_it_owes(
    engine: EngineView,
    request: ReqIdx,
    expected: [ExpectedFill; MAX_LEGS],
    n_legs: u8,
    now: Ts,
    room: nat,
    a: int,
)
    requires
        engine.wf(),
        engine.accept_refused(request, expected, n_legs, now, room) is None,
        0 <= a < engine.ledger.accounts.len(),
    ensures
        engine.accepted(request, now).accounts[a].committed.0
            == engine.ledger.accounts[a].committed.0 + owed(
            bundle_of(engine.ledger.intent(request, now))->0,
            a,
            n_legs as nat,
        ),
{
    broadcast use array_from_holds;

    let v = engine.ledger;
    let n = n_legs as nat;
    let bundle = bundle_of(v.intent(request, now))->0;
    let winners = v.winners(request, now, n);
    assert(v.request_ok(request.index()));
    the_bundle_debits_what_is_committed(engine, request, expected, n_legs, now, room);
    accept_keeps(engine, request, expected, n_legs, now, room);
    debts_split(bundle, a, n);
    assert forall|l: int| 0 <= l < n implies {
        let won = v.quotes.of(#[trigger] winners[l]);
        &&& won.maker == bundle.legs@[l].maker
        &&& v.claims.of(won.claim->0).amount.0 == bundle.legs@[l].maker_share()
    } by {
        assert(winners[l] == v.winner(request, l, now));
        assert(bundle.legs@[l] == converted(v.intent_leg(request, l, now)));
    }
    stakes_are_put_in(v, bundle, winners, a, n);
}

/// The winner of leg `l` fills it at the price selection found.
spec fn leg_is_filled(v: LedgerView, request: ReqIdx, l: int, now: Ts) -> bool {
    v.quotes.of(v.winner(request, l, now)).price == v.fill(request, l, now)->Ok_0.price
}

proof fn requester_pays_the_fills(v: LedgerView, request: ReqIdx, now: Ts, n: nat)
    requires
        v.requests.of(request).n_legs <= MAX_LEGS,
        n <= v.requests.of(request).n_legs,
        forall|l: int| 0 <= l < n ==> #[trigger] leg_is_filled(v, request, l, now),
    ensures
        paid_by_requester(bundle_of(v.intent(request, now))->0, n) == v.fill_total(
            request,
            now,
            n,
        ),
    decreases n,
{
    broadcast use array_from_holds;

    if n > 0 {
        requester_pays_the_fills(v, request, now, (n - 1) as nat);
        let bundle = bundle_of(v.intent(request, now))->0;
        assert(leg_is_filled(v, request, n - 1, now));
        let leg = bundle.legs@[n - 1];
        assert(leg == converted(v.intent_leg(request, n - 1, now)));
    }
}

} // verus!
