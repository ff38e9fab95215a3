//! Requests being accepted and rejected.

use crate::account::{AccountIdx, Link};
use crate::arrays::array_is;
use crate::command::ExpectedFill;
use crate::config::MAX_LEGS;
use crate::engine::book::limit_total;
use crate::engine::closing::{
    consumed_sound, dismissed_sound, open_claim_is_reserved, quote_same, rejected_sound,
    request_freed_sound, settling_sound, standing_claim_is_reserved,
};
use crate::engine::model::{farewell, farewells, EngineView};
use crate::engine::quoting::{free_quote, open_leg};
use crate::engine::steps::emptied;
use crate::engine::{headroom_of, performs, Engine, EngineError};
use crate::event::{Event, EventBuffer, IntentLeg, QuoteRejectReason};
use crate::ledger::model::LedgerView;
use crate::ledger::{Ledger, LedgerError};
use crate::quote::{QuoteIdx, QuoteState};
use crate::request::{Nonce, ReqIdx, Request, RequestState};
use crate::reservation::ResIdx;
use crate::selection::{best_on_leg, handles, selection_is_best, walk_leg};
use crate::slab::{handle_extensional, handle_of};
use crate::types::{product, Amount, Ts};
use vstd::prelude::*;

verus! {

// ───────────────────────────── who is on a request ─────────────────────────────

/// `quote` stands on one of the first `n` legs of `request`.
pub open spec fn gathered(v: LedgerView, request: ReqIdx, n: int, quote: QuoteIdx) -> bool {
    &&& v.quotes.names(quote)
    &&& v.quotes.of(quote).request == Some(request)
    &&& v.quotes.of(quote).state is Active
    &&& v.quotes.of(quote).leg.0 < n
}

/// The handles of the quotes on one open leg: standing there, each once.
pub(super) proof fn leg_handles(v: LedgerView, request: ReqIdx, l: int)
    requires
        v.wf(),
        v.sound_book(),
        v.requests.names(request),
        v.requests.of(request).state is Open,
        0 <= l < v.requests.of(request).n_legs,
    ensures
        ({
            let quotes = handles(v.quotes, v.quotes_on(request, l));
            &&& quotes.no_duplicates()
            &&& forall|k: int|
                0 <= k < quotes.len() ==> gathered(v, request, l + 1, #[trigger] quotes[k])
                    && v.quotes.of(quotes[k]).leg.0 == l
        }),
{
    broadcast use handle_of;

    open_leg(v, request, l);
    let chain = v.quotes_on(request, l);
    let quotes = handles(v.quotes, chain);
    assert forall|j: int, k: int| 0 <= j < k < quotes.len() implies quotes[j] != quotes[k] by {
        assert(quotes[j].index() == chain[j]);
        assert(quotes[k].index() == chain[k]);
        assert(v.leg_ok(request, l));
    }
    assert forall|k: int| 0 <= k < quotes.len() implies gathered(
        v,
        request,
        l + 1,
        #[trigger] quotes[k],
    ) && v.quotes.of(quotes[k]).leg.0 == l by {
        assert(v.on_leg(chain[k], request, l));
    }
}

/// Every quote on the first `n` legs is gathered, each once.
pub(super) proof fn all_quotes_are(v: LedgerView, request: ReqIdx, n: nat)
    requires
        v.wf(),
        v.sound_book(),
        v.requests.names(request),
        v.requests.of(request).state is Open,
        n <= v.requests.of(request).n_legs,
    ensures
        v.all_quotes(request, n).no_duplicates(),
        forall|k: int|
            0 <= k < v.all_quotes(request, n).len() ==> gathered(
                v,
                request,
                n as int,
                #[trigger] v.all_quotes(request, n)[k],
            ),
    decreases n,
{
    if n > 0 {
        let m = (n - 1) as nat;
        all_quotes_are(v, request, m);
        leg_handles(v, request, m as int);
        let before = v.all_quotes(request, m);
        let more = handles(v.quotes, v.quotes_on(request, m as int));
        let all = v.all_quotes(request, n);
        assert(all == before + more);
        assert forall|k: int| 0 <= k < all.len() implies gathered(
            v,
            request,
            n as int,
            #[trigger] all[k],
        ) by {
            if k < before.len() {
                assert(all[k] == before[k]);
                assert(gathered(v, request, m as int, before[k]));
            } else {
                assert(all[k] == more[k - before.len()]);
            }
        }
        assert forall|j: int, k: int| 0 <= j < k < all.len() implies all[j] != all[k] by {
            if j < before.len() {
                assert(all[j] == before[j]);
                assert(gathered(v, request, m as int, before[j]));
            } else {
                assert(all[j] == more[j - before.len()]);
            }
            if k < before.len() {
                assert(all[k] == before[k]);
            } else {
                assert(all[k] == more[k - before.len()]);
                assert(v.quotes.of(more[k - before.len()]).leg.0 == m);
            }
        }
    }
}

/// The winner of a leg that has one stands on it.
pub(super) proof fn winner_is(v: LedgerView, request: ReqIdx, l: int, now: Ts)
    requires
        v.wf(),
        v.sound_book(),
        v.requests.names(request),
        v.requests.of(request).state is Open,
        0 <= l < v.requests.of(request).n_legs,
        v.fill(request, l, now) is Ok,
    ensures
        ({
            let quotes = handles(v.quotes, v.quotes_on(request, l));
            let winner = v.winner(request, l, now);
            &&& quotes.contains(winner)
            &&& gathered(v, request, l + 1, winner)
            &&& v.quotes.of(winner).leg.0 == l
            &&& v.quotes.of(winner).price == v.fill(request, l, now)->Ok_0.price
            &&& v.quotes.of(winner).price.0 <= v.leg_at(request, l).limit.0
        }),
{
    broadcast use handle_of;

    leg_handles(v, request, l);
    selection_is_best(v.quotes, v.leg_at(request, l), now);
    let chain = v.quotes_on(request, l);
    let quotes = handles(v.quotes, chain);
    let winner = v.winner(request, l, now);
    let k = chain.index_of(winner.index());
    assert(chain[k] == winner.index());
    assert(quotes[k] == v.quote_handle(chain[k]));
    handle_extensional(winner, quotes[k]);
}

/// A quote that does not win is gathered, and no winner.
pub open spec fn loses(v: LedgerView, request: ReqIdx, n: int, now: Ts, quote: QuoteIdx) -> bool {
    &&& gathered(v, request, n, quote)
    &&& v.winner(request, v.quotes.of(quote).leg.0 as int, now) != quote
}

/// The losers of the first `n` legs are gathered, each once, and no winners.
pub(super) proof fn losers_are(v: LedgerView, request: ReqIdx, now: Ts, n: nat)
    requires
        v.wf(),
        v.sound_book(),
        v.requests.names(request),
        v.requests.of(request).state is Open,
        n <= v.requests.of(request).n_legs,
        forall|l: int| 0 <= l < n ==> (#[trigger] v.fill(request, l, now)) is Ok,
    ensures
        v.losers(request, now, n).no_duplicates(),
        forall|k: int|
            0 <= k < v.losers(request, now, n).len() ==> loses(
                v,
                request,
                n as int,
                now,
                #[trigger] v.losers(request, now, n)[k],
            ),
    decreases n,
{
    if n > 0 {
        let m = (n - 1) as nat;
        let l = m as int;
        losers_are(v, request, now, m);
        leg_handles(v, request, l);
        assert(v.fill(request, l, now) is Ok);
        winner_is(v, request, l, now);
        let before = v.losers(request, now, m);
        let quotes = handles(v.quotes, v.quotes_on(request, l));
        let winner = v.winner(request, l, now);
        let at = quotes.index_of(winner);
        let more = v.rivals(request, l, now);
        let all = v.losers(request, now, n);
        assert(quotes[at] == winner);
        assert(all == before + more);
        assert forall|k: int| 0 <= k < more.len() implies {
            &&& #[trigger] loses(v, request, n as int, now, more[k])
            &&& v.quotes.of(more[k]).leg.0 == l
        } by {
            let from = if k < at {
                k
            } else {
                k + 1
            };
            assert(more[k] == quotes[from]);
        }
        assert forall|k: int| 0 <= k < all.len() implies loses(
            v,
            request,
            n as int,
            now,
            #[trigger] all[k],
        ) by {
            if k < before.len() {
                assert(all[k] == before[k]);
                assert(loses(v, request, m as int, now, before[k]));
            } else {
                assert(all[k] == more[k - before.len()]);
                assert(loses(v, request, n as int, now, more[k - before.len()]));
            }
        }
        assert forall|j: int, k: int| 0 <= j < k < all.len() implies all[j] != all[k] by {
            if k < before.len() {
                assert(all[j] == before[j] && all[k] == before[k]);
            } else {
                let k2 = k - before.len();
                assert(all[k] == more[k2]);
                assert(loses(v, request, n as int, now, more[k2]));
                if j < before.len() {
                    assert(all[j] == before[j]);
                    assert(loses(v, request, m as int, now, before[j]));
                } else {
                    let j2 = j - before.len();
                    assert(all[j] == more[j2]);
                    let from = if j2 < at {
                        j2
                    } else {
                        j2 + 1
                    };
                    let to = if k2 < at {
                        k2
                    } else {
                        k2 + 1
                    };
                    assert(more[j2] == quotes[from] && more[k2] == quotes[to]);
                }
            }
        }
    }
}

/// What the requester pays is never negative and within what they may have had to pay.
pub(super) proof fn fills_are_within_limits(v: LedgerView, request: ReqIdx, now: Ts, n: nat)
    requires
        v.wf(),
        v.sound_book(),
        v.requests.names(request),
        v.requests.of(request).state is Open,
        n <= v.requests.of(request).n_legs,
        forall|l: int| 0 <= l < n ==> (#[trigger] v.fill(request, l, now)) is Ok,
    ensures
        0 <= v.fill_total(request, now, n) <= limit_total(v.requests.of(request).legs@, n),
    decreases n,
{
    if n > 0 {
        let l = n - 1;
        fills_are_within_limits(v, request, now, (n - 1) as nat);
        assert(v.fill(request, l, now) is Ok);
        winner_is(v, request, l, now);
        let leg = v.leg_at(request, l);
        let (size, price, limit) = (
            leg.size.0 as int,
            v.fill(request, l, now)->Ok_0.price.0 as int,
            leg.limit.0 as int,
        );
        assert(0 <= size * price <= size * limit) by (nonlinear_arith)
            requires
                size >= 0,
                0 <= price <= limit,
        ;
    }
}

proof fn fill_total_grows(v: LedgerView, request: ReqIdx, now: Ts, j: nat, n: nat)
    requires
        j <= n,
    ensures
        0 <= v.fill_total(request, now, j) <= v.fill_total(request, now, n),
    decreases n,
{
    if n > 0 {
        let leg = v.leg_at(request, n - 1);
        let (size, price) = (
            leg.size.0 as int,
            v.fill(request, n - 1, now)->Ok_0.price.0 as int,
        );
        assert(0 <= size * price) by (nonlinear_arith)
            requires
                size >= 0,
                price >= 0,
        ;
        if j < n {
            fill_total_grows(v, request, now, j, (n - 1) as nat);
        } else {
            fill_total_grows(v, request, now, (j - 1) as nat, (n - 1) as nat);
        }
    }
}

proof fn fill_fault_persists(
    engine: EngineView,
    request: ReqIdx,
    expected: [ExpectedFill; MAX_LEGS],
    now: Ts,
    k: nat,
    n: nat,
)
    requires
        engine.first_fill_fault(request, expected, now, k) is Some,
        k <= n,
    ensures
        engine.first_fill_fault(request, expected, now, n) == engine.first_fill_fault(
            request,
            expected,
            now,
            k,
        ),
    decreases n,
{
    if k < n {
        fill_fault_persists(engine, request, expected, now, k, (n - 1) as nat);
    }
}

// ───────────────────────────── the pieces of a commit ─────────────────────────────

/// Empty a request's legs and put it in `state`.
fn leave(ledger: &mut Ledger, request: ReqIdx, state: RequestState)
    requires
        old(ledger).wf(),
        old(ledger)@.requests.names(request),
    ensures
        final(ledger).wf(),
        final(ledger)@ == old(ledger)@.left_in(request, state),
{
    let ghost before = ledger@;
    match ledger.request_mut(request) {
        Some(record) => {
            let mut legs = record.legs;
            let ghost all = legs@;
            let mut l: usize = 0;
            while l < MAX_LEGS
                invariant
                    l <= MAX_LEGS,
                    all.len() == MAX_LEGS,
                    forall|j: int|
                        0 <= j < MAX_LEGS ==> #[trigger] legs@[j] == (if j < l {
                            emptied(all[j])
                        } else {
                            all[j]
                        }),
                decreases MAX_LEGS - l,
            {
                let mut leg = legs[l];
                leg.quotes_head = Link::nil();
                leg.quote_count = 0;
                legs[l] = leg;
                l += 1;
            }
            proof {
                array_is(legs);
                assert(legs@ =~= Seq::new(MAX_LEGS as nat, |k: int| emptied(all[k])));
            }
            record.legs = legs;
            record.state = state;
        },
        None => {},
    }
}

/// A standing quote that may be released: its request is no longer open.
pub open spec fn sweepable(v: LedgerView, quote: QuoteIdx) -> bool {
    &&& v.quotes.names(quote)
    &&& v.quotes.of(quote).state is Active
    &&& v.quotes.of(quote).request is Some
    &&& v.requests.names(v.quotes.of(quote).request->0)
    &&& v.requests.of(v.quotes.of(quote).request->0).state !is Open
}

/// Release every one of `quotes` and tell its maker why.
fn sweep(
    ledger: &mut Ledger,
    quotes: &Vec<QuoteIdx>,
    accepted_at: Option<Ts>,
    events: &mut EventBuffer,
)
    requires
        old(ledger).wf(),
        old(ledger)@.sound_book(),
        quotes@.no_duplicates(),
        forall|k: int|
            0 <= k < quotes@.len() ==> sweepable(old(ledger)@, #[trigger] quotes@[k]),
        old(events).wf(),
        old(events).fits(quotes@.len()),
    ensures
        final(ledger).wf(),
        final(ledger)@.sound_book(),
        final(ledger)@ == old(ledger)@.swept(quotes@, quotes@.len()),
        final(events).wf(),
        final(events).room() == old(events).room(),
        final(events)@ == old(events)@ + farewells(old(ledger)@.quotes, quotes@, accepted_at),
{
    broadcast use handle_of;

    let ghost start = ledger@;
    let ghost said = events@;
    let mut k: usize = 0;
    proof {
        assert(farewells(start.quotes, quotes@, accepted_at).take(0) =~= Seq::<Event>::empty());
        assert(said + Seq::<Event>::empty() =~= said);
    }
    while k < quotes.len()
        invariant
            k <= quotes@.len(),
            ledger.wf(),
            ledger@.sound_book(),
            ledger@ == start.swept(quotes@, k as nat),
            quotes@.no_duplicates(),
            forall|j: int| 0 <= j < quotes@.len() ==> sweepable(start, #[trigger] quotes@[j]),
            forall|j: int|
                k <= j < quotes@.len() ==> quote_same(
                    start,
                    ledger@,
                    (#[trigger] quotes@[j]).index(),
                ),
            forall|r: u32| #[trigger] start.same_request_at(ledger@, r),
            events.wf(),
            events.room() == old(events).room(),
            said.len() + quotes@.len() <= events.room(),
            said == old(events)@,
            events@ == said + farewells(start.quotes, quotes@, accepted_at).take(k as int),
        decreases quotes@.len() - k,
    {
        let quote = quotes[k];
        let ghost before = ledger@;
        proof {
            ledger.wf_model();
            assert(sweepable(start, quotes@[k as int]));
            assert(quote_same(start, before, quotes@[k as int].index()));
            let request = start.quotes.of(quote).request->0;
            assert(start.same_request_at(before, request.index()));
            dismissed_sound(before, quote);
        }
        let mut maker = AccountIdx(0);
        let mut live = false;
        match ledger.quote(quote) {
            Some(record) => {
                maker = record.maker();
                live = match accepted_at {
                    Some(now) => record.is_live_at(now),
                    None => false,
                };
            },
            None => {},
        }
        free_quote(ledger, quote);
        let mut phase = ledger.commit_phase();
        phase.close_quote(quote);
        let event = match accepted_at {
            Some(_) => if live {
                Event::QuoteRejected { quote, maker, reason: QuoteRejectReason::Outbid }
            } else {
                Event::QuoteExpired { quote, maker }
            },
            None => Event::QuoteRejected {
                quote,
                maker,
                reason: QuoteRejectReason::RequestRejected,
            },
        };
        events.push(event);
        proof {
            let all = farewells(start.quotes, quotes@, accepted_at);
            assert(event == all[k as int]);
            assert(all.take(k + 1) =~= all.take(k as int).push(event));
            assert(events@ =~= said + all.take(k + 1));
            assert forall|j: int| k + 1 <= j < quotes@.len() implies quote_same(
                start,
                ledger@,
                (#[trigger] quotes@[j]).index(),
            ) by {
                assert(quote_same(start, before, quotes@[j].index()));
                assert(sweepable(start, quotes@[j]));
                if quotes@[j].index() == quote.index() {
                    handle_extensional(quotes@[j], quote);
                }
                assert(quote_same(before, before.dismissed(quote), quotes@[j].index()));
            }
            assert forall|r: u32| #[trigger] start.same_request_at(ledger@, r) by {
                assert(start.same_request_at(before, r));
                assert(before.same_request_at(before.dismissed(quote), r));
            }
        }
        k += 1;
    }
    proof {
        let all = farewells(start.quotes, quotes@, accepted_at);
        assert(all.take(k as int) =~= all);
    }
}

/// Commit the requester's claim and start settling.
fn begin_settling(
    ledger: &mut Ledger,
    request: ReqIdx,
    claim: ResIdx,
    keep: Amount,
    deadline: Ts,
)
    requires
        old(ledger).wf(),
        old(ledger)@.sound_book(),
        old(ledger)@.requests.names(request),
        old(ledger)@.requests.of(request).state is Open,
        old(ledger)@.requests.of(request).claim == Some(claim),
        keep.0 <= old(ledger)@.claims.of(claim).amount.0,
    ensures
        final(ledger).wf(),
        final(ledger)@ == old(ledger)@.settling(request, keep, deadline),
{
    proof {
        ledger.wf_model();
        open_claim_is_reserved(ledger@, request);
    }
    let mut phase = ledger.commit_phase();
    phase.commit(claim, request, keep);
    leave(ledger, request, RequestState::Settling { nonce: Nonce::of(request), deadline });
}

/// A winner whose claim may be committed to `request`.
pub open spec fn consumable(v: LedgerView, request: ReqIdx, quote: QuoteIdx) -> bool {
    &&& v.quotes.names(quote)
    &&& v.quotes.of(quote).state is Active
    &&& v.quotes.of(quote).request == Some(request)
    &&& v.quotes.of(quote).claim is Some
}

/// Commit one winner's claim and consume its quote.
fn consume(ledger: &mut Ledger, quote: QuoteIdx, request: ReqIdx)
    requires
        old(ledger).wf(),
        forall|i: u32| #[trigger] old(ledger)@.claim_ok(i),
        old(ledger)@.requests.names(request),
        consumable(old(ledger)@, request, quote),
    ensures
        final(ledger).wf(),
        final(ledger)@ == old(ledger)@.consumed(quote, request),
{
    proof {
        ledger.wf_model();
        standing_claim_is_reserved(ledger@, quote);
    }
    let mut held: Option<ResIdx> = None;
    match ledger.quote(quote) {
        Some(record) => {
            held = record.claim();
        },
        None => {},
    }
    match held {
        Some(claim) => {
            let mut keep = Amount(0);
            match ledger.reservation(claim) {
                Some(found) => {
                    keep = found.amount();
                },
                None => {},
            }
            let mut phase = ledger.commit_phase();
            phase.commit(claim, request, keep);
        },
        None => {},
    }
    match ledger.quote_mut(quote) {
        Some(record) => {
            record.state = QuoteState::Consumed;
            record.next_on_leg = Link::nil();
        },
        None => {},
    }
}

/// Commit every winner's claim.
fn consume_all(ledger: &mut Ledger, quotes: &Vec<QuoteIdx>, request: ReqIdx)
    requires
        old(ledger).wf(),
        old(ledger)@.sound_but(request, quotes@.len()),
        old(ledger)@.requests.names(request),
        old(ledger)@.requests.of(request).state is Settling,
        quotes@.no_duplicates(),
        forall|k: int|
            0 <= k < quotes@.len() ==> consumable(old(ledger)@, request, #[trigger] quotes@[k]),
    ensures
        final(ledger).wf(),
        final(ledger)@.sound_book(),
        final(ledger)@ == old(ledger)@.all_consumed(quotes@, request, quotes@.len()),
        final(ledger)@.requests == old(ledger)@.requests,
        forall|j: u32|
            old(ledger)@.quotes.occupied(j) && (forall|k: int|
                0 <= k < quotes@.len() ==> (#[trigger] quotes@[k]).index() != j)
                ==> #[trigger] quote_same(old(ledger)@, final(ledger)@, j),
{
    let ghost start = ledger@;
    let mut k: usize = 0;
    while k < quotes.len()
        invariant
            k <= quotes@.len(),
            ledger.wf(),
            ledger@.sound_but(request, (quotes@.len() - k) as nat),
            ledger@ == start.all_consumed(quotes@, request, k as nat),
            ledger@.requests == start.requests,
            start.requests.names(request),
            start.requests.of(request).state is Settling,
            quotes@.no_duplicates(),
            forall|j: int|
                0 <= j < quotes@.len() ==> consumable(start, request, #[trigger] quotes@[j]),
            forall|j: u32|
                start.quotes.occupied(j) && (forall|i: int|
                    0 <= i < k ==> (#[trigger] quotes@[i]).index() != j) ==> #[trigger] quote_same(
                    start,
                    ledger@,
                    j,
                ),
        decreases quotes@.len() - k,
    {
        let quote = quotes[k];
        let ghost before = ledger@;
        proof {
            ledger.wf_model();
            assert(consumable(start, request, quotes@[k as int]));
            assert forall|i: int| 0 <= i < k implies (#[trigger] quotes@[i]).index()
                != quote.index() by {
                assert(consumable(start, request, quotes@[i]));
                if quotes@[i].index() == quote.index() {
                    handle_extensional(quotes@[i], quote);
                }
            }
            assert(quote_same(start, before, quote.index()));
            consumed_sound(before, quote, request, (quotes@.len() - k) as nat);
        }
        consume(ledger, quote, request);
        proof {
            assert forall|j: u32|
                start.quotes.occupied(j) && (forall|i: int|
                    0 <= i < k + 1 ==> (#[trigger] quotes@[i]).index() != j) implies
                #[trigger] quote_same(start, ledger@, j) by {
                assert(quotes@[k as int].index() != j);
                assert(quote_same(start, before, j));
                assert(before.quotes.occupied(j));
                assert(ledger@.quotes.occupied(j));
            }
        }
        k += 1;
    }
    proof {
        assert forall|r: u32| #[trigger] ledger@.request_ok(r) by {
            if r == request.index() {
                assert(ledger@.request_ok_but(r, 0));
            }
        }
    }
}

/// What an accept would do, before anything moves.
struct Plan {
    winners: Vec<QuoteIdx>,
    losers: Vec<QuoteIdx>,
    legs: [IntentLeg; MAX_LEGS],
}

impl Engine {
    /// Select the fill of every leg, or say why the first refused leg is refused.
    fn plan(&self, request: ReqIdx, record: &Request, expected: &[ExpectedFill; MAX_LEGS], now: Ts) -> (r:
        Result<Plan, EngineError>)
        requires
            self.wf(),
            self@.ledger.requests.names(request),
            self@.ledger.requests.of(request) == record.unthreaded(),
            record.state is Open,
        ensures
            ({
                let v = self@.ledger;
                let n = record.n_legs as nat;
                match r {
                    Ok(plan) => {
                        &&& self@.first_fill_fault(request, *expected, now, n) is None
                        &&& forall|l: int| 0 <= l < n ==> (#[trigger] v.fill(request, l, now)) is Ok
                        &&& plan.winners@ == v.winners(request, now, n)
                        &&& plan.losers@ == v.losers(request, now, n)
                        &&& plan.legs@ == Seq::new(
                            MAX_LEGS as nat,
                            |l: int|
                                if l < n {
                                    v.intent_leg(request, l, now)
                                } else {
                                    IntentLeg::blank()
                                },
                        )
                    },
                    Err(error) => self@.first_fill_fault(request, *expected, now, n) == Some(
                        error,
                    ),
                }
            }),
    {
        let ghost v = self@.ledger;
        proof {
            self.ledger.wf_model();
            assert(v.request_ok(request.index()));
        }
        let n: usize = record.n_legs as usize;
        let mut winners: Vec<QuoteIdx> = Vec::new();
        let mut losers: Vec<QuoteIdx> = Vec::new();
        let mut legs: [IntentLeg; MAX_LEGS] = [IntentLeg::default();MAX_LEGS];
        let mut l: usize = 0;
        while l < n
            invariant
                l <= n == record.n_legs,
                n <= MAX_LEGS,
                self.wf(),
                self.ledger.intact(),
                v == self@.ledger,
                v.requests.names(request),
                v.requests.of(request) == record.unthreaded(),
                record.state is Open,
                self@.first_fill_fault(request, *expected, now, l as nat) is None,
                forall|j: int| 0 <= j < l ==> (#[trigger] v.fill(request, j, now)) is Ok,
                winners@ == v.winners(request, now, l as nat),
                losers@ == v.losers(request, now, l as nat),
                forall|j: int|
                    0 <= j < MAX_LEGS ==> #[trigger] legs@[j] == (if j < l {
                        v.intent_leg(request, j, now)
                    } else {
                        IntentLeg::blank()
                    }),
            decreases n - l,
        {
            let leg = record.legs[l];
            proof {
                open_leg(v, request, l as int);
                if self@.fill_fault(request, *expected, now, l as int) is Some {
                    fill_fault_persists(
                        self@,
                        request,
                        *expected,
                        now,
                        (l + 1) as nat,
                        n as nat,
                    );
                }
                assert(leg == v.leg_at(request, l as int));
            }
            let best = match best_on_leg(&self.ledger, &leg, now) {
                Ok(best) => best,
                Err(reason) => {
                    return Err(EngineError::NoEligibleQuote { leg: l as u8, reason });
                },
            };
            if best.price.0 > expected[l].price.0 {
                return Err(
                    EngineError::PresentationStale {
                        leg: l as u8,
                        expected: expected[l].price,
                        actual: best.price,
                    },
                );
            }
            proof {
                assert(v.fill(request, l as int, now) is Ok);
                winner_is(v, request, l as int, now);
                leg_handles(v, request, l as int);
            }
            let ghost rivals = v.rivals(request, l as int, now);
            let quotes = walk_leg(&self.ledger, &leg);
            let ghost at = quotes@.index_of(best.quote);
            let ghost lost = losers@;
            let mut k: usize = 0;
            proof {
                assert(quotes@[at] == best.quote);
                assert(lost =~= lost + quotes@.take(0));
            }
            while k < quotes.len()
                invariant
                    k <= quotes@.len(),
                    quotes@.no_duplicates(),
                    0 <= at < quotes@.len(),
                    quotes@[at] == best.quote,
                    losers@ == lost + (if k <= at {
                        quotes@.take(k as int)
                    } else {
                        quotes@.take(k as int).remove(at)
                    }),
                decreases quotes@.len() - k,
            {
                let quote = quotes[k];
                let ghost was = losers@;
                if quote != best.quote {
                    losers.push(quote);
                    proof {
                        assert(k != at);
                        if k < at {
                            assert(losers@ =~= lost + quotes@.take(k + 1));
                        } else {
                            assert(losers@ =~= lost + quotes@.take(k + 1).remove(at));
                        }
                    }
                } else {
                    proof {
                        assert(k == at);
                        assert(quotes@.take(k + 1).remove(at) =~= quotes@.take(k as int));
                    }
                }
                k += 1;
            }
            proof {
                assert(quotes@.take(k as int) =~= quotes@);
                assert(quotes@.remove(at) == rivals);
                assert(losers@ == v.losers(request, now, (l + 1) as nat));
            }
            winners.push(best.quote);
            match self.ledger.quote(best.quote) {
                Some(won) => {
                    legs[l] =
                    IntentLeg {
                        contract: leg.contract(),
                        side: leg.side(),
                        size: leg.size(),
                        maker: won.maker(),
                        fill_price: won.price(),
                        quote_expiry: won.expires_at(),
                    };
                },
                None => {},
            }
            proof {
                assert(winners@ =~= v.winners(request, now, (l + 1) as nat));
            }
            l += 1;
        }
        proof {
            assert(legs@ =~= Seq::new(
                MAX_LEGS as nat,
                |l: int|
                    if l < n {
                        v.intent_leg(request, l, now)
                    } else {
                        IntentLeg::blank()
                    },
            ));
        }
        Ok(Plan { winners, losers, legs })
    }

    /// Whether every winner still holds the claim it would commit.
    fn winners_backed(&self, winners: &Vec<QuoteIdx>) -> (r: bool)
        requires
            self.wf(),
            forall|k: int|
                0 <= k < winners@.len() ==> self@.ledger.quotes.names(#[trigger] winners@[k]),
        ensures
            r == (forall|k: int|
                0 <= k < winners@.len() ==> self@.ledger.quotes.of(
                    #[trigger] winners@[k],
                ).claim is Some),
    {
        proof {
            self.ledger.wf_model();
        }
        let mut k: usize = 0;
        while k < winners.len()
            invariant
                k <= winners@.len(),
                self.ledger.intact(),
                self@.ledger == self.ledger@,
                forall|j: int|
                    0 <= j < winners@.len() ==> self@.ledger.quotes.names(#[trigger] winners@[j]),
                forall|j: int|
                    0 <= j < k ==> self@.ledger.quotes.of(#[trigger] winners@[j]).claim is Some,
            decreases winners@.len() - k,
        {
            proof {
                assert(self@.ledger.quotes.names(winners@[k as int]));
            }
            match self.ledger.quote(winners[k]) {
                Some(record) => {
                    if record.claim().is_none() {
                        return false;
                    }
                },
                None => {},
            }
            k += 1;
        }
        true
    }

    /// What the requester pays for a planned fill.
    fn cost(legs: &[IntentLeg; MAX_LEGS], n: usize, Ghost(v): Ghost<LedgerView>, Ghost(request): Ghost<
        ReqIdx,
    >, Ghost(now): Ghost<Ts>) -> (r: Amount)
        requires
            n <= MAX_LEGS,
            forall|l: int|
                0 <= l < n ==> (#[trigger] legs@[l]).size == v.leg_at(request, l).size
                    && legs@[l].fill_price == v.fill(request, l, now)->Ok_0.price,
            v.fill_total(request, now, n as nat) <= u64::MAX,
        ensures
            r.0 == v.fill_total(request, now, n as nat),
    {
        let mut total: u64 = 0;
        let mut l: usize = 0;
        while l < n
            invariant
                l <= n <= MAX_LEGS,
                forall|j: int|
                    0 <= j < n ==> (#[trigger] legs@[j]).size == v.leg_at(request, j).size
                        && legs@[j].fill_price == v.fill(request, j, now)->Ok_0.price,
                v.fill_total(request, now, n as nat) <= u64::MAX,
                total == v.fill_total(request, now, l as nat),
            decreases n - l,
        {
            let leg = legs[l];
            proof {
                assert(legs@[l as int].size == v.leg_at(request, l as int).size);
                fill_total_grows(v, request, now, (l + 1) as nat, n as nat);
                fill_total_grows(v, request, now, l as nat, (l + 1) as nat);
                assert(v.fill_total(request, now, (l + 1) as nat) == v.fill_total(
                    request,
                    now,
                    l as nat,
                ) + product(leg.size, leg.fill_price.0 as int));
            }
            let paid = match leg.size.checked_mul(leg.fill_price) {
                Some(paid) => paid.0,
                None => 0,
            };
            total = total + paid;
            l += 1;
        }
        Amount(total)
    }

    /// Whether an accept names the request's legs in order.
    fn expectations_in_order(
        &self,
        record: &Request,
        expected: &[ExpectedFill; MAX_LEGS],
        n_legs: u8,
    ) -> (r: bool)
        requires
            record.n_legs <= MAX_LEGS,
        ensures
            r == (n_legs == record.n_legs && forall|l: int|
                0 <= l < n_legs ==> (#[trigger] expected@[l]).leg.0 == l),
    {
        if n_legs != record.n_legs {
            return false;
        }
        let n: usize = n_legs as usize;
        let mut l: usize = 0;
        while l < n
            invariant
                l <= n == n_legs,
                n <= MAX_LEGS,
                forall|j: int| 0 <= j < l ==> (#[trigger] expected@[j]).leg.0 == j,
            decreases n - l,
        {
            if expected[l].leg.0 as usize != l {
                return false;
            }
            l += 1;
        }
        true
    }

    /// The requester accepts: the best eligible quote on every leg wins, at or better than what
    /// they were shown, or nothing happens at all.
    pub(super) fn accept(
        &mut self,
        request: ReqIdx,
        expected: &[ExpectedFill; MAX_LEGS],
        n_legs: u8,
        now: Ts,
        events: &mut EventBuffer,
    ) -> (r: Result<(), EngineError>)
        requires
            old(self).wf(),
            old(events).wf(),
        ensures
            final(self).wf(),
            final(events).wf(),
            final(events).room() == old(events).room(),
            performs(
                old(self)@.on_accept(
                    request,
                    *expected,
                    n_legs,
                    now,
                    headroom_of(old(events)),
                ),
                old(self)@,
                final(self)@,
                old(events)@,
                final(events)@,
                r,
            ),
    {
        broadcast use handle_of;

        let ghost start = self@;
        let ghost v = self@.ledger;
        proof {
            events.wf_model();
            self.ledger.wf_model();
        }
        let record = match self.ledger.request(request) {
            Some(record) => *record,
            None => {
                return Err(EngineError::UnknownRequest);
            },
        };
        if !matches!(record.state(), RequestState::Open) {
            return Err(EngineError::RequestNotOpen);
        }
        if now.0 >= record.deadline().0 {
            return Err(EngineError::RequestDeadlinePassed);
        }
        proof {
            assert(v.request_ok(request.index()));
        }
        if !self.expectations_in_order(&record, expected, n_legs) {
            return Err(EngineError::ExpectationMismatch);
        }
        let n: usize = record.n_legs as usize;
        let plan = match self.plan(request, &record, expected, now) {
            Ok(plan) => plan,
            Err(error) => {
                return Err(error);
            },
        };
        proof {
            assert forall|l: int| 0 <= l < n implies {
                &&& gathered(v, request, n as int, #[trigger] v.winner(request, l, now))
                &&& v.quotes.of(v.winner(request, l, now)).leg.0 == l
            } by {
                assert(v.fill(request, l, now) is Ok);
                winner_is(v, request, l, now);
            }
            assert forall|k: int| 0 <= k < plan.winners@.len() implies v.quotes.names(
                #[trigger] plan.winners@[k],
            ) by {
                assert(plan.winners@[k] == v.winner(request, k, now));
            }
            losers_are(v, request, now, n as nat);
            fills_are_within_limits(v, request, now, n as nat);
            open_claim_is_reserved(v, request);
        }
        let claim = match record.claim() {
            Some(claim) => claim,
            None => {
                return Err(EngineError::Ledger(LedgerError::StaleReservation));
            },
        };
        if !self.winners_backed(&plan.winners) {
            proof {
                assert(!start.backed(request, now)) by {
                    let k = choose|k: int|
                        0 <= k < plan.winners@.len() && !(v.quotes.of(
                            #[trigger] plan.winners@[k],
                        ).claim is Some);
                    assert(plan.winners@[k] == v.winner(request, k, now));
                }
            }
            return Err(EngineError::Ledger(LedgerError::StaleReservation));
        }
        proof {
            assert(start.backed(request, now)) by {
                assert forall|l: int| 0 <= l < n implies v.quotes.of(
                    #[trigger] v.winner(request, l, now),
                ).claim is Some by {
                    assert(plan.winners@[l] == v.winner(request, l, now));
                }
            }
        }
        let room: usize = plan.losers.len();
        if room == usize::MAX {
            return Err(EngineError::EventBufferFull);
        }
        match events.headroom(room + 1) {
            Ok(()) => {},
            Err(_) => {
                return Err(EngineError::EventBufferFull);
            },
        }
        proof {
            assert forall|l: int| 0 <= l < n implies (#[trigger] plan.legs@[l]).size == v.leg_at(
                request,
                l,
            ).size && plan.legs@[l].fill_price == v.fill(request, l, now)->Ok_0.price by {
                assert(v.fill(request, l, now) is Ok);
                winner_is(v, request, l, now);
            }
        }
        let total = Self::cost(&plan.legs, n, Ghost(v), Ghost(request), Ghost(now));
        let deadline = now.saturating_add(self.config.max_settling_time);
        proof {
            settling_sound(v, request, total, deadline);
        }
        begin_settling(&mut self.ledger, request, claim, total, deadline);
        let ghost settling = self.ledger@;
        proof {
            assert forall|k: int| 0 <= k < plan.winners@.len() implies consumable(
                settling,
                request,
                #[trigger] plan.winners@[k],
            ) by {
                assert(plan.winners@[k] == v.winner(request, k, now));
            }
            assert forall|j: int, k: int| 0 <= j < k < plan.winners@.len() implies plan.winners@[j]
                != plan.winners@[k] by {
                assert(plan.winners@[j] == v.winner(request, j, now));
                assert(plan.winners@[k] == v.winner(request, k, now));
            }
        }
        consume_all(&mut self.ledger, &plan.winners, request);
        let ghost consumed = self.ledger@;
        proof {
            assert forall|k: int| 0 <= k < plan.losers@.len() implies sweepable(
                consumed,
                #[trigger] plan.losers@[k],
            ) && quote_same(v, consumed, plan.losers@[k].index()) by {
                let quote = plan.losers@[k];
                assert(loses(v, request, n as int, now, quote));
                assert forall|j: int| 0 <= j < plan.winners@.len() implies (
                #[trigger] plan.winners@[j]).index() != quote.index() by {
                    assert(plan.winners@[j] == v.winner(request, j, now));
                    if plan.winners@[j].index() == quote.index() {
                        handle_extensional(plan.winners@[j], quote);
                    }
                }
                assert(quote_same(settling, consumed, quote.index()));
            }
            assert(events.fits(plan.losers@.len()));
        }
        sweep(&mut self.ledger, &plan.losers, Some(now), events);
        let ghost told = events@;
        let event = Event::SubmitIntent {
            request,
            nonce: Nonce::of(request),
            requester: record.requester(),
            legs: plan.legs,
            n_legs: record.n_legs(),
        };
        proof {
            assert(farewells(consumed.quotes, plan.losers@, Some(now)) =~= farewells(
                v.quotes,
                plan.losers@,
                Some(now),
            )) by {
                assert forall|k: int| 0 <= k < plan.losers@.len() implies farewell(
                    consumed.quotes,
                    #[trigger] plan.losers@[k],
                    Some(now),
                ) == farewell(v.quotes, plan.losers@[k], Some(now)) by {
                    assert(quote_same(v, consumed, plan.losers@[k].index()));
                }
            }
            array_is(plan.legs);
            assert(event == v.intent(request, now));
            events.wf_model();
        }
        events.push(event);
        proof {
            self.ledger.wf_model();
            let effect = start.on_accept(
                request,
                *expected,
                n_legs,
                now,
                headroom_of(old(events)),
            );
            assert(effect is Ok);
            assert(events@ =~= old(events)@ + effect->Ok_0.events);
            assert(self@ =~= EngineView {
                ledger: effect->Ok_0.ledger,
                arrivals: effect->Ok_0.arrivals,
                ..start
            });
        }
        Ok(())
    }

    /// Every quote on a request, leg by leg.
    fn gather(&self, request: ReqIdx, record: &Request) -> (r: Vec<QuoteIdx>)
        requires
            self.wf(),
            self@.ledger.requests.names(request),
            self@.ledger.requests.of(request) == record.unthreaded(),
            record.state is Open,
        ensures
            r@ == self@.ledger.all_quotes(request, record.n_legs as nat),
    {
        let ghost v = self@.ledger;
        proof {
            self.ledger.wf_model();
            assert(v.request_ok(request.index()));
        }
        let n: usize = record.n_legs as usize;
        let mut all: Vec<QuoteIdx> = Vec::new();
        let mut l: usize = 0;
        while l < n
            invariant
                l <= n == record.n_legs,
                n <= MAX_LEGS,
                self.wf(),
                self.ledger.intact(),
                v == self@.ledger,
                v.requests.names(request),
                v.requests.of(request) == record.unthreaded(),
                record.state is Open,
                all@ == v.all_quotes(request, l as nat),
            decreases n - l,
        {
            let leg = record.legs[l];
            proof {
                open_leg(v, request, l as int);
                assert(leg == v.leg_at(request, l as int));
            }
            let mut quotes = walk_leg(&self.ledger, &leg);
            all.append(&mut quotes);
            l += 1;
        }
        all
    }

    /// The requester withdraws their own request, releasing every standing quote on it.
    pub(super) fn reject(&mut self, request: ReqIdx, events: &mut EventBuffer) -> (r: Result<
        (),
        EngineError,
    >)
        requires
            old(self).wf(),
            old(events).wf(),
        ensures
            final(self).wf(),
            final(events).wf(),
            final(events).room() == old(events).room(),
            performs(
                old(self)@.on_reject(request, headroom_of(old(events))),
                old(self)@,
                final(self)@,
                old(events)@,
                final(events)@,
                r,
            ),
    {
        broadcast use handle_of;

        let ghost start = self@;
        let ghost v = self@.ledger;
        proof {
            events.wf_model();
            self.ledger.wf_model();
        }
        let record = match self.ledger.request(request) {
            Some(record) => *record,
            None => {
                return Err(EngineError::UnknownRequest);
            },
        };
        if !matches!(record.state(), RequestState::Open) {
            return Err(EngineError::RequestNotOpen);
        }
        let quotes = self.gather(request, &record);
        match events.headroom(quotes.len()) {
            Ok(()) => {},
            Err(_) => {
                return Err(EngineError::EventBufferFull);
            },
        }
        proof {
            assert(v.request_ok(request.index()));
            all_quotes_are(v, request, record.n_legs as nat);
            open_claim_is_reserved(v, request);
            request_freed_sound(v, request);
        }
        match record.claim() {
            Some(claim) => {
                let mut phase = self.ledger.commit_phase();
                phase.release(claim);
            },
            None => {},
        }
        let ghost freed = self.ledger@;
        proof {
            assert(freed == v.request_freed(request));
            assert(v.same_request_at(freed, request.index()));
            rejected_sound(freed, request, RequestState::Rejected);
        }
        leave(&mut self.ledger, request, RequestState::Rejected);
        let ghost left = self.ledger@;
        proof {
            assert forall|k: int| 0 <= k < quotes@.len() implies sweepable(
                left,
                #[trigger] quotes@[k],
            ) by {
                assert(gathered(v, request, record.n_legs as int, quotes@[k]));
            }
            assert(left.quotes == v.quotes);
        }
        sweep(&mut self.ledger, &quotes, None, events);
        proof {
            self.ledger.wf_model();
        }
        Ok(())
    }
}

} // verus!
