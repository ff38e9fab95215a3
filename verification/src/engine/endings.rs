//! What ends a quotation, record by record and in plain numbers: a request withdrawn, one accepted,
//! and the answers to its settlement.
//!
//! Each law speaks of the state a command acts on: the one its account's normalisation led to.

use crate::account::{Link, NIL};
use crate::arrays::array_from_holds;
use crate::command::{Command, ExpectedFill};
use crate::config::MAX_LEGS;
use crate::engine::accepting::{
    all_quotes_are, consumable, fills_are_within_limits, gathered, leg_handles, losers_are, loses,
    sweepable, winner_is,
};
use crate::engine::closing::{
    among, discharging_trims, finished_sound, open_claim_is_reserved, quote_same, rejected_sound,
    request_freed_sound, owner_among, settling_claim_is_committed, settling_sound,
    standing_claim_is_reserved,
};
use crate::engine::model::{failures, EngineView};
use crate::engine::moves::{
    all_consumed_keeps, fills_are_found, no_fill_fault_before, ready_keeps, swept_keeps,
};
use crate::engine::EngineError;
use crate::event::{Event, QuoteRejectReason};
use crate::ledger::effects::{
    a_commit_keeps_exactly_its_amount, a_release_returns_exactly_its_amount, slot_kept,
    slots_kept_but,
};
use crate::ledger::keeps::{discharged_one_wf, discharged_prefix_wf};
use crate::ledger::model::LedgerView;
use crate::ledger::LedgerError;
use crate::quote::{Quote, QuoteIdx, QuoteState};
use crate::request::{Nonce, ReqIdx, RequestState, Selection};
use crate::reservation::ResOwner;
use crate::selection::{handles, may_fill, the_cheapest_then_earliest_quote_wins, NoQuoteReason};
use crate::settlement::TxStatus;
use crate::slab::{handle_extensional, handle_of, Handle, SlabView};
use crate::types::{Amount, Price, Ts};
use vstd::prelude::*;

verus! {

/// `quote` is on a leg of `request`.
pub open spec fn stands_on(v: LedgerView, request: ReqIdx, quote: QuoteIdx) -> bool {
    &&& v.quotes.names(quote)
    &&& exists|l: int|
        0 <= l < v.requests.of(request).n_legs && (#[trigger] v.quotes_on(request, l)).contains(
            quote.index(),
        )
}

/// One of the first `n` of `quotes` is in slot `j`.
pub open spec fn listed(quotes: Seq<QuoteIdx>, n: nat, j: u32) -> bool {
    exists|k: int| 0 <= k < n && k < quotes.len() && (#[trigger] quotes[k]).index() == j
}

/// The claim in slot `i` is held by one of the first `n` of `quotes`.
pub open spec fn backs(v: LedgerView, quotes: Seq<QuoteIdx>, n: nat, i: u32) -> bool {
    &&& v.claims.occupied(i)
    &&& exists|k: int|
        0 <= k < n && k < quotes.len() && v.claims.at(i).owner == ResOwner::Quote(
            #[trigger] quotes[k],
        )
}

/// What the claim of `quote` holds of account `a`'s, if it has one and the quote is that account's.
pub open spec fn held_by_quote(v: LedgerView, quote: QuoteIdx, a: int) -> int {
    match v.quotes.of(quote).claim {
        Some(claim) => if v.quotes.of(quote).maker.0 == a {
            v.claims.of(claim).amount.0 as int
        } else {
            0
        },
        None => 0,
    }
}

/// What the claims of the first `n` of `quotes` hold of account `a`'s in all.
pub open spec fn held(v: LedgerView, quotes: Seq<QuoteIdx>, a: int, n: nat) -> int
    decreases n,
{
    if n == 0 {
        0
    } else {
        held(v, quotes, a, (n - 1) as nat) + held_by_quote(v, quotes[n - 1], a)
    }
}

/// Account `a` has `less` less reserved, and is as it was otherwise.
pub open spec fn gets_back(v: LedgerView, w: LedgerView, a: int, less: int) -> bool {
    &&& w.accounts[a].reserved.0 == v.accounts[a].reserved.0 - less
    &&& w.accounts[a].committed == v.accounts[a].committed
    &&& w.accounts[a].free == v.accounts[a].free
}

/// The first `n` of `quotes` are gone with their claims, and everything else is as it was.
pub open spec fn sweeps(v: LedgerView, w: LedgerView, quotes: Seq<QuoteIdx>, n: nat) -> bool {
    &&& w.requests == v.requests
    &&& w.contracts == v.contracts
    &&& w.accounts.len() == v.accounts.len()
    &&& forall|j: u32|
        #![trigger w.quotes.occupied(j)]
        #![trigger slot_kept(v.quotes, w.quotes, j)]
        if listed(quotes, n, j) {
            !w.quotes.occupied(j)
        } else {
            slot_kept(v.quotes, w.quotes, j)
        }
    &&& forall|i: u32|
        #![trigger w.claims.occupied(i)]
        #![trigger slot_kept(v.claims, w.claims, i)]
        if backs(v, quotes, n, i) {
            !w.claims.occupied(i)
        } else {
            slot_kept(v.claims, w.claims, i)
        }
    &&& forall|a: int|
        0 <= a < v.accounts.len() ==> #[trigger] gets_back(v, w, a, held(v, quotes, a, n))
}

/// A standing quote is dismissed with its claim, and nothing else moves.
proof fn dismissal_takes_one(v: LedgerView, quote: QuoteIdx)
    requires
        v.wf(),
        v.sound_book(),
        v.quotes.names(quote),
        v.quotes.of(quote).state is Active,
    ensures
        ({
            let w = v.dismissed(quote);
            &&& w.requests == v.requests
            &&& w.contracts == v.contracts
            &&& w.accounts.len() == v.accounts.len()
            &&& slots_kept_but(v.quotes, w.quotes, quote.index())
            &&& !w.quotes.occupied(quote.index())
            &&& forall|i: u32|
                #![trigger w.claims.occupied(i)]
                #![trigger slot_kept(v.claims, w.claims, i)]
                if v.claims.occupied(i) && v.claims.at(i).owner == ResOwner::Quote(quote) {
                    !w.claims.occupied(i)
                } else {
                    slot_kept(v.claims, w.claims, i)
                }
            &&& forall|a: int|
                0 <= a < v.accounts.len() ==> #[trigger] gets_back(
                    v,
                    w,
                    a,
                    held_by_quote(v, quote, a),
                )
        }),
{
    broadcast use handle_of;

    standing_claim_is_reserved(v, quote);
    let w = v.dismissed(quote);
    match v.quotes.of(quote).claim {
        Some(claim) => {
            a_release_returns_exactly_its_amount(v, claim);
            assert(v.claim_ok(claim.index()));
            let freed = v.released(claim.index());
            assert forall|j: u32| j != quote.index() implies #[trigger] slot_kept(
                v.quotes,
                w.quotes,
                j,
            ) by {
                assert(slot_kept(v.quotes, freed.quotes, j));
            }
            assert forall|i: u32|
                if v.claims.occupied(i) && v.claims.at(i).owner == ResOwner::Quote(quote) {
                    !(#[trigger] w.claims.occupied(i))
                } else {
                    slot_kept(v.claims, w.claims, i)
                } by {
                if i != claim.index() {
                    assert(slot_kept(v.claims, freed.claims, i));
                    assert(v.owned(i));
                    if v.claims.occupied(i) && v.claims.at(i).owner == ResOwner::Quote(quote) {
                        assert(false);
                    }
                }
            }
            assert forall|a: int| 0 <= a < v.accounts.len() implies #[trigger] gets_back(
                v,
                w,
                a,
                held_by_quote(v, quote, a),
            ) by {
                if a != v.claims.of(claim).account.0 {
                    assert(freed.accounts[a] == v.accounts[a]);
                }
            }
        },
        None => {
            assert forall|i: u32|
                v.claims.occupied(i) implies #[trigger] v.claims.at(i).owner != ResOwner::Quote(
                quote,
            ) by {
                assert(v.owned(i));
            }
        },
    }
}

/// What sweeping quotes takes.
proof fn sweeping_takes_exactly_its_quotes(v: LedgerView, quotes: Seq<QuoteIdx>, n: nat)
    requires
        v.wf(),
        v.sound_book(),
        n <= quotes.len(),
        quotes.no_duplicates(),
        forall|k: int| 0 <= k < quotes.len() ==> sweepable(v, #[trigger] quotes[k]),
    ensures
        sweeps(v, v.swept(quotes, n), quotes, n),
    decreases n,
{
    broadcast use handle_of;

    if n > 0 {
        let m = (n - 1) as nat;
        sweeping_takes_exactly_its_quotes(v, quotes, m);
        swept_keeps(v, quotes, m);
        let u = v.swept(quotes, m);
        let w = v.swept(quotes, n);
        let quote = quotes[m as int];
        assert(sweepable(v, quotes[m as int]));
        assert(quote_same(v, u, quotes[m as int].index()));
        dismissal_takes_one(u, quote);
        standing_claim_is_reserved(v, quote);
        standing_claim_is_reserved(u, quote);
        assert forall|j: u32|
            if listed(quotes, n, j) {
                !(#[trigger] w.quotes.occupied(j))
            } else {
                slot_kept(v.quotes, w.quotes, j)
            } by {
            if j == quote.index() {
                assert(quotes[m as int].index() == j);
            } else {
                assert(slot_kept(u.quotes, w.quotes, j));
                if listed(quotes, m, j) {
                    assert(!u.quotes.occupied(j));
                    let k = choose|k: int|
                        0 <= k < m && k < quotes.len() && (#[trigger] quotes[k]).index() == j;
                    assert(quotes[k].index() == j);
                } else {
                    assert(slot_kept(v.quotes, u.quotes, j));
                }
            }
        }
        assert forall|i: u32|
            if backs(v, quotes, n, i) {
                !(#[trigger] w.claims.occupied(i))
            } else {
                slot_kept(v.claims, w.claims, i)
            } by {
            if backs(v, quotes, m, i) {
                assert(!u.claims.occupied(i));
                let k = choose|k: int|
                    0 <= k < m && k < quotes.len() && v.claims.at(i).owner == ResOwner::Quote(
                        #[trigger] quotes[k],
                    );
                assert(v.claims.at(i).owner == ResOwner::Quote(quotes[k]));
                assert(slot_kept(u.claims, w.claims, i) || !w.claims.occupied(i));
            } else {
                assert(slot_kept(v.claims, u.claims, i));
                if v.claims.occupied(i) && v.claims.at(i).owner == ResOwner::Quote(quote) {
                    assert(v.claims.at(i).owner == ResOwner::Quote(quotes[m as int]));
                } else {
                    assert(slot_kept(u.claims, w.claims, i));
                }
            }
        }
        assert forall|a: int| 0 <= a < v.accounts.len() implies #[trigger] gets_back(
            v,
            w,
            a,
            held(v, quotes, a, n),
        ) by {
            assert(gets_back(v, u, a, held(v, quotes, a, m)));
            assert(gets_back(u, w, a, held_by_quote(u, quote, a)));
            match v.quotes.of(quote).claim {
                Some(claim) => {
                    assert(slot_kept(v.claims, u.claims, claim.index()));
                },
                None => {},
            }
        }
    }
}

/// The quotes gathered from the legs of an open request are those that stand on them.
proof fn all_quotes_are_those_standing(v: LedgerView, request: ReqIdx, n: nat)
    requires
        v.wf(),
        v.sound_book(),
        v.requests.names(request),
        v.requests.of(request).state is Open,
        n <= v.requests.of(request).n_legs,
    ensures
        forall|quote: QuoteIdx| #[trigger]
            v.all_quotes(request, n).contains(quote) <==> v.quotes.names(quote) && exists|l: int|
                0 <= l < n && (#[trigger] v.quotes_on(request, l)).contains(quote.index()),
    decreases n,
{
    broadcast use handle_of;

    if n > 0 {
        let m = (n - 1) as nat;
        all_quotes_are_those_standing(v, request, m);
        let before = v.all_quotes(request, m);
        let chain = v.quotes_on(request, m as int);
        let more = handles(v.quotes, chain);
        let all = v.all_quotes(request, n);
        assert(all == before + more);
        assert(v.request_ok(request.index()));
        assert(v.request_handle(request.index()) == request) by {
            handle_extensional(v.request_handle(request.index()), request);
        }
        assert(v.leg_ok(request, m as int));
        assert forall|quote: QuoteIdx| #[trigger] all.contains(quote) <==> v.quotes.names(quote)
            && exists|l: int|
            0 <= l < n && (#[trigger] v.quotes_on(request, l)).contains(quote.index()) by {
            if all.contains(quote) {
                let k = all.index_of(quote);
                assert(all[k] == quote);
                if k < before.len() {
                    assert(before[k] == quote);
                    assert(before.contains(quote));
                } else {
                    let i = chain[k - before.len()];
                    assert(more[k - before.len()] == quote);
                    assert(v.on_leg(chain[k - before.len()], request, m as int));
                    assert(v.quotes_on(request, m as int).contains(quote.index()));
                }
            }
            if v.quotes.names(quote) && exists|l: int|
                0 <= l < n && (#[trigger] v.quotes_on(request, l)).contains(quote.index()) {
                let l = choose|l: int|
                    0 <= l < n && (#[trigger] v.quotes_on(request, l)).contains(quote.index());
                if l < m {
                    assert(before.contains(quote));
                    let k = before.index_of(quote);
                    assert(all[k] == quote);
                } else {
                    let k = chain.index_of(quote.index());
                    assert(chain[k] == quote.index());
                    handle_extensional(more[k], quote);
                    assert(all[before.len() + k] == quote);
                }
            }
        }
    }
}

/// What quotes hold is the same where their records and their claims are.
proof fn held_alike(v: LedgerView, w: LedgerView, quotes: Seq<QuoteIdx>, a: int, n: nat)
    requires
        n <= quotes.len(),
        forall|k: int|
            0 <= k < n ==> held_by_quote(v, #[trigger] quotes[k], a) == held_by_quote(
                w,
                quotes[k],
                a,
            ),
    ensures
        held(v, quotes, a, n) == held(w, quotes, a, n),
    decreases n,
{
    if n > 0 {
        held_alike(v, w, quotes, a, (n - 1) as nat);
        assert(held_by_quote(v, quotes[n - 1], a) == held_by_quote(w, quotes[n - 1], a));
    }
}

// ───────────────────────────── a request withdrawn ─────────────────────────────

/// How many quotes stand on the first `n` legs of `request`.
pub open spec fn standing_count(v: LedgerView, request: ReqIdx, n: nat) -> nat
    decreases n,
{
    if n == 0 {
        0
    } else {
        standing_count(v, request, (n - 1) as nat) + v.quotes_on(request, n - 1).len()
    }
}

/// As many quotes are gathered as stand.
proof fn all_quotes_count(v: LedgerView, request: ReqIdx, n: nat)
    ensures
        v.all_quotes(request, n).len() == standing_count(v, request, n),
    decreases n,
{
    if n > 0 {
        all_quotes_count(v, request, (n - 1) as nat);
    }
}

/// **Makers are told leg by leg, and on each leg in the order they stand there.**
pub proof fn standing_quotes_are_gathered_leg_by_leg(
    v: LedgerView,
    request: ReqIdx,
    n: nat,
    l: nat,
    k: int,
)
    requires
        l < n,
        0 <= k < v.quotes_on(request, l as int).len(),
    ensures
        ({
            let at = standing_count(v, request, l) + k;
            &&& at < v.all_quotes(request, n).len()
            &&& v.all_quotes(request, n)[at].index() == v.quotes_on(request, l as int)[k]
        }),
    decreases n,
{
    broadcast use handle_of;

    let m = (n - 1) as nat;
    all_quotes_count(v, request, m);
    if l < m {
        standing_quotes_are_gathered_leg_by_leg(v, request, m, l, k);
    }
}

/// **Only an open request may be withdrawn**, where every maker on it can be told. Each refusal
/// names the fault.
pub proof fn a_request_may_be_withdrawn_while_open(
    engine: EngineView,
    request: ReqIdx,
    now: Ts,
    room: nat,
)
    requires
        engine.wf(),
    ensures
        ({
            let command = Command::RejectRequest { request };
            let v = engine.ready_for(command, now).ledger;
            let record = v.requests.of(request);
            let told = standing_count(v, request, record.n_legs as nat);
            let outcome = engine.outcome(command, now, room);
            &&& outcome is Ok <==> {
                &&& v.requests.names(request)
                &&& record.state == RequestState::Open
                &&& told <= room
            }
            &&& match outcome {
                Ok(_) => true,
                Err(EngineError::UnknownRequest) => !v.requests.names(request),
                Err(EngineError::RequestNotOpen) => v.requests.names(request) && record.state
                    != RequestState::Open,
                Err(EngineError::EventBufferFull) => told > room,
                Err(_) => false,
            }
        }),
{
    let command = Command::RejectRequest { request };
    let v = engine.ready_for(command, now).ledger;
    all_quotes_count(v, request, v.requests.of(request).n_legs as nat);
}

/// `request` is left by its makers: it has no claim, nobody quotes its legs, and their terms and
/// everything else of it are as they were. Every other request is as it was.
pub open spec fn only_leaves(v: LedgerView, w: LedgerView, request: ReqIdx) -> bool {
    let (was, is) = (v.requests.of(request), w.requests.of(request));
    &&& slots_kept_but(v.requests, w.requests, request.index())
    &&& w.requests.names(request)
    &&& is.requester == was.requester
    &&& is.deadline == was.deadline
    &&& is.n_legs == was.n_legs
    &&& forall|l: int|
        0 <= l < MAX_LEGS ==> {
            let (had, has) = (was.legs@[l], #[trigger] is.legs@[l]);
            &&& has.contract == had.contract
            &&& has.side == had.side
            &&& has.size == had.size
            &&& has.limit == had.limit
            &&& has.published == had.published
            &&& has.quote_count == 0
            &&& has.quotes_head == Link(NIL)
        }
}

/// Whether the claim in slot `i` is held by `request` itself or by a quote that stands on it.
pub open spec fn held_on(v: LedgerView, request: ReqIdx, i: u32) -> bool {
    &&& v.claims.occupied(i)
    &&& match v.claims.at(i).owner {
        ResOwner::Request(owner) => owner == request,
        ResOwner::Quote(quote) => stands_on(v, request, quote),
    }
}

/// What the claim of `request` holds of account `a`'s, if it has one and the request is that
/// account's.
pub open spec fn held_by_request(v: LedgerView, request: ReqIdx, a: int) -> int {
    match v.requests.of(request).claim {
        Some(claim) => if v.requests.of(request).requester.0 == a {
            v.claims.of(claim).amount.0 as int
        } else {
            0
        },
        None => 0,
    }
}

/// **Withdrawing a request lets everyone on it go**: the request is rejected for good and holds no
/// claim, every quote that stood on it is gone with its claim, and its maker is told that the
/// request was withdrawn, each once. Everybody gets back what those claims held of theirs, and
/// nothing else moves.
pub proof fn a_withdrawal_lets_everyone_go(
    engine: EngineView,
    request: ReqIdx,
    now: Ts,
    room: nat,
)
    requires
        engine.wf(),
        engine.outcome(Command::RejectRequest { request }, now, room) is Ok,
    ensures
        ({
            let command = Command::RejectRequest { request };
            let v = engine.ready_for(command, now).ledger;
            let after = engine.after(command, now, room);
            let w = after.ledger;
            let emitted = engine.emitted(command, now, room);
            let gone = v.all_quotes(request, v.requests.of(request).n_legs as nat);
            &&& only_leaves(v, w, request)
            &&& w.requests.of(request).state == RequestState::Rejected
            &&& w.requests.of(request).claim is None
            &&& gone.no_duplicates()
            &&& forall|quote: QuoteIdx| #[trigger]
                gone.contains(quote) <==> stands_on(v, request, quote)
            &&& forall|j: u32|
                if v.quotes.occupied(j) && stands_on(v, request, v.quote_handle(j)) {
                    !(#[trigger] w.quotes.occupied(j))
                } else {
                    slot_kept(v.quotes, w.quotes, j)
                }
            &&& forall|i: u32|
                if held_on(v, request, i) {
                    !(#[trigger] w.claims.occupied(i))
                } else {
                    slot_kept(v.claims, w.claims, i)
                }
            &&& w.accounts.len() == v.accounts.len()
            &&& forall|a: int|
                0 <= a < v.accounts.len() ==> #[trigger] gets_back(
                    v,
                    w,
                    a,
                    held_by_request(v, request, a) + held(v, gone, a, gone.len()),
                )
            &&& w.contracts == v.contracts
            &&& after.arrivals == engine.arrivals
            &&& emitted.len() == gone.len()
            &&& forall|k: int|
                0 <= k < gone.len() ==> #[trigger] emitted[k] == (Event::QuoteRejected {
                    quote: gone[k],
                    maker: v.quotes.of(gone[k]).maker,
                    reason: QuoteRejectReason::RequestRejected,
                })
        }),
{
    broadcast use {handle_of, array_from_holds};

    let command = Command::RejectRequest { request };
    ready_keeps(engine, command, now);
    let v = engine.ready_for(command, now).ledger;
    let w = engine.after(command, now, room).ledger;
    let record = v.requests.of(request);
    let n = record.n_legs as nat;
    let gone = v.all_quotes(request, n);
    assert(v.request_ok(request.index()));
    all_quotes_are(v, request, n);
    all_quotes_are_those_standing(v, request, n);
    open_claim_is_reserved(v, request);
    request_freed_sound(v, request);
    let freed = v.request_freed(request);
    assert(v.same_request_at(freed, request.index()));
    rejected_sound(freed, request, RequestState::Rejected);
    let left = freed.left_in(request, RequestState::Rejected);
    assert forall|k: int| 0 <= k < gone.len() implies sweepable(left, #[trigger] gone[k]) by {
        assert(gathered(v, request, n as int, gone[k]));
    }
    sweeping_takes_exactly_its_quotes(left, gone, gone.len());
    assert(sweeps(left, w, gone, gone.len()));
    match record.claim {
        Some(claim) => {
            a_release_returns_exactly_its_amount(v, claim);
            assert(v.claim_ok(claim.index()));
        },
        None => {},
    }
    assert forall|j: u32|
        if v.quotes.occupied(j) && stands_on(v, request, v.quote_handle(j)) {
            !(#[trigger] w.quotes.occupied(j))
        } else {
            slot_kept(v.quotes, w.quotes, j)
        } by {
        if v.quotes.occupied(j) && stands_on(v, request, v.quote_handle(j)) {
            assert(gone.contains(v.quote_handle(j)));
            let k = gone.index_of(v.quote_handle(j));
            assert(gone[k].index() == j);
            assert(listed(gone, gone.len(), j));
        } else {
            if listed(gone, gone.len(), j) {
                let k = choose|k: int| 0 <= k < gone.len() && (#[trigger] gone[k]).index() == j;
                assert(gone.contains(gone[k]));
                assert(gathered(v, request, n as int, gone[k]));
                handle_extensional(gone[k], v.quote_handle(j));
            }
            assert(slot_kept(left.quotes, w.quotes, j));
        }
    }
    assert forall|i: u32|
        if held_on(v, request, i) {
            !(#[trigger] w.claims.occupied(i))
        } else {
            slot_kept(v.claims, w.claims, i)
        } by {
        assert(v.owned(i));
        let whole = gone.len();
        let owner = v.claims.at(i).owner;
        if v.claims.occupied(i) && owner == ResOwner::Request(request) {
            assert(record.claim is Some);
            assert(!left.claims.occupied(i));
            assert(slot_kept(left.claims, w.claims, i));
        } else {
            match record.claim {
                Some(claim) => {
                    assert(slot_kept(v.claims, freed.claims, i));
                },
                None => {},
            }
            assert(slot_kept(v.claims, left.claims, i));
            if held_on(v, request, i) {
                let quote = owner->Quote_0;
                assert(gone.contains(quote));
                let k = gone.index_of(quote);
                assert(gone[k] == quote);
                assert(left.claims.at(i).owner == ResOwner::Quote(gone[k]));
                assert(backs(left, gone, whole, i));
            } else {
                if backs(left, gone, whole, i) {
                    let k = choose|k: int|
                        0 <= k < gone.len() && left.claims.at(i).owner == ResOwner::Quote(
                            #[trigger] gone[k],
                        );
                    assert(gone.contains(gone[k]));
                }
                assert(slot_kept(left.claims, w.claims, i));
            }
        }
    }
    assert forall|a: int| 0 <= a < v.accounts.len() implies #[trigger] gets_back(
        v,
        w,
        a,
        held_by_request(v, request, a) + held(v, gone, a, gone.len()),
    ) by {
        assert(gets_back(left, w, a, held(left, gone, a, gone.len())));
        assert forall|k: int| 0 <= k < gone.len() implies held_by_quote(left, #[trigger] gone[k], a)
            == held_by_quote(v, gone[k], a) by {
            assert(gathered(v, request, n as int, gone[k]));
            standing_claim_is_reserved(v, gone[k]);
            match (v.quotes.of(gone[k]).claim, record.claim) {
                (Some(theirs), Some(claim)) => {
                    assert(slot_kept(v.claims, freed.claims, theirs.index()));
                },
                _ => {},
            }
        }
        held_alike(left, v, gone, a, gone.len());
        match record.claim {
            Some(claim) => {
                if a != v.claims.of(claim).account.0 {
                    assert(freed.accounts[a] == v.accounts[a]);
                }
            },
            None => {},
        }
    }
    match record.claim {
        Some(claim) => {
            assert forall|r: u32| r != request.index() implies #[trigger] slot_kept(
                v.requests,
                w.requests,
                r,
            ) by {
                assert(slot_kept(v.requests, freed.requests, r));
            }
        },
        None => {},
    }
}

// ───────────────────────────── a request accepted ─────────────────────────────

/// Some quote on leg `l` of `request` may fill it at `now`, at `price` or less.
pub open spec fn offers(v: LedgerView, request: ReqIdx, l: int, now: Ts, price: Price) -> bool {
    let chain = v.quotes_on(request, l);
    exists|k: int|
        {
            &&& 0 <= k < chain.len()
            &&& may_fill(v.quotes.at(#[trigger] chain[k]), v.leg_at(request, l), now)
            &&& v.quotes.at(chain[k]).price.0 <= price.0
        }
}

/// `quote` wins leg `l` of `request` at `now`: it may fill it, and whatever else may is dearer, or
/// just as dear and arrived no earlier.
pub open spec fn wins(v: LedgerView, request: ReqIdx, l: int, now: Ts, quote: QuoteIdx) -> bool {
    let chain = v.quotes_on(request, l);
    let won = v.quotes.of(quote);
    &&& v.quotes.names(quote)
    &&& chain.contains(quote.index())
    &&& may_fill(won, v.leg_at(request, l), now)
    &&& forall|k: int|
        0 <= k < chain.len() && may_fill(
            v.quotes.at(#[trigger] chain[k]),
            v.leg_at(request, l),
            now,
        ) ==> {
            let rival = v.quotes.at(chain[k]);
            won.price.0 < rival.price.0 || (won.price.0 == rival.price.0 && won.arrival
                <= rival.arrival)
        }
}

/// What a leg's fill says of the quotes on it.
proof fn a_fill_wins(v: LedgerView, request: ReqIdx, l: int, now: Ts)
    requires
        v.wf(),
        v.sound_book(),
        v.requests.names(request),
        v.requests.of(request).state is Open,
        0 <= l < v.requests.of(request).n_legs,
    ensures
        match v.fill(request, l, now) {
            Ok(best) => {
                &&& wins(v, request, l, now, best.quote)
                &&& best.price == v.quotes.of(best.quote).price
                &&& v.quotes.of(best.quote).leg.0 == l
                &&& stands_on(v, request, best.quote)
                &&& forall|price: Price| #[trigger]
                    offers(v, request, l, now, price) <==> best.price.0 <= price.0
            },
            Err(_) => forall|price: Price| !#[trigger] offers(v, request, l, now, price),
        },
{
    let chain = v.quotes_on(request, l);
    the_cheapest_then_earliest_quote_wins(v.quotes, v.leg_at(request, l), now);
    match v.fill(request, l, now) {
        Ok(best) => {
            winner_is(v, request, l, now);
            let k = chain.index_of(best.quote.index());
            assert(chain[k] == best.quote.index());
            assert(may_fill(v.quotes.at(chain[k]), v.leg_at(request, l), now));
        },
        Err(_) => {},
    }
}

/// Without a fault each of the first `n` legs has a fill at what was expected or less.
proof fn fills_as_expected(
    engine: EngineView,
    request: ReqIdx,
    expected: [ExpectedFill; MAX_LEGS],
    now: Ts,
    n: nat,
)
    requires
        engine.ledger.wf(),
        engine.ledger.sound_book(),
        engine.ledger.requests.names(request),
        engine.ledger.requests.of(request).state is Open,
        n <= engine.ledger.requests.of(request).n_legs,
    ensures
        match engine.first_fill_fault(request, expected, now, n) {
            None => forall|l: int|
                0 <= l < n ==> offers(
                    engine.ledger,
                    request,
                    l,
                    now,
                    (#[trigger] expected@[l]).price,
                ),
            Some(EngineError::NoEligibleQuote { leg, reason }) => {
                &&& leg < n
                &&& engine.ledger.fill(request, leg as int, now) == Err::<Selection, NoQuoteReason>(
                    reason,
                )
                &&& !offers(engine.ledger, request, leg as int, now, expected@[leg as int].price)
            },
            Some(EngineError::PresentationStale { leg, expected: shown, actual }) => {
                &&& leg < n
                &&& shown == expected@[leg as int].price
                &&& actual.0 > shown.0
                &&& offers(engine.ledger, request, leg as int, now, actual)
                &&& !offers(engine.ledger, request, leg as int, now, expected@[leg as int].price)
                &&& forall|price: Price| #[trigger]
                    offers(engine.ledger, request, leg as int, now, price) ==> actual.0 <= price.0
            },
            Some(_) => false,
        },
    decreases n,
{
    if n > 0 {
        assert(engine.ledger.request_ok(request.index()));
        fills_as_expected(engine, request, expected, now, (n - 1) as nat);
        a_fill_wins(engine.ledger, request, n - 1, now);
        assert(((n - 1) as u8) as int == n - 1);
    }
}

/// There are as many losers as there are quotes, less one for each leg.
proof fn losers_count(v: LedgerView, request: ReqIdx, now: Ts, n: nat)
    requires
        v.wf(),
        v.sound_book(),
        v.requests.names(request),
        v.requests.of(request).state is Open,
        n <= v.requests.of(request).n_legs,
        forall|l: int| 0 <= l < n ==> (#[trigger] v.fill(request, l, now)) is Ok,
    ensures
        v.losers(request, now, n).len() + n == standing_count(v, request, n),
    decreases n,
{
    if n > 0 {
        losers_count(v, request, now, (n - 1) as nat);
        assert(v.fill(request, n - 1, now) is Ok);
        winner_is(v, request, n - 1, now);
        let quotes = handles(v.quotes, v.quotes_on(request, n - 1));
        let at = quotes.index_of(v.winner(request, n - 1, now));
        assert(quotes[at] == v.winner(request, n - 1, now));
    }
}

/// **Those who lose are told leg by leg, and on each leg in the order they stand there**, the winner
/// left out.
pub proof fn losers_are_told_leg_by_leg(
    v: LedgerView,
    request: ReqIdx,
    now: Ts,
    n: nat,
    l: nat,
    k: int,
)
    requires
        v.wf(),
        v.sound_book(),
        v.requests.names(request),
        v.requests.of(request).state is Open,
        l < n <= v.requests.of(request).n_legs,
        forall|j: int| 0 <= j < n ==> (#[trigger] v.fill(request, j, now)) is Ok,
        0 <= k < v.quotes_on(request, l as int).len(),
        v.quotes_on(request, l as int)[k] != v.winner(request, l as int, now).index(),
    ensures
        ({
            let chain = v.quotes_on(request, l as int);
            let won = chain.index_of(v.winner(request, l as int, now).index());
            let at = standing_count(v, request, l) - l + if k < won {
                k
            } else {
                k - 1
            };
            &&& 0 <= at < v.losers(request, now, n).len()
            &&& v.losers(request, now, n)[at].index() == chain[k]
        }),
    decreases n,
{
    broadcast use handle_of;

    let m = (n - 1) as nat;
    losers_count(v, request, now, m);
    if l < m {
        losers_are_told_leg_by_leg(v, request, now, m, l, k);
    } else {
        let chain = v.quotes_on(request, l as int);
        let winner = v.winner(request, l as int, now);
        assert(v.fill(request, l as int, now) is Ok);
        winner_is(v, request, l as int, now);
        let quotes = handles(v.quotes, chain);
        let at = quotes.index_of(winner);
        assert(quotes[at] == winner);
        assert(chain[at] == winner.index());
        let won = chain.index_of(winner.index());
        assert(chain[won] == winner.index());
        assert(v.request_ok(request.index()));
        handle_extensional(v.request_handle(request.index()), request);
        assert(v.leg_ok(request, l as int));
        assert(at == won);
        let more = v.rivals(request, l as int, now);
        let j = if k < won {
            k
        } else {
            k - 1
        };
        assert(more[j] == quotes[k]);
    }
}

/// **When a request may be accepted**: while it is open and before its deadline; where the
/// expectations name its legs in order; where each leg has a fill at what was expected of it or
/// less; where the requester and every winner still hold their claims; and where every other maker
/// can be told, and custody. Each refusal names the fault.
pub proof fn a_request_is_accepted_exactly_at_what_was_shown(
    engine: EngineView,
    request: ReqIdx,
    expected: [ExpectedFill; MAX_LEGS],
    n_legs: u8,
    now: Ts,
    room: nat,
)
    requires
        engine.wf(),
    ensures
        ({
            let command = Command::AcceptRequest { request, expected, n_legs };
            let v = engine.ready_for(command, now).ledger;
            let record = v.requests.of(request);
            let n = record.n_legs as nat;
            let told = standing_count(v, request, n) - n + 1;
            let named = n_legs == record.n_legs && forall|l: int|
                0 <= l < n_legs ==> (#[trigger] expected@[l]).leg.0 == l;
            let shown = forall|l: int|
                0 <= l < n ==> offers(v, request, l, now, (#[trigger] expected@[l]).price);
            let backed = record.claim is Some && forall|l: int|
                0 <= l < n ==> v.quotes.of(#[trigger] v.winner(request, l, now)).claim is Some;
            let outcome = engine.outcome(command, now, room);
            &&& engine.touched(command) == (if engine.ledger.requests.names(request) {
                Some(engine.ledger.requests.of(request).requester)
            } else {
                None
            })
            &&& outcome is Ok <==> {
                &&& v.requests.names(request)
                &&& record.state == RequestState::Open
                &&& now.0 < record.deadline.0
                &&& named
                &&& shown
                &&& backed
                &&& told <= room
            }
            &&& match outcome {
                Ok(_) => true,
                Err(EngineError::UnknownRequest) => !v.requests.names(request),
                Err(EngineError::RequestNotOpen) => record.state != RequestState::Open,
                Err(EngineError::RequestDeadlinePassed) => now.0 >= record.deadline.0,
                Err(EngineError::ExpectationMismatch) => !named,
                Err(EngineError::NoEligibleQuote { leg, reason }) => {
                    &&& leg < n
                    &&& v.fill(request, leg as int, now) == Err::<Selection, NoQuoteReason>(reason)
                    &&& !offers(v, request, leg as int, now, expected@[leg as int].price)
                },
                Err(EngineError::PresentationStale { leg, expected: asked, actual }) => {
                    &&& leg < n
                    &&& asked == expected@[leg as int].price
                    &&& actual.0 > asked.0
                    &&& offers(v, request, leg as int, now, actual)
                    &&& forall|price: Price| #[trigger]
                        offers(v, request, leg as int, now, price) ==> actual.0 <= price.0
                },
                Err(EngineError::Ledger(error)) => error == LedgerError::StaleReservation
                    && !backed,
                Err(EngineError::EventBufferFull) => told > room,
                Err(_) => false,
            }
        }),
{
    let command = Command::AcceptRequest { request, expected, n_legs };
    ready_keeps(engine, command, now);
    let ready = engine.ready_for(command, now);
    let v = ready.ledger;
    let n = v.requests.of(request).n_legs as nat;
    if v.requests.names(request) && v.requests.of(request).state is Open {
        assert(v.request_ok(request.index()));
        fills_as_expected(ready, request, expected, now, n);
        if ready.first_fill_fault(request, expected, now, n) is None {
            fills_are_found(ready, request, expected, now, n);
            losers_count(v, request, now, n);
        } else {
            match ready.first_fill_fault(request, expected, now, n)->0 {
                EngineError::NoEligibleQuote { leg, reason } => {
                    assert(!offers(v, request, leg as int, now, expected@[leg as int].price));
                },
                EngineError::PresentationStale { leg, expected: asked, actual } => {
                    assert(!offers(v, request, leg as int, now, expected@[leg as int].price));
                },
                _ => {},
            }
        }
    }
}

/// `is` is `was`, consumed: off its leg, and all its terms as they were.
pub open spec fn consumed_from(was: Quote, is: Quote) -> bool {
    &&& is.state == QuoteState::Consumed
    &&& is.maker == was.maker
    &&& is.request == was.request
    &&& is.leg == was.leg
    &&& is.price == was.price
    &&& is.size == was.size
    &&& is.expires_at == was.expires_at
    &&& is.arrival == was.arrival
    &&& is.claim == was.claim
    &&& is.next_on_leg == Link(NIL)
}

/// The claim in slot `i` is committed to `request` for `keep`, and is otherwise as it was.
pub open spec fn committed_to(
    v: LedgerView,
    w: LedgerView,
    i: u32,
    request: ReqIdx,
    keep: int,
) -> bool {
    let (was, is) = (v.claims.at(i), w.claims.at(i));
    &&& w.claims.occupied(i)
    &&& w.claims.generation(i) == v.claims.generation(i)
    &&& is.account == was.account
    &&& is.owner == was.owner
    &&& is.amount.0 == keep
    &&& is.list() == Some(request)
    &&& is.expiry() is None
}

/// Account `a` has `less` less reserved and `more` more committed, and is as it was otherwise.
pub open spec fn commits(v: LedgerView, w: LedgerView, a: int, less: int, more: int) -> bool {
    &&& w.accounts[a].reserved.0 == v.accounts[a].reserved.0 - less
    &&& w.accounts[a].committed.0 == v.accounts[a].committed.0 + more
    &&& w.accounts[a].free == v.accounts[a].free
}

/// The first `n` of `quotes` are consumed, their claims committed to `request` whole, and everything
/// else is as it was.
pub open spec fn consumes(
    v: LedgerView,
    w: LedgerView,
    quotes: Seq<QuoteIdx>,
    request: ReqIdx,
    n: nat,
) -> bool {
    &&& w.requests == v.requests
    &&& w.contracts == v.contracts
    &&& w.accounts.len() == v.accounts.len()
    &&& forall|j: u32|
        #![trigger w.quotes.occupied(j)]
        #![trigger slot_kept(v.quotes, w.quotes, j)]
        if listed(quotes, n, j) {
            &&& w.quotes.occupied(j)
            &&& w.quotes.generation(j) == v.quotes.generation(j)
            &&& consumed_from(v.quotes.at(j), w.quotes.at(j))
        } else {
            slot_kept(v.quotes, w.quotes, j)
        }
    &&& forall|i: u32|
        #![trigger w.claims.occupied(i)]
        #![trigger slot_kept(v.claims, w.claims, i)]
        if backs(v, quotes, n, i) {
            committed_to(v, w, i, request, v.claims.at(i).amount.0 as int)
        } else {
            slot_kept(v.claims, w.claims, i)
        }
    &&& forall|a: int|
        0 <= a < v.accounts.len() ==> #[trigger] commits(
            v,
            w,
            a,
            held(v, quotes, a, n),
            held(v, quotes, a, n),
        )
}

/// A winner is consumed with its claim, and nothing else moves.
proof fn consumption_takes_one(v: LedgerView, quote: QuoteIdx, request: ReqIdx, short: nat)
    requires
        v.wf(),
        v.sound_but(request, short),
        v.requests.names(request),
        consumable(v, request, quote),
    ensures
        ({
            let w = v.consumed(quote, request);
            &&& w.requests == v.requests
            &&& w.contracts == v.contracts
            &&& w.accounts.len() == v.accounts.len()
            &&& slots_kept_but(v.quotes, w.quotes, quote.index())
            &&& w.quotes.occupied(quote.index())
            &&& w.quotes.generation(quote.index()) == v.quotes.generation(quote.index())
            &&& consumed_from(v.quotes.of(quote), w.quotes.of(quote))
            &&& forall|i: u32|
                #![trigger w.claims.occupied(i)]
                #![trigger slot_kept(v.claims, w.claims, i)]
                if v.claims.occupied(i) && v.claims.at(i).owner == ResOwner::Quote(quote) {
                    committed_to(v, w, i, request, v.claims.at(i).amount.0 as int)
                } else {
                    slot_kept(v.claims, w.claims, i)
                }
            &&& forall|a: int|
                0 <= a < v.accounts.len() ==> #[trigger] commits(
                    v,
                    w,
                    a,
                    held_by_quote(v, quote, a),
                    held_by_quote(v, quote, a),
                )
        }),
{
    broadcast use handle_of;

    standing_claim_is_reserved(v, quote);
    let claim = v.quotes.of(quote).claim->0;
    let w = v.consumed(quote, request);
    let after = v.committed(claim.index(), request, v.claims.of(claim).amount);
    a_commit_keeps_exactly_its_amount(v, claim, request, v.claims.of(claim).amount);
    assert(v.claim_ok(claim.index()));
    assert forall|i: u32|
        if v.claims.occupied(i) && v.claims.at(i).owner == ResOwner::Quote(quote) {
            (#[trigger] w.claims.occupied(i)) && committed_to(
                v,
                w,
                i,
                request,
                v.claims.at(i).amount.0 as int,
            )
        } else {
            slot_kept(v.claims, w.claims, i)
        } by {
        if i != claim.index() {
            assert(slot_kept(v.claims, after.claims, i));
            assert(v.owned(i));
        }
    }
    assert forall|a: int| 0 <= a < v.accounts.len() implies #[trigger] commits(
        v,
        w,
        a,
        held_by_quote(v, quote, a),
        held_by_quote(v, quote, a),
    ) by {
        if a != v.claims.of(claim).account.0 {
            assert(after.accounts[a] == v.accounts[a]);
        }
    }
}

/// What consuming winners takes.
proof fn consuming_takes_exactly_its_quotes(
    v: LedgerView,
    quotes: Seq<QuoteIdx>,
    request: ReqIdx,
    n: nat,
)
    requires
        v.wf(),
        v.sound_but(request, quotes.len()),
        v.requests.names(request),
        v.requests.of(request).state is Settling,
        n <= quotes.len(),
        quotes.no_duplicates(),
        forall|k: int| 0 <= k < quotes.len() ==> consumable(v, request, #[trigger] quotes[k]),
    ensures
        consumes(v, v.all_consumed(quotes, request, n), quotes, request, n),
    decreases n,
{
    broadcast use handle_of;

    if n > 0 {
        let m = (n - 1) as nat;
        consuming_takes_exactly_its_quotes(v, quotes, request, m);
        all_consumed_keeps(v, quotes, request, m);
        let u = v.all_consumed(quotes, request, m);
        let w = v.all_consumed(quotes, request, n);
        let quote = quotes[m as int];
        assert(consumable(v, request, quotes[m as int]));
        assert forall|k: int| 0 <= k < m implies (#[trigger] quotes[k]).index()
            != quote.index() by {
            assert(consumable(v, request, quotes[k]));
            if quotes[k].index() == quote.index() {
                handle_extensional(quotes[k], quote);
            }
        }
        assert(!listed(quotes, m, quote.index()));
        assert(slot_kept(v.quotes, u.quotes, quote.index()));
        consumption_takes_one(u, quote, request, (quotes.len() - m) as nat);
        standing_claim_is_reserved(v, quote);
        standing_claim_is_reserved(u, quote);
        assert forall|j: u32|
            if listed(quotes, n, j) {
                &&& #[trigger] w.quotes.occupied(j)
                &&& w.quotes.generation(j) == v.quotes.generation(j)
                &&& consumed_from(v.quotes.at(j), w.quotes.at(j))
            } else {
                slot_kept(v.quotes, w.quotes, j)
            } by {
            if j == quote.index() {
                assert(quotes[m as int].index() == j);
                assert(listed(quotes, n, j));
            } else {
                assert(slot_kept(u.quotes, w.quotes, j));
                if listed(quotes, m, j) {
                    assert(u.quotes.occupied(j));
                    let k = choose|k: int|
                        0 <= k < m && k < quotes.len() && (#[trigger] quotes[k]).index() == j;
                    assert(quotes[k].index() == j);
                } else {
                    assert(slot_kept(v.quotes, u.quotes, j));
                    assert(!listed(quotes, n, j));
                }
            }
        }
        assert forall|i: u32|
            if backs(v, quotes, n, i) {
                (#[trigger] w.claims.occupied(i)) && committed_to(
                    v,
                    w,
                    i,
                    request,
                    v.claims.at(i).amount.0 as int,
                )
            } else {
                slot_kept(v.claims, w.claims, i)
            } by {
            if backs(v, quotes, m, i) {
                assert(u.claims.occupied(i));
                let k = choose|k: int|
                    0 <= k < m && k < quotes.len() && v.claims.at(i).owner == ResOwner::Quote(
                        #[trigger] quotes[k],
                    );
                assert(v.claims.at(i).owner == ResOwner::Quote(quotes[k]));
                assert(quotes[k] != quote);
                assert(slot_kept(u.claims, w.claims, i));
            } else {
                assert(slot_kept(v.claims, u.claims, i));
                if v.claims.occupied(i) && v.claims.at(i).owner == ResOwner::Quote(quote) {
                    assert(v.claims.at(i).owner == ResOwner::Quote(quotes[m as int]));
                    assert(u.claims.occupied(i));
                    assert(w.claims.occupied(i));
                } else {
                    assert(slot_kept(u.claims, w.claims, i));
                }
            }
        }
        assert forall|a: int| 0 <= a < v.accounts.len() implies #[trigger] commits(
            v,
            w,
            a,
            held(v, quotes, a, n),
            held(v, quotes, a, n),
        ) by {
            assert(commits(v, u, a, held(v, quotes, a, m), held(v, quotes, a, m)));
            assert(commits(u, w, a, held_by_quote(u, quote, a), held_by_quote(u, quote, a)));
            let claim = v.quotes.of(quote).claim->0;
            assert(v.claims.of(claim).owner == ResOwner::Quote(quote));
            assert(!backs(v, quotes, m, claim.index()));
            assert(slot_kept(v.claims, u.claims, claim.index()));
        }
    }
}

/// What the first `n` legs of `request` cost, filled by `winners`: the sum of `size * price`.
pub open spec fn paid(v: LedgerView, request: ReqIdx, winners: Seq<QuoteIdx>, n: nat) -> int
    decreases n,
{
    if n == 0 {
        0
    } else {
        paid(v, request, winners, (n - 1) as nat) + v.leg_at(request, n - 1).size.0
            * v.quotes.of(winners[n - 1]).price.0
    }
}

/// What the legs of `request`, filled by `winners`, cost account `a`: the price of them all, if the
/// request is that account's.
pub open spec fn paid_by(v: LedgerView, request: ReqIdx, winners: Seq<QuoteIdx>, a: int) -> int {
    if v.requests.of(request).requester.0 == a {
        paid(v, request, winners, v.requests.of(request).n_legs as nat)
    } else {
        0
    }
}

/// What the requester pays is what the winners ask for.
proof fn paid_is_the_total(v: LedgerView, request: ReqIdx, now: Ts, whole: nat, n: nat)
    requires
        v.wf(),
        v.sound_book(),
        v.requests.names(request),
        v.requests.of(request).state is Open,
        n <= whole <= v.requests.of(request).n_legs,
        forall|l: int| 0 <= l < whole ==> (#[trigger] v.fill(request, l, now)) is Ok,
    ensures
        v.fill_total(request, now, n) == paid(v, request, v.winners(request, now, whole), n),
    decreases n,
{
    if n > 0 {
        paid_is_the_total(v, request, now, whole, (n - 1) as nat);
        assert(v.fill(request, n - 1, now) is Ok);
        winner_is(v, request, n - 1, now);
    }
}

/// The losers of an accept are those that stand and do not win.
proof fn losers_are_those_left(v: LedgerView, request: ReqIdx, now: Ts, n: nat)
    requires
        v.wf(),
        v.sound_book(),
        v.requests.names(request),
        v.requests.of(request).state is Open,
        n <= v.requests.of(request).n_legs,
        forall|l: int| 0 <= l < n ==> (#[trigger] v.fill(request, l, now)) is Ok,
    ensures
        forall|quote: QuoteIdx| #[trigger]
            v.losers(request, now, n).contains(quote) <==> v.quotes.names(quote) && exists|l: int|
                0 <= l < n && (#[trigger] v.quotes_on(request, l)).contains(quote.index())
                    && v.winner(request, l, now) != quote,
    decreases n,
{
    broadcast use handle_of;

    if n > 0 {
        let m = (n - 1) as nat;
        losers_are_those_left(v, request, now, m);
        assert(v.fill(request, m as int, now) is Ok);
        winner_is(v, request, m as int, now);
        leg_handles(v, request, m as int);
        let before = v.losers(request, now, m);
        let chain = v.quotes_on(request, m as int);
        let quotes = handles(v.quotes, chain);
        let winner = v.winner(request, m as int, now);
        let at = quotes.index_of(winner);
        assert(quotes[at] == winner);
        let more = v.rivals(request, m as int, now);
        let all = v.losers(request, now, n);
        assert(all == before + more);
        assert forall|quote: QuoteIdx| #[trigger] all.contains(quote) <==> v.quotes.names(quote)
            && exists|l: int|
            0 <= l < n && (#[trigger] v.quotes_on(request, l)).contains(quote.index())
                && v.winner(request, l, now) != quote by {
            if all.contains(quote) {
                let k = all.index_of(quote);
                assert(all[k] == quote);
                if k < before.len() {
                    assert(before[k] == quote);
                    assert(before.contains(quote));
                } else {
                    let j = k - before.len();
                    let from = if j < at {
                        j
                    } else {
                        j + 1
                    };
                    assert(more[j] == quotes[from]);
                    assert(gathered(v, request, m as int + 1, quotes[from]));
                    assert(chain[from] == quote.index());
                    assert(v.quotes_on(request, m as int).contains(quote.index()));
                }
            }
            if v.quotes.names(quote) && exists|l: int|
                0 <= l < n && (#[trigger] v.quotes_on(request, l)).contains(quote.index())
                    && v.winner(request, l, now) != quote {
                let l = choose|l: int|
                    0 <= l < n && (#[trigger] v.quotes_on(request, l)).contains(quote.index())
                        && v.winner(request, l, now) != quote;
                if l < m {
                    assert(before.contains(quote));
                    let k = before.index_of(quote);
                    assert(all[k] == quote);
                } else {
                    let from = chain.index_of(quote.index());
                    assert(chain[from] == quote.index());
                    handle_extensional(quotes[from], quote);
                    assert(from != at);
                    let j = if from < at {
                        from
                    } else {
                        from - 1
                    };
                    assert(more[j] == quote);
                    assert(all[before.len() + j] == quote);
                }
            }
        }
    }
}

/// **An accepted request settles at its winners' prices**: it waits for the answer to its own nonce
/// until the settling time is over; its requester's claim is committed for the sum of `size * price`
/// over the legs, and the rest of it returned; each winner is consumed and its claim, of
/// `size * (1_000_000 - price)`, is committed whole; every other quote on the request is gone with
/// its claim. Nothing else moves.
pub proof fn an_accept_commits_the_winners_and_lets_the_rest_go(
    engine: EngineView,
    request: ReqIdx,
    expected: [ExpectedFill; MAX_LEGS],
    n_legs: u8,
    now: Ts,
    room: nat,
)
    requires
        engine.wf(),
        engine.outcome(Command::AcceptRequest { request, expected, n_legs }, now, room) is Ok,
    ensures
        ({
            let command = Command::AcceptRequest { request, expected, n_legs };
            let v = engine.ready_for(command, now).ledger;
            let after = engine.after(command, now, room);
            let w = after.ledger;
            let n = v.requests.of(request).n_legs as nat;
            let winners = v.winners(request, now, n);
            let losers = v.losers(request, now, n);
            let claim = v.requests.of(request).claim->0;
            let state = w.requests.of(request).state;
            let until = now.0 + engine.config.max_settling_time.0;
            &&& winners.len() == n
            &&& forall|l: int|
                0 <= l < n ==> {
                    let winner = #[trigger] winners[l];
                    let held = v.quotes.of(winner).claim->0;
                    &&& wins(v, request, l, now, winner)
                    &&& v.quotes.of(winner).price.0 <= expected@[l].price.0
                    &&& v.claims.names(held)
                    &&& v.claims.of(held).owner == ResOwner::Quote(winner)
                    &&& v.claims.of(held).account == v.quotes.of(winner).maker
                    &&& v.claims.of(held).amount.0 == v.leg_at(request, l).size.0 * (1_000_000
                        - v.quotes.of(winner).price.0)
                }
            &&& losers.no_duplicates()
            &&& forall|quote: QuoteIdx| #[trigger]
                losers.contains(quote) <==> stands_on(v, request, quote) && !winners.contains(quote)
            &&& only_leaves(v, w, request)
            &&& w.requests.of(request).claim == Some(claim)
            &&& state is Settling
            &&& state->nonce.request == request.index()
            &&& state->nonce.generation == request.generation()
            &&& state->Settling_deadline.0 == if until <= u64::MAX {
                until
            } else {
                u64::MAX as int
            }
            &&& v.claims.names(claim)
            &&& v.claims.of(claim).owner == ResOwner::Request(request)
            &&& v.claims.of(claim).account == v.requests.of(request).requester
            &&& committed_to(v, w, claim.index(), request, paid(v, request, winners, n))
            &&& forall|j: u32|
                if listed(winners, n, j) {
                    &&& #[trigger] w.quotes.occupied(j)
                    &&& w.quotes.generation(j) == v.quotes.generation(j)
                    &&& consumed_from(v.quotes.at(j), w.quotes.at(j))
                } else if listed(losers, losers.len(), j) {
                    !w.quotes.occupied(j)
                } else {
                    slot_kept(v.quotes, w.quotes, j)
                }
            &&& forall|i: u32|
                i != claim.index() ==> if backs(v, winners, n, i) {
                    (#[trigger] w.claims.occupied(i)) && committed_to(
                        v,
                        w,
                        i,
                        request,
                        v.claims.at(i).amount.0 as int,
                    )
                } else if backs(v, losers, losers.len(), i) {
                    !w.claims.occupied(i)
                } else {
                    slot_kept(v.claims, w.claims, i)
                }
            &&& w.accounts.len() == v.accounts.len()
            &&& forall|a: int|
                0 <= a < v.accounts.len() ==> #[trigger] commits(
                    v,
                    w,
                    a,
                    held_by_request(v, request, a) + held(v, winners, a, n) + held(
                        v,
                        losers,
                        a,
                        losers.len(),
                    ),
                    paid_by(v, request, winners, a) + held(v, winners, a, n),
                )
            &&& w.contracts == v.contracts
            &&& after.arrivals == engine.arrivals
        }),
{
    broadcast use {handle_of, array_from_holds};

    let command = Command::AcceptRequest { request, expected, n_legs };
    ready_keeps(engine, command, now);
    let ready = engine.ready_for(command, now);
    let v = ready.ledger;
    let w = engine.after(command, now, room).ledger;
    let record = v.requests.of(request);
    let n = record.n_legs as nat;
    let winners = v.winners(request, now, n);
    let losers = v.losers(request, now, n);
    let claim = record.claim->0;
    assert(v.request_ok(request.index()));
    fills_are_found(ready, request, expected, now, n);
    assert forall|l: int| 0 <= l < n implies {
        let winner = #[trigger] winners[l];
        &&& consumable(v, request, winner)
        &&& v.quotes.of(winner).leg.0 == l
        &&& wins(v, request, l, now, winner)
        &&& stands_on(v, request, winner)
        &&& v.quotes.of(winner).price.0 <= expected@[l].price.0
        &&& v.claims.names(v.quotes.of(winner).claim->0)
        &&& v.claims.of(v.quotes.of(winner).claim->0).owner == ResOwner::Quote(winner)
        &&& v.claims.of(v.quotes.of(winner).claim->0).account == v.quotes.of(winner).maker
        &&& v.claims.of(v.quotes.of(winner).claim->0).amount.0 == v.leg_at(request, l).size.0 * (
        1_000_000 - v.quotes.of(winner).price.0)
    } by {
        assert(winners[l] == v.winner(request, l, now));
        assert(v.fill(request, l, now) is Ok);
        a_fill_wins(v, request, l, now);
        winner_is(v, request, l, now);
        no_fill_fault_before(ready, request, expected, now, n, l as nat);
        standing_claim_is_reserved(v, winners[l]);
        assert(v.claim_ok((v.quotes.of(winners[l]).claim->0).index()));
    }
    assert(winners.no_duplicates());
    losers_are(v, request, now, n);
    losers_are_those_left(v, request, now, n);
    assert forall|quote: QuoteIdx| #[trigger] losers.contains(quote) <==> stands_on(
        v,
        request,
        quote,
    ) && !winners.contains(quote) by {
        if losers.contains(quote) {
            let k = losers.index_of(quote);
            assert(loses(v, request, n as int, now, losers[k]));
            if winners.contains(quote) {
                let l = winners.index_of(quote);
                assert(winners[l] == v.winner(request, l, now));
                assert(v.quotes.of(winners[l]).leg.0 == l);
            }
        }
        if stands_on(v, request, quote) && !winners.contains(quote) {
            let l = choose|l: int|
                0 <= l < v.requests.of(request).n_legs && (#[trigger] v.quotes_on(
                    request,
                    l,
                )).contains(quote.index());
            assert(winners[l] == v.winner(request, l, now));
            assert(v.quotes_on(request, l).contains(quote.index()) && v.winner(request, l, now)
                != quote);
        }
    }
    fills_are_within_limits(v, request, now, n);
    paid_is_the_total(v, request, now, n, n);
    open_claim_is_reserved(v, request);
    assert(v.claim_ok(claim.index()));
    let total = Amount(v.fill_total(request, now, n) as u64);
    let deadline = now.plus(ready.config.max_settling_time);
    settling_sound(v, request, total, deadline);
    a_commit_keeps_exactly_its_amount(v, claim, request, total);
    let settling = v.settling(request, total, deadline);
    let committed = v.committed(claim.index(), request, total);
    assert forall|k: int| 0 <= k < winners.len() implies consumable(
        settling,
        request,
        #[trigger] winners[k],
    ) by {}
    consuming_takes_exactly_its_quotes(settling, winners, request, n);
    all_consumed_keeps(settling, winners, request, n);
    let consumed = settling.all_consumed(winners, request, n);
    assert forall|r: u32| #[trigger] consumed.request_ok(r) by {
        if r == request.index() {
            assert(consumed.request_ok_but(r, 0));
        }
    }
    assert forall|k: int| 0 <= k < losers.len() implies {
        &&& sweepable(consumed, #[trigger] losers[k])
        &&& gathered(v, request, n as int, losers[k])
        &&& !listed(winners, n, losers[k].index())
    } by {
        assert(loses(v, request, n as int, now, losers[k]));
        assert(losers.contains(losers[k]));
        if listed(winners, n, losers[k].index()) {
            let l = choose|l: int|
                0 <= l < n && l < winners.len() && (#[trigger] winners[l]).index()
                    == losers[k].index();
            handle_extensional(winners[l], losers[k]);
            assert(winners.contains(losers[k]));
        }
        assert(slot_kept(settling.quotes, consumed.quotes, losers[k].index()));
    }
    sweeping_takes_exactly_its_quotes(consumed, losers, losers.len());
    assert(w == consumed.swept(losers, losers.len()));
    assert forall|j: u32|
        if listed(winners, n, j) {
            &&& #[trigger] w.quotes.occupied(j)
            &&& w.quotes.generation(j) == v.quotes.generation(j)
            &&& consumed_from(v.quotes.at(j), w.quotes.at(j))
        } else if listed(losers, losers.len(), j) {
            !w.quotes.occupied(j)
        } else {
            slot_kept(v.quotes, w.quotes, j)
        } by {
        if listed(winners, n, j) {
            assert(consumed.quotes.occupied(j));
            if listed(losers, losers.len(), j) {
                let k = choose|k: int| 0 <= k < losers.len() && (#[trigger] losers[k]).index() == j;
                assert(!listed(winners, n, losers[k].index()));
            }
            assert(slot_kept(consumed.quotes, w.quotes, j));
        } else if !listed(losers, losers.len(), j) {
            assert(slot_kept(settling.quotes, consumed.quotes, j));
            assert(slot_kept(consumed.quotes, w.quotes, j));
        }
    }
    assert(!backs(settling, winners, n, claim.index()));
    assert(slot_kept(settling.claims, consumed.claims, claim.index()));
    assert(!backs(consumed, losers, losers.len(), claim.index()));
    assert(slot_kept(consumed.claims, w.claims, claim.index()));
    assert(committed_to(v, w, claim.index(), request, paid(v, request, winners, n)));
    assert forall|i: u32|
        i != claim.index() implies if backs(v, winners, n, i) {
        (#[trigger] w.claims.occupied(i)) && committed_to(
            v,
            w,
            i,
            request,
            v.claims.at(i).amount.0 as int,
        )
    } else if backs(v, losers, losers.len(), i) {
        !w.claims.occupied(i)
    } else {
        slot_kept(v.claims, w.claims, i)
    } by {
        assert(slot_kept(v.claims, settling.claims, i)) by {
            assert(slot_kept(v.claims, committed.claims, i));
        }
        assert(backs(settling, winners, n, i) == backs(v, winners, n, i));
        assert(consumed.claims.occupied(i) == settling.claims.occupied(i));
        assert(settling.claims.occupied(i) ==> consumed.claims.at(i).owner == v.claims.at(i).owner);
        assert(backs(consumed, losers, losers.len(), i) == backs(v, losers, losers.len(), i));
        if backs(v, winners, n, i) {
            if backs(v, losers, losers.len(), i) {
                let l = choose|l: int|
                    0 <= l < n && l < winners.len() && v.claims.at(i).owner == ResOwner::Quote(
                        #[trigger] winners[l],
                    );
                let k = choose|k: int|
                    0 <= k < losers.len() && v.claims.at(i).owner == ResOwner::Quote(
                        #[trigger] losers[k],
                    );
                assert(winners[l] == losers[k]);
                assert(listed(winners, n, losers[k].index()));
            }
            assert(slot_kept(consumed.claims, w.claims, i));
        } else if !backs(v, losers, losers.len(), i) {
            assert(slot_kept(settling.claims, consumed.claims, i));
            assert(slot_kept(consumed.claims, w.claims, i));
        } else {
            assert(!w.claims.occupied(i));
        }
    }
    assert forall|a: int| 0 <= a < v.accounts.len() implies #[trigger] commits(
        v,
        w,
        a,
        held_by_request(v, request, a) + held(v, winners, a, n) + held(v, losers, a, losers.len()),
        paid_by(v, request, winners, a) + held(v, winners, a, n),
    ) by {
        assert(commits(
            settling,
            consumed,
            a,
            held(settling, winners, a, n),
            held(settling, winners, a, n),
        ));
        assert(gets_back(consumed, w, a, held(consumed, losers, a, losers.len())));
        assert forall|k: int| 0 <= k < n implies held_by_quote(settling, #[trigger] winners[k], a)
            == held_by_quote(v, winners[k], a) by {
            assert(consumable(v, request, winners[k]));
            let theirs = v.quotes.of(winners[k]).claim->0;
            assert(slot_kept(v.claims, committed.claims, theirs.index()));
        }
        held_alike(settling, v, winners, a, n);
        assert forall|k: int| 0 <= k < losers.len() implies held_by_quote(
            consumed,
            #[trigger] losers[k],
            a,
        ) == held_by_quote(v, losers[k], a) by {
            assert(gathered(v, request, n as int, losers[k]));
            assert(slot_kept(settling.quotes, consumed.quotes, losers[k].index()));
            standing_claim_is_reserved(v, losers[k]);
            match v.quotes.of(losers[k]).claim {
                Some(theirs) => {
                    assert(slot_kept(v.claims, committed.claims, theirs.index()));
                    if backs(settling, winners, n, theirs.index()) {
                        let l = choose|l: int|
                            0 <= l < n && l < winners.len() && settling.claims.at(
                                theirs.index(),
                            ).owner == ResOwner::Quote(#[trigger] winners[l]);
                        assert(listed(winners, n, losers[k].index()));
                    }
                    assert(slot_kept(settling.claims, consumed.claims, theirs.index()));
                },
                None => {},
            }
        }
        held_alike(consumed, v, losers, a, losers.len());
        if a != v.claims.of(claim).account.0 {
            assert(committed.accounts[a] == v.accounts[a]);
        }
    }
}

/// **What an accept tells**: every maker who did not win, that they were outbid, or that their quote
/// had expired where it had; and last custody, for each leg what was asked for, who sells it, at what
/// price, and until when their quote stands.
pub proof fn an_accept_hands_custody_its_terms(
    engine: EngineView,
    request: ReqIdx,
    expected: [ExpectedFill; MAX_LEGS],
    n_legs: u8,
    now: Ts,
    room: nat,
)
    requires
        engine.wf(),
        engine.outcome(Command::AcceptRequest { request, expected, n_legs }, now, room) is Ok,
    ensures
        ({
            let command = Command::AcceptRequest { request, expected, n_legs };
            let v = engine.ready_for(command, now).ledger;
            let record = v.requests.of(request);
            let n = record.n_legs as nat;
            let winners = v.winners(request, now, n);
            let losers = v.losers(request, now, n);
            let emitted = engine.emitted(command, now, room);
            &&& emitted.len() == losers.len() + 1
            &&& forall|k: int|
                0 <= k < losers.len() ==> {
                    let quote = losers[k];
                    let lost = v.quotes.of(quote);
                    #[trigger] emitted[k] == (if now.0 < lost.expires_at.0 {
                        Event::QuoteRejected {
                            quote,
                            maker: lost.maker,
                            reason: QuoteRejectReason::Outbid,
                        }
                    } else {
                        Event::QuoteExpired { quote, maker: lost.maker }
                    })
                }
            &&& match emitted.last() {
                Event::SubmitIntent { request: settled, nonce, requester, legs, n_legs: bundled } => {
                    &&& settled == request
                    &&& nonce.request == request.index()
                    &&& nonce.generation == request.generation()
                    &&& requester == record.requester
                    &&& bundled == record.n_legs
                    &&& forall|l: int|
                        0 <= l < n ==> {
                            let told = #[trigger] legs@[l];
                            let won = v.quotes.of(winners[l]);
                            &&& told.contract == v.leg_at(request, l).contract
                            &&& told.side == v.leg_at(request, l).side
                            &&& told.size == v.leg_at(request, l).size
                            &&& told.maker == won.maker
                            &&& told.fill_price == won.price
                            &&& told.quote_expiry == won.expires_at
                        }
                },
                _ => false,
            }
        }),
{
    broadcast use array_from_holds;

    let command = Command::AcceptRequest { request, expected, n_legs };
    ready_keeps(engine, command, now);
    let ready = engine.ready_for(command, now);
    let v = ready.ledger;
    let n = v.requests.of(request).n_legs as nat;
    let losers = v.losers(request, now, n);
    let emitted = engine.emitted(command, now, room);
    assert(v.request_ok(request.index()));
    fills_are_found(ready, request, expected, now, n);
    losers_are(v, request, now, n);
    assert forall|k: int| 0 <= k < losers.len() implies {
        let quote = losers[k];
        let lost = v.quotes.of(quote);
        #[trigger] emitted[k] == (if now.0 < lost.expires_at.0 {
            Event::QuoteRejected { quote, maker: lost.maker, reason: QuoteRejectReason::Outbid }
        } else {
            Event::QuoteExpired { quote, maker: lost.maker }
        })
    } by {
        assert(loses(v, request, n as int, now, losers[k]));
    }
}

// ───────────────────────────── a settlement answered ─────────────────────────────

/// **Which answers are heard**: those to a nonce that names a request by slot and generation, while
/// it is settling; a reverted one where every leg's maker can be told, and one that is not final
/// where the settling time is not over or the stall can be told. Each refusal names the fault.
pub proof fn an_answer_is_heard_while_its_request_is_settling(
    engine: EngineView,
    nonce: Nonce,
    status: TxStatus,
    now: Ts,
    room: nat,
)
    ensures
        ({
            let command = Command::PollSettlement { nonce, status };
            let v = engine.ledger;
            let named = v.requests.occupied(nonce.request) && v.requests.generation(nonce.request)
                == nonce.generation;
            let record = v.requests.at(nonce.request);
            let told = match status {
                TxStatus::Settled => true,
                TxStatus::Reverted => record.n_legs <= room,
                _ => now.0 < record.state->Settling_deadline.0 || room >= 1,
            };
            let outcome = engine.outcome(command, now, room);
            &&& engine.ready_for(command, now) == engine
            &&& outcome is Ok <==> named && record.state is Settling && told
            &&& match outcome {
                Ok(_) => true,
                Err(EngineError::StaleNonce) => !named,
                Err(EngineError::RequestNotSettling) => named && record.state !is Settling,
                Err(EngineError::EventBufferFull) => named && !told,
                Err(_) => false,
            }
        }),
{
    broadcast use handle_of;

}

/// **An answer that is not final moves nothing.** Once the settling time is over it is told as a
/// stall, and only then.
pub proof fn a_stall_is_told_and_moves_nothing(
    engine: EngineView,
    nonce: Nonce,
    status: TxStatus,
    now: Ts,
    room: nat,
)
    requires
        status == TxStatus::Unknown || status == TxStatus::Pending,
    ensures
        ({
            let command = Command::PollSettlement { nonce, status };
            let record = engine.ledger.requests.at(nonce.request);
            let emitted = engine.emitted(command, now, room);
            &&& engine.after(command, now, room) == engine
            &&& engine.outcome(command, now, room) is Ok ==> if now.0
                < record.state->Settling_deadline.0 {
                emitted.len() == 0
            } else {
                &&& emitted.len() == 1
                &&& match emitted[0] {
                    Event::SettlementStalled { request, nonce: asked, status: answered } => {
                        &&& request.index() == nonce.request
                        &&& request.generation() == nonce.generation
                        &&& asked == nonce
                        &&& answered == status
                    },
                    _ => false,
                }
            }
        }),
{
    broadcast use handle_of;

}

/// The claim of `quote` is committed to `request`.
pub open spec fn pledged(v: LedgerView, request: ReqIdx, quote: QuoteIdx) -> bool {
    &&& v.quotes.names(quote)
    &&& v.quotes.of(quote).claim is Some
    &&& v.claims.of(v.quotes.of(quote).claim->0).list() == Some(request)
}

/// What the first `n` claims of `list` hold of account `a`'s.
pub open spec fn committed_of(v: LedgerView, list: Seq<u32>, a: int, n: nat) -> int
    decreases n,
{
    if n == 0 {
        0
    } else {
        let claim = v.claims.at(list[n - 1]);
        committed_of(v, list, a, (n - 1) as nat) + if claim.account.0 == a {
            claim.amount.0 as int
        } else {
            0
        }
    }
}

/// Account `a` has `less` less committed, and is as it was otherwise.
pub open spec fn is_discharged(v: LedgerView, w: LedgerView, a: int, less: int) -> bool {
    &&& w.accounts[a].committed.0 == v.accounts[a].committed.0 - less
    &&& w.accounts[a].reserved == v.accounts[a].reserved
    &&& w.accounts[a].free == v.accounts[a].free
}

/// What discharging the first claims of a request's list takes off each account.
proof fn discharging_takes_exactly_its_claims(v: LedgerView, request: ReqIdx, n: nat)
    requires
        v.wf(),
        v.requests.names(request),
        n <= v.lists[request.index() as int].len(),
    ensures
        forall|a: int|
            0 <= a < v.accounts.len() ==> #[trigger] is_discharged(
                v,
                v.discharged_prefix(request.index() as int, n),
                a,
                committed_of(v, v.lists[request.index() as int], a, n),
            ),
    decreases n,
{
    let r = request.index() as int;
    let list = v.lists[r];
    if n > 0 {
        let m = (n - 1) as nat;
        discharging_takes_exactly_its_claims(v, request, m);
        discharged_prefix_wf(v, request, m);
        let u = v.discharged_prefix(r, m);
        let w = v.discharged_prefix(r, n);
        assert(u.lists[r][0] == list[m as int]);
        discharged_one_wf(u, r);
        assert(u.claims.at(list[m as int]) == v.claims.at(list[m as int]));
        assert forall|a: int| 0 <= a < v.accounts.len() implies #[trigger] is_discharged(
            v,
            w,
            a,
            committed_of(v, list, a, n),
        ) by {
            assert(is_discharged(v, u, a, committed_of(v, list, a, m)));
        }
    }
}

/// Closing the quotes among `owners` frees their slots, and nothing else moves.
proof fn closing_takes_exactly_its_quotes(
    v: LedgerView,
    owners: Seq<(ResOwner, Amount)>,
    n: nat,
)
    requires
        n <= owners.len(),
        forall|k: int|
            0 <= k < owners.len() ==> match (#[trigger] owners[k]).0 {
                ResOwner::Quote(quote) => v.quotes.names(quote),
                ResOwner::Request(_) => true,
            },
    ensures
        ({
            let w = v.owners_closed(owners, n);
            &&& w == (LedgerView { quotes: w.quotes, ..v })
            &&& w.quotes.slots.len() == v.quotes.slots.len()
            &&& forall|j: u32|
                #![trigger w.quotes.occupied(j)]
                #![trigger slot_kept(v.quotes, w.quotes, j)]
                if exists|k: int|
                    0 <= k < n && #[trigger] owners[k].0 is Quote && owners[k].0->Quote_0.index()
                        == j {
                    !w.quotes.occupied(j)
                } else {
                    slot_kept(v.quotes, w.quotes, j)
                }
        }),
    decreases n,
{
    if n > 0 {
        let m = (n - 1) as nat;
        closing_takes_exactly_its_quotes(v, owners, m);
        let u = v.owners_closed(owners, m);
        let w = v.owners_closed(owners, n);
        assert forall|j: u32|
            if exists|k: int|
                0 <= k < n && #[trigger] owners[k].0 is Quote && owners[k].0->Quote_0.index() == j {
                !(#[trigger] w.quotes.occupied(j))
            } else {
                slot_kept(v.quotes, w.quotes, j)
            } by {
            if exists|k: int|
                0 <= k < m && #[trigger] owners[k].0 is Quote && owners[k].0->Quote_0.index() == j {
                assert(!u.quotes.occupied(j));
            } else {
                assert(slot_kept(v.quotes, u.quotes, j));
                if owners[m as int].0 is Quote && owners[m as int].0->Quote_0.index() == j {
                    assert(!w.quotes.occupied(j));
                }
            }
        }
    }
}

/// Which makers a failed settlement tells, and in what order: those behind the owners listed, but
/// for the requester, who is the `p`-th of them.
proof fn failures_are(quotes: SlabView<Quote>, owners: Seq<(ResOwner, Amount)>, n: nat, p: int)
    requires
        n <= owners.len(),
        0 <= p < owners.len(),
        owners[p].0 is Request,
        forall|k: int| 0 <= k < owners.len() && k != p ==> (#[trigger] owners[k]).0 is Quote,
    ensures
        failures(quotes, owners, n).len() == (if p < n {
            n - 1
        } else {
            n as int
        }),
        forall|k: int|
            0 <= k < n && k != p ==> failures(quotes, owners, n)[if p < k {
                k - 1
            } else {
                k
            }] == (Event::QuoteRejected {
                quote: (#[trigger] owners[k]).0->Quote_0,
                maker: quotes.of(owners[k].0->Quote_0).maker,
                reason: QuoteRejectReason::SettlementFailed,
            }),
    decreases n,
{
    if n > 0 {
        failures_are(quotes, owners, (n - 1) as nat, p);
        assert(n - 1 != p ==> owners[n - 1].0 is Quote);
    }
}

/// The settlement of `request` is over: what was committed to the request is discharged, each party
/// for exactly what their claims held, the quotes that won it are gone, and the request is in
/// `state` and holds no claim. Nothing else moves.
pub open spec fn ends_settlement(
    v: LedgerView,
    w: LedgerView,
    request: ReqIdx,
    state: RequestState,
) -> bool {
    let list = v.lists[request.index() as int];
    &&& slots_kept_but(v.requests, w.requests, request.index())
    &&& w.requests.names(request)
    &&& w.requests.of(request).state == state
    &&& w.requests.of(request).claim is None
    &&& w.requests.of(request).requester == v.requests.of(request).requester
    &&& w.requests.of(request).deadline == v.requests.of(request).deadline
    &&& w.requests.of(request).n_legs == v.requests.of(request).n_legs
    &&& w.requests.of(request).legs == v.requests.of(request).legs
    &&& list.no_duplicates()
    &&& list.len() == v.requests.of(request).n_legs + 1
    &&& forall|i: u32| #[trigger]
        list.contains(i) <==> v.claims.occupied(i) && v.claims.at(i).list() == Some(request)
    &&& forall|i: u32|
        if v.claims.occupied(i) && v.claims.at(i).list() == Some(request) {
            !(#[trigger] w.claims.occupied(i))
        } else {
            slot_kept(v.claims, w.claims, i)
        }
    &&& forall|j: u32|
        if v.quotes.occupied(j) && pledged(v, request, v.quote_handle(j)) {
            !(#[trigger] w.quotes.occupied(j))
        } else {
            slot_kept(v.quotes, w.quotes, j)
        }
    &&& w.accounts.len() == v.accounts.len()
    &&& forall|a: int|
        0 <= a < v.accounts.len() ==> #[trigger] is_discharged(
            v,
            w,
            a,
            committed_of(v, list, a, list.len()),
        )
    &&& w.contracts == v.contracts
}

/// Discharging a settling request ends its settlement.
proof fn discharging_ends_it(engine: EngineView, request: ReqIdx, state: RequestState)
    requires
        engine.wf(),
        engine.ledger.requests.names(request),
        engine.ledger.requests.of(request).state is Settling,
        state is Escrowed || state is SettlementFailed,
    ensures
        ends_settlement(engine.ledger, engine.discharged(request, state), request, state),
{
    broadcast use handle_of;

    let v = engine.ledger;
    let r0 = request.index();
    let r = r0 as int;
    let list = v.lists[r];
    let n = list.len();
    let entries = v.list_entries(request);
    let u = v.discharged_prefix(r, n);
    let mid = v.discharged(request);
    let finished = v.finished(request, state);
    let w = engine.discharged(request, state);
    assert(v.request_ok(r0));
    assert(v.list_ok(r));
    handle_extensional(request, v.request_handle(r0));
    settling_claim_is_committed(v, request);
    discharging_trims(v, request, n);
    discharged_prefix_wf(v, request, n);
    finished_sound(v, request, state);
    discharging_takes_exactly_its_claims(v, request, n);
    assert(u.requests.of(request).claim is None);
    assert(mid.requests =~= u.requests);
    assert(mid == u);
    closing_takes_exactly_its_quotes(finished, entries, entries.len());
    assert(v.same_request_at(u, r0));
    assert forall|s: u32| s != r0 implies #[trigger] slot_kept(v.requests, w.requests, s) by {
        assert(v.same_request_at(u, s));
        if v.requests.occupied(s) {
            let handle = v.request_handle(s);
            if owner_among(v, request, n, ResOwner::Request(handle)) {
                let k = choose|k: int|
                    0 <= k < n && k < list.len() && v.claims.at(#[trigger] list[k]).owner
                        == ResOwner::Request(handle);
                assert(entries[k].0 == ResOwner::Request(handle));
            }
            assert(u.requests.at(s).claim == v.requests.at(s).claim);
        }
    }
    assert forall|i: u32| #[trigger] list.contains(i) <==> v.claims.occupied(i) && v.claims.at(
        i,
    ).list() == Some(request) by {
        if list.contains(i) {
            let k = list.index_of(i);
            assert(v.committed_to(list[k], v.request_handle(r0)));
        }
        if v.claims.occupied(i) && v.claims.at(i).list() == Some(request) {
            assert(v.placed(i));
        }
    }
    assert forall|i: u32|
        if v.claims.occupied(i) && v.claims.at(i).list() == Some(request) {
            !(#[trigger] w.claims.occupied(i))
        } else {
            slot_kept(v.claims, w.claims, i)
        } by {
        assert(v.kept_claim(u, i));
        if v.claims.occupied(i) {
            assert(u.claims.occupied(i) <==> !among(v, request, n, i));
            if list.contains(i) {
                assert(list[list.index_of(i)] == i);
                assert(among(v, request, n, i));
            }
        }
    }
    assert forall|j: u32|
        if v.quotes.occupied(j) && pledged(v, request, v.quote_handle(j)) {
            !(#[trigger] w.quotes.occupied(j))
        } else {
            slot_kept(v.quotes, w.quotes, j)
        } by {
        assert(v.same_quote(u, j));
        if v.quotes.occupied(j) {
            let handle = v.quote_handle(j);
            if pledged(v, request, handle) {
                let i = (v.quotes.at(j).claim->0).index();
                assert(v.quote_backed(j));
                assert(list.contains(i));
                let k = list.index_of(i);
                assert(list[k] == i);
                assert(entries[k].0 == ResOwner::Quote(handle));
                assert(entries[k].0 is Quote && entries[k].0->Quote_0.index() == j);
                assert(!w.quotes.occupied(j));
            } else {
                if owner_among(v, request, n, ResOwner::Quote(handle)) {
                    let k = choose|k: int|
                        0 <= k < n && k < list.len() && v.claims.at(#[trigger] list[k]).owner
                            == ResOwner::Quote(handle);
                    assert(v.owned(list[k]));
                    assert(list.contains(list[k]));
                }
                assert(u.quotes.at(j).claim == v.quotes.at(j).claim);
                if exists|k: int|
                    0 <= k < entries.len() && #[trigger] entries[k].0 is Quote
                        && entries[k].0->Quote_0.index() == j {
                    let k = choose|k: int|
                        0 <= k < entries.len() && #[trigger] entries[k].0 is Quote
                            && entries[k].0->Quote_0.index() == j;
                    handle_extensional(entries[k].0->Quote_0, handle);
                    assert(v.claims.at(list[k]).owner == ResOwner::Quote(handle));
                    assert(owner_among(v, request, n, ResOwner::Quote(handle)));
                }
                assert(slot_kept(finished.quotes, w.quotes, j));
            }
        } else {
            assert(!u.quotes.occupied(j));
            if exists|k: int|
                0 <= k < entries.len() && #[trigger] entries[k].0 is Quote
                    && entries[k].0->Quote_0.index() == j {
                let k = choose|k: int|
                    0 <= k < entries.len() && #[trigger] entries[k].0 is Quote
                        && entries[k].0->Quote_0.index() == j;
                assert(v.quotes.names(entries[k].0->Quote_0));
            }
            assert(slot_kept(finished.quotes, w.quotes, j));
        }
    }
    assert forall|a: int| 0 <= a < v.accounts.len() implies #[trigger] is_discharged(
        v,
        w,
        a,
        committed_of(v, list, a, list.len()),
    ) by {
        assert(is_discharged(v, u, a, committed_of(v, list, a, n)));
    }
}

/// **A settled answer escrows the request, and a reverted one fails it**: either way the settlement
/// is over and what it held is discharged. A success is not told. A failure is told to the maker of
/// every quote that had won, each once.
pub proof fn a_final_answer_ends_the_settlement(
    engine: EngineView,
    request: ReqIdx,
    status: TxStatus,
    now: Ts,
    room: nat,
)
    requires
        engine.wf(),
        engine.outcome(
            Command::PollSettlement { nonce: Nonce::naming(request), status },
            now,
            room,
        ) is Ok,
    ensures
        ({
            let command = Command::PollSettlement { nonce: Nonce::naming(request), status };
            let v = engine.ledger;
            let after = engine.after(command, now, room);
            let w = after.ledger;
            let emitted = engine.emitted(command, now, room);
            &&& after.arrivals == engine.arrivals
            &&& status == TxStatus::Settled ==> {
                &&& ends_settlement(v, w, request, RequestState::Escrowed)
                &&& emitted.len() == 0
            }
            &&& status == TxStatus::Reverted ==> {
                &&& ends_settlement(v, w, request, RequestState::SettlementFailed)
                &&& emitted.len() == v.requests.of(request).n_legs
                &&& emitted.no_duplicates()
                &&& forall|k: int|
                    0 <= k < emitted.len() ==> match #[trigger] emitted[k] {
                        Event::QuoteRejected { quote, maker, reason } => {
                            &&& pledged(v, request, quote)
                            &&& maker == v.quotes.of(quote).maker
                            &&& reason == QuoteRejectReason::SettlementFailed
                        },
                        _ => false,
                    }
                &&& forall|quote: QuoteIdx| #[trigger]
                    pledged(v, request, quote) ==> emitted.contains(
                        Event::QuoteRejected {
                            quote,
                            maker: v.quotes.of(quote).maker,
                            reason: QuoteRejectReason::SettlementFailed,
                        },
                    )
            }
        }),
{
    broadcast use handle_of;

    let nonce = Nonce::naming(request);
    let command = Command::PollSettlement { nonce, status };
    let v = engine.ledger;
    handle_extensional(Handle::of(nonce.request, nonce.generation), request);
    assert(engine.named_by(nonce) == Some(request));
    if status == TxStatus::Settled {
        discharging_ends_it(engine, request, RequestState::Escrowed);
    }
    if status == TxStatus::Reverted {
        discharging_ends_it(engine, request, RequestState::SettlementFailed);
        finished_sound(v, request, RequestState::SettlementFailed);
        settling_claim_is_committed(v, request);
        let emitted = engine.emitted(command, now, room);
        let list = v.lists[request.index() as int];
        let owners = v.list_entries(request);
        let own = (v.requests.of(request).claim->0).index();
        assert(list.contains(own));
        let p = list.index_of(own);
        assert(list[p] == own);
        assert(owners[p].0 == ResOwner::Request(request));
        assert forall|k: int| 0 <= k < owners.len() && k != p implies (
        #[trigger] owners[k]).0 is Quote by {
            if p < k {
                assert(owners[p].0 != owners[k].0);
            } else {
                assert(owners[k].0 != owners[p].0);
            }
        }
        failures_are(v.quotes, owners, owners.len(), p);
        assert forall|k: int| 0 <= k < emitted.len() implies {
            let o = if k < p {
                k
            } else {
                k + 1
            };
            let quote = owners[o].0->Quote_0;
            &&& #[trigger] emitted[k] == (Event::QuoteRejected {
                quote,
                maker: v.quotes.of(quote).maker,
                reason: QuoteRejectReason::SettlementFailed,
            })
            &&& pledged(v, request, quote)
        } by {
            let o = if k < p {
                k
            } else {
                k + 1
            };
            assert(owners[o].0 is Quote);
            assert(list.contains(list[o]));
            assert(v.owned(list[o]));
        }
        assert forall|j: int, k: int| 0 <= j < k < emitted.len() implies emitted[j]
            != emitted[k] by {
            let a = if j < p {
                j
            } else {
                j + 1
            };
            let b = if k < p {
                k
            } else {
                k + 1
            };
            assert(owners[a].0 != owners[b].0);
        }
        assert forall|quote: QuoteIdx| #[trigger] pledged(v, request, quote) implies emitted.contains(
            Event::QuoteRejected {
                quote,
                maker: v.quotes.of(quote).maker,
                reason: QuoteRejectReason::SettlementFailed,
            },
        ) by {
            assert(v.quote_backed(quote.index()));
            handle_extensional(v.quote_handle(quote.index()), quote);
            let i = (v.quotes.of(quote).claim->0).index();
            assert(list.contains(i));
            let o = list.index_of(i);
            assert(list[o] == i);
            assert(owners[o].0 == ResOwner::Quote(quote));
            assert(o != p);
            let k = if p < o {
                o - 1
            } else {
                o
            };
            assert(emitted[k] == (Event::QuoteRejected {
                quote,
                maker: v.quotes.of(quote).maker,
                reason: QuoteRejectReason::SettlementFailed,
            }));
        }
    }
}

} // verus!
