//! What the engine promises across commands.

use crate::account::AccountIdx;
use crate::command::{Command, ExpectedFill, LegSpec};
use crate::config::{Config, MAX_LEGS};
use crate::contract::ContractIdx;
use crate::engine::accepting::{fills_are_within_limits, winner_is};
use crate::engine::closing::{open_claim_is_reserved, standing_claim_is_reserved};
use crate::engine::model::{asked_total, request_record, EngineView};
use crate::engine::moves::{
    accept_keeps, discharge_keeps, fills_are_found, no_fill_fault_before, quote_keeps, ready_keeps,
    reject_keeps, request_keeps, request_moves, request_stays, same_mirror, unmoved,
};
use crate::engine::quoting::open_leg;
use crate::engine::steps::empty_sound;
use crate::engine::EngineError;
use crate::event::Event;
use crate::ledger::keeps::{contracts_wf, empty_wf, mirrored_wf};
use crate::ledger::model::LedgerView;
use crate::quote::QuoteIdx;
use crate::request::{Nonce, ReqIdx, Request, RequestState, Selection};
use crate::reservation::{ResOwner, Reservation};
use crate::selection::{eligible, selection_is_best, some_live, some_of_size, NoQuoteReason};
use crate::settlement::TxStatus;
use crate::slab::{handle_of, inserted_wf};
use crate::types::{product, Amount, LegId, Price, Size, Ts, UNIT};
use vstd::prelude::*;

verus! {

// ───────────────────────────── refusals ─────────────────────────────

/// **A refusal mutates nothing.** A refused command leaves the state its account's normalisation
/// led to, and emits nothing.
pub proof fn a_refusal_mutates_nothing(engine: EngineView, command: Command, now: Ts, room: nat)
    requires
        engine.outcome(command, now, room) is Err,
    ensures
        engine.after(command, now, room) == engine.ready_for(command, now),
        engine.emitted(command, now, room) == Seq::<Event>::empty(),
{
}

/// **Quotes are irrevocable**: a cancel is refused whatever it names, and changes nothing beyond
/// normalising the maker.
pub proof fn a_cancel_is_always_refused(engine: EngineView, quote: QuoteIdx, now: Ts, room: nat)
    ensures
        engine.outcome(Command::CancelQuote { quote }, now, room) is Err,
        engine.after(Command::CancelQuote { quote }, now, room) == engine.ready_for(
            Command::CancelQuote { quote },
            now,
        ),
{
}

/// **Only a final answer moves anything.** A settlement answer that is not final leaves the whole
/// state as it was, however often it is repeated and whatever the time; at most it raises an
/// alert.
pub proof fn only_a_final_answer_moves_a_request(
    engine: EngineView,
    nonce: Nonce,
    status: TxStatus,
    now: Ts,
    room: nat,
)
    requires
        !status.terminal(),
    ensures
        engine.after(Command::PollSettlement { nonce, status }, now, room) == engine,
{
}

/// **A nonce names one request and no other**: an answer for a slot's earlier or later occupant
/// is refused as stale.
pub proof fn a_stale_nonce_names_nothing(
    engine: EngineView,
    nonce: Nonce,
    status: TxStatus,
    now: Ts,
    room: nat,
)
    requires
        nonce.request < engine.ledger.requests.slots.len() ==> engine.ledger.requests.generation(
            nonce.request,
        ) != nonce.generation,
    ensures
        engine.outcome(Command::PollSettlement { nonce, status }, now, room) == Err::<
            (),
            EngineError,
        >(EngineError::StaleNonce),
        engine.after(Command::PollSettlement { nonce, status }, now, room) == engine,
{
}

// ───────────────────────────── selection on a sound book ─────────────────────────────

/// **The limit is enforced at selection and nowhere else**: whatever is published or filled on a
/// leg is a live quote of full size, at or better than the leg's limit, and no eligible quote on
/// the leg is strictly better.
pub proof fn a_fill_is_the_best_eligible_quote(v: LedgerView, request: ReqIdx, l: int, now: Ts)
    requires
        v.wf(),
        v.sound_book(),
        v.requests.names(request),
        v.requests.of(request).state is Open,
        0 <= l < v.requests.of(request).n_legs,
        v.fill(request, l, now) is Ok,
    ensures
        ({
            let won = v.quotes.of(v.winner(request, l, now));
            &&& v.quotes.names(v.winner(request, l, now))
            &&& won.live_at(now)
            &&& won.size.0 >= v.leg_at(request, l).size.0
            &&& won.price == v.fill(request, l, now)->Ok_0.price
            &&& won.price.0 <= v.leg_at(request, l).limit.0
            &&& won.request == Some(request)
            &&& won.leg.0 == l
            &&& forall|k: int|
                0 <= k < v.quotes_on(request, l).len() && eligible(
                    v.quotes,
                    v.leg_at(request, l),
                    now,
                    #[trigger] v.quotes_on(request, l)[k],
                ) ==> won.price.0 <= v.quotes.at(v.quotes_on(request, l)[k]).price.0
        }),
{
    winner_is(v, request, l, now);
    selection_is_best(v.quotes, v.leg_at(request, l), now);
}

/// Whatever a quote's arrival publishes is within the leg's limit.
pub proof fn no_published_price_exceeds_the_limit(v: LedgerView, request: ReqIdx, l: int, now: Ts)
    requires
        v.wf(),
        v.sound_book(),
        v.requests.names(request),
        v.requests.of(request).state is Open,
        0 <= l < v.requests.of(request).n_legs,
    ensures
        v.publication(request, l, now) matches Some(price) ==> price.0 <= v.leg_at(
            request,
            l,
        ).limit.0,
{
    if v.publication(request, l, now) is Some {
        a_fill_is_the_best_eligible_quote(v, request, l, now);
    }
}

/// **Admission closes one cause of failure**: an open leg is never without a fill for want of
/// size.
pub proof fn no_leg_fails_for_want_of_size(v: LedgerView, request: ReqIdx, l: int, now: Ts)
    requires
        v.wf(),
        v.sound_book(),
        v.requests.names(request),
        v.requests.of(request).state is Open,
        0 <= l < v.requests.of(request).n_legs,
    ensures
        v.fill(request, l, now) != Err::<Selection, NoQuoteReason>(
            NoQuoteReason::SizeTooSmall,
        ),
{
    open_leg(v, request, l);
    let leg = v.leg_at(request, l);
    let chain = v.quotes_on(request, l);
    if some_live(v.quotes, now, chain) {
        let k = choose|k: int| 0 <= k < chain.len() && v.quotes.at(#[trigger] chain[k]).live_at(now);
        assert(v.on_leg(chain[k], request, l));
        assert(some_of_size(v.quotes, leg, now, chain));
    }
}

/// **One quote per maker per leg**: on an open leg no maker stands twice, and no more makers
/// stand than the leg counts.
pub proof fn no_maker_stands_twice(v: LedgerView, request: ReqIdx, l: int)
    requires
        v.wf(),
        v.sound_book(),
        v.requests.names(request),
        v.requests.of(request).state is Open,
        0 <= l < v.requests.of(request).n_legs,
    ensures
        v.quotes_on(request, l).len() == v.leg_at(request, l).quote_count,
        forall|j: int, k: int|
            0 <= j < k < v.quotes_on(request, l).len() ==> v.quotes.at(
                #[trigger] v.quotes_on(request, l)[j],
            ).maker != v.quotes.at(#[trigger] v.quotes_on(request, l)[k]).maker,
{
    open_leg(v, request, l);
    assert(v.leg_ok(request, l));
}

/// **An accept fills at or better than the requester was shown**, leg by leg, and never above a
/// leg's limit; and what they pay in all is within what they reserved.
pub proof fn an_accept_fills_at_or_better(
    engine: EngineView,
    request: ReqIdx,
    expected: [ExpectedFill; MAX_LEGS],
    n_legs: u8,
    now: Ts,
    room: nat,
)
    requires
        engine.wf(),
        engine.accept_refused(request, expected, n_legs, now, room) is None,
    ensures
        ({
            let v = engine.ledger;
            let record = v.requests.of(request);
            let n = record.n_legs as nat;
            &&& forall|l: int|
                0 <= l < n ==> {
                    let won = v.quotes.of(#[trigger] v.winner(request, l, now));
                    won.price.0 <= expected@[l].price.0 && won.price.0 <= v.leg_at(
                        request,
                        l,
                    ).limit.0
                }
            &&& 0 <= v.fill_total(request, now, n) <= v.claims.of(record.claim->0).amount.0
        }),
{
    let v = engine.ledger;
    let record = v.requests.of(request);
    let n = record.n_legs as nat;
    fills_are_found(engine, request, expected, now, n);
    assert forall|l: int| 0 <= l < n implies {
        let won = v.quotes.of(#[trigger] v.winner(request, l, now));
        won.price.0 <= expected@[l].price.0 && won.price.0 <= v.leg_at(request, l).limit.0
    } by {
        assert(v.fill(request, l, now) is Ok);
        winner_is(v, request, l, now);
        no_fill_fault_before(engine, request, expected, now, n, l as nat);
    }
    fills_are_within_limits(v, request, now, n);
    open_claim_is_reserved(v, request);
}

/// **What a fill costs each side is what its claims hold**: the winner of a leg holds a claim of
/// exactly `size * (UNIT - price)`, what custody will debit them for that leg.
pub proof fn a_winners_claim_is_its_stake(v: LedgerView, request: ReqIdx, l: int, now: Ts)
    requires
        v.wf(),
        v.sound_book(),
        v.requests.names(request),
        v.requests.of(request).state is Open,
        0 <= l < v.requests.of(request).n_legs,
        v.fill(request, l, now) is Ok,
        v.quotes.of(v.winner(request, l, now)).claim is Some,
    ensures
        ({
            let won = v.quotes.of(v.winner(request, l, now));
            let claim = v.claims.of(won.claim->0);
            let leg = v.intent_leg(request, l, now);
            &&& claim.account == leg.maker
            &&& claim.amount.0 == product(leg.size, UNIT - leg.fill_price.0)
        }),
{
    winner_is(v, request, l, now);
    let winner = v.winner(request, l, now);
    standing_claim_is_reserved(v, winner);
    let claim = v.quotes.of(winner).claim->0;
    assert(v.claim_ok(claim.index()));
}

// ───────────────────────────── what the configuration secures ─────────────────────────────

/// **Escrow forms before the event**: a request admitted at `now`, accepted at any instant before
/// its deadline and settling for as long as it may, has settled strictly before the event of
/// every contract it rests on.
pub proof fn escrow_forms_before_the_event(
    engine: EngineView,
    requester: AccountIdx,
    deadline: Ts,
    legs: [LegSpec; MAX_LEGS],
    n_legs: u8,
    now: Ts,
    room: nat,
    l: int,
    accepted_at: Ts,
)
    requires
        engine.wf(),
        engine.request_refused(requester, deadline, legs, n_legs, now, room) is None,
        0 <= l < n_legs,
        accepted_at.0 < deadline.0,
    ensures
        ({
            let contract = engine.ledger.contract_at(legs@[l].contract);
            contract is Some && accepted_at.0 + engine.config.max_settling_time.0
                < contract->0.event_date.0
        }),
{
    no_term_fault_before(engine, legs@, now, n_legs as nat, l as nat);
}

proof fn no_term_fault_before(engine: EngineView, legs: Seq<LegSpec>, now: Ts, n: nat, l: nat)
    requires
        engine.first_term_fault(legs, now, n) is None,
        l < n,
    ensures
        engine.term_fault(legs[l as int], now) is None,
    decreases n,
{
    if l < n - 1 {
        no_term_fault_before(engine, legs, now, (n - 1) as nat, l);
    }
}

/// **The timelock outlasts every claim**: money whose withdrawal is requested after a quote was
/// admitted stays present until the quote has died, the mirror has learnt of the request, and a
/// settlement submitted at the last live instant has been included.
pub proof fn the_timelock_outlasts_every_quote(
    engine: EngineView,
    maker: AccountIdx,
    request: ReqIdx,
    leg: LegId,
    price: Price,
    size: Size,
    expires_at: Ts,
    now: Ts,
    room: nat,
    requested_at: Ts,
)
    requires
        engine.wf(),
        engine.quote_refused(maker, request, leg, price, size, expires_at, now, room) is None,
        now.0 <= requested_at.0,
    ensures
        expires_at.0 + engine.config.confirmation_lag() + engine.config.max_indexer_lag.0
            + engine.config.max_settlement_inclusion_time.0 < requested_at.0
            + engine.config.withdrawal_delay.0,
{
}

/// **A delay longer than a requester's window outlasts every request**: where a withdrawal takes
/// longer than a request may stay open and then settle, the claim a request opens with expires at
/// the request's deadline, strictly before a withdrawal requested no earlier than the request can
/// land; and so does the settling time of an accept before that deadline run out.
pub proof fn the_timelock_outlasts_every_request(
    engine: EngineView,
    requester: AccountIdx,
    deadline: Ts,
    legs: [LegSpec; MAX_LEGS],
    n_legs: u8,
    now: Ts,
    room: nat,
    accepted_at: Ts,
    requested_at: Ts,
)
    requires
        engine.wf(),
        engine.config.withdrawal_delay.0 > engine.config.max_request_ttl.0
            + engine.config.max_settling_time.0,
        engine.request_refused(requester, deadline, legs, n_legs, now, room) is None,
        now.0 <= requested_at.0,
        accepted_at.0 < deadline.0,
    ensures
        ({
            let opened = engine.ledger.request_opened_reserving(
                request_record(requester, deadline, legs, n_legs),
                Amount(asked_total(legs, n_legs) as u64),
            );
            let claim = opened.claims.at(engine.ledger.claims.next_index());
            let lands = requested_at.0 + engine.config.withdrawal_delay.0;
            &&& claim.owner == ResOwner::Request(engine.ledger.requests.next_handle())
            &&& claim.account == requester
            &&& claim.expiry() == Some(deadline)
            &&& deadline.0 < lands
            &&& accepted_at.plus(engine.config.max_settling_time).0 < lands
        }),
{
    let v = engine.ledger;
    let record = request_record(requester, deadline, legs, n_legs);
    let amount = Amount(asked_total(legs, n_legs) as u64);
    inserted_wf(
        v.claims,
        Reservation::unlinked(
            requester,
            amount,
            ResOwner::Request(v.requests.next_handle()),
            deadline,
        ),
    );
}

/// **A quote's terms are never refused for its price**, up to what a contract pays: two quotes
/// that differ only in price have the same fault in their terms, or none. The leg's limit, which
/// makers are not shown, plays no part.
pub proof fn terms_are_refused_alike_at_any_price(
    engine: EngineView,
    request: ReqIdx,
    leg: LegId,
    price: Price,
    other: Price,
    size: Size,
    expires_at: Ts,
    now: Ts,
)
    requires
        price.0 <= UNIT,
        other.0 <= UNIT,
    ensures
        engine.terms_refused(request, leg, price, size, expires_at, now) == engine.terms_refused(
            request,
            leg,
            other,
            size,
            expires_at,
            now,
        ),
{
}

// ───────────────────────────── across commands ─────────────────────────────

/// The slot of the request whose settling `command` answers for good, if it does.
pub open spec fn answered_by(command: Command) -> Option<u32> {
    match command {
        Command::PollSettlement { nonce, status } => if status.terminal() {
            Some(nonce.request)
        } else {
            None
        },
        _ => None,
    }
}

/// **Every command leaves the engine sound**, moves requests only along their machine, and, unless
/// it is a mirror update, keeps every account's claims covered and every contract's record unless
/// it speaks of contracts.
pub proof fn every_command_keeps_the_engine_sound(
    engine: EngineView,
    command: Command,
    now: Ts,
    room: nat,
)
    requires
        engine.wf(),
    ensures
        engine.after(command, now, room).wf(),
        engine.after(command, now, room).config == engine.config,
        engine.after(command, now, room).ledger.accounts.len() == engine.ledger.accounts.len(),
        forall|r: u32| #[trigger]
            request_moves(
                engine.ledger,
                engine.after(command, now, room).ledger,
                r,
                answered_by(command),
            ),
        command !is CreditAccount && engine.ledger.covered() ==> engine.after(
            command,
            now,
            room,
        ).ledger.covered(),
        command !is CreditAccount ==> same_mirror(
            engine.ledger,
            engine.after(command, now, room).ledger,
        ),
        command !is RegisterContract && command !is ReportOracleStatus ==> engine.after(
            command,
            now,
            room,
        ).ledger.contracts == engine.ledger.contracts,
{
    ready_keeps(engine, command, now);
    let ready = engine.ready_for(command, now);
    let v = ready.ledger;
    let after = engine.after(command, now, room);
    let w = after.ledger;
    assert forall|r: u32| #[trigger] request_moves(v, v, r, None) by {}
    match command {
        Command::CreditAccount { account, free } => {
            if account.0 < v.accounts.len() {
                mirrored_wf(v, account, free);
                unmoved(v, w);
            }
        },
        Command::RegisterContract { contract, event_date } => {
            if ready.on_register(contract, event_date) is Ok {
                contracts_wf(v, w);
                unmoved(v, w);
                assert(w.accounts == v.accounts);
            }
        },
        Command::SubmitRequest { requester, deadline, legs, n_legs } => {
            if ready.request_refused(requester, deadline, legs, n_legs, now, room) is None {
                request_keeps(ready, requester, deadline, legs, n_legs, now, room);
            }
        },
        Command::RejectRequest { request } => {
            if ready.on_reject(request, room) is Ok {
                reject_keeps(ready, request, room);
            }
        },
        Command::AcceptRequest { request, expected, n_legs } => {
            if ready.accept_refused(request, expected, n_legs, now, room) is None {
                accept_keeps(ready, request, expected, n_legs, now, room);
            }
        },
        Command::SubmitQuote { maker, request, leg, price, size, expires_at } => {
            if ready.quote_refused(
                maker,
                request,
                leg,
                price,
                size,
                expires_at,
                now,
                room,
            ) is None {
                quote_keeps(ready, maker, request, leg, price, size, expires_at, now, room);
            }
        },
        Command::CancelQuote { quote } => {},
        Command::PollSettlement { nonce, status } => {
            match ready.named_by(nonce) {
                Some(request) => {
                    handle_of::<Request>(nonce.request, nonce.generation);
                    if v.requests.of(request).state is Settling {
                        if status is Settled {
                            discharge_keeps(ready, request, RequestState::Escrowed);
                        } else if status is Reverted && room >= v.requests.of(request).n_legs {
                            discharge_keeps(ready, request, RequestState::SettlementFailed);
                        }
                    }
                },
                None => {},
            }
        },
        Command::ReportOracleStatus { contract, status } => {
            if ready.on_report(contract, status, room) is Ok {
                contracts_wf(v, w);
                unmoved(v, w);
                assert(w.accounts == v.accounts);
            }
        },
        Command::SettleEscrow { escrow, contract } => {},
    }
    assert forall|r: u32| #[trigger] request_moves(engine.ledger, w, r, answered_by(command)) by {
        assert(request_stays(engine.ledger, v, r));
        assert(request_moves(v, w, r, None) || request_moves(v, w, r, answered_by(command)));
    }
}

/// A fresh engine of an admissible configuration is sound, and covered: nobody has anything and
/// nothing is claimed.
pub proof fn a_fresh_engine_is_sound(config: Config)
    requires
        config.refusal() is None,
    ensures
        EngineView::fresh(config).wf(),
        EngineView::fresh(config).ledger.covered(),
{
    let v = EngineView::fresh(config).ledger;
    empty_wf(
        config.max_accounts,
        config.max_contracts,
        config.max_reservations,
        config.max_requests,
        config.max_quotes,
    );
    empty_sound(v);
}

/// **Every terminal state is terminal**: a rejected, escrowed or failed request never leaves its
/// state, whatever is applied.
pub proof fn terminal_requests_stay_terminal(
    engine: EngineView,
    request: ReqIdx,
    command: Command,
    now: Ts,
    room: nat,
)
    requires
        engine.wf(),
        engine.ledger.requests.names(request),
        engine.ledger.requests.of(request).state.terminal(),
    ensures
        ({
            let after = engine.after(command, now, room).ledger;
            &&& after.requests.names(request)
            &&& after.requests.of(request).state == engine.ledger.requests.of(request).state
        }),
{
    every_command_keeps_the_engine_sound(engine, command, now, room);
    assert(request_moves(
        engine.ledger,
        engine.after(command, now, room).ledger,
        request.index(),
        answered_by(command),
    ));
}

/// **A request leaves `Settling` only on a final answer for its nonce**: anything else applied
/// leaves it settling, under the same nonce and with the same alert deadline, however late it is.
pub proof fn settling_ends_only_on_an_answer(
    engine: EngineView,
    request: ReqIdx,
    command: Command,
    now: Ts,
    room: nat,
)
    requires
        engine.wf(),
        engine.ledger.requests.names(request),
        engine.ledger.requests.of(request).state is Settling,
        command matches Command::PollSettlement { nonce, status } ==> !status.terminal() || nonce
            != Nonce::naming(request),
    ensures
        ({
            let after = engine.after(command, now, room).ledger;
            &&& after.requests.names(request)
            &&& after.requests.of(request).state == engine.ledger.requests.of(request).state
        }),
{
    broadcast use handle_of;

    every_command_keeps_the_engine_sound(engine, command, now, room);
    assert(request_moves(
        engine.ledger,
        engine.after(command, now, room).ledger,
        request.index(),
        answered_by(command),
    ));
}

/// **A final outcome is immutable and a status never moves backwards**: whatever is applied, a
/// registered contract stays registered for its date, and its status is either what it was or
/// one the last admits.
pub proof fn the_oracles_word_never_regresses(
    engine: EngineView,
    contract: ContractIdx,
    command: Command,
    now: Ts,
    room: nat,
)
    requires
        engine.wf(),
        engine.ledger.contract_at(contract) is Some,
    ensures
        ({
            let before = engine.ledger.contract_at(contract)->0;
            let after = engine.after(command, now, room).ledger.contract_at(contract);
            &&& after is Some
            &&& after->0.event_date == before.event_date
            &&& after->0.oracle_status == before.oracle_status || before.oracle_status.admits(
                after->0.oracle_status,
            )
            &&& before.oracle_status is Final ==> after == Some(before)
        }),
{
    every_command_keeps_the_engine_sound(engine, command, now, room);
}

/// **Only a mirror update moves the mirror**: it sets its account's entry to what custody says and
/// leaves everybody else's alone; no other command moves anyone's.
pub proof fn only_a_mirror_update_moves_the_mirror(
    engine: EngineView,
    command: Command,
    now: Ts,
    room: nat,
    a: int,
)
    requires
        engine.wf(),
        0 <= a < engine.ledger.accounts.len(),
    ensures
        engine.after(command, now, room).ledger.accounts[a].free == (match command {
            Command::CreditAccount { account, free } => if account.0 == a {
                free
            } else {
                engine.ledger.accounts[a].free
            },
            _ => engine.ledger.accounts[a].free,
        }),
{
    every_command_keeps_the_engine_sound(engine, command, now, room);
    ready_keeps(engine, command, now);
}

/// **Coverage**: no command but a mirror update can leave an account owing more than custody
/// says it has.
pub proof fn no_command_overdraws_an_account(
    engine: EngineView,
    command: Command,
    now: Ts,
    room: nat,
)
    requires
        engine.wf(),
        engine.ledger.covered(),
        command !is CreditAccount,
    ensures
        engine.after(command, now, room).ledger.covered(),
{
    every_command_keeps_the_engine_sound(engine, command, now, room);
}

} // verus!
