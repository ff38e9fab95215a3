//! What each command does, record by record and in plain numbers.
//!
//! Each law speaks of the state a command acts on: the one its account's normalisation led to.

use crate::account::AccountIdx;
use crate::arrays::array_from_holds;
use crate::command::{Command, LegSpec};
use crate::config::{Config, MAX_LEGS};
use crate::contract::{Contract, ContractIdx, OracleStatus, Outcome};
use crate::engine::book::{leg_kept, limit_total, same_terms, stake};
use crate::engine::model::{asked_total, legs_of, request_record, EngineView};
use crate::engine::closing::{freed_sound, standing_claim_is_reserved};
use crate::engine::moves::ready_keeps;
use crate::engine::quoting::{cleared_sound, open_leg, replacement_is_admissible, standing_is};
use crate::engine::shelf::{linked_sound, quote_opened_sound, rethreaded, unlinked_sound};
use crate::engine::{Engine, EngineError};
use crate::escrow::EscrowId;
use crate::event::{Event, EventBuffer, QuoteRejectReason};
use crate::ledger::effects::{
    a_release_returns_exactly_its_amount, accounts_kept_but, slot_kept, slots_kept_but,
};
use crate::ledger::model::LedgerView;
use crate::ledger::{LedgerError, SlabKind};
use crate::quote::{Quote, QuoteIdx, QuoteState};
use crate::request::{Leg, ReqIdx, RequestState};
use crate::reservation::{ResOwner, Reservation};
use crate::selection::{may_fill, the_cheapest_then_earliest_quote_wins};
use crate::slab::{handle_of, inserted_wf, Handle};
use crate::types::{Amount, LegId, Price, Size, Ts};
use vstd::prelude::*;

verus! {

/// **Whose capital a command needs**: a mirror update's account, a request's requester, a quote's
/// maker, and of a request or a quote that is named, the one behind it. Nobody's else.
pub proof fn the_account_a_command_normalises(
    engine: EngineView,
    account: AccountIdx,
    free: Amount,
    deadline: Ts,
    legs: [LegSpec; MAX_LEGS],
    n: u8,
    request: ReqIdx,
    quote: QuoteIdx,
    contract: ContractIdx,
    escrow: EscrowId,
    status: OracleStatus,
)
    ensures
        engine.touched(Command::CreditAccount { account, free }) == Some(account),
        engine.touched(
            Command::SubmitRequest { requester: account, deadline, legs, n_legs: n },
        ) == Some(account),
        engine.touched(Command::RejectRequest { request }) == (if engine.ledger.requests.names(
            request,
        ) {
            Some(engine.ledger.requests.of(request).requester)
        } else {
            None
        }),
        engine.touched(Command::CancelQuote { quote }) == (if engine.ledger.quotes.names(quote) {
            Some(engine.ledger.quotes.of(quote).maker)
        } else {
            None
        }),
        engine.touched(Command::RegisterContract { contract, event_date: deadline }) is None,
        engine.touched(Command::ReportOracleStatus { contract, status }) is None,
        engine.touched(Command::SettleEscrow { escrow, contract }) is None,
{
}

/// Normalising before a command is normalising that one account at the command's own instant.
pub proof fn a_command_normalises_its_account_first(
    engine: EngineView,
    command: Command,
    now: Ts,
)
    ensures
        engine.ready_for(command, now).config == engine.config,
        engine.ready_for(command, now).arrivals == engine.arrivals,
        match engine.touched(command) {
            Some(account) => if account.0 < engine.ledger.accounts.len() {
                engine.ready_for(command, now).ledger == engine.ledger.normalised(account, now)
            } else {
                engine.ready_for(command, now) == engine
            },
            None => engine.ready_for(command, now) == engine,
        },
{
}

/// **A fresh engine knows nothing**: every account it has room for is there with nothing to its
/// name, no contract is registered, there are no claims, requests or quotes, and no quote has
/// arrived. It has room for what it is configured for.
pub proof fn a_fresh_engine_is_empty(config: Config)
    ensures
        ({
            let engine = EngineView::fresh(config);
            let v = engine.ledger;
            &&& engine.config == config
            &&& engine.arrivals == 0
            &&& v.accounts.len() == config.max_accounts
            &&& forall|a: int|
                0 <= a < v.accounts.len() ==> {
                    let entry = #[trigger] v.accounts[a];
                    entry.free.0 == 0 && entry.reserved.0 == 0 && entry.committed.0 == 0
                }
            &&& v.contracts.len() == config.max_contracts
            &&& forall|c: int| 0 <= c < v.contracts.len() ==> #[trigger] v.contracts[c] is None
            &&& v.claims.slots.len() == config.max_reservations
            &&& v.requests.slots.len() == config.max_requests
            &&& v.quotes.slots.len() == config.max_quotes
            &&& forall|i: u32| !#[trigger] v.claims.occupied(i)
            &&& forall|i: u32| !#[trigger] v.requests.occupied(i)
            &&& forall|i: u32| !#[trigger] v.quotes.occupied(i)
        }),
{
}

// ───────────────────────────── the mirror, contracts and the oracle ─────────────────────────────

/// **A mirror update sets what its account has**, for an account that is there, and says nothing.
pub proof fn a_mirror_update_is_applied_as_it_is(
    engine: EngineView,
    account: AccountIdx,
    free: Amount,
    now: Ts,
    room: nat,
)
    ensures
        ({
            let command = Command::CreditAccount { account, free };
            let ready = engine.ready_for(command, now).ledger;
            let after = engine.after(command, now, room).ledger;
            let a = account.0 as int;
            &&& engine.emitted(command, now, room).len() == 0
            &&& account.0 >= ready.accounts.len() ==> engine.outcome(command, now, room) == Err::<
                (),
                EngineError,
            >(EngineError::Ledger(LedgerError::UnknownAccount))
            &&& account.0 < ready.accounts.len() ==> {
                &&& engine.outcome(command, now, room) is Ok
                &&& after.accounts[a].free == free
                &&& after.accounts[a].reserved == ready.accounts[a].reserved
                &&& after.accounts[a].committed == ready.accounts[a].committed
                &&& accounts_kept_but(ready, after, a)
                &&& after == (LedgerView { accounts: after.accounts, ..ready })
            }
        }),
{
}

/// **A registration gives an index its date**, once, and says nothing.
pub proof fn a_registration_gives_an_index_its_date(
    engine: EngineView,
    contract: ContractIdx,
    event_date: Ts,
    now: Ts,
    room: nat,
)
    ensures
        ({
            let command = Command::RegisterContract { contract, event_date };
            let (v, w) = (engine.ledger, engine.after(command, now, room).ledger);
            let c = contract.0 as int;
            let outcome = engine.outcome(command, now, room);
            &&& engine.emitted(command, now, room).len() == 0
            &&& w == (LedgerView { contracts: w.contracts, ..v })
            &&& w.contracts.len() == v.contracts.len()
            &&& forall|d: int|
                0 <= d < v.contracts.len() && d != c ==> #[trigger] w.contracts[d]
                    == v.contracts[d]
            &&& c >= v.contracts.len() ==> outcome == Err::<(), EngineError>(
                EngineError::Ledger(LedgerError::UnknownContract),
            )
            &&& c < v.contracts.len() && v.contracts[c] is None ==> outcome is Ok && w.contracts[c]
                == Some(Contract { event_date, oracle_status: OracleStatus::Silent })
            &&& c < v.contracts.len() && v.contracts[c] is Some ==> {
                &&& w.contracts[c] == v.contracts[c]
                &&& (v.contracts[c]->0).event_date == event_date ==> outcome is Ok
                &&& (v.contracts[c]->0).event_date != event_date ==> outcome == Err::<
                    (),
                    EngineError,
                >(EngineError::Ledger(LedgerError::ContractIdentityChanged))
            }
        }),
{
}

/// **A report moves a contract's status forwards and never back**: to progress or finality from
/// silence, to progress or finality from progress, and nowhere from finality. Exactly finality is
/// announced, with the outcome that was reported.
pub proof fn a_report_moves_a_status_forwards(
    engine: EngineView,
    contract: ContractIdx,
    status: OracleStatus,
    now: Ts,
    room: nat,
)
    ensures
        ({
            let command = Command::ReportOracleStatus { contract, status };
            let (v, w) = (engine.ledger, engine.after(command, now, room).ledger);
            let c = contract.0 as int;
            let outcome = engine.outcome(command, now, room);
            let emitted = engine.emitted(command, now, room);
            let known = c < v.contracts.len() && v.contracts[c] is Some;
            let forwards = match (v.contracts[c]->0).oracle_status {
                OracleStatus::Silent => true,
                OracleStatus::InProgress => status != OracleStatus::Silent,
                OracleStatus::Final(_) => false,
            };
            &&& !known ==> outcome == Err::<(), EngineError>(EngineError::UnknownContract)
            &&& known && !forwards ==> outcome == Err::<(), EngineError>(
                EngineError::OracleStatusRegression,
            )
            &&& known && forwards && status is Final && room == 0 ==> outcome == Err::<
                (),
                EngineError,
            >(EngineError::EventBufferFull)
            &&& known && forwards && (status is Final ==> room > 0) ==> {
                &&& outcome is Ok
                &&& w.contracts[c] == Some(
                    Contract {
                        event_date: (v.contracts[c]->0).event_date,
                        oracle_status: status,
                    },
                )
                &&& w.contracts.len() == v.contracts.len()
                &&& forall|d: int|
                    0 <= d < v.contracts.len() && d != c ==> #[trigger] w.contracts[d]
                        == v.contracts[d]
                &&& w == (LedgerView { contracts: w.contracts, ..v })
                &&& match status {
                    OracleStatus::Final(decided) => emitted == seq![
                        Event::ContractResolved { contract, outcome: decided },
                    ],
                    _ => emitted.len() == 0,
                }
            }
            &&& outcome is Err ==> w == v && emitted.len() == 0
        }),
{
    assert(seq![1int].len() == 1);
}

/// **An escrow may be paid under the final outcome, or as void once silence has outlasted the
/// grace**: what is asked of custody names the escrow and the contract it was asked for, and
/// changes nothing here.
pub proof fn a_payout_is_asked_under_the_contracts_outcome(
    engine: EngineView,
    escrow: EscrowId,
    contract: ContractIdx,
    now: Ts,
    room: nat,
)
    ensures
        ({
            let command = Command::SettleEscrow { escrow, contract };
            let v = engine.ledger;
            let c = contract.0 as int;
            let outcome = engine.outcome(command, now, room);
            let emitted = engine.emitted(command, now, room);
            let known = c < v.contracts.len() && v.contracts[c] is Some;
            let found = v.contracts[c]->0;
            let stalled = now.0 > found.event_date.0 + engine.config.stall_grace.0;
            &&& engine.after(command, now, room) == engine
            &&& !known ==> outcome == Err::<(), EngineError>(EngineError::UnknownContract)
            &&& known ==> match found.oracle_status {
                OracleStatus::Final(decided) => if room > 0 {
                    outcome is Ok && emitted == seq![
                        Event::SettleIntent { escrow, contract, outcome: decided },
                    ]
                } else {
                    outcome == Err::<(), EngineError>(EngineError::EventBufferFull)
                },
                OracleStatus::InProgress => outcome == Err::<(), EngineError>(
                    EngineError::OutcomeNotYet,
                ),
                OracleStatus::Silent => if !stalled {
                    outcome == Err::<(), EngineError>(EngineError::OutcomeNotYet)
                } else if room > 0 {
                    outcome is Ok && emitted == seq![
                        Event::SettleIntent { escrow, contract, outcome: Outcome::Void },
                    ]
                } else {
                    outcome == Err::<(), EngineError>(EngineError::EventBufferFull)
                },
            }
            &&& outcome is Err ==> emitted.len() == 0
        }),
{
}

/// **A cancel is refused by name**: as irrevocable where the quote stands, and as unknown where it
/// does not.
pub proof fn a_cancel_is_refused_by_name(
    engine: EngineView,
    quote: QuoteIdx,
    now: Ts,
    room: nat,
)
    requires
        engine.wf(),
    ensures
        ({
            let command = Command::CancelQuote { quote };
            let v = engine.ready_for(command, now).ledger;
            &&& v.quotes.names(quote) ==> engine.outcome(command, now, room) == Err::<
                (),
                EngineError,
            >(EngineError::QuotesAreIrrevocable)
            &&& !v.quotes.names(quote) ==> engine.outcome(command, now, room) == Err::<
                (),
                EngineError,
            >(EngineError::UnknownQuote)
            &&& engine.emitted(command, now, room).len() == 0
        }),
{
}

// ───────────────────────────── opening a request ─────────────────────────────

/// What the first `n` of `legs` may cost at most: the sum of `size * limit`.
pub open spec fn asked(legs: Seq<LegSpec>, n: nat) -> int
    decreases n,
{
    if n == 0 {
        0
    } else {
        asked(legs, (n - 1) as nat) + legs[n - 1].size.0 * legs[n - 1].limit.0
    }
}

proof fn asked_is_the_total(legs: [LegSpec; MAX_LEGS], n_legs: u8, n: nat)
    requires
        n <= n_legs <= MAX_LEGS,
    ensures
        limit_total(legs_of(legs, n_legs as int)@, n) == asked(legs@, n),
        0 <= asked(legs@, n),
    decreases n,
{
    broadcast use array_from_holds;

    if n > 0 {
        asked_is_the_total(legs, n_legs, (n - 1) as nat);
        let leg = legs@[n - 1];
        assert(0 <= leg.size.0 * leg.limit.0) by (nonlinear_arith);
    }
}

/// Leg `k` rests on a registered contract whose event lies beyond the horizon.
pub open spec fn tradable(engine: EngineView, legs: Seq<LegSpec>, now: Ts, k: int) -> bool {
    let c = legs[k].contract.0 as int;
    &&& c < engine.ledger.contracts.len()
    &&& engine.ledger.contracts[c] is Some
    &&& (engine.ledger.contracts[c]->0).event_date.0 > now.0 + engine.config.min_horizon.0
}

/// **When a request is admitted**: it has some legs and not too many, its deadline lies ahead and
/// not too far, every leg is tradable, its requester can cover the sum of `size * limit` on top of
/// all they owe, there is a slot for it and for its claim, and room to say so. Each refusal names a
/// fault it has.
pub proof fn a_request_is_admitted_exactly_where_it_is_covered(
    engine: EngineView,
    requester: AccountIdx,
    deadline: Ts,
    legs: [LegSpec; MAX_LEGS],
    n_legs: u8,
    now: Ts,
    room: nat,
)
    requires
        engine.wf(),
    ensures
        ({
            let command = Command::SubmitRequest { requester, deadline, legs, n_legs };
            let ready = engine.ready_for(command, now);
            let v = ready.ledger;
            let entry = v.accounts[requester.0 as int];
            let total = asked(legs@, n_legs as nat);
            let owes = entry.reserved.0 + entry.committed.0;
            let outcome = engine.outcome(command, now, room);
            &&& outcome is Ok <==> {
                &&& 0 < n_legs <= engine.config.max_legs
                &&& now.0 < deadline.0
                &&& deadline.0 <= now.0 + engine.config.max_request_ttl.0
                &&& forall|k: int| 0 <= k < n_legs ==> #[trigger] tradable(ready, legs@, now, k)
                &&& requester.0 < v.accounts.len()
                &&& owes + total <= entry.free.0
                &&& v.requests.free.len() > 0
                &&& v.claims.free.len() > 0
                &&& room > 0
            }
            &&& match outcome {
                Ok(_) => true,
                Err(EngineError::NoLegs) => n_legs == 0,
                Err(EngineError::TooManyLegs) => n_legs > engine.config.max_legs,
                Err(EngineError::DeadlineInThePast) => deadline.0 <= now.0,
                Err(EngineError::DeadlineTooFar) => deadline.0 > now.0
                    + engine.config.max_request_ttl.0,
                Err(EngineError::UnknownContract) => exists|k: int|
                    0 <= k < n_legs && !#[trigger] tradable(ready, legs@, now, k),
                Err(EngineError::ContractTooNear) => exists|k: int|
                    0 <= k < n_legs && !#[trigger] tradable(ready, legs@, now, k),
                Err(EngineError::EventBufferFull) => room == 0,
                Err(EngineError::Ledger(LedgerError::AmountOverflow)) => owes + total > u64::MAX
                    || total > u64::MAX,
                Err(EngineError::Ledger(LedgerError::UnknownAccount)) => requester.0
                    >= v.accounts.len(),
                Err(EngineError::Ledger(LedgerError::InsufficientFree)) => owes + total
                    > entry.free.0,
                Err(EngineError::Ledger(LedgerError::SlabExhausted { slab })) => {
                    ||| slab == SlabKind::Request && v.requests.free.len() == 0
                    ||| slab == SlabKind::Reservation && v.claims.free.len() == 0
                },
                Err(_) => false,
            }
        }),
{
    let command = Command::SubmitRequest { requester, deadline, legs, n_legs };
    ready_keeps(engine, command, now);
    request_refusals(
        engine.ready_for(command, now),
        requester,
        deadline,
        legs,
        n_legs,
        now,
        room,
    );
}

proof fn request_refusals(
    engine: EngineView,
    requester: AccountIdx,
    deadline: Ts,
    legs: [LegSpec; MAX_LEGS],
    n_legs: u8,
    now: Ts,
    room: nat,
)
    requires
        engine.wf(),
    ensures
        ({
            let v = engine.ledger;
            let entry = v.accounts[requester.0 as int];
            let total = asked(legs@, n_legs as nat);
            let owes = entry.reserved.0 + entry.committed.0;
            let refused = engine.request_refused(requester, deadline, legs, n_legs, now, room);
            &&& refused is None <==> {
                &&& 0 < n_legs <= engine.config.max_legs
                &&& now.0 < deadline.0
                &&& deadline.0 <= now.0 + engine.config.max_request_ttl.0
                &&& forall|k: int| 0 <= k < n_legs ==> #[trigger] tradable(engine, legs@, now, k)
                &&& requester.0 < v.accounts.len()
                &&& owes + total <= entry.free.0
                &&& v.requests.free.len() > 0
                &&& v.claims.free.len() > 0
                &&& room > 0
            }
            &&& match refused {
                None => true,
                Some(EngineError::NoLegs) => n_legs == 0,
                Some(EngineError::TooManyLegs) => n_legs > engine.config.max_legs,
                Some(EngineError::DeadlineInThePast) => deadline.0 <= now.0,
                Some(EngineError::DeadlineTooFar) => deadline.0 > now.0
                    + engine.config.max_request_ttl.0,
                Some(EngineError::UnknownContract) => exists|k: int|
                    0 <= k < n_legs && !#[trigger] tradable(engine, legs@, now, k),
                Some(EngineError::ContractTooNear) => exists|k: int|
                    0 <= k < n_legs && !#[trigger] tradable(engine, legs@, now, k),
                Some(EngineError::EventBufferFull) => room == 0,
                Some(EngineError::Ledger(LedgerError::AmountOverflow)) => owes + total > u64::MAX
                    || total > u64::MAX,
                Some(EngineError::Ledger(LedgerError::UnknownAccount)) => requester.0
                    >= v.accounts.len(),
                Some(EngineError::Ledger(LedgerError::InsufficientFree)) => owes + total
                    > entry.free.0,
                Some(EngineError::Ledger(LedgerError::SlabExhausted { slab })) => {
                    ||| slab == SlabKind::Request && v.requests.free.len() == 0
                    ||| slab == SlabKind::Reservation && v.claims.free.len() == 0
                },
                Some(_) => false,
            }
        }),
{
    let n = n_legs as nat;
    if n_legs <= engine.config.max_legs {
        asked_is_the_total(legs, n_legs, n);
        if engine.first_term_fault(legs@, now, n) is Some {
            let k = the_untradable_leg(engine, legs@, now, n);
            assert(!tradable(engine, legs@, now, k as int));
        } else {
            assert forall|k: int| 0 <= k < n_legs implies #[trigger] tradable(
                engine,
                legs@,
                now,
                k,
            ) by {
                every_leg_is_tradable(engine, legs@, now, n, k as nat);
            }
        }
    }
}

proof fn every_leg_is_tradable(
    engine: EngineView,
    legs: Seq<LegSpec>,
    now: Ts,
    n: nat,
    k: nat,
)
    requires
        engine.first_term_fault(legs, now, n) is None,
        k < n,
    ensures
        tradable(engine, legs, now, k as int),
    decreases n,
{
    if k < n - 1 {
        every_leg_is_tradable(engine, legs, now, (n - 1) as nat, k);
    }
}

proof fn the_untradable_leg(engine: EngineView, legs: Seq<LegSpec>, now: Ts, n: nat) -> (k: nat)
    requires
        engine.first_term_fault(legs, now, n) is Some,
    ensures
        k < n,
        !tradable(engine, legs, now, k as int),
        engine.first_term_fault(legs, now, n) == Some(EngineError::UnknownContract)
            || engine.first_term_fault(legs, now, n) == Some(EngineError::ContractTooNear),
    decreases n,
{
    if engine.first_term_fault(legs, now, (n - 1) as nat) is Some {
        the_untradable_leg(engine, legs, now, (n - 1) as nat)
    } else {
        (n - 1) as nat
    }
}

/// **Opening a request reserves the sum of `size * limit` and tells makers everything but the
/// limits**: the request stands in a slot that was free, open, with the requester, the deadline and
/// of every leg the contract, the side, the size and the limit it was given, no quotes, and nothing
/// published; its claim expires at the deadline.
pub proof fn an_opened_request_reserves_and_is_announced(
    engine: EngineView,
    requester: AccountIdx,
    deadline: Ts,
    legs: [LegSpec; MAX_LEGS],
    n_legs: u8,
    now: Ts,
    room: nat,
)
    requires
        engine.wf(),
        engine.outcome(
            Command::SubmitRequest { requester, deadline, legs, n_legs },
            now,
            room,
        ) is Ok,
    ensures
        ({
            let command = Command::SubmitRequest { requester, deadline, legs, n_legs };
            let v = engine.ready_for(command, now).ledger;
            let after = engine.after(command, now, room);
            let emitted = engine.emitted(command, now, room);
            let w = after.ledger;
            let a = requester.0 as int;
            let (i, c) = (v.requests.next_index(), v.claims.next_index());
            let record = w.requests.at(i);
            let claim = w.claims.at(c);
            let handle: ReqIdx = Handle::of(i, v.requests.generation(i));
            &&& after.arrivals == engine.arrivals
            &&& after.config == engine.config
            &&& !v.requests.occupied(i)
            &&& w.requests.occupied(i)
            &&& record.requester == requester
            &&& record.deadline == deadline
            &&& record.state == RequestState::Open
            &&& record.n_legs == n_legs
            &&& record.claim == Some(Handle::<Reservation>::of(c, v.claims.generation(c)))
            &&& forall|k: int|
                0 <= k < n_legs ==> {
                    let leg = #[trigger] record.legs@[k];
                    &&& leg.contract == legs@[k].contract
                    &&& leg.side == legs@[k].side
                    &&& leg.size == legs@[k].size
                    &&& leg.limit == legs@[k].limit
                    &&& leg.quote_count == 0
                    &&& leg.published is None
                }
            &&& !v.claims.occupied(c)
            &&& w.claims.occupied(c)
            &&& claim.account == requester
            &&& claim.amount.0 == asked(legs@, n_legs as nat)
            &&& claim.expiry() == Some(deadline)
            &&& claim.owner == ResOwner::Request(handle)
            &&& w.accounts[a].reserved.0 == v.accounts[a].reserved.0 + asked(
                legs@,
                n_legs as nat,
            )
            &&& w.accounts[a].committed == v.accounts[a].committed
            &&& w.accounts[a].free == v.accounts[a].free
            &&& accounts_kept_but(v, w, a)
            &&& slots_kept_but(v.requests, w.requests, i)
            &&& slots_kept_but(v.claims, w.claims, c)
            &&& w.quotes == v.quotes
            &&& w.contracts == v.contracts
            &&& emitted.len() == 1
            &&& match emitted[0] {
                Event::RequestOpened { request, deadline: by, legs: shown, n_legs: count } => {
                    &&& request == handle
                    &&& by == deadline
                    &&& count == n_legs
                    &&& forall|k: int|
                        0 <= k < n_legs ==> {
                            let leg = #[trigger] shown@[k];
                            &&& leg.contract == legs@[k].contract
                            &&& leg.side == legs@[k].side
                            &&& leg.size == legs@[k].size
                        }
                },
                _ => false,
            }
        }),
{
    broadcast use {array_from_holds, handle_of};

    let command = Command::SubmitRequest { requester, deadline, legs, n_legs };
    ready_keeps(engine, command, now);
    let v = engine.ready_for(command, now).ledger;
    let n = n_legs as nat;
    asked_is_the_total(legs, n_legs, n);
    let record = request_record(requester, deadline, legs, n_legs);
    let amount = Amount(asked_total(legs, n_legs) as u64);
    inserted_wf(v.requests, record);
    inserted_wf(
        v.claims,
        Reservation::unlinked(
            requester,
            amount,
            ResOwner::Request(v.requests.next_handle()),
            deadline,
        ),
    );
}

// ───────────────────────────── quoting ─────────────────────────────

/// What a quote at `price` on `leg` stakes: `leg.size * (UNIT - price)`, whatever size it was
/// quoted for.
pub open spec fn staked_on(leg: Leg, price: Price) -> int {
    leg.size.0 * (1_000_000 - price.0)
}

/// What `maker`'s standing quote on the leg, if any, would give back.
pub open spec fn given_back(v: LedgerView, prior: Option<QuoteIdx>) -> int {
    match prior {
        Some(quote) => match v.quotes.of(quote).claim {
            Some(claim) => v.claims.of(claim).amount.0 as int,
            None => 0,
        },
        None => 0,
    }
}

/// There is a slot for a quote, and one for its claim, once `prior` is gone.
pub open spec fn slots_for(v: LedgerView, prior: Option<QuoteIdx>) -> bool {
    &&& v.quotes.free.len() > 0 || (prior is Some && v.quotes.generation((prior->0).index())
        < u32::MAX)
    &&& v.claims.free.len() > 0 || (prior is Some && v.quotes.of(prior->0).claim is Some
        && v.claims.generation((v.quotes.of(prior->0).claim->0).index()) < u32::MAX)
}

/// **When a quote is admitted**: on a leg of an open request before its deadline, for at least the
/// leg's size, at no more than a contract pays, expiring ahead and not too far; in place of a live
/// quote of the maker's own only at no worse a price, and otherwise only while the leg has room;
/// where its maker can cover its stake on top of all they owe but what their earlier quote gives
/// back; and where there are slots and room to say what it changes. Each refusal names a fault. The
/// leg's limit plays no part.
pub proof fn a_quote_is_admitted_exactly_where_it_is_covered(
    engine: EngineView,
    maker: AccountIdx,
    request: ReqIdx,
    leg: LegId,
    price: Price,
    size: Size,
    expires_at: Ts,
    now: Ts,
    room: nat,
)
    requires
        engine.wf(),
    ensures
        ({
            let command = Command::SubmitQuote { maker, request, leg, price, size, expires_at };
            let ready = engine.ready_for(command, now);
            let v = ready.ledger;
            let record = v.requests.of(request);
            let on = record.legs@[leg.0 as int];
            let prior = ready.old_quote(maker, request, leg.0 as int);
            let held = v.quotes.of(prior->0);
            let entry = v.accounts[maker.0 as int];
            let owes = entry.reserved.0 + entry.committed.0 - given_back(v, prior);
            let outcome = engine.outcome(command, now, room);
            let worse = prior is Some && held.state == QuoteState::Active && now.0
                < held.expires_at.0 && price.0 > held.price.0;
            &&& engine.touched(command) == Some(maker)
            &&& outcome is Ok <==> {
                &&& v.requests.names(request)
                &&& record.state == RequestState::Open
                &&& now.0 < record.deadline.0
                &&& leg.0 < record.n_legs
                &&& size.0 >= on.size.0
                &&& price.0 <= 1_000_000
                &&& now.0 < expires_at.0
                &&& expires_at.0 <= now.0 + engine.config.max_quote_ttl.0
                &&& !worse
                &&& prior is None ==> on.quote_count < engine.config.max_quotes_per_leg
                &&& maker.0 < v.accounts.len()
                &&& staked_on(on, price) <= u64::MAX
                &&& owes + staked_on(on, price) <= entry.free.0
                &&& slots_for(v, prior)
                &&& room >= (if prior is Some {
                    2nat
                } else {
                    1nat
                })
            }
            &&& match outcome {
                Ok(_) => true,
                Err(EngineError::UnknownRequest) => !v.requests.names(request),
                Err(EngineError::RequestNotOpen) => record.state != RequestState::Open,
                Err(EngineError::RequestDeadlinePassed) => now.0 >= record.deadline.0,
                Err(EngineError::UnknownLeg) => leg.0 >= record.n_legs,
                Err(EngineError::QuoteTooSmall) => size.0 < on.size.0,
                Err(EngineError::PriceAboveUnit) => price.0 > 1_000_000,
                Err(EngineError::QuoteExpiryInThePast) => expires_at.0 <= now.0,
                Err(EngineError::QuoteTtlTooLong) => expires_at.0 > now.0
                    + engine.config.max_quote_ttl.0,
                Err(EngineError::WorseReplacement) => worse,
                Err(EngineError::LegQuoteLimitReached) => prior is None && on.quote_count
                    >= engine.config.max_quotes_per_leg,
                Err(EngineError::EventBufferFull) => room < 2,
                Err(EngineError::Ledger(LedgerError::AmountOverflow)) => staked_on(on, price)
                    > u64::MAX || owes + staked_on(on, price) > u64::MAX,
                Err(EngineError::Ledger(LedgerError::UnknownAccount)) => maker.0
                    >= v.accounts.len(),
                Err(EngineError::Ledger(LedgerError::InsufficientFree)) => owes + staked_on(
                    on,
                    price,
                ) > entry.free.0,
                Err(EngineError::Ledger(LedgerError::SlabExhausted { .. })) => !slots_for(
                    v,
                    prior,
                ),
                Err(_) => false,
            }
        }),
{
    let command = Command::SubmitQuote { maker, request, leg, price, size, expires_at };
    ready_keeps(engine, command, now);
}

/// The request's own leg `l` may have gained or lost quotes and a published price; nothing else of
/// it has changed.
pub open spec fn only_book_moves(v: LedgerView, w: LedgerView, request: ReqIdx, l: int) -> bool {
    let (was, is) = (v.requests.of(request), w.requests.of(request));
    &&& w.requests.names(request)
    &&& slots_kept_but(v.requests, w.requests, request.index())
    &&& is.requester == was.requester
    &&& is.deadline == was.deadline
    &&& is.state == was.state
    &&& is.n_legs == was.n_legs
    &&& is.claim == was.claim
    &&& forall|m: int| 0 <= m < MAX_LEGS && m != l ==> #[trigger] is.legs@[m] == was.legs@[m]
    &&& is.legs@[l].contract == was.legs@[l].contract
    &&& is.legs@[l].side == was.legs@[l].side
    &&& is.legs@[l].size == was.legs@[l].size
    &&& is.legs@[l].limit == was.legs@[l].limit
}

/// The quote in slot `j` is as it was, but for its place among the quotes of its leg.
pub open spec fn quote_stands(v: LedgerView, w: LedgerView, j: u32) -> bool {
    let (was, is) = (v.quotes.at(j), w.quotes.at(j));
    &&& w.quotes.occupied(j)
    &&& w.quotes.generation(j) == v.quotes.generation(j)
    &&& is == (Quote { next_on_leg: is.next_on_leg, ..was })
}

/// **A quote stakes `leg.size * (UNIT - price)` and joins its leg last, in place of its maker's
/// earlier one**: it stands under exactly the terms it was given, numbered in the order of
/// admission; its claim expires with it. What the maker's earlier quote held comes back and that
/// quote is gone. Nobody else's capital, quote or request moves.
pub proof fn an_admitted_quote_stakes_and_joins_its_leg(
    engine: EngineView,
    maker: AccountIdx,
    request: ReqIdx,
    leg: LegId,
    price: Price,
    size: Size,
    expires_at: Ts,
    now: Ts,
    room: nat,
)
    requires
        engine.wf(),
        engine.outcome(
            Command::SubmitQuote { maker, request, leg, price, size, expires_at },
            now,
            room,
        ) is Ok,
    ensures
        ({
            let command = Command::SubmitQuote { maker, request, leg, price, size, expires_at };
            let ready = engine.ready_for(command, now);
            let v = ready.ledger;
            let w = engine.after(command, now, room).ledger;
            let l = leg.0 as int;
            let a = maker.0 as int;
            let prior = ready.old_quote(maker, request, l);
            let stake = staked_on(v.leg_at(request, l), price);
            let before = v.quotes_on(request, l);
            let chain = w.quotes_on(request, l);
            let i = chain.last();
            let record = w.quotes.at(i);
            let claim = w.claims.of(record.claim->0);
            &&& chain.len() > 0
            &&& w.quotes.occupied(i)
            &&& prior is None ==> !v.quotes.occupied(i)
            &&& prior is None ==> chain == before.push(i)
            &&& prior is Some ==> chain == before.remove(
                before.index_of((prior->0).index()),
            ).push(i) && !w.quotes.names(prior->0)
            &&& record.maker == maker
            &&& record.request == Some(request)
            &&& record.leg == leg
            &&& record.price == price
            &&& record.size == size
            &&& record.expires_at == expires_at
            &&& record.arrival == engine.arrivals
            &&& record.state == QuoteState::Active
            &&& record.claim is Some
            &&& w.claims.names(record.claim->0)
            &&& claim.account == maker
            &&& claim.amount.0 == stake
            &&& claim.expiry() == Some(expires_at)
            &&& claim.owner == ResOwner::Quote(Handle::<Quote>::of(i, w.quotes.generation(i)))
            &&& w.accounts[a].reserved.0 == v.accounts[a].reserved.0 - given_back(v, prior) + stake
            &&& w.accounts[a].committed == v.accounts[a].committed
            &&& w.accounts[a].free == v.accounts[a].free
            &&& accounts_kept_but(v, w, a)
            &&& w.contracts == v.contracts
            &&& only_book_moves(v, w, request, l)
            &&& forall|j: u32|
                v.quotes.occupied(j) && (prior is None || j != (prior->0).index())
                    ==> #[trigger] quote_stands(v, w, j)
            &&& engine.arrivals < u64::MAX ==> engine.after(command, now, room).arrivals
                == engine.arrivals + 1
            &&& engine.after(command, now, room).config == engine.config
        }),
{
    quote_effect(engine, maker, request, leg, price, size, expires_at, now, room);
}

/// **What a quote tells**: its maker, that their earlier quote was replaced, if it was; and the
/// requester, the lowest price among the quotes that may fill the leg, if that is another price
/// than was published last. Nothing is published where no quote may fill it.
pub proof fn a_quote_tells_of_its_best_price(
    engine: EngineView,
    maker: AccountIdx,
    request: ReqIdx,
    leg: LegId,
    price: Price,
    size: Size,
    expires_at: Ts,
    now: Ts,
    room: nat,
)
    requires
        engine.wf(),
        engine.outcome(
            Command::SubmitQuote { maker, request, leg, price, size, expires_at },
            now,
            room,
        ) is Ok,
    ensures
        ({
            let command = Command::SubmitQuote { maker, request, leg, price, size, expires_at };
            let ready = engine.ready_for(command, now);
            let l = leg.0 as int;
            let w = engine.after(command, now, room).ledger;
            let chain = w.quotes_on(request, l);
            let (was, is) = (ready.ledger.leg_at(request, l), w.leg_at(request, l));
            let emitted = engine.emitted(command, now, room);
            let prior = ready.old_quote(maker, request, l);
            let told: nat = if prior is Some {
                1
            } else {
                0
            };
            let some = exists|k: int|
                0 <= k < chain.len() && may_fill(w.quotes.at(#[trigger] chain[k]), is, now);
            &&& !some ==> is.published == was.published
            &&& some ==> is.published is Some && {
                &&& exists|k: int|
                    0 <= k < chain.len() && may_fill(w.quotes.at(#[trigger] chain[k]), is, now)
                        && w.quotes.at(chain[k]).price == is.published->0
                &&& forall|k: int|
                    0 <= k < chain.len() && may_fill(w.quotes.at(#[trigger] chain[k]), is, now)
                        ==> (is.published->0).0 <= w.quotes.at(chain[k]).price.0
            }
            &&& prior is Some ==> emitted.len() > 0 && emitted[0] == (Event::QuoteRejected {
                quote: prior->0,
                maker,
                reason: QuoteRejectReason::Replaced,
            })
            &&& is.published == was.published ==> emitted.len() == told
            &&& is.published != was.published ==> emitted.len() == told + 1
                && emitted[told as int] == (Event::BestSelectionChanged {
                request,
                leg,
                price: is.published->0,
            })
        }),
{
    broadcast use array_from_holds;

    quote_effect(engine, maker, request, leg, price, size, expires_at, now, room);
    let command = Command::SubmitQuote { maker, request, leg, price, size, expires_at };
    let ready = engine.ready_for(command, now);
    let l = leg.0 as int;
    let linked = ready.quoted(maker, request, leg, price, size, expires_at);
    let w = engine.after(command, now, room).ledger;
    assert(w == linked.published(request, l, now));
    let (before, is) = (linked.leg_at(request, l), w.leg_at(request, l));
    assert(w.quotes == linked.quotes);
    assert(is == (Leg { published: is.published, ..before }));
    let chain = w.quotes_on(request, l);
    assert(chain == linked.quotes_on(request, l));
    the_cheapest_then_earliest_quote_wins(linked.quotes, before, now);
    assert forall|k: int| 0 <= k < chain.len() implies may_fill(
        w.quotes.at(#[trigger] chain[k]),
        is,
        now,
    ) == may_fill(linked.quotes.at(chain[k]), before, now) by {}
    if linked.fill(request, l, now) is Ok {
        let i = linked.fill(request, l, now)->Ok_0.quote.index();
        let k = chain.index_of(i);
        assert(chain[k] == i);
        assert(may_fill(w.quotes.at(chain[k]), is, now));
    }
}

proof fn quote_effect(
    engine: EngineView,
    maker: AccountIdx,
    request: ReqIdx,
    leg: LegId,
    price: Price,
    size: Size,
    expires_at: Ts,
    now: Ts,
    room: nat,
)
    requires
        engine.wf(),
        engine.outcome(
            Command::SubmitQuote { maker, request, leg, price, size, expires_at },
            now,
            room,
        ) is Ok,
    ensures
        ({
            let command = Command::SubmitQuote { maker, request, leg, price, size, expires_at };
            let ready = engine.ready_for(command, now);
            let v = ready.ledger;
            let w = engine.after(command, now, room).ledger;
            let l = leg.0 as int;
            let a = maker.0 as int;
            let prior = ready.old_quote(maker, request, l);
            let stake = staked_on(v.leg_at(request, l), price);
            let before = v.quotes_on(request, l);
            let chain = w.quotes_on(request, l);
            let i = chain.last();
            let record = w.quotes.at(i);
            let claim = w.claims.of(record.claim->0);
            &&& chain.len() > 0
            &&& w.quotes.occupied(i)
            &&& prior is None ==> !v.quotes.occupied(i)
            &&& prior is None ==> chain == before.push(i)
            &&& prior is Some ==> chain == before.remove(
                before.index_of((prior->0).index()),
            ).push(i) && !w.quotes.names(prior->0)
            &&& record.maker == maker
            &&& record.request == Some(request)
            &&& record.leg == leg
            &&& record.price == price
            &&& record.size == size
            &&& record.expires_at == expires_at
            &&& record.arrival == engine.arrivals
            &&& record.state == QuoteState::Active
            &&& record.claim is Some
            &&& w.claims.names(record.claim->0)
            &&& claim.account == maker
            &&& claim.amount.0 == stake
            &&& claim.expiry() == Some(expires_at)
            &&& claim.owner == ResOwner::Quote(Handle::<Quote>::of(i, w.quotes.generation(i)))
            &&& w.accounts[a].reserved.0 == v.accounts[a].reserved.0 - given_back(v, prior) + stake
            &&& w.accounts[a].committed == v.accounts[a].committed
            &&& w.accounts[a].free == v.accounts[a].free
            &&& accounts_kept_but(v, w, a)
            &&& w.contracts == v.contracts
            &&& only_book_moves(v, w, request, l)
            &&& forall|j: u32|
                v.quotes.occupied(j) && (prior is None || j != (prior->0).index())
                    ==> #[trigger] quote_stands(v, w, j)
            &&& engine.arrivals < u64::MAX ==> engine.after(command, now, room).arrivals
                == engine.arrivals + 1
            &&& engine.after(command, now, room).config == engine.config
        }),
        ({
            let command = Command::SubmitQuote { maker, request, leg, price, size, expires_at };
            let ready = engine.ready_for(command, now);
            let linked = ready.quoted(maker, request, leg, price, size, expires_at);
            let l = leg.0 as int;
            &&& 0 <= l < MAX_LEGS
            &&& linked.requests.names(request)
            &&& linked.leg_at(request, l).published == ready.ledger.leg_at(request, l).published
            &&& linked.leg_at(request, l).size == ready.ledger.leg_at(request, l).size
            &&& linked.leg_at(request, l).limit == ready.ledger.leg_at(request, l).limit
        }),
{
    broadcast use {handle_of, array_from_holds};

    let command = Command::SubmitQuote { maker, request, leg, price, size, expires_at };
    ready_keeps(engine, command, now);
    let ready = engine.ready_for(command, now);
    let v = ready.ledger;
    let l = leg.0 as int;
    let record = ready.quote_record(maker, request, leg, price, size, expires_at);
    let amount = Amount(stake(v.leg_at(request, l), price.0 as int) as u64);
    let prior = ready.old_quote(maker, request, l);
    let (units, spread) = (v.leg_at(request, l).size.0 as int, 1_000_000 - price.0);
    assert(0 <= units * spread) by (nonlinear_arith)
        requires
            units >= 0,
            spread >= 0,
    ;
    assert(v.request_ok(request.index()));
    open_leg(v, request, l);
    standing_is(v, request, l, maker);
    replacement_is_admissible(v, request, l, prior, record, amount);
    let cleared = v.cleared(request, l, prior);
    let chain = v.quotes_on(request, l);
    match prior {
        Some(quote) => {
            cleared_sound(v, request, l, quote);
            let freed = v.quote_freed(quote);
            unlinked_sound(freed, request, l, quote.index());
            freed_sound(v, quote);
            standing_claim_is_reserved(v, quote);
            match v.quotes.of(quote).claim {
                Some(claim) => {
                    assert(v.claim_ok(claim.index()));
                    a_release_returns_exactly_its_amount(v, claim);
                    assert(v.claims.of(claim).account == maker);
                },
                None => {},
            }
            let parted = freed.unlinked(request, l, quote.index());
            assert(v.same_request_at(freed, request.index()));
            assert(rethreaded(freed, parted, request, l));
            assert(cleared.accounts == freed.accounts);
            assert(cleared.claims == freed.claims);
            assert(cleared.requests == parted.requests);
            assert forall|j: u32| v.quotes.occupied(j) && j != quote.index() implies
                #[trigger] quote_stands(v, cleared, j) by {
                assert(freed.quotes.occupied(j));
                assert(parted.quotes.occupied(j));
                if v.quotes.of(quote).claim is Some {
                    assert(slot_kept(v.quotes, freed.quotes, j));
                }
            }
            assert forall|r: u32| r != request.index() implies #[trigger] slot_kept(
                v.requests,
                cleared.requests,
                r,
            ) by {
                assert(v.requests.occupied(r) ==> parted.requests.occupied(r));
                assert(parted.requests.occupied(r) ==> v.requests.occupied(r));
            }
        },
        None => {
            assert forall|j: u32| v.quotes.occupied(j) implies #[trigger] quote_stands(
                v,
                cleared,
                j,
            ) by {}
            assert forall|r: u32| r != request.index() implies #[trigger] slot_kept(
                v.requests,
                cleared.requests,
                r,
            ) by {}
        },
    }
    let a = maker.0 as int;
    assert(cleared.accounts[a].reserved.0 == v.accounts[a].reserved.0 - given_back(v, prior));
    quote_opened_sound(cleared, record, amount);
    let opened = cleared.quote_opened_reserving(record, amount);
    assert(opened.accounts[a].reserved.0 == cleared.accounts[a].reserved.0 + amount.0);
    let i = cleared.quotes.next_index();
    open_leg(cleared, request, l);
    let before = cleared.quotes_on(request, l);
    assert forall|k: int| 0 <= k < before.len() implies {
        let j = #[trigger] before[k];
        opened.quotes.occupied(j) && same_terms(cleared.quotes.at(j), opened.quotes.at(j))
    } by {
        assert(cleared.on_leg(before[k], request, l));
        assert(opened.quotes.occupied(before[k]));
    }
    leg_kept(cleared, opened, request, l);
    assert(!before.contains(i)) by {
        if before.contains(i) {
            let k = before.index_of(i);
            assert(cleared.on_leg(before[k], request, l));
        }
    }
    assert forall|k: int| 0 <= k < before.len() implies opened.quotes.at(
        #[trigger] before[k],
    ).maker != record.maker by {
        assert(opened.quotes.occupied(before[k]));
        match prior {
            Some(quote) => {
                let j = before[k];
                let from = chain.index_of(j);
                assert(chain[from] == j);
            },
            None => {},
        }
    }
    inserted_wf(cleared.quotes, record);
    inserted_wf(
        cleared.claims,
        Reservation::unlinked(
            maker,
            amount,
            ResOwner::Quote(cleared.quotes.next_handle()),
            expires_at,
        ),
    );
    linked_sound(opened, request, l, i);
    let linked = opened.linked(request, l, i);
    let w = linked.published(request, l, now);
    assert(rethreaded(opened, linked, request, l));
    assert(w.quotes == linked.quotes && w.claims == linked.claims && w.accounts
        == linked.accounts);
    assert(w.leg_at(request, l).quotes_head == linked.leg_at(request, l).quotes_head);
    assert(w.quotes_on(request, l) == before.push(i));
    assert(w.quotes_on(request, l).last() == i);
    assert forall|j: u32|
        v.quotes.occupied(j) && (prior is None || j != (prior->0).index()) implies
        #[trigger] quote_stands(v, w, j) by {
        assert(quote_stands(v, cleared, j));
        assert(cleared.quotes.occupied(j));
        assert(opened.quotes.occupied(j));
        assert(linked.quotes.occupied(j));
    }
    assert(linked.quotes.occupied(i));
    assert forall|r: u32| r != request.index() implies #[trigger] slot_kept(
        v.requests,
        w.requests,
        r,
    ) by {
        assert(slot_kept(v.requests, cleared.requests, r));
        assert(opened.requests.occupied(r) ==> linked.requests.occupied(r));
        assert(linked.requests.occupied(r) ==> opened.requests.occupied(r));
    }
    if prior is Some {
        let quote = prior->0;
        assert(!w.quotes.names(quote)) by {
            assert(!cleared.quotes.names(quote));
            if w.quotes.occupied(quote.index()) {
                assert(opened.quotes.occupied(quote.index()));
            }
        }
    }
}

/// **Applying a command is what the laws of this module speak of**: the engine's state, what is
/// emitted, behind what was emitted before, and the answer are those of the command, with as much
/// room as the buffer has left.
pub proof fn applying_a_command_does_what_it_says(
    command: Command,
    now: Ts,
    r: Result<(), EngineError>,
)
    ensures
        forall|engine: &mut Engine, events: &mut EventBuffer| #[trigger]
            call_ensures(Engine::apply, (engine, command, now, events), r) ==> {
                let room = ((*events).room() - (*events)@.len()) as nat;
                &&& final(engine)@ == (*engine)@.after(command, now, room)
                &&& final(events)@ == (*events)@ + (*engine)@.emitted(command, now, room)
                &&& r == (*engine)@.outcome(command, now, room)
            },
{
}

} // verus!
