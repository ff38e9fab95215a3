//! The engine: a single-writer state machine.
//!
//! It holds requests, quotes, reservations, claims and the read-only balance mirror. It holds no
//! reference to custody and cannot read a balance from it; it sees an escrow's id and its own
//! mirror, nothing else.
//!
//! Note what the engine does **not** own: a clock. A command takes the instant at which it is
//! applied, sampled exactly once at the call site.
//!
//! [`model::EngineView`] says what each command does, what it emits and when it is refused;
//! [`book`] says what holds between commands; and [`laws`] states what follows across them.

use crate::account::AccountIdx;
use crate::command::Command;
use crate::config::{Config, ConfigError};
use crate::engine::model::{Effect, EngineView};
use crate::engine::steps::{empty_sound, normalised_sound};
use crate::event::{Event, EventBuffer};
use crate::ledger::{Ledger, LedgerError};
use crate::selection::NoQuoteReason;
use crate::types::{Price, Ts};
use vstd::prelude::*;

mod accepting;
pub mod book;
pub mod closing;
pub mod effects;
pub mod endings;
pub mod laws;
pub mod model;
pub mod moves;
mod opening;
mod quoting;
mod settling;
pub mod shelf;
pub mod steps;

verus! {

/// Why a command was refused. One variant per cause.
#[derive(Clone, Copy, Debug, PartialEq, Eq, Structural)]
pub enum EngineError {
    /// The ledger refused.
    Ledger(LedgerError),
    /// The event buffer cannot hold what the command would emit.
    EventBufferFull,
    /// A request with no legs.
    NoLegs,
    /// More legs than policy allows.
    TooManyLegs,
    /// The deadline is not after now.
    DeadlineInThePast,
    /// The deadline is further away than policy allows.
    DeadlineTooFar,
    /// No such contract is registered.
    UnknownContract,
    /// The contract is too near its event to be traded.
    ContractTooNear,
    /// The request handle does not resolve.
    UnknownRequest,
    /// The request has been rejected, or is settling or settled.
    RequestNotOpen,
    /// Quoting closed.
    RequestDeadlinePassed,
    /// The request has no such leg.
    UnknownLeg,
    /// A quote covers the leg's full size or it is refused.
    QuoteTooSmall,
    /// No contract pays more than one unit.
    PriceAboveUnit,
    /// The quote would be dead on arrival.
    QuoteExpiryInThePast,
    /// The quote would live longer than policy allows.
    QuoteTtlTooLong,
    /// A live quote may only be replaced by one at least as good for the requester.
    WorseReplacement,
    /// The leg holds as many makers as policy allows.
    LegQuoteLimitReached,
    /// The accept does not name the request's legs in order.
    ExpectationMismatch,
    /// A leg has no eligible quote.
    NoEligibleQuote {
        /// Which leg.
        leg: u8,
        /// Why not.
        reason: NoQuoteReason,
    },
    /// The best quote on a leg is worse than the requester was shown.
    PresentationStale {
        /// Which leg.
        leg: u8,
        /// What they were shown.
        expected: Price,
        /// What it would fill at.
        actual: Price,
    },
    /// The quote handle does not resolve.
    UnknownQuote,
    /// A quote binds its maker until it expires.
    QuotesAreIrrevocable,
    /// The nonce names no request.
    StaleNonce,
    /// The request is not settling.
    RequestNotSettling,
    /// An oracle's status never moves backwards, and a final one never moves.
    OracleStatusRegression,
    /// The contract has no outcome to pay out under.
    OutcomeNotYet,
}

/// The single-writer state machine.
#[derive(Debug, PartialEq, Eq)]
pub struct Engine {
    config: Config,
    ledger: Ledger,
    arrivals: u64,
}

/// How a handler of one command ends: as `effect` says, the events appended to those written
/// before, or with nothing changed.
pub open spec fn performs(
    effect: Result<Effect, EngineError>,
    before: EngineView,
    after: EngineView,
    written_before: Seq<Event>,
    written: Seq<Event>,
    r: Result<(), EngineError>,
) -> bool {
    match effect {
        Ok(done) => {
            &&& r == Ok::<(), EngineError>(())
            &&& after == (EngineView { ledger: done.ledger, arrivals: done.arrivals, ..before })
            &&& written == written_before + done.events
        },
        Err(error) => {
            &&& r == Err::<(), EngineError>(error)
            &&& after == before
            &&& written == written_before
        },
    }
}

/// How many more events fit.
pub open spec fn headroom_of(events: &EventBuffer) -> nat {
    (events.room() - events@.len()) as nat
}

impl Engine {
    /// What the engine holds.
    pub closed spec fn view(&self) -> EngineView {
        EngineView { config: self.config, ledger: self.ledger@, arrivals: self.arrivals }
    }

    /// Whether the engine is sound; see [`EngineView::wf`].
    pub closed spec fn wf(&self) -> bool {
        &&& self.ledger.wf()
        &&& self@.wf()
    }

    /// What a sound engine is.
    pub proof fn wf_model(&self)
        requires
            self.wf(),
        ensures
            self@.wf(),
    {
    }

    /// Validate the configuration and construct the engine.
    ///
    /// A venue whose withdrawal timelock does not cover the maximum quote lifetime plus mirror
    /// lag is one where a maker can withdraw out from under a live quote, and it must not run.
    pub fn new(config: Config) -> (r: Result<Self, ConfigError>)
        ensures
            match config.refusal() {
                Some(error) => r == Err::<Self, ConfigError>(error),
                None => {
                    &&& r is Ok
                    &&& r->Ok_0.wf()
                    &&& r->Ok_0@ == EngineView::fresh(config)
                },
            },
    {
        match config.validate() {
            Ok(()) => {
                let ledger = Ledger::new(&config);
                proof {
                    empty_sound(ledger@);
                    ledger.wf_model();
                }
                Ok(Engine { config, ledger, arrivals: 0 })
            },
            Err(error) => Err(error),
        }
    }

    /// The venue policy this engine was started with.
    pub fn config(&self) -> (r: &Config)
        ensures
            *r == self@.config,
    {
        &self.config
    }

    /// The claims, requests, quotes and the balance mirror, read-only.
    pub fn ledger(&self) -> (r: &Ledger)
        ensures
            r@ == self@.ledger,
            self.wf() ==> r.wf(),
    {
        &self.ledger
    }

    /// The account whose capital `command` needs, if any: the one it normalises.
    pub fn touched_account(&self, command: Command) -> (r: Option<AccountIdx>)
        requires
            self.wf(),
        ensures
            r == self@.touched(command),
    {
        proof {
            self.ledger.wf_model();
        }
        match command {
            Command::CreditAccount { account, .. } => Some(account),
            Command::SubmitRequest { requester, .. } => Some(requester),
            Command::SubmitQuote { maker, .. } => Some(maker),
            Command::RejectRequest { request } => match self.ledger.request(request) {
                Some(record) => Some(record.requester()),
                None => None,
            },
            Command::AcceptRequest { request, .. } => match self.ledger.request(request) {
                Some(record) => Some(record.requester()),
                None => None,
            },
            Command::CancelQuote { quote } => match self.ledger.quote(quote) {
                Some(record) => Some(record.maker()),
                None => None,
            },
            _ => None,
        }
    }

    /// Reclaim every claim of `account` that is dead at `now`. An account outside the mirror is
    /// ignored.
    pub fn normalise(&mut self, account: AccountIdx, now: Ts)
        requires
            old(self).wf(),
        ensures
            final(self).wf(),
            final(self)@ == old(self)@.normalised(account, now),
    {
        proof {
            if account.0 < self@.ledger.accounts.len() {
                normalised_sound(self@.ledger, account, now);
            }
        }
        let _ = self.ledger.release_expired(account, now);
    }

    /// Apply one command at `now`, writing what it emits to `events`.
    ///
    /// The account whose capital the command needs is normalised first, whether or not the
    /// command is then refused. A refusal changes nothing else and emits nothing.
    pub fn apply(&mut self, command: Command, now: Ts, events: &mut EventBuffer) -> (r: Result<
        (),
        EngineError,
    >)
        requires
            old(self).wf(),
            old(events).wf(),
        ensures
            final(self).wf(),
            final(events).wf(),
            final(events).room() == old(events).room(),
            final(self)@ == old(self)@.after(command, now, headroom_of(old(events))),
            final(events)@ == old(events)@ + old(self)@.emitted(
                command,
                now,
                headroom_of(old(events)),
            ),
            r == old(self)@.outcome(command, now, headroom_of(old(events))),
    {
        let ghost room = headroom_of(events);
        match self.touched_account(command) {
            Some(account) => {
                self.normalise(account, now);
            },
            None => {},
        }
        let ghost ready = self@;
        proof {
            self.ledger.wf_model();
            assert(events@ + Seq::<Event>::empty() =~= events@);
        }
        match command {
            Command::CreditAccount { account, free } => {
                self.credit(account, free)
            },
            Command::RegisterContract { contract, event_date } => {
                self.register(contract, event_date)
            },
            Command::SubmitRequest { requester, deadline, legs, n_legs } => self.submit_request(
                requester,
                deadline,
                &legs,
                n_legs,
                now,
                events,
            ),
            Command::RejectRequest { request } => self.reject(request, events),
            Command::AcceptRequest { request, expected, n_legs } => self.accept(
                request,
                &expected,
                n_legs,
                now,
                events,
            ),
            Command::SubmitQuote { maker, request, leg, price, size, expires_at } => {
                self.submit_quote(maker, request, leg, price, size, expires_at, now, events)
            },
            Command::CancelQuote { quote } => match self.ledger.quote(quote) {
                Some(_) => Err(EngineError::QuotesAreIrrevocable),
                None => Err(EngineError::UnknownQuote),
            },
            Command::PollSettlement { nonce, status } => self.poll(nonce, status, now, events),
            Command::ReportOracleStatus { contract, status } => {
                self.report(contract, status, events)
            },
            Command::SettleEscrow { escrow, contract } => {
                self.pay_out(escrow, contract, now, events)
            },
        }
    }
}

} // verus!
