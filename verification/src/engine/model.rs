//! The engine as mathematics: what a command does to the state, and what it emits.
//!
//! Every command first normalises the account whose capital it needs, then either takes effect or
//! is refused. A refusal changes nothing beyond that normalisation.

use crate::account::{AccountIdx, Link, NIL};
use crate::arrays::array_from;
use crate::command::{Command, ExpectedFill, LegSpec};
use crate::config::{Config, MAX_LEGS};
use crate::contract::{ContractIdx, OracleStatus};
use crate::engine::book::{limit_total, stake};
use crate::engine::EngineError;
use crate::escrow::EscrowId;
use crate::event::{Event, IntentLeg, OpenLeg, QuoteRejectReason};
use crate::ledger::model::LedgerView;
use crate::ledger::LedgerError;
use crate::quote::{Quote, QuoteIdx, QuoteState};
use crate::request::{Leg, Nonce, ReqIdx, Request, RequestState, Selection};
use crate::reservation::ResOwner;
use crate::selection::{handles, selection, standing, NoQuoteReason};
use crate::settlement::TxStatus;
use crate::slab::{Handle, SlabView};
use crate::types::{product, Amount, LegId, Price, Size, Ts, UNIT};
use vstd::prelude::*;

verus! {

/// What an engine holds.
#[verifier::ext_equal]
pub struct EngineView {
    /// The venue policy.
    pub config: Config,
    /// The claims, requests, quotes and the balance mirror.
    pub ledger: LedgerView,
    /// How many quotes have been admitted: the next quote's place in the order of arrival.
    pub arrivals: u64,
}

/// What an admitted command does.
#[verifier::ext_equal]
pub struct Effect {
    /// The ledger after it.
    pub ledger: LedgerView,
    /// How many quotes have been admitted after it.
    pub arrivals: u64,
    /// What it emits.
    pub events: Seq<Event>,
}

// ───────────────────────────── opening a request ─────────────────────────────

/// A leg as a request opens with it.
pub open spec fn leg_of(terms: LegSpec) -> Leg {
    Leg {
        contract: terms.contract,
        side: terms.side,
        size: terms.size,
        limit: terms.limit,
        ..Leg::blank()
    }
}

/// The legs a request opens with.
pub open spec fn legs_of(legs: [LegSpec; MAX_LEGS], n: int) -> [Leg; MAX_LEGS] {
    array_from(
        Seq::new(
            MAX_LEGS as nat,
            |k: int|
                if k < n {
                    leg_of(legs@[k])
                } else {
                    Leg::blank()
                },
        ),
    )
}

/// The legs as makers are shown them: no limit.
pub open spec fn shown_legs(legs: [LegSpec; MAX_LEGS], n: int) -> [OpenLeg; MAX_LEGS] {
    array_from(
        Seq::new(
            MAX_LEGS as nat,
            |k: int|
                if k < n {
                    OpenLeg {
                        contract: legs@[k].contract,
                        side: legs@[k].side,
                        size: legs@[k].size,
                    }
                } else {
                    OpenLeg::blank()
                },
        ),
    )
}

/// A request as it opens.
pub open spec fn request_record(
    requester: AccountIdx,
    deadline: Ts,
    legs: [LegSpec; MAX_LEGS],
    n_legs: u8,
) -> Request {
    Request {
        requester,
        deadline,
        state: RequestState::Open,
        legs: legs_of(legs, n_legs as int),
        n_legs,
        claim: None,
        committed_head: Link(NIL),
    }
}

/// What the sum of `size * limit` over the legs comes to.
pub open spec fn asked_total(legs: [LegSpec; MAX_LEGS], n_legs: u8) -> int {
    limit_total(legs_of(legs, n_legs as int)@, n_legs as nat)
}

// ───────────────────────────── sweeping quotes ─────────────────────────────

/// What the maker of a quote that did not win is told. When the request was accepted at an
/// instant, a quote dead by then expired and a live one was outbid; otherwise the request was
/// withdrawn.
pub open spec fn farewell(
    quotes: SlabView<Quote>,
    quote: QuoteIdx,
    accepted_at: Option<Ts>,
) -> Event {
    let maker = quotes.of(quote).maker;
    match accepted_at {
        Some(now) => if quotes.of(quote).live_at(now) {
            Event::QuoteRejected { quote, maker, reason: QuoteRejectReason::Outbid }
        } else {
            Event::QuoteExpired { quote, maker }
        },
        None => Event::QuoteRejected { quote, maker, reason: QuoteRejectReason::RequestRejected },
    }
}

/// What the makers of `swept` are told, in order.
pub open spec fn farewells(
    quotes: SlabView<Quote>,
    swept: Seq<QuoteIdx>,
    accepted_at: Option<Ts>,
) -> Seq<Event> {
    Seq::new(swept.len(), |k: int| farewell(quotes, swept[k], accepted_at))
}

/// What the makers of a request whose settlement failed are told: the `owners` that are quotes,
/// in order.
pub open spec fn failures(
    quotes: SlabView<Quote>,
    owners: Seq<(ResOwner, Amount)>,
    n: nat,
) -> Seq<Event>
    decreases n,
{
    if n == 0 {
        Seq::empty()
    } else {
        let before = failures(quotes, owners, (n - 1) as nat);
        match owners[n - 1].0 {
            ResOwner::Quote(quote) => before.push(
                Event::QuoteRejected {
                    quote,
                    maker: quotes.of(quote).maker,
                    reason: QuoteRejectReason::SettlementFailed,
                },
            ),
            ResOwner::Request(_) => before,
        }
    }
}

impl LedgerView {
    /// The quotes on the first `n` legs of `request`, leg by leg, in order of arrival.
    pub open spec fn all_quotes(self, request: ReqIdx, n: nat) -> Seq<QuoteIdx>
        decreases n,
    {
        if n == 0 {
            Seq::empty()
        } else {
            self.all_quotes(request, (n - 1) as nat) + handles(
                self.quotes,
                self.quotes_on(request, n - 1),
            )
        }
    }

    /// The best eligible quote on leg `l` of `request`, or why there is none.
    pub open spec fn fill(self, request: ReqIdx, l: int, now: Ts) -> Result<
        Selection,
        NoQuoteReason,
    > {
        selection(self.quotes, self.leg_at(request, l), now)
    }

    /// The quote that wins leg `l` of `request`.
    pub open spec fn winner(self, request: ReqIdx, l: int, now: Ts) -> QuoteIdx {
        self.fill(request, l, now)->Ok_0.quote
    }

    /// The winners of the first `n` legs.
    pub open spec fn winners(self, request: ReqIdx, now: Ts, n: nat) -> Seq<QuoteIdx> {
        Seq::new(n, |l: int| self.winner(request, l, now))
    }

    /// The quotes on leg `l` that do not win it.
    pub open spec fn rivals(self, request: ReqIdx, l: int, now: Ts) -> Seq<QuoteIdx> {
        let quotes = handles(self.quotes, self.quotes_on(request, l));
        quotes.remove(quotes.index_of(self.winner(request, l, now)))
    }

    /// The quotes on the first `n` legs that do not win, leg by leg.
    pub open spec fn losers(self, request: ReqIdx, now: Ts, n: nat) -> Seq<QuoteIdx>
        decreases n,
    {
        if n == 0 {
            Seq::empty()
        } else {
            self.losers(request, now, (n - 1) as nat) + self.rivals(request, n - 1, now)
        }
    }

    /// What the requester pays for the first `n` legs: the sum of `size * fill price`.
    pub open spec fn fill_total(self, request: ReqIdx, now: Ts, n: nat) -> int
        decreases n,
    {
        if n == 0 {
            0
        } else {
            self.fill_total(request, now, (n - 1) as nat) + product(
                self.leg_at(request, n - 1).size,
                self.fill(request, n - 1, now)->Ok_0.price.0 as int,
            )
        }
    }

    /// Leg `l` of the bundle an accept hands to custody.
    pub open spec fn intent_leg(self, request: ReqIdx, l: int, now: Ts) -> IntentLeg {
        let leg = self.leg_at(request, l);
        let won = self.quotes.of(self.winner(request, l, now));
        IntentLeg {
            contract: leg.contract,
            side: leg.side,
            size: leg.size,
            maker: won.maker,
            fill_price: won.price,
            quote_expiry: won.expires_at,
        }
    }

    /// The bundle an accept hands to custody.
    pub open spec fn intent(self, request: ReqIdx, now: Ts) -> Event {
        let record = self.requests.of(request);
        Event::SubmitIntent {
            request,
            nonce: Nonce::naming(request),
            requester: record.requester,
            legs: array_from(
                Seq::new(
                    MAX_LEGS as nat,
                    |l: int|
                        if l < record.n_legs {
                            self.intent_leg(request, l, now)
                        } else {
                            IntentLeg::blank()
                        },
                ),
            ),
            n_legs: record.n_legs,
        }
    }

    /// After the first `n` of `quotes` are released and their slots freed.
    pub open spec fn swept(self, quotes: Seq<QuoteIdx>, n: nat) -> Self
        decreases n,
    {
        if n == 0 {
            self
        } else {
            self.swept(quotes, (n - 1) as nat).dismissed(quotes[n - 1])
        }
    }

    /// After the first `n` of `quotes` are consumed by `request`.
    pub open spec fn all_consumed(self, quotes: Seq<QuoteIdx>, request: ReqIdx, n: nat) -> Self
        decreases n,
    {
        if n == 0 {
            self
        } else {
            self.all_consumed(quotes, request, (n - 1) as nat).consumed(quotes[n - 1], request)
        }
    }

    /// After the quotes among the first `n` of `owners` are closed.
    pub open spec fn owners_closed(self, owners: Seq<(ResOwner, Amount)>, n: nat) -> Self
        decreases n,
    {
        if n == 0 {
            self
        } else {
            let before = self.owners_closed(owners, (n - 1) as nat);
            match owners[n - 1].0 {
                ResOwner::Quote(quote) => before.quote_closed(quote),
                ResOwner::Request(_) => before,
            }
        }
    }

    /// After `maker`'s standing quote on leg `l` of `request`, if any, is withdrawn.
    pub open spec fn cleared(self, request: ReqIdx, l: int, prior: Option<QuoteIdx>) -> Self {
        match prior {
            Some(quote) => self.quote_freed(quote).unlinked(
                request,
                l,
                quote.index(),
            ).quote_closed(quote),
            None => self,
        }
    }

    /// What the requester is told when a quote arrives on leg `l` of `request`: the best
    /// eligible price, if it changed.
    pub open spec fn publication(self, request: ReqIdx, l: int, now: Ts) -> Option<Price> {
        match self.fill(request, l, now) {
            Ok(best) => if self.leg_at(request, l).published == Some(best.price) {
                None
            } else {
                Some(best.price)
            },
            Err(_) => None,
        }
    }

    /// After the best eligible price on leg `l` of `request` is published, if it changed.
    pub open spec fn published(self, request: ReqIdx, l: int, now: Ts) -> Self {
        match self.publication(request, l, now) {
            Some(price) => self.with_leg(
                request,
                l,
                Leg { published: Some(price), ..self.leg_at(request, l) },
            ),
            None => self,
        }
    }
}

impl EngineView {
    /// The account whose capital `command` needs, if any.
    pub open spec fn touched(self, command: Command) -> Option<AccountIdx> {
        match command {
            Command::CreditAccount { account, .. } => Some(account),
            Command::SubmitRequest { requester, .. } => Some(requester),
            Command::SubmitQuote { maker, .. } => Some(maker),
            Command::RejectRequest { request } => if self.ledger.requests.names(request) {
                Some(self.ledger.requests.of(request).requester)
            } else {
                None
            },
            Command::AcceptRequest { request, .. } => if self.ledger.requests.names(request) {
                Some(self.ledger.requests.of(request).requester)
            } else {
                None
            },
            Command::CancelQuote { quote } => if self.ledger.quotes.names(quote) {
                Some(self.ledger.quotes.of(quote).maker)
            } else {
                None
            },
            _ => None,
        }
    }

    /// After one account is normalised at `now`; an account outside the mirror is ignored.
    pub open spec fn normalised(self, account: AccountIdx, now: Ts) -> Self {
        if account.0 < self.ledger.accounts.len() {
            EngineView { ledger: self.ledger.normalised(account, now), ..self }
        } else {
            self
        }
    }

    /// The state a command acts on: the account it needs is normalised first.
    pub open spec fn ready_for(self, command: Command, now: Ts) -> Self {
        match self.touched(command) {
            Some(account) => self.normalised(account, now),
            None => self,
        }
    }

    /// An effect that emits nothing.
    pub open spec fn silently(self, ledger: LedgerView) -> Effect {
        Effect { ledger, arrivals: self.arrivals, events: Seq::empty() }
    }

    /// An effect that emits one event.
    pub open spec fn saying(self, ledger: LedgerView, event: Event) -> Effect {
        Effect { ledger, arrivals: self.arrivals, events: seq![event] }
    }

    // ───────────────────────────── the commands ─────────────────────────────

    /// What a mirror update does.
    pub open spec fn on_credit(self, account: AccountIdx, free: Amount) -> Result<
        Effect,
        EngineError,
    > {
        if account.0 < self.ledger.accounts.len() {
            Ok(self.silently(self.ledger.mirrored(account, free)))
        } else {
            Err(EngineError::Ledger(LedgerError::UnknownAccount))
        }
    }

    /// What registering a contract does.
    pub open spec fn on_register(self, contract: ContractIdx, event_date: Ts) -> Result<
        Effect,
        EngineError,
    > {
        match self.ledger.registration(contract, event_date) {
            Ok(ledger) => Ok(self.silently(ledger)),
            Err(error) => Err(EngineError::Ledger(error)),
        }
    }

    /// Why a leg may not be traded at `now`, if it may not: its contract is unknown, or too near
    /// its event.
    pub open spec fn term_fault(self, terms: LegSpec, now: Ts) -> Option<EngineError> {
        match self.ledger.contract_at(terms.contract) {
            None => Some(EngineError::UnknownContract),
            Some(contract) => if contract.event_date.0 <= now.0 + self.config.min_horizon.0 {
                Some(EngineError::ContractTooNear)
            } else {
                None
            },
        }
    }

    /// Why the first leg that may not be traded may not be, if any of the first `n` may not.
    pub open spec fn first_term_fault(self, legs: Seq<LegSpec>, now: Ts, n: nat) -> Option<
        EngineError,
    >
        decreases n,
    {
        if n == 0 {
            None
        } else {
            match self.first_term_fault(legs, now, (n - 1) as nat) {
                Some(error) => Some(error),
                None => self.term_fault(legs[n - 1], now),
            }
        }
    }

    /// Why a request is refused, if it is.
    pub open spec fn request_refused(
        self,
        requester: AccountIdx,
        deadline: Ts,
        legs: [LegSpec; MAX_LEGS],
        n_legs: u8,
        now: Ts,
        room: nat,
    ) -> Option<EngineError> {
        let total = asked_total(legs, n_legs);
        if n_legs == 0 {
            Some(EngineError::NoLegs)
        } else if n_legs > self.config.max_legs {
            Some(EngineError::TooManyLegs)
        } else if deadline.0 <= now.0 {
            Some(EngineError::DeadlineInThePast)
        } else if deadline.0 - now.0 > self.config.max_request_ttl.0 {
            Some(EngineError::DeadlineTooFar)
        } else if self.first_term_fault(legs@, now, n_legs as nat) is Some {
            self.first_term_fault(legs@, now, n_legs as nat)
        } else if total > u64::MAX {
            Some(EngineError::Ledger(LedgerError::AmountOverflow))
        } else if room < 1 {
            Some(EngineError::EventBufferFull)
        } else {
            match self.ledger.open_request_refused(
                request_record(requester, deadline, legs, n_legs),
                Amount(total as u64),
            ) {
                Some(error) => Some(EngineError::Ledger(error)),
                None => None,
            }
        }
    }

    /// What opening a request does: the sum of `size * limit` is reserved and makers are told.
    pub open spec fn on_request(
        self,
        requester: AccountIdx,
        deadline: Ts,
        legs: [LegSpec; MAX_LEGS],
        n_legs: u8,
        now: Ts,
        room: nat,
    ) -> Result<Effect, EngineError> {
        match self.request_refused(requester, deadline, legs, n_legs, now, room) {
            Some(error) => Err(error),
            None => Ok(
                self.saying(
                    self.ledger.request_opened_reserving(
                        request_record(requester, deadline, legs, n_legs),
                        Amount(asked_total(legs, n_legs) as u64),
                    ),
                    Event::RequestOpened {
                        request: self.ledger.requests.next_handle(),
                        deadline,
                        legs: shown_legs(legs, n_legs as int),
                        n_legs,
                    },
                ),
            ),
        }
    }

    /// A quote as it is admitted.
    pub open spec fn quote_record(
        self,
        maker: AccountIdx,
        request: ReqIdx,
        leg: LegId,
        price: Price,
        size: Size,
        expires_at: Ts,
    ) -> Quote {
        Quote {
            maker,
            request: Some(request),
            leg,
            price,
            size,
            expires_at,
            arrival: self.arrivals,
            state: QuoteState::Active,
            claim: None,
            next_on_leg: Link(NIL),
        }
    }

    /// The quote `maker` already has on leg `l` of `request`, if any.
    pub open spec fn old_quote(self, maker: AccountIdx, request: ReqIdx, l: int) -> Option<
        QuoteIdx,
    > {
        standing(self.ledger.quotes, self.ledger.leg_at(request, l).quotes_head, maker)
    }

    /// Why nobody may quote leg `leg` of `request` at `now`, if nobody may.
    pub open spec fn leg_closed(self, request: ReqIdx, leg: LegId, now: Ts) -> Option<EngineError> {
        let record = self.ledger.requests.of(request);
        if !self.ledger.requests.names(request) {
            Some(EngineError::UnknownRequest)
        } else if record.state !is Open {
            Some(EngineError::RequestNotOpen)
        } else if now.0 >= record.deadline.0 {
            Some(EngineError::RequestDeadlinePassed)
        } else if leg.0 >= record.n_legs {
            Some(EngineError::UnknownLeg)
        } else {
            None
        }
    }

    /// Why a quote's terms are refused on an open leg, if they are. **Never the price**, short of
    /// what a contract pays at most.
    pub open spec fn terms_refused(
        self,
        request: ReqIdx,
        leg: LegId,
        price: Price,
        size: Size,
        expires_at: Ts,
        now: Ts,
    ) -> Option<EngineError> {
        if size.0 < self.ledger.leg_at(request, leg.0 as int).size.0 {
            Some(EngineError::QuoteTooSmall)
        } else if price.0 > UNIT {
            Some(EngineError::PriceAboveUnit)
        } else if expires_at.0 <= now.0 {
            Some(EngineError::QuoteExpiryInThePast)
        } else if expires_at.0 - now.0 > self.config.max_quote_ttl.0 {
            Some(EngineError::QuoteTtlTooLong)
        } else {
            None
        }
    }

    /// Why `maker` has no place on an open leg, if they have none: a live quote of theirs may
    /// only be replaced by one at least as good, and a leg holds only so many makers.
    pub open spec fn place_refused(
        self,
        maker: AccountIdx,
        request: ReqIdx,
        leg: LegId,
        price: Price,
        now: Ts,
    ) -> Option<EngineError> {
        match self.old_quote(maker, request, leg.0 as int) {
            Some(prior) => if self.ledger.quotes.of(prior).live_at(now) && price.0
                > self.ledger.quotes.of(prior).price.0 {
                Some(EngineError::WorseReplacement)
            } else {
                None
            },
            None => if self.ledger.leg_at(request, leg.0 as int).quote_count
                >= self.config.max_quotes_per_leg {
                Some(EngineError::LegQuoteLimitReached)
            } else {
                None
            },
        }
    }

    /// How many events a quote may emit.
    pub open spec fn quote_events(self, maker: AccountIdx, request: ReqIdx, leg: LegId) -> nat {
        if self.old_quote(maker, request, leg.0 as int) is Some {
            2
        } else {
            1
        }
    }

    /// Why a quote is refused, if it is.
    pub open spec fn quote_refused(
        self,
        maker: AccountIdx,
        request: ReqIdx,
        leg: LegId,
        price: Price,
        size: Size,
        expires_at: Ts,
        now: Ts,
        room: nat,
    ) -> Option<EngineError> {
        let staked = stake(self.ledger.leg_at(request, leg.0 as int), price.0 as int);
        if self.leg_closed(request, leg, now) is Some {
            self.leg_closed(request, leg, now)
        } else if self.terms_refused(request, leg, price, size, expires_at, now) is Some {
            self.terms_refused(request, leg, price, size, expires_at, now)
        } else if self.place_refused(maker, request, leg, price, now) is Some {
            self.place_refused(maker, request, leg, price, now)
        } else if staked > u64::MAX {
            Some(EngineError::Ledger(LedgerError::AmountOverflow))
        } else if room < self.quote_events(maker, request, leg) {
            Some(EngineError::EventBufferFull)
        } else {
            match self.ledger.replacement_refused(
                self.old_quote(maker, request, leg.0 as int),
                maker,
                Amount(staked as u64),
            ) {
                Some(error) => Some(EngineError::Ledger(error)),
                None => None,
            }
        }
    }

    /// The ledger once a quote is on its leg, its predecessor withdrawn.
    pub open spec fn quoted(
        self,
        maker: AccountIdx,
        request: ReqIdx,
        leg: LegId,
        price: Price,
        size: Size,
        expires_at: Ts,
    ) -> LedgerView {
        let l = leg.0 as int;
        let cleared = self.ledger.cleared(request, l, self.old_quote(maker, request, l));
        cleared.quote_opened_reserving(
            self.quote_record(maker, request, leg, price, size, expires_at),
            Amount(stake(self.ledger.leg_at(request, l), price.0 as int) as u64),
        ).linked(request, l, cleared.quotes.next_index())
    }

    /// What a quote does: it replaces its maker's standing quote on the leg, if any, reserves
    /// `leg.size * (UNIT - price)`, and the requester is told if the best eligible price changed.
    pub open spec fn on_quote(
        self,
        maker: AccountIdx,
        request: ReqIdx,
        leg: LegId,
        price: Price,
        size: Size,
        expires_at: Ts,
        now: Ts,
        room: nat,
    ) -> Result<Effect, EngineError> {
        let l = leg.0 as int;
        match self.quote_refused(maker, request, leg, price, size, expires_at, now, room) {
            Some(error) => Err(error),
            None => {
                let quoted = self.quoted(maker, request, leg, price, size, expires_at);
                let told = match self.old_quote(maker, request, l) {
                    Some(prior) => seq![
                        Event::QuoteRejected {
                            quote: prior,
                            maker,
                            reason: QuoteRejectReason::Replaced,
                        },
                    ],
                    None => Seq::<Event>::empty(),
                };
                Ok(
                    Effect {
                        ledger: quoted.published(request, l, now),
                        arrivals: if self.arrivals < u64::MAX {
                            (self.arrivals + 1) as u64
                        } else {
                            u64::MAX
                        },
                        events: match quoted.publication(request, l, now) {
                            Some(best) => told.push(
                                Event::BestSelectionChanged { request, leg, price: best },
                            ),
                            None => told,
                        },
                    },
                )
            },
        }
    }

    /// What withdrawing a request does: every standing quote on it is released, and its
    /// requester's claim.
    pub open spec fn on_reject(self, request: ReqIdx, room: nat) -> Result<Effect, EngineError> {
        let record = self.ledger.requests.of(request);
        if !self.ledger.requests.names(request) {
            Err(EngineError::UnknownRequest)
        } else if record.state !is Open {
            Err(EngineError::RequestNotOpen)
        } else {
            let quotes = self.ledger.all_quotes(request, record.n_legs as nat);
            if room < quotes.len() {
                Err(EngineError::EventBufferFull)
            } else {
                Ok(
                    Effect {
                        ledger: self.ledger.request_freed(request).left_in(
                            request,
                            RequestState::Rejected,
                        ).swept(quotes, quotes.len()),
                        arrivals: self.arrivals,
                        events: farewells(self.ledger.quotes, quotes, None),
                    },
                )
            }
        }
    }

    /// Why leg `l` of an accept is refused, if it is: nobody eligible quotes it, or the best
    /// price is worse than the requester was shown.
    pub open spec fn fill_fault(
        self,
        request: ReqIdx,
        expected: [ExpectedFill; MAX_LEGS],
        now: Ts,
        l: int,
    ) -> Option<EngineError> {
        match self.ledger.fill(request, l, now) {
            Err(reason) => Some(EngineError::NoEligibleQuote { leg: l as u8, reason }),
            Ok(best) => if best.price.0 > expected@[l].price.0 {
                Some(
                    EngineError::PresentationStale {
                        leg: l as u8,
                        expected: expected@[l].price,
                        actual: best.price,
                    },
                )
            } else {
                None
            },
        }
    }

    /// Why the first refused leg of an accept is refused, if any of the first `n` is.
    pub open spec fn first_fill_fault(
        self,
        request: ReqIdx,
        expected: [ExpectedFill; MAX_LEGS],
        now: Ts,
        n: nat,
    ) -> Option<EngineError>
        decreases n,
    {
        if n == 0 {
            None
        } else {
            match self.first_fill_fault(request, expected, now, (n - 1) as nat) {
                Some(error) => Some(error),
                None => self.fill_fault(request, expected, now, n - 1),
            }
        }
    }

    /// The expectations name the request's legs, in order.
    pub open spec fn expectations_match(
        self,
        request: ReqIdx,
        expected: [ExpectedFill; MAX_LEGS],
        n_legs: u8,
    ) -> bool {
        &&& n_legs == self.ledger.requests.of(request).n_legs
        &&& forall|l: int| 0 <= l < n_legs ==> (#[trigger] expected@[l]).leg.0 == l
    }

    /// Every party to an accept still holds the claim it would commit.
    pub open spec fn backed(self, request: ReqIdx, now: Ts) -> bool {
        let record = self.ledger.requests.of(request);
        &&& record.claim is Some
        &&& forall|l: int|
            0 <= l < record.n_legs ==> self.ledger.quotes.of(
                #[trigger] self.ledger.winner(request, l, now),
            ).claim is Some
    }

    /// Why an accept is refused, if it is.
    pub open spec fn accept_refused(
        self,
        request: ReqIdx,
        expected: [ExpectedFill; MAX_LEGS],
        n_legs: u8,
        now: Ts,
        room: nat,
    ) -> Option<EngineError> {
        let record = self.ledger.requests.of(request);
        let n = record.n_legs as nat;
        if !self.ledger.requests.names(request) {
            Some(EngineError::UnknownRequest)
        } else if record.state !is Open {
            Some(EngineError::RequestNotOpen)
        } else if now.0 >= record.deadline.0 {
            Some(EngineError::RequestDeadlinePassed)
        } else if !self.expectations_match(request, expected, n_legs) {
            Some(EngineError::ExpectationMismatch)
        } else if self.first_fill_fault(request, expected, now, n) is Some {
            self.first_fill_fault(request, expected, now, n)
        } else if !self.backed(request, now) {
            Some(EngineError::Ledger(LedgerError::StaleReservation))
        } else if room < self.ledger.losers(request, now, n).len() + 1 {
            Some(EngineError::EventBufferFull)
        } else {
            None
        }
    }

    /// The ledger once a request is accepted at `now`: what the requester pays is committed, the
    /// winners' claims are committed whole, and everyone else's are released.
    pub open spec fn accepted(self, request: ReqIdx, now: Ts) -> LedgerView {
        let n = self.ledger.requests.of(request).n_legs as nat;
        let winners = self.ledger.winners(request, now, n);
        let losers = self.ledger.losers(request, now, n);
        self.ledger.settling(
            request,
            Amount(self.ledger.fill_total(request, now, n) as u64),
            now.plus(self.config.max_settling_time),
        ).all_consumed(winners, request, n).swept(losers, losers.len())
    }

    /// What accepting a request does.
    pub open spec fn on_accept(
        self,
        request: ReqIdx,
        expected: [ExpectedFill; MAX_LEGS],
        n_legs: u8,
        now: Ts,
        room: nat,
    ) -> Result<Effect, EngineError> {
        let n = self.ledger.requests.of(request).n_legs as nat;
        match self.accept_refused(request, expected, n_legs, now, room) {
            Some(error) => Err(error),
            None => Ok(
                Effect {
                    ledger: self.accepted(request, now),
                    arrivals: self.arrivals,
                    events: farewells(
                        self.ledger.quotes,
                        self.ledger.losers(request, now, n),
                        Some(now),
                    ).push(self.ledger.intent(request, now)),
                },
            ),
        }
    }

    /// What cancelling a quote does: nothing. Quotes are irrevocable until expiry.
    pub open spec fn on_cancel(self, quote: QuoteIdx) -> Result<Effect, EngineError> {
        if self.ledger.quotes.names(quote) {
            Err(EngineError::QuotesAreIrrevocable)
        } else {
            Err(EngineError::UnknownQuote)
        }
    }

    /// The request a nonce names, if any: the one in its slot, of its generation.
    pub open spec fn named_by(self, nonce: Nonce) -> Option<ReqIdx> {
        if self.ledger.requests.holds(nonce.request, nonce.generation) {
            Some(Handle::of(nonce.request, nonce.generation))
        } else {
            None
        }
    }

    /// The ledger once everything committed to `request` is discharged, the winners' slots freed
    /// and the request finished in `state`.
    pub open spec fn discharged(self, request: ReqIdx, state: RequestState) -> LedgerView {
        let owners = self.ledger.list_entries(request);
        self.ledger.finished(request, state).owners_closed(owners, owners.len())
    }

    /// What a settlement answer does. **Only a final answer moves anything**: one that is not is
    /// at most an alert, once the settling deadline has passed.
    pub open spec fn on_poll(self, nonce: Nonce, status: TxStatus, now: Ts, room: nat) -> Result<
        Effect,
        EngineError,
    > {
        match self.named_by(nonce) {
            None => Err(EngineError::StaleNonce),
            Some(request) => {
                let record = self.ledger.requests.of(request);
                match record.state {
                    RequestState::Settling { deadline, .. } => match status {
                        TxStatus::Settled => Ok(
                            self.silently(self.discharged(request, RequestState::Escrowed)),
                        ),
                        TxStatus::Reverted => if room < record.n_legs {
                            Err(EngineError::EventBufferFull)
                        } else {
                            let owners = self.ledger.list_entries(request);
                            Ok(
                                Effect {
                                    ledger: self.discharged(
                                        request,
                                        RequestState::SettlementFailed,
                                    ),
                                    arrivals: self.arrivals,
                                    events: failures(self.ledger.quotes, owners, owners.len()),
                                },
                            )
                        },
                        _ => if now.0 < deadline.0 {
                            Ok(self.silently(self.ledger))
                        } else if room < 1 {
                            Err(EngineError::EventBufferFull)
                        } else {
                            Ok(
                                self.saying(
                                    self.ledger,
                                    Event::SettlementStalled { request, nonce, status },
                                ),
                            )
                        },
                    },
                    _ => Err(EngineError::RequestNotSettling),
                }
            },
        }
    }

    /// What an oracle report does. **Status never moves backwards**, and only finality is
    /// announced.
    pub open spec fn on_report(self, contract: ContractIdx, status: OracleStatus, room: nat) -> Result<
        Effect,
        EngineError,
    > {
        match self.ledger.contract_at(contract) {
            None => Err(EngineError::UnknownContract),
            Some(found) => if !found.oracle_status.admits(status) {
                Err(EngineError::OracleStatusRegression)
            } else {
                match status {
                    OracleStatus::Final(outcome) => if room < 1 {
                        Err(EngineError::EventBufferFull)
                    } else {
                        Ok(
                            self.saying(
                                self.ledger.oracle_reported(contract, status),
                                Event::ContractResolved { contract, outcome },
                            ),
                        )
                    },
                    _ => Ok(self.silently(self.ledger.oracle_reported(contract, status))),
                }
            },
        }
    }

    /// What asking for an escrow's payout does: an intent, once the contract has an outcome.
    pub open spec fn on_settle(self, escrow: EscrowId, contract: ContractIdx, now: Ts, room: nat) -> Result<
        Effect,
        EngineError,
    > {
        match self.ledger.contract_at(contract) {
            None => Err(EngineError::UnknownContract),
            Some(found) => match found.payable(now, self.config.stall_grace) {
                None => Err(EngineError::OutcomeNotYet),
                Some(outcome) => if room < 1 {
                    Err(EngineError::EventBufferFull)
                } else {
                    Ok(
                        self.saying(
                            self.ledger,
                            Event::SettleIntent { escrow, contract, outcome },
                        ),
                    )
                },
            },
        }
    }

    /// What `command` does at `now` with room for `room` events, once its account is normalised.
    pub open spec fn handled(self, command: Command, now: Ts, room: nat) -> Result<
        Effect,
        EngineError,
    > {
        match command {
            Command::CreditAccount { account, free } => self.on_credit(account, free),
            Command::RegisterContract { contract, event_date } => self.on_register(
                contract,
                event_date,
            ),
            Command::SubmitRequest { requester, deadline, legs, n_legs } => self.on_request(
                requester,
                deadline,
                legs,
                n_legs,
                now,
                room,
            ),
            Command::RejectRequest { request } => self.on_reject(request, room),
            Command::AcceptRequest { request, expected, n_legs } => self.on_accept(
                request,
                expected,
                n_legs,
                now,
                room,
            ),
            Command::SubmitQuote { maker, request, leg, price, size, expires_at } => self.on_quote(
                maker,
                request,
                leg,
                price,
                size,
                expires_at,
                now,
                room,
            ),
            Command::CancelQuote { quote } => self.on_cancel(quote),
            Command::PollSettlement { nonce, status } => self.on_poll(nonce, status, now, room),
            Command::ReportOracleStatus { contract, status } => self.on_report(
                contract,
                status,
                room,
            ),
            Command::SettleEscrow { escrow, contract } => self.on_settle(
                escrow,
                contract,
                now,
                room,
            ),
        }
    }

    /// The state after `command` at `now` with room for `room` events.
    pub open spec fn after(self, command: Command, now: Ts, room: nat) -> Self {
        let ready = self.ready_for(command, now);
        match ready.handled(command, now, room) {
            Ok(effect) => EngineView {
                ledger: effect.ledger,
                arrivals: effect.arrivals,
                ..ready
            },
            Err(_) => ready,
        }
    }

    /// What `command` emits.
    pub open spec fn emitted(self, command: Command, now: Ts, room: nat) -> Seq<Event> {
        match self.ready_for(command, now).handled(command, now, room) {
            Ok(effect) => effect.events,
            Err(_) => Seq::empty(),
        }
    }

    /// What the sender of `command` is told.
    pub open spec fn outcome(self, command: Command, now: Ts, room: nat) -> Result<(), EngineError> {
        match self.ready_for(command, now).handled(command, now, room) {
            Ok(_) => Ok(()),
            Err(error) => Err(error),
        }
    }

    /// An engine nothing has been applied to.
    pub open spec fn fresh(config: Config) -> Self {
        EngineView {
            config,
            ledger: LedgerView::empty(
                config.max_accounts,
                config.max_contracts,
                config.max_reservations,
                config.max_requests,
                config.max_quotes,
            ),
            arrivals: 0,
        }
    }

    /// What holds of an engine between commands.
    pub open spec fn wf(self) -> bool {
        &&& self.config.refusal() is None
        &&& self.ledger.wf()
        &&& self.ledger.sound_book()
    }
}

} // verus!
