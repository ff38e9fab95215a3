//! Every refusal, from an input that brings it.

use rfq::account::AccountIdx;
use rfq::chain::bundle::{Bundle, BundleLeg};
use rfq::chain::custody::{Custody, CustodyError, CustodyLedger, SettleError};
use rfq::chain::oracle::{Oracle, OracleError};
use rfq::clock::TestClock;
use rfq::command::{Command, ExpectedFill, LegSpec};
use rfq::config::{Config, ConfigError, MAX_LEGS};
use rfq::contract::{ContractIdx, OracleStatus, Outcome};
use rfq::engine::{Engine, EngineError};
use rfq::escrow::EscrowId;
use rfq::event::{Event, EventBuffer};
use rfq::ledger::{Ledger, LedgerError};
use rfq::request::{Nonce, ReqIdx, Request};
use rfq::reservation::ResOwner;
use rfq::runtime::gateway::{ContractRef, Gateway, GatewayError};
use rfq::selection::NoQuoteReason;
use rfq::settlement::TxStatus;
use rfq::types::{Amount, Dur, LegId, Price, Side, Size, Ts, UNIT};

const REQUESTER: AccountIdx = AccountIdx(0);
const ALPHA: AccountIdx = AccountIdx(1);
const BETA: AccountIdx = AccountIdx(2);
const KNOWN: ContractIdx = ContractIdx(0);
const NEAR: ContractIdx = ContractIdx(1);
const NOW: Ts = Ts(1_000);

fn config() -> Config {
    Config {
        max_accounts: 4,
        max_reservations: 8,
        max_requests: 2,
        max_quotes: 4,
        max_contracts: 4,
        max_legs: 2,
        max_quotes_per_leg: 1,
        ..Config::default()
    }
}

struct Desk {
    engine: Engine,
    events: EventBuffer,
}

impl Desk {
    fn with_buffer(room: usize) -> Self {
        let mut desk = Desk {
            engine: Engine::new(config()).unwrap(),
            events: EventBuffer::with_capacity(room),
        };
        for account in [REQUESTER, ALPHA, BETA] {
            desk.ok(Command::CreditAccount { account, free: Amount(100_000_000) });
        }
        desk.ok(Command::RegisterContract { contract: KNOWN, event_date: Ts(50_000_000) });
        desk.ok(Command::RegisterContract { contract: NEAR, event_date: Ts(3_601_000) });
        desk
    }

    fn new() -> Self {
        Desk::with_buffer(8)
    }

    fn apply(&mut self, command: Command) -> Result<(), EngineError> {
        self.at(command, NOW)
    }

    fn at(&mut self, command: Command, now: Ts) -> Result<(), EngineError> {
        self.events.clear();
        self.engine.apply(command, now, &mut self.events)
    }

    fn ok(&mut self, command: Command) {
        self.apply(command).unwrap();
    }

    fn opened(&mut self) -> ReqIdx {
        self.ok(request(KNOWN, Ts(50_000), 1, 10, 400_000));
        match self.events.drain()[0] {
            Event::RequestOpened { request, .. } => request,
            _ => panic!("an opened request is announced"),
        }
    }
}

fn request(contract: ContractIdx, deadline: Ts, n_legs: u8, size: u64, limit: u32) -> Command {
    let mut legs = [LegSpec::default(); MAX_LEGS];
    for leg in legs.iter_mut().take(usize::from(n_legs)) {
        *leg = LegSpec { contract, side: Side::Yes, size: Size(size), limit: Price(limit) };
    }
    Command::SubmitRequest { requester: REQUESTER, deadline, legs, n_legs }
}

fn quote(maker: AccountIdx, request: ReqIdx, leg: u8, price: u32, size: u64, expires: u64) -> Command {
    Command::SubmitQuote {
        maker,
        request,
        leg: LegId(leg),
        price: Price(price),
        size: Size(size),
        expires_at: Ts(expires),
    }
}

fn accept(request: ReqIdx, leg: u8, price: u32, n_legs: u8) -> Command {
    let mut expected = [ExpectedFill::default(); MAX_LEGS];
    expected[0] = ExpectedFill { leg: LegId(leg), price: Price(price) };
    Command::AcceptRequest { request, expected, n_legs }
}

#[test]
fn a_request_is_refused_for_each_of_its_faults() {
    let mut desk = Desk::new();
    let plain = |n_legs: u8| request(KNOWN, Ts(50_000), n_legs, 10, 400_000);
    assert_eq!(desk.apply(plain(0)), Err(EngineError::NoLegs));
    assert_eq!(desk.apply(plain(3)), Err(EngineError::TooManyLegs));
    assert_eq!(
        desk.apply(request(KNOWN, NOW, 1, 10, 400_000)),
        Err(EngineError::DeadlineInThePast)
    );
    // The furthest deadline is one lifetime away.
    assert_eq!(
        desk.apply(request(KNOWN, Ts(301_001), 1, 10, 400_000)),
        Err(EngineError::DeadlineTooFar)
    );
    assert_eq!(
        desk.apply(request(ContractIdx(3), Ts(50_000), 1, 10, 400_000)),
        Err(EngineError::UnknownContract)
    );
    assert_eq!(
        desk.apply(request(NEAR, Ts(50_000), 1, 10, 400_000)),
        Err(EngineError::ContractTooNear)
    );
    assert_eq!(
        desk.apply(request(KNOWN, Ts(50_000), 1, u64::MAX, 400_000)),
        Err(EngineError::Ledger(LedgerError::AmountOverflow))
    );
    assert_eq!(
        desk.apply(request(KNOWN, Ts(50_000), 1, 1_000, 400_000)),
        Err(EngineError::Ledger(LedgerError::InsufficientFree))
    );
    assert_eq!(desk.engine.ledger().request_count(), 0);
    // And the furthest deadline itself is admitted, on a contract one instant further out.
    desk.ok(request(KNOWN, Ts(301_000), 1, 10, 400_000));
    assert_eq!(desk.engine.ledger().request_count(), 1);
}

#[test]
fn a_quote_is_refused_for_each_of_its_faults() {
    let mut desk = Desk::new();
    let request = desk.opened();
    let other = Engine::new(config()).unwrap();
    assert!(other.ledger().request(request).is_none());

    assert_eq!(desk.apply(quote(ALPHA, request, 1, 400_000, 10, 2_000)), Err(EngineError::UnknownLeg));
    assert_eq!(desk.apply(quote(ALPHA, request, 0, 400_000, 9, 2_000)), Err(EngineError::QuoteTooSmall));
    assert_eq!(
        desk.apply(quote(ALPHA, request, 0, UNIT + 1, 10, 2_000)),
        Err(EngineError::PriceAboveUnit)
    );
    assert_eq!(
        desk.apply(quote(ALPHA, request, 0, 400_000, 10, 1_000)),
        Err(EngineError::QuoteExpiryInThePast)
    );
    assert_eq!(
        desk.apply(quote(ALPHA, request, 0, 400_000, 10, 31_001)),
        Err(EngineError::QuoteTtlTooLong)
    );
    assert_eq!(
        desk.at(quote(ALPHA, request, 0, 400_000, 10, 60_000), Ts(50_000)),
        Err(EngineError::RequestDeadlinePassed)
    );
    assert_eq!(
        desk.apply(quote(AccountIdx(9), request, 0, 400_000, 10, 2_000)),
        Err(EngineError::Ledger(LedgerError::UnknownAccount))
    );
    // A quote at the full price is worth nothing to its maker, and is still admitted.
    desk.ok(quote(ALPHA, request, 0, UNIT, 10, 31_000));
    assert_eq!(
        desk.apply(quote(BETA, request, 0, 400_000, 10, 2_000)),
        Err(EngineError::LegQuoteLimitReached)
    );
    desk.ok(quote(ALPHA, request, 0, 500_000, 10, 2_000));
    assert_eq!(
        desk.apply(quote(ALPHA, request, 0, 500_001, 10, 2_000)),
        Err(EngineError::WorseReplacement)
    );
    desk.ok(Command::RejectRequest { request });
    assert_eq!(
        desk.apply(quote(ALPHA, request, 0, 400_000, 10, 2_000)),
        Err(EngineError::RequestNotOpen)
    );
}

#[test]
fn an_accept_is_refused_for_each_of_its_faults() {
    let mut desk = Desk::new();
    let request = desk.opened();
    assert_eq!(
        desk.apply(accept(request, 0, 400_000, 1)),
        Err(EngineError::NoEligibleQuote { leg: 0, reason: NoQuoteReason::NoQuotes })
    );
    assert_eq!(desk.apply(accept(request, 0, 400_000, 2)), Err(EngineError::ExpectationMismatch));
    assert_eq!(desk.apply(accept(request, 1, 400_000, 1)), Err(EngineError::ExpectationMismatch));
    desk.ok(quote(ALPHA, request, 0, 390_000, 10, 2_000));
    assert_eq!(
        desk.apply(accept(request, 0, 389_999, 1)),
        Err(EngineError::PresentationStale {
            leg: 0,
            expected: Price(389_999),
            actual: Price(390_000),
        })
    );
    assert_eq!(
        desk.at(accept(request, 0, 390_000, 1), Ts(50_000)),
        Err(EngineError::RequestDeadlinePassed)
    );
    // The refusals normalised the requester at the deadline: the claim is gone for good.
    assert_eq!(
        desk.apply(accept(request, 0, 390_000, 1)),
        Err(EngineError::Ledger(LedgerError::StaleReservation))
    );
}

#[test]
fn what_is_not_there_is_refused_by_name() {
    let mut desk = Desk::new();
    let request = desk.opened();
    desk.ok(quote(ALPHA, request, 0, 390_000, 10, 2_000));
    let standing = desk.engine.ledger().quotes()[0].0;
    assert_eq!(
        desk.apply(Command::CancelQuote { quote: standing }),
        Err(EngineError::QuotesAreIrrevocable)
    );
    desk.ok(Command::RejectRequest { request });
    assert_eq!(desk.apply(Command::CancelQuote { quote: standing }), Err(EngineError::UnknownQuote));
    assert_eq!(desk.apply(Command::RejectRequest { request }), Err(EngineError::RequestNotOpen));

    let nonce = Nonce::of(request);
    let status = TxStatus::Settled;
    assert_eq!(
        desk.apply(Command::PollSettlement { nonce, status }),
        Err(EngineError::RequestNotSettling)
    );
    let nonce = Nonce { request: nonce.request, generation: nonce.generation + 1 };
    assert_eq!(desk.apply(Command::PollSettlement { nonce, status }), Err(EngineError::StaleNonce));

    let mut elsewhere = Desk::new();
    assert_eq!(
        elsewhere.apply(Command::RejectRequest { request }),
        Err(EngineError::UnknownRequest)
    );
    assert_eq!(
        elsewhere.apply(accept(request, 0, 390_000, 1)),
        Err(EngineError::UnknownRequest)
    );
    assert_eq!(
        elsewhere.apply(quote(ALPHA, request, 0, 390_000, 10, 2_000)),
        Err(EngineError::UnknownRequest)
    );
}

#[test]
fn contracts_and_the_oracle_are_refused_by_name() {
    let mut desk = Desk::new();
    assert_eq!(
        desk.apply(Command::RegisterContract { contract: KNOWN, event_date: Ts(1) }),
        Err(EngineError::Ledger(LedgerError::ContractIdentityChanged))
    );
    assert_eq!(
        desk.apply(Command::RegisterContract { contract: ContractIdx(4), event_date: Ts(1) }),
        Err(EngineError::Ledger(LedgerError::UnknownContract))
    );
    desk.ok(Command::RegisterContract { contract: KNOWN, event_date: Ts(50_000_000) });
    assert_eq!(
        desk.apply(Command::CreditAccount { account: AccountIdx(4), free: Amount(1) }),
        Err(EngineError::Ledger(LedgerError::UnknownAccount))
    );
    let report = |status: OracleStatus| Command::ReportOracleStatus { contract: KNOWN, status };
    assert_eq!(
        desk.apply(Command::SettleEscrow { escrow: EscrowId(0), contract: KNOWN }),
        Err(EngineError::OutcomeNotYet)
    );
    desk.ok(report(OracleStatus::InProgress));
    assert_eq!(desk.apply(report(OracleStatus::Silent)), Err(EngineError::OracleStatusRegression));
    desk.ok(report(OracleStatus::Final(Outcome::Yes)));
    assert_eq!(
        desk.apply(report(OracleStatus::Final(Outcome::Yes))),
        Err(EngineError::OracleStatusRegression)
    );
    assert_eq!(
        desk.apply(Command::ReportOracleStatus {
            contract: ContractIdx(3),
            status: OracleStatus::InProgress,
        }),
        Err(EngineError::UnknownContract)
    );
    desk.ok(Command::SettleEscrow { escrow: EscrowId(7), contract: KNOWN });
    assert_eq!(
        desk.events.drain(),
        vec![Event::SettleIntent { escrow: EscrowId(7), contract: KNOWN, outcome: Outcome::Yes }]
    );
}

#[test]
fn an_event_buffer_without_room_refuses_before_anything_moves() {
    let mut desk = Desk::with_buffer(0);
    assert_eq!(
        desk.apply(request(KNOWN, Ts(50_000), 1, 10, 400_000)),
        Err(EngineError::EventBufferFull)
    );
    assert_eq!(desk.engine.ledger().reservation_count(), 0);

    // Room for the announcement, then none for the farewell of a reject with one quote.
    let mut desk = Desk::with_buffer(1);
    let request = desk.opened();
    desk.ok(quote(ALPHA, request, 0, 390_000, 10, 2_000));
    // A replacement may say two things.
    assert_eq!(
        desk.apply(quote(ALPHA, request, 0, 380_000, 10, 2_000)),
        Err(EngineError::EventBufferFull)
    );
    desk.ok(accept(request, 0, 390_000, 1));
    assert!(matches!(desk.events.drain()[0], Event::SubmitIntent { .. }));
}

#[test]
fn a_quote_dead_at_the_accept_expires_and_says_so() {
    let mut desk = Desk {
        engine: Engine::new(Config { max_quotes_per_leg: 4, ..config() }).unwrap(),
        events: EventBuffer::with_capacity(8),
    };
    for account in [REQUESTER, ALPHA, BETA] {
        desk.ok(Command::CreditAccount { account, free: Amount(100_000_000) });
    }
    desk.ok(Command::RegisterContract { contract: KNOWN, event_date: Ts(50_000_000) });
    let request = desk.opened();
    desk.ok(quote(ALPHA, request, 0, 380_000, 10, 2_000));
    desk.ok(quote(BETA, request, 0, 390_000, 10, 9_000));
    let dead = desk.engine.ledger().quotes()[0].0;
    desk.at(accept(request, 0, 390_000, 1), Ts(2_000)).unwrap();
    let events = desk.events.drain();
    assert_eq!(events.len(), 2);
    assert_eq!(events[0], Event::QuoteExpired { quote: dead, maker: ALPHA });
    match events[1] {
        Event::SubmitIntent { legs, .. } => {
            assert_eq!((legs[0].maker, legs[0].fill_price), (BETA, Price(390_000)));
        }
        _ => panic!("an accept ends with its intent"),
    }
}

#[test]
fn the_ledger_refuses_what_does_not_resolve_or_does_not_fit() {
    let mut ledger = Ledger::new(&config());
    ledger.apply_mirror_update(ALPHA, Amount(u64::MAX)).unwrap();
    let quote = ledger.open_quote().unwrap();
    let request = ledger.open_request().unwrap();
    let claim = ledger.reserve(ALPHA, Amount(u64::MAX), Ts(9_000), ResOwner::Quote(quote)).unwrap();
    assert_eq!(
        ledger.reserve(ALPHA, Amount(1), Ts(9_000), ResOwner::Request(request)),
        Err(LedgerError::AmountOverflow)
    );
    ledger.close_request(request).unwrap();
    assert_eq!(ledger.commit(claim, request), Err(LedgerError::StaleRequest));
    assert_eq!(ledger.close_request(request), Err(LedgerError::StaleRequest));
    assert_eq!(ledger.close_quote(quote), Err(LedgerError::OwnerStillClaimed));
    assert_eq!(
        ledger.register_contract(ContractIdx(4), Ts(1)),
        Err(LedgerError::UnknownContract)
    );
    ledger.release(claim).unwrap();
    assert_eq!(ledger.release(claim), Err(LedgerError::StaleReservation));
    assert_eq!(ledger.check_invariants(), Ok(()));
}

#[test]
fn a_handle_from_elsewhere_names_nothing() {
    let mut ledger = Ledger::new(&config());
    ledger.apply_mirror_update(REQUESTER, Amount(100)).unwrap();
    let request = ledger.open_request().unwrap();
    ledger.close_request(request).unwrap();
    let (reissued, _) = ledger.open_request_reserving(Request::new(), Amount(1)).unwrap();
    assert_eq!(reissued.index(), request.index());
    assert!(ledger.request(request).is_none());
    assert!(ledger.request(reissued).is_some());
}

fn bundle(nonce: u32, size: u64, price: u32, expiry: u64, n_legs: u8) -> Bundle {
    let mut legs = [BundleLeg::default(); MAX_LEGS];
    for leg in legs.iter_mut() {
        *leg = BundleLeg {
            contract: KNOWN,
            side: Side::Yes,
            size: Size(size),
            maker: ALPHA,
            fill_price: Price(price),
            quote_expiry: Ts(expiry),
        };
    }
    Bundle { nonce: Nonce { request: nonce, generation: 0 }, requester: REQUESTER, legs, n_legs }
}

#[test]
fn custody_refuses_a_bundle_for_each_of_its_faults() {
    let mut ledger = CustodyLedger::new(Dur(600_000), 2, 2);
    ledger.deposit(REQUESTER, Amount(8_000_000)).unwrap();
    ledger.deposit(ALPHA, Amount(12_000_000)).unwrap();
    let fits = bundle(1, 10, 400_000, 2_000, 1);

    assert_eq!(ledger.settle(&bundle(1, 10, 400_000, 2_000, 0), NOW), Err(SettleError::NoLegs));
    assert_eq!(ledger.settle(&bundle(1, 10, 400_000, 2_000, 200), NOW), Err(SettleError::TooManyLegs));
    assert_eq!(ledger.settle(&fits, Ts(2_000)), Err(SettleError::QuoteExpired { leg: 0 }));
    assert_eq!(
        ledger.settle(&bundle(1, 10, UNIT + 1, 2_000, 1), NOW),
        Err(SettleError::AmountOverflow)
    );
    assert_eq!(
        ledger.settle(&bundle(1, u64::MAX, 400_000, 2_000, 1), NOW),
        Err(SettleError::AmountOverflow)
    );
    assert_eq!(
        ledger.settle(&bundle(1, 30, 400_000, 2_000, 1), NOW),
        Err(SettleError::InsufficientFunds { account: ALPHA })
    );
    let mut strangers = fits;
    strangers.requester = AccountIdx(2);
    assert_eq!(ledger.settle(&strangers, NOW), Err(SettleError::UnknownAccount));
    assert_eq!(ledger.precheck(&fits, NOW), Ok(()));

    let receipt = ledger.settle(&fits, NOW).unwrap();
    assert_eq!((receipt.n_escrows, receipt.escrows[0]), (1, EscrowId(0)));
    assert_eq!(ledger.balance(REQUESTER), Amount(4_000_000));
    assert_eq!(ledger.balance(ALPHA), Amount(6_000_000));
    assert_eq!(ledger.settle(&fits, NOW), Err(SettleError::NonceReused));

    ledger.settle(&bundle(2, 5, 400_000, 2_000, 1), NOW).unwrap();
    assert_eq!(
        ledger.settle(&bundle(3, 1, 400_000, 2_000, 1), NOW),
        Err(SettleError::EscrowCapacityExhausted)
    );
    // A dry run says the same, and changes nothing.
    assert_eq!(
        ledger.precheck(&bundle(3, 1, 400_000, 2_000, 1), NOW),
        Err(SettleError::EscrowCapacityExhausted)
    );
    assert_eq!(ledger.escrows().len(), 2);
}

#[test]
fn custody_refuses_money_operations_for_each_of_their_faults() {
    let mut custody = Custody::new(TestClock::at(NOW), Dur(600_000), 2, 2);
    assert_eq!(custody.deposit(AccountIdx(2), Amount(1)), Err(CustodyError::UnknownAccount));
    custody.deposit(ALPHA, Amount(100)).unwrap();
    assert_eq!(custody.deposit(ALPHA, Amount(u64::MAX)), Err(CustodyError::AmountOverflow));
    assert_eq!(
        custody.request_withdrawal(ALPHA, Amount(101)),
        Err(CustodyError::InsufficientAvailable)
    );
    assert_eq!(custody.execute_withdrawal(ALPHA), Err(CustodyError::NoWithdrawalPending));
    assert_eq!(custody.request_withdrawal(AccountIdx(2), Amount(1)), Err(CustodyError::UnknownAccount));
    assert_eq!(custody.execute_withdrawal(AccountIdx(2)), Err(CustodyError::UnknownAccount));
    assert_eq!(custody.request_withdrawal(ALPHA, Amount(60)), Ok(Ts(601_000)));
    assert_eq!(
        custody.request_withdrawal(ALPHA, Amount(1)),
        Err(CustodyError::WithdrawalAlreadyPending)
    );
    custody.clock_mut().set(Ts(600_999));
    assert_eq!(custody.execute_withdrawal(ALPHA), Err(CustodyError::WithdrawalNotMatured));
    custody.clock_mut().set(Ts(601_000));
    assert_eq!(custody.execute_withdrawal(ALPHA), Ok(Amount(60)));
    assert_eq!(custody.ledger().balance(ALPHA), Amount(40));

    let mut late = Custody::new(TestClock::at(Ts(u64::MAX)), Dur(1), 2, 2);
    late.deposit(ALPHA, Amount(1)).unwrap();
    assert_eq!(late.request_withdrawal(ALPHA, Amount(1)), Err(CustodyError::AmountOverflow));

    let ledger = custody.ledger_mut();
    assert_eq!(
        ledger.settle_escrow(EscrowId(0), KNOWN, Outcome::Yes),
        Err(CustodyError::UnknownAccount)
    );
}

#[test]
fn the_oracle_refuses_for_each_of_its_faults() {
    let authority = AccountIdx(7);
    let mut oracle = Oracle::new(TestClock::at(NOW), Dur(100), authority);
    assert_eq!(oracle.contest(KNOWN), Err(OracleError::NothingProposed));
    assert_eq!(oracle.finalise(KNOWN), Err(OracleError::NothingProposed));
    assert_eq!(oracle.propose(KNOWN, Outcome::Yes), Ok(Ts(1_100)));
    assert_eq!(oracle.propose(KNOWN, Outcome::No), Err(OracleError::AlreadyProposed));
    assert_eq!(oracle.finalise(KNOWN), Err(OracleError::WindowOpen));
    assert_eq!(
        oracle.escalate(KNOWN, Outcome::Void, ALPHA),
        Err(OracleError::NotTheEscalationAuthority)
    );
    oracle.clock_mut().set(Ts(1_099));
    assert_eq!(oracle.finalise(KNOWN), Err(OracleError::WindowOpen));
    oracle.clock_mut().set(Ts(1_100));
    assert_eq!(oracle.finalise(KNOWN), Ok(Outcome::Yes));
    assert_eq!(oracle.contest(KNOWN), Err(OracleError::AlreadyFinal));
    assert_eq!(oracle.escalate(KNOWN, Outcome::No, authority), Err(OracleError::AlreadyFinal));

    assert_eq!(oracle.propose(NEAR, Outcome::No), Ok(Ts(1_200)));
    assert_eq!(oracle.contest(NEAR), Ok(()));
    oracle.clock_mut().set(Ts(1_000_000));
    assert_eq!(oracle.finalise(NEAR), Err(OracleError::Contested));
    assert_eq!(oracle.escalate(NEAR, Outcome::Void, authority), Ok(()));
    assert_eq!(oracle.status(NEAR), OracleStatus::Final(Outcome::Void));
}

#[test]
fn the_gateway_refuses_for_each_of_its_faults() {
    let wording = |text: &str| ContractRef {
        description: text.as_bytes().to_vec(),
        event_date: Ts(50_000_000),
        resolution_source: b"the press".to_vec(),
    };
    let mut gateway = Gateway::new(1, 1);
    assert_eq!(gateway.account(b"one"), Ok(AccountIdx(0)));
    assert_eq!(gateway.account(b"two"), Err(GatewayError::AccountTableFull));
    assert_eq!(gateway.account(b"one"), Ok(AccountIdx(0)));
    let (index, registration) = gateway.contract(&wording("it rains")).unwrap();
    assert_eq!(index, ContractIdx(0));
    assert_eq!(
        registration,
        Some(Command::RegisterContract { contract: index, event_date: Ts(50_000_000) })
    );
    assert_eq!(gateway.contract(&wording("it rains")), Ok((index, None)));
    assert_eq!(gateway.contract(&wording("it rains.")), Err(GatewayError::ContractTableFull));
    let legs: Vec<(ContractRef, Side, Size, Price)> = (0..MAX_LEGS + 1)
        .map(|_| (wording("it rains"), Side::Yes, Size(1), Price(1)))
        .collect();
    assert_eq!(
        gateway.submit_request(b"one", Ts(9), &legs),
        Err(GatewayError::TooManyLegs)
    );
    let (registrations, command) = gateway.submit_request(b"one", Ts(9), &legs[..1]).unwrap();
    assert!(registrations.is_empty());
    match command {
        Command::SubmitRequest { requester, deadline, legs, n_legs } => {
            assert_eq!((requester, deadline, n_legs), (AccountIdx(0), Ts(9), 1));
            assert_eq!(legs[0].contract, ContractIdx(0));
        }
        _ => panic!("a request becomes a request"),
    }
}

#[test]
fn a_capacity_that_is_the_nil_link_does_not_start() {
    let oversized = Config { max_quotes: u32::MAX, ..Config::default() };
    assert_eq!(oversized.validate(), Err(ConfigError::CapacityTooLarge));
    assert!(matches!(Engine::new(oversized), Err(ConfigError::CapacityTooLarge)));
}
