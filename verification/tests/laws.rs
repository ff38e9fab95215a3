//! What the library promises across calls, on concrete values.

use rfq::account::AccountIdx;
use rfq::chain::bundle::{Bundle, BundleLeg};
use rfq::chain::custody::{Custody, CustodyLedger, SettleError};
use rfq::chain::indexer::Indexer;
use rfq::chain::log::{ChainLog, ChainPayload};
use rfq::clock::TestClock;
use rfq::command::{Command, ExpectedFill, LegSpec};
use rfq::config::{Config, MAX_LEGS};
use rfq::contract::{Contract, ContractIdx, OracleStatus, Outcome};
use rfq::engine::{Engine, EngineError};
use rfq::event::{Event, EventBuffer};
use rfq::ledger::checks::InvariantViolation;
use rfq::ledger::Ledger;
use rfq::request::{Nonce, ReqIdx, RequestState};
use rfq::reservation::ResOwner;
use rfq::runtime::harness::{Harness, HarnessError};
use rfq::runtime::settlement::bundle_from;
use rfq::settlement::TxStatus;
use rfq::types::{Amount, Dur, LegId, Price, Side, Size, Ts, UNIT};

const REQUESTER: AccountIdx = AccountIdx(0);
const ALPHA: AccountIdx = AccountIdx(1);
const BETA: AccountIdx = AccountIdx(2);
const CONTRACT: ContractIdx = ContractIdx(0);
const EVENT_DATE: Ts = Ts(50_000_000);

fn config() -> Config {
    Config {
        max_accounts: 4,
        max_reservations: 16,
        max_requests: 4,
        max_quotes: 16,
        max_contracts: 4,
        max_escrows: 8,
        ..Config::default()
    }
}

fn submit(size: u64, limit: u32, deadline: u64) -> Command {
    let mut legs = [LegSpec::default(); MAX_LEGS];
    legs[0] =
        LegSpec { contract: CONTRACT, side: Side::Yes, size: Size(size), limit: Price(limit) };
    Command::SubmitRequest { requester: REQUESTER, deadline: Ts(deadline), legs, n_legs: 1 }
}

fn quote(maker: AccountIdx, request: ReqIdx, price: u32, size: u64, expires: u64) -> Command {
    Command::SubmitQuote {
        maker,
        request,
        leg: LegId(0),
        price: Price(price),
        size: Size(size),
        expires_at: Ts(expires),
    }
}

fn accept(request: ReqIdx, price: u32) -> Command {
    let mut expected = [ExpectedFill::default(); MAX_LEGS];
    expected[0] = ExpectedFill { leg: LegId(0), price: Price(price) };
    Command::AcceptRequest { request, expected, n_legs: 1 }
}

/// A funded engine with one contract.
fn engine() -> (Engine, EventBuffer) {
    let mut engine = Engine::new(config()).unwrap();
    let mut events = EventBuffer::with_capacity(16);
    for account in [REQUESTER, ALPHA, BETA] {
        engine
            .apply(Command::CreditAccount { account, free: Amount(100_000_000) }, Ts(0), &mut events)
            .unwrap();
    }
    engine
        .apply(
            Command::RegisterContract { contract: CONTRACT, event_date: EVENT_DATE },
            Ts(0),
            &mut events,
        )
        .unwrap();
    (engine, events)
}

fn opened(events: &mut EventBuffer) -> ReqIdx {
    match events.drain()[0] {
        Event::RequestOpened { request, .. } => request,
        _ => panic!("an opened request is announced"),
    }
}

#[test]
fn a_release_undoes_its_reserve() {
    let mut ledger = Ledger::new(&config());
    ledger.apply_mirror_update(ALPHA, Amount(100)).unwrap();
    let first = ledger.open_quote().unwrap();
    let second = ledger.open_quote().unwrap();
    ledger.reserve(ALPHA, Amount(30), Ts(500), ResOwner::Quote(first)).unwrap();
    let before = *ledger.account(ALPHA).unwrap();
    let claim = ledger.reserve(ALPHA, Amount(70), Ts(400), ResOwner::Quote(second)).unwrap();
    assert_eq!(ledger.account(ALPHA).unwrap().reserved(), Amount(100));
    ledger.release(claim).unwrap();
    assert_eq!(*ledger.account(ALPHA).unwrap(), before);
    assert_eq!(ledger.quote(second).unwrap().claim(), None);
    assert_eq!(ledger.reservation_count(), 1);
}

#[test]
fn normalising_takes_the_expired_and_nothing_else() {
    let mut ledger = Ledger::new(&config());
    ledger.apply_mirror_update(ALPHA, Amount(100)).unwrap();
    let quotes = [
        ledger.open_quote().unwrap(),
        ledger.open_quote().unwrap(),
        ledger.open_quote().unwrap(),
    ];
    let request = ledger.open_request().unwrap();
    ledger.reserve(ALPHA, Amount(1), Ts(300), ResOwner::Quote(quotes[0])).unwrap();
    ledger.reserve(ALPHA, Amount(2), Ts(301), ResOwner::Quote(quotes[1])).unwrap();
    let committed = ledger.reserve(ALPHA, Amount(4), Ts(100), ResOwner::Quote(quotes[2])).unwrap();
    ledger.commit(committed, request).unwrap();
    assert_eq!(ledger.release_expired(ALPHA, Ts(300)), Ok(1));
    let entry = ledger.account(ALPHA).unwrap();
    assert_eq!((entry.reserved(), entry.committed()), (Amount(2), Amount(4)));
    assert_eq!(ledger.release_expired(ALPHA, Ts(300)), Ok(0), "once is enough");
    assert_eq!(ledger.check_normalised(ALPHA, Ts(300)), Ok(()));
    assert_eq!(ledger.reservation(committed).unwrap().expires_at(), None);
}

#[test]
fn a_refusal_leaves_nothing_but_its_normalisation() {
    let (mut engine, mut events) = engine();
    engine.apply(submit(10, 400_000, 2_000), Ts(1_000), &mut events).unwrap();
    events.clear();
    // Refused at an instant at which nothing of the requester's has expired.
    let before = format!("{:?}", engine);
    assert!(engine.apply(submit(1_000, 400_000, 9_000), Ts(1_500), &mut events).is_err());
    assert_eq!(format!("{:?}", engine), before);
    assert!(events.is_empty());
    // Refused once the claim is dead: the claim goes, and nothing else.
    assert!(engine.apply(submit(1_000, 400_000, 9_000), Ts(2_000), &mut events).is_err());
    assert_eq!(engine.ledger().reservation_count(), 0);
    assert_eq!(engine.ledger().request_count(), 1);
    assert!(events.is_empty());
}

#[test]
fn only_a_final_answer_moves_a_settling_request() {
    let (mut engine, mut events) = engine();
    engine.apply(submit(10, 400_000, 9_000), Ts(1_000), &mut events).unwrap();
    let request = opened(&mut events);
    engine.apply(quote(ALPHA, request, 390_000, 10, 9_000), Ts(1_000), &mut events).unwrap();
    engine.apply(accept(request, 390_000), Ts(1_100), &mut events).unwrap();
    events.clear();
    let nonce = Nonce::of(request);
    let before = format!("{:?}", engine);
    for status in [TxStatus::Unknown, TxStatus::Pending] {
        for now in [Ts(1_100), Ts(61_099), Ts(1_000_000)] {
            engine.apply(Command::PollSettlement { nonce, status }, now, &mut events).unwrap();
            assert_eq!(format!("{:?}", engine), before);
        }
    }
    // Each status was alerted on once, at the one instant past the deadline.
    assert_eq!(events.drain().len(), 2);
    let settled = Command::PollSettlement { nonce, status: TxStatus::Settled };
    engine.apply(settled, Ts(1_200), &mut events).unwrap();
    let state = engine.ledger().request(request).unwrap().state();
    assert_eq!(state, RequestState::Escrowed);
    // Terminal is terminal.
    for status in [TxStatus::Settled, TxStatus::Reverted] {
        assert_eq!(
            engine.apply(Command::PollSettlement { nonce, status }, Ts(1_300), &mut events),
            Err(EngineError::RequestNotSettling)
        );
    }
    assert_eq!(
        engine.apply(Command::RejectRequest { request }, Ts(1_300), &mut events),
        Err(EngineError::RequestNotOpen)
    );
    assert_eq!(engine.ledger().request(request).unwrap().state(), state);
}

#[test]
fn a_price_outside_the_limit_is_admitted_and_never_published() {
    let (mut engine, mut events) = engine();
    engine.apply(submit(10, 400_000, 9_000), Ts(1_000), &mut events).unwrap();
    let request = opened(&mut events);
    engine.apply(quote(ALPHA, request, 400_001, 10, 9_000), Ts(1_000), &mut events).unwrap();
    assert!(events.is_empty(), "nothing to show the requester");
    assert_eq!(
        engine.ledger().account(ALPHA).unwrap().reserved(),
        Amount(10 * (1_000_000 - 400_001)),
        "and its capital is reserved all the same"
    );
    engine.apply(quote(BETA, request, 400_000, 10, 9_000), Ts(1_000), &mut events).unwrap();
    assert_eq!(
        events.drain(),
        vec![Event::BestSelectionChanged { request, leg: LegId(0), price: Price(400_000) }]
    );
}

#[test]
fn what_an_accept_commits_is_what_the_bundle_debits() {
    let (mut engine, mut events) = engine();
    engine.apply(submit(10, 400_000, 9_000), Ts(1_000), &mut events).unwrap();
    let request = opened(&mut events);
    engine.apply(quote(ALPHA, request, 380_000, 25, 9_000), Ts(1_000), &mut events).unwrap();
    events.clear();
    engine.apply(accept(request, 390_000), Ts(1_100), &mut events).unwrap();
    let bundle = bundle_from(&events.drain()[0]).unwrap();
    assert_eq!(bundle.nonce, Nonce::of(request));
    assert_eq!(bundle.legs().len(), 1);
    let leg = bundle.legs()[0];
    // The leg's size, not the quote's; the quote's price, not the expectation's.
    assert_eq!((leg.size, leg.fill_price), (Size(10), Price(380_000)));
    assert_eq!(leg.requester_contribution(), Some(Amount(3_800_000)));
    assert_eq!(leg.maker_contribution(), Some(Amount(6_200_000)));
    assert_eq!(engine.ledger().account(REQUESTER).unwrap().committed(), Amount(3_800_000));
    assert_eq!(engine.ledger().account(ALPHA).unwrap().committed(), Amount(6_200_000));
    assert_eq!(engine.ledger().account(REQUESTER).unwrap().reserved(), Amount(0));
    assert_eq!(bundle_from(&Event::BestSelectionChanged {
        request,
        leg: LegId(0),
        price: Price(1),
    }), None);
}

#[test]
fn escrow_cannot_form_at_or_after_the_event() {
    // The latest admissible instant is one short of the event less the horizon.
    let (mut engine, mut events) = engine();
    let horizon = config().min_horizon.0;
    let last = EVENT_DATE.0 - horizon;
    assert_eq!(
        engine.apply(submit(1, 1, last + 10), Ts(last), &mut events),
        Err(EngineError::ContractTooNear)
    );
    engine.apply(submit(1, 1, last + 10), Ts(last - 1), &mut events).unwrap();
    assert!(config().max_request_ttl.0 + config().max_settling_time.0 < horizon);
}

#[test]
fn a_pending_withdrawal_is_still_there_for_settlement() {
    let mut ledger = CustodyLedger::new(Dur(600_000), 2, 2);
    ledger.deposit(REQUESTER, Amount(4_000_000)).unwrap();
    ledger.deposit(ALPHA, Amount(6_000_000)).unwrap();
    ledger.request_withdrawal(ALPHA, Amount(6_000_000), Ts(1_000)).unwrap();
    assert_eq!(ledger.available(ALPHA), Amount(0));
    assert_eq!(ledger.balance(ALPHA), Amount(6_000_000));

    let mut legs = [BundleLeg::default(); MAX_LEGS];
    legs[0] = BundleLeg {
        contract: CONTRACT,
        side: Side::Yes,
        size: Size(10),
        maker: ALPHA,
        fill_price: Price(400_000),
        quote_expiry: Ts(2_000),
    };
    let bundle =
        Bundle { nonce: Nonce { request: 1, generation: 1 }, requester: REQUESTER, legs, n_legs: 1 };
    ledger.settle(&bundle, Ts(1_500)).unwrap();
    assert_eq!(ledger.balance(ALPHA), Amount(0));
    // The withdrawal matures and pays what is left of it: nothing.
    assert_eq!(ledger.execute_withdrawal(ALPHA, Ts(601_000)), Ok(Amount(0)));
    assert_eq!((ledger.deposited(), ledger.withdrawn()), (Amount(10_000_000), Amount(0)));

    // And the escrow pays its whole notional, once.
    let id = rfq::escrow::EscrowId(0);
    assert_eq!(ledger.settle_escrow(id, CONTRACT, Outcome::No), Ok(true));
    assert_eq!(ledger.balance(ALPHA), Amount(10_000_000));
    assert_eq!(ledger.settle_escrow(id, CONTRACT, Outcome::Yes), Ok(false));
    assert_eq!(ledger.balance(ALPHA), Amount(10_000_000));
    assert_eq!(ledger.balance(REQUESTER), Amount(0));
}

#[test]
fn every_change_of_a_balance_is_announced() {
    let mut ledger = CustodyLedger::new(Dur(100), 2, 2);
    let last = |ledger: &CustodyLedger| ledger.log().entries().last().unwrap().payload;
    ledger.deposit(ALPHA, Amount(50)).unwrap();
    assert_eq!(
        last(&ledger),
        ChainPayload::BalanceChanged { account: ALPHA, available: Amount(50) }
    );
    ledger.request_withdrawal(ALPHA, Amount(20), Ts(0)).unwrap();
    assert_eq!(
        last(&ledger),
        ChainPayload::BalanceChanged { account: ALPHA, available: Amount(30) }
    );
    ledger.execute_withdrawal(ALPHA, Ts(100)).unwrap();
    assert_eq!(
        last(&ledger),
        ChainPayload::BalanceChanged { account: ALPHA, available: Amount(30) }
    );
    assert_eq!(ledger.log().entries().len(), 3);
}

#[test]
fn a_dispute_never_times_out() {
    let grace = Dur(100);
    let contract = Contract::new(Ts(1_000));
    assert_eq!(contract.outcome_at(Ts(1_100), grace), None);
    assert_eq!(contract.outcome_at(Ts(1_101), grace), Some(Outcome::Void));
    let disputed = Contract { oracle_status: OracleStatus::InProgress, ..contract };
    assert_eq!(disputed.outcome_at(Ts(u64::MAX), grace), None);
    let decided = Contract { oracle_status: OracleStatus::Final(Outcome::No), ..contract };
    assert_eq!(decided.outcome_at(Ts(0), grace), Some(Outcome::No));
}

#[test]
fn a_reorganisation_within_the_depth_touches_nothing_delivered() {
    let credit = |amount: u64| ChainPayload::BalanceChanged {
        account: ALPHA,
        available: Amount(amount),
    };
    let mut log = ChainLog::new();
    let mut indexer = Indexer::new(2);
    log.append(credit(1));
    log.advance_block();
    log.append(credit(2));
    log.advance_block();
    assert_eq!(
        indexer.drain(&log),
        vec![Command::CreditAccount { account: ALPHA, free: Amount(1) }]
    );
    // Blocks 1 and 2 vanish; block 0 was delivered and stays.
    log.reorg(1);
    assert_eq!(log.entries().len(), 1);
    log.advance_block();
    log.append(credit(3));
    log.advance_block();
    log.advance_block();
    assert_eq!(
        indexer.drain(&log),
        vec![Command::CreditAccount { account: ALPHA, free: Amount(3) }]
    );
    indexer.rewind();
    assert_eq!(indexer.drain(&log), vec![]);
    assert_eq!(indexer.delivered_count(), 2);
}

#[test]
fn the_mirror_keeps_step_with_custody() {
    let clock = TestClock::at(Ts(1_000));
    let mut harness = Harness::new(config(), clock, clock, clock).unwrap();
    harness.deposit(ALPHA, Amount(50)).unwrap();
    harness.deposit(BETA, Amount(70)).unwrap();
    harness.request_withdrawal(BETA, Amount(30)).unwrap();
    let mirrored = |harness: &Harness<TestClock, TestClock>, account: AccountIdx| {
        harness.engine().ledger().account(account).unwrap().free()
    };
    assert_eq!(mirrored(&harness, ALPHA), Amount(50));
    assert_eq!(mirrored(&harness, BETA), Amount(40));
    assert_eq!(harness.check_cross_system_invariants(), Ok(()));

    // Under lag the mirror is something the chain has said, and catches up on resuming.
    let laggy = Config { max_indexer_lag: Dur(1_000), ..config() };
    let mut harness = Harness::new(laggy, clock, clock, clock).unwrap();
    harness.deposit(ALPHA, Amount(50)).unwrap();
    harness.stall_indexer();
    harness.deposit(ALPHA, Amount(5)).unwrap();
    harness.deposit(ALPHA, Amount(6)).unwrap();
    assert_eq!(mirrored(&harness, ALPHA), Amount(50));
    assert_eq!(harness.check_settlement_invariants(), Ok(()));
    harness.resume_indexer();
    assert_eq!(mirrored(&harness, ALPHA), Amount(61));
}

#[test]
fn a_mirror_nobody_published_is_found_out() {
    let clock = TestClock::at(Ts(1_000));
    let mut harness = Harness::new(config(), clock, clock, clock).unwrap();
    harness.deposit(ALPHA, Amount(50)).unwrap();
    harness.apply(Command::CreditAccount { account: ALPHA, free: Amount(51) }).unwrap();
    assert_eq!(
        harness.check_settlement_invariants(),
        Err(rfq::runtime::harness::CrossSystemViolation::MirrorDisagrees(ALPHA))
    );
}

#[test]
fn contributions_sum_to_the_notional_at_every_price() {
    for price in [0, 1, 333_333, 999_999, UNIT] {
        let size = Size(7);
        let requester = size.requester_contribution(Price(price)).unwrap();
        let maker = size.maker_contribution(Price(price)).unwrap();
        assert_eq!(requester.0 + maker.0, size.notional().unwrap().0);
        assert_eq!(requester.0, 7 * u64::from(price));
    }
    assert_eq!(Size(7).maker_contribution(Price(UNIT + 1)), None);
    assert_eq!(Size(u64::MAX).notional(), None);
}

#[test]
fn a_dry_run_answers_what_settling_would() {
    let clock = TestClock::at(Ts(1_000));
    let mut custody = Custody::new(clock, Dur(600_000), 2, 1);
    custody.deposit(REQUESTER, Amount(8_000_000)).unwrap();
    custody.deposit(ALPHA, Amount(6_000_000)).unwrap();
    let bundle = |request: u32, size: u64, expiry: u64| {
        let mut legs = [BundleLeg::default(); MAX_LEGS];
        legs[0] = BundleLeg {
            contract: CONTRACT,
            side: Side::Yes,
            size: Size(size),
            maker: ALPHA,
            fill_price: Price(400_000),
            quote_expiry: Ts(expiry),
        };
        Bundle { nonce: Nonce { request, generation: 0 }, requester: REQUESTER, legs, n_legs: 1 }
    };
    // A nonce that reverted through inclusion is spent, for a dry run as for a settlement.
    custody.submit(bundle(1, 1, 1_000));
    custody.include_all();
    assert_eq!(custody.status(bundle(1, 1, 1_000).nonce), TxStatus::Reverted);
    for bundle in [
        bundle(1, 1, 2_000),
        bundle(2, 1, 1_000),
        bundle(2, 100, 2_000),
        bundle(2, 1, 2_000),
        bundle(2, 1, 2_000),
        bundle(3, 1, 2_000),
    ] {
        let checked = custody.precheck(&bundle);
        assert_eq!(checked, custody.precheck_at(&bundle, Ts(1_000)));
        assert_eq!(checked, custody.settle(&bundle).map(|_| ()));
    }
    assert_eq!(custody.precheck(&bundle(1, 1, 2_000)), Err(SettleError::NonceReused));
    assert_eq!(custody.precheck(&bundle(3, 1, 2_000)), Err(SettleError::EscrowCapacityExhausted));
}

#[test]
fn stored_totals_are_the_sums_over_the_claims() {
    let mut ledger = Ledger::new(&config());
    ledger.apply_mirror_update(ALPHA, Amount(100)).unwrap();
    ledger.apply_mirror_update(BETA, Amount(100)).unwrap();
    let request = ledger.open_request().unwrap();
    for (account, amount, expiry) in
        [(ALPHA, 1, 300), (BETA, 2, 200), (ALPHA, 4, 200), (ALPHA, 8, 300)]
    {
        let quote = ledger.open_quote().unwrap();
        let claim =
            ledger.reserve(account, Amount(amount), Ts(expiry), ResOwner::Quote(quote)).unwrap();
        assert_eq!(ledger.quote(quote).unwrap().claim(), Some(claim));
        if amount == 4 {
            ledger.commit(claim, request).unwrap();
        }
    }
    assert_eq!(ledger.check_structural_invariants(), Ok(()));
    for account in [ALPHA, BETA] {
        let sum = |committed: bool| -> u64 {
            ledger
                .reservations()
                .into_iter()
                .filter(|(_, claim)| {
                    claim.account() == account && claim.is_committed() == committed
                })
                .map(|(_, claim)| claim.amount().0)
                .sum()
        };
        let entry = ledger.account(account).unwrap();
        assert_eq!((entry.reserved().0, entry.committed().0), (sum(false), sum(true)));
    }
    assert_eq!(ledger.account(ALPHA).unwrap().reserved(), Amount(9));
}

#[test]
fn a_claim_committed_to_a_request_that_is_not_settling_is_incoherent() {
    let mut ledger = Ledger::new(&config());
    ledger.apply_mirror_update(REQUESTER, Amount(100)).unwrap();
    let request = ledger.open_request().unwrap();
    let claim =
        ledger.reserve(REQUESTER, Amount(5), Ts(300), ResOwner::Request(request)).unwrap();
    assert_eq!(ledger.check_claim_state_coherence(), Ok(()));
    ledger.commit(claim, request).unwrap();
    assert_eq!(ledger.check_invariants(), Ok(()));
    assert_eq!(
        ledger.check_claim_state_coherence(),
        Err(InvariantViolation::CommittedClaimRequestNotSettling(claim))
    );
}

#[test]
fn coherence_holds_from_opening_to_escrow() {
    let (mut engine, mut events) = engine();
    let coherent =
        |engine: &Engine| assert_eq!(engine.ledger().check_claim_state_coherence(), Ok(()));
    engine.apply(submit(10, 400_000, 9_000), Ts(1_000), &mut events).unwrap();
    let request = opened(&mut events);
    coherent(&engine);
    engine.apply(quote(ALPHA, request, 390_000, 10, 9_000), Ts(1_000), &mut events).unwrap();
    coherent(&engine);
    engine.apply(accept(request, 390_000), Ts(1_100), &mut events).unwrap();
    coherent(&engine);
    let nonce = Nonce::of(request);
    let settled = Command::PollSettlement { nonce, status: TxStatus::Settled };
    engine.apply(settled, Ts(1_200), &mut events).unwrap();
    coherent(&engine);
    assert_eq!(engine.ledger().reservation_count(), 0);
}

#[test]
fn a_retry_resends_only_what_was_sent_under_the_requests_own_nonce() {
    let clock = TestClock::at(Ts(1_000));
    let mut harness = Harness::new(config(), clock, clock, clock).unwrap();
    harness.deposit(REQUESTER, Amount(4_000_000)).unwrap();
    harness.deposit(ALPHA, Amount(10_000_000)).unwrap();
    harness
        .apply(Command::RegisterContract { contract: CONTRACT, event_date: EVENT_DATE })
        .unwrap();
    harness.apply(submit(10, 400_000, 9_000)).unwrap();
    let request = harness.engine().ledger().requests()[0].0;
    harness.apply(quote(ALPHA, request, 390_000, 10, 9_000)).unwrap();
    harness.apply(accept(request, 390_000)).unwrap();
    harness.submit_pending();
    assert_eq!(harness.resubmit(request).unwrap().nonce, Nonce::of(request));

    // A handle to the same slot in another generation names no bundle that was sent.
    let mut ledger = Ledger::new(&config());
    let first = ledger.open_request().unwrap();
    ledger.close_request(first).unwrap();
    let later = ledger.open_request().unwrap();
    assert_eq!(later.index(), request.index());
    assert_ne!(later.generation(), request.generation());
    assert_eq!(
        harness.resubmit(later),
        Err(HarnessError::Engine(EngineError::RequestNotSettling))
    );
}

#[test]
fn a_malformed_bundle_is_refused_as_such_whatever_its_nonce() {
    let clock = TestClock::at(Ts(1_000));
    let mut custody = Custody::new(clock, Dur(600_000), 2, 4);
    custody.deposit(REQUESTER, Amount(4_000_000)).unwrap();
    custody.deposit(ALPHA, Amount(6_000_000)).unwrap();
    let mut legs = [BundleLeg::default(); MAX_LEGS];
    legs[0] = BundleLeg {
        contract: CONTRACT,
        side: Side::Yes,
        size: Size(1),
        maker: ALPHA,
        fill_price: Price(400_000),
        quote_expiry: Ts(2_000),
    };
    let settled =
        Bundle { nonce: Nonce { request: 1, generation: 0 }, requester: REQUESTER, legs, n_legs: 1 };
    let reverted = Bundle { nonce: Nonce { request: 2, generation: 0 }, n_legs: 0, ..settled };
    custody.submit(settled);
    custody.submit(reverted);
    let included = custody.include_all();
    assert_eq!(included[0].status, TxStatus::Settled);
    assert_eq!(included[1].status, TxStatus::Reverted);
    assert_eq!(included[1].outcome, Err(SettleError::NoLegs));

    let entries = custody.log().entries().len();
    for (answered, status) in [(settled, TxStatus::Settled), (reverted, TxStatus::Reverted)] {
        for (n_legs, error) in [
            (0, SettleError::NoLegs),
            (200, SettleError::TooManyLegs),
            (1, SettleError::NonceReused),
        ] {
            let again = Bundle { n_legs, ..answered };
            assert_eq!(custody.precheck(&again), Err(error));
            assert_eq!(custody.settle(&again), Err(error));
            let tx = custody.include_at(&again, Ts(1_000));
            assert_eq!((tx.outcome, tx.status), (Err(error), status));
        }
    }
    assert_eq!(custody.log().entries().len(), entries, "an answered nonce announces nothing more");
}

#[test]
fn the_expiry_chains_hold_the_uncommitted_claims() {
    let mut ledger = Ledger::new(&config());
    ledger.apply_mirror_update(ALPHA, Amount(100)).unwrap();
    assert_eq!(ledger.check_expiry_chains(), Ok(0));
    let request = ledger.open_request().unwrap();
    let mut claims = Vec::new();
    // Two of them expire together, and nothing here is ever normalised.
    for expiry in [300, 200, 300, 1] {
        let quote = ledger.open_quote().unwrap();
        claims.push(ledger.reserve(ALPHA, Amount(5), Ts(expiry), ResOwner::Quote(quote)).unwrap());
    }
    assert_eq!(ledger.check_expiry_chains(), Ok(4));
    ledger.commit(claims[1], request).unwrap();
    assert_eq!(ledger.check_expiry_chains(), Ok(3));
    ledger.release(claims[0]).unwrap();
    assert_eq!(ledger.check_expiry_chains(), Ok(2));
}

#[test]
fn a_request_is_dead_before_a_later_withdrawal_lands() {
    let config = config();
    let window = config.max_request_ttl.0 + config.max_settling_time.0;
    assert!(config.withdrawal_delay.0 > window);
    let clock = TestClock::at(Ts(1_000));
    let mut harness = Harness::new(config, clock, clock, clock).unwrap();
    harness.deposit(REQUESTER, Amount(4_000_000)).unwrap();
    harness
        .apply(Command::RegisterContract { contract: CONTRACT, event_date: EVENT_DATE })
        .unwrap();
    let last = 1_000 + config.max_request_ttl.0;
    harness.apply(submit(10, 400_000, last)).unwrap();
    let claim = harness.engine().ledger().reservations()[0].1.expires_at();
    assert_eq!(claim, Some(Ts(last)));
    let lands = harness.request_withdrawal(REQUESTER, Amount(4_000_000)).unwrap();
    assert!(last + config.max_settling_time.0 < lands.0);
}
