use rfq::chain::custody::SettleError;
use rfq::account::AccountIdx;
use rfq::clock::TestClock;
use rfq::command::{Command, ExpectedFill, LegSpec};
use rfq::config::{Config, MAX_LEGS};
use rfq::contract::ContractIdx;
use rfq::event::{Event, QuoteRejectReason};
use rfq::quote::QuoteState;
use rfq::request::{ReqIdx, RequestState};
use rfq::reservation::ResOwner;
use rfq::settlement::TxStatus;
use rfq::types::{Amount, Dur, LegId, Price, Side, Size, Ts};
use rfq::engine::EngineError;
use rfq::runtime::harness::{Harness, HarnessError};

const REQUESTER: AccountIdx = AccountIdx(0);
const ALPHA: AccountIdx = AccountIdx(1);
const BETA: AccountIdx = AccountIdx(2);
const GAMMA: AccountIdx = AccountIdx(3);

const SEPTEMBER: ContractIdx = ContractIdx(0);
const OCTOBER: ContractIdx = ContractIdx(1);
const NOVEMBER: ContractIdx = ContractIdx(2);
const EVENT_DATE: Ts = Ts(50_000_000);
const DEADLINE: Ts = Ts(100_000);
const SIZE: Size = Size(100);

const LIMIT_A: Price = Price(650_000);
const LIMIT_B: Price = Price(500_000);
const LIMIT_C: Price = Price(400_000);
const FILL_A: Price = Price(610_000);
const FILL_B: Price = Price(450_000);
const FILL_C: Price = Price(380_000);

const SETTLING_TIME: Dur = Dur(5_000);

fn config() -> Config {
    Config {
        max_accounts: 4,
        max_reservations: 32,
        max_requests: 4,
        max_quotes: 32,
        max_contracts: 4,
        max_escrows: 16,
        max_legs: 4,
        max_quotes_per_leg: 4,
        max_quote_ttl: Dur(30_000),
        max_settling_time: SETTLING_TIME,
        ..Config::default()
    }
}

type TestHarness = Harness<TestClock, TestClock>;

fn maker_contribution(price: Price) -> Amount {
    SIZE.maker_contribution(price).unwrap()
}
fn requester_contribution(price: Price) -> Amount {
    SIZE.requester_contribution(price).unwrap()
}
fn requester_reservation() -> Amount {
    Amount(
        requester_contribution(LIMIT_A).0
            + requester_contribution(LIMIT_B).0
            + requester_contribution(LIMIT_C).0,
    )
}
fn requester_fill() -> Amount {
    Amount(
        requester_contribution(FILL_A).0
            + requester_contribution(FILL_B).0
            + requester_contribution(FILL_C).0,
    )
}

fn accepted_market(config: Config) -> (TestHarness, ReqIdx) {
    let mut harness =
        Harness::new(config, TestClock::at(Ts(1_000)), TestClock::at(Ts(1_000)), TestClock::at(Ts(1_000))).unwrap();
    harness.deposit(REQUESTER, requester_reservation()).unwrap();
    harness.deposit(ALPHA, maker_contribution(FILL_A)).unwrap();
    harness.deposit(BETA, maker_contribution(FILL_B)).unwrap();
    harness.deposit(GAMMA, maker_contribution(FILL_C)).unwrap();
    for contract in [SEPTEMBER, OCTOBER, NOVEMBER] {
        harness.apply(Command::RegisterContract { contract, event_date: EVENT_DATE }).unwrap();
    }

    let mut legs = [LegSpec::default(); MAX_LEGS];
    legs[0] = LegSpec { contract: SEPTEMBER, side: Side::Yes, size: SIZE, limit: LIMIT_A };
    legs[1] = LegSpec { contract: OCTOBER, side: Side::No, size: SIZE, limit: LIMIT_B };
    legs[2] = LegSpec { contract: NOVEMBER, side: Side::Yes, size: SIZE, limit: LIMIT_C };
    harness
        .apply(Command::SubmitRequest { requester: REQUESTER, deadline: DEADLINE, legs, n_legs: 3 })
        .unwrap();
    let request = harness.engine().ledger().requests().into_iter().next().unwrap().0;

    harness.set_both_clocks(Ts(1_100));
    for (maker, leg, price) in [(ALPHA, 0_u8, FILL_A), (BETA, 1, FILL_B), (GAMMA, 2, FILL_C)] {
        harness
            .apply(Command::SubmitQuote {
                maker,
                request,
                leg: LegId(leg),
                price,
                size: SIZE,
                expires_at: Ts(20_000),
            })
            .unwrap();
    }

    harness.set_both_clocks(Ts(1_200));
    let mut expected = [ExpectedFill::default(); MAX_LEGS];
    expected[0] = ExpectedFill { leg: LegId(0), price: FILL_A };
    expected[1] = ExpectedFill { leg: LegId(1), price: FILL_B };
    expected[2] = ExpectedFill { leg: LegId(2), price: FILL_C };
    harness.apply(Command::AcceptRequest { request, expected, n_legs: 3 }).unwrap();
    (harness, request)
}

fn nonce_of(harness: &TestHarness, request: ReqIdx) -> rfq::request::Nonce {
    harness.engine().ledger().request(request).unwrap().state().nonce().expect("Settling")
}

fn committed_claims(harness: &TestHarness, request: ReqIdx) -> Vec<(ResOwner, Amount)> {
    harness
        .engine()
        .ledger()
        .reservations()
        .into_iter()
        .filter(|(_, claim)| claim.committed_to() == Some(request))
        .map(|(_, claim)| (claim.owner(), claim.amount()))
        .collect()
}

#[test]
fn a_settled_nonce_moves_the_request_to_escrowed_and_discharges_the_claims() {
    let (mut harness, request) = accepted_market(config());
    let nonce = nonce_of(&harness, request);

    harness.submit_pending();
    assert_eq!(harness.custody().status(nonce), TxStatus::Pending);
    assert_eq!(harness.custody().ledger().escrows().len(), 0);

    let before = format!("{:?}", harness.engine().ledger());
    assert_eq!(harness.poll_settlement(request).unwrap(), TxStatus::Pending);
    assert_eq!(format!("{:?}", harness.engine().ledger()), before, "Pending moved state");
    assert_eq!(
        harness.engine().ledger().account(REQUESTER).unwrap().committed(),
        requester_fill(),
        "the claims are still held"
    );

    let included = harness.include_all();
    assert_eq!(included.len(), 1);
    assert!(included[0].outcome.is_ok());
    assert_eq!(included[0].status, TxStatus::Settled);
    assert_eq!(harness.custody().ledger().escrows().len(), 3);
    assert_eq!(
        harness.engine().ledger().request(request).unwrap().state(),
        RequestState::Escrowed
    );

    assert!(committed_claims(&harness, request).is_empty());
    for account in [REQUESTER, ALPHA, BETA, GAMMA] {
        let entry = harness.engine().ledger().account(account).unwrap();
        assert_eq!(entry.committed(), Amount(0));
        assert_eq!(entry.reserved(), Amount(0));
    }

    assert_eq!(harness.check_cross_system_invariants(), Ok(()));

    let after = format!("{:?}", harness.engine().ledger());
    assert!(harness.poll_settlement(request).is_err());
    assert_eq!(format!("{:?}", harness.engine().ledger()), after);
    harness.indexer_mut().rewind();
    assert_eq!(harness.pump_indexer(), 0);
    assert_eq!(format!("{:?}", harness.engine().ledger()), after);
}

fn laggy_config() -> Config {
    let indexer_lag = Dur(120_000);
    let base = config();
    let claim_window = Dur(base.max_request_ttl.0 + base.max_settling_time.0);
    Config {
        max_indexer_lag: indexer_lag,
        withdrawal_delay: Dur(claim_window.0 + indexer_lag.0 + 1),
        ..base
    }
}

#[test]
fn a_reverted_nonce_fails_the_settlement_and_returns_every_claim_to_free() {

    let (mut harness, request) = accepted_market(config());
    let nonce = nonce_of(&harness, request);
    let committed_before = committed_claims(&harness, request);
    assert_eq!(committed_before.len(), 4, "three makers and the requester");

    harness.custody_clock_mut().set(Ts(25_000));
    let divergence = harness.custody_now().saturating_sub(harness.engine_now());
    assert_ne!(divergence, Dur(0), "the two clocks must actually disagree");

    let quotes: Vec<_> = harness.engine().ledger().quotes().into_iter().map(|(handle, _)| handle).collect();
    harness.submit_pending();
    let included = harness.include_all();
    assert_eq!(included[0].outcome, Err(SettleError::QuoteExpired { leg: 0 }));
    assert_eq!(included[0].status, TxStatus::Reverted);
    assert!(!harness.custody().ledger().nonce_used(nonce), "a revert consumes nothing");
    assert_eq!(harness.custody().ledger().escrows().len(), 0, "no escrow formed");

    assert_eq!(
        harness.engine().ledger().request(request).unwrap().state(),
        RequestState::SettlementFailed
    );

    assert!(committed_claims(&harness, request).is_empty());
    for account in [REQUESTER, ALPHA, BETA, GAMMA] {
        let entry = harness.engine().ledger().account(account).unwrap();
        assert_eq!(entry.committed(), Amount(0), "account {account:?}");
        assert_eq!(entry.reserved(), Amount(0));
    }

    let notified: Vec<AccountIdx> = harness
        .emitted()
        .iter()
        .filter_map(|event| match event {
            Event::QuoteRejected { maker, reason: QuoteRejectReason::SettlementFailed, .. } => {
                Some(*maker)
            }
            _ => None,
        })
        .collect();
    assert_eq!(notified.len(), 3);
    for maker in [ALPHA, BETA, GAMMA] {
        assert!(notified.contains(&maker), "{maker:?} was not told");
    }
    assert!(quotes.iter().all(|handle| harness.engine().ledger().quote(*handle).is_none()));

    assert_eq!(harness.custody().ledger().balance(ALPHA), maker_contribution(FILL_A));
    assert_eq!(harness.custody().ledger().balance(BETA), maker_contribution(FILL_B));
    assert_eq!(harness.custody().ledger().balance(GAMMA), maker_contribution(FILL_C));
    assert_eq!(harness.check_cross_system_invariants(), Ok(()));

    assert!(harness.poll_settlement(request).is_err());
}

#[test]
fn insufficient_funds_at_settlement_is_unreachable_without_lag() {

    let config = config();
    let maker_window = config.max_quote_ttl;
    let requester_window = Dur(config.max_request_ttl.0 + config.max_settling_time.0);
    for window in [maker_window, requester_window] {
        assert!(
            config.withdrawal_delay > window,
            "a claim binding for {window:?} outlives a withdrawal landing after {:?}",
            config.withdrawal_delay
        );
    }
    assert_eq!(config.max_indexer_lag, Dur(0));
    assert_eq!(config.confirmations, 0);
    assert_eq!(config.max_settlement_inclusion_time, Dur(0));

    let (mut harness, _request) = accepted_market(config);
    harness.submit_pending();
    let included = harness.include_all();
    assert!(included[0].outcome.is_ok(), "with no lag there is nothing to be stale about");
    assert_eq!(harness.check_cross_system_invariants(), Ok(()));
}

#[test]
fn an_unknown_nonce_holds_every_claim_and_commits_nothing_twice() {
    let (mut harness, request) = accepted_market(config());
    let nonce = nonce_of(&harness, request);
    let committed_before = committed_claims(&harness, request);
    assert_eq!(committed_before.len(), 4, "three makers and the requester");

    harness.submit_pending();
    assert!(harness.lose_next_submission());
    assert_eq!(harness.custody().status(nonce), TxStatus::Unknown);

    for _ in 0..5 {
        assert_eq!(harness.poll_settlement(request).unwrap(), TxStatus::Unknown);
        assert!(matches!(
            harness.engine().ledger().request(request).unwrap().state(),
            RequestState::Settling { .. }
        ));

        assert_eq!(committed_claims(&harness, request), committed_before);

        assert_eq!(harness.engine().ledger().check_invariants(), Ok(()));
    }

    harness.resubmit(request).unwrap();
    let included = harness.include_all();
    assert!(included[0].outcome.is_ok());
    assert_eq!(
        harness.engine().ledger().request(request).unwrap().state(),
        RequestState::Escrowed
    );
    assert_eq!(harness.custody().ledger().escrows().len(), 3, "committed exactly once");
    assert_eq!(harness.check_cross_system_invariants(), Ok(()));
}

#[test]
fn reaching_the_settling_deadline_alerts_and_releases_nothing() {

    let (mut harness, request) = accepted_market(config());
    let nonce = nonce_of(&harness, request);
    let committed_before = committed_claims(&harness, request);
    harness.submit_pending();
    assert!(harness.lose_next_submission());

    assert_eq!(harness.poll_settlement(request).unwrap(), TxStatus::Unknown);
    assert!(!harness.emitted().iter().any(|e| matches!(e, Event::SettlementStalled { .. })));

    harness.set_both_clocks(Ts(1_200).checked_add(SETTLING_TIME).unwrap());
    assert_eq!(harness.poll_settlement(request).unwrap(), TxStatus::Unknown);

    let alerts: Vec<_> = harness
        .emitted()
        .iter()
        .filter_map(|event| match event {
            Event::SettlementStalled { nonce, status, .. } => Some((*nonce, *status)),
            _ => None,
        })
        .collect();
    assert_eq!(alerts, vec![(nonce, TxStatus::Unknown)], "an alert, not a state change");

    assert!(matches!(
        harness.engine().ledger().request(request).unwrap().state(),
        RequestState::Settling { .. }
    ));
    assert_eq!(committed_claims(&harness, request), committed_before);
    assert!(!harness.custody().ledger().nonce_used(nonce));
    assert_eq!(harness.check_cross_system_invariants(), Ok(()));

    harness.resubmit(request).unwrap();
    harness.include_all();
    assert_eq!(
        harness.engine().ledger().request(request).unwrap().state(),
        RequestState::Escrowed
    );
    assert_eq!(harness.custody().ledger().escrows().len(), 3);
}

#[test]
fn a_retry_before_inclusion_is_applied_exactly_once() {

    let (mut harness, request) = accepted_market(config());
    let nonce = nonce_of(&harness, request);

    harness.submit_pending();
    harness.resubmit(request).unwrap();
    assert_eq!(harness.custody().status(nonce), TxStatus::Pending);

    let included = harness.include_all();
    assert_eq!(included.len(), 2, "both submissions were included");
    assert!(included[0].outcome.is_ok());
    assert_eq!(included[1].outcome, Err(SettleError::NonceReused));
    assert_eq!(included[1].status, TxStatus::Settled, "the nonce did not change its mind");

    assert_eq!(harness.custody().ledger().escrows().len(), 3, "applied exactly once");
    assert_eq!(
        harness.engine().ledger().request(request).unwrap().state(),
        RequestState::Escrowed,
        "and the engine was told once, by the chain"
    );
    assert_eq!(harness.check_cross_system_invariants(), Ok(()));
}

#[test]
fn a_retry_after_inclusion_reverts_on_its_own_nonce_and_that_is_not_a_failure() {

    let (mut harness, request) = accepted_market(config());
    let nonce = nonce_of(&harness, request);

    harness.submit_pending();
    let first = harness.include_all();
    assert!(first[0].outcome.is_ok());
    assert_eq!(harness.custody().status(nonce), TxStatus::Settled);
    let escrows_after_first = harness.custody().ledger().escrows().len();
    assert_eq!(escrows_after_first, 3);

    harness.resubmit(request).unwrap();
    let retry = harness.include_all();
    assert_eq!(retry.len(), 1);
    assert_eq!(
        retry[0].outcome,
        Err(SettleError::NonceReused),
        "the submission genuinely reverted"
    );
    assert_eq!(
        retry[0].status,
        TxStatus::Settled,
        "and the nonce genuinely settled — only one of those is about the trade"
    );
    assert_eq!(harness.custody().status(nonce), TxStatus::Settled);

    assert_eq!(
        harness.engine().ledger().request(request).unwrap().state(),
        RequestState::Escrowed,
        "reading the retry's revert as failure would have released capital that is escrowed"
    );

    assert_eq!(harness.custody().ledger().escrows().len(), escrows_after_first);
    assert!(committed_claims(&harness, request).is_empty());
    assert_eq!(harness.check_cross_system_invariants(), Ok(()));
}

#[test]
fn a_retry_after_a_revert_finds_reverted_and_a_retry_after_a_settle_finds_settled() {

    let laggy = Config { max_requests: 4, ..laggy_config() };

    let (mut harness, request) = accepted_market(laggy);
    harness.submit_pending();
    harness.include_all();
    harness.resubmit(request).unwrap();
    let retry = harness.include_all();
    assert_eq!(retry[0].outcome, Err(SettleError::NonceReused));
    assert_eq!(retry[0].status, TxStatus::Settled);

    let (mut harness, second) = accepted_market(config());
    harness.custody_clock_mut().set(Ts(25_000));
    harness.submit_pending();
    let included = harness.include_all();
    assert_eq!(included[0].status, TxStatus::Reverted, "the precondition this needs");

    harness.resubmit(second).unwrap();
    let retry = harness.include_all();
    assert_eq!(
        retry[0].outcome,
        Err(SettleError::NonceReused),
        "the same error as a retry of a success"
    );
    assert_eq!(
        retry[0].status,
        TxStatus::Reverted,
        "and a different answer, which is where the difference belongs"
    );

    assert_eq!(harness.custody().ledger().escrows().len(), 0);
}

#[test]
fn a_nonce_whose_generation_has_moved_on_names_nothing() {

    let (mut harness, request) = accepted_market(config());
    let nonce = nonce_of(&harness, request);
    let before = format!("{:?}", harness.engine().ledger());

    for generation in [nonce.generation.wrapping_add(1), nonce.generation.wrapping_sub(1), 99] {
        let forged = rfq::request::Nonce { request: nonce.request, generation };
        assert_eq!(
            harness.apply(Command::PollSettlement { nonce: forged, status: TxStatus::Settled }),
            Err(HarnessError::Engine(EngineError::StaleNonce)),
            "generation {generation} must name nothing"
        );
    }

    assert_eq!(format!("{:?}", harness.engine().ledger()), before);
    assert!(matches!(
        harness.engine().ledger().request(request).unwrap().state(),
        RequestState::Settling { .. }
    ));

    assert_eq!(
        harness.apply(Command::PollSettlement {
            nonce: rfq::request::Nonce { request: 99, generation: 0 },
            status: TxStatus::Settled,
        }),
        Err(HarnessError::Engine(EngineError::StaleNonce))
    );

    harness.submit_pending();
    harness.include_all();
    assert_eq!(
        harness.engine().ledger().request(request).unwrap().state(),
        RequestState::Escrowed
    );
}

#[test]
fn a_committed_claim_names_a_consumed_quote_at_every_step_of_settling() {

    let (mut harness, request) = accepted_market(config());

    let check = |harness: &TestHarness| {
        assert_eq!(harness.engine().ledger().check_invariants(), Ok(()));
        let claims = committed_claims(harness, request);
        assert_eq!(claims.len(), 4);
        let mut makers = 0;
        for (owner, amount) in claims {
            assert_ne!(amount, Amount(0));
            match owner {
                ResOwner::Quote(quote) => {
                    let record = harness.engine().ledger().quote(quote).expect("must resolve");
                    assert_eq!(record.state(), QuoteState::Consumed);
                    assert_eq!(record.request(), Some(request));
                    makers += 1;
                }
                ResOwner::Request(owner) => assert_eq!(owner, request),
            }
        }
        assert_eq!(makers, 3, "one Consumed quote per leg");
        assert!(matches!(
            harness.engine().ledger().request(request).unwrap().state(),
            RequestState::Settling { .. }
        ));
    };

    check(&harness);
    harness.submit_pending();
    check(&harness);
    harness.poll_settlement(request).unwrap();
    check(&harness);
    harness.set_both_clocks(Ts(1_200).checked_add(SETTLING_TIME).unwrap());
    harness.poll_settlement(request).unwrap();
    check(&harness);

    harness.include_all();
    assert_eq!(
        harness.engine().ledger().request(request).unwrap().state(),
        RequestState::Escrowed
    );
    assert_eq!(harness.engine().ledger().check_invariants(), Ok(()));
}
