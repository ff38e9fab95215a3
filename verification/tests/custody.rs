use rfq::chain::custody::{CustodyError, SettleError};
use rfq::account::AccountIdx;
use rfq::clock::TestClock;
use rfq::command::{Command, ExpectedFill, LegSpec};
use rfq::config::{Config, MAX_LEGS};
use rfq::contract::{ContractIdx, Outcome};
use rfq::request::{ReqIdx, RequestState};
use rfq::types::{Amount, Dur, LegId, Price, Side, Size, Ts};
use rfq::runtime::harness::{CrossSystemViolation, Harness, HarnessError};

const REQUESTER: AccountIdx = AccountIdx(0);
const ALPHA: AccountIdx = AccountIdx(1);
const BETA: AccountIdx = AccountIdx(2);
const GAMMA: AccountIdx = AccountIdx(3);

const SEPTEMBER: ContractIdx = ContractIdx(0);
const OCTOBER: ContractIdx = ContractIdx(1);
const NOVEMBER: ContractIdx = ContractIdx(2);
const EVENT_DATE: Ts = Ts(50_000_000);
const DEADLINE: Ts = Ts(100_000);
const SIZE: Size = Size(100);

const LIMIT_A: Price = Price(650_000);
const LIMIT_B: Price = Price(500_000);
const LIMIT_C: Price = Price(400_000);
const FILL_A: Price = Price(610_000);
const FILL_B: Price = Price(450_000);
const FILL_C: Price = Price(380_000);

fn config() -> Config {
    Config {
        max_accounts: 4,
        max_reservations: 32,
        max_requests: 4,
        max_quotes: 32,
        max_contracts: 4,
        max_escrows: 16,
        max_legs: 4,
        max_quotes_per_leg: 4,
        max_quote_ttl: Dur(30_000),
        ..Config::default()
    }
}

fn laggy_config() -> Config {
    let base = config();
    let indexer_lag = Dur(400_000);
    let claim_window = Dur(base.max_request_ttl.0 + base.max_settling_time.0);
    Config {
        max_indexer_lag: indexer_lag,
        withdrawal_delay: Dur(claim_window.0 + indexer_lag.0 + 1),
        ..base
    }
}

type TestHarness = Harness<TestClock, TestClock>;

fn maker_contribution(price: Price) -> Amount {
    SIZE.maker_contribution(price).unwrap()
}

fn requester_contribution(price: Price) -> Amount {
    SIZE.requester_contribution(price).unwrap()
}

fn requester_reservation() -> Amount {
    Amount(
        requester_contribution(LIMIT_A).0
            + requester_contribution(LIMIT_B).0
            + requester_contribution(LIMIT_C).0,
    )
}

fn requester_fill() -> Amount {
    Amount(
        requester_contribution(FILL_A).0
            + requester_contribution(FILL_B).0
            + requester_contribution(FILL_C).0,
    )
}

fn funded_harness() -> TestHarness {
    let mut harness =
        Harness::new(config(), TestClock::at(Ts(1_000)), TestClock::at(Ts(1_000)), TestClock::at(Ts(1_000))).unwrap();
    harness.deposit(REQUESTER, requester_reservation()).unwrap();
    harness.deposit(ALPHA, maker_contribution(FILL_A)).unwrap();
    harness.deposit(BETA, maker_contribution(FILL_B)).unwrap();
    harness.deposit(GAMMA, maker_contribution(FILL_C)).unwrap();
    for contract in [SEPTEMBER, OCTOBER, NOVEMBER] {
        harness.apply(Command::RegisterContract { contract, event_date: EVENT_DATE }).unwrap();
    }
    harness
}

fn three_leg_request() -> Command {
    three_leg_request_with_deadline(DEADLINE)
}

fn three_leg_request_with_deadline(deadline: Ts) -> Command {
    let mut legs = [LegSpec::default(); MAX_LEGS];
    legs[0] = LegSpec { contract: SEPTEMBER, side: Side::Yes, size: SIZE, limit: LIMIT_A };
    legs[1] = LegSpec { contract: OCTOBER, side: Side::No, size: SIZE, limit: LIMIT_B };
    legs[2] = LegSpec { contract: NOVEMBER, side: Side::Yes, size: SIZE, limit: LIMIT_C };
    Command::SubmitRequest { requester: REQUESTER, deadline, legs, n_legs: 3 }
}

fn accept() -> [ExpectedFill; MAX_LEGS] {
    let mut expected = [ExpectedFill::default(); MAX_LEGS];
    expected[0] = ExpectedFill { leg: LegId(0), price: FILL_A };
    expected[1] = ExpectedFill { leg: LegId(1), price: FILL_B };
    expected[2] = ExpectedFill { leg: LegId(2), price: FILL_C };
    expected
}

fn matched_market(harness: &mut TestHarness) -> ReqIdx {
    harness.apply(three_leg_request()).unwrap();
    let request = harness
        .engine()
        .ledger()
        .requests()
        .into_iter()
        .next()
        .map(|(handle, _)| handle)
        .expect("the request was opened");

    harness.engine_clock_mut().advance(Dur(100));
    for (maker, leg, price) in
        [(ALPHA, 0_u8, FILL_A), (BETA, 1, FILL_B), (GAMMA, 2, FILL_C)]
    {
        harness
            .apply(Command::SubmitQuote {
                maker,
                request,
                leg: LegId(leg),
                price,
                size: SIZE,
                expires_at: Ts(20_000),
            })
            .unwrap();
    }

    harness.engine_clock_mut().advance(Dur(100));
    harness
        .apply(Command::AcceptRequest { request, expected: accept(), n_legs: 3 })
        .unwrap();
    request
}

#[test]
fn a_bundle_whose_funds_are_all_present_settles() {
    let mut harness = funded_harness();
    let request = matched_market(&mut harness);
    assert_eq!(harness.pending_bundles().len(), 1, "accept emitted exactly one intent");

    assert_eq!(
        harness.engine().ledger().account(REQUESTER).unwrap().committed(),
        requester_fill()
    );
    assert_eq!(harness.custody().ledger().escrows().len(), 0);

    let RequestState::Settling { nonce, .. } =
        harness.engine().ledger().request(request).unwrap().state()
    else {
        panic!("Settling");
    };
    let outcomes = harness.settle_pending();
    assert_eq!(outcomes.len(), 1);
    let receipt = outcomes[0].expect("all funds are present");
    assert_eq!(receipt.n_escrows, 3, "one escrow per leg");

    for maker in [ALPHA, BETA, GAMMA] {
        assert_eq!(harness.custody().ledger().balance(maker), Amount(0));
    }

    assert_eq!(
        harness.custody().ledger().balance(REQUESTER),
        Amount(requester_reservation().0 - requester_fill().0)
    );

    let escrows: Vec<_> =
        harness.custody().ledger().escrows().into_iter().map(|(_, escrow)| *escrow).collect();
    assert_eq!(escrows.len(), 3);
    for (escrow, price) in escrows.iter().zip([FILL_A, FILL_B, FILL_C]) {
        assert_eq!(escrow.requester_contribution(), requester_contribution(price));
        assert_eq!(escrow.maker_contribution(), maker_contribution(price));
        assert_eq!(escrow.notional(), SIZE.notional().unwrap());
        assert!(escrow.is_locked());
    }

    assert_eq!(escrows[0].side(), Side::Yes);
    assert_eq!(escrows[1].side(), Side::No);
    assert_eq!(escrows[2].side(), Side::Yes);

    assert!(harness.custody().ledger().nonce_used(nonce));

    harness.check_cross_system_invariants().unwrap();
}

#[test]
fn a_resubmitted_bundle_bounces_off_its_own_nonce() {

    let mut harness = funded_harness();
    matched_market(&mut harness);
    let bundle = harness.pending_bundles()[0];
    harness.settle_pending()[0].expect("first inclusion settles");

    let escrows_after_first = harness.custody().ledger().escrows().len();
    assert_eq!(harness.custody_mut().settle(&bundle), Err(SettleError::NonceReused));
    assert_eq!(
        harness.custody().ledger().escrows().len(),
        escrows_after_first,
        "a reused nonce forms no second escrow"
    );
    harness.check_cross_system_invariants().unwrap();
}

fn market_with_a_requester_withdrawal_in_flight() -> (TestHarness, ReqIdx, Ts) {
    let config = laggy_config();
    let mut harness =
        Harness::new(config, TestClock::at(Ts(1_000)), TestClock::at(Ts(1_000)), TestClock::at(Ts(1_000))).unwrap();
    harness.deposit(REQUESTER, requester_reservation()).unwrap();
    harness.deposit(ALPHA, maker_contribution(FILL_A)).unwrap();
    harness.deposit(BETA, maker_contribution(FILL_B)).unwrap();
    harness.deposit(GAMMA, maker_contribution(FILL_C)).unwrap();
    for contract in [SEPTEMBER, OCTOBER, NOVEMBER] {
        harness.apply(Command::RegisterContract { contract, event_date: EVENT_DATE }).unwrap();
    }

    harness.stall_indexer();
    let matures_at = harness.request_withdrawal(REQUESTER, requester_reservation()).unwrap();
    assert_eq!(harness.custody().ledger().available(REQUESTER), Amount(0));
    assert_eq!(harness.custody().ledger().balance(REQUESTER), requester_reservation());
    assert_eq!(
        harness.engine().ledger().account(REQUESTER).unwrap().free(),
        requester_reservation(),
        "the engine has not heard, which is the only reason what follows is possible"
    );

    harness.set_both_clocks(Ts(500_000));
    harness.apply(three_leg_request_with_deadline(Ts(780_000))).unwrap();
    let request = harness.engine().ledger().requests().into_iter().next().unwrap().0;

    harness.set_both_clocks(Ts(760_000));
    for (maker, leg, price) in [(ALPHA, 0_u8, FILL_A), (BETA, 1, FILL_B), (GAMMA, 2, FILL_C)] {
        harness
            .apply(Command::SubmitQuote {
                maker,
                request,
                leg: LegId(leg),
                price,
                size: SIZE,
                expires_at: Ts(785_000),
            })
            .unwrap();
    }
    harness.set_both_clocks(Ts(760_500));
    harness
        .apply(Command::AcceptRequest { request, expected: accept(), n_legs: 3 })
        .unwrap();
    assert!(matures_at > harness.custody_now(), "the withdrawal has not landed yet");
    (harness, request, matures_at)
}

#[test]
fn a_withdrawal_executed_before_the_accept_is_caught_by_the_pre_check() {
    let (mut harness, _request, matures_at) = market_with_a_requester_withdrawal_in_flight();

    harness.set_both_clocks(matures_at);
    assert_eq!(harness.execute_withdrawal(REQUESTER).unwrap(), requester_reservation());
    assert_eq!(harness.custody().ledger().balance(REQUESTER), Amount(0));

    let bundle = harness.pending_bundles()[0];
    assert_eq!(
        harness.custody().precheck(&bundle),
        Err(SettleError::InsufficientFunds { account: REQUESTER })
    );
    let outcomes = harness.settle_pending();
    assert_eq!(outcomes[0], Err(SettleError::InsufficientFunds { account: REQUESTER }));

    assert_eq!(harness.custody().ledger().escrows().len(), 0);
    assert_eq!(harness.custody().ledger().balance(ALPHA), maker_contribution(FILL_A));
    assert_eq!(harness.custody().ledger().balance(BETA), maker_contribution(FILL_B));
    assert_eq!(harness.custody().ledger().balance(GAMMA), maker_contribution(FILL_C));
    assert!(!harness.custody().ledger().nonce_used(bundle.nonce));

    harness.check_settlement_invariants().unwrap();
    assert_eq!(
        harness.check_cross_system_invariants(),
        Err(CrossSystemViolation::ClaimCoverageBroken(REQUESTER))
    );
}

#[test]
fn a_withdrawal_landing_between_the_pre_check_and_the_settle_reverts_the_whole_basket() {

    let (mut harness, _request, matures_at) = market_with_a_requester_withdrawal_in_flight();
    let bundle = harness.pending_bundles()[0];

    assert_eq!(harness.custody().precheck(&bundle), Ok(()));
    assert_eq!(harness.custody().ledger().balance(REQUESTER), requester_reservation());

    harness.set_both_clocks(matures_at);
    assert_eq!(harness.custody_mut().ledger_mut().execute_matured_withdrawals(matures_at), 1);

    let outcomes = harness.settle_pending();
    assert_eq!(
        outcomes[0],
        Err(SettleError::InsufficientFunds { account: REQUESTER }),
        "settle must revalidate rather than trust the pre-check"
    );

    assert_eq!(harness.custody().ledger().escrows().len(), 0);
    assert_eq!(harness.custody().ledger().balance(ALPHA), maker_contribution(FILL_A));
    assert_eq!(harness.custody().ledger().balance(BETA), maker_contribution(FILL_B));
    assert_eq!(harness.custody().ledger().balance(GAMMA), maker_contribution(FILL_C));
    assert!(!harness.custody().ledger().nonce_used(bundle.nonce));
    harness.check_settlement_invariants().unwrap();
    assert_eq!(
        harness.check_cross_system_invariants(),
        Err(CrossSystemViolation::ClaimCoverageBroken(REQUESTER)),
        "the committed basket is unbacked until the engine learns the settlement reverted"
    );
}

#[test]
fn no_participant_can_withdraw_out_from_under_their_own_live_claim() {

    let config = config();
    let delay = config.withdrawal_delay;
    let windows = [
        ("maker", config.max_quote_ttl),
        ("requester", Dur(config.max_request_ttl.0 + config.max_settling_time.0)),
    ];

    for (side, window) in windows {
        assert!(delay > window, "the {side} window is not covered by the timelock");
        for claim_at in [0_u64, 1, 999, 1_000] {
            let claim_dies = claim_at + window.0;
            let withdrawal_lands = claim_at + delay.0;
            assert!(
                claim_dies < withdrawal_lands,
                "a {side} claim written at {claim_at} outlives the withdrawal beside it"
            );
        }
    }

    let mut harness = funded_harness();
    let stake = maker_contribution(FILL_A);
    harness.request_withdrawal(ALPHA, stake).unwrap();
    assert_eq!(
        harness.engine().ledger().account(ALPHA).unwrap().free(),
        Amount(0),
        "the engine will not lend against money already on its way out"
    );
    harness.apply(three_leg_request()).unwrap();
    let request = harness.engine().ledger().requests().into_iter().next().unwrap().0;
    harness.engine_clock_mut().advance(Dur(100));
    assert!(
        harness
            .apply(Command::SubmitQuote {
                maker: ALPHA,
                request,
                leg: LegId(0),
                price: FILL_A,
                size: SIZE,
                expires_at: Ts(20_000),
            })
            .is_err(),
        "a maker with a withdrawal pending cannot write a quote the remainder cannot cover"
    );

    harness.request_withdrawal(REQUESTER, requester_reservation()).unwrap();
    assert!(
        harness.apply(three_leg_request()).is_err(),
        "a requester with a withdrawal pending cannot open a request the remainder cannot cover"
    );
    harness.check_cross_system_invariants().unwrap();
}

#[test]
fn requesting_a_withdrawal_drops_availability_immediately_and_the_balance_not_at_all() {

    let mut harness = funded_harness();
    let stake = maker_contribution(FILL_A);
    assert_eq!(harness.custody().ledger().available(ALPHA), stake);

    let matures_at = harness.request_withdrawal(ALPHA, stake).unwrap();
    assert_eq!(harness.custody().ledger().available(ALPHA), Amount(0), "immediately");
    assert_eq!(harness.custody().ledger().balance(ALPHA), stake, "and not before maturity");
    assert_eq!(matures_at, Ts(1_000).checked_add(config().withdrawal_delay).unwrap());

    assert_eq!(
        harness.request_withdrawal(ALPHA, Amount(1)),
        Err(HarnessError::Custody(CustodyError::WithdrawalAlreadyPending))
    );
    harness.check_cross_system_invariants().unwrap();
}

#[test]
fn execution_occurs_at_exactly_the_delay_and_consults_nothing_else() {

    let mut harness = funded_harness();
    let request_command = three_leg_request();
    harness.apply(request_command).unwrap();
    let request = harness.engine().ledger().requests().into_iter().next().unwrap().0;
    harness.engine_clock_mut().advance(Dur(100));

    harness
        .apply(Command::SubmitQuote {
            maker: ALPHA,
            request,
            leg: LegId(0),
            price: FILL_A,
            size: SIZE,
            expires_at: Ts(20_000),
        })
        .unwrap();
    let stake = maker_contribution(FILL_A);

    let matures_at = harness.request_withdrawal(ALPHA, stake).unwrap();

    harness.set_both_clocks(Ts(matures_at.0 - 1));
    assert_eq!(
        harness.execute_withdrawal(ALPHA),
        Err(HarnessError::Custody(CustodyError::WithdrawalNotMatured)),
        "one millisecond early"
    );
    assert_eq!(harness.custody().ledger().balance(ALPHA), stake);

    harness.set_both_clocks(matures_at);
    assert_eq!(harness.execute_withdrawal(ALPHA), Ok(stake), "at exactly T+delay");
    assert_eq!(harness.custody().ledger().balance(ALPHA), Amount(0));

    assert!(harness.custody_now() > Ts(20_000), "the quote's expiry is behind us");
    harness.check_cross_system_invariants().unwrap();
}

#[test]
fn a_pending_withdrawal_does_not_kill_a_basket_already_in_flight() {

    let mut harness = funded_harness();
    matched_market(&mut harness);
    let bundle = harness.pending_bundles()[0];

    let stake = maker_contribution(FILL_A);
    harness.request_withdrawal(ALPHA, stake).unwrap();
    assert_eq!(harness.custody().ledger().available(ALPHA), Amount(0));
    assert_eq!(harness.custody().ledger().balance(ALPHA), stake, "still present");

    assert_eq!(harness.custody().precheck(&bundle), Ok(()));
    let outcomes = harness.settle_pending();
    let receipt = outcomes[0].expect("a pending withdrawal must not kill a basket in flight");
    assert_eq!(receipt.n_escrows, 3);
    assert_eq!(harness.custody().ledger().balance(ALPHA), Amount(0), "into escrow");
    harness.check_settlement_invariants().unwrap();
}

#[test]
fn a_withdrawal_executes_at_maturity_even_with_capital_locked_in_escrow() {

    let mut harness = funded_harness();
    matched_market(&mut harness);
    harness.settle_pending()[0].expect("settles");
    assert_eq!(harness.locked_escrows().len(), 3, "Alpha has capital locked in escrow");
    assert!(
        harness.locked_escrows().iter().any(|(_, escrow)| escrow.maker() == ALPHA),
        "the account under test really does have an outstanding escrow"
    );

    let fresh = Amount(1_000);
    harness.deposit(ALPHA, fresh).unwrap();
    let matures_at = harness.request_withdrawal(ALPHA, fresh).unwrap();

    harness.set_both_clocks(Ts(matures_at.0 - 1));
    assert_eq!(
        harness.execute_withdrawal(ALPHA),
        Err(HarnessError::Custody(CustodyError::WithdrawalNotMatured))
    );

    harness.set_both_clocks(matures_at);
    assert_eq!(
        harness.execute_withdrawal(ALPHA),
        Ok(fresh),
        "the locked escrow neither delayed the withdrawal nor was consulted"
    );
    assert_eq!(harness.custody().ledger().balance(ALPHA), Amount(0));
    assert_eq!(harness.locked_escrows().len(), 3, "and the escrow is untouched");
    harness.check_settlement_invariants().unwrap();
}

#[test]
fn a_quote_admitted_just_before_a_withdrawal_must_die_before_it_executes() {

    let config = config();
    let quote_ttl = config.max_quote_ttl;
    let delay = config.withdrawal_delay;

    let admitted_at = Ts(1_000);
    let requested_at = admitted_at.checked_add(Dur(1)).unwrap();
    let quote_dies_at = admitted_at.checked_add(quote_ttl).unwrap();
    let withdrawal_lands_at = requested_at.checked_add(delay).unwrap();

    assert!(
        quote_dies_at < withdrawal_lands_at,
        "a quote binding until {quote_dies_at:?} outlives a withdrawal landing at \
         {withdrawal_lands_at:?}; the inequality is not doing its job"
    );

    let slack = delay.0 - quote_ttl.0;
    assert!(slack > 0, "WITHDRAWAL_DELAY must exceed MAX_QUOTE_TTL");
    assert_eq!(withdrawal_lands_at.0 - quote_dies_at.0, slack + 1);
}

#[test]
fn a_venue_whose_timelock_does_not_cover_the_lag_terms_fails_to_start() {

    let base = Config {
        withdrawal_delay: Dur(40_000),
        max_quote_ttl: Dur(30_000),
        max_request_ttl: Dur(20_000),
        max_settling_time: Dur(5_000),
        ..config()
    };
    assert_eq!(base.max_indexer_lag, Dur(0));
    assert!(
        Harness::new(base, TestClock::at(Ts(0)), TestClock::at(Ts(0)), TestClock::at(Ts(0))).is_ok(),
        "the two-term form is satisfied, which is the precondition this test needs"
    );

    let violating = Config { max_indexer_lag: Dur(15_000), ..base };
    assert_ne!(violating.max_indexer_lag, Dur(0), "the lag term under test must be non-zero");
    assert!(matches!(
        Harness::new(violating, TestClock::at(Ts(0)), TestClock::at(Ts(0)), TestClock::at(Ts(0))),
        Err(rfq::config::ConfigError::WithdrawalDelayTooShort)
    ));

    assert!(
        violating.max_quote_ttl.0 + violating.max_indexer_lag.0 > violating.withdrawal_delay.0,
        "the refused configuration is one where a claim can outlive the money behind it"
    );

    for candidate in [
        Config { confirmations: 12, block_time: Dur(1_000), ..base },
        Config { max_settlement_inclusion_time: Dur(11_000), ..base },
    ] {
        assert!(matches!(
            Harness::new(candidate, TestClock::at(Ts(0)), TestClock::at(Ts(0)), TestClock::at(Ts(0))),
            Err(rfq::config::ConfigError::WithdrawalDelayTooShort)
        ));
    }
}

#[test]
fn conservation_counts_locked_escrows_only() {

    let mut harness = funded_harness();
    matched_market(&mut harness);
    harness.settle_pending()[0].expect("settles");
    harness.check_cross_system_invariants().unwrap();

    let locked = harness.locked_escrows().len();
    assert_eq!(locked, 3);

    let first = harness.escrows()[0];
    let requester_before = harness.custody().ledger().balance(REQUESTER);
    let maker_before = harness.custody().ledger().balance(ALPHA);
    assert!(harness.custody_mut().ledger_mut().settle_escrow(first, SEPTEMBER, Outcome::Void).unwrap());

    assert_eq!(
        harness.custody().ledger().balance(REQUESTER),
        Amount(requester_before.0 + requester_contribution(FILL_A).0)
    );
    assert_eq!(
        harness.custody().ledger().balance(ALPHA),
        Amount(maker_before.0 + maker_contribution(FILL_A).0),
        "not half each — each side's own contribution"
    );

    assert_eq!(harness.locked_escrows().len(), 2);
    assert_eq!(harness.check_conservation_only(), Ok(()));

    assert_eq!(harness.custody_mut().ledger_mut().settle_escrow(first, SEPTEMBER, Outcome::Void), Ok(false));
    assert_eq!(harness.check_conservation_only(), Ok(()));
}

#[test]
fn claim_coverage_is_a_cross_system_assertion_and_the_harness_can_break_it() {

    let mut harness = funded_harness();
    harness.apply(three_leg_request()).unwrap();
    let request = harness.engine().ledger().requests().into_iter().next().unwrap().0;
    harness.engine_clock_mut().advance(Dur(100));
    harness
        .apply(Command::SubmitQuote {
            maker: ALPHA,
            request,
            leg: LegId(0),
            price: FILL_A,
            size: SIZE,
            expires_at: Ts(20_000),
        })
        .unwrap();
    assert_eq!(harness.check_cross_system_invariants(), Ok(()));

    harness.request_withdrawal(ALPHA, maker_contribution(FILL_A)).unwrap();

    harness.custody_clock_mut().advance(config().withdrawal_delay);
    harness.execute_withdrawal(ALPHA).unwrap();

    assert_eq!(
        harness.check_cross_system_invariants(),
        Err(CrossSystemViolation::ClaimCoverageBroken(ALPHA)),
        "coverage must notice that the engine has promised capital custody does not hold"
    );
}

#[test]
fn a_settlement_debits_each_account_once_for_every_leg_it_wins() {

    let mut harness =
        Harness::new(config(), TestClock::at(Ts(1_000)), TestClock::at(Ts(1_000)), TestClock::at(Ts(1_000))).unwrap();
    let two_legs = Amount(maker_contribution(FILL_A).0 + maker_contribution(FILL_B).0);
    harness.deposit(REQUESTER, requester_reservation()).unwrap();

    harness.deposit(ALPHA, maker_contribution(FILL_A)).unwrap();
    harness.deposit(GAMMA, maker_contribution(FILL_C)).unwrap();
    for contract in [SEPTEMBER, OCTOBER, NOVEMBER] {
        harness.apply(Command::RegisterContract { contract, event_date: EVENT_DATE }).unwrap();
    }
    harness.apply(three_leg_request()).unwrap();
    let request = harness.engine().ledger().requests().into_iter().next().unwrap().0;
    harness.engine_clock_mut().advance(Dur(100));
    for (maker, leg, price) in [(ALPHA, 0_u8, FILL_A), (ALPHA, 1, FILL_B), (GAMMA, 2, FILL_C)] {

        let _ = harness.apply(Command::SubmitQuote {
            maker,
            request,
            leg: LegId(leg),
            price,
            size: SIZE,
            expires_at: Ts(20_000),
        });
    }
    assert!(two_legs > maker_contribution(FILL_A), "the two legs really do cost more than one");

    harness.engine_clock_mut().advance(Dur(100));
    let outcome = harness.apply(Command::AcceptRequest { request, expected: accept(), n_legs: 3 });
    assert!(outcome.is_err(), "leg 1 has no quote, so the basket aborts");
    harness.check_cross_system_invariants().unwrap();
}
