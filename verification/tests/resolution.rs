use rfq::chain::custody::CustodyError;
use rfq::account::AccountIdx;
use rfq::clock::TestClock;
use rfq::command::{Command, ExpectedFill, LegSpec};
use rfq::config::{Config, MAX_LEGS};
use rfq::contract::{ContractIdx, ContractState, OracleStatus, Outcome};
use rfq::engine::EngineError;
use rfq::escrow::EscrowId;
use rfq::event::Event;
use rfq::request::ReqIdx;
use rfq::types::{Amount, Dur, LegId, Price, Side, Size, Ts};
use rfq::runtime::harness::{Harness, HarnessError};

const REQUESTER: AccountIdx = AccountIdx(0);
const ALPHA: AccountIdx = AccountIdx(1);
const BETA: AccountIdx = AccountIdx(2);

const ESCALATION: AccountIdx = AccountIdx(3);

const SEPTEMBER: ContractIdx = ContractIdx(0);
const OCTOBER: ContractIdx = ContractIdx(1);
const EVENT_DATE: Ts = Ts(50_000_000);
const DEADLINE: Ts = Ts(100_000);
const SIZE: Size = Size(100);

const LIMIT: Price = Price(650_000);
const FILL_A: Price = Price(610_000);
const FILL_B: Price = Price(450_000);
const STALL_GRACE: Dur = Dur(86_400_000);
const CHALLENGE_WINDOW: Dur = Dur(7_200_000);

fn config() -> Config {
    Config {
        max_accounts: 4,
        max_reservations: 32,
        max_requests: 4,
        max_quotes: 32,
        max_contracts: 4,
        max_escrows: 16,
        max_legs: 4,
        max_quotes_per_leg: 4,
        max_quote_ttl: Dur(30_000),
        stall_grace: STALL_GRACE,
        challenge_window: CHALLENGE_WINDOW,
        escalation_authority: ESCALATION,
        ..Config::default()
    }
}

type TestHarness = Harness<TestClock, TestClock>;

fn maker_contribution(price: Price) -> Amount {
    SIZE.maker_contribution(price).unwrap()
}
fn requester_contribution(price: Price) -> Amount {
    SIZE.requester_contribution(price).unwrap()
}
fn notional() -> Amount {
    SIZE.notional().unwrap()
}

fn escrowed_spread() -> (TestHarness, ReqIdx, [EscrowId; 2]) {
    let mut harness = Harness::new(
        config(),
        TestClock::at(Ts(1_000)),
        TestClock::at(Ts(1_000)),
        TestClock::at(Ts(1_000)),
    )
    .unwrap();
    let reservation = Amount(requester_contribution(LIMIT).0 * 2);
    harness.deposit(REQUESTER, reservation).unwrap();
    harness.deposit(ALPHA, maker_contribution(FILL_A)).unwrap();
    harness.deposit(BETA, maker_contribution(FILL_B)).unwrap();
    for contract in [SEPTEMBER, OCTOBER] {
        harness.apply(Command::RegisterContract { contract, event_date: EVENT_DATE }).unwrap();
    }

    let mut legs = [LegSpec::default(); MAX_LEGS];
    legs[0] = LegSpec { contract: SEPTEMBER, side: Side::Yes, size: SIZE, limit: LIMIT };
    legs[1] = LegSpec { contract: OCTOBER, side: Side::No, size: SIZE, limit: LIMIT };
    harness
        .apply(Command::SubmitRequest { requester: REQUESTER, deadline: DEADLINE, legs, n_legs: 2 })
        .unwrap();
    let request = harness.engine().ledger().requests().into_iter().next().unwrap().0;

    harness.set_both_clocks(Ts(1_100));
    for (maker, leg, price) in [(ALPHA, 0_u8, FILL_A), (BETA, 1, FILL_B)] {
        harness
            .apply(Command::SubmitQuote {
                maker,
                request,
                leg: LegId(leg),
                price,
                size: SIZE,
                expires_at: Ts(20_000),
            })
            .unwrap();
    }
    harness.set_both_clocks(Ts(1_200));
    let mut expected = [ExpectedFill::default(); MAX_LEGS];
    expected[0] = ExpectedFill { leg: LegId(0), price: FILL_A };
    expected[1] = ExpectedFill { leg: LegId(1), price: FILL_B };
    harness.apply(Command::AcceptRequest { request, expected, n_legs: 2 }).unwrap();

    harness.submit_pending();

    harness.include_all();
    assert_eq!(harness.locked_escrows().len(), 2);
    let escrows = [harness.escrows()[0], harness.escrows()[1]];
    (harness, request, escrows)
}

fn advance_past_the_event(harness: &mut TestHarness) {
    harness.set_both_clocks(Ts(EVENT_DATE.0 + STALL_GRACE.0 + 1));
    harness.oracle_mut().clock_mut().set(Ts(EVENT_DATE.0 + STALL_GRACE.0 + 1));
}

#[test]
fn a_finalised_contract_pays_its_winner_and_the_escrow_is_spent() {
    let (mut harness, _request, escrows) = escrowed_spread();
    harness.set_both_clocks(Ts(2_000));
    harness.oracle_mut().clock_mut().set(Ts(2_000));

    harness.oracle_mut().propose(SEPTEMBER, Outcome::Yes).unwrap();
    assert_eq!(harness.report_oracle_status(SEPTEMBER).unwrap(), OracleStatus::InProgress);
    harness.oracle_mut().clock_mut().advance(CHALLENGE_WINDOW);
    assert_eq!(harness.oracle_mut().finalise(SEPTEMBER).unwrap(), Outcome::Yes);
    assert_eq!(
        harness.report_oracle_status(SEPTEMBER).unwrap(),
        OracleStatus::Final(Outcome::Yes)
    );

    assert_eq!(
        harness.engine().ledger().contract(SEPTEMBER).unwrap().state(),
        ContractState::Resolved(Outcome::Yes)
    );
    assert_eq!(harness.locked_escrows().len(), 2, "no escrow was touched by resolving");

    let before = harness.custody().ledger().balance(REQUESTER);
    harness
        .apply(Command::SettleEscrow { escrow: escrows[0], contract: SEPTEMBER })
        .unwrap();
    assert_eq!(harness.apply_payouts(), vec![Ok(true)]);

    assert_eq!(
        harness.custody().ledger().balance(REQUESTER),
        Amount(before.0 + notional().0)
    );
    assert_eq!(harness.locked_escrows().len(), 1, "only that escrow was spent");
    harness.check_settlement_invariants().unwrap();
}

#[test]
fn settling_the_same_escrow_twice_is_a_no_op() {
    let (mut harness, _request, escrows) = escrowed_spread();
    harness.set_both_clocks(Ts(2_000));
    harness.oracle_mut().clock_mut().set(Ts(2_000));
    harness.oracle_mut().escalate(SEPTEMBER, Outcome::Yes, ESCALATION).unwrap();
    harness.report_oracle_status(SEPTEMBER).unwrap();

    harness.apply(Command::SettleEscrow { escrow: escrows[0], contract: SEPTEMBER }).unwrap();
    assert_eq!(harness.apply_payouts(), vec![Ok(true)]);
    let paid = harness.custody().ledger().balance(REQUESTER);

    harness.apply(Command::SettleEscrow { escrow: escrows[0], contract: SEPTEMBER }).unwrap();
    assert_eq!(harness.apply_payouts(), vec![Ok(false)]);
    assert_eq!(harness.custody().ledger().balance(REQUESTER), paid, "paid exactly once");
    harness.check_settlement_invariants().unwrap();
}

#[test]
fn an_escrow_cannot_be_settled_under_another_contracts_outcome() {

    let (mut harness, _request, escrows) = escrowed_spread();
    harness.set_both_clocks(Ts(2_000));
    harness.oracle_mut().clock_mut().set(Ts(2_000));
    harness.oracle_mut().escalate(SEPTEMBER, Outcome::Yes, ESCALATION).unwrap();
    harness.report_oracle_status(SEPTEMBER).unwrap();

    harness.apply(Command::SettleEscrow { escrow: escrows[1], contract: SEPTEMBER }).unwrap();
    assert_eq!(
        harness.apply_payouts(),
        vec![Err(CustodyError::EscrowContractMismatch)],
        "an escrow may only be paid under the contract it rests on"
    );
    assert_eq!(harness.locked_escrows().len(), 2, "and nothing moved");
    harness.check_settlement_invariants().unwrap();
}

#[test]
fn an_escrow_on_a_contract_in_progress_cannot_be_settled_and_nothing_moves() {
    let (mut harness, _request, escrows) = escrowed_spread();
    harness.set_both_clocks(Ts(2_000));
    harness.oracle_mut().clock_mut().set(Ts(2_000));
    harness.oracle_mut().propose(SEPTEMBER, Outcome::Yes).unwrap();
    harness.report_oracle_status(SEPTEMBER).unwrap();

    let balances = [
        harness.custody().ledger().balance(REQUESTER),
        harness.custody().ledger().balance(ALPHA),
    ];
    assert_eq!(
        harness.apply(Command::SettleEscrow { escrow: escrows[0], contract: SEPTEMBER }),
        Err(HarnessError::Engine(EngineError::OutcomeNotYet))
    );

    assert!(harness.pending_payouts().is_empty(), "no intent was emitted");
    assert_eq!(harness.custody().ledger().balance(REQUESTER), balances[0]);
    assert_eq!(harness.custody().ledger().balance(ALPHA), balances[1]);
    assert_eq!(harness.locked_escrows().len(), 2);
    harness.check_settlement_invariants().unwrap();
}

#[test]
fn a_contested_contract_ends_only_when_the_escalation_authority_rules() {
    let (mut harness, _request, escrows) = escrowed_spread();
    harness.set_both_clocks(Ts(2_000));
    harness.oracle_mut().clock_mut().set(Ts(2_000));
    harness.oracle_mut().propose(SEPTEMBER, Outcome::Yes).unwrap();
    harness.oracle_mut().contest(SEPTEMBER).unwrap();
    harness.report_oracle_status(SEPTEMBER).unwrap();

    harness.oracle_mut().clock_mut().advance(Dur(CHALLENGE_WINDOW.0 * 2));
    assert_eq!(
        harness.oracle_mut().finalise(SEPTEMBER),
        Err(rfq::chain::oracle::OracleError::Contested)
    );
    assert_eq!(
        harness.apply(Command::SettleEscrow { escrow: escrows[0], contract: SEPTEMBER }),
        Err(HarnessError::Engine(EngineError::OutcomeNotYet))
    );

    assert_eq!(
        harness.oracle_mut().escalate(SEPTEMBER, Outcome::No, ALPHA),
        Err(rfq::chain::oracle::OracleError::NotTheEscalationAuthority)
    );
    assert_eq!(harness.locked_escrows().len(), 2, "and the escrows stay locked");

    harness.oracle_mut().escalate(SEPTEMBER, Outcome::No, ESCALATION).unwrap();
    assert_eq!(
        harness.report_oracle_status(SEPTEMBER).unwrap(),
        OracleStatus::Final(Outcome::No)
    );
    let maker_before = harness.custody().ledger().balance(ALPHA);
    harness.apply(Command::SettleEscrow { escrow: escrows[0], contract: SEPTEMBER }).unwrap();
    assert_eq!(harness.apply_payouts(), vec![Ok(true)]);

    assert_eq!(
        harness.custody().ledger().balance(ALPHA),
        Amount(maker_before.0 + notional().0)
    );
    harness.check_settlement_invariants().unwrap();
}

#[test]
fn one_outcome_pays_the_requester_on_a_yes_leg_and_the_maker_on_a_no_leg() {

    let (mut harness, _request, escrows) = escrowed_spread();
    harness.set_both_clocks(Ts(2_000));
    harness.oracle_mut().clock_mut().set(Ts(2_000));

    for contract in [SEPTEMBER, OCTOBER] {
        harness.oracle_mut().escalate(contract, Outcome::Yes, ESCALATION).unwrap();
        harness.report_oracle_status(contract).unwrap();
    }

    let requester_before = harness.custody().ledger().balance(REQUESTER);
    let alpha_before = harness.custody().ledger().balance(ALPHA);
    let beta_before = harness.custody().ledger().balance(BETA);

    harness.apply(Command::SettleEscrow { escrow: escrows[0], contract: SEPTEMBER }).unwrap();
    harness.apply(Command::SettleEscrow { escrow: escrows[1], contract: OCTOBER }).unwrap();
    assert_eq!(harness.apply_payouts(), vec![Ok(true), Ok(true)]);

    assert_eq!(
        harness.custody().ledger().balance(REQUESTER),
        Amount(requester_before.0 + notional().0),
        "the Yes leg pays the requester"
    );
    assert_eq!(
        harness.custody().ledger().balance(BETA),
        Amount(beta_before.0 + notional().0),
        "the No leg pays the maker"
    );
    assert_eq!(harness.custody().ledger().balance(ALPHA), alpha_before, "Alpha lost their leg");
    assert_eq!(harness.locked_escrows().len(), 0);
    harness.check_settlement_invariants().unwrap();
}

#[test]
fn a_silent_oracle_past_the_grace_period_returns_each_side_its_own_contribution() {
    let (mut harness, _request, escrows) = escrowed_spread();

    harness.set_both_clocks(Ts(EVENT_DATE.0 + STALL_GRACE.0));
    assert_eq!(
        harness.apply(Command::SettleEscrow { escrow: escrows[0], contract: SEPTEMBER }),
        Err(HarnessError::Engine(EngineError::OutcomeNotYet)),
        "the stall exit is half-open at the far end too"
    );

    advance_past_the_event(&mut harness);
    assert_eq!(
        harness.engine().ledger().contract(SEPTEMBER).unwrap().oracle_status(),
        OracleStatus::Silent,
        "the precondition: the stall exit conditions on Silent"
    );

    let requester_before = harness.custody().ledger().balance(REQUESTER);
    let alpha_before = harness.custody().ledger().balance(ALPHA);
    harness.apply(Command::SettleEscrow { escrow: escrows[0], contract: SEPTEMBER }).unwrap();
    assert_eq!(harness.apply_payouts(), vec![Ok(true)]);

    assert_eq!(
        harness.custody().ledger().balance(REQUESTER),
        Amount(requester_before.0 + requester_contribution(FILL_A).0),
        "the requester gets back exactly what they put in"
    );
    assert_eq!(
        harness.custody().ledger().balance(ALPHA),
        Amount(alpha_before.0 + maker_contribution(FILL_A).0),
        "and the maker exactly what they put in"
    );

    assert_ne!(
        requester_contribution(FILL_A),
        maker_contribution(FILL_A),
        "the two contributions must differ, or this test cannot tell a refund from a split"
    );
    let half = Amount(notional().0 / 2);
    assert_ne!(
        harness.custody().ledger().balance(REQUESTER),
        Amount(requester_before.0 + half.0),
        "a split would have paid this instead"
    );
    harness.check_settlement_invariants().unwrap();
}

#[test]
fn an_oracle_parked_in_progress_never_times_out_into_void() {

    let (mut harness, _request, escrows) = escrowed_spread();
    harness.set_both_clocks(Ts(2_000));
    harness.oracle_mut().clock_mut().set(Ts(2_000));
    harness.oracle_mut().propose(SEPTEMBER, Outcome::Yes).unwrap();
    harness.oracle_mut().contest(SEPTEMBER).unwrap();
    harness.report_oracle_status(SEPTEMBER).unwrap();

    advance_past_the_event(&mut harness);
    for _ in 0..3 {
        assert_eq!(
            harness.apply(Command::SettleEscrow { escrow: escrows[0], contract: SEPTEMBER }),
            Err(HarnessError::Engine(EngineError::OutcomeNotYet))
        );
        harness.set_both_clocks(Ts(harness.engine_now().0 + STALL_GRACE.0));
    }

    assert_eq!(harness.locked_escrows().len(), 2);
    harness.check_settlement_invariants().unwrap();
}

#[test]
fn the_oracle_cannot_walk_its_status_backwards() {
    let (mut harness, _request, escrows) = escrowed_spread();
    harness.set_both_clocks(Ts(2_000));
    harness.oracle_mut().clock_mut().set(Ts(2_000));
    harness.apply(Command::ReportOracleStatus {
        contract: SEPTEMBER,
        status: OracleStatus::InProgress,
    })
    .unwrap();

    assert_eq!(
        harness.apply(Command::ReportOracleStatus {
            contract: SEPTEMBER,
            status: OracleStatus::Silent,
        }),
        Err(HarnessError::Engine(EngineError::OracleStatusRegression))
    );

    assert_eq!(
        harness.engine().ledger().contract(SEPTEMBER).unwrap().oracle_status(),
        OracleStatus::InProgress,
        "the retraction did not take"
    );
    advance_past_the_event(&mut harness);
    assert_eq!(
        harness.apply(Command::SettleEscrow { escrow: escrows[0], contract: SEPTEMBER }),
        Err(HarnessError::Engine(EngineError::OutcomeNotYet)),
        "a retraction that took would have opened the stall exit here"
    );
    assert_eq!(harness.locked_escrows().len(), 2);
}

fn two_identical_positions_on_one_contract() -> (TestHarness, [EscrowId; 2]) {
    let mut harness = Harness::new(
        config(),
        TestClock::at(Ts(1_000)),
        TestClock::at(Ts(1_000)),
        TestClock::at(Ts(1_000)),
    )
    .unwrap();
    harness.deposit(REQUESTER, Amount(requester_contribution(LIMIT).0 * 2)).unwrap();
    harness.deposit(ALPHA, maker_contribution(FILL_A)).unwrap();
    harness.deposit(BETA, maker_contribution(FILL_A)).unwrap();
    harness.apply(Command::RegisterContract { contract: SEPTEMBER, event_date: EVENT_DATE }).unwrap();

    let mut legs = [LegSpec::default(); MAX_LEGS];
    legs[0] = LegSpec { contract: SEPTEMBER, side: Side::Yes, size: SIZE, limit: LIMIT };
    legs[1] = LegSpec { contract: SEPTEMBER, side: Side::Yes, size: SIZE, limit: LIMIT };
    harness
        .apply(Command::SubmitRequest { requester: REQUESTER, deadline: DEADLINE, legs, n_legs: 2 })
        .unwrap();
    let request = harness.engine().ledger().requests().into_iter().next().unwrap().0;

    harness.set_both_clocks(Ts(1_100));
    for (maker, leg) in [(ALPHA, 0_u8), (BETA, 1)] {
        harness
            .apply(Command::SubmitQuote {
                maker,
                request,
                leg: LegId(leg),
                price: FILL_A,
                size: SIZE,
                expires_at: Ts(20_000),
            })
            .unwrap();
    }
    harness.set_both_clocks(Ts(1_200));
    let mut expected = [ExpectedFill::default(); MAX_LEGS];
    expected[0] = ExpectedFill { leg: LegId(0), price: FILL_A };
    expected[1] = ExpectedFill { leg: LegId(1), price: FILL_A };
    harness.apply(Command::AcceptRequest { request, expected, n_legs: 2 }).unwrap();
    harness.submit_pending();
    harness.include_all();
    let escrows = [harness.escrows()[0], harness.escrows()[1]];
    (harness, escrows)
}

#[test]
fn final_is_immutable_and_the_failure_it_prevents_is_invisible_to_every_invariant() {
    let (mut harness, escrows) = two_identical_positions_on_one_contract();
    harness.set_both_clocks(Ts(2_000));
    harness.oracle_mut().clock_mut().set(Ts(2_000));
    harness.oracle_mut().escalate(SEPTEMBER, Outcome::Yes, ESCALATION).unwrap();
    harness.report_oracle_status(SEPTEMBER).unwrap();

    assert_eq!(
        harness.apply(Command::ReportOracleStatus {
            contract: SEPTEMBER,
            status: OracleStatus::Final(Outcome::No),
        }),
        Err(HarnessError::Engine(EngineError::OracleStatusRegression))
    );
    assert_eq!(
        harness.engine().ledger().contract(SEPTEMBER).unwrap().state(),
        ContractState::Resolved(Outcome::Yes)
    );

    let requester_before = harness.custody().ledger().balance(REQUESTER);
    let alpha_before = harness.custody().ledger().balance(ALPHA);
    let beta_before = harness.custody().ledger().balance(BETA);

    harness.custody_mut().ledger_mut().settle_escrow(escrows[0], SEPTEMBER, Outcome::Yes).unwrap();
    harness.custody_mut().ledger_mut().settle_escrow(escrows[1], SEPTEMBER, Outcome::No).unwrap();

    assert_eq!(
        harness.custody().ledger().balance(REQUESTER),
        Amount(requester_before.0 + notional().0),
        "the requester won the first escrow"
    );
    assert_eq!(harness.custody().ledger().balance(ALPHA), alpha_before, "and Alpha lost it");
    assert_eq!(
        harness.custody().ledger().balance(BETA),
        Amount(beta_before.0 + notional().0),
        "while Beta, who wrote the identical trade, won"
    );

    assert_eq!(harness.check_conservation_only(), Ok(()));
    assert_eq!(harness.locked_escrows().len(), 0);
}

#[test]
fn a_final_contract_refuses_every_later_report() {
    let (mut harness, _request, _escrows) = escrowed_spread();
    harness.set_both_clocks(Ts(2_000));
    harness.oracle_mut().clock_mut().set(Ts(2_000));
    harness.oracle_mut().escalate(SEPTEMBER, Outcome::Yes, ESCALATION).unwrap();
    harness.report_oracle_status(SEPTEMBER).unwrap();

    for status in [
        OracleStatus::Silent,
        OracleStatus::InProgress,
        OracleStatus::Final(Outcome::No),
        OracleStatus::Final(Outcome::Void),
        OracleStatus::Final(Outcome::Yes),
    ] {
        assert_eq!(
            harness.apply(Command::ReportOracleStatus { contract: SEPTEMBER, status }),
            Err(HarnessError::Engine(EngineError::OracleStatusRegression)),
            "Final is terminal, including against itself"
        );
    }
    assert_eq!(
        harness.engine().ledger().contract(SEPTEMBER).unwrap().state(),
        ContractState::Resolved(Outcome::Yes)
    );

    assert_eq!(
        harness.oracle_mut().escalate(SEPTEMBER, Outcome::No, ESCALATION),
        Err(rfq::chain::oracle::OracleError::AlreadyFinal)
    );
}

#[test]
fn resolution_is_reported_once_and_reaches_the_publisher() {
    let (mut harness, _request, _escrows) = escrowed_spread();
    harness.set_both_clocks(Ts(2_000));
    harness.oracle_mut().clock_mut().set(Ts(2_000));
    harness.oracle_mut().propose(SEPTEMBER, Outcome::Yes).unwrap();
    harness.report_oracle_status(SEPTEMBER).unwrap();
    harness.oracle_mut().clock_mut().advance(CHALLENGE_WINDOW);
    harness.oracle_mut().finalise(SEPTEMBER).unwrap();
    harness.report_oracle_status(SEPTEMBER).unwrap();

    let resolved: Vec<(ContractIdx, Outcome)> = harness
        .emitted()
        .iter()
        .filter_map(|event| match event {
            Event::ContractResolved { contract, outcome } => Some((*contract, *outcome)),
            _ => None,
        })
        .collect();
    assert_eq!(
        resolved,
        vec![(SEPTEMBER, Outcome::Yes)],
        "InProgress announces nothing; only finality does"
    );
}
