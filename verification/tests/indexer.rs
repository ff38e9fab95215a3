use rfq::chain::log::ChainPayload;
use rfq::account::AccountIdx;
use rfq::clock::TestClock;
use rfq::command::{Command, ExpectedFill, LegSpec};
use rfq::config::{Config, MAX_LEGS};
use rfq::contract::{ContractIdx, ContractState, OracleStatus, Outcome};
use rfq::escrow::EscrowId;
use rfq::types::{Amount, Dur, LegId, Price, Side, Size, Ts};
use rfq::runtime::harness::Harness;

const REQUESTER: AccountIdx = AccountIdx(0);
const ALPHA: AccountIdx = AccountIdx(1);
const ESCALATION: AccountIdx = AccountIdx(3);
const SEPTEMBER: ContractIdx = ContractIdx(0);
const EVENT_DATE: Ts = Ts(50_000_000);
const DEADLINE: Ts = Ts(100_000);
const SIZE: Size = Size(100);
const LIMIT: Price = Price(650_000);
const FILL: Price = Price(610_000);

const CONFIRMATIONS: u32 = 2;

fn config() -> Config {
    Config {
        max_accounts: 4,
        max_reservations: 32,
        max_requests: 4,
        max_quotes: 32,
        max_contracts: 4,
        max_escrows: 16,
        max_legs: 4,
        max_quotes_per_leg: 4,
        max_quote_ttl: Dur(30_000),
        escalation_authority: ESCALATION,
        confirmations: CONFIRMATIONS,
        block_time: Dur(1_000),

        withdrawal_delay: Dur(1_000_000),
        ..Config::default()
    }
}

type TestHarness = Harness<TestClock, TestClock>;

fn harness() -> TestHarness {
    Harness::new(
        config(),
        TestClock::at(Ts(1_000)),
        TestClock::at(Ts(1_000)),
        TestClock::at(Ts(1_000)),
    )
    .unwrap()
}

fn confirm(harness: &mut TestHarness) {
    for _ in 0..CONFIRMATIONS {
        harness.advance_block();
    }
}

fn maker_contribution() -> Amount {
    SIZE.maker_contribution(FILL).unwrap()
}

fn escrowed(harness: &mut TestHarness) -> EscrowId {
    harness.deposit(REQUESTER, SIZE.requester_contribution(LIMIT).unwrap()).unwrap();
    harness.deposit(ALPHA, maker_contribution()).unwrap();
    confirm(harness);
    harness.apply(Command::RegisterContract { contract: SEPTEMBER, event_date: EVENT_DATE }).unwrap();

    let mut legs = [LegSpec::default(); MAX_LEGS];
    legs[0] = LegSpec { contract: SEPTEMBER, side: Side::Yes, size: SIZE, limit: LIMIT };
    harness
        .apply(Command::SubmitRequest { requester: REQUESTER, deadline: DEADLINE, legs, n_legs: 1 })
        .unwrap();
    let request = harness.engine().ledger().requests().into_iter().next().unwrap().0;
    harness.set_both_clocks(Ts(1_100));
    harness
        .apply(Command::SubmitQuote {
            maker: ALPHA,
            request,
            leg: LegId(0),
            price: FILL,
            size: SIZE,
            expires_at: Ts(20_000),
        })
        .unwrap();
    harness.set_both_clocks(Ts(1_200));
    let mut expected = [ExpectedFill::default(); MAX_LEGS];
    expected[0] = ExpectedFill { leg: LegId(0), price: FILL };
    harness.apply(Command::AcceptRequest { request, expected, n_legs: 1 }).unwrap();
    harness.submit_pending();
    harness.include_all();

    confirm(harness);
    harness.escrows()[0]
}

#[test]
fn rewinding_the_cursor_changes_nothing_but_forgetting_the_dedup_set_delivers_twice() {

    let mut harness = harness();
    harness.deposit(REQUESTER, Amount(1_000)).unwrap();
    harness.deposit(ALPHA, Amount(500)).unwrap();
    confirm(&mut harness);

    let balances = [
        harness.custody().ledger().balance(REQUESTER),
        harness.custody().ledger().balance(ALPHA),
    ];
    let mirrored = harness.engine().ledger().account(REQUESTER).unwrap().free();
    let delivered = harness.indexer().delivered_count();
    assert!(delivered >= 2, "the log must actually have entries to replay");
    assert_eq!(harness.indexer().cursor(), harness.custody().log().entries().len());

    harness.indexer_mut().rewind();
    assert_eq!(harness.indexer().cursor(), 0);
    let redelivered = harness.pump_indexer();
    assert_eq!(redelivered, 0, "a replay must deliver nothing");
    assert_eq!(harness.indexer().delivered_count(), delivered, "and record nothing new");

    assert_eq!(harness.custody().ledger().balance(REQUESTER), balances[0]);
    assert_eq!(harness.custody().ledger().balance(ALPHA), balances[1]);
    assert_eq!(harness.engine().ledger().account(REQUESTER).unwrap().free(), mirrored);
    assert_eq!(harness.check_cross_system_invariants(), Ok(()));

    harness.indexer_mut().forget_everything();
    let redelivered = harness.pump_indexer();
    assert_eq!(redelivered, delivered, "without dedup the whole log arrives again");

    assert_eq!(harness.engine().ledger().account(REQUESTER).unwrap().free(), mirrored);
    assert_eq!(harness.check_cross_system_invariants(), Ok(()));
}

#[test]
fn a_reorg_below_the_confirmation_depth_is_never_seen_by_the_engine() {

    let mut harness = harness();
    harness.apply(Command::RegisterContract { contract: SEPTEMBER, event_date: EVENT_DATE }).unwrap();

    harness.custody_mut().log_mut().advance_block();
    let orphaned_block = harness.custody().log().head();
    harness.custody_mut().log_mut().append(ChainPayload::OracleStatusReported {
        contract: SEPTEMBER,
        status: OracleStatus::Final(Outcome::Yes),
    });

    harness.advance_block();
    assert_eq!(
        harness.engine().ledger().contract(SEPTEMBER).unwrap().state(),
        ContractState::Unresolved,
        "the entry exists and is not yet believed"
    );
    assert_eq!(harness.indexer().delivered_count(), 0);

    harness.custody_mut().log_mut().reorg(orphaned_block);
    assert!(
        harness.custody().log().entries().is_empty(),
        "the orphaned entry is gone from the log"
    );
    harness.custody_mut().log_mut().advance_block();
    harness.custody_mut().log_mut().append(ChainPayload::OracleStatusReported {
        contract: SEPTEMBER,
        status: OracleStatus::Final(Outcome::No),
    });
    confirm(&mut harness);

    assert_eq!(
        harness.engine().ledger().contract(SEPTEMBER).unwrap().state(),
        ContractState::Resolved(Outcome::No)
    );
    assert_eq!(harness.indexer().delivered_count(), 1, "one delivery, not two");
    assert_eq!(harness.check_cross_system_invariants(), Ok(()));
}

#[test]
fn a_settlement_request_arriving_before_its_resolution_is_refused_and_works_afterwards() {

    let mut harness = harness();
    let escrow = escrowed(&mut harness);
    assert_eq!(harness.locked_escrows().len(), 1);

    harness.request_escrow_settlement(escrow, SEPTEMBER, Outcome::Yes);
    confirm(&mut harness);
    assert!(
        harness.pending_payouts().is_empty(),
        "no intent was emitted, because the engine could not derive an outcome"
    );
    assert_eq!(harness.apply_payouts(), Vec::new());
    assert_eq!(harness.locked_escrows().len(), 1, "and the escrow is untouched");

    harness.oracle_mut().escalate(SEPTEMBER, Outcome::Yes, ESCALATION).unwrap();
    harness.report_oracle_status(SEPTEMBER).unwrap();
    confirm(&mut harness);
    assert_eq!(
        harness.engine().ledger().contract(SEPTEMBER).unwrap().state(),
        ContractState::Resolved(Outcome::Yes)
    );

    let requester_before = harness.custody().ledger().balance(REQUESTER);
    harness.request_escrow_settlement(escrow, SEPTEMBER, Outcome::Yes);
    confirm(&mut harness);
    assert_eq!(harness.apply_payouts(), vec![Ok(true)]);
    assert_eq!(
        harness.custody().ledger().balance(REQUESTER),
        Amount(requester_before.0 + SIZE.notional().unwrap().0)
    );
    assert_eq!(harness.locked_escrows().len(), 0);
    assert_eq!(harness.check_cross_system_invariants(), Ok(()));
}

#[test]
fn a_lagging_indexer_leaves_the_engine_stale_but_never_wrong() {

    let mut harness = harness();
    harness.deposit(ALPHA, Amount(1_000)).unwrap();
    confirm(&mut harness);
    assert_eq!(harness.engine().ledger().account(ALPHA).unwrap().free(), Amount(1_000));

    harness.custody_mut().log_mut().advance_block();
    harness.custody_mut().deposit(ALPHA, Amount(500)).unwrap();
    harness.pump_indexer();

    let head = harness.custody().log().head();
    let horizon = harness.indexer().horizon(head).expect("the chain is deep enough");
    assert!(horizon < head, "the lagging horizon must actually be behind the prompt one");
    assert_eq!(head - horizon, u64::from(CONFIRMATIONS));

    assert_eq!(harness.custody().ledger().balance(ALPHA), Amount(1_500));
    assert_eq!(
        harness.engine().ledger().account(ALPHA).unwrap().free(),
        Amount(1_000),
        "the engine has not heard yet"
    );
    assert!(
        harness.engine().ledger().account(ALPHA).unwrap().free()
            < harness.custody().ledger().balance(ALPHA),
        "staleness understates, so a claim admitted against it is always backed"
    );

    assert_eq!(harness.check_conservation_only(), Ok(()));

    confirm(&mut harness);
    assert_eq!(harness.engine().ledger().account(ALPHA).unwrap().free(), Amount(1_500));
    assert_eq!(harness.check_cross_system_invariants(), Ok(()));
}

#[test]
fn nothing_is_delivered_from_a_chain_shallower_than_the_confirmation_depth() {

    let mut harness = harness();
    harness.custody_mut().deposit(ALPHA, Amount(1_000)).unwrap();
    assert_eq!(harness.indexer().horizon(harness.custody().log().head()), None);
    assert_eq!(harness.pump_indexer(), 0);
    assert_eq!(harness.engine().ledger().account(ALPHA).unwrap().free(), Amount(0));

    harness.advance_block();
    assert_eq!(harness.pump_indexer(), 0, "one block deep is still not two");
    harness.advance_block();
    assert!(harness.pump_indexer() > 0 || harness.indexer().delivered_count() > 0);
    assert_eq!(harness.engine().ledger().account(ALPHA).unwrap().free(), Amount(1_000));
}

#[test]
fn one_transaction_with_several_logs_is_deduplicated_per_log_index() {

    let mut harness = harness();
    harness.custody_mut().log_mut().append_transaction(&[
        ChainPayload::BalanceChanged { account: REQUESTER, available: Amount(700) },
        ChainPayload::BalanceChanged { account: ALPHA, available: Amount(300) },
    ]);
    confirm(&mut harness);

    assert_eq!(harness.indexer().delivered_count(), 2, "both logs, one transaction");
    assert_eq!(harness.engine().ledger().account(REQUESTER).unwrap().free(), Amount(700));
    assert_eq!(harness.engine().ledger().account(ALPHA).unwrap().free(), Amount(300));

    harness.indexer_mut().rewind();
    assert_eq!(harness.pump_indexer(), 0);
}
