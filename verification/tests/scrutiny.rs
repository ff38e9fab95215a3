//! Whole scenarios with the cross-system invariants checked after every operation.

use rfq::account::AccountIdx;
use rfq::chain::custody::CustodyError;
use rfq::clock::TestClock;
use rfq::command::{Command, ExpectedFill, LegSpec};
use rfq::config::{Config, MAX_LEGS};
use rfq::contract::{ContractIdx, OracleStatus, Outcome};
use rfq::engine::EngineError;
use rfq::escrow::EscrowId;
use rfq::request::{ReqIdx, RequestState};
use rfq::runtime::harness::{Harness, HarnessError};
use rfq::settlement::TxStatus;
use rfq::types::{Amount, Dur, LegId, Price, Side, Size, Ts};

const REQUESTER: AccountIdx = AccountIdx(0);
const ALPHA: AccountIdx = AccountIdx(1);
const BETA: AccountIdx = AccountIdx(2);
const SEPTEMBER: ContractIdx = ContractIdx(0);
const OCTOBER: ContractIdx = ContractIdx(1);
const EVENT_DATE: Ts = Ts(50_000_000);
const FUNDS: Amount = Amount(200_000_000);

fn config() -> Config {
    Config {
        max_accounts: 4,
        max_reservations: 32,
        max_requests: 4,
        max_quotes: 32,
        max_contracts: 4,
        max_escrows: 16,
        ..Config::default()
    }
}

/// A harness that is held to its invariants after every operation: to the ones that hold at every
/// instant, and to claim coverage as well wherever no settlement can be in between.
struct Watched {
    harness: Harness<TestClock, TestClock>,
    checks: u32,
}

impl Watched {
    fn new(config: Config) -> Self {
        let clock = TestClock::at(Ts(1_000));
        Watched { harness: Harness::new(config, clock, clock, clock).unwrap(), checks: 0 }
    }

    fn settlement_holds(&mut self) {
        self.checks += 1;
        assert_eq!(self.harness.check_settlement_invariants(), Ok(()));
        assert_eq!(self.harness.check_conservation_only(), Ok(()));
        assert_eq!(self.harness.engine().ledger().check_invariants(), Ok(()));
        assert_eq!(self.harness.engine().ledger().check_claim_state_coherence(), Ok(()));
    }

    fn everything_holds(&mut self) {
        self.settlement_holds();
        assert_eq!(self.harness.check_cross_system_invariants(), Ok(()));
    }

    fn deposit(&mut self, account: AccountIdx, amount: Amount) {
        self.harness.deposit(account, amount).unwrap();
        self.settlement_holds();
    }

    fn request_withdrawal(&mut self, account: AccountIdx, amount: Amount) -> Ts {
        let matures_at = self.harness.request_withdrawal(account, amount).unwrap();
        self.everything_holds();
        matures_at
    }

    fn execute_withdrawal(&mut self, account: AccountIdx) -> Result<Amount, HarnessError> {
        let outcome = self.harness.execute_withdrawal(account);
        self.settlement_holds();
        outcome
    }

    fn apply(&mut self, command: Command) -> Result<(), HarnessError> {
        let outcome = self.harness.apply(command);
        self.everything_holds();
        outcome
    }

    fn submit_pending(&mut self) {
        self.harness.submit_pending();
        self.settlement_holds();
    }

    fn include_all(&mut self) -> Vec<TxStatus> {
        let included = self.harness.include_all();
        self.settlement_holds();
        included.iter().map(|tx| tx.status).collect()
    }

    fn poll(&mut self, request: ReqIdx) -> Result<TxStatus, HarnessError> {
        let status = self.harness.poll_settlement(request);
        self.everything_holds();
        status
    }

    fn report(&mut self, contract: ContractIdx) -> OracleStatus {
        let status = self.harness.report_oracle_status(contract).unwrap();
        self.settlement_holds();
        status
    }

    fn pay_out(
        &mut self,
        escrow: EscrowId,
        contract: ContractIdx,
        outcome: Outcome,
    ) -> Vec<Result<bool, CustodyError>> {
        self.harness.request_escrow_settlement(escrow, contract, outcome);
        self.settlement_holds();
        let paid = self.harness.apply_payouts();
        self.settlement_holds();
        paid
    }

    fn advance_block(&mut self) {
        self.harness.advance_block();
        self.settlement_holds();
    }

    fn state(&self, request: ReqIdx) -> RequestState {
        self.harness.engine().ledger().request(request).unwrap().state()
    }

    fn balance(&self, account: AccountIdx) -> Amount {
        self.harness.custody().ledger().balance(account)
    }

    fn open_market(&mut self) -> ReqIdx {
        for account in [REQUESTER, ALPHA, BETA] {
            self.deposit(account, FUNDS);
        }
        for contract in [SEPTEMBER, OCTOBER] {
            self.apply(Command::RegisterContract { contract, event_date: EVENT_DATE }).unwrap();
        }
        self.open_request()
    }

    fn open_request(&mut self) -> ReqIdx {
        let mut legs = [LegSpec::default(); MAX_LEGS];
        legs[0] = LegSpec {
            contract: SEPTEMBER,
            side: Side::Yes,
            size: Size(100),
            limit: Price(650_000),
        };
        legs[1] = LegSpec {
            contract: OCTOBER,
            side: Side::No,
            size: Size(50),
            limit: Price(500_000),
        };
        let deadline = Ts(self.harness.engine_now().0 + 100_000);
        self.apply(Command::SubmitRequest { requester: REQUESTER, deadline, legs, n_legs: 2 })
            .unwrap();
        self.harness.engine().ledger().requests().last().unwrap().0
    }

    fn quote(&mut self, maker: AccountIdx, request: ReqIdx, leg: u8, price: u32) {
        let expires_at = Ts(self.harness.engine_now().0 + 20_000);
        self.apply(Command::SubmitQuote {
            maker,
            request,
            leg: LegId(leg),
            price: Price(price),
            size: Size(100),
            expires_at,
        })
        .unwrap();
    }

    fn accept(&mut self, request: ReqIdx, prices: [u32; 2]) -> Result<(), HarnessError> {
        let mut expected = [ExpectedFill::default(); MAX_LEGS];
        for (index, price) in prices.into_iter().enumerate() {
            expected[index] = ExpectedFill { leg: LegId(index as u8), price: Price(price) };
        }
        self.apply(Command::AcceptRequest { request, expected, n_legs: 2 })
    }
}

#[test]
fn a_venue_holds_its_invariants_from_deposit_to_payout() {
    let mut venue = Watched::new(config());
    let request = venue.open_market();
    venue.quote(ALPHA, request, 0, 620_000);
    venue.quote(BETA, request, 0, 610_000);
    venue.quote(ALPHA, request, 0, 615_000);
    venue.quote(ALPHA, request, 1, 450_000);
    assert!(venue.accept(request, [600_000, 450_000]).is_err(), "the presentation is stale");
    venue.accept(request, [610_000, 450_000]).unwrap();
    assert_eq!(venue.poll(request), Ok(TxStatus::Unknown));

    // The first send is lost; the retry is included.
    venue.submit_pending();
    assert_eq!(venue.poll(request), Ok(TxStatus::Pending));
    assert!(venue.harness.lose_next_submission());
    venue.settlement_holds();
    venue.harness.resubmit(request).unwrap();
    venue.harness.resubmit(request).unwrap();
    venue.settlement_holds();
    assert_eq!(venue.include_all(), vec![TxStatus::Settled, TxStatus::Settled]);
    assert_eq!(venue.state(request), RequestState::Escrowed);
    assert_eq!(
        venue.poll(request),
        Err(HarnessError::Engine(EngineError::RequestNotSettling))
    );
    assert_eq!(venue.harness.escrows(), &[EscrowId(0), EscrowId(1)]);
    assert_eq!(venue.balance(REQUESTER), Amount(FUNDS.0 - 61_000_000 - 22_500_000));
    assert_eq!(venue.balance(ALPHA), Amount(FUNDS.0 - 27_500_000));
    assert_eq!(venue.balance(BETA), Amount(FUNDS.0 - 39_000_000));

    // A payout before its outcome moves nothing, and so does a second one after it.
    assert_eq!(venue.pay_out(EscrowId(0), SEPTEMBER, Outcome::Yes), vec![]);
    venue.harness.oracle_mut().propose(SEPTEMBER, Outcome::Yes).unwrap();
    assert_eq!(venue.report(SEPTEMBER), OracleStatus::InProgress);
    venue.harness.oracle_mut().clock_mut().set(Ts(8_000_000));
    venue.harness.oracle_mut().finalise(SEPTEMBER).unwrap();
    assert_eq!(venue.report(SEPTEMBER), OracleStatus::Final(Outcome::Yes));
    assert_eq!(venue.pay_out(EscrowId(0), SEPTEMBER, Outcome::Yes), vec![Ok(true)]);
    assert_eq!(venue.pay_out(EscrowId(0), SEPTEMBER, Outcome::Yes), vec![Ok(false)]);
    assert_eq!(venue.balance(REQUESTER), Amount(FUNDS.0 + 39_000_000 - 22_500_000));
    venue.everything_holds();

    // Money leaves, no sooner than the delay allows.
    let matures_at = venue.request_withdrawal(BETA, Amount(100_000_000));
    assert_eq!(
        venue.execute_withdrawal(BETA),
        Err(HarnessError::Custody(CustodyError::WithdrawalNotMatured))
    );
    venue.harness.set_both_clocks(matures_at);
    assert_eq!(venue.execute_withdrawal(BETA), Ok(Amount(100_000_000)));
    venue.everything_holds();

    // And a request that nobody accepts gives everything back.
    let second = venue.open_request();
    venue.quote(ALPHA, second, 0, 640_000);
    venue.apply(Command::RejectRequest { request: second }).unwrap();
    assert_eq!(venue.state(second), RequestState::Rejected);
    assert_eq!(venue.harness.engine().ledger().reservation_count(), 0);
    assert!(venue.checks > 30);
}

#[test]
fn a_venue_with_confirmations_holds_its_invariants_at_every_block() {
    let mut venue =
        Watched::new(Config { confirmations: 2, block_time: Dur(1_000), ..config() });
    for account in [REQUESTER, ALPHA, BETA] {
        venue.deposit(account, FUNDS);
    }
    for contract in [SEPTEMBER, OCTOBER] {
        venue.apply(Command::RegisterContract { contract, event_date: EVENT_DATE }).unwrap();
    }
    assert_eq!(venue.harness.engine().ledger().account(ALPHA).unwrap().free(), Amount(0));
    venue.advance_block();
    venue.advance_block();
    assert_eq!(venue.harness.engine().ledger().account(ALPHA).unwrap().free(), FUNDS);

    let request = venue.open_request();
    venue.quote(ALPHA, request, 0, 600_000);
    venue.quote(BETA, request, 1, 450_000);
    venue.accept(request, [600_000, 450_000]).unwrap();
    venue.submit_pending();
    assert_eq!(venue.include_all(), vec![TxStatus::Settled]);
    assert!(matches!(venue.state(request), RequestState::Settling { .. }), "not deep enough");
    venue.everything_holds();
    // What a poll sees is final, and is not the poll's to deliver.
    assert_eq!(venue.poll(request), Ok(TxStatus::Settled));
    assert!(matches!(venue.state(request), RequestState::Settling { .. }));
    venue.advance_block();
    venue.advance_block();
    assert_eq!(venue.state(request), RequestState::Escrowed);
    venue.everything_holds();
}

#[test]
fn a_stalled_indexer_leaves_the_instantaneous_invariants_standing() {
    let laggy = Config {
        max_indexer_lag: Dur(400_000),
        withdrawal_delay: Dur(760_001),
        ..config()
    };
    let mut venue = Watched::new(laggy);
    let request = venue.open_market();
    venue.harness.stall_indexer();
    venue.settlement_holds();
    venue.request_withdrawal(BETA, FUNDS);
    venue.quote(BETA, request, 0, 600_000);
    venue.quote(ALPHA, request, 1, 450_000);
    venue.accept(request, [600_000, 450_000]).unwrap();
    venue.submit_pending();
    assert_eq!(venue.include_all(), vec![TxStatus::Settled]);
    assert!(matches!(venue.state(request), RequestState::Settling { .. }));
    venue.harness.resume_indexer();
    venue.settlement_holds();
    assert_eq!(venue.state(request), RequestState::Escrowed);
    venue.everything_holds();
}
