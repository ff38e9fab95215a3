use rfq::account::AccountIdx;
use rfq::config::Config;
use rfq::ledger::{Ledger, LedgerError, SlabKind};
use rfq::request::ReqIdx;
use rfq::reservation::{ResIdx, ResOwner};
use rfq::types::{Amount, Ts};

const ACCOUNTS: u32 = 3;
const CAPACITY: u32 = 12;
const FUNDING: u64 = CAPACITY as u64;

fn fresh_ledger() -> Ledger {
    let config = Config {
        max_accounts: ACCOUNTS,
        max_reservations: CAPACITY,
        max_requests: 4,
        max_quotes: CAPACITY,
        ..Config::default()
    };
    let mut ledger = Ledger::new(&config);
    for account in 0..ACCOUNTS {
        ledger.apply_mirror_update(AccountIdx(account), Amount(FUNDING)).unwrap();
    }
    ledger
}

struct Dice(u64);

impl Dice {
    fn roll(&mut self) -> u64 {
        self.0 = self.0.wrapping_mul(6_364_136_223_846_793_005).wrapping_add(1_442_695_040_888_963_407);
        self.0 >> 33
    }

    fn below(&mut self, bound: u64) -> u64 {
        self.roll() % bound
    }

    fn op(&mut self) -> Op {
        match self.below(15) {
            0..=5 => Op::Reserve {
                account: self.below(u64::from(ACCOUNTS)) as u32,
                expires_at: 1 + self.below(39),
            },
            6..=7 => Op::Release(self.roll() as usize),
            8..=10 => Op::Commit(self.roll() as usize, self.roll() as usize),
            _ => Op::Normalise {
                account: self.below(u64::from(ACCOUNTS)) as u32,
                now: self.below(45),
            },
        }
    }
}

#[derive(Clone, Copy, Debug)]
enum Op {
    Reserve { account: u32, expires_at: u64 },
    Release(usize),
    Commit(usize, usize),
    Normalise { account: u32, now: u64 },
}

struct Model {
    reserved: Vec<(ResIdx, u32, u64)>,
    committed: Vec<(ResIdx, u32, u64)>,
}

#[test]
fn invariants_1_and_2_hold_over_randomised_sequences() {
    for seed in 0..60_u64 {
        let mut dice = Dice(seed);
        let mut ledger = fresh_ledger();
        let capacity = ledger.reservation_capacity();
        let requests: Vec<ReqIdx> = (0..4).map(|_| ledger.open_request().unwrap()).collect();
        let mut model = Model { reserved: Vec::new(), committed: Vec::new() };

        for _ in 0..200 {
            match dice.op() {
                Op::Reserve { account, expires_at } => {
                    let account = AccountIdx(account);
                    let Ok(quote) = ledger.open_quote() else { continue };
                    match ledger.reserve(account, Amount(1), Ts(expires_at), ResOwner::Quote(quote)) {
                        Ok(claim) => model.reserved.push((claim, account.0, expires_at)),
                        Err(LedgerError::SlabExhausted { slab: SlabKind::Reservation }) => {
                            assert_eq!(ledger.reservation_count(), capacity);
                        }
                        Err(LedgerError::InsufficientFree) => {
                            let entry = ledger.account(account).unwrap();
                            assert_eq!(entry.available(), Amount(0));
                        }
                        Err(other) => panic!("unexpected reserve rejection: {other:?}"),
                    }
                }
                Op::Release(pick) => {
                    if !model.reserved.is_empty() {
                        let (claim, ..) = model.reserved.remove(pick % model.reserved.len());
                        assert_eq!(ledger.release(claim), Ok(Amount(1)));
                    }
                }
                Op::Commit(claim_pick, request_pick) => {
                    if !model.reserved.is_empty() {
                        let entry = model.reserved.remove(claim_pick % model.reserved.len());
                        let request = requests[request_pick % requests.len()];
                        assert_eq!(ledger.commit(entry.0, request), Ok(()));
                        model.committed.push(entry);
                    }
                }
                Op::Normalise { account, now } => {
                    let account = AccountIdx(account);
                    let now = Ts(now);
                    let reclaimed = ledger.release_expired(account, now).unwrap();
                    assert_eq!(ledger.check_normalised(account, now), Ok(()));
                    let before = model.reserved.len();
                    model.reserved.retain(|(_, owner, expires_at)| {
                        !(*owner == account.0 && now.0 >= *expires_at)
                    });
                    assert_eq!(reclaimed as usize, before - model.reserved.len());
                }
            }

            assert_eq!(ledger.check_invariants(), Ok(()));
            assert_eq!(ledger.reservation_capacity(), capacity);
            assert!(ledger.reservation_count() <= capacity);
            for (claim, ..) in model.reserved.iter().chain(model.committed.iter()) {
                assert!(ledger.reservation(*claim).is_some());
            }
        }

        for account in 0..ACCOUNTS {
            let entry = ledger.account(AccountIdx(account)).unwrap();
            let reserved = model.reserved.iter().filter(|(_, a, _)| *a == account).count() as u64;
            let committed = model.committed.iter().filter(|(_, a, _)| *a == account).count() as u64;
            assert_eq!(entry.reserved(), Amount(reserved));
            assert_eq!(entry.committed(), Amount(committed));
        }
    }
}

#[test]
fn committed_capital_survives_every_normalisation() {
    for seed in 0..60_u64 {
        let mut dice = Dice(seed);
        let mut ledger = fresh_ledger();
        let request = ledger.open_request().unwrap();
        let mut committed: Vec<(ResIdx, u32, u64)> = Vec::new();
        let mut siblings: Vec<(ResIdx, u32, u64)> = Vec::new();

        for _ in 0..1 + dice.below(4) {
            let account = AccountIdx(dice.below(u64::from(ACCOUNTS)) as u32);
            let expires_at = 1 + dice.below(29);
            let (Ok(quote_a), Ok(quote_b)) = (ledger.open_quote(), ledger.open_quote()) else {
                continue;
            };
            let Ok(claim) = ledger.reserve(account, Amount(1), Ts(expires_at), ResOwner::Quote(quote_a))
            else {
                continue;
            };
            let Ok(sibling) = ledger.reserve(account, Amount(1), Ts(expires_at), ResOwner::Quote(quote_b))
            else {
                ledger.release(claim).unwrap();
                continue;
            };
            assert_eq!(ledger.commit(claim, request), Ok(()));
            committed.push((claim, account.0, expires_at));
            siblings.push((sibling, account.0, expires_at));
        }
        assert!(!committed.is_empty(), "the run must actually commit something");

        let committed_total: Vec<Amount> = (0..ACCOUNTS)
            .map(|a| ledger.account(AccountIdx(a)).unwrap().committed())
            .collect();

        let mut nows: Vec<u64> = (0..dice.below(8)).map(|_| dice.below(30)).collect();
        nows.push(31);
        for now in nows {
            for account in 0..ACCOUNTS {
                let account = AccountIdx(account);
                ledger.release_expired(account, Ts(now)).unwrap();
                assert_eq!(ledger.check_normalised(account, Ts(now)), Ok(()));
            }
            assert_eq!(ledger.check_invariants(), Ok(()));
            for (claim, _, _) in &committed {
                let reservation = ledger.reservation(*claim).expect("a committed claim was reclaimed");
                assert!(reservation.is_committed());
                assert_eq!(reservation.expires_at(), None);
                assert_eq!(reservation.committed_to(), Some(request));
            }
            for account in 0..ACCOUNTS {
                assert_eq!(
                    ledger.account(AccountIdx(account)).unwrap().committed(),
                    committed_total[account as usize]
                );
            }
        }

        for (sibling, _, expires_at) in &siblings {
            assert!(
                ledger.reservation(*sibling).is_none(),
                "a reserved claim expiring at {expires_at} survived normalisation past it"
            );
        }
        for account in 0..ACCOUNTS {
            assert_eq!(ledger.account(AccountIdx(account)).unwrap().reserved(), Amount(0));
        }
    }
}
