//! What each operation of custody does, account by account and in plain numbers.

use crate::account::AccountIdx;
use crate::chain::bundle::{Bundle, BundleLeg};
use crate::chain::custody::model::{first_leg_fault, leg_fault, owed, party, CustodyView};
use crate::chain::custody::money::{
    debts_are_covered, deposit_wf, execution_wf, no_leg_is_faulty, no_party_before, payout_wf,
    settleable,
};
use crate::chain::custody::queue::ChainState;
use crate::chain::custody::{
    Balance, CustodyError, CustodyLedger, IncludedTx, SettleError, SettleReceipt,
};
use crate::chain::escrow::{Escrow, EscrowState};
use crate::chain::log::ChainPayload;
use crate::config::MAX_LEGS;
use crate::contract::{ContractIdx, Outcome};
use crate::escrow::EscrowId;
use crate::request::Nonce;
use crate::settlement::TxStatus;
use crate::types::{Amount, Dur, Side, Ts};
use vstd::prelude::*;

verus! {

/// Everything but the accounts, the escrows, the nonces and the log is as it was.
pub open spec fn books_kept(before: CustodyView, after: CustodyView) -> bool {
    &&& after.accounts.len() == before.accounts.len()
    &&& after.max_escrows == before.max_escrows
    &&& after.delay == before.delay
    &&& after.deposited == before.deposited
    &&& after.withdrawn == before.withdrawn
}

/// Nobody's entry but account `a`'s has moved.
pub open spec fn others_kept(before: CustodyView, after: CustodyView, a: int) -> bool {
    &&& after.accounts.len() == before.accounts.len()
    &&& forall|b: int|
        0 <= b < before.accounts.len() && b != a ==> #[trigger] after.accounts[b]
            == before.accounts[b]
}

/// The log has gained exactly `payloads`, in one transaction at the head.
pub open spec fn said_exactly(
    before: CustodyView,
    after: CustodyView,
    payloads: Seq<ChainPayload>,
) -> bool {
    let n = before.log.entries.len() as int;
    &&& after.log.head == before.log.head
    &&& after.log.entries.len() == n + payloads.len()
    &&& forall|i: int| 0 <= i < n ==> #[trigger] after.log.entries[i] == before.log.entries[i]
    &&& forall|k: int|
        0 <= k < payloads.len() ==> {
            let entry = #[trigger] after.log.entries[n + k];
            entry.payload == payloads[k] && entry.block == before.log.head
        }
}

// ───────────────────────────── deposits and withdrawals ─────────────────────────────

/// What an account may lend is its balance less what is on its way out, and nothing where more is
/// on its way out than is there.
pub proof fn availability_is_balance_less_pending(entry: Balance)
    ensures
        entry.pending.0 <= entry.balance.0 ==> entry.spare().0 + entry.pending.0
            == entry.balance.0,
        entry.pending.0 > entry.balance.0 ==> entry.spare().0 == 0,
{
}

/// **A deposit adds to its account's balance and touches nothing else of it**: the balance and the
/// deposited total rise by exactly the amount, what the account has available rises by exactly the
/// amount wherever its pending withdrawal was covered, and that withdrawal, its amount and its
/// maturity, stands as it was. Nobody else's entry moves. It is refused for an account that is not
/// there and for a total that no longer fits, and for nothing else.
pub proof fn a_deposit_adds_exactly_its_amount(
    custody: CustodyView,
    account: AccountIdx,
    amount: Amount,
)
    requires
        custody.wf(),
    ensures
        custody.deposited.0 + amount.0 > u64::MAX ==> custody.deposit_refused(account, amount)
            == Some(CustodyError::AmountOverflow),
        custody.deposited.0 + amount.0 <= u64::MAX && account.0 >= custody.accounts.len()
            ==> custody.deposit_refused(account, amount) == Some(CustodyError::UnknownAccount),
        custody.deposited.0 + amount.0 <= u64::MAX && account.0 < custody.accounts.len() ==> {
            let after = custody.after_deposit(account, amount);
            let a = account.0 as int;
            let (was, is) = (custody.accounts[a], after.accounts[a]);
            &&& custody.deposit_refused(account, amount) is None
            &&& is.balance.0 == was.balance.0 + amount.0
            &&& is.pending == was.pending
            &&& is.matures_at == was.matures_at
            &&& was.pending.0 <= was.balance.0 ==> after.available(account).0
                == custody.available(account).0 + amount.0
            &&& after.deposited.0 == custody.deposited.0 + amount.0
            &&& after.withdrawn == custody.withdrawn
            &&& after.delay == custody.delay
            &&& after.escrows == custody.escrows
            &&& after.nonces == custody.nonces
            &&& after.max_escrows == custody.max_escrows
            &&& others_kept(custody, after, a)
            &&& said_exactly(
                custody,
                after,
                seq![ChainPayload::BalanceChanged { account, available: after.available(account) }],
            )
        },
{
    if custody.deposited.0 + amount.0 <= u64::MAX && account.0 < custody.accounts.len() {
        deposit_wf(custody, account, amount);
    }
}

/// `account` has `amount` more, and everything else of it, and of everybody else, is as it was.
pub open spec fn only_deposits(
    before: CustodyView,
    after: CustodyView,
    account: AccountIdx,
    amount: Amount,
) -> bool {
    let a = account.0 as int;
    &&& after.accounts[a].balance.0 == before.accounts[a].balance.0 + amount.0
    &&& after.accounts[a].pending == before.accounts[a].pending
    &&& after.accounts[a].matures_at == before.accounts[a].matures_at
    &&& after.deposited.0 == before.deposited.0 + amount.0
    &&& after.withdrawn == before.withdrawn
    &&& after.escrows == before.escrows
    &&& after.nonces == before.nonces
    &&& others_kept(before, after, a)
}

/// **After a deposit that is taken, its account has its amount more and its pending withdrawal as it
/// was**, and after one that is refused everything is as it was. It is taken wherever the account is
/// there and the total fits.
pub proof fn depositing_only_adds(account: AccountIdx, amount: Amount, r: Result<(), CustodyError>)
    ensures
        forall|custody: &mut CustodyLedger| #[trigger]
            call_ensures(CustodyLedger::deposit, (custody, account, amount), r) && (*custody).wf()
                ==> if (*custody)@.deposited.0 + amount.0 <= u64::MAX && account.0
                < (*custody)@.accounts.len() {
                r is Ok && only_deposits((*custody)@, final(custody)@, account, amount)
            } else {
                r is Err && final(custody)@ == (*custody)@
            },
{
    assert forall|custody: &mut CustodyLedger| #[trigger]
        call_ensures(CustodyLedger::deposit, (custody, account, amount), r) && (*custody).wf()
    implies if (*custody)@.deposited.0 + amount.0 <= u64::MAX && account.0
        < (*custody)@.accounts.len() {
        r is Ok && only_deposits((*custody)@, final(custody)@, account, amount)
    } else {
        r is Err && final(custody)@ == (*custody)@
    } by {
        a_deposit_adds_exactly_its_amount((*custody)@, account, amount);
    }
}

/// **A withdrawal request marks its amount as leaving and moves nothing**: the balance stays, what
/// the account has available drops by the amount, and it matures exactly one delay later. It is
/// refused for an account that is not there, while another is pending, for more than is available,
/// and for an instant past the end of time, and for nothing else.
pub proof fn a_withdrawal_request_marks_exactly_its_amount(
    custody: CustodyView,
    account: AccountIdx,
    amount: Amount,
    now: Ts,
)
    ensures
        ({
            let refused = custody.withdrawal_refused(account, amount, now);
            let a = account.0 as int;
            let was = custody.accounts[a];
            if account.0 >= custody.accounts.len() {
                refused == Some(CustodyError::UnknownAccount)
            } else if was.pending.0 > 0 {
                refused == Some(CustodyError::WithdrawalAlreadyPending)
            } else if amount.0 > was.balance.0 {
                refused == Some(CustodyError::InsufficientAvailable)
            } else if now.0 + custody.delay.0 > u64::MAX {
                refused == Some(CustodyError::AmountOverflow)
            } else {
                let after = custody.withdrawal_requested(account, amount, now);
                let is = after.accounts[a];
                &&& refused is None
                &&& is.balance == was.balance
                &&& is.pending == amount
                &&& is.matures_at.0 == now.0 + custody.delay.0
                &&& after.available(account).0 == was.balance.0 - amount.0
                &&& books_kept(custody, after)
                &&& after.escrows == custody.escrows
                &&& after.nonces == custody.nonces
                &&& others_kept(custody, after, a)
                &&& said_exactly(
                    custody,
                    after,
                    seq![
                        ChainPayload::BalanceChanged {
                            account,
                            available: Amount((was.balance.0 - amount.0) as u64),
                        },
                    ],
                )
            }
        }),
{
}

/// **Executing a withdrawal pays what is pending, from maturity on and never before**: what is
/// pending where it is still there, else what is there; and then nothing is pending any more.
pub proof fn an_execution_pays_what_is_pending(
    custody: CustodyView,
    account: AccountIdx,
    now: Ts,
)
    requires
        custody.wf(),
    ensures
        ({
            let refused = custody.execution_refused(account, now);
            let a = account.0 as int;
            let was = custody.accounts[a];
            if account.0 >= custody.accounts.len() {
                refused == Some(CustodyError::UnknownAccount)
            } else if was.pending.0 == 0 {
                refused == Some(CustodyError::NoWithdrawalPending)
            } else if now.0 < was.matures_at.0 {
                refused == Some(CustodyError::WithdrawalNotMatured)
            } else {
                let after = custody.withdrawal_executed(account);
                let paid = custody.payable(account);
                let is = after.accounts[a];
                &&& refused is None
                &&& was.pending.0 <= was.balance.0 ==> paid == was.pending
                &&& was.pending.0 > was.balance.0 ==> paid == was.balance
                &&& is.balance.0 + paid.0 == was.balance.0
                &&& is.pending.0 == 0
                &&& after.withdrawn.0 == custody.withdrawn.0 + paid.0
                &&& after.deposited == custody.deposited
                &&& after.delay == custody.delay
                &&& after.max_escrows == custody.max_escrows
                &&& after.escrows == custody.escrows
                &&& after.nonces == custody.nonces
                &&& others_kept(custody, after, a)
                &&& said_exactly(
                    custody,
                    after,
                    seq![ChainPayload::BalanceChanged { account, available: is.balance }],
                )
            }
        }),
{
    if custody.execution_refused(account, now) is None {
        execution_wf(custody, account, now);
    }
}

/// **A deposit never disturbs a withdrawal**: one that was pending before a deposit executes at its
/// maturity, for its full amount.
pub proof fn a_deposit_leaves_a_pending_withdrawal_to_execute(
    custody: CustodyView,
    account: AccountIdx,
    asked: Amount,
    requested_at: Ts,
    deposited: Amount,
    now: Ts,
)
    requires
        custody.withdrawal_refused(account, asked, requested_at) is None,
        asked.0 > 0,
        ({
            let pending = custody.withdrawal_requested(account, asked, requested_at);
            pending.wf() && pending.deposit_refused(account, deposited) is None
        }),
        now.0 >= requested_at.0 + custody.delay.0,
    ensures
        ({
            let pending = custody.withdrawal_requested(account, asked, requested_at);
            let after = pending.after_deposit(account, deposited);
            let a = account.0 as int;
            &&& after.execution_refused(account, now) is None
            &&& after.payable(account) == asked
            &&& after.withdrawal_executed(account).accounts[a].balance.0
                == custody.accounts[a].balance.0 + deposited.0 - asked.0
        }),
{
    let pending = custody.withdrawal_requested(account, asked, requested_at);
    deposit_wf(pending, account, deposited);
}

/// **Executing everything that has matured executes exactly that**: account by account, a pending
/// withdrawal whose maturity has come is paid out and cleared, and every other entry stays as it
/// was.
pub proof fn maturing_executes_exactly_what_is_due(custody: CustodyView, now: Ts, n: nat)
    requires
        custody.wf(),
        n <= custody.accounts.len(),
    ensures
        ({
            let after = custody.matured(now, n);
            &&& after.wf()
            &&& after.accounts.len() == custody.accounts.len()
            &&& after.deposited == custody.deposited
            &&& after.delay == custody.delay
            &&& after.max_escrows == custody.max_escrows
            &&& after.escrows == custody.escrows
            &&& after.nonces == custody.nonces
            &&& forall|a: int| n <= a < custody.accounts.len() ==> #[trigger] after.accounts[a]
                == custody.accounts[a]
            &&& forall|a: int|
                0 <= a < n ==> {
                    let was = custody.accounts[a];
                    let is = #[trigger] after.accounts[a];
                    if was.pending.0 > 0 && was.matures_at.0 <= now.0 {
                        &&& is.pending.0 == 0
                        &&& is.balance.0 == (if was.pending.0 <= was.balance.0 {
                            was.balance.0 - was.pending.0
                        } else {
                            0
                        })
                    } else {
                        is == was
                    }
                }
        }),
    decreases n,
{
    if n > 0 {
        let m = (n - 1) as nat;
        maturing_executes_exactly_what_is_due(custody, now, m);
        let before = custody.matured(now, m);
        let account = AccountIdx((n - 1) as u32);
        if before.execution_refused(account, now) is None {
            execution_wf(before, account, now);
        }
    }
}

/// As many withdrawals are executed as there are accounts with one that has matured.
pub proof fn due_counts_what_has_matured(custody: CustodyView, now: Ts, n: nat)
    requires
        n < custody.accounts.len() <= u32::MAX,
    ensures
        ({
            let entry = custody.accounts[n as int];
            custody.due(now, n + 1) == custody.due(now, n) + (if entry.pending.0 > 0
                && entry.matures_at.0 <= now.0 {
                1nat
            } else {
                0nat
            })
        }),
        custody.due(now, 0) == 0,
{
}

// ───────────────────────────── settlement ─────────────────────────────

/// What `legs` take from account `a` over the first `n` of them, with `requester` on the other
/// side of each: `size * (UNIT - price)` of every leg it makes, and `size * price` of every leg
/// where it is the requester.
pub open spec fn debit(legs: Seq<BundleLeg>, requester: AccountIdx, a: int, n: nat) -> int
    decreases n,
{
    if n == 0 {
        0
    } else {
        let leg = legs[n - 1];
        debit(legs, requester, a, (n - 1) as nat) + (if leg.maker.0 == a {
            leg.size.0 * (1_000_000 - leg.fill_price.0)
        } else {
            0
        }) + (if requester.0 == a {
            leg.size.0 * leg.fill_price.0
        } else {
            0
        })
    }
}

/// What a bundle has an account owe is what its legs take from it.
pub proof fn debts_are_debits(bundle: Bundle, a: int, n: nat)
    ensures
        owed(bundle, a, n) == debit(bundle.legs@, bundle.requester, a, n),
    decreases n,
{
    if n > 0 {
        debts_are_debits(bundle, a, (n - 1) as nat);
    }
}

/// **A settlement debits every party once and forms one escrow per leg**: every account pays what
/// the legs take from it and no other part of its entry moves; each escrow holds what its leg's two
/// sides put in, under the leg's own terms; the nonce is spent; and everyone who paid is announced.
pub proof fn a_settlement_debits_and_forms(custody: CustodyView, bundle: Bundle, now: Ts)
    requires
        custody.wf(),
        custody.reverts(bundle, now) is None,
    ensures
        ({
            let after = custody.settled(bundle);
            let n = bundle.n_legs as nat;
            let formed = custody.escrows.len() as int;
            &&& books_kept(custody, after)
            &&& forall|a: int|
                0 <= a < custody.accounts.len() ==> {
                    let (was, is) = (custody.accounts[a], #[trigger] after.accounts[a]);
                    &&& is.balance.0 == was.balance.0 - debit(
                        bundle.legs@,
                        bundle.requester,
                        a,
                        n,
                    )
                    &&& is.pending == was.pending
                    &&& is.matures_at == was.matures_at
                }
            &&& after.escrows.len() == formed + n
            &&& forall|i: int|
                0 <= i < formed ==> #[trigger] after.escrows[i] == custody.escrows[i]
            &&& forall|k: int|
                0 <= k < n ==> {
                    let escrow = #[trigger] after.escrows[formed + k];
                    let leg = bundle.legs@[k];
                    &&& escrow.contract == leg.contract
                    &&& escrow.side == leg.side
                    &&& escrow.size == leg.size
                    &&& escrow.requester == bundle.requester
                    &&& escrow.maker == leg.maker
                    &&& escrow.requester_contribution.0 == leg.size.0 * leg.fill_price.0
                    &&& escrow.maker_contribution.0 == leg.size.0 * (1_000_000
                        - leg.fill_price.0)
                    &&& escrow.state == EscrowState::Locked
                }
            &&& after.nonces == custody.nonces.push(bundle.nonce)
            &&& said_exactly(
                custody,
                after,
                Seq::new(
                    n,
                    |k: int|
                        ChainPayload::BalanceChanged {
                            account: bundle.legs@[k].maker,
                            available: after.accounts[bundle.legs@[k].maker.0 as int].spare(),
                        },
                ).push(
                    ChainPayload::BalanceChanged {
                        account: bundle.requester,
                        available: after.accounts[bundle.requester.0 as int].spare(),
                    },
                ).push(
                    ChainPayload::SettlementResolved {
                        nonce: bundle.nonce,
                        status: TxStatus::Settled,
                    },
                ),
            )
        }),
{
    let after = custody.settled(bundle);
    let n = bundle.n_legs as nat;
    settleable(custody, bundle, now);
    assert forall|a: int| 0 <= a < custody.accounts.len() implies {
        let (was, is) = (custody.accounts[a], #[trigger] after.accounts[a]);
        &&& is.balance.0 == was.balance.0 - debit(bundle.legs@, bundle.requester, a, n)
        &&& is.pending == was.pending
        &&& is.matures_at == was.matures_at
    } by {
        debts_are_covered(custody, bundle, now, a);
        debts_are_debits(bundle, a, n);
    }
    assert forall|k: int| 0 <= k < n implies custody.knows((#[trigger] bundle.legs@[k]).maker) by {}
    let entries = custody.debited(bundle).settlement_entries(bundle);
    assert(after.log == custody.log.written(entries));
    let stated = Seq::new(
        n,
        |k: int|
            ChainPayload::BalanceChanged {
                account: bundle.legs@[k].maker,
                available: after.accounts[bundle.legs@[k].maker.0 as int].spare(),
            },
    ).push(
        ChainPayload::BalanceChanged {
            account: bundle.requester,
            available: after.accounts[bundle.requester.0 as int].spare(),
        },
    ).push(ChainPayload::SettlementResolved { nonce: bundle.nonce, status: TxStatus::Settled });
    assert(entries =~= stated);
}

/// **When a bundle settles**: it has as many legs as fit, its nonce is unspent, every leg's quote
/// still binds at custody's instant and is priced within what a contract pays, every party is
/// known and holds, pending withdrawals included, all that the legs together take from it, and the
/// escrow table has room.
pub proof fn a_bundle_settles_exactly_where_it_is_covered(
    custody: CustodyView,
    bundle: Bundle,
    now: Ts,
)
    requires
        custody.wf(),
    ensures
        custody.reverts(bundle, now) is None <==> {
            &&& 0 < bundle.n_legs <= MAX_LEGS
            &&& !custody.nonces.contains(bundle.nonce)
            &&& custody.escrows.len() + bundle.n_legs <= custody.max_escrows
            &&& covers(custody, bundle, bundle.requester)
            &&& forall|k: int|
                0 <= k < bundle.n_legs ==> {
                    let leg = #[trigger] bundle.legs@[k];
                    &&& now.0 < leg.quote_expiry.0
                    &&& leg.fill_price.0 <= 1_000_000
                    &&& covers(custody, bundle, leg.maker)
                }
        },
{
    let n = bundle.n_legs as nat;
    if custody.reverts(bundle, now) is None {
        settleable(custody, bundle, now);
        debts_are_debits(bundle, bundle.requester.0 as int, n);
        assert forall|k: int| 0 <= k < bundle.n_legs implies {
            let leg = #[trigger] bundle.legs@[k];
            &&& now.0 < leg.quote_expiry.0
            &&& leg.fill_price.0 <= 1_000_000
            &&& covers(custody, bundle, leg.maker)
        } by {
            debts_are_debits(bundle, bundle.legs@[k].maker.0 as int, n);
        }
    }
    if 0 < bundle.n_legs <= MAX_LEGS && covers(custody, bundle, bundle.requester) && (forall|k: int|
        0 <= k < bundle.n_legs ==> {
            let leg = #[trigger] bundle.legs@[k];
            &&& now.0 < leg.quote_expiry.0
            &&& leg.fill_price.0 <= 1_000_000
            &&& covers(custody, bundle, leg.maker)
        }) {
        assert forall|k: nat| k < n implies (#[trigger] leg_fault(bundle, now, k)) is None by {
            let leg = bundle.legs@[k as int];
            debts_are_debits(bundle, leg.maker.0 as int, k + 1);
            debts_are_debits(bundle, bundle.requester.0 as int, k + 1);
            debits_grow(bundle, leg.maker.0 as int, k + 1, n);
            debits_grow(bundle, bundle.requester.0 as int, k + 1, n);
            debits_grow(bundle, leg.maker.0 as int, 0, k);
            debits_grow(bundle, bundle.requester.0 as int, 0, k);
            shares(leg);
        }
        no_leg_at_fault(bundle, now, n);
        assert forall|q: nat| q < 2 * n implies custody.party_fault(
            bundle,
            #[trigger] party(bundle, q as int),
        ) is None by {
            let l = q as int / 2;
            assert(0 <= l < n);
            assert(covers(custody, bundle, bundle.legs@[l].maker));
            debts_are_debits(bundle, party(bundle, q as int).0 as int, n);
        }
        no_party_before(custody, bundle, 2 * n);
    }
}

/// `account` is known and holds all that `bundle` takes from it.
pub open spec fn covers(custody: CustodyView, bundle: Bundle, account: AccountIdx) -> bool {
    &&& account.0 < custody.accounts.len()
    &&& debit(bundle.legs@, bundle.requester, account.0 as int, bundle.n_legs as nat)
        <= custody.accounts[account.0 as int].balance.0
}

proof fn shares(leg: BundleLeg)
    requires
        leg.fill_price.0 <= 1_000_000,
    ensures
        0 <= leg.size.0 * leg.fill_price.0,
        0 <= leg.size.0 * (1_000_000 - leg.fill_price.0),
{
    assert(0 <= leg.size.0 * leg.fill_price.0) by (nonlinear_arith);
    assert(0 <= leg.size.0 * (1_000_000 - leg.fill_price.0)) by (nonlinear_arith)
        requires
            leg.fill_price.0 <= 1_000_000,
    ;
}

proof fn debits_grow(bundle: Bundle, a: int, j: nat, n: nat)
    requires
        j <= n,
        forall|k: int| 0 <= k < n ==> (#[trigger] bundle.legs@[k]).fill_price.0 <= 1_000_000,
    ensures
        0 <= debit(bundle.legs@, bundle.requester, a, j) <= debit(
            bundle.legs@,
            bundle.requester,
            a,
            n,
        ),
    decreases n,
{
    if n > 0 {
        shares(bundle.legs@[n - 1]);
        if j < n {
            debits_grow(bundle, a, j, (n - 1) as nat);
        } else {
            debits_grow(bundle, a, (n - 1) as nat, (n - 1) as nat);
        }
    }
}

proof fn no_leg_at_fault(bundle: Bundle, now: Ts, n: nat)
    requires
        forall|k: nat| k < n ==> (#[trigger] leg_fault(bundle, now, k)) is None,
    ensures
        first_leg_fault(bundle, now, n) is None,
    decreases n,
{
    if n > 0 {
        no_leg_at_fault(bundle, now, (n - 1) as nat);
        assert(leg_fault(bundle, now, (n - 1) as nat) is None);
    }
}

/// **Why a bundle reverts**: the error names a fault the bundle has. The number of legs comes
/// first, then the nonce; an expired quote is the first of its kind; whoever is said to lack funds
/// is a party and lacks them.
pub proof fn a_revert_names_its_cause(custody: CustodyView, bundle: Bundle, now: Ts)
    requires
        custody.wf(),
    ensures
        ({
            let n = bundle.n_legs as nat;
            let spent = custody.nonces.contains(bundle.nonce);
            &&& bundle.n_legs == 0 ==> custody.reverts(bundle, now) == Some(SettleError::NoLegs)
            &&& bundle.n_legs > MAX_LEGS ==> custody.reverts(bundle, now) == Some(
                SettleError::TooManyLegs,
            )
            &&& 0 < bundle.n_legs <= MAX_LEGS && spent ==> custody.reverts(bundle, now) == Some(
                SettleError::NonceReused,
            )
            &&& match custody.reverts(bundle, now) {
                None => true,
                Some(SettleError::NoLegs) => bundle.n_legs == 0,
                Some(SettleError::TooManyLegs) => bundle.n_legs > MAX_LEGS,
                Some(SettleError::NonceReused) => spent,
                Some(SettleError::QuoteExpired { leg }) => {
                    &&& leg < bundle.n_legs
                    &&& now.0 >= bundle.legs@[leg as int].quote_expiry.0
                    &&& forall|k: int|
                        0 <= k < leg ==> now.0 < (#[trigger] bundle.legs@[k]).quote_expiry.0
                },
                Some(SettleError::AmountOverflow) => exists|k: int|
                    0 <= k < n && over_priced(bundle, #[trigger] bundle.legs@[k], k),
                Some(SettleError::UnknownAccount) => bundle.requester.0 >= custody.accounts.len()
                    || exists|k: int|
                    0 <= k < n && (#[trigger] bundle.legs@[k]).maker.0 >= custody.accounts.len(),
                Some(SettleError::InsufficientFunds { account }) => {
                    &&& account.0 < custody.accounts.len()
                    &&& custody.accounts[account.0 as int].balance.0 < debit(
                        bundle.legs@,
                        bundle.requester,
                        account.0 as int,
                        n,
                    )
                },
                Some(SettleError::EscrowCapacityExhausted) => custody.escrows.len()
                    + bundle.n_legs > custody.max_escrows,
            }
        }),
{
    let n = bundle.n_legs as nat;
    if 0 < n <= MAX_LEGS && !custody.nonces.contains(bundle.nonce) {
        if first_leg_fault(bundle, now, n) is Some {
            let k = the_faulty_leg(bundle, now, n);
            assert forall|j: int| 0 <= j < k implies now.0 < (
            #[trigger] bundle.legs@[j]).quote_expiry.0 by {
                assert(leg_fault(bundle, now, j as nat) is None);
            }
            let leg = bundle.legs@[k as int];
            debts_are_debits(bundle, leg.maker.0 as int, k + 1);
            debts_are_debits(bundle, bundle.requester.0 as int, k + 1);
            assert(bundle.legs@[k as int] == leg);
        } else if custody.first_party_fault(bundle, 2 * n) is Some {
            let q = the_faulty_party(custody, bundle, 2 * n);
            let account = party(bundle, q as int);
            debts_are_debits(bundle, account.0 as int, n);
            assert(0 <= q as int / 2 < n);
            assert(bundle.legs@[q as int / 2] == bundle.legs@[q as int / 2]);
        }
    }
}

/// Leg `k` is priced above what a contract pays, or takes the sum over its party past what an
/// amount holds.
pub open spec fn over_priced(bundle: Bundle, leg: BundleLeg, k: int) -> bool {
    ||| leg.fill_price.0 > 1_000_000
    ||| leg.size.0 * leg.fill_price.0 > u64::MAX
    ||| leg.size.0 * (1_000_000 - leg.fill_price.0) > u64::MAX
    ||| debit(bundle.legs@, bundle.requester, leg.maker.0 as int, (k + 1) as nat) > u64::MAX
    ||| debit(bundle.legs@, bundle.requester, bundle.requester.0 as int, (k + 1) as nat)
        > u64::MAX
}

proof fn the_faulty_leg(bundle: Bundle, now: Ts, n: nat) -> (k: nat)
    requires
        first_leg_fault(bundle, now, n) is Some,
    ensures
        k < n,
        first_leg_fault(bundle, now, n) == leg_fault(bundle, now, k),
        forall|j: nat| j < k ==> (#[trigger] leg_fault(bundle, now, j)) is None,
    decreases n,
{
    if first_leg_fault(bundle, now, (n - 1) as nat) is Some {
        the_faulty_leg(bundle, now, (n - 1) as nat)
    } else {
        assert forall|j: nat| j < n - 1 implies (#[trigger] leg_fault(bundle, now, j)) is None by {
            no_leg_is_faulty(bundle, now, (n - 1) as nat, j);
        }
        (n - 1) as nat
    }
}

proof fn the_faulty_party(custody: CustodyView, bundle: Bundle, n: nat) -> (q: nat)
    requires
        custody.first_party_fault(bundle, n) is Some,
    ensures
        q < n,
        custody.first_party_fault(bundle, n) == custody.party_fault(
            bundle,
            party(bundle, q as int),
        ),
    decreases n,
{
    if custody.first_party_fault(bundle, (n - 1) as nat) is Some {
        the_faulty_party(custody, bundle, (n - 1) as nat)
    } else {
        (n - 1) as nat
    }
}

// ───────────────────────────── payouts ─────────────────────────────

/// What a payout leaves as it was: every pending withdrawal, the totals, the nonces, the other
/// escrows, and all of the paid escrow but its state.
pub open spec fn payout_keeps(before: CustodyView, after: CustodyView, id: EscrowId) -> bool {
    &&& books_kept(before, after)
    &&& after.nonces == before.nonces
    &&& after.escrows.len() == before.escrows.len()
    &&& forall|i: int|
        0 <= i < before.escrows.len() && i != id.0 ==> #[trigger] after.escrows[i]
            == before.escrows[i]
    &&& after.escrows[id.0 as int] == (Escrow {
        state: EscrowState::Settled,
        ..before.escrows[id.0 as int]
    })
    &&& forall|a: int|
        0 <= a < before.accounts.len() ==> {
            &&& (#[trigger] after.accounts[a]).pending == before.accounts[a].pending
            &&& after.accounts[a].matures_at == before.accounts[a].matures_at
        }
}

/// The balances of `gainer` and nobody else's rise, by `amount`.
pub open spec fn only_gains(
    before: CustodyView,
    after: CustodyView,
    gainer: AccountIdx,
    amount: int,
) -> bool {
    forall|a: int|
        0 <= a < before.accounts.len() ==> (#[trigger] after.accounts[a]).balance.0
            == before.accounts[a].balance.0 + (if a == gainer.0 {
            amount
        } else {
            0
        })
}

/// **Whoever holds the side that happened takes the whole notional, and the other side nothing.**
/// A requester who bought `Yes` is paid on `Yes` and their maker on `No`; a requester who bought
/// `No` is paid on `No` and their maker on `Yes`. What is paid is what the two sides put in, which
/// is what `size` contracts pay. Nobody else is paid anything.
pub proof fn the_side_that_happened_is_paid(
    custody: CustodyView,
    id: EscrowId,
    contract: ContractIdx,
    outcome: Outcome,
)
    requires
        custody.wf(),
        id.0 < custody.escrows.len(),
        custody.escrows[id.0 as int].contract == contract,
        custody.escrows[id.0 as int].state == EscrowState::Locked,
    ensures
        ({
            let escrow = custody.escrows[id.0 as int];
            let after = custody.paid_out(id, outcome);
            let notional = escrow.requester_contribution.0 + escrow.maker_contribution.0;
            &&& notional == escrow.size.0 * 1_000_000
            &&& payout_keeps(custody, after, id)
            &&& escrow.side == Side::Yes && outcome == Outcome::Yes ==> only_gains(
                custody,
                after,
                escrow.requester,
                notional,
            )
            &&& escrow.side == Side::Yes && outcome == Outcome::No ==> only_gains(
                custody,
                after,
                escrow.maker,
                notional,
            )
            &&& escrow.side == Side::No && outcome == Outcome::No ==> only_gains(
                custody,
                after,
                escrow.requester,
                notional,
            )
            &&& escrow.side == Side::No && outcome == Outcome::Yes ==> only_gains(
                custody,
                after,
                escrow.maker,
                notional,
            )
        }),
{
    payout_wf(custody, id, contract, outcome);
    assert(custody.escrow_ok(id.0 as int));
}

/// **A void gives each side back what it put in**, and nobody anything else.
pub proof fn a_void_refunds_each_side_its_own(
    custody: CustodyView,
    id: EscrowId,
    contract: ContractIdx,
)
    requires
        custody.wf(),
        id.0 < custody.escrows.len(),
        custody.escrows[id.0 as int].contract == contract,
        custody.escrows[id.0 as int].state == EscrowState::Locked,
    ensures
        ({
            let escrow = custody.escrows[id.0 as int];
            let after = custody.paid_out(id, Outcome::Void);
            &&& payout_keeps(custody, after, id)
            &&& forall|a: int|
                0 <= a < custody.accounts.len() ==> (#[trigger] after.accounts[a]).balance.0
                    == custody.accounts[a].balance.0 + (if a == escrow.requester.0 {
                    escrow.requester_contribution.0 as int
                } else {
                    0
                }) + (if a == escrow.maker.0 {
                    escrow.maker_contribution.0 as int
                } else {
                    0
                })
        }),
{
    payout_wf(custody, id, contract, Outcome::Void);
}

/// What account `a` is paid of `escrow` under `outcome`: the whole of it on the side that happened,
/// nothing on the other, and each side its own where it is void.
pub open spec fn due_to(escrow: Escrow, outcome: Outcome, a: int) -> int {
    let (bought, sold) = (escrow.requester_contribution.0, escrow.maker_contribution.0);
    let to_requester: int = match (escrow.side, outcome) {
        (Side::Yes, Outcome::Yes) => bought + sold,
        (Side::No, Outcome::No) => bought + sold,
        (Side::Yes, Outcome::No) => 0,
        (Side::No, Outcome::Yes) => 0,
        (_, Outcome::Void) => bought as int,
    };
    let to_maker: int = match (escrow.side, outcome) {
        (Side::Yes, Outcome::Yes) => 0,
        (Side::No, Outcome::No) => 0,
        (Side::Yes, Outcome::No) => bought + sold,
        (Side::No, Outcome::Yes) => bought + sold,
        (_, Outcome::Void) => sold as int,
    };
    (if escrow.requester.0 == a {
        to_requester
    } else {
        0
    }) + (if escrow.maker.0 == a {
        to_maker
    } else {
        0
    })
}

/// Everybody has what is due to them of escrow `id` more, that escrow is settled, and everything else
/// is as it was.
pub open spec fn pays_out(
    before: CustodyView,
    after: CustodyView,
    id: EscrowId,
    outcome: Outcome,
) -> bool {
    let escrow = before.escrows[id.0 as int];
    &&& payout_keeps(before, after, id)
    &&& forall|a: int|
        0 <= a < before.accounts.len() ==> (#[trigger] after.accounts[a]).balance.0
            == before.accounts[a].balance.0 + due_to(escrow, outcome, a)
}

/// **Settling a locked escrow pays the side that happened**: `Ok(true)`, and everybody has what is due
/// to them. Settling a settled one is `Ok(false)`, and settling one that is not there, or for another
/// contract, is an error: both change nothing.
pub proof fn settling_an_escrow_pays_the_side_that_happened(
    id: EscrowId,
    contract: ContractIdx,
    outcome: Outcome,
    r: Result<bool, CustodyError>,
)
    ensures
        forall|custody: &mut CustodyLedger| #[trigger]
            call_ensures(CustodyLedger::settle_escrow, (custody, id, contract, outcome), r) && (
            *custody).wf() ==> {
                let escrow = (*custody)@.escrows[id.0 as int];
                if id.0 >= (*custody)@.escrows.len() || escrow.contract != contract {
                    r is Err && final(custody)@ == (*custody)@
                } else if escrow.state == EscrowState::Locked {
                    r == Ok::<bool, CustodyError>(true) && pays_out(
                        (*custody)@,
                        final(custody)@,
                        id,
                        outcome,
                    )
                } else {
                    r == Ok::<bool, CustodyError>(false) && final(custody)@ == (*custody)@
                }
            },
{
    assert forall|custody: &mut CustodyLedger| #[trigger]
        call_ensures(CustodyLedger::settle_escrow, (custody, id, contract, outcome), r) && (
        *custody).wf() implies {
        let escrow = (*custody)@.escrows[id.0 as int];
        if id.0 >= (*custody)@.escrows.len() || escrow.contract != contract {
            r is Err && final(custody)@ == (*custody)@
        } else if escrow.state == EscrowState::Locked {
            r == Ok::<bool, CustodyError>(true) && pays_out(
                (*custody)@,
                final(custody)@,
                id,
                outcome,
            )
        } else {
            r == Ok::<bool, CustodyError>(false) && final(custody)@ == (*custody)@
        }
    } by {
        let before = (*custody)@;
        let escrow = before.escrows[id.0 as int];
        if id.0 < before.escrows.len() && escrow.contract == contract && escrow.state
            == EscrowState::Locked {
            the_side_that_happened_is_paid(before, id, contract, outcome);
            a_void_refunds_each_side_its_own(before, id, contract);
        }
    }
}

/// **A payout is announced to both sides**, and is refused only for an escrow that is not there or
/// that rests on another contract.
pub proof fn a_payout_is_said_and_refused_by_name(
    custody: CustodyView,
    id: EscrowId,
    contract: ContractIdx,
    outcome: Outcome,
)
    requires
        custody.wf(),
    ensures
        id.0 >= custody.escrows.len() ==> custody.payout_refused(id, contract) == Some(
            CustodyError::UnknownAccount,
        ),
        id.0 < custody.escrows.len() && custody.escrows[id.0 as int].contract != contract
            ==> custody.payout_refused(id, contract) == Some(CustodyError::EscrowContractMismatch),
        id.0 < custody.escrows.len() && custody.escrows[id.0 as int].contract == contract ==> {
            let escrow = custody.escrows[id.0 as int];
            let after = custody.paid_out(id, outcome);
            &&& custody.payout_refused(id, contract) is None
            &&& said_exactly(
                custody,
                after,
                seq![
                    ChainPayload::BalanceChanged {
                        account: escrow.requester,
                        available: after.accounts[escrow.requester.0 as int].spare(),
                    },
                    ChainPayload::BalanceChanged {
                        account: escrow.maker,
                        available: after.accounts[escrow.maker.0 as int].spare(),
                    },
                ],
            )
        },
{
    if id.0 < custody.escrows.len() {
        assert(custody.escrow_ok(id.0 as int));
        let escrow = custody.escrows[id.0 as int];
        let after = custody.paid_out(id, outcome);
        assert(after.available(escrow.requester)
            == after.accounts[escrow.requester.0 as int].spare());
        assert(after.available(escrow.maker) == after.accounts[escrow.maker.0 as int].spare());
    }
}

/// A fresh custody holds nothing, owes nothing and has said nothing.
pub proof fn a_fresh_custody_holds_nothing(
    accounts: u32,
    max_escrows: u32,
    delay: Dur,
)
    ensures
        ({
            let custody = CustodyView::empty(accounts, max_escrows, delay);
            &&& custody.accounts.len() == accounts
            &&& forall|a: int|
                0 <= a < accounts ==> {
                    let entry = #[trigger] custody.accounts[a];
                    entry.balance.0 == 0 && entry.pending.0 == 0
                }
            &&& custody.escrows.len() == 0
            &&& custody.nonces.len() == 0
            &&& custody.max_escrows == max_escrows
            &&& custody.delay == delay
            &&& custody.deposited.0 == 0
            &&& custody.withdrawn.0 == 0
            &&& custody.log.entries.len() == 0
            &&& custody.log.head == 0
        }),
{
}

// ───────────────────────────── submission and inclusion ─────────────────────────────

/// **What is known of a nonce**: settled where custody has consumed it, reverted where an inclusion
/// reverted it, pending while a submission carrying it waits, and otherwise unknown.
pub proof fn what_is_known_of_a_nonce(chain: ChainState, nonce: Nonce)
    ensures
        ({
            let waits = exists|i: int|
                0 <= i < chain.queue.len() && (#[trigger] chain.queue[i]).nonce == nonce;
            let (settled, reverted) = (
                chain.ledger.nonces.contains(nonce),
                chain.reverted.contains(nonce),
            );
            &&& settled ==> chain.status(nonce) == TxStatus::Settled
            &&& !settled && reverted ==> chain.status(nonce) == TxStatus::Reverted
            &&& !settled && !reverted && waits ==> chain.status(nonce) == TxStatus::Pending
            &&& !settled && !reverted && !waits ==> chain.status(nonce) == TxStatus::Unknown
        }),
        TxStatus::Settled.terminal(),
        TxStatus::Reverted.terminal(),
        !TxStatus::Pending.terminal(),
        !TxStatus::Unknown.terminal(),
{
}

/// **Sending is not including**: a submission only waits behind the others, and losing the oldest
/// only takes it away.
pub proof fn sending_is_not_including(chain: ChainState, bundle: Bundle)
    ensures
        chain.submitted(bundle).queue == chain.queue.push(bundle),
        chain.submitted(bundle).ledger == chain.ledger,
        chain.submitted(bundle).reverted == chain.reverted,
        chain.lost().ledger == chain.ledger,
        chain.lost().reverted == chain.reverted,
        chain.queue.len() > 0 ==> chain.lost().queue == chain.queue.skip(1),
        chain.queue.len() == 0 ==> chain.lost().queue == chain.queue,
{
    if chain.queue.len() > 0 {
        assert(chain.lost().queue =~= chain.queue.skip(1));
    }
}

/// **An inclusion settles the bundle, records the revert, or does nothing at all**: nothing where
/// the nonce has its answer; otherwise, where custody would settle the bundle, exactly that; and
/// otherwise nothing but that the nonce is known to have reverted and the log says so.
pub proof fn an_inclusion_settles_or_records(chain: ChainState, bundle: Bundle, now: Ts)
    ensures
        ({
            let after = chain.included(bundle, now);
            let answered = chain.ledger.nonces.contains(bundle.nonce) || chain.reverted.contains(
                bundle.nonce,
            );
            let settles = chain.ledger.reverts(bundle, now) is None;
            &&& after.queue == chain.queue
            &&& answered ==> after == chain
            &&& !answered && settles ==> {
                &&& after.ledger == chain.ledger.settled(bundle)
                &&& after.reverted == chain.reverted
                &&& chain.settled(bundle, now) == after
                &&& chain.reverts(bundle, now) is None
            }
            &&& !answered && !settles ==> {
                &&& after.reverted == chain.reverted.push(bundle.nonce)
                &&& after.ledger.accounts == chain.ledger.accounts
                &&& after.ledger.escrows == chain.ledger.escrows
                &&& after.ledger.nonces == chain.ledger.nonces
                &&& books_kept(chain.ledger, after.ledger)
                &&& said_exactly(
                    chain.ledger,
                    after.ledger,
                    seq![
                        ChainPayload::SettlementResolved {
                            nonce: bundle.nonce,
                            status: TxStatus::Reverted,
                        },
                    ],
                )
                &&& chain.reverts(bundle, now) == chain.ledger.reverts(bundle, now)
                &&& chain.settled(bundle, now) == chain
            }
            &&& answered && 0 < bundle.n_legs <= MAX_LEGS ==> chain.reverts(bundle, now) == Some(
                SettleError::NonceReused,
            )
            &&& answered ==> chain.settled(bundle, now) == chain
        }),
{
    if chain.ledger.reverts(bundle, now) is None {
        assert(0 < bundle.n_legs <= MAX_LEGS);
    }
}

/// **Inclusions take the queue in order**: after `n` of them the first `n` submissions are gone and
/// the rest still wait; the next one includes the oldest of those.
pub proof fn inclusions_take_the_queue_in_order(chain: ChainState, nows: Seq<Ts>, n: nat)
    requires
        n <= chain.queue.len(),
    ensures
        chain.drained(nows, n).queue == chain.queue.skip(n as int),
        n < chain.queue.len() ==> {
            let before = chain.drained(nows, n);
            let waiting = ChainState { queue: chain.queue.skip((n + 1) as int), ..before };
            chain.drained(nows, n + 1) == waiting.included(chain.queue[n as int], nows[n as int])
        },
        chain.drained(nows, 0) == chain,
    decreases n,
{
    if n == 0 {
        assert(chain.queue.skip(0) =~= chain.queue);
    } else {
        let m = (n - 1) as nat;
        inclusions_take_the_queue_in_order(chain, nows, m);
        assert(chain.queue.skip(m as int).drop_first() =~= chain.queue.skip(n as int));
    }
    if n < chain.queue.len() {
        assert(chain.queue.skip(n as int).drop_first() =~= chain.queue.skip((n + 1) as int));
        assert(chain.queue.skip(n as int)[0] == chain.queue[n as int]);
    }
}

/// **An inclusion is reported as it went**: under its bundle's nonce, settled where it settled now or
/// that nonce had settled before, and reverted otherwise; with the escrows it formed, or with why it
/// formed none.
pub proof fn an_inclusion_is_reported_as_it_went(
    chain: ChainState,
    bundle: Bundle,
    now: Ts,
    tx: IncludedTx,
)
    requires
        chain.reported(bundle, now, tx),
    ensures
        ({
            let had_settled = chain.ledger.nonces.contains(bundle.nonce);
            let had_reverted = chain.reverted.contains(bundle.nonce);
            let settles = chain.ledger.reverts(bundle, now) is None;
            &&& tx.nonce == bundle.nonce
            &&& had_settled ==> tx.status == TxStatus::Settled && tx.outcome is Err
            &&& !had_settled && had_reverted ==> tx.status == TxStatus::Reverted && tx.outcome is Err
            &&& !had_settled && !had_reverted && settles ==> {
                &&& tx.status == TxStatus::Settled
                &&& tx.outcome is Ok
                &&& tx.outcome->Ok_0.n_escrows == bundle.n_legs
                &&& forall|k: int|
                    0 <= k < bundle.n_legs ==> (#[trigger] tx.outcome->Ok_0.escrows@[k]).0
                        == chain.ledger.escrows.len() + k
            }
            &&& !had_settled && !had_reverted && !settles ==> {
                &&& tx.status == TxStatus::Reverted
                &&& tx.outcome == Err::<SettleReceipt, SettleError>(
                    chain.ledger.reverts(bundle, now)->0,
                )
            }
        }),
{
    an_inclusion_settles_or_records(chain, bundle, now);
    let after = chain.included(bundle, now);
    if !chain.ledger.nonces.contains(bundle.nonce) && !chain.reverted.contains(bundle.nonce) {
        if chain.ledger.reverts(bundle, now) is None {
            let n = chain.ledger.nonces.len() as int;
            assert(after.ledger.nonces[n] == bundle.nonce);
        } else {
            let n = chain.reverted.len() as int;
            assert(after.reverted[n] == bundle.nonce);
        }
    }
}

} // verus!
