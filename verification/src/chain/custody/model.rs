//! Custody as mathematics: what it holds, and each operation as a function from one state to the
//! next.

use crate::account::AccountIdx;
use crate::chain::bundle::Bundle;
use crate::chain::custody::{Balance, CustodyError, SettleError};
use crate::chain::escrow::Escrow;
use crate::chain::log::{ChainPayload, LogView};
use crate::config::MAX_LEGS;
use crate::contract::{ContractIdx, Outcome};
use crate::escrow::EscrowId;
use crate::request::Nonce;
use crate::settlement::TxStatus;
use crate::types::{Amount, Dur, Ts, UNIT};
use vstd::prelude::*;

verus! {

/// Everything custody holds.
#[verifier::ext_equal]
pub struct CustodyView {
    /// The balances, one per account.
    pub accounts: Seq<Balance>,
    /// The escrows, in the order they formed.
    pub escrows: Seq<Escrow>,
    /// How many escrows fit.
    pub max_escrows: nat,
    /// The nonces consumed so far, in order.
    pub nonces: Seq<Nonce>,
    /// How long a withdrawal waits.
    pub delay: Dur,
    /// Every deposit ever made.
    pub deposited: Amount,
    /// Every withdrawal ever executed.
    pub withdrawn: Amount,
    /// The chain log.
    pub log: LogView,
}

/// The sum of the balances.
pub open spec fn total(accounts: Seq<Balance>) -> int
    decreases accounts.len(),
{
    if accounts.len() == 0 {
        0
    } else {
        total(accounts.drop_last()) + accounts.last().balance.0
    }
}

/// What the escrow holds: nothing once it is settled.
pub open spec fn held_in(escrow: Escrow) -> int {
    if escrow.state is Locked {
        escrow.held()
    } else {
        0
    }
}

/// The sum of what the locked escrows hold.
pub open spec fn locked(escrows: Seq<Escrow>) -> int
    decreases escrows.len(),
{
    if escrows.len() == 0 {
        0
    } else {
        locked(escrows.drop_last()) + held_in(escrows.last())
    }
}

/// What the first `k` legs of `bundle` debit account `a`.
pub open spec fn owed(bundle: Bundle, a: int, k: nat) -> int
    decreases k,
{
    if k == 0 {
        0
    } else {
        let leg = bundle.legs@[k - 1];
        owed(bundle, a, (k - 1) as nat) + (if leg.maker.0 == a {
            leg.maker_share()
        } else {
            0
        }) + (if bundle.requester.0 == a {
            leg.requester_share()
        } else {
            0
        })
    }
}

/// Who is debited `p`-th: for each leg its maker, then the requester.
pub open spec fn party(bundle: Bundle, p: int) -> AccountIdx {
    if p % 2 == 0 {
        bundle.legs@[p / 2].maker
    } else {
        bundle.requester
    }
}

/// What is wrong with leg `k` at `now`, if anything: its quote is dead at custody's clock, or an
/// amount does not fit.
pub open spec fn leg_fault(bundle: Bundle, now: Ts, k: nat) -> Option<SettleError> {
    let leg = bundle.legs@[k as int];
    if now.0 >= leg.quote_expiry.0 {
        Some(SettleError::QuoteExpired { leg: k as u8 })
    } else if leg.fill_price.0 > UNIT || leg.maker_share() > u64::MAX || leg.requester_share()
        > u64::MAX || owed(bundle, leg.maker.0 as int, k + 1) > u64::MAX || owed(
        bundle,
        bundle.requester.0 as int,
        k + 1,
    ) > u64::MAX {
        Some(SettleError::AmountOverflow)
    } else {
        None
    }
}

/// What is wrong with the first faulty leg among the first `n`, if any is.
pub open spec fn first_leg_fault(bundle: Bundle, now: Ts, n: nat) -> Option<SettleError>
    decreases n,
{
    if n == 0 {
        None
    } else {
        match first_leg_fault(bundle, now, (n - 1) as nat) {
            Some(error) => Some(error),
            None => leg_fault(bundle, now, (n - 1) as nat),
        }
    }
}

impl CustodyView {
    /// Custody with `accounts` empty accounts.
    pub open spec fn empty(accounts: u32, max_escrows: u32, delay: Dur) -> Self {
        CustodyView {
            accounts: Seq::new(accounts as nat, |a: int| Balance::nothing()),
            escrows: Seq::empty(),
            max_escrows: max_escrows as nat,
            nonces: Seq::empty(),
            delay,
            deposited: Amount(0),
            withdrawn: Amount(0),
            log: LogView::empty(),
        }
    }

    /// **Conservation**: what the accounts and the locked escrows hold between them is what was
    /// deposited and not withdrawn.
    pub open spec fn conserved(self) -> bool {
        total(self.accounts) + locked(self.escrows) == self.deposited.0 - self.withdrawn.0
    }

    /// Escrow `i` holds its notional, between two accounts custody knows.
    pub open spec fn escrow_ok(self, i: int) -> bool {
        let escrow = self.escrows[i];
        &&& escrow.balanced()
        &&& escrow.requester.0 < self.accounts.len()
        &&& escrow.maker.0 < self.accounts.len()
    }

    /// What holds of custody after every operation.
    pub open spec fn wf(self) -> bool {
        &&& self.accounts.len() <= u32::MAX
        &&& self.escrows.len() <= self.max_escrows <= u32::MAX
        &&& self.nonces.no_duplicates()
        &&& self.conserved()
        &&& forall|i: int| 0 <= i < self.escrows.len() ==> #[trigger] self.escrow_ok(i)
    }

    /// Whether the account exists.
    pub open spec fn knows(self, account: AccountIdx) -> bool {
        account.0 < self.accounts.len()
    }

    /// What custody holds for `account`.
    pub open spec fn balance(self, account: AccountIdx) -> Amount {
        if self.knows(account) {
            self.accounts[account.0 as int].balance
        } else {
            Amount(0)
        }
    }

    /// What custody has available for `account`: its balance less what is on its way out.
    pub open spec fn available(self, account: AccountIdx) -> Amount {
        if self.knows(account) {
            self.accounts[account.0 as int].spare()
        } else {
            Amount(0)
        }
    }

    /// The entry that tells the engine what `account` has available.
    pub open spec fn announcement(self, account: AccountIdx) -> ChainPayload {
        ChainPayload::BalanceChanged { account, available: self.available(account) }
    }

    /// After a transaction announcing what `account` has available.
    pub open spec fn announced(self, account: AccountIdx) -> Self {
        CustodyView { log: self.log.written(seq![self.announcement(account)]), ..self }
    }

    /// After account `a` is overwritten.
    pub open spec fn rewritten(self, account: AccountIdx, entry: Balance) -> Self {
        CustodyView { accounts: self.accounts.update(account.0 as int, entry), ..self }
    }

    // ───────────────────────────── deposits and withdrawals ─────────────────────────────

    /// Why a deposit is refused, if it is.
    pub open spec fn deposit_refused(self, account: AccountIdx, amount: Amount) -> Option<
        CustodyError,
    > {
        if self.deposited.0 + amount.0 > u64::MAX {
            Some(CustodyError::AmountOverflow)
        } else if !self.knows(account) {
            Some(CustodyError::UnknownAccount)
        } else {
            None
        }
    }

    /// After a deposit.
    pub open spec fn after_deposit(self, account: AccountIdx, amount: Amount) -> Self {
        let entry = self.accounts[account.0 as int];
        CustodyView {
            deposited: Amount((self.deposited.0 + amount.0) as u64),
            ..self
        }.rewritten(
            account,
            Balance { balance: Amount((entry.balance.0 + amount.0) as u64), ..entry },
        ).announced(account)
    }

    /// Why a request to withdraw is refused, if it is.
    pub open spec fn withdrawal_refused(self, account: AccountIdx, amount: Amount, now: Ts) -> Option<
        CustodyError,
    > {
        if !self.knows(account) {
            Some(CustodyError::UnknownAccount)
        } else if self.accounts[account.0 as int].pending.0 != 0 {
            Some(CustodyError::WithdrawalAlreadyPending)
        } else if amount.0 > self.available(account).0 {
            Some(CustodyError::InsufficientAvailable)
        } else if now.0 + self.delay.0 > u64::MAX {
            Some(CustodyError::AmountOverflow)
        } else {
            None
        }
    }

    /// After a withdrawal is requested at `now`: availability drops, the balance does not.
    pub open spec fn withdrawal_requested(self, account: AccountIdx, amount: Amount, now: Ts) -> Self {
        let entry = self.accounts[account.0 as int];
        self.rewritten(
            account,
            Balance {
                pending: amount,
                matures_at: Ts((now.0 + self.delay.0) as u64),
                ..entry
            },
        ).announced(account)
    }

    /// Why executing a withdrawal is refused, if it is. No quote, escrow or basket is consulted.
    pub open spec fn execution_refused(self, account: AccountIdx, now: Ts) -> Option<CustodyError> {
        if !self.knows(account) {
            Some(CustodyError::UnknownAccount)
        } else if self.accounts[account.0 as int].pending.0 == 0 {
            Some(CustodyError::NoWithdrawalPending)
        } else if now.0 < self.accounts[account.0 as int].matures_at.0 {
            Some(CustodyError::WithdrawalNotMatured)
        } else {
            None
        }
    }

    /// What a withdrawal pays: what was asked for, and never more than is there.
    pub open spec fn payable(self, account: AccountIdx) -> Amount {
        let entry = self.accounts[account.0 as int];
        if entry.pending.0 <= entry.balance.0 {
            entry.pending
        } else {
            entry.balance
        }
    }

    /// After a matured withdrawal is executed.
    pub open spec fn withdrawal_executed(self, account: AccountIdx) -> Self {
        let entry = self.accounts[account.0 as int];
        let amount = self.payable(account);
        CustodyView {
            withdrawn: Amount((self.withdrawn.0 + amount.0) as u64),
            ..self
        }.rewritten(
            account,
            Balance {
                balance: Amount((entry.balance.0 - amount.0) as u64),
                pending: Amount(0),
                ..entry
            },
        ).announced(account)
    }

    /// After every withdrawal of the first `n` accounts that has matured is executed, in account
    /// order.
    pub open spec fn matured(self, now: Ts, n: nat) -> Self
        decreases n,
    {
        if n == 0 {
            self
        } else {
            let before = self.matured(now, (n - 1) as nat);
            let account = AccountIdx((n - 1) as u32);
            if before.execution_refused(account, now) is None {
                before.withdrawal_executed(account)
            } else {
                before
            }
        }
    }

    /// How many withdrawals of the first `n` accounts have matured.
    pub open spec fn due(self, now: Ts, n: nat) -> nat
        decreases n,
    {
        if n == 0 {
            0
        } else {
            self.due(now, (n - 1) as nat) + (if self.execution_refused(
                AccountIdx((n - 1) as u32),
                now,
            ) is None {
                1nat
            } else {
                0nat
            })
        }
    }

    // ───────────────────────────── settlement ─────────────────────────────

    /// What is wrong with debiting `account`, if anything. **Balance, not availability**: a
    /// pending withdrawal does not kill a basket already in flight.
    pub open spec fn party_fault(self, bundle: Bundle, account: AccountIdx) -> Option<SettleError> {
        if !self.knows(account) {
            Some(SettleError::UnknownAccount)
        } else if self.balance(account).0 < owed(bundle, account.0 as int, bundle.n_legs as nat) {
            Some(SettleError::InsufficientFunds { account })
        } else {
            None
        }
    }

    /// What is wrong with the first faulty party among the first `n`, if any is.
    pub open spec fn first_party_fault(self, bundle: Bundle, n: nat) -> Option<SettleError>
        decreases n,
    {
        if n == 0 {
            None
        } else {
            match self.first_party_fault(bundle, (n - 1) as nat) {
                Some(error) => Some(error),
                None => self.party_fault(bundle, party(bundle, n - 1)),
            }
        }
    }

    /// Why the bundle is invalid at `now`, if it is.
    pub open spec fn invalid(self, bundle: Bundle, now: Ts) -> Option<SettleError> {
        let n = bundle.n_legs as nat;
        if n == 0 {
            Some(SettleError::NoLegs)
        } else if n > MAX_LEGS {
            Some(SettleError::TooManyLegs)
        } else if self.nonces.contains(bundle.nonce) {
            Some(SettleError::NonceReused)
        } else if first_leg_fault(bundle, now, n) is Some {
            first_leg_fault(bundle, now, n)
        } else {
            self.first_party_fault(bundle, 2 * n)
        }
    }

    /// Why the bundle reverts at `now`, if it does.
    pub open spec fn reverts(self, bundle: Bundle, now: Ts) -> Option<SettleError> {
        if self.invalid(bundle, now) is Some {
            self.invalid(bundle, now)
        } else if self.escrows.len() + bundle.n_legs > self.max_escrows {
            Some(SettleError::EscrowCapacityExhausted)
        } else {
            None
        }
    }

    /// After every party is debited and every leg's escrow is formed.
    pub open spec fn debited(self, bundle: Bundle) -> Self {
        let n = bundle.n_legs as nat;
        CustodyView {
            accounts: Seq::new(
                self.accounts.len(),
                |a: int|
                    Balance {
                        balance: Amount((self.accounts[a].balance.0 - owed(bundle, a, n)) as u64),
                        ..self.accounts[a]
                    },
            ),
            escrows: self.escrows + Seq::new(
                n,
                |k: int| Escrow::formed(bundle.legs@[k], bundle.requester),
            ),
            nonces: self.nonces.push(bundle.nonce),
            ..self
        }
    }

    /// What the settlement of `bundle` writes to the log: what each maker and the requester have
    /// available now, and what became of the nonce.
    pub open spec fn settlement_entries(self, bundle: Bundle) -> Seq<ChainPayload> {
        let n = bundle.n_legs as nat;
        Seq::new(
            n,
            |k: int| self.announcement(bundle.legs@[k].maker),
        ).push(self.announcement(bundle.requester)).push(
            ChainPayload::SettlementResolved { nonce: bundle.nonce, status: TxStatus::Settled },
        )
    }

    /// After `bundle` settles: everything in one transaction.
    pub open spec fn settled(self, bundle: Bundle) -> Self {
        let after = self.debited(bundle);
        CustodyView { log: after.log.written(after.settlement_entries(bundle)), ..after }
    }

    // ───────────────────────────── payouts ─────────────────────────────

    /// Why paying an escrow out is refused, if it is.
    pub open spec fn payout_refused(self, id: EscrowId, contract: ContractIdx) -> Option<
        CustodyError,
    > {
        if id.0 >= self.escrows.len() {
            Some(CustodyError::UnknownAccount)
        } else if self.escrows[id.0 as int].contract != contract {
            Some(CustodyError::EscrowContractMismatch)
        } else {
            None
        }
    }

    /// After a locked escrow is paid out under `outcome`: the credit and the consumed flag in
    /// one mutation.
    pub open spec fn paid_out(self, id: EscrowId, outcome: Outcome) -> Self {
        let escrow = self.escrows[id.0 as int];
        let after = CustodyView {
            accounts: Seq::new(
                self.accounts.len(),
                |a: int|
                    Balance {
                        balance: Amount(
                            (self.accounts[a].balance.0 + escrow.payout(
                                outcome,
                                AccountIdx(a as u32),
                            )) as u64,
                        ),
                        ..self.accounts[a]
                    },
            ),
            escrows: self.escrows.update(id.0 as int, escrow.spent()),
            ..self
        };
        CustodyView {
            log: after.log.written(
                seq![after.announcement(escrow.requester), after.announcement(escrow.maker)],
            ),
            ..after
        }
    }
}

} // verus!
