//! Custody.
//!
//! An in-process model of an escrow contract. It holds balances, escrows, nonces and the
//! withdrawal timelock. It holds no reference to the engine, knows nothing of requests, quotes,
//! legs, reservations or claims, and has never heard of a `committed` bucket. The only way in is
//! a [`Bundle`] handed to it by the settlement adapter.
//!
//! **Custody validates against its own clock**, not the engine's, sampled once per settlement
//! transaction.
//!
//! # Balance and availability are different numbers
//!
//! | | Uses | Why |
//! |---|---|---|
//! | admission | **availability** = balance - pending withdrawals | forward-looking: never lend against money already on its way out |
//! | settlement | **balance** = what custody holds now | present-tense: is the money here for this transaction |
//!
//! If settlement validated availability, requesting a withdrawal would instantly kill every
//! basket already in flight. The timelock's promise is that the money remains *present* for as
//! long as a quote can bind, so presence is what settlement checks.
//!
//! **Conservation is part of what every operation keeps**: what the accounts and the locked
//! escrows hold between them is always what was deposited and not withdrawn.

use crate::account::AccountIdx;
use crate::chain::bundle::Bundle;
use crate::chain::custody::model::{first_leg_fault, leg_fault, owed, party, CustodyView};
use crate::chain::custody::money::{
    counted, debts_are_covered, deposit_wf, empty_custody_wf, entered, entry_for, execution_wf,
    first_party_at_fault, leg_fault_persists, no_party_before, payout_wf, request_wf, settleable,
    settlement_wf, share, shares_are_nonnegative, strangers_lose_nothing, taken, taken_is_owed,
    tallied, tally_extends, tally_grows, tally_of,
};
use crate::chain::escrow::Escrow;
use crate::chain::log::{ChainLog, ChainPayload};
use crate::config::MAX_LEGS;
use crate::contract::{ContractIdx, Outcome};
use crate::escrow::EscrowId;
use crate::request::Nonce;
use crate::settlement::TxStatus;
use crate::types::{Amount, Dur, Side, Ts, UNIT};
use vstd::prelude::*;

pub use crate::chain::custody::queue::{Custody, IncludedTx, SubmitAck};

pub mod effects;
pub mod laws;
pub mod model;
pub mod money;
pub mod promises;
pub mod queue;

verus! {

/// Why custody refused a balance operation.
#[derive(Clone, Copy, Debug, PartialEq, Eq, Structural)]
pub enum CustodyError {
    /// The account index is outside the preallocated table, or the escrow id does not resolve.
    UnknownAccount,
    /// The withdrawal asks for more than is available: balance minus what is already on its way
    /// out.
    InsufficientAvailable,
    /// One pending withdrawal per account. A second is refused rather than merged, because
    /// merging would have to choose whose maturity date wins.
    WithdrawalAlreadyPending,
    /// Nothing is pending for this account.
    NoWithdrawalPending,
    /// Execution is unconditional at maturity and impossible before it; **no quote or escrow is
    /// consulted either way**.
    WithdrawalNotMatured,
    /// Checked arithmetic overflowed. A rejection, never a wrap.
    AmountOverflow,
    /// An escrow may only be paid under the contract it rests on.
    EscrowContractMismatch,
}

/// Why a settlement transaction reverted.
///
/// A revert is wholesale: no leg settles, no balance moves, the nonce is not consumed.
#[derive(Clone, Copy, Debug, PartialEq, Eq, Structural)]
pub enum SettleError {
    /// The nonce is spent. **A retry bouncing off its own nonce is evidence the original
    /// reached a terminal answer**; which one is in the nonce's status.
    NonceReused,
    /// A leg's quote is expired **at custody's clock**.
    QuoteExpired {
        /// Which leg.
        leg: u8,
    },
    /// An account's balance does not cover what this transaction would debit it.
    InsufficientFunds {
        /// Whose.
        account: AccountIdx,
    },
    /// No room left in the escrow table.
    EscrowCapacityExhausted,
    /// A leg names an account outside the preallocated table.
    UnknownAccount,
    /// A bundle with no legs.
    NoLegs,
    /// More legs than storage allows.
    TooManyLegs,
    /// Checked arithmetic overflowed.
    AmountOverflow,
}

/// What a settled transaction produced.
#[derive(Clone, Copy, Debug, PartialEq, Eq)]
pub struct SettleReceipt {
    /// The escrows formed, one per leg, in leg order.
    pub escrows: [EscrowId; MAX_LEGS],
    /// How many are real.
    pub n_escrows: u8,
}

impl SettleReceipt {
    /// The receipt of `bundle` settled where `formed` escrows existed before.
    pub open spec fn names(self, bundle: Bundle, formed: nat) -> bool {
        &&& self.n_escrows == bundle.n_legs
        &&& forall|k: int|
            0 <= k < MAX_LEGS ==> (#[trigger] self.escrows@[k]).0 == (if k < bundle.n_legs {
                formed + k
            } else {
                0
            })
    }
}

/// One account's custody balance.
///
/// Two numbers, not one, because admission and settlement ask different questions of the same
/// account.
#[derive(Clone, Copy, Debug, PartialEq, Eq, Structural)]
pub struct Balance {
    /// What custody holds now. Reduced only by an executed withdrawal or a settlement debit,
    /// **not** by requesting a withdrawal.
    pub balance: Amount,
    /// Requested and not yet executed. Subtracted from availability immediately.
    pub pending: Amount,
    /// When the pending withdrawal matures. Meaningless when `pending` is zero.
    pub matures_at: Ts,
}

impl Default for Balance {
    fn default() -> (r: Self)
        ensures
            r == Balance::nothing(),
    {
        Balance { balance: Amount(0), pending: Amount(0), matures_at: Ts(0) }
    }
}

impl Balance {
    /// An account holding nothing.
    pub open spec fn nothing() -> Self {
        Balance { balance: Amount(0), pending: Amount(0), matures_at: Ts(0) }
    }

    /// The balance less what is on its way out.
    pub open spec fn spare(self) -> Amount {
        if self.pending.0 <= self.balance.0 {
            Amount((self.balance.0 - self.pending.0) as u64)
        } else {
            Amount(0)
        }
    }

    /// What custody holds now. This is what settlement validates.
    pub fn balance(&self) -> (r: Amount)
        ensures
            r == self.balance,
    {
        self.balance
    }

    /// `balance - pending`. This is what admission validates.
    pub fn available(&self) -> (r: Amount)
        ensures
            r == self.spare(),
    {
        Amount(self.balance.0.saturating_sub(self.pending.0))
    }

    /// The amount on its way out, and when it lands.
    pub fn pending_withdrawal(&self) -> (r: Option<(Amount, Ts)>)
        ensures
            r == (if self.pending.0 == 0 {
                None
            } else {
                Some((self.pending, self.matures_at))
            }),
    {
        if self.pending.0 == 0 {
            None
        } else {
            Some((self.pending, self.matures_at))
        }
    }
}

/// The state a settlement transaction can touch, and the log it writes to.
#[derive(Debug)]
pub struct CustodyLedger {
    balances: Vec<Balance>,
    escrows: Vec<Escrow>,
    max_escrows: usize,
    nonces: Vec<Nonce>,
    withdrawal_delay: Dur,
    deposited: Amount,
    withdrawn: Amount,
    log: ChainLog,
}

/// Add `amount` to what `account` is debited, entering it if it has not appeared. `false` if the
/// sum does not fit, with nothing changed.
fn tally(debits: &mut Vec<(AccountIdx, Amount)>, account: AccountIdx, amount: Amount) -> (r: bool)
    requires
        forall|i: int, j: int|
            0 <= i < j < old(debits)@.len() ==> (#[trigger] old(debits)@[i]).0 != (
            #[trigger] old(debits)@[j]).0,
    ensures
        forall|i: int|
            0 <= i < old(debits)@.len() && (#[trigger] old(debits)@[i]).0 == account ==> {
                let sum = old(debits)@[i].1.0 + amount.0;
                if sum <= u64::MAX {
                    r && final(debits)@ == old(debits)@.update(i, (account, Amount(sum as u64)))
                } else {
                    !r && final(debits)@ == old(debits)@
                }
            },
        (forall|i: int| 0 <= i < old(debits)@.len() ==> (#[trigger] old(debits)@[i]).0 != account)
            ==> r && final(debits)@ == old(debits)@.push((account, amount)),
{
    let mut i: usize = 0;
    while i < debits.len()
        invariant
            i <= debits@.len(),
            debits@ == old(debits)@,
            forall|i: int, j: int|
                0 <= i < j < debits@.len() ==> (#[trigger] debits@[i]).0 != (
                #[trigger] debits@[j]).0,
            forall|j: int| 0 <= j < i ==> (#[trigger] debits@[j]).0 != account,
        decreases debits@.len() - i,
    {
        let entry = debits[i];
        if entry.0 == account {
            return match entry.1.checked_add(amount) {
                Some(sum) => {
                    debits.set(i, (account, sum));
                    true
                },
                None => false,
            };
        }
        i += 1;
    }
    debits.push((account, amount));
    true
}

impl CustodyLedger {
    /// What custody holds.
    pub closed spec fn view(&self) -> CustodyView {
        CustodyView {
            accounts: self.balances@,
            escrows: self.escrows@,
            max_escrows: self.max_escrows as nat,
            nonces: self.nonces@,
            delay: self.withdrawal_delay,
            deposited: self.deposited,
            withdrawn: self.withdrawn,
            log: self.log@,
        }
    }

    /// Whether custody is sound; see [`CustodyView::wf`].
    pub open spec fn wf(&self) -> bool {
        self@.wf()
    }

    /// Empty custody with `max_accounts` accounts and room for `max_escrows` escrows.
    pub fn new(withdrawal_delay: Dur, max_accounts: u32, max_escrows: u32) -> (r: Self)
        ensures
            r.wf(),
            r@ == CustodyView::empty(max_accounts, max_escrows, withdrawal_delay),
    {
        let mut balances: Vec<Balance> = Vec::with_capacity(max_accounts as usize);
        let mut index: u32 = 0;
        while index < max_accounts
            invariant
                index <= max_accounts,
                balances@ == Seq::new(index as nat, |a: int| Balance::nothing()),
            decreases max_accounts - index,
        {
            balances.push(Balance::default());
            index += 1;
            proof {
                assert(balances@ =~= Seq::new(index as nat, |a: int| Balance::nothing()));
            }
        }
        let r = CustodyLedger {
            balances,
            escrows: Vec::with_capacity(max_escrows as usize),
            max_escrows: max_escrows as usize,
            nonces: Vec::new(),
            withdrawal_delay,
            deposited: Amount(0),
            withdrawn: Amount(0),
            log: ChainLog::new(),
        };
        proof {
            empty_custody_wf(max_accounts, max_escrows, withdrawal_delay);
            assert(r@ =~= CustodyView::empty(max_accounts, max_escrows, withdrawal_delay));
        }
        r
    }

    // ───────────────────────────── reading ─────────────────────────────

    /// One account's balance, if the index resolves.
    pub fn account(&self, account: AccountIdx) -> (r: Option<&Balance>)
        ensures
            match r {
                Some(entry) => self@.knows(account) && *entry == self@.accounts[account.0 as int],
                None => !self@.knows(account),
            },
    {
        if (account.0 as usize) < self.balances.len() {
            Some(&self.balances[account.0 as usize])
        } else {
            None
        }
    }

    /// What custody holds for `account`.
    pub fn balance(&self, account: AccountIdx) -> (r: Amount)
        ensures
            r == self@.balance(account),
    {
        match self.account(account) {
            Some(entry) => entry.balance(),
            None => Amount(0),
        }
    }

    /// `balance - pending` for `account`.
    pub fn available(&self, account: AccountIdx) -> (r: Amount)
        ensures
            r == self@.available(account),
    {
        match self.account(account) {
            Some(entry) => entry.available(),
            None => Amount(0),
        }
    }

    /// How many accounts the table holds.
    pub fn account_count(&self) -> (r: u32)
        requires
            self@.accounts.len() <= u32::MAX,
        ensures
            r == self@.accounts.len(),
    {
        self.balances.len() as u32
    }

    /// Every deposit ever made.
    pub fn deposited(&self) -> (r: Amount)
        ensures
            r == self@.deposited,
    {
        self.deposited
    }

    /// Every withdrawal ever executed.
    pub fn withdrawn(&self) -> (r: Amount)
        ensures
            r == self@.withdrawn,
    {
        self.withdrawn
    }

    /// How long a withdrawal waits before execution.
    pub fn withdrawal_delay(&self) -> (r: Dur)
        ensures
            r == self@.delay,
    {
        self.withdrawal_delay
    }

    /// An escrow, if the id resolves.
    pub fn escrow(&self, id: EscrowId) -> (r: Option<&Escrow>)
        ensures
            match r {
                Some(escrow) => id.0 < self@.escrows.len() && *escrow
                    == self@.escrows[id.0 as int],
                None => id.0 >= self@.escrows.len(),
            },
    {
        if (id.0 as usize) < self.escrows.len() {
            Some(&self.escrows[id.0 as usize])
        } else {
            None
        }
    }

    /// Every escrow, in the order they formed.
    pub fn escrows(&self) -> (r: Vec<(EscrowId, &Escrow)>)
        requires
            self@.escrows.len() <= u32::MAX,
        ensures
            r@.len() == self@.escrows.len(),
            forall|i: int|
                0 <= i < r@.len() ==> (#[trigger] r@[i]).0 == EscrowId(i as u32) && *r@[i].1
                    == self@.escrows[i],
    {
        let mut listed: Vec<(EscrowId, &Escrow)> = Vec::new();
        let mut index: usize = 0;
        while index < self.escrows.len()
            invariant
                self@.escrows.len() <= u32::MAX,
                index <= self.escrows@.len(),
                listed@.len() == index,
                forall|i: int|
                    0 <= i < index ==> (#[trigger] listed@[i]).0 == EscrowId(i as u32)
                        && *listed@[i].1 == self@.escrows[i],
            decreases self.escrows@.len() - index,
        {
            listed.push((EscrowId(index as u32), &self.escrows[index]));
            index += 1;
        }
        listed
    }

    /// Whether this nonce has been consumed.
    ///
    /// Monotonic and terminal: once consumed, always consumed.
    pub fn nonce_used(&self, nonce: Nonce) -> (r: bool)
        ensures
            r == self@.nonces.contains(nonce),
    {
        let mut i: usize = 0;
        while i < self.nonces.len()
            invariant
                i <= self.nonces@.len(),
                forall|j: int| 0 <= j < i ==> #[trigger] self.nonces@[j] != nonce,
            decreases self.nonces@.len() - i,
        {
            if self.nonces[i] == nonce {
                proof {
                    assert(self@.nonces[i as int] == nonce);
                }
                return true;
            }
            i += 1;
        }
        false
    }

    /// The chain log, read-only.
    pub fn log(&self) -> (r: &ChainLog)
        ensures
            r@ == self@.log,
    {
        &self.log
    }

    /// The chain log, for facts that are not custody's own.
    pub fn log_mut(&mut self) -> (r: &mut ChainLog)
        ensures
            r@ == old(self)@.log,
            final(self)@ == (CustodyView { log: final(r)@, ..old(self)@ }),
            old(self).wf() ==> final(self).wf(),
    {
        let ghost before = *self;
        let ghost after = *final(self);
        proof {
            assert(before.wf() ==> (CustodyView { log: after@.log, ..before@ }).wf()) by {
                let other = CustodyView { log: after@.log, ..before@ };
                if before.wf() {
                    assert forall|i: int| 0 <= i < other.escrows.len() implies
                        #[trigger] other.escrow_ok(i) by {
                        assert(before@.escrow_ok(i));
                    }
                }
            }
        }
        &mut self.log
    }

    // ───────────────────────────── deposits and withdrawals ─────────────────────────────

    /// Tell the log what `account` has available.
    fn announce(&mut self, account: AccountIdx)
        requires
            old(self)@.knows(account),
        ensures
            final(self)@ == old(self)@.announced(account),
    {
        let available = self.available(account);
        self.log.append(ChainPayload::BalanceChanged { account, available });
        proof {
            assert(self@ =~= old(self)@.announced(account));
        }
    }

    /// Credit an account. The only way money enters custody.
    pub fn deposit(&mut self, account: AccountIdx, amount: Amount) -> (r: Result<(), CustodyError>)
        requires
            old(self).wf(),
        ensures
            final(self).wf(),
            match old(self)@.deposit_refused(account, amount) {
                Some(error) => r == Err::<(), CustodyError>(error) && *final(self) == *old(self),
                None => r == Ok::<(), CustodyError>(()) && final(self)@ == old(
                    self,
                )@.after_deposit(account, amount),
            },
    {
        let deposited = match self.deposited.checked_add(amount) {
            Some(deposited) => deposited,
            None => {
                return Err(CustodyError::AmountOverflow);
            },
        };
        let index: usize = account.0 as usize;
        if index >= self.balances.len() {
            return Err(CustodyError::UnknownAccount);
        }
        proof {
            deposit_wf(self@, account, amount);
        }
        let mut entry = self.balances[index];
        entry.balance = match entry.balance.checked_add(amount) {
            Some(balance) => balance,
            None => {
                return Err(CustodyError::AmountOverflow);
            },
        };
        self.balances.set(index, entry);
        self.deposited = deposited;
        let ghost middle = self@;
        self.announce(account);
        proof {
            assert(middle =~= CustodyView { deposited, ..old(self)@ }.rewritten(account, entry));
        }
        Ok(())
    }

    /// Mark funds as leaving. **Availability drops immediately; the balance does not.** Returns
    /// when the withdrawal matures.
    pub fn request_withdrawal(&mut self, account: AccountIdx, amount: Amount, now: Ts) -> (r: Result<
        Ts,
        CustodyError,
    >)
        requires
            old(self).wf(),
        ensures
            final(self).wf(),
            match old(self)@.withdrawal_refused(account, amount, now) {
                Some(error) => r == Err::<Ts, CustodyError>(error) && *final(self) == *old(self),
                None => {
                    &&& r == Ok::<Ts, CustodyError>(Ts((now.0 + old(self)@.delay.0) as u64))
                    &&& final(self)@ == old(self)@.withdrawal_requested(account, amount, now)
                },
            },
    {
        let index: usize = account.0 as usize;
        if index >= self.balances.len() {
            return Err(CustodyError::UnknownAccount);
        }
        let mut entry = self.balances[index];
        if entry.pending.0 != 0 {
            return Err(CustodyError::WithdrawalAlreadyPending);
        }
        if amount.0 > entry.available().0 {
            return Err(CustodyError::InsufficientAvailable);
        }
        let matures_at = match now.checked_add(self.withdrawal_delay) {
            Some(matures_at) => matures_at,
            None => {
                return Err(CustodyError::AmountOverflow);
            },
        };
        proof {
            request_wf(self@, account, amount, now);
        }
        entry.pending = amount;
        entry.matures_at = matures_at;
        self.balances.set(index, entry);
        let ghost middle = self@;
        self.announce(account);
        proof {
            assert(middle =~= old(self)@.rewritten(account, entry));
        }
        Ok(matures_at)
    }

    /// Execute a matured withdrawal: the balance finally moves. Returns what was paid.
    ///
    /// Execution is **unconditional at maturity**. A settlement may have debited the account
    /// since the request, so it is paid out of what is actually there.
    pub fn execute_withdrawal(&mut self, account: AccountIdx, now: Ts) -> (r: Result<
        Amount,
        CustodyError,
    >)
        requires
            old(self).wf(),
        ensures
            final(self).wf(),
            match old(self)@.execution_refused(account, now) {
                Some(error) => r == Err::<Amount, CustodyError>(error) && *final(self) == *old(
                    self,
                ),
                None => {
                    &&& r == Ok::<Amount, CustodyError>(old(self)@.payable(account))
                    &&& final(self)@ == old(self)@.withdrawal_executed(account)
                },
            },
    {
        let index: usize = account.0 as usize;
        if index >= self.balances.len() {
            return Err(CustodyError::UnknownAccount);
        }
        let mut entry = self.balances[index];
        if entry.pending.0 == 0 {
            return Err(CustodyError::NoWithdrawalPending);
        }
        // Half-open, like every other deadline: matured at exactly the maturity instant.
        if now.0 < entry.matures_at.0 {
            return Err(CustodyError::WithdrawalNotMatured);
        }
        proof {
            execution_wf(self@, account, now);
        }
        let amount = if entry.pending.0 <= entry.balance.0 {
            entry.pending
        } else {
            entry.balance
        };
        entry.balance = Amount(entry.balance.0 - amount.0);
        entry.pending = Amount(0);
        self.balances.set(index, entry);
        self.withdrawn = Amount(self.withdrawn.0 + amount.0);
        let ghost middle = self@;
        self.announce(account);
        proof {
            assert(middle =~= CustodyView {
                withdrawn: Amount((old(self)@.withdrawn.0 + amount.0) as u64),
                ..old(self)@
            }.rewritten(account, entry));
        }
        Ok(amount)
    }

    /// Execute every withdrawal that has matured. Returns how many.
    pub fn execute_matured_withdrawals(&mut self, now: Ts) -> (r: u32)
        requires
            old(self).wf(),
        ensures
            final(self).wf(),
            final(self)@ == old(self)@.matured(now, old(self)@.accounts.len()),
            r == old(self)@.due(now, old(self)@.accounts.len()),
    {
        let mut executed: u32 = 0;
        let n: usize = self.balances.len();
        let mut index: usize = 0;
        while index < n
            invariant
                index <= n == old(self)@.accounts.len(),
                n <= u32::MAX,
                self.wf(),
                self@ == old(self)@.matured(now, index as nat),
                self@.accounts.len() == n,
                forall|a: int|
                    index <= a < n ==> #[trigger] self@.accounts[a] == old(self)@.accounts[a],
                executed == old(self)@.due(now, index as nat),
                executed <= index,
            decreases n - index,
        {
            let account = AccountIdx(index as u32);
            let ghost before = self@;
            proof {
                assert(self@.accounts[index as int] == old(self)@.accounts[index as int]);
                assert(before.execution_refused(account, now) == old(self)@.execution_refused(
                    account,
                    now,
                ));
            }
            match self.execute_withdrawal(account, now) {
                Ok(_) => {
                    executed += 1;
                },
                Err(_) => {},
            }
            index += 1;
        }
        executed
    }

    // ───────────────────────────── settlement ─────────────────────────────

    /// Every check of a settlement at `now`, in order, returning what each account would be
    /// debited.
    ///
    /// Debits are accumulated per account before any is checked. A maker winning two legs must
    /// cover the sum, not each leg independently.
    #[verifier::rlimit(60)]
    fn validate(&self, bundle: &Bundle, now: Ts) -> (r: Result<
        Vec<(AccountIdx, Amount)>,
        SettleError,
    >)
        requires
            self.wf(),
        ensures
            match r {
                Ok(debits) => {
                    &&& self@.invalid(*bundle, now) is None
                    &&& tally_of(debits@, *bundle)
                },
                Err(error) => self@.invalid(*bundle, now) == Some(error),
            },
    {
        let n: usize = bundle.n_legs as usize;
        if n == 0 {
            return Err(SettleError::NoLegs);
        }
        if n > MAX_LEGS {
            return Err(SettleError::TooManyLegs);
        }
        if self.nonce_used(bundle.nonce) {
            return Err(SettleError::NonceReused);
        }
        let mut debits: Vec<(AccountIdx, Amount)> = Vec::new();
        let ghost mut firsts: Seq<int> = Seq::empty();
        let mut index: usize = 0;
        while index < n
            invariant
                index <= n == bundle.n_legs,
                0 < n <= MAX_LEGS,
                !self@.nonces.contains(bundle.nonce),
                first_leg_fault(*bundle, now, index as nat) is None,
                tallied(debits@, firsts, *bundle, (2 * index) as nat),
            decreases n - index,
        {
            let leg = bundle.legs[index];
            let ghost k = index as nat;
            let ghost p = (2 * index) as nat;
            proof {
                if leg_fault(*bundle, now, k) is Some {
                    leg_fault_persists(*bundle, now, k + 1, n as nat);
                }
                assert(party(*bundle, p as int) == leg.maker);
                assert(party(*bundle, (p + 1) as int) == bundle.requester);
                assert(share(*bundle, p as int) == leg.maker_share());
                assert(share(*bundle, (p + 1) as int) == leg.requester_share());
                taken_is_owed(*bundle, leg.maker.0 as int, k);
                taken_is_owed(*bundle, leg.maker.0 as int, k + 1);
                taken_is_owed(*bundle, bundle.requester.0 as int, k + 1);
                assert(2 * (k + 1) == p + 2);
                assert(taken(*bundle, leg.maker.0 as int, p + 2) == taken(
                    *bundle,
                    leg.maker.0 as int,
                    p + 1,
                ) + (if bundle.requester.0 == leg.maker.0 {
                    leg.requester_share()
                } else {
                    0
                }));
                assert(taken(*bundle, leg.maker.0 as int, p + 1) == taken(
                    *bundle,
                    leg.maker.0 as int,
                    p,
                ) + leg.maker_share());
                assert(taken(*bundle, bundle.requester.0 as int, p + 2) == taken(
                    *bundle,
                    bundle.requester.0 as int,
                    p + 1,
                ) + leg.requester_share());
            }
            if now.0 >= leg.quote_expiry.0 {
                return Err(SettleError::QuoteExpired { leg: index as u8 });
            }
            let maker = match leg.maker_contribution() {
                Some(maker) => maker,
                None => {
                    proof {
                        if leg.fill_price.0 <= UNIT {
                            shares_are_nonnegative(*bundle, index as int);
                        }
                    }
                    return Err(SettleError::AmountOverflow);
                },
            };
            proof {
                shares_are_nonnegative(*bundle, index as int);
            }
            let requester = match leg.requester_contribution() {
                Some(requester) => requester,
                None => {
                    return Err(SettleError::AmountOverflow);
                },
            };
            let ghost before = debits@;
            let ghost was = firsts;
            if !tally(&mut debits, leg.maker, maker) {
                proof {
                    let i = choose|i: int|
                        0 <= i < before.len() && (#[trigger] before[i]).0 == leg.maker;
                    assert(counted(before, was, *bundle, p, i));
                }
                return Err(SettleError::AmountOverflow);
            }
            proof {
                if exists|i: int| 0 <= i < before.len() && (#[trigger] before[i]).0 == leg.maker {
                    let i = choose|i: int|
                        0 <= i < before.len() && (#[trigger] before[i]).0 == leg.maker;
                    assert(before[i].0 == leg.maker);
                    tally_grows(before, firsts, *bundle, p, i, debits@[i].1);
                } else {
                    tally_extends(before, firsts, *bundle, p, maker);
                    firsts = firsts.push(p as int);
                }
            }
            let ghost between = debits@;
            if !tally(&mut debits, bundle.requester, requester) {
                proof {
                    let i = choose|i: int|
                        0 <= i < between.len() && (#[trigger] between[i]).0 == bundle.requester;
                    assert(counted(between, firsts, *bundle, p + 1, i));
                }
                return Err(SettleError::AmountOverflow);
            }
            proof {
                if exists|i: int|
                    0 <= i < between.len() && (#[trigger] between[i]).0 == bundle.requester {
                    let i = choose|i: int|
                        0 <= i < between.len() && (#[trigger] between[i]).0 == bundle.requester;
                    assert(between[i].0 == bundle.requester);
                    assert(counted(between, firsts, *bundle, p + 1, i));
                    tally_grows(between, firsts, *bundle, p + 1, i, debits@[i].1);
                } else {
                    strangers_lose_nothing(between, firsts, *bundle, p + 1, bundle.requester);
                    tally_extends(between, firsts, *bundle, p + 1, requester);
                    firsts = firsts.push((p + 1) as int);
                }
                assert(entered(debits@, firsts, *bundle, p as int));
                let q = entry_for(debits@, firsts, *bundle, p as int);
                assert(counted(debits@, firsts, *bundle, p + 2, q));
                assert(entered(debits@, firsts, *bundle, (p + 1) as int));
                let q2 = entry_for(debits@, firsts, *bundle, (p + 1) as int);
                assert(counted(debits@, firsts, *bundle, p + 2, q2));
                assert(leg_fault(*bundle, now, k) is None);
            }
            index += 1;
        }
        let ghost parties = (2 * n) as nat;
        let mut i: usize = 0;
        while i < debits.len()
            invariant
                i <= debits@.len(),
                n == bundle.n_legs,
                0 < n <= MAX_LEGS,
                parties == 2 * n,
                self.wf(),
                !self@.nonces.contains(bundle.nonce),
                first_leg_fault(*bundle, now, n as nat) is None,
                tallied(debits@, firsts, *bundle, parties),
                forall|j: int|
                    0 <= j < i ==> self@.party_fault(
                        *bundle,
                        (#[trigger] debits@[j]).0,
                    ) is None,
            decreases debits@.len() - i,
        {
            let entry = debits[i];
            proof {
                taken_is_owed(*bundle, entry.0.0 as int, n as nat);
                assert(counted(debits@, firsts, *bundle, parties, i as int));
                if self@.party_fault(*bundle, entry.0) is Some {
                    let p = firsts[i as int] as nat;
                    assert forall|q: nat| q < p implies self@.party_fault(
                        *bundle,
                        #[trigger] party(*bundle, q as int),
                    ) is None by {
                        assert(entered(debits@, firsts, *bundle, q as int));
                        let j = entry_for(debits@, firsts, *bundle, q as int);
                        if j >= i {
                            if j > i {
                                assert(firsts[i as int] < firsts[j]);
                            }
                            assert(false);
                        }
                    }
                    first_party_at_fault(self@, *bundle, p, parties);
                }
            }
            if (entry.0.0 as usize) >= self.balances.len() {
                return Err(SettleError::UnknownAccount);
            }
            // Balance, not availability: a pending withdrawal does not kill a basket in flight.
            if self.balance(entry.0).0 < entry.1.0 {
                return Err(SettleError::InsufficientFunds { account: entry.0 });
            }
            i += 1;
        }
        proof {
            assert forall|q: nat| q < parties implies self@.party_fault(
                *bundle,
                #[trigger] party(*bundle, q as int),
            ) is None by {
                assert(entered(debits@, firsts, *bundle, q as int));
                let j = entry_for(debits@, firsts, *bundle, q as int);
                assert(self@.party_fault(*bundle, debits@[j].0) is None);
            }
            no_party_before(self@, *bundle, parties);
            assert(tallied(debits@, firsts, *bundle, parties));
        }
        Ok(debits)
    }

    /// Whether the escrow table has room for every leg of `bundle`.
    fn has_room(&self, bundle: &Bundle) -> (r: bool)
        ensures
            r == (self@.escrows.len() + bundle.n_legs <= self@.max_escrows),
    {
        let n: usize = bundle.n_legs as usize;
        n <= self.max_escrows && self.escrows.len() <= self.max_escrows - n
    }

    /// A read-only dry run of [`CustodyLedger::settle`] at `now`: whatever it would revert with.
    ///
    /// **An optimisation with no correctness role**: the window between check and inclusion is
    /// exactly where a withdrawal lands. The authoritative validation is inside the transaction.
    pub fn precheck(&self, bundle: &Bundle, now: Ts) -> (r: Result<(), SettleError>)
        requires
            self.wf(),
        ensures
            r == (match self@.reverts(*bundle, now) {
                Some(error) => Err::<(), SettleError>(error),
                None => Ok::<(), SettleError>(()),
            }),
    {
        match self.validate(bundle, now) {
            Ok(_) => {
                if self.has_room(bundle) {
                    Ok(())
                } else {
                    Err(SettleError::EscrowCapacityExhausted)
                }
            },
            Err(error) => Err(error),
        }
    }

    /// Take every debit out of the balances.
    fn take_debits(&mut self, debits: &Vec<(AccountIdx, Amount)>, bundle: &Bundle, now: Ts)
        requires
            old(self).wf(),
            old(self)@.reverts(*bundle, now) is None,
            tally_of(debits@, *bundle),
        ensures
            final(self)@ == (CustodyView {
                accounts: old(self)@.debited(*bundle).accounts,
                ..old(self)@
            }),
    {
        let ghost n = bundle.n_legs as nat;
        let ghost firsts = choose|firsts: Seq<int>| #[trigger]
            tallied(debits@, firsts, *bundle, 2 * n);
        let ghost goal = self@.debited(*bundle).accounts;
        let ghost start = self@.accounts;
        proof {
            settleable(self@, *bundle, now);
            assert forall|j: int| 0 <= j < debits@.len() implies (#[trigger] debits@[j]).0.0
                < start.len() && debits@[j].1.0 == owed(*bundle, debits@[j].0.0 as int, n) by {
                taken_is_owed(*bundle, debits@[j].0.0 as int, n);
                let p = firsts[j];
                assert(counted(debits@, firsts, *bundle, 2 * n, j));
                if p % 2 == 0 {
                    assert(self@.knows(bundle.legs@[p / 2].maker));
                }
            }
        }
        let mut i: usize = 0;
        while i < debits.len()
            invariant
                i <= debits@.len(),
                n == bundle.n_legs,
                old(self).wf(),
                start == old(self)@.accounts,
                old(self)@.invalid(*bundle, now) is None,
                goal == old(self)@.debited(*bundle).accounts,
                self@ == (CustodyView { accounts: self@.accounts, ..old(self)@ }),
                self@.accounts.len() == start.len(),
                tallied(debits@, firsts, *bundle, 2 * n),
                forall|j: int|
                    0 <= j < debits@.len() ==> (#[trigger] debits@[j]).0.0 < start.len()
                        && debits@[j].1.0 == owed(*bundle, debits@[j].0.0 as int, n),
                forall|j: int|
                    0 <= j < i ==> self@.accounts[(#[trigger] debits@[j]).0.0 as int]
                        == goal[debits@[j].0.0 as int],
                forall|a: int|
                    0 <= a < start.len() && (forall|j: int|
                        0 <= j < i ==> (#[trigger] debits@[j]).0.0 != a) ==> self@.accounts[a]
                        == start[a],
            decreases debits@.len() - i,
        {
            let (account, amount) = debits[i];
            let index: usize = account.0 as usize;
            proof {
                assert(debits@[i as int].0 == account);
                assert forall|j: int| 0 <= j < i implies (#[trigger] debits@[j]).0.0
                    != account.0 by {
                    assert(debits@[j].0 != debits@[i as int].0);
                }
                assert(self@.accounts[index as int] == start[index as int]);
                debts_are_covered(old(self)@, *bundle, now, index as int);
            }
            let mut entry = self.balances[index];
            entry.balance = Amount(entry.balance.0 - amount.0);
            let ghost before = self@.accounts;
            self.balances.set(index, entry);
            proof {
                assert(self@.accounts == before.update(index as int, entry));
                assert(entry == goal[index as int]);
                assert forall|j: int| 0 <= j < i + 1 implies self@.accounts[(
                #[trigger] debits@[j]).0.0 as int] == goal[debits@[j].0.0 as int] by {
                    if j < i {
                        assert(debits@[j].0.0 != account.0);
                    }
                }
                assert forall|a: int|
                    0 <= a < start.len() && (forall|j: int|
                        0 <= j < i + 1 ==> (#[trigger] debits@[j]).0.0 != a) implies self@.accounts[a]
                    == start[a] by {
                    assert(debits@[i as int].0.0 != a);
                }
            }
            i += 1;
        }
        proof {
            assert forall|a: int| 0 <= a < start.len() implies #[trigger] self@.accounts[a]
                == goal[a] by {
                if exists|j: int| 0 <= j < debits@.len() && (#[trigger] debits@[j]).0.0 == a {
                    let j = choose|j: int|
                        0 <= j < debits@.len() && (#[trigger] debits@[j]).0.0 == a;
                    assert(self@.accounts[debits@[j].0.0 as int] == goal[debits@[j].0.0 as int]);
                } else {
                    assert forall|j: int| 0 <= j < debits@.len() implies (
                    #[trigger] debits@[j]).0 != AccountIdx(a as u32) by {}
                    strangers_lose_nothing(debits@, firsts, *bundle, 2 * n, AccountIdx(a as u32));
                    taken_is_owed(*bundle, a, n);
                }
            }
            assert(self@.accounts =~= goal);
        }
    }

    /// Include a bundle at `now`: validate **everything** against current chain state, then
    /// debit all and form escrows, or revert entirely.
    ///
    /// A transaction is atomic and reverts wholesale, which is why the interface takes the whole
    /// bundle rather than one leg at a time. On a revert nothing moved and the nonce was not
    /// consumed.
    pub fn settle(&mut self, bundle: &Bundle, now: Ts) -> (r: Result<SettleReceipt, SettleError>)
        requires
            old(self).wf(),
        ensures
            final(self).wf(),
            match old(self)@.reverts(*bundle, now) {
                Some(error) => r == Err::<SettleReceipt, SettleError>(error) && *final(self)
                    == *old(self),
                None => {
                    &&& r is Ok
                    &&& r->Ok_0.names(*bundle, old(self)@.escrows.len())
                    &&& final(self)@ == old(self)@.settled(*bundle)
                },
            },
    {
        let debits = match self.validate(bundle, now) {
            Ok(debits) => debits,
            Err(error) => {
                return Err(error);
            },
        };
        let n: usize = bundle.n_legs as usize;
        if !self.has_room(bundle) {
            return Err(SettleError::EscrowCapacityExhausted);
        }
        proof {
            settlement_wf(self@, *bundle, now);
            settleable(self@, *bundle, now);
        }
        let ghost before = self@;
        let ghost formed = Seq::new(
            n as nat,
            |k: int| Escrow::formed(bundle.legs@[k], bundle.requester),
        );
        self.take_debits(&debits, bundle, now);
        let ghost accounts = self@.accounts;
        let mut escrows: [EscrowId; MAX_LEGS] = [EscrowId(0);MAX_LEGS];
        let mut payloads: Vec<ChainPayload> = Vec::new();
        let mut index: usize = 0;
        while index < n
            invariant
                index <= n == bundle.n_legs,
                n <= MAX_LEGS,
                before.wf(),
                before.invalid(*bundle, now) is None,
                before.escrows.len() + n <= before.max_escrows,
                formed == Seq::new(
                    n as nat,
                    |k: int| Escrow::formed(bundle.legs@[k], bundle.requester),
                ),
                accounts == before.debited(*bundle).accounts,
                self@ == (CustodyView {
                    accounts,
                    escrows: before.escrows + formed.take(index as int),
                    ..before
                }),
                payloads@ == Seq::new(
                    index as nat,
                    |k: int| before.debited(*bundle).announcement(bundle.legs@[k].maker),
                ),
                forall|k: int|
                    0 <= k < MAX_LEGS ==> (#[trigger] escrows@[k]).0 == (if k < index {
                        before.escrows.len() + k
                    } else {
                        0
                    }),
            decreases n - index,
        {
            let leg = bundle.legs[index];
            proof {
                settleable(before, *bundle, now);
                assert(bundle.legs@[index as int] == leg);
                assert(before.knows(leg.maker));
            }
            let id = EscrowId(self.escrows.len() as u32);
            let requester_contribution = match leg.requester_contribution() {
                Some(amount) => amount,
                None => Amount(0),
            };
            let maker_contribution = match leg.maker_contribution() {
                Some(amount) => amount,
                None => Amount(0),
            };
            let ghost was = self@.escrows;
            let ghost said = payloads@;
            let escrow = Escrow::locked(
                leg.contract,
                leg.side,
                leg.size,
                bundle.requester,
                leg.maker,
                requester_contribution,
                maker_contribution,
            );
            self.escrows.push(escrow);
            escrows[index] = id;
            payloads.push(
                ChainPayload::BalanceChanged {
                    account: leg.maker,
                    available: self.available(leg.maker),
                },
            );
            proof {
                assert(escrow == formed[index as int]);
                assert(formed.take(index + 1) =~= formed.take(index as int).push(escrow));
                assert(self@.escrows =~= before.escrows + formed.take(index + 1));
                assert(payloads@ =~= Seq::new(
                    (index + 1) as nat,
                    |k: int| before.debited(*bundle).announcement(bundle.legs@[k].maker),
                ));
            }
            index += 1;
        }
        payloads.push(
            ChainPayload::BalanceChanged {
                account: bundle.requester,
                available: self.available(bundle.requester),
            },
        );
        payloads.push(
            ChainPayload::SettlementResolved { nonce: bundle.nonce, status: TxStatus::Settled },
        );
        self.nonces.push(bundle.nonce);
        self.log.append_transaction(payloads.as_slice());
        proof {
            assert(formed.take(n as int) =~= formed);
            let after = before.debited(*bundle);
            assert(payloads@ =~= after.settlement_entries(*bundle));
            assert(self@ =~= before.settled(*bundle));
        }
        Ok(SettleReceipt { escrows, n_escrows: bundle.n_legs })
    }

    // ───────────────────────────── payouts ─────────────────────────────

    /// Add `amount` to one account's balance.
    fn credit(&mut self, account: AccountIdx, amount: Amount)
        requires
            old(self)@.knows(account),
            old(self)@.accounts[account.0 as int].balance.0 + amount.0 <= u64::MAX,
        ensures
            ({
                let entry = old(self)@.accounts[account.0 as int];
                final(self)@ == old(self)@.rewritten(
                    account,
                    Balance { balance: Amount((entry.balance.0 + amount.0) as u64), ..entry },
                )
            }),
    {
        let index: usize = account.0 as usize;
        let mut entry = self.balances[index];
        entry.balance = Amount(entry.balance.0 + amount.0);
        self.balances.set(index, entry);
        proof {
            assert(self@ =~= old(self)@.rewritten(account, entry));
        }
    }

    /// Pay an escrow out under `outcome`: the winner takes the notional, a void returns each
    /// side its own contribution. `false` if it had been paid already.
    ///
    /// Re-settlement is a no-op, so replay is harmless. The consumed flag is set in the same
    /// mutation as the credit.
    pub fn settle_escrow(&mut self, id: EscrowId, contract: ContractIdx, outcome: Outcome) -> (r:
        Result<bool, CustodyError>)
        requires
            old(self).wf(),
        ensures
            final(self).wf(),
            match old(self)@.payout_refused(id, contract) {
                Some(error) => r == Err::<bool, CustodyError>(error) && *final(self) == *old(self),
                None => if old(self)@.escrows[id.0 as int].state is Locked {
                    &&& r == Ok::<bool, CustodyError>(true)
                    &&& final(self)@ == old(self)@.paid_out(id, outcome)
                } else {
                    r == Ok::<bool, CustodyError>(false) && *final(self) == *old(self)
                },
            },
    {
        let index: usize = id.0 as usize;
        if index >= self.escrows.len() {
            return Err(CustodyError::UnknownAccount);
        }
        let escrow = self.escrows[index];
        if escrow.contract() != contract {
            return Err(CustodyError::EscrowContractMismatch);
        }
        if !escrow.is_locked() {
            return Ok(false);
        }
        let ghost before = self@;
        let ghost after = before.paid_out(id, outcome);
        let ghost (rq, mk) = (escrow.requester.0 as int, escrow.maker.0 as int);
        proof {
            payout_wf(self@, id, contract, outcome);
            assert(self@.escrow_ok(index as int));
            assert(AccountIdx(rq as u32) == escrow.requester);
            assert(AccountIdx(mk as u32) == escrow.maker);
            assert(before.accounts[rq].balance.0 + escrow.payout(outcome, escrow.requester)
                <= u64::MAX);
            assert(before.accounts[mk].balance.0 + escrow.payout(outcome, escrow.maker)
                <= u64::MAX);
            assert forall|a: int|
                0 <= a < before.accounts.len() && a != rq && a != mk implies #[trigger] after.accounts[a]
                == before.accounts[a] by {
                assert(AccountIdx(a as u32) != escrow.requester);
                assert(AccountIdx(a as u32) != escrow.maker);
            }
        }
        let for_yes = matches!(escrow.side(), Side::Yes);
        match outcome {
            Outcome::Void => {
                self.credit(escrow.requester, escrow.requester_contribution);
                self.credit(escrow.maker, escrow.maker_contribution);
            },
            Outcome::Yes => {
                self.credit(
                    if for_yes {
                        escrow.requester
                    } else {
                        escrow.maker
                    },
                    escrow.notional(),
                );
            },
            Outcome::No => {
                self.credit(
                    if for_yes {
                        escrow.maker
                    } else {
                        escrow.requester
                    },
                    escrow.notional(),
                );
            },
        }
        proof {
            assert(self@.accounts =~= after.accounts);
        }
        let mut spent = escrow;
        spent.mark_settled();
        self.escrows.set(index, spent);
        let requester_available = self.available(escrow.requester);
        let maker_available = self.available(escrow.maker);
        let payloads: [ChainPayload; 2] = [
            ChainPayload::BalanceChanged {
                account: escrow.requester,
                available: requester_available,
            },
            ChainPayload::BalanceChanged { account: escrow.maker, available: maker_available },
        ];
        self.log.append_transaction(vstd::array::array_as_slice(&payloads));
        proof {
            let said = seq![after.announcement(escrow.requester), after.announcement(escrow.maker)];
            assert(payloads@ =~= said);
            assert(self@ =~= after);
        }
        Ok(true)
    }
}

} // verus!
