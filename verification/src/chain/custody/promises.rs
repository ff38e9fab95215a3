//! What whoever calls custody is promised, whatever it held before, in plain numbers.

use crate::account::AccountIdx;
use crate::chain::bundle::Bundle;
use crate::chain::custody::effects::{
    a_bundle_settles_exactly_where_it_is_covered, a_settlement_debits_and_forms,
    a_withdrawal_request_marks_exactly_its_amount, an_execution_pays_what_is_pending, books_kept,
    covers, debit, maturing_executes_exactly_what_is_due, others_kept,
};
use crate::chain::custody::model::CustodyView;
use crate::chain::custody::{Balance, CustodyError, CustodyLedger, SettleError, SettleReceipt};
use crate::chain::escrow::EscrowState;
use crate::config::MAX_LEGS;
use crate::types::{Amount, Dur, Ts};
use vstd::prelude::*;

verus! {

/// `account` has `amount` on its way out until `matures_at`, with its balance as it was, and
/// everything else is as it was.
pub open spec fn only_marks(
    before: CustodyView,
    after: CustodyView,
    account: AccountIdx,
    amount: Amount,
    matures_at: Ts,
) -> bool {
    let a = account.0 as int;
    &&& after.accounts[a].balance == before.accounts[a].balance
    &&& after.accounts[a].pending == amount
    &&& after.accounts[a].matures_at == matures_at
    &&& others_kept(before, after, a)
    &&& books_kept(before, after)
    &&& after.escrows == before.escrows
    &&& after.nonces == before.nonces
}

/// **A withdrawal may be requested of what is there, one at a time, and matures one delay later**:
/// it is refused for an account that is not there, while another is pending, for more than the
/// balance, and past the end of time; then nothing moves.
pub proof fn requesting_a_withdrawal_only_marks_it(
    account: AccountIdx,
    amount: Amount,
    now: Ts,
    r: Result<Ts, CustodyError>,
)
    ensures
        forall|custody: &mut CustodyLedger| #[trigger]
            call_ensures(CustodyLedger::request_withdrawal, (custody, account, amount, now), r) && (
            *custody).wf() ==> {
                let (before, after) = ((*custody)@, final(custody)@);
                let entry = before.accounts[account.0 as int];
                let taken = account.0 < before.accounts.len() && entry.pending.0 == 0 && amount.0
                    <= entry.balance.0 && now.0 + before.delay.0 <= 0xffff_ffff_ffff_ffff;
                &&& r is Ok <==> taken
                &&& taken ==> r->Ok_0.0 == now.0 + before.delay.0 && only_marks(
                    before,
                    after,
                    account,
                    amount,
                    r->Ok_0,
                )
                &&& !taken ==> after == before
            },
{
    assert forall|custody: &mut CustodyLedger| #[trigger]
        call_ensures(CustodyLedger::request_withdrawal, (custody, account, amount, now), r) && (
        *custody).wf() implies {
        let (before, after) = ((*custody)@, final(custody)@);
        let entry = before.accounts[account.0 as int];
        let taken = account.0 < before.accounts.len() && entry.pending.0 == 0 && amount.0
            <= entry.balance.0 && now.0 + before.delay.0 <= 0xffff_ffff_ffff_ffff;
        &&& r is Ok <==> taken
        &&& taken ==> r->Ok_0.0 == now.0 + before.delay.0 && only_marks(
            before,
            after,
            account,
            amount,
            r->Ok_0,
        )
        &&& !taken ==> after == before
    } by {
        a_withdrawal_request_marks_exactly_its_amount((*custody)@, account, amount, now);
    }
}

/// `account` has `paid` less and nothing on its way out, that much more is withdrawn, and everything
/// else is as it was.
pub open spec fn only_withdraws(
    before: CustodyView,
    after: CustodyView,
    account: AccountIdx,
    paid: Amount,
) -> bool {
    let a = account.0 as int;
    &&& after.accounts[a].balance.0 == before.accounts[a].balance.0 - paid.0
    &&& after.accounts[a].pending.0 == 0
    &&& after.withdrawn.0 == before.withdrawn.0 + paid.0
    &&& after.deposited == before.deposited
    &&& others_kept(before, after, a)
    &&& after.escrows == before.escrows
    &&& after.nonces == before.nonces
}

/// **A pending withdrawal is paid from its maturity on, of what is still there**: before that, where
/// none is pending, and for an account that is not there, it is refused and nothing moves.
pub proof fn executing_a_withdrawal_pays_it(
    account: AccountIdx,
    now: Ts,
    r: Result<Amount, CustodyError>,
)
    ensures
        forall|custody: &mut CustodyLedger| #[trigger]
            call_ensures(CustodyLedger::execute_withdrawal, (custody, account, now), r) && (
            *custody).wf() ==> {
                let (before, after) = ((*custody)@, final(custody)@);
                let entry = before.accounts[account.0 as int];
                let due = account.0 < before.accounts.len() && entry.pending.0 > 0
                    && entry.matures_at.0 <= now.0;
                &&& r is Ok <==> due
                &&& due ==> {
                    &&& r->Ok_0 == if entry.pending.0 <= entry.balance.0 {
                        entry.pending
                    } else {
                        entry.balance
                    }
                    &&& only_withdraws(before, after, account, r->Ok_0)
                }
                &&& !due ==> after == before
            },
{
    assert forall|custody: &mut CustodyLedger| #[trigger]
        call_ensures(CustodyLedger::execute_withdrawal, (custody, account, now), r) && (
        *custody).wf() implies {
        let (before, after) = ((*custody)@, final(custody)@);
        let entry = before.accounts[account.0 as int];
        let due = account.0 < before.accounts.len() && entry.pending.0 > 0 && entry.matures_at.0
            <= now.0;
        &&& r is Ok <==> due
        &&& due ==> {
            &&& r->Ok_0 == if entry.pending.0 <= entry.balance.0 {
                entry.pending
            } else {
                entry.balance
            }
            &&& only_withdraws(before, after, account, r->Ok_0)
        }
        &&& !due ==> after == before
    } by {
        an_execution_pays_what_is_pending((*custody)@, account, now);
    }
}

/// An entry once what has matured by `now` is executed.
pub open spec fn executed_by(was: Balance, is: Balance, now: Ts) -> bool {
    if was.pending.0 > 0 && was.matures_at.0 <= now.0 {
        &&& is.pending.0 == 0
        &&& is.balance.0 == if was.pending.0 <= was.balance.0 {
            was.balance.0 - was.pending.0
        } else {
            0
        }
    } else {
        is == was
    }
}

/// **Every withdrawal that has matured is executed, and no other.**
pub proof fn executing_what_has_matured(now: Ts, r: u32)
    ensures
        forall|custody: &mut CustodyLedger| #[trigger]
            call_ensures(CustodyLedger::execute_matured_withdrawals, (custody, now), r) && (
            *custody).wf() ==> {
                let (before, after) = ((*custody)@, final(custody)@);
                &&& after.accounts.len() == before.accounts.len()
                &&& forall|a: int|
                    0 <= a < before.accounts.len() ==> executed_by(
                        before.accounts[a],
                        #[trigger] after.accounts[a],
                        now,
                    )
                &&& after.escrows == before.escrows
                &&& after.nonces == before.nonces
                &&& after.deposited == before.deposited
            },
{
    assert forall|custody: &mut CustodyLedger| #[trigger]
        call_ensures(CustodyLedger::execute_matured_withdrawals, (custody, now), r) && (
        *custody).wf() implies {
        let (before, after) = ((*custody)@, final(custody)@);
        &&& after.accounts.len() == before.accounts.len()
        &&& forall|a: int|
            0 <= a < before.accounts.len() ==> executed_by(
                before.accounts[a],
                #[trigger] after.accounts[a],
                now,
            )
        &&& after.escrows == before.escrows
        &&& after.nonces == before.nonces
        &&& after.deposited == before.deposited
    } by {
        maturing_executes_exactly_what_is_due((*custody)@, now, (*custody)@.accounts.len());
    }
}

/// A bundle that custody can settle at `now`: it has legs, its nonce is unspent, there is room for its
/// escrows, every quote in it is live and priced within what a contract pays, and everybody in it has
/// what all of it takes from them.
pub open spec fn settles(custody: CustodyView, bundle: Bundle, now: Ts) -> bool {
    &&& 0 < bundle.n_legs <= MAX_LEGS
    &&& !custody.nonces.contains(bundle.nonce)
    &&& custody.escrows.len() + bundle.n_legs <= custody.max_escrows
    &&& covers(custody, bundle, bundle.requester)
    &&& forall|k: int|
        0 <= k < bundle.n_legs ==> {
            let leg = #[trigger] bundle.legs@[k];
            &&& now.0 < leg.quote_expiry.0
            &&& leg.fill_price.0 <= 1_000_000
            &&& covers(custody, bundle, leg.maker)
        }
}

/// Everybody has what `bundle` takes from them less, its nonce is spent, and one locked escrow per leg
/// has formed behind those there were.
pub open spec fn debits_and_forms(before: CustodyView, after: CustodyView, bundle: Bundle) -> bool {
    let n = bundle.n_legs as nat;
    let formed = before.escrows.len() as int;
    &&& books_kept(before, after)
    &&& forall|a: int|
        0 <= a < before.accounts.len() ==> {
            let (was, is) = (before.accounts[a], #[trigger] after.accounts[a]);
            &&& is.balance.0 == was.balance.0 - debit(bundle.legs@, bundle.requester, a, n)
            &&& is.pending == was.pending
            &&& is.matures_at == was.matures_at
        }
    &&& after.nonces == before.nonces.push(bundle.nonce)
    &&& after.escrows.len() == formed + n
    &&& forall|i: int| 0 <= i < formed ==> #[trigger] after.escrows[i] == before.escrows[i]
    &&& forall|k: int|
        0 <= k < n ==> {
            let escrow = #[trigger] after.escrows[formed + k];
            let leg = bundle.legs@[k];
            &&& escrow.contract == leg.contract
            &&& escrow.side == leg.side
            &&& escrow.size == leg.size
            &&& escrow.requester == bundle.requester
            &&& escrow.maker == leg.maker
            &&& escrow.requester_contribution.0 == leg.size.0 * leg.fill_price.0
            &&& escrow.maker_contribution.0 == leg.size.0 * (1_000_000 - leg.fill_price.0)
            &&& escrow.state == EscrowState::Locked
        }
}

/// **A bundle settles whole or not at all**: where custody can settle it, everybody is debited, the
/// nonce is spent, and the receipt names the escrows that formed, leg by leg; otherwise nothing moves.
pub proof fn a_bundle_settles_whole_or_not_at_all(
    bundle: &Bundle,
    now: Ts,
    r: Result<SettleReceipt, SettleError>,
)
    ensures
        forall|custody: &mut CustodyLedger| #[trigger]
            call_ensures(CustodyLedger::settle, (custody, bundle, now), r) && (*custody).wf() ==> {
                let (before, after) = ((*custody)@, final(custody)@);
                &&& r is Ok <==> settles(before, *bundle, now)
                &&& r is Ok ==> {
                    &&& debits_and_forms(before, after, *bundle)
                    &&& r->Ok_0.n_escrows == bundle.n_legs
                    &&& forall|k: int|
                        0 <= k < bundle.n_legs ==> (#[trigger] r->Ok_0.escrows@[k]).0
                            == before.escrows.len() + k
                }
                &&& r is Err ==> after == before
            },
{
    assert forall|custody: &mut CustodyLedger| #[trigger]
        call_ensures(CustodyLedger::settle, (custody, bundle, now), r) && (
        *custody).wf() implies {
        let (before, after) = ((*custody)@, final(custody)@);
        &&& r is Ok <==> settles(before, *bundle, now)
        &&& r is Ok ==> {
            &&& debits_and_forms(before, after, *bundle)
            &&& r->Ok_0.n_escrows == bundle.n_legs
            &&& forall|k: int|
                0 <= k < bundle.n_legs ==> (#[trigger] r->Ok_0.escrows@[k]).0
                    == before.escrows.len() + k
        }
        &&& r is Err ==> after == before
    } by {
        a_bundle_settles_exactly_where_it_is_covered((*custody)@, *bundle, now);
        if r is Ok {
            a_settlement_debits_and_forms((*custody)@, *bundle, now);
        }
    }
}

/// **A bundle is prechecked as it would settle**, at the same instant and against the same state.
pub proof fn a_precheck_foretells_the_settlement(
    custody: &CustodyLedger,
    bundle: &Bundle,
    now: Ts,
    r: Result<(), SettleError>,
)
    requires
        custody.wf(),
        call_ensures(CustodyLedger::precheck, (custody, bundle, now), r),
    ensures
        r is Ok <==> settles(custody@, *bundle, now),
{
    a_bundle_settles_exactly_where_it_is_covered(custody@, *bundle, now);
}

/// **What an account has available is its balance less what is on its way out**; and what is on its
/// way out is told with its maturity.
pub proof fn an_entry_is_read_as_it_is(
    entry: &Balance,
    available: Amount,
    balance: Amount,
    pending: Option<(Amount, Ts)>,
)
    requires
        call_ensures(Balance::available, (entry,), available),
        call_ensures(Balance::balance, (entry,), balance),
        call_ensures(Balance::pending_withdrawal, (entry,), pending),
    ensures
        balance == entry.balance,
        entry.pending.0 <= entry.balance.0 ==> available.0 == entry.balance.0 - entry.pending.0,
        entry.pending.0 > entry.balance.0 ==> available.0 == 0,
        entry.pending.0 == 0 ==> pending is None,
        entry.pending.0 > 0 ==> pending == Some((entry.pending, entry.matures_at)),
{
}

/// **What custody says of an account is what its entry says**, and of one that is not there, nothing.
pub proof fn an_account_is_read_as_it_is(
    custody: &CustodyLedger,
    account: AccountIdx,
    balance: Amount,
    available: Amount,
)
    requires
        call_ensures(CustodyLedger::balance, (custody, account), balance),
        call_ensures(CustodyLedger::available, (custody, account), available),
    ensures
        account.0 >= custody@.accounts.len() ==> balance.0 == 0 && available.0 == 0,
        account.0 < custody@.accounts.len() ==> {
            let entry = custody@.accounts[account.0 as int];
            &&& balance == entry.balance
            &&& entry.pending.0 <= entry.balance.0 ==> available.0 == entry.balance.0
                - entry.pending.0
            &&& entry.pending.0 > entry.balance.0 ==> available.0 == 0
        },
{
}

/// **A fresh custody holds nobody's money**: every account has nothing and nothing on its way out, no
/// escrow has formed, no nonce is spent, and nothing was deposited or withdrawn.
pub proof fn a_fresh_custody_holds_nobodys_money(
    withdrawal_delay: Dur,
    max_accounts: u32,
    max_escrows: u32,
    r: CustodyLedger,
)
    requires
        call_ensures(CustodyLedger::new, (withdrawal_delay, max_accounts, max_escrows), r),
    ensures
        r@.delay == withdrawal_delay,
        r@.max_escrows == max_escrows,
        r@.accounts.len() == max_accounts,
        forall|a: int|
            0 <= a < max_accounts ==> (#[trigger] r@.accounts[a]).balance.0 == 0
                && r@.accounts[a].pending.0 == 0,
        r@.escrows.len() == 0,
        r@.nonces.len() == 0,
        r@.deposited.0 == 0 && r@.withdrawn.0 == 0,
{
}

} // verus!
