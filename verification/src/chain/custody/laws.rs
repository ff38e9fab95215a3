//! What custody promises across operations.

use crate::account::AccountIdx;
use crate::chain::bundle::Bundle;
use crate::chain::custody::model::{locked, owed, party, total, CustodyView};
use crate::chain::custody::money::{
    debts_are_covered, deposit_wf, empty_custody_wf, execution_wf, locked_update, payout_wf,
    request_wf, settlement_wf,
};
use crate::chain::custody::{CustodyError, SettleError};
use crate::chain::log::{writing_keeps_the_log_sound, ChainPayload, EntryView, LogView};
use crate::contract::{ContractIdx, Outcome};
use crate::escrow::EscrowId;
use crate::types::{Amount, Dur, Ts};
use vstd::prelude::*;

verus! {

/// The same balances, nonces and escrow room: what settlement validates against.
pub open spec fn settles_alike(a: CustodyView, b: CustodyView) -> bool {
    &&& a.accounts.len() == b.accounts.len()
    &&& forall|i: int|
        0 <= i < a.accounts.len() ==> (#[trigger] a.accounts[i]).balance == b.accounts[i].balance
    &&& a.nonces == b.nonces
    &&& a.escrows.len() == b.escrows.len()
    &&& a.max_escrows == b.max_escrows
}

proof fn parties_fare_alike(a: CustodyView, b: CustodyView, bundle: Bundle, n: nat)
    requires
        settles_alike(a, b),
    ensures
        a.first_party_fault(bundle, n) == b.first_party_fault(bundle, n),
    decreases n,
{
    if n > 0 {
        parties_fare_alike(a, b, bundle, (n - 1) as nat);
        let account = party(bundle, n - 1);
        if a.knows(account) {
            assert(a.accounts[account.0 as int].balance == b.accounts[account.0 as int].balance);
        }
    }
}

/// **Settlement validates presence, not availability**: a withdrawal lowers what its account may
/// lend by its amount and moves nobody's balance, and every bundle settles or reverts exactly as
/// it would have without the request.
pub proof fn a_pending_withdrawal_leaves_settlement_alone(
    custody: CustodyView,
    account: AccountIdx,
    amount: Amount,
    requested_at: Ts,
    bundle: Bundle,
    now: Ts,
)
    requires
        custody.withdrawal_refused(account, amount, requested_at) is None,
    ensures
        ({
            let after = custody.withdrawal_requested(account, amount, requested_at);
            &&& forall|a: AccountIdx| #[trigger] after.balance(a) == custody.balance(a)
            &&& after.available(account).0 == custody.available(account).0 - amount.0
            &&& forall|a: AccountIdx|
                a != account ==> #[trigger] after.available(a) == custody.available(a)
            &&& after.reverts(bundle, now) == custody.reverts(bundle, now)
        }),
{
    let after = custody.withdrawal_requested(account, amount, requested_at);
    parties_fare_alike(custody, after, bundle, 2 * bundle.n_legs as nat);
}

/// **The timelock is exact**: a withdrawal is refused at every instant before the delay has
/// elapsed, and granted at every instant from then on.
pub proof fn the_timelock_is_exact(
    custody: CustodyView,
    account: AccountIdx,
    amount: Amount,
    requested_at: Ts,
    now: Ts,
)
    requires
        custody.withdrawal_refused(account, amount, requested_at) is None,
        amount.0 > 0,
    ensures
        custody.withdrawal_requested(account, amount, requested_at).execution_refused(account, now)
            == (if now.0 < requested_at.0 + custody.delay.0 {
            Some(CustodyError::WithdrawalNotMatured)
        } else {
            None
        }),
{
}

/// **A debit never looks at the timelock**: money on its way out can be spent by a settlement
/// first, and the withdrawal then pays what is left. Nobody's balance goes below zero and
/// nobody is paid what is not there.
pub proof fn a_withdrawal_pays_what_is_present(custody: CustodyView, account: AccountIdx)
    requires
        custody.knows(account),
    ensures
        custody.payable(account).0 <= custody.balance(account).0,
        custody.withdrawal_executed(account).balance(account).0 == custody.balance(account).0
            - custody.payable(account).0,
        custody.withdrawal_executed(account).accounts[account.0 as int].pending.0 == 0,
        forall|a: AccountIdx|
            a != account ==> #[trigger] custody.withdrawal_executed(account).balance(a)
                == custody.balance(a),
{
}

/// **A settlement moves money and makes none**: each account is debited exactly what the bundle
/// has it owe, and what leaves the accounts is what the escrows gain.
pub proof fn a_settlement_moves_money_into_escrow(custody: CustodyView, bundle: Bundle, now: Ts)
    requires
        custody.wf(),
        custody.reverts(bundle, now) is None,
    ensures
        ({
            let after = custody.settled(bundle);
            &&& total(after.accounts) + locked(after.escrows) == total(custody.accounts) + locked(
                custody.escrows,
            )
            &&& after.escrows.len() == custody.escrows.len() + bundle.n_legs
            &&& forall|a: int|
                0 <= a < custody.accounts.len() ==> (#[trigger] after.accounts[a]).balance.0
                    == custody.accounts[a].balance.0 - owed(bundle, a, bundle.n_legs as nat)
        }),
{
    settlement_wf(custody, bundle, now);
    assert forall|a: int| 0 <= a < custody.accounts.len() implies (#[trigger] custody.settled(
        bundle,
    ).accounts[a]).balance.0 == custody.accounts[a].balance.0 - owed(
        bundle,
        a,
        bundle.n_legs as nat,
    ) by {
        debts_are_covered(custody, bundle, now, a);
    }
}

/// **A nonce settles once**: whatever carries the nonce of a settled bundle reverts.
pub proof fn a_nonce_settles_once(
    custody: CustodyView,
    bundle: Bundle,
    now: Ts,
    again: Bundle,
    later: Ts,
)
    requires
        custody.reverts(bundle, now) is None,
        again.nonce == bundle.nonce,
    ensures
        custody.settled(bundle).reverts(again, later) is Some,
        custody.settled(bundle).reverts(bundle, later) == Some(SettleError::NonceReused),
{
    assert(custody.settled(bundle).nonces.last() == bundle.nonce);
    assert(custody.settled(bundle).nonces.contains(bundle.nonce));
}

/// **An escrow pays once, and pays what it holds**: after a payout it is settled, no other escrow
/// has moved, and what the accounts gained is what it held.
pub proof fn an_escrow_pays_once(
    custody: CustodyView,
    id: EscrowId,
    contract: ContractIdx,
    outcome: Outcome,
)
    requires
        custody.wf(),
        custody.payout_refused(id, contract) is None,
        custody.escrows[id.0 as int].state is Locked,
    ensures
        ({
            let after = custody.paid_out(id, outcome);
            &&& after.escrows[id.0 as int].state is Settled
            &&& after.payout_refused(id, contract) is None
            &&& forall|i: int|
                0 <= i < custody.escrows.len() && i != id.0 ==> #[trigger] after.escrows[i]
                    == custody.escrows[i]
            &&& total(after.accounts) == total(custody.accounts)
                + custody.escrows[id.0 as int].held()
        }),
{
    payout_wf(custody, id, contract, outcome);
    locked_update(
        custody.escrows,
        id.0 as int,
        custody.escrows[id.0 as int].spent(),
    );
}

// ───────────────────────────── what the log says of balances ─────────────────────────────

/// What the last of the first `n` entries about `account` says it has available; nothing, where
/// none is about it.
pub open spec fn said(entries: Seq<EntryView>, n: nat, account: AccountIdx) -> Amount
    decreases n,
{
    if n == 0 {
        Amount(0)
    } else {
        match entries[n - 1].payload {
            ChainPayload::BalanceChanged { account: about, available } => if about == account {
                available
            } else {
                said(entries, (n - 1) as nat, account)
            },
            _ => said(entries, (n - 1) as nat, account),
        }
    }
}

/// What was said stays said.
pub proof fn said_so_far(a: Seq<EntryView>, b: Seq<EntryView>, n: nat, account: AccountIdx)
    requires
        n <= a.len(),
        n <= b.len(),
        forall|i: int| 0 <= i < n ==> #[trigger] b[i] == a[i],
    ensures
        said(b, n, account) == said(a, n, account),
    decreases n,
{
    if n > 0 {
        assert(b[n - 1] == a[n - 1]);
        said_so_far(a, b, (n - 1) as nat, account);
    }
}

/// Whether `payload` is about `account`'s balance.
pub open spec fn about(payload: ChainPayload, account: AccountIdx) -> bool {
    payload matches ChainPayload::BalanceChanged { account: subject, .. } && subject == account
}

/// Writing a transaction whose entries about `account` agree on what it has.
proof fn said_after(
    log: LogView,
    payloads: Seq<ChainPayload>,
    account: AccountIdx,
    available: Amount,
    n: nat,
)
    requires
        n <= payloads.len(),
        forall|k: int|
            0 <= k < payloads.len() && about(#[trigger] payloads[k], account) ==> payloads[k]
                == (ChainPayload::BalanceChanged { account, available }),
    ensures
        ({
            let now_said = said(log.written(payloads).entries, log.entries.len() + n, account);
            if exists|k: int| 0 <= k < n && about(#[trigger] payloads[k], account) {
                now_said == available
            } else {
                now_said == said(log.entries, log.entries.len(), account)
            }
        }),
    decreases n,
{
    let after = log.written(payloads).entries;
    if n == 0 {
        said_so_far(log.entries, after, log.entries.len(), account);
    } else {
        let m = (n - 1) as nat;
        said_after(log, payloads, account, available, m);
        assert(after[log.entries.len() + m as int].payload == payloads[m as int]);
        if about(payloads[m as int], account) {
            assert(payloads[m as int] == (ChainPayload::BalanceChanged { account, available }));
        } else if exists|k: int| 0 <= k < n && about(#[trigger] payloads[k], account) {
            let k = choose|k: int| 0 <= k < n && about(#[trigger] payloads[k], account);
            assert(0 <= k < m && about(payloads[k], account));
        }
    }
}

/// Everyone's availability is what the log last said it is.
pub open spec fn announced_throughout(custody: CustodyView) -> bool {
    forall|account: AccountIdx|
        custody.knows(account) ==> #[trigger] custody.available(account) == said(
            custody.log.entries,
            custody.log.entries.len(),
            account,
        )
}

/// Sound, with a sound log that says what everyone has.
pub open spec fn outspoken(custody: CustodyView) -> bool {
    &&& custody.wf()
    &&& custody.log.sound()
    &&& announced_throughout(custody)
}

/// `after` is outspoken too, over the same accounts, and has taken nothing back.
pub open spec fn carries_on(custody: CustodyView, after: CustodyView) -> bool {
    &&& outspoken(after)
    &&& after.accounts.len() == custody.accounts.len()
    &&& custody.log.grows_to(after.log)
}

/// One transaction that says what everyone it moved has now.
proof fn announcing(
    custody: CustodyView,
    after: CustodyView,
    payloads: Seq<ChainPayload>,
)
    requires
        outspoken(custody),
        custody.log.minted < u64::MAX,
        payloads.len() <= u32::MAX,
        after.wf(),
        after.accounts.len() == custody.accounts.len(),
        after.log == custody.log.written(payloads),
        forall|k: int|
            0 <= k < payloads.len() && (#[trigger] payloads[k]) is BalanceChanged ==> payloads[k]
                == after.announcement(payloads[k]->BalanceChanged_account),
        forall|account: AccountIdx|
            custody.knows(account) ==> #[trigger] after.available(account) == custody.available(
                account,
            ) || exists|k: int| 0 <= k < payloads.len() && about(#[trigger] payloads[k], account),
    ensures
        carries_on(custody, after),
{
    writing_keeps_the_log_sound(custody.log, payloads);
    assert forall|account: AccountIdx| after.knows(account) implies
        #[trigger] after.available(account) == said(
        after.log.entries,
        after.log.entries.len(),
        account,
    ) by {
        assert(custody.knows(account));
        assert(custody.available(account) == said(
            custody.log.entries,
            custody.log.entries.len(),
            account,
        ));
        assert forall|k: int| 0 <= k < payloads.len() && about(
            #[trigger] payloads[k],
            account,
        ) implies payloads[k] == (ChainPayload::BalanceChanged {
            account,
            available: after.available(account),
        }) by {
            assert(payloads[k] is BalanceChanged);
        }
        said_after(custody.log, payloads, account, after.available(account), payloads.len());
    }
}

/// **Every change is announced**: whatever custody does, the log then says of every account
/// exactly what it has available, and says still whatever it said before. (While transaction
/// identities last.)
pub proof fn every_change_is_announced(
    custody: CustodyView,
    account: AccountIdx,
    amount: Amount,
    now: Ts,
    bundle: Bundle,
    id: EscrowId,
    contract: ContractIdx,
    outcome: Outcome,
)
    requires
        outspoken(custody),
        custody.log.minted < u64::MAX,
    ensures
        custody.deposit_refused(account, amount) is None ==> carries_on(
            custody,
            custody.after_deposit(account, amount),
        ),
        custody.withdrawal_refused(account, amount, now) is None ==> carries_on(
            custody,
            custody.withdrawal_requested(account, amount, now),
        ),
        custody.execution_refused(account, now) is None ==> carries_on(
            custody,
            custody.withdrawal_executed(account),
        ),
        custody.reverts(bundle, now) is None ==> carries_on(custody, custody.settled(bundle)),
        custody.payout_refused(id, contract) is None && custody.escrows[id.0 as int].state is Locked
            ==> carries_on(custody, custody.paid_out(id, outcome)),
{
    if custody.deposit_refused(account, amount) is None {
        deposit_wf(custody, account, amount);
        let after = custody.after_deposit(account, amount);
        one_account_announced(custody, after, account);
    }
    if custody.withdrawal_refused(account, amount, now) is None {
        request_wf(custody, account, amount, now);
        let after = custody.withdrawal_requested(account, amount, now);
        one_account_announced(custody, after, account);
    }
    if custody.execution_refused(account, now) is None {
        execution_wf(custody, account, now);
        let after = custody.withdrawal_executed(account);
        one_account_announced(custody, after, account);
    }
    if custody.reverts(bundle, now) is None {
        settlement_wf(custody, bundle, now);
        settlement_is_announced(custody, bundle, now);
    }
    if custody.payout_refused(id, contract) is None && custody.escrows[id.0 as int].state
        is Locked {
        payout_wf(custody, id, contract, outcome);
        payout_is_announced(custody, id, outcome);
    }
}

/// One account moved, and the transaction says what it has.
proof fn one_account_announced(custody: CustodyView, after: CustodyView, account: AccountIdx)
    requires
        outspoken(custody),
        custody.log.minted < u64::MAX,
        after.wf(),
        custody.knows(account),
        after.accounts.len() == custody.accounts.len(),
        forall|a: int|
            0 <= a < custody.accounts.len() && a != account.0 ==> #[trigger] after.accounts[a]
                == custody.accounts[a],
        after.log == custody.log.written(seq![after.announcement(account)]),
    ensures
        carries_on(custody, after),
{
    let payloads = seq![after.announcement(account)];
    assert forall|other: AccountIdx| custody.knows(other) implies #[trigger] after.available(other)
        == custody.available(other) || exists|k: int|
        0 <= k < payloads.len() && about(#[trigger] payloads[k], other) by {
        if other == account {
            assert(about(payloads[0], other));
        } else {
            assert(after.accounts[other.0 as int] == custody.accounts[other.0 as int]);
        }
    }
    announcing(custody, after, payloads);
}

proof fn settlement_is_announced(custody: CustodyView, bundle: Bundle, now: Ts)
    requires
        outspoken(custody),
        custody.log.minted < u64::MAX,
        custody.reverts(bundle, now) is None,
        custody.settled(bundle).wf(),
    ensures
        carries_on(custody, custody.settled(bundle)),
{
    let after = custody.settled(bundle);
    let n = bundle.n_legs as int;
    let payloads = custody.debited(bundle).settlement_entries(bundle);
    assert(payloads[n] == after.announcement(bundle.requester));
    assert forall|k: int| 0 <= k < payloads.len() && (
    #[trigger] payloads[k]) is BalanceChanged implies payloads[k] == after.announcement(
        payloads[k]->BalanceChanged_account,
    ) by {
        if k < n {
            assert(payloads[k] == after.announcement(bundle.legs@[k].maker));
        }
    }
    assert forall|other: AccountIdx| custody.knows(other) implies #[trigger] after.available(other)
        == custody.available(other) || exists|k: int|
        0 <= k < payloads.len() && about(#[trigger] payloads[k], other) by {
        if other == bundle.requester {
            assert(about(payloads[n], other));
        } else if exists|k: int| 0 <= k < n && (#[trigger] bundle.legs@[k]).maker == other {
            let k = choose|k: int| 0 <= k < n && (#[trigger] bundle.legs@[k]).maker == other;
            assert(payloads[k] == after.announcement(bundle.legs@[k].maker));
            assert(about(payloads[k], other));
        } else {
            assert forall|k: int| 0 <= k < bundle.n_legs implies (
            #[trigger] bundle.legs@[k]).maker.0 != other.0 by {
                assert(bundle.legs@[k].maker != other);
            }
            debts_are_covered(custody, bundle, now, other.0 as int);
            assert(after.accounts[other.0 as int].balance
                == custody.accounts[other.0 as int].balance);
        }
    }
    announcing(custody, after, payloads);
}

proof fn payout_is_announced(custody: CustodyView, id: EscrowId, outcome: Outcome)
    requires
        outspoken(custody),
        custody.log.minted < u64::MAX,
        id.0 < custody.escrows.len(),
        custody.paid_out(id, outcome).wf(),
    ensures
        carries_on(custody, custody.paid_out(id, outcome)),
{
    let escrow = custody.escrows[id.0 as int];
    let after = custody.paid_out(id, outcome);
    let payloads = seq![after.announcement(escrow.requester), after.announcement(escrow.maker)];
    assert(after.log == custody.log.written(payloads));
    assert forall|other: AccountIdx| custody.knows(other) implies #[trigger] after.available(other)
        == custody.available(other) || exists|k: int|
        0 <= k < payloads.len() && about(#[trigger] payloads[k], other) by {
        if other == escrow.requester {
            assert(about(payloads[0], other));
        } else if other == escrow.maker {
            assert(about(payloads[1], other));
        } else {
            assert(escrow.payout(outcome, other) == 0);
            assert(after.accounts[other.0 as int].balance
                == custody.accounts[other.0 as int].balance);
        }
    }
    announcing(custody, after, payloads);
}

/// A transaction that says nothing of balances leaves what the log says of them.
pub proof fn other_words_change_nothing(custody: CustodyView, payload: ChainPayload)
    requires
        outspoken(custody),
        custody.log.minted < u64::MAX,
        payload !is BalanceChanged,
    ensures
        carries_on(
            custody,
            CustodyView { log: custody.log.written(seq![payload]), ..custody },
        ),
{
    let after = CustodyView { log: custody.log.written(seq![payload]), ..custody };
    assert(after.wf()) by {
        assert forall|i: int| 0 <= i < after.escrows.len() implies
            #[trigger] after.escrow_ok(i) by {
            assert(custody.escrow_ok(i));
        }
    }
    assert forall|other: AccountIdx| custody.knows(other) implies #[trigger] after.available(other)
        == custody.available(other) by {}
    announcing(custody, after, seq![payload]);
}

/// Mining a block says nothing.
pub proof fn mining_changes_nothing(custody: CustodyView)
    requires
        outspoken(custody),
    ensures
        carries_on(custody, CustodyView { log: custody.log.mined(), ..custody }),
{
    let after = CustodyView { log: custody.log.mined(), ..custody };
    writing_keeps_the_log_sound(custody.log, Seq::empty());
    assert(after.wf()) by {
        assert forall|i: int| 0 <= i < after.escrows.len() implies
            #[trigger] after.escrow_ok(i) by {
            assert(custody.escrow_ok(i));
        }
    }
    assert forall|other: AccountIdx| after.knows(other) implies #[trigger] after.available(other)
        == said(after.log.entries, after.log.entries.len(), other) by {
        assert(custody.knows(other));
        assert(custody.available(other) == after.available(other));
    }
}

/// A fresh custody is outspoken: nobody has anything, and nothing has been said.
pub proof fn an_empty_custody_is_outspoken(accounts: u32, max_escrows: u32, delay: Dur)
    ensures
        outspoken(CustodyView::empty(accounts, max_escrows, delay)),
{
    empty_custody_wf(accounts, max_escrows, delay);
}

} // verus!
