//! Why no operation of custody creates or destroys a unit.

use crate::account::AccountIdx;
use crate::chain::bundle::Bundle;
use crate::chain::custody::model::{
    first_leg_fault, held_in, leg_fault, locked, owed, party, total, CustodyView,
};
use crate::chain::custody::Balance;
use crate::chain::escrow::Escrow;
use crate::config::MAX_LEGS;
use crate::contract::{ContractIdx, Outcome};
use crate::escrow::EscrowId;
use crate::types::{contributions_sum_to_notional, product, Amount, Dur, Ts, UNIT};
use vstd::prelude::*;

verus! {

/// Overwriting one account moves the total by the difference.
pub proof fn total_update(accounts: Seq<Balance>, a: int, entry: Balance)
    requires
        0 <= a < accounts.len(),
    ensures
        total(accounts.update(a, entry)) == total(accounts) + entry.balance.0
            - accounts[a].balance.0,
    decreases accounts.len(),
{
    let after = accounts.update(a, entry);
    if a == accounts.len() - 1 {
        assert(after.drop_last() =~= accounts.drop_last());
    } else {
        assert(after.drop_last() =~= accounts.drop_last().update(a, entry));
        total_update(accounts.drop_last(), a, entry);
    }
}

/// No balance exceeds the total.
pub proof fn total_bounds(accounts: Seq<Balance>, a: int)
    requires
        0 <= a < accounts.len(),
    ensures
        accounts[a].balance.0 <= total(accounts),
        0 <= total(accounts),
    decreases accounts.len(),
{
    total_nonnegative(accounts.drop_last());
    if a < accounts.len() - 1 {
        total_bounds(accounts.drop_last(), a);
    }
}

/// The total is not negative.
pub proof fn total_nonnegative(accounts: Seq<Balance>)
    ensures
        0 <= total(accounts),
    decreases accounts.len(),
{
    if accounts.len() > 0 {
        total_nonnegative(accounts.drop_last());
    }
}

/// Empty accounts hold nothing.
pub proof fn total_of_nothing(accounts: Seq<Balance>)
    requires
        forall|a: int| 0 <= a < accounts.len() ==> #[trigger] accounts[a] == Balance::nothing(),
    ensures
        total(accounts) == 0,
    decreases accounts.len(),
{
    if accounts.len() > 0 {
        assert(accounts.last() == Balance::nothing());
        assert forall|a: int| 0 <= a < accounts.drop_last().len() implies
            #[trigger] accounts.drop_last()[a] == Balance::nothing() by {
            assert(accounts[a] == Balance::nothing());
        }
        total_of_nothing(accounts.drop_last());
    }
}

/// What is locked is not negative, and no locked escrow holds more.
pub proof fn locked_bounds(escrows: Seq<Escrow>, i: int)
    ensures
        0 <= locked(escrows),
        0 <= i < escrows.len() ==> held_in(escrows[i]) <= locked(escrows),
    decreases escrows.len(),
{
    if escrows.len() > 0 {
        locked_bounds(escrows.drop_last(), i);
    }
}

/// Overwriting one escrow moves what is locked by the difference.
pub proof fn locked_update(escrows: Seq<Escrow>, i: int, escrow: Escrow)
    requires
        0 <= i < escrows.len(),
    ensures
        locked(escrows.update(i, escrow)) == locked(escrows) + held_in(escrow) - held_in(
            escrows[i],
        ),
    decreases escrows.len(),
{
    let after = escrows.update(i, escrow);
    if i == escrows.len() - 1 {
        assert(after.drop_last() =~= escrows.drop_last());
    } else {
        assert(after.drop_last() =~= escrows.drop_last().update(i, escrow));
        locked_update(escrows.drop_last(), i, escrow);
    }
}

/// What the first `k` legs lock.
pub open spec fn pledged(bundle: Bundle, k: nat) -> int
    decreases k,
{
    if k == 0 {
        0
    } else {
        pledged(bundle, (k - 1) as nat) + bundle.legs@[k - 1].maker_share()
            + bundle.legs@[k - 1].requester_share()
    }
}

/// What the first `k` legs debit the first `n` accounts.
pub open spec fn owed_by(bundle: Bundle, k: nat, n: nat) -> int
    decreases n,
{
    if n == 0 {
        0
    } else {
        owed_by(bundle, k, (n - 1) as nat) + owed(bundle, n - 1, k)
    }
}

proof fn owed_by_nobody(bundle: Bundle, n: nat)
    ensures
        owed_by(bundle, 0, n) == 0,
    decreases n,
{
    if n > 0 {
        owed_by_nobody(bundle, (n - 1) as nat);
    }
}

proof fn owed_by_step(bundle: Bundle, k: nat, n: nat)
    requires
        k > 0,
    ensures
        owed_by(bundle, k, n) == owed_by(bundle, (k - 1) as nat, n) + (if bundle.legs@[k
            - 1].maker.0 < n {
            bundle.legs@[k - 1].maker_share()
        } else {
            0
        }) + (if bundle.requester.0 < n {
            bundle.legs@[k - 1].requester_share()
        } else {
            0
        }),
    decreases n,
{
    if n > 0 {
        owed_by_step(bundle, k, (n - 1) as nat);
    }
}

/// What the parties are debited between them is what the legs lock.
pub proof fn debits_are_pledges(bundle: Bundle, k: nat, n: nat)
    requires
        bundle.requester.0 < n,
        forall|j: int| 0 <= j < k ==> (#[trigger] bundle.legs@[j]).maker.0 < n,
    ensures
        owed_by(bundle, k, n) == pledged(bundle, k),
    decreases k,
{
    if k == 0 {
        owed_by_nobody(bundle, n);
    } else {
        assert(bundle.legs@[k - 1].maker.0 < n);
        owed_by_step(bundle, k, n);
        debits_are_pledges(bundle, (k - 1) as nat, n);
    }
}

/// The total after a bundle's debits.
pub proof fn total_debited(before: Seq<Balance>, after: Seq<Balance>, bundle: Bundle, k: nat)
    requires
        after.len() == before.len(),
        forall|a: int|
            0 <= a < before.len() ==> (#[trigger] after[a]).balance.0 == before[a].balance.0 - owed(
                bundle,
                a,
                k,
            ),
    ensures
        total(after) == total(before) - owed_by(bundle, k, before.len()),
    decreases before.len(),
{
    if before.len() > 0 {
        assert(after.last() == after[before.len() - 1]);
        total_debited(before.drop_last(), after.drop_last(), bundle, k);
    }
}

/// What is locked after a bundle's escrows form.
pub proof fn locked_formed(escrows: Seq<Escrow>, bundle: Bundle, k: nat)
    requires
        forall|j: int|
            0 <= j < k ==> {
                let leg = #[trigger] bundle.legs@[j];
                0 <= leg.maker_share() <= u64::MAX && 0 <= leg.requester_share() <= u64::MAX
            },
    ensures
        locked(
            escrows + Seq::new(k, |j: int| Escrow::formed(bundle.legs@[j], bundle.requester)),
        ) == locked(escrows) + pledged(bundle, k),
    decreases k,
{
    let formed = Seq::new(k, |j: int| Escrow::formed(bundle.legs@[j], bundle.requester));
    if k == 0 {
        assert(escrows + formed =~= escrows);
    } else {
        let fewer = Seq::new(
            (k - 1) as nat,
            |j: int| Escrow::formed(bundle.legs@[j], bundle.requester),
        );
        locked_formed(escrows, bundle, (k - 1) as nat);
        assert((escrows + formed).drop_last() =~= escrows + fewer);
        let leg = bundle.legs@[k - 1];
        assert((escrows + formed).last() == Escrow::formed(leg, bundle.requester));
    }
}

/// What any account owes is not negative, and grows with the legs.
pub proof fn owed_grows(bundle: Bundle, a: int, j: nat, k: nat)
    requires
        j <= k,
        forall|i: int|
            0 <= i < k ==> {
                let leg = #[trigger] bundle.legs@[i];
                0 <= leg.maker_share() && 0 <= leg.requester_share()
            },
    ensures
        0 <= owed(bundle, a, j) <= owed(bundle, a, k),
    decreases k,
{
    if k > 0 {
        let leg = bundle.legs@[k - 1];
        assert(0 <= leg.maker_share());
        if j < k {
            owed_grows(bundle, a, j, (k - 1) as nat);
        } else {
            owed_grows(bundle, a, (j - 1) as nat, (k - 1) as nat);
        }
    }
}

/// What the requester's side of a leg costs is never negative.
pub proof fn shares_are_nonnegative(bundle: Bundle, k: int)
    requires
        bundle.legs@[k].fill_price.0 <= UNIT,
    ensures
        0 <= bundle.legs@[k].maker_share(),
        0 <= bundle.legs@[k].requester_share(),
        bundle.legs@[k].maker_share() + bundle.legs@[k].requester_share() == product(
            bundle.legs@[k].size,
            UNIT as int,
        ),
{
    let leg = bundle.legs@[k];
    let (size, price) = (leg.size.0 as int, leg.fill_price.0 as int);
    assert(0 <= size * (UNIT - price)) by (nonlinear_arith)
        requires
            size >= 0,
            UNIT - price >= 0,
    ;
    assert(0 <= size * price) by (nonlinear_arith)
        requires
            size >= 0,
            price >= 0,
    ;
    contributions_sum_to_notional(leg.size, leg.fill_price);
}

/// A bundle without a faulty leg has none among its first `k`.
pub proof fn no_leg_is_faulty(bundle: Bundle, now: Ts, n: nat, k: nat)
    requires
        first_leg_fault(bundle, now, n) is None,
        k < n,
    ensures
        leg_fault(bundle, now, k) is None,
        first_leg_fault(bundle, now, k) is None,
    decreases n,
{
    if k < n - 1 {
        no_leg_is_faulty(bundle, now, (n - 1) as nat, k);
    }
}

/// A bundle with a faulty leg has the same fault first however many more legs follow.
pub proof fn leg_fault_persists(bundle: Bundle, now: Ts, k: nat, n: nat)
    requires
        first_leg_fault(bundle, now, k) is Some,
        k <= n,
    ensures
        first_leg_fault(bundle, now, n) == first_leg_fault(bundle, now, k),
    decreases n,
{
    if k < n {
        leg_fault_persists(bundle, now, k, (n - 1) as nat);
    }
}

/// A bundle without a faulty party has none among its first `p`.
pub proof fn no_party_is_faulty(custody: CustodyView, bundle: Bundle, n: nat, p: nat)
    requires
        custody.first_party_fault(bundle, n) is None,
        p < n,
    ensures
        custody.party_fault(bundle, party(bundle, p as int)) is None,
    decreases n,
{
    if p < n - 1 {
        no_party_is_faulty(custody, bundle, (n - 1) as nat, p);
    }
}

/// The first party at fault decides.
pub proof fn first_party_at_fault(custody: CustodyView, bundle: Bundle, p: nat, n: nat)
    requires
        p < n,
        custody.party_fault(bundle, party(bundle, p as int)) is Some,
        forall|q: nat|
            q < p ==> custody.party_fault(bundle, #[trigger] party(bundle, q as int)) is None,
    ensures
        custody.first_party_fault(bundle, n) == custody.party_fault(
            bundle,
            party(bundle, p as int),
        ),
    decreases n,
{
    if p < n - 1 {
        first_party_at_fault(custody, bundle, p, (n - 1) as nat);
    } else {
        no_party_before(custody, bundle, p);
    }
}

/// Parties none of whom is at fault.
pub proof fn no_party_before(custody: CustodyView, bundle: Bundle, n: nat)
    requires
        forall|q: nat|
            q < n ==> custody.party_fault(bundle, #[trigger] party(bundle, q as int)) is None,
    ensures
        custody.first_party_fault(bundle, n) is None,
    decreases n,
{
    if n > 0 {
        no_party_before(custody, bundle, (n - 1) as nat);
        assert(custody.party_fault(bundle, party(bundle, (n - 1) as nat as int)) is None);
    }
}

/// What holds of every leg and every party of a bundle that does not revert.
pub proof fn settleable(custody: CustodyView, bundle: Bundle, now: Ts)
    requires
        custody.invalid(bundle, now) is None,
    ensures
        0 < bundle.n_legs <= MAX_LEGS,
        custody.knows(bundle.requester),
        custody.balance(bundle.requester).0 >= owed(
            bundle,
            bundle.requester.0 as int,
            bundle.n_legs as nat,
        ),
        forall|k: int|
            0 <= k < bundle.n_legs ==> {
                let leg = #[trigger] bundle.legs@[k];
                &&& now.0 < leg.quote_expiry.0
                &&& leg.fill_price.0 <= UNIT
                &&& 0 <= leg.maker_share() <= u64::MAX
                &&& 0 <= leg.requester_share() <= u64::MAX
                &&& custody.knows(leg.maker)
                &&& custody.balance(leg.maker).0 >= owed(
                    bundle,
                    leg.maker.0 as int,
                    bundle.n_legs as nat,
                )
            },
{
    let n = bundle.n_legs as nat;
    no_party_is_faulty(custody, bundle, 2 * n, 1);
    assert forall|k: int| 0 <= k < bundle.n_legs implies {
        let leg = #[trigger] bundle.legs@[k];
        &&& now.0 < leg.quote_expiry.0
        &&& leg.fill_price.0 <= UNIT
        &&& 0 <= leg.maker_share() <= u64::MAX
        &&& 0 <= leg.requester_share() <= u64::MAX
        &&& custody.knows(leg.maker)
        &&& custody.balance(leg.maker).0 >= owed(bundle, leg.maker.0 as int, bundle.n_legs as nat)
    } by {
        no_leg_is_faulty(bundle, now, n, k as nat);
        shares_are_nonnegative(bundle, k);
        no_party_is_faulty(custody, bundle, 2 * n, (2 * k) as nat);
        assert(party(bundle, 2 * k) == bundle.legs@[k].maker);
    }
}

/// An account that is no party owes nothing; every account can pay what it owes.
pub proof fn debts_are_covered(custody: CustodyView, bundle: Bundle, now: Ts, a: int)
    requires
        custody.invalid(bundle, now) is None,
        0 <= a < custody.accounts.len() <= u32::MAX,
    ensures
        0 <= owed(bundle, a, bundle.n_legs as nat) <= custody.accounts[a].balance.0,
        a != bundle.requester.0 && (forall|k: int|
            0 <= k < bundle.n_legs ==> (#[trigger] bundle.legs@[k]).maker.0 != a) ==> owed(
            bundle,
            a,
            bundle.n_legs as nat,
        ) == 0,
{
    let n = bundle.n_legs as nat;
    settleable(custody, bundle, now);
    owed_grows(bundle, a, 0, n);
    if a == bundle.requester.0 {
    } else if exists|k: int| 0 <= k < n && (#[trigger] bundle.legs@[k]).maker.0 == a {
        let k = choose|k: int| 0 <= k < n && (#[trigger] bundle.legs@[k]).maker.0 == a;
        assert(custody.knows(bundle.legs@[k].maker));
    } else {
        strangers_owe_nothing(bundle, a, n);
    }
}

/// An account that is no party owes nothing.
pub proof fn strangers_owe_nothing(bundle: Bundle, a: int, k: nat)
    requires
        a != bundle.requester.0,
        forall|j: int| 0 <= j < k ==> (#[trigger] bundle.legs@[j]).maker.0 != a,
    ensures
        owed(bundle, a, k) == 0,
    decreases k,
{
    if k > 0 {
        assert(bundle.legs@[k - 1].maker.0 != a);
        strangers_owe_nothing(bundle, a, (k - 1) as nat);
    }
}

// ───────────────────────────── the running tally ─────────────────────────────

/// What the `p`-th debit takes.
pub open spec fn share(bundle: Bundle, p: int) -> int {
    if p % 2 == 0 {
        bundle.legs@[p / 2].maker_share()
    } else {
        bundle.legs@[p / 2].requester_share()
    }
}

/// What the first `p` debits take from account `a`.
pub open spec fn taken(bundle: Bundle, a: int, p: nat) -> int
    decreases p,
{
    if p == 0 {
        0
    } else {
        taken(bundle, a, (p - 1) as nat) + (if party(bundle, p - 1).0 == a {
            share(bundle, p - 1)
        } else {
            0
        })
    }
}

/// Two debits per leg.
pub proof fn taken_is_owed(bundle: Bundle, a: int, k: nat)
    ensures
        taken(bundle, a, 2 * k) == owed(bundle, a, k),
    decreases k,
{
    if k > 0 {
        taken_is_owed(bundle, a, (k - 1) as nat);
        let p = (2 * k - 2) as nat;
        assert(party(bundle, p as int) == bundle.legs@[k - 1].maker);
        assert(party(bundle, (p + 1) as int) == bundle.requester);
        assert(taken(bundle, a, p + 1) == taken(bundle, a, p) + (if party(
            bundle,
            p as int,
        ).0 == a {
            share(bundle, p as int)
        } else {
            0
        }));
        assert(taken(bundle, a, p + 2) == taken(bundle, a, p + 1) + (if party(bundle, (p + 1) as int).0
            == a {
            share(bundle, (p + 1) as int)
        } else {
            0
        }));
    }
}

/// The `i`-th entry is what the first `p` debits take from its account, which first appears at
/// debit `firsts[i]`.
pub open spec fn counted(
    entries: Seq<(AccountIdx, Amount)>,
    firsts: Seq<int>,
    bundle: Bundle,
    p: nat,
    i: int,
) -> bool {
    &&& entries[i].1.0 == taken(bundle, entries[i].0.0 as int, p)
    &&& 0 <= firsts[i] < p
    &&& party(bundle, firsts[i]) == entries[i].0
}

/// The account of debit `q` has an entry, which appeared no later than that debit.
pub open spec fn entered(
    entries: Seq<(AccountIdx, Amount)>,
    firsts: Seq<int>,
    bundle: Bundle,
    q: int,
) -> bool {
    exists|i: int|
        0 <= i < entries.len() && firsts[i] <= q && (#[trigger] entries[i]).0 == party(bundle, q)
}

/// The debits so far, one entry per account in order of first appearance.
pub open spec fn tallied(
    entries: Seq<(AccountIdx, Amount)>,
    firsts: Seq<int>,
    bundle: Bundle,
    p: nat,
) -> bool {
    &&& firsts.len() == entries.len()
    &&& forall|i: int, j: int|
        0 <= i < j < entries.len() ==> (#[trigger] entries[i]).0 != (#[trigger] entries[j]).0
    &&& forall|i: int, j: int|
        0 <= i < j < entries.len() ==> (#[trigger] firsts[i]) < (#[trigger] firsts[j])
    &&& forall|i: int|
        0 <= i < entries.len() ==> #[trigger] counted(entries, firsts, bundle, p, i)
    &&& forall|q: int| 0 <= q < p ==> #[trigger] entered(entries, firsts, bundle, q)
}

/// The entry of the account of debit `q`.
pub open spec fn entry_for(
    entries: Seq<(AccountIdx, Amount)>,
    firsts: Seq<int>,
    bundle: Bundle,
    q: int,
) -> int {
    choose|i: int|
        0 <= i < entries.len() && firsts[i] <= q && (#[trigger] entries[i]).0 == party(bundle, q)
}

/// An account that has not appeared has had nothing taken.
pub proof fn strangers_lose_nothing(
    entries: Seq<(AccountIdx, Amount)>,
    firsts: Seq<int>,
    bundle: Bundle,
    p: nat,
    account: AccountIdx,
)
    requires
        tallied(entries, firsts, bundle, p),
        forall|i: int| 0 <= i < entries.len() ==> (#[trigger] entries[i]).0 != account,
    ensures
        taken(bundle, account.0 as int, p) == 0,
{
    assert forall|q: int| 0 <= q < p implies #[trigger] party(bundle, q) != account by {
        assert(entered(entries, firsts, bundle, q));
        let i = entry_for(entries, firsts, bundle, q);
        assert(entries[i].0 != account);
    }
    nothing_taken(bundle, account, p);
}

proof fn nothing_taken(bundle: Bundle, account: AccountIdx, p: nat)
    requires
        forall|q: int| 0 <= q < p ==> #[trigger] party(bundle, q) != account,
    ensures
        taken(bundle, account.0 as int, p) == 0,
    decreases p,
{
    if p > 0 {
        assert(party(bundle, p - 1) != account);
        nothing_taken(bundle, account, (p - 1) as nat);
    }
}

/// One more debit, from an account that has appeared.
pub proof fn tally_grows(
    entries: Seq<(AccountIdx, Amount)>,
    firsts: Seq<int>,
    bundle: Bundle,
    p: nat,
    i: int,
    sum: Amount,
)
    requires
        tallied(entries, firsts, bundle, p),
        0 <= i < entries.len(),
        entries[i].0 == party(bundle, p as int),
        sum.0 == entries[i].1.0 + share(bundle, p as int),
    ensures
        tallied(entries.update(i, (entries[i].0, sum)), firsts, bundle, p + 1),
{
    let after = entries.update(i, (entries[i].0, sum));
    assert(counted(entries, firsts, bundle, p, i));
    assert forall|q: int| 0 <= q < p + 1 implies #[trigger] entered(after, firsts, bundle, q) by {
        if q < p {
            assert(entered(entries, firsts, bundle, q));
            let j = entry_for(entries, firsts, bundle, q);
            assert(after[j].0 == party(bundle, q));
        } else {
            assert(after[i].0 == party(bundle, q));
        }
    }
    assert forall|j: int| 0 <= j < after.len() implies #[trigger] counted(
        after,
        firsts,
        bundle,
        p + 1,
        j,
    ) by {
        assert(counted(entries, firsts, bundle, p, j));
        if j != i {
            if i < j {
                assert(entries[i].0 != entries[j].0);
            } else {
                assert(entries[j].0 != entries[i].0);
            }
        }
    }
    assert forall|j: int, k: int| 0 <= j < k < after.len() implies (#[trigger] after[j]).0 != (
    #[trigger] after[k]).0 by {
        assert(entries[j].0 != entries[k].0);
    }
}

/// One more debit, from an account that has not appeared.
pub proof fn tally_extends(
    entries: Seq<(AccountIdx, Amount)>,
    firsts: Seq<int>,
    bundle: Bundle,
    p: nat,
    amount: Amount,
)
    requires
        tallied(entries, firsts, bundle, p),
        forall|i: int|
            0 <= i < entries.len() ==> (#[trigger] entries[i]).0 != party(bundle, p as int),
        amount.0 == share(bundle, p as int),
    ensures
        tallied(
            entries.push((party(bundle, p as int), amount)),
            firsts.push(p as int),
            bundle,
            p + 1,
        ),
{
    let account = party(bundle, p as int);
    let after = entries.push((account, amount));
    let positions = firsts.push(p as int);
    let last = entries.len() as int;
    strangers_lose_nothing(entries, firsts, bundle, p, account);
    assert forall|q: int| 0 <= q < p + 1 implies #[trigger] entered(
        after,
        positions,
        bundle,
        q,
    ) by {
        if q < p {
            assert(entered(entries, firsts, bundle, q));
            let j = entry_for(entries, firsts, bundle, q);
            assert(after[j].0 == party(bundle, q));
            assert(positions[j] == firsts[j]);
        } else {
            assert(after[last].0 == party(bundle, q));
        }
    }
    assert forall|j: int| 0 <= j < after.len() implies #[trigger] counted(
        after,
        positions,
        bundle,
        p + 1,
        j,
    ) by {
        if j < last {
            assert(counted(entries, firsts, bundle, p, j));
            assert(entries[j].0 != account);
        }
    }
    assert forall|j: int, k: int| 0 <= j < k < after.len() implies (#[trigger] after[j]).0 != (
    #[trigger] after[k]).0 by {
        if k < last {
            assert(entries[j].0 != entries[k].0);
        }
    }
    assert forall|j: int, k: int| 0 <= j < k < after.len() implies (#[trigger] positions[j]) < (
    #[trigger] positions[k]) by {
        if k < last {
            assert(firsts[j] < firsts[k]);
        } else {
            assert(counted(entries, firsts, bundle, p, j));
        }
    }
}

/// The debits of a whole bundle.
pub open spec fn tally_of(entries: Seq<(AccountIdx, Amount)>, bundle: Bundle) -> bool {
    exists|firsts: Seq<int>| #[trigger]
        tallied(entries, firsts, bundle, 2 * bundle.n_legs as nat)
}

// ───────────────────────────── what every operation keeps ─────────────────────────────

/// Empty custody is sound.
pub proof fn empty_custody_wf(accounts: u32, max_escrows: u32, delay: Dur)
    ensures
        CustodyView::empty(accounts, max_escrows, delay).wf(),
{
    let custody = CustodyView::empty(accounts, max_escrows, delay);
    total_of_nothing(custody.accounts);
}

/// A deposit adds to the accounts exactly what it adds to what was deposited.
pub proof fn deposit_wf(custody: CustodyView, account: AccountIdx, amount: Amount)
    requires
        custody.wf(),
        custody.deposit_refused(account, amount) is None,
    ensures
        custody.after_deposit(account, amount).wf(),
        custody.accounts[account.0 as int].balance.0 + amount.0 <= u64::MAX,
{
    let a = account.0 as int;
    let after = custody.after_deposit(account, amount);
    total_bounds(custody.accounts, a);
    locked_bounds(custody.escrows, 0);
    total_update(custody.accounts, a, after.accounts[a]);
    assert forall|i: int| 0 <= i < after.escrows.len() implies #[trigger] after.escrow_ok(i) by {
        assert(custody.escrow_ok(i));
    }
}

/// Requesting a withdrawal moves no money.
pub proof fn request_wf(custody: CustodyView, account: AccountIdx, amount: Amount, now: Ts)
    requires
        custody.wf(),
        custody.withdrawal_refused(account, amount, now) is None,
    ensures
        custody.withdrawal_requested(account, amount, now).wf(),
{
    let a = account.0 as int;
    let after = custody.withdrawal_requested(account, amount, now);
    total_update(custody.accounts, a, after.accounts[a]);
    assert forall|i: int| 0 <= i < after.escrows.len() implies #[trigger] after.escrow_ok(i) by {
        assert(custody.escrow_ok(i));
    }
}

/// A withdrawal takes from the accounts exactly what it adds to what was withdrawn.
pub proof fn execution_wf(custody: CustodyView, account: AccountIdx, now: Ts)
    requires
        custody.wf(),
        custody.execution_refused(account, now) is None,
    ensures
        custody.withdrawal_executed(account).wf(),
        custody.withdrawn.0 + custody.payable(account).0 <= u64::MAX,
{
    let a = account.0 as int;
    let after = custody.withdrawal_executed(account);
    total_bounds(custody.accounts, a);
    locked_bounds(custody.escrows, 0);
    total_update(custody.accounts, a, after.accounts[a]);
    assert forall|i: int| 0 <= i < after.escrows.len() implies #[trigger] after.escrow_ok(i) by {
        assert(custody.escrow_ok(i));
    }
}

/// A settlement moves into escrow exactly what it takes from the accounts.
pub proof fn settlement_wf(custody: CustodyView, bundle: Bundle, now: Ts)
    requires
        custody.wf(),
        custody.reverts(bundle, now) is None,
    ensures
        custody.settled(bundle).wf(),
{
    let n = bundle.n_legs as nat;
    let after = custody.settled(bundle);
    settleable(custody, bundle, now);
    assert forall|a: int| 0 <= a < custody.accounts.len() implies (
    #[trigger] after.accounts[a]).balance.0 == custody.accounts[a].balance.0 - owed(bundle, a, n) by {
        debts_are_covered(custody, bundle, now, a);
    }
    total_debited(custody.accounts, after.accounts, bundle, n);
    assert forall|j: int| 0 <= j < n implies (#[trigger] bundle.legs@[j]).maker.0
        < custody.accounts.len() by {
        assert(custody.knows(bundle.legs@[j].maker));
    }
    debits_are_pledges(bundle, n, custody.accounts.len());
    locked_formed(custody.escrows, bundle, n);
    assert forall|i: int| 0 <= i < after.escrows.len() implies #[trigger] after.escrow_ok(i) by {
        if i < custody.escrows.len() {
            assert(after.escrows[i] == custody.escrows[i]);
            assert(custody.escrow_ok(i));
        } else {
            let k = i - custody.escrows.len();
            assert(after.escrows[i] == Escrow::formed(bundle.legs@[k], bundle.requester));
            assert(custody.knows(bundle.legs@[k].maker));
            shares_are_nonnegative(bundle, k);
            notional_fits(custody, bundle, now, k);
        }
    }
    assert(after.nonces.no_duplicates());
}

/// What a leg's two sides put in fits an amount: both are covered by balances.
proof fn notional_fits(custody: CustodyView, bundle: Bundle, now: Ts, k: int)
    requires
        custody.wf(),
        custody.invalid(bundle, now) is None,
        0 <= k < bundle.n_legs,
    ensures
        bundle.legs@[k].maker_share() + bundle.legs@[k].requester_share() <= u64::MAX,
{
    let n = bundle.n_legs as nat;
    let leg = bundle.legs@[k];
    settleable(custody, bundle, now);
    assert(custody.knows(leg.maker));
    let (m, r) = (leg.maker.0 as int, bundle.requester.0 as int);
    owed_grows(bundle, m, (k + 1) as nat, n);
    owed_grows(bundle, r, (k + 1) as nat, n);
    owed_grows(bundle, m, k as nat, n);
    owed_grows(bundle, r, k as nat, n);
    locked_bounds(custody.escrows, 0);
    if m != r {
        two_balances_bound(custody.accounts, m, r);
    } else {
        total_bounds(custody.accounts, m);
    }
}

proof fn two_balances_bound(accounts: Seq<Balance>, a: int, b: int)
    requires
        0 <= a < accounts.len(),
        0 <= b < accounts.len(),
        a != b,
    ensures
        accounts[a].balance.0 + accounts[b].balance.0 <= total(accounts),
{
    let rest = accounts.update(a, Balance { balance: Amount(0), ..accounts[a] });
    total_update(accounts, a, rest[a]);
    total_bounds(rest, b);
}

/// A payout hands to the accounts exactly what the escrow held.
pub proof fn payout_wf(custody: CustodyView, id: EscrowId, contract: ContractIdx, outcome: Outcome)
    requires
        custody.wf(),
        custody.payout_refused(id, contract) is None,
        custody.escrows[id.0 as int].state is Locked,
    ensures
        custody.paid_out(id, outcome).wf(),
        forall|a: int|
            0 <= a < custody.accounts.len() ==> (#[trigger] custody.accounts[a]).balance.0
                + custody.escrows[id.0 as int].payout(outcome, AccountIdx(a as u32)) <= u64::MAX,
{
    let i = id.0 as int;
    let escrow = custody.escrows[i];
    let after = custody.paid_out(id, outcome);
    assert(custody.escrow_ok(i));
    locked_bounds(custody.escrows, i);
    locked_update(custody.escrows, i, escrow.spent());
    let (r, m) = (escrow.requester.0 as int, escrow.maker.0 as int);
    assert forall|a: int| 0 <= a < custody.accounts.len() implies (
    #[trigger] custody.accounts[a]).balance.0 + escrow.payout(outcome, AccountIdx(a as u32))
        <= u64::MAX by {
        total_bounds(custody.accounts, a);
        if a != r && a != m {
            assert(AccountIdx(a as u32) != escrow.requester);
            assert(AccountIdx(a as u32) != escrow.maker);
        }
    }
    assert forall|a: int|
        0 <= a < custody.accounts.len() && a != r && a != m implies #[trigger] after.accounts[a]
        == custody.accounts[a] by {
        assert(AccountIdx(a as u32) != escrow.requester);
        assert(AccountIdx(a as u32) != escrow.maker);
    }
    assert(AccountIdx(r as u32) == escrow.requester);
    assert(AccountIdx(m as u32) == escrow.maker);
    let first = custody.accounts.update(r, after.accounts[r]);
    total_update(custody.accounts, r, after.accounts[r]);
    assert(custody.accounts[r].balance.0 + escrow.payout(outcome, escrow.requester) <= u64::MAX);
    assert(custody.accounts[m].balance.0 + escrow.payout(outcome, escrow.maker) <= u64::MAX);
    if r == m {
        assert(after.accounts =~= first);
    } else {
        total_update(first, m, after.accounts[m]);
        assert(after.accounts =~= first.update(m, after.accounts[m]));
    }
    assert forall|j: int| 0 <= j < after.escrows.len() implies #[trigger] after.escrow_ok(j) by {
        assert(custody.escrow_ok(j));
    }
}

} // verus!
