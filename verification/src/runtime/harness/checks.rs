//! The assertions that span both systems.

use crate::account::AccountIdx;
use crate::chain::custody::model::{locked, total, CustodyView};
use crate::chain::custody::money::{locked_bounds, total_bounds, total_nonnegative};
use crate::chain::custody::{Balance, CustodyLedger};
use crate::chain::escrow::Escrow;
use crate::chain::log::{ChainEvent, ChainPayload};
use crate::clock::Clock;
use crate::escrow::EscrowId;
use crate::runtime::harness::model::{escrowed, was_published};
use crate::runtime::harness::Harness;
use crate::types::Amount;
use vstd::prelude::*;

verus! {

/// What a cross-system invariant looked like when it broke.
#[derive(Clone, Copy, Debug, PartialEq, Eq, Structural)]
pub enum CrossSystemViolation {
    /// What the accounts and the locked escrows hold is not what was deposited and not
    /// withdrawn. A sum that fell means money was lost; one that rose means it was duplicated.
    ConservationBroken,
    /// The engine has promised capital custody does not hold for this account.
    ClaimCoverageBroken(AccountIdx),
    /// The engine's mirror disagrees with custody.
    MirrorDisagrees(AccountIdx),
    /// An escrow's two contributions do not sum to its notional.
    EscrowContributionsWrong(EscrowId),
}

/// What an escrow counts for: its notional, clamped to an amount, while it is locked.
pub open spec fn counted(escrow: Escrow) -> int {
    if escrow.state is Locked {
        if escrow.held() <= u64::MAX {
            escrow.held()
        } else {
            u64::MAX as int
        }
    } else {
        0
    }
}

/// What the locked escrows among the first `n` count for.
pub open spec fn counted_in(escrows: Seq<Escrow>, n: nat) -> int
    decreases n,
{
    if n == 0 {
        0
    } else {
        counted_in(escrows, (n - 1) as nat) + counted(escrows[n - 1])
    }
}

/// The sum of the balances of the first `n` accounts.
pub open spec fn total_of(accounts: Seq<Balance>, n: nat) -> int
    decreases n,
{
    if n == 0 {
        0
    } else {
        total_of(accounts, (n - 1) as nat) + accounts[n - 1].balance.0
    }
}

/// What the accounts and the locked escrows hold is what was deposited and not withdrawn.
pub open spec fn audited(custody: CustodyView) -> bool {
    total_of(custody.accounts, custody.accounts.len()) + counted_in(
        custody.escrows,
        custody.escrows.len(),
    ) == custody.deposited.0 - custody.withdrawn.0
}

proof fn totals_grow(accounts: Seq<Balance>, j: nat, n: nat)
    requires
        j <= n,
    ensures
        0 <= total_of(accounts, j) <= total_of(accounts, n),
    decreases n,
{
    if n > 0 {
        if j < n {
            totals_grow(accounts, j, (n - 1) as nat);
        } else {
            totals_grow(accounts, (j - 1) as nat, (n - 1) as nat);
        }
    }
}

proof fn counts_grow(escrows: Seq<Escrow>, j: nat, n: nat)
    requires
        j <= n,
    ensures
        0 <= counted_in(escrows, j) <= counted_in(escrows, n),
    decreases n,
{
    if n > 0 {
        if j < n {
            counts_grow(escrows, j, (n - 1) as nat);
        } else {
            counts_grow(escrows, (j - 1) as nat, (n - 1) as nat);
        }
    }
}

proof fn total_of_is_total(accounts: Seq<Balance>, n: nat)
    requires
        n <= accounts.len(),
    ensures
        total_of(accounts, n) == total(accounts.take(n as int)),
    decreases n,
{
    if n > 0 {
        total_of_is_total(accounts, (n - 1) as nat);
        assert(accounts.take(n as int).drop_last() =~= accounts.take(n - 1));
    }
}

proof fn counted_in_is_locked(escrows: Seq<Escrow>, n: nat)
    requires
        n <= escrows.len(),
        forall|i: int| 0 <= i < escrows.len() ==> (#[trigger] escrows[i]).held() <= u64::MAX,
    ensures
        counted_in(escrows, n) == locked(escrows.take(n as int)),
    decreases n,
{
    if n > 0 {
        counted_in_is_locked(escrows, (n - 1) as nat);
        assert(escrows.take(n as int).drop_last() =~= escrows.take(n - 1));
        assert(escrows[n - 1].held() <= u64::MAX);
    }
}

/// **Sound custody conserves money**, and each escrow's two contributions sum to its notional.
pub proof fn sound_custody_is_conserved(custody: CustodyView)
    requires
        custody.wf(),
    ensures
        audited(custody),
        forall|i: int|
            0 <= i < custody.escrows.len() ==> (#[trigger] custody.escrows[i]).balanced(),
{
    assert forall|i: int| 0 <= i < custody.escrows.len() implies (
    #[trigger] custody.escrows[i]).balanced() by {
        assert(custody.escrow_ok(i));
    }
    total_of_is_total(custody.accounts, custody.accounts.len());
    counted_in_is_locked(custody.escrows, custody.escrows.len());
    assert(custody.accounts.take(custody.accounts.len() as int) =~= custody.accounts);
    assert(custody.escrows.take(custody.escrows.len() as int) =~= custody.escrows);
}

proof fn escrowed_grows(escrows: Seq<Escrow>, account: AccountIdx, j: nat, n: nat)
    requires
        j <= n,
    ensures
        0 <= escrowed(escrows, account, j) <= escrowed(escrows, account, n),
    decreases n,
{
    if n > 0 {
        if j < n {
            escrowed_grows(escrows, account, j, (n - 1) as nat);
        } else {
            escrowed_grows(escrows, account, (j - 1) as nat, (n - 1) as nat);
        }
    }
}

proof fn escrowed_within_locked(escrows: Seq<Escrow>, account: AccountIdx, n: nat)
    requires
        n <= escrows.len(),
    ensures
        escrowed(escrows, account, n) <= locked(escrows.take(n as int)),
    decreases n,
{
    if n > 0 {
        escrowed_within_locked(escrows, account, (n - 1) as nat);
        assert(escrows.take(n as int).drop_last() =~= escrows.take(n - 1));
    }
}

/// What backs an account fits an amount.
proof fn backing_fits(custody: CustodyView, account: AccountIdx)
    requires
        custody.wf(),
    ensures
        custody.balance(account).0 + escrowed(
            custody.escrows,
            account,
            custody.escrows.len(),
        ) <= u64::MAX,
{
    let n = custody.escrows.len();
    escrowed_within_locked(custody.escrows, account, n);
    assert(custody.escrows.take(n as int) =~= custody.escrows);
    locked_bounds(custody.escrows, 0);
    if custody.knows(account) {
        total_bounds(custody.accounts, account.0 as int);
    } else {
        total_nonnegative(custody.accounts);
    }
}

/// Check conservation on one custody ledger.
pub fn check_conservation(ledger: &CustodyLedger) -> (r: Result<(), CrossSystemViolation>)
    requires
        ledger@.accounts.len() <= u32::MAX,
        ledger@.escrows.len() <= u32::MAX,
    ensures
        r == (if audited(ledger@) {
            Ok::<(), CrossSystemViolation>(())
        } else {
            Err(CrossSystemViolation::ConservationBroken)
        }),
{
    let ghost custody = ledger@;
    let ghost all = custody.accounts.len();
    let ghost formed = custody.escrows.len();
    let count: u32 = ledger.account_count();
    let mut held = Amount(0);
    let mut index: u32 = 0;
    proof {
        counts_grow(custody.escrows, 0, formed);
        totals_grow(custody.accounts, 0, all);
    }
    while index < count
        invariant
            index <= count == all,
            custody == ledger@,
            all == custody.accounts.len(),
            formed == custody.escrows.len(),
            0 <= counted_in(custody.escrows, formed),
            held.0 == total_of(custody.accounts, index as nat),
        decreases count - index,
    {
        proof {
            totals_grow(custody.accounts, (index + 1) as nat, all);
        }
        held =
        match held.checked_add(ledger.balance(AccountIdx(index))) {
            Some(sum) => sum,
            None => {
                return Err(CrossSystemViolation::ConservationBroken);
            },
        };
        index += 1;
    }
    let escrows = ledger.escrows();
    let mut k: usize = 0;
    while k < escrows.len()
        invariant
            k <= escrows@.len() == formed,
            custody == ledger@,
            all == custody.accounts.len(),
            formed == custody.escrows.len(),
            forall|i: int| 0 <= i < escrows@.len() ==> *(#[trigger] escrows@[i]).1
                == custody.escrows[i],
            held.0 == total_of(custody.accounts, all) + counted_in(custody.escrows, k as nat),
        decreases escrows@.len() - k,
    {
        let escrow = escrows[k].1;
        proof {
            counts_grow(custody.escrows, (k + 1) as nat, formed);
            assert(*escrows@[k as int].1 == custody.escrows[k as int]);
        }
        if escrow.is_locked() {
            held =
            match held.checked_add(escrow.notional()) {
                Some(sum) => sum,
                None => {
                    return Err(CrossSystemViolation::ConservationBroken);
                },
            };
        }
        k += 1;
    }
    match ledger.deposited().checked_sub(ledger.withdrawn()) {
        Some(expected) => if held == expected {
            Ok(())
        } else {
            Err(CrossSystemViolation::ConservationBroken)
        },
        None => Err(CrossSystemViolation::ConservationBroken),
    }
}

/// Check on one custody ledger that each escrow's two contributions sum to its notional.
pub fn check_escrow_contributions(ledger: &CustodyLedger) -> (r: Result<
    (),
    CrossSystemViolation,
>)
    requires
        ledger@.escrows.len() <= u32::MAX,
    ensures
        match r {
            Ok(()) => forall|i: int|
                0 <= i < ledger@.escrows.len() ==> (#[trigger] ledger@.escrows[i]).balanced(),
            Err(violation) => exists|i: int|
                {
                    &&& 0 <= i < ledger@.escrows.len()
                    &&& !(#[trigger] ledger@.escrows[i]).balanced()
                    &&& violation == CrossSystemViolation::EscrowContributionsWrong(
                        EscrowId(i as u32),
                    )
                    &&& forall|j: int| 0 <= j < i ==> (#[trigger] ledger@.escrows[j]).balanced()
                },
        },
{
    let ghost all = ledger@.escrows;
    let escrows = ledger.escrows();
    let mut k: usize = 0;
    while k < escrows.len()
        invariant
            k <= escrows@.len() == all.len(),
            all == ledger@.escrows,
            forall|i: int|
                0 <= i < escrows@.len() ==> (#[trigger] escrows@[i]).0 == EscrowId(i as u32)
                    && *escrows@[i].1 == all[i],
            forall|j: int| 0 <= j < k ==> (#[trigger] all[j]).balanced(),
        decreases escrows@.len() - k,
    {
        let (id, escrow) = escrows[k];
        proof {
            assert(*escrow == all[k as int]);
        }
        let wrong = match (
            escrow.requester_contribution().checked_add(escrow.maker_contribution()),
            escrow.size().notional(),
        ) {
            (Some(sum), Some(notional)) => sum != notional,
            _ => true,
        };
        if wrong {
            proof {
                assert(!all[k as int].balanced());
            }
            return Err(CrossSystemViolation::EscrowContributionsWrong(id));
        }
        k += 1;
    }
    Ok(())
}

impl<EC: Clock, CC: Clock> Harness<EC, CC> {
    /// Conservation alone: what the accounts and the locked escrows hold is what was deposited
    /// and not withdrawn.
    ///
    /// The one invariant that holds through every window the others leave open: it is purely
    /// custody-side, so nothing the engine has or has not yet learned can affect it.
    pub fn check_conservation_only(&self) -> (r: Result<(), CrossSystemViolation>)
        requires
            self.wf(),
        ensures
            audited(self@.custody.ledger),
            r == Ok::<(), CrossSystemViolation>(()),
    {
        proof {
            self.wf_model();
            sound_custody_is_conserved(self@.custody.ledger);
        }
        check_conservation(self.custody().ledger())
    }

    /// Every claim the engine holds against an account is backed by capital custody holds **for
    /// that account**, in its balance or in locked escrows.
    ///
    /// The escrow term is not a weakening: once a bundle settles, custody has moved the
    /// contributions into escrow while the engine still shows that capital as committed. And it
    /// is **balance**, not availability: a maker may request a withdrawal covering capital the
    /// engine has claimed, and the timelock is what makes that safe.
    pub fn check_claim_coverage(&self) -> (r: Result<(), CrossSystemViolation>)
        requires
            self.wf(),
        ensures
            match r {
                Ok(()) => forall|a: int|
                    0 <= a < self@.custody.ledger.accounts.len() ==> !(#[trigger] self@.uncovered(
                        a,
                    )),
                Err(violation) => exists|a: int|
                    {
                        &&& 0 <= a < self@.custody.ledger.accounts.len()
                        &&& #[trigger] self@.uncovered(a)
                        &&& violation == CrossSystemViolation::ClaimCoverageBroken(
                            AccountIdx(a as u32),
                        )
                        &&& forall|b: int| 0 <= b < a ==> !(#[trigger] self@.uncovered(b))
                    },
            },
    {
        proof {
            self.wf_model();
        }
        let ghost v = self@;
        let ghost custody = v.custody.ledger;
        let ledger = self.custody().ledger();
        let engine = self.engine();
        let count: u32 = ledger.account_count();
        let escrows = ledger.escrows();
        let mut index: u32 = 0;
        while index < count
            invariant
                index <= count == custody.accounts.len(),
                v == self@,
                v.engine.wf(),
                custody == v.custody.ledger,
                custody.wf(),
                ledger@ == custody,
                engine@ == v.engine,
                escrows@.len() == custody.escrows.len(),
                forall|i: int|
                    0 <= i < escrows@.len() ==> *(#[trigger] escrows@[i]).1 == custody.escrows[i],
                forall|b: int| 0 <= b < index ==> !(#[trigger] v.uncovered(b)),
            decreases count - index,
        {
            let account = AccountIdx(index);
            proof {
                backing_fits(custody, account);
                if index < v.engine.ledger.accounts.len() {
                    assert(v.engine.ledger.committed_ok(index as int));
                }
            }
            match engine.ledger().account(account) {
                Some(entry) => {
                    let claimed: u64 = entry.reserved().0 + entry.committed().0;
                    let mut backing: u64 = ledger.balance(account).0;
                    let mut k: usize = 0;
                    while k < escrows.len()
                        invariant
                            k <= escrows@.len() == custody.escrows.len(),
                            forall|i: int|
                                0 <= i < escrows@.len() ==> *(#[trigger] escrows@[i]).1
                                    == custody.escrows[i],
                            custody.balance(account).0 + escrowed(
                                custody.escrows,
                                account,
                                custody.escrows.len(),
                            ) <= u64::MAX,
                            backing == custody.balance(account).0 + escrowed(
                                custody.escrows,
                                account,
                                k as nat,
                            ),
                        decreases escrows@.len() - k,
                    {
                        let escrow = escrows[k].1;
                        proof {
                            assert(*escrows@[k as int].1 == custody.escrows[k as int]);
                            escrowed_grows(
                                custody.escrows,
                                account,
                                (k + 1) as nat,
                                custody.escrows.len(),
                            );
                        }
                        if escrow.is_locked() {
                            if escrow.requester() == account {
                                backing = backing + escrow.requester_contribution().0;
                            }
                            if escrow.maker() == account {
                                backing = backing + escrow.maker_contribution().0;
                            }
                        }
                        k += 1;
                    }
                    if claimed > backing {
                        proof {
                            assert(v.uncovered(index as int));
                        }
                        return Err(CrossSystemViolation::ClaimCoverageBroken(account));
                    }
                },
                None => {},
            }
            index += 1;
        }
        Ok(())
    }

    /// Whether the chain ever said that `account` has `available` available.
    fn said_by_the_chain(&self, account: AccountIdx, available: Amount) -> (r: bool)
        ensures
            r == was_published(self@.custody.ledger.log, account, available),
    {
        let entries: &[ChainEvent] = self.custody().log().entries();
        let ghost log = self@.custody.ledger.log;
        let n: usize = entries.len();
        let mut i: usize = 0;
        while i < n
            invariant
                i <= n == entries@.len() == log.entries.len(),
                log == self@.custody.ledger.log,
                forall|k: int| 0 <= k < n ==> (#[trigger] entries@[k])@ == log.entries[k],
                forall|k: int|
                    0 <= k < i ==> (#[trigger] log.entries[k]).payload
                        != (ChainPayload::BalanceChanged { account, available }),
            decreases n - i,
        {
            proof {
                assert(entries@[i as int]@ == log.entries[i as int]);
            }
            if entries[i].payload == (ChainPayload::BalanceChanged { account, available }) {
                return true;
            }
            i += 1;
        }
        false
    }

    /// The engine's mirror against custody.
    ///
    /// The mirror projects **availability**, not balance. Without declared lag it is exact; with
    /// declared lag every mirrored value must be one the chain actually published for that
    /// account, or zero. A phantom credit is precisely a value that appears in the mirror and
    /// nowhere in the log.
    pub fn check_mirror_agreement(&self) -> (r: Result<(), CrossSystemViolation>)
        requires
            self.wf(),
        ensures
            match r {
                Ok(()) => forall|a: int|
                    0 <= a < self@.custody.ledger.accounts.len() ==> !(#[trigger] self@.misjudged(
                        a,
                    )),
                Err(violation) => exists|a: int|
                    {
                        &&& 0 <= a < self@.custody.ledger.accounts.len()
                        &&& #[trigger] self@.misjudged(a)
                        &&& violation == CrossSystemViolation::MirrorDisagrees(
                            AccountIdx(a as u32),
                        )
                        &&& forall|b: int| 0 <= b < a ==> !(#[trigger] self@.misjudged(b))
                    },
            },
    {
        proof {
            self.wf_model();
        }
        let ghost v = self@;
        let ledger = self.custody().ledger();
        let engine = self.engine();
        let config = engine.config();
        let lagless = config.confirmations == 0 && config.max_indexer_lag.0 == 0
            && !self.is_stalled();
        let count: u32 = ledger.account_count();
        let mut index: u32 = 0;
        while index < count
            invariant
                index <= count == v.custody.ledger.accounts.len(),
                v == self@,
                ledger@ == v.custody.ledger,
                engine@ == v.engine,
                lagless == v.lagless(),
                forall|b: int| 0 <= b < index ==> !(#[trigger] v.misjudged(b)),
            decreases count - index,
        {
            let account = AccountIdx(index);
            match engine.ledger().account(account) {
                Some(entry) => {
                    let mirrored = entry.free();
                    let wrong = if lagless {
                        mirrored != ledger.available(account)
                    } else {
                        mirrored.0 != 0 && !self.said_by_the_chain(account, mirrored)
                    };
                    if wrong {
                        proof {
                            assert(v.misjudged(index as int));
                        }
                        return Err(CrossSystemViolation::MirrorDisagrees(account));
                    }
                },
                None => {},
            }
            index += 1;
        }
        Ok(())
    }

    /// The first violation of the cross-system invariants, if any: conservation, escrow
    /// contributions, claim coverage, mirror agreement, in that order.
    ///
    /// Of a sound harness the first two hold always.
    pub fn check_cross_system_invariants(&self) -> (r: Result<(), CrossSystemViolation>)
        requires
            self.wf(),
        ensures
            r is Ok <==> {
                &&& forall|a: int|
                    0 <= a < self@.custody.ledger.accounts.len() ==> !(#[trigger] self@.uncovered(
                        a,
                    ))
                &&& forall|a: int|
                    0 <= a < self@.custody.ledger.accounts.len() ==> !(#[trigger] self@.misjudged(
                        a,
                    ))
            },
            r matches Err(violation) ==> match violation {
                CrossSystemViolation::ClaimCoverageBroken(account) => {
                    &&& self@.uncovered(account.0 as int)
                    &&& forall|a: int| 0 <= a < account.0 ==> !(#[trigger] self@.uncovered(a))
                },
                CrossSystemViolation::MirrorDisagrees(account) => {
                    &&& self@.misjudged(account.0 as int)
                    &&& forall|a: int| 0 <= a < account.0 ==> !(#[trigger] self@.misjudged(a))
                    &&& forall|a: int|
                        0 <= a < self@.custody.ledger.accounts.len() ==> !(
                        #[trigger] self@.uncovered(a))
                },
                _ => false,
            },
    {
        proof {
            self.wf_model();
            sound_custody_is_conserved(self@.custody.ledger);
        }
        match check_conservation(self.custody().ledger()) {
            Ok(()) => {},
            Err(violation) => {
                return Err(violation);
            },
        }
        match check_escrow_contributions(self.custody().ledger()) {
            Ok(()) => {},
            Err(violation) => {
                return Err(violation);
            },
        }
        match self.check_claim_coverage() {
            Ok(()) => {},
            Err(violation) => {
                return Err(violation);
            },
        }
        self.check_mirror_agreement()
    }

    /// The first violation of the invariants that hold at **every** instant, including inside a
    /// settlement whose outcome the engine has not yet been told: everything but claim coverage.
    pub fn check_settlement_invariants(&self) -> (r: Result<(), CrossSystemViolation>)
        requires
            self.wf(),
        ensures
            r is Ok <==> (forall|a: int|
                0 <= a < self@.custody.ledger.accounts.len() ==> !(#[trigger] self@.misjudged(a))),
            r matches Err(violation) ==> {
                &&& violation is MirrorDisagrees
                &&& self@.misjudged(violation->MirrorDisagrees_0.0 as int)
                &&& forall|a: int|
                    0 <= a < violation->MirrorDisagrees_0.0 ==> !(#[trigger] self@.misjudged(a))
            },
    {
        proof {
            self.wf_model();
            sound_custody_is_conserved(self@.custody.ledger);
        }
        match check_conservation(self.custody().ledger()) {
            Ok(()) => {},
            Err(violation) => {
                return Err(violation);
            },
        }
        match check_escrow_contributions(self.custody().ledger()) {
            Ok(()) => {},
            Err(violation) => {
                return Err(violation);
            },
        }
        self.check_mirror_agreement()
    }
}

} // verus!
