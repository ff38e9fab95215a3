//! The invariants, as queries.
//!
//! Every operation of the ledger is proved to keep these, so on a ledger built through its own
//! operations each query answers `Ok`. They are stated of every ledger all the same: what is
//! sound, and which violation is reported where it is not.

use crate::account::{AccountIdx, Link, NIL};
use crate::ledger::census::{
    chains_count_the_claims, claimed, counted_alike, holds, on_chain, on_list, spread, uncommitted,
    well_formed_ledgers_are_accounted,
};
use crate::ledger::model::{chain_sum, entries, expiry_of, share_of, shares_of, LedgerView};
use crate::ledger::sums::{chain_sum_natural, share_of_natural};
use crate::ledger::threads::{link_at, linked, threaded};
use crate::ledger::Ledger;
use crate::quote::QuoteState;
use crate::request::{ReqIdx, RequestState};
use crate::reservation::{ClaimLinks, ResIdx, ResOwner, Reservation};
use crate::slab::SlabView;
use crate::types::{Amount, Ts};
use vstd::prelude::*;

verus! {

/// A broken invariant.
///
/// Returned rather than panicked so a caller can see *which* invariant broke.
#[derive(Clone, Copy, Debug, PartialEq, Eq)]
pub enum InvariantViolation {
    /// An account's reserved total is not the sum over its expiry chain.
    ReservedTotalMismatch(AccountIdx),
    /// An account's committed total is not the sum of its entries across the committed lists.
    CommittedTotalMismatch(AccountIdx),
    /// The expiry chain is not ascending by expiry.
    ExpiryChainOutOfOrder(AccountIdx),
    /// A pair of links disagrees, or an endpoint is wrong.
    ChainLinksInconsistent(AccountIdx),
    /// A committed claim was found on an expiry chain. Two chains, never both.
    CommittedClaimOnExpiryChain(AccountIdx),
    /// A claim on the chain belongs to a different account.
    ClaimOnForeignChain(AccountIdx),
    /// A reserved claim was found on a request's committed list.
    ReservedClaimOnCommittedList(ReqIdx),
    /// A committed claim is on a list belonging to a different request.
    ClaimOnForeignCommittedList(ReqIdx),
    /// A claim's owner does not resolve. **Not** "nothing to check": this is exactly the
    /// stale-handle case the generation counters exist to catch.
    OwnerDoesNotResolve(ResIdx),
    /// The owner resolves but does not point back at this claim.
    OwnerDoesNotPointBack(ResIdx),
    /// A live claim is on no chain, or on two.
    ClaimNotOnExactlyOneChain,
    /// A dead claim survived normalisation of its account.
    ExpiredClaimAfterNormalisation(AccountIdx),
    /// The mirrored balance no longer covers the claims against it.
    ClaimCoverageBroken(AccountIdx),
    /// A reserved claim's owner is not standing: a quote that is no longer active, or a
    /// request that is no longer open.
    ReservedClaimOwnerNotStanding(ResIdx),
    /// A committed claim names a quote that is not consumed.
    CommittedClaimOwnerNotConsumed(ResIdx),
    /// A committed claim hangs off a request that is not settling, so capital is in the
    /// in-flight bucket with nothing in flight.
    CommittedClaimRequestNotSettling(ResIdx),
}

/// The `k`-th claim of a chain is linked to its neighbours, is a reserved claim of account `a`,
/// and expires no earlier than the one before it.
spec fn chain_step(claims: SlabView<Reservation>, a: int, chain: Seq<u32>, k: int) -> bool {
    &&& claims.occupied(chain[k])
    &&& claims.at(chain[k]).links is Reserved
    &&& claims.at(chain[k]).account.0 == a
    &&& claims.at(chain[k]).links.prev() == link_at(chain, k - 1)
    &&& k + 1 < chain.len() ==> claims.at(chain[k]).links.next() == Link(chain[k + 1])
    &&& k > 0 ==> expiry_of(claims, chain[k - 1]) <= expiry_of(claims, chain[k])
}

/// Where the walk stands after `chain`.
spec fn chain_cursor(claims: SlabView<Reservation>, head: Link, chain: Seq<u32>) -> Link {
    if chain.len() == 0 {
        head
    } else {
        claims.at(chain.last()).links.next()
    }
}

impl Ledger {
    /// Walking account `a`'s chain from its head passes over `chain` without finding fault,
    /// `base` claims having been passed on other chains before.
    spec fn chain_walked(&self, a: int, chain: Seq<u32>, base: int) -> bool {
        &&& chain.no_duplicates()
        &&& chain.len() > 0 ==> self.accounts@[a].expiry_head == Link(chain[0])
        &&& forall|k: int|
            0 <= k < chain.len() ==> #[trigger] chain_step(self.reservations@, a, chain, k)
        &&& chain_sum(self.reservations@, chain) <= u64::MAX
        &&& base + chain.len() <= self.reservations@.slots.len()
    }

    /// What is wrong at the step after `chain`, if anything: with the claim the walk has come
    /// to, or with the endpoint and the total where it has come to the end.
    spec fn chain_fault(&self, a: int, chain: Seq<u32>, base: int) -> Option<InvariantViolation> {
        let account = AccountIdx(a as u32);
        let cursor = chain_cursor(self.reservations@, self.accounts@[a].expiry_head, chain);
        if cursor.0 == NIL {
            if self.accounts@[a].expiry_tail != link_at(chain, chain.len() - 1) {
                Some(InvariantViolation::ChainLinksInconsistent(account))
            } else if self.accounts@[a].reserved.0 != chain_sum(self.reservations@, chain) {
                Some(InvariantViolation::ReservedTotalMismatch(account))
            } else {
                None
            }
        } else {
            let claim = self.reservations@.at(cursor.0);
            if !self.reservations@.occupied(cursor.0) {
                Some(InvariantViolation::ChainLinksInconsistent(account))
            } else if claim.links is Committed {
                Some(InvariantViolation::CommittedClaimOnExpiryChain(account))
            } else if claim.account != account {
                Some(InvariantViolation::ClaimOnForeignChain(account))
            } else if claim.links.prev() != link_at(chain, chain.len() - 1) {
                Some(InvariantViolation::ChainLinksInconsistent(account))
            } else if chain.len() > 0 && expiry_of(self.reservations@, cursor.0) < expiry_of(
                self.reservations@,
                chain.last(),
            ) {
                Some(InvariantViolation::ExpiryChainOutOfOrder(account))
            } else if chain_sum(self.reservations@, chain) + claim.amount.0 > u64::MAX {
                Some(InvariantViolation::ReservedTotalMismatch(account))
            } else if base + chain.len() + 1 > self.reservations@.slots.len() {
                Some(InvariantViolation::ChainLinksInconsistent(account))
            } else {
                None
            }
        }
    }

    /// `chain` is all of account `a`'s chain, and nothing is wrong with it.
    spec fn chain_sound(&self, a: int, chain: Seq<u32>) -> bool {
        &&& self.chain_threaded(a, chain)
        &&& forall|k: int|
            0 <= k < chain.len() ==> {
                let claim = self.reservations@.at(#[trigger] chain[k]);
                claim.links is Reserved && claim.account.0 == a
            }
        &&& forall|j: int, k: int|
            0 <= j <= k < chain.len() ==> expiry_of(self.reservations@, #[trigger] chain[j])
                <= expiry_of(self.reservations@, #[trigger] chain[k])
        &&& self.accounts@[a].reserved.0 == chain_sum(self.reservations@, chain)
    }

    /// The chains of the first accounts, sound every one.
    pub closed spec fn chains_sound(&self, chains: Seq<Seq<u32>>) -> bool {
        &&& chains.len() <= self.accounts@.len()
        &&& forall|a: int| 0 <= a < chains.len() ==> self.chain_sound(a, #[trigger] chains[a])
    }

    /// `violation` is the first thing wrong on the expiry chains: the chains of the accounts
    /// before are sound, and the walk along this one comes to it.
    pub closed spec fn chains_broken_by(&self, violation: InvariantViolation) -> bool {
        exists|chains: Seq<Seq<u32>>, walked: Seq<u32>|
            #![trigger self.chains_sound(chains), self.chain_walked(chains.len() as int, walked, entries(chains) as int)]
            {
                &&& self.chains_sound(chains)
                &&& chains.len() < self.accounts@.len()
                &&& self.chain_walked(chains.len() as int, walked, entries(chains) as int)
                &&& self.chain_fault(chains.len() as int, walked, entries(chains) as int) == Some(
                    violation,
                )
            }
    }
}

/// A walk along a chain follows the thread.
proof fn walk_follows_thread(
    claims: SlabView<Reservation>,
    a: int,
    head: Link,
    walked: Seq<u32>,
    thread: Seq<u32>,
    k: int,
)
    requires
        claims.wf(),
        threaded(claims, thread),
        head == link_at(thread, 0),
        walked.len() > 0 ==> head == Link(walked[0]),
        forall|j: int| 0 <= j < walked.len() ==> #[trigger] chain_step(claims, a, walked, j),
        0 <= k < walked.len(),
    ensures
        k < thread.len(),
        walked[k] == thread[k],
    decreases k,
{
    assert(chain_step(claims, a, walked, k));
    assert(walked[k] < claims.slots.len());
    if k > 0 {
        walk_follows_thread(claims, a, head, walked, thread, k - 1);
        assert(chain_step(claims, a, walked, k - 1));
        assert(linked(claims, thread, k - 1));
    } else if thread.len() == 0 {
        assert(link_at(thread, 0) == Link(NIL));
    }
}

/// On a sound chain a walk finds no fault, as long as the budget lasts.
proof fn sound_chains_are_walked(ledger: &Ledger, a: int, walked: Seq<u32>, base: int, chain: Seq<u32>)
    requires
        ledger.intact(),
        0 <= a < ledger.accounts@.len(),
        ledger.chain_sound(a, chain),
        ledger.chain_walked(a, walked, base),
        base + chain.len() <= ledger.reservations@.slots.len(),
    ensures
        ledger.chain_fault(a, walked, base) is None,
        walked.len() <= chain.len(),
        walked == chain.take(walked.len() as int),
{
    let claims = ledger.reservations@;
    let head = ledger.accounts@[a].expiry_head;
    ledger.reservations.wf_model();
    assert forall|k: int| 0 <= k < walked.len() implies k < chain.len() && walked[k] == chain[k] by {
        walk_follows_thread(claims, a, head, walked, chain, k);
    }
    if walked.len() > 0 {
        assert(walked[walked.len() - 1] == chain[walked.len() - 1]);
        assert(linked(claims, chain, walked.len() - 1));
    }
    assert(walked =~= chain.take(walked.len() as int));
    let n = walked.len() as int;
    assert(chain_cursor(claims, head, walked) == link_at(chain, n));
    if n < chain.len() {
        assert(linked(claims, chain, n));
        assert(chain.take(n + 1).drop_last() =~= walked);
        chain_sum_natural(claims, chain);
        chain_sum_prefix(claims, chain, n + 1);
        assert(n > 0 ==> walked.last() == chain[n - 1]);
    } else {
        assert(walked =~= chain);
    }
}

/// A prefix of a chain sums to no more than the chain.
proof fn chain_sum_prefix(claims: SlabView<Reservation>, chain: Seq<u32>, n: int)
    requires
        0 <= n <= chain.len(),
    ensures
        chain_sum(claims, chain.take(n)) <= chain_sum(claims, chain),
    decreases chain.len() - n,
{
    if n < chain.len() {
        chain_sum_prefix(claims, chain, n + 1);
        assert(chain.take(n + 1).drop_last() =~= chain.take(n));
    } else {
        assert(chain.take(n) =~= chain);
    }
}

impl Ledger {
    /// The model's chains are sound, and hold as many claims as are not committed.
    spec fn chains_fit(&self) -> bool {
        &&& self.chains_sound(self@.chains)
        &&& self@.chains.len() == self.accounts@.len()
        &&& entries(self@.chains) <= self.reservations@.slots.len()
        &&& entries(self@.chains) == uncommitted(self@.claims)
    }

    proof fn well_formed_chains_are_sound(&self)
        requires
            self.wf(),
        ensures
            self.chains_fit(),
    {
        self.well_formed_is_sound();
        self.reservations.wf_model();
        well_formed_ledgers_are_accounted(self@);
        crate::slab::mapped_slots(self.reservations@, |claim: Reservation| claim.unthreaded());
        let (chains, lists) = choose|chains: Seq<Seq<u32>>, lists: Seq<Seq<u32>>| #[trigger]
            self.sound_with(chains, lists);
        assert forall|a: int| 0 <= a < chains.len() implies self.chain_threaded(
            a,
            #[trigger] chains[a],
        ) by {
            assert(self.chain_sound(a, chains[a]));
        }
        assert forall|r: int| 0 <= r < lists.len() implies self.list_threaded(
            r,
            #[trigger] lists[r],
        ) by {
            assert(self.list_sound(r, lists[r]));
        }
        self.view_is(chains, lists);
    }

    /// The reserved half: every expiry chain is well linked, ordered, and sums to its account's
    /// stored total. Returns how many claims are on the chains: on a well-formed ledger, how many
    /// live claims are not committed.
    pub fn check_expiry_chains(&self) -> (r: Result<u32, InvariantViolation>)
        requires
            self.intact(),
        ensures
            match r {
                Ok(chained) => exists|chains: Seq<Seq<u32>>|
                    {
                        &&& #[trigger] self.chains_sound(chains)
                        &&& chains.len() == self@.accounts.len()
                        &&& chained == entries(chains)
                        &&& chained <= self@.claims.slots.len()
                    },
                Err(violation) => {
                    &&& self.chains_broken_by(violation)
                    &&& forall|chains: Seq<Seq<u32>>| #[trigger]
                        self.chains_sound(chains) && chains.len() == self@.accounts.len()
                            ==> entries(chains) > self@.claims.slots.len()
                },
            },
            self.wf() ==> r is Ok && r->Ok_0 == uncommitted(self@.claims),
    {
        let budget = self.reservations.capacity();
        let mut chained: u32 = 0;
        let ghost mut chains: Seq<Seq<u32>> = Seq::empty();
        let mut index: u32 = 0;
        proof {
            self.reservations.wf_model();
            if self.wf() {
                self.well_formed_chains_are_sound();
            }
        }
        while (index as usize) < self.accounts.len()
            invariant
                self.intact(),
                self.wf() ==> self.chains_fit(),
                self.reservations@.wf(),
                budget == self.reservations@.slots.len(),
                index <= self.accounts@.len() < u32::MAX,
                chains.len() == index,
                self.chains_sound(chains),
                chained == entries(chains),
                chained <= budget,
            decreases self.accounts@.len() - index,
        {
            let entry = self.accounts[index as usize];
            let account = AccountIdx(index);
            let mut sum = Amount(0);
            let mut previous = Link::nil();
            let mut cursor = entry.expiry_head;
            let mut last_expiry: Option<Ts> = None;
            let ghost mut walked: Seq<u32> = Seq::empty();
            let ghost base = entries(chains) as int;
            while cursor.0 != NIL
                invariant
                    self.intact(),
                    self.wf() ==> self.chains_fit(),
                    self.reservations@.wf(),
                    budget == self.reservations@.slots.len(),
                    index < self.accounts@.len() < u32::MAX,
                    chains.len() == index,
                    self.chains_sound(chains),
                    entry == self.accounts@[index as int],
                    account == AccountIdx(index),
                    base == entries(chains),
                    self.chain_walked(index as int, walked, base),
                    cursor == chain_cursor(self.reservations@, entry.expiry_head, walked),
                    previous == link_at(walked, walked.len() - 1),
                    last_expiry == (if walked.len() == 0 {
                        None
                    } else {
                        Some(Ts(expiry_of(self.reservations@, walked.last())))
                    }),
                    sum.0 == chain_sum(self.reservations@, walked),
                    chained == base + walked.len(),
                    chained <= budget,
                decreases budget - chained,
            {
                proof {
                    if self.chain_fault(index as int, walked, base) is Some {
                        self.chains_never_sound(chains, walked);
                    }
                }
                let at = cursor.0;
                let reservation = match self.reservation_at(at) {
                    Some(reservation) => *reservation,
                    None => {
                        return Err(InvariantViolation::ChainLinksInconsistent(account));
                    },
                };
                let (expires_at, prev, next) = match reservation.links {
                    ClaimLinks::Reserved { expires_at, prev, next } => (expires_at, prev, next),
                    ClaimLinks::Committed { .. } => {
                        return Err(InvariantViolation::CommittedClaimOnExpiryChain(account));
                    },
                };
                if reservation.account != account {
                    return Err(InvariantViolation::ClaimOnForeignChain(account));
                }
                if prev != previous {
                    return Err(InvariantViolation::ChainLinksInconsistent(account));
                }
                if let Some(last) = last_expiry {
                    if expires_at.0 < last.0 {
                        return Err(InvariantViolation::ExpiryChainOutOfOrder(account));
                    }
                }
                sum = match sum.checked_add(reservation.amount) {
                    Some(sum) => sum,
                    None => {
                        return Err(InvariantViolation::ReservedTotalMismatch(account));
                    },
                };
                if chained == budget {
                    // A cycle, or more claims than slots. Bounded rather than trusted.
                    return Err(InvariantViolation::ChainLinksInconsistent(account));
                }
                proof {
                    self.chain_walk_extends(index as int, walked, base);
                    assert(walked.push(at).drop_last() =~= walked);
                    walked = walked.push(at);
                }
                last_expiry = Some(expires_at);
                previous = cursor;
                cursor = next;
                chained = chained + 1;
            }
            proof {
                if self.chain_fault(index as int, walked, base) is Some {
                    self.chains_never_sound(chains, walked);
                }
            }
            if previous != entry.expiry_tail {
                return Err(InvariantViolation::ChainLinksInconsistent(account));
            }
            if sum.0 != entry.reserved.0 {
                return Err(InvariantViolation::ReservedTotalMismatch(account));
            }
            proof {
                self.walked_chains_are_sound(index as int, walked, base);
                let before = chains;
                chains = chains.push(walked);
                assert(chains.drop_last() =~= before);
                assert forall|a: int| 0 <= a < chains.len() implies self.chain_sound(
                    a,
                    #[trigger] chains[a],
                ) by {
                    if a < before.len() {
                        assert(chains[a] == before[a]);
                    }
                }
            }
            index = index + 1;
        }
        proof {
            if self.wf() {
                self.sound_chains_agree(chains, self@.chains);
                assert(self@.chains.take(chains.len() as int) =~= self@.chains);
            }
        }
        Ok(chained)
    }

    /// A faultless step extends the walk.
    proof fn chain_walk_extends(&self, a: int, walked: Seq<u32>, base: int)
        requires
            self.intact(),
            0 <= a < self.accounts@.len(),
            self.chain_walked(a, walked, base),
            self.chain_fault(a, walked, base) is None,
            chain_cursor(self.reservations@, self.accounts@[a].expiry_head, walked).0 != NIL,
        ensures
            self.chain_walked(
                a,
                walked.push(
                    chain_cursor(self.reservations@, self.accounts@[a].expiry_head, walked).0,
                ),
                base,
            ),
    {
        let claims = self.reservations@;
        let cursor = chain_cursor(claims, self.accounts@[a].expiry_head, walked);
        let longer = walked.push(cursor.0);
        self.reservations.wf_model();
        assert(longer.drop_last() =~= walked);
        assert forall|k: int| 0 <= k < longer.len() implies #[trigger] chain_step(
            claims,
            a,
            longer,
            k,
        ) by {
            if k < walked.len() {
                assert(chain_step(claims, a, walked, k));
                assert(longer[k] == walked[k]);
                assert(k > 0 ==> longer[k - 1] == walked[k - 1]);
                assert(k + 1 < walked.len() ==> longer[k + 1] == walked[k + 1]);
                assert(k + 1 == walked.len() ==> walked.last() == walked[k]);
            } else {
                assert(k > 0 ==> longer[k - 1] == walked.last());
            }
        }
        assert(longer.no_duplicates()) by {
            assert forall|k: int| 0 <= k < walked.len() implies walked[k] != cursor.0 by {
                assert(chain_step(claims, a, walked, k));
                assert(chain_step(claims, a, walked, walked.len() - 1));
                if walked[k] == cursor.0 {
                    // The same claim would have to be preceded by two different links.
                    assert(link_at(walked, k - 1) == link_at(walked, walked.len() - 1));
                    if k > 0 {
                        assert(walked[k - 1] == walked[walked.len() - 1]);
                    }
                }
            }
        }
    }

    /// A walk that has come to a faultless end has walked the whole chain.
    proof fn walked_chains_are_sound(&self, a: int, walked: Seq<u32>, base: int)
        requires
            self.intact(),
            0 <= a < self.accounts@.len(),
            self.chain_walked(a, walked, base),
            self.chain_fault(a, walked, base) is None,
            chain_cursor(self.reservations@, self.accounts@[a].expiry_head, walked).0 == NIL,
        ensures
            self.chain_sound(a, walked),
    {
        let claims = self.reservations@;
        assert forall|k: int| 0 <= k < walked.len() implies #[trigger] linked(claims, walked, k) by {
            assert(chain_step(claims, a, walked, k));
            if k + 1 == walked.len() {
                assert(walked.last() == walked[k]);
            }
        }
        assert forall|k: int| 0 <= k < walked.len() implies {
            let claim = claims.at(#[trigger] walked[k]);
            claim.links is Reserved && claim.account.0 == a
        } by {
            assert(chain_step(claims, a, walked, k));
        }
        assert forall|j: int, k: int| 0 <= j <= k < walked.len() implies expiry_of(
            claims,
            #[trigger] walked[j],
        ) <= expiry_of(claims, #[trigger] walked[k]) by {
            walked_in_order(claims, a, walked, j, k);
        }
    }

    /// Where the walk finds fault, no choice of chains is sound and within the budget.
    proof fn chains_never_sound(&self, chains: Seq<Seq<u32>>, walked: Seq<u32>)
        requires
            self.intact(),
            self.chains_sound(chains),
            chains.len() < self.accounts@.len(),
            self.chain_walked(chains.len() as int, walked, entries(chains) as int),
            self.chain_fault(chains.len() as int, walked, entries(chains) as int) is Some,
        ensures
            forall|other: Seq<Seq<u32>>| #[trigger]
                self.chains_sound(other) && other.len() == self.accounts@.len() ==> entries(other)
                    > self.reservations@.slots.len(),
    {
        assert forall|other: Seq<Seq<u32>>| #[trigger]
            self.chains_sound(other) && other.len() == self.accounts@.len() implies entries(other)
            > self.reservations@.slots.len() by {
            let a = chains.len() as int;
            self.sound_chains_agree(chains, other);
            assert(self.chain_sound(a, other[a]));
            entries_prefix(other, a + 1);
            assert(other.take(a + 1).drop_last() =~= other.take(a));
            if entries(other) <= self.reservations@.slots.len() {
                sound_chains_are_walked(self, a, walked, entries(chains) as int, other[a]);
            }
        }
    }

    /// Sound chains are determined by the links.
    proof fn sound_chains_agree(&self, chains: Seq<Seq<u32>>, other: Seq<Seq<u32>>)
        requires
            self.intact(),
            self.chains_sound(chains),
            self.chains_sound(other),
            chains.len() <= other.len(),
        ensures
            other.take(chains.len() as int) == chains,
    {
        self.reservations.wf_model();
        assert forall|a: int| 0 <= a < chains.len() implies chains[a] == other[a] by {
            assert(self.chain_sound(a, chains[a]));
            assert(self.chain_sound(a, other[a]));
            crate::ledger::threads::threads_unique(self.reservations@, chains[a], other[a]);
        }
        assert(other.take(chains.len() as int) =~= chains);
    }
}

proof fn walked_in_order(claims: SlabView<Reservation>, a: int, walked: Seq<u32>, j: int, k: int)
    requires
        forall|i: int| 0 <= i < walked.len() ==> #[trigger] chain_step(claims, a, walked, i),
        0 <= j <= k < walked.len(),
    ensures
        expiry_of(claims, walked[j]) <= expiry_of(claims, walked[k]),
    decreases k - j,
{
    if j < k {
        walked_in_order(claims, a, walked, j, k - 1);
        assert(chain_step(claims, a, walked, k));
    }
}

/// A prefix of the chains holds no more entries than all of them.
proof fn entries_prefix(chains: Seq<Seq<u32>>, n: int)
    requires
        0 <= n <= chains.len(),
    ensures
        entries(chains.take(n)) <= entries(chains),
    decreases chains.len() - n,
{
    if n < chains.len() {
        entries_prefix(chains, n + 1);
        assert(chains.take(n + 1).drop_last() =~= chains.take(n));
    } else {
        assert(chains.take(n) =~= chains);
    }
}

// ───────────────────────────── the committed lists ─────────────────────────────

/// The `k`-th claim of a committed list is linked to its neighbours and committed to `request`.
spec fn list_step(claims: SlabView<Reservation>, request: ReqIdx, list: Seq<u32>, k: int) -> bool {
    &&& claims.occupied(list[k])
    &&& claims.at(list[k]).list() == Some(request)
    &&& claims.at(list[k]).links.prev() == link_at(list, k - 1)
    &&& k + 1 < list.len() ==> claims.at(list[k]).links.next() == Link(list[k + 1])
}

impl Ledger {
    /// The handle of the request in slot `r`.
    spec fn request_of(&self, r: int) -> ReqIdx {
        crate::slab::Handle::of(r as u32, self.requests@.generation(r as u32))
    }

    /// Walking request slot `r`'s committed list from its head passes over `list` without
    /// finding fault, `base` claims having been passed on other lists before.
    spec fn list_walked(&self, r: int, list: Seq<u32>, base: int) -> bool {
        &&& list.no_duplicates()
        &&& list.len() > 0 ==> self.requests@.at(r as u32).committed_head == Link(list[0])
        &&& forall|k: int|
            0 <= k < list.len() ==> #[trigger] list_step(
                self.reservations@,
                self.request_of(r),
                list,
                k,
            )
        &&& base + list.len() <= self.reservations@.slots.len()
    }

    /// What is wrong at the step after `list`, if anything.
    spec fn list_fault(&self, r: int, list: Seq<u32>, base: int) -> Option<InvariantViolation> {
        let request = self.request_of(r);
        let cursor = chain_cursor(
            self.reservations@,
            self.requests@.at(r as u32).committed_head,
            list,
        );
        if cursor.0 == NIL {
            None
        } else {
            let claim = self.reservations@.at(cursor.0);
            if !self.reservations@.occupied(cursor.0) {
                Some(InvariantViolation::ClaimOnForeignCommittedList(request))
            } else if claim.links is Reserved {
                Some(InvariantViolation::ReservedClaimOnCommittedList(request))
            } else if claim.list() != Some(request) || claim.links.prev() != link_at(
                list,
                list.len() - 1,
            ) {
                Some(InvariantViolation::ClaimOnForeignCommittedList(request))
            } else if base + list.len() + 1 > self.reservations@.slots.len() {
                Some(InvariantViolation::ClaimOnForeignCommittedList(request))
            } else {
                None
            }
        }
    }

    /// `list` is all of request slot `r`'s committed list, and nothing is wrong with it.
    spec fn list_sound(&self, r: int, list: Seq<u32>) -> bool {
        &&& self.list_threaded(r, list)
        &&& forall|k: int|
            0 <= k < list.len() ==> self.reservations@.at(#[trigger] list[k]).list() == Some(
                self.request_of(r),
            )
    }

    /// The lists of the first request slots, sound every one.
    spec fn lists_sound(&self, lists: Seq<Seq<u32>>) -> bool {
        &&& lists.len() <= self.requests@.slots.len()
        &&& forall|r: int| 0 <= r < lists.len() ==> self.list_sound(r, #[trigger] lists[r])
    }

    /// `violation` is the first thing wrong on the committed lists.
    spec fn lists_broken_by(&self, violation: InvariantViolation) -> bool {
        exists|lists: Seq<Seq<u32>>, walked: Seq<u32>|
            #![trigger self.lists_sound(lists), self.list_walked(lists.len() as int, walked, entries(lists) as int)]
            {
                &&& self.lists_sound(lists)
                &&& lists.len() < self.requests@.slots.len()
                &&& self.requests@.slots[lists.len() as int].value is Some
                &&& self.list_walked(lists.len() as int, walked, entries(lists) as int)
                &&& self.list_fault(lists.len() as int, walked, entries(lists) as int) == Some(
                    violation,
                )
            }
    }

    /// Every committed list is well linked and holds only committed claims naming it. Returns
    /// how many claims are on the lists.
    fn check_committed_lists(&self) -> (r: Result<u32, InvariantViolation>)
        requires
            self.intact(),
        ensures
            match r {
                Ok(chained) => exists|lists: Seq<Seq<u32>>|
                    {
                        &&& #[trigger] self.lists_sound(lists)
                        &&& lists.len() == self.requests@.slots.len()
                        &&& chained == entries(lists)
                        &&& chained <= self.reservations@.slots.len()
                    },
                Err(violation) => {
                    &&& self.lists_broken_by(violation)
                    &&& forall|lists: Seq<Seq<u32>>| #[trigger]
                        self.lists_sound(lists) && lists.len() == self.requests@.slots.len()
                            ==> entries(lists) > self.reservations@.slots.len()
                },
            },
    {
        let budget = self.reservations.capacity();
        let mut chained: u32 = 0;
        let ghost mut lists: Seq<Seq<u32>> = Seq::empty();
        let slots = self.requests.capacity();
        let mut index: u32 = 0;
        proof {
            self.reservations.wf_model();
            self.requests.wf_model();
        }
        while index < slots
            invariant
                self.intact(),
                self.reservations@.wf(),
                self.requests@.wf(),
                slots == self.requests@.slots.len(),
                budget == self.reservations@.slots.len(),
                index <= slots,
                lists.len() == index,
                self.lists_sound(lists),
                chained == entries(lists),
                chained <= budget,
            decreases slots - index,
        {
            let ghost mut walked: Seq<u32> = Seq::empty();
            let ghost base = entries(lists) as int;
            if let Some(request_handle) = self.requests.handle_at(index) {
                let mut previous = Link::nil();
                let mut cursor = match self.requests.get(request_handle) {
                    Some(request) => request.committed_head,
                    None => Link::nil(),
                };
                let ghost head = self.requests@.at(index).committed_head;
                proof {
                    broadcast use crate::slab::handle_of;
                    assert(cursor == head);
                }
                while cursor.0 != NIL
                    invariant
                        self.intact(),
                        self.reservations@.wf(),
                        budget == self.reservations@.slots.len(),
                        index < self.requests@.slots.len(),
                        self.requests@.slots[index as int].value is Some,
                        lists.len() == index,
                        self.lists_sound(lists),
                        request_handle == self.request_of(index as int),
                        head == self.requests@.at(index).committed_head,
                        base == entries(lists),
                        self.list_walked(index as int, walked, base),
                        cursor == chain_cursor(self.reservations@, head, walked),
                        previous == link_at(walked, walked.len() - 1),
                        chained == base + walked.len(),
                        chained <= budget,
                    decreases budget - chained,
                {
                    proof {
                        if self.list_fault(index as int, walked, base) is Some {
                            self.lists_never_sound(lists, walked);
                        }
                    }
                    let at = cursor.0;
                    let reservation = match self.reservation_at(at) {
                        Some(reservation) => *reservation,
                        None => {
                            return Err(
                                InvariantViolation::ClaimOnForeignCommittedList(request_handle),
                            );
                        },
                    };
                    let (owner_request, prev, next) = match reservation.links {
                        ClaimLinks::Committed { request, prev, next } => (request, prev, next),
                        ClaimLinks::Reserved { .. } => {
                            return Err(
                                InvariantViolation::ReservedClaimOnCommittedList(request_handle),
                            );
                        },
                    };
                    if owner_request != request_handle || prev != previous {
                        return Err(InvariantViolation::ClaimOnForeignCommittedList(request_handle));
                    }
                    if chained == budget {
                        return Err(InvariantViolation::ClaimOnForeignCommittedList(request_handle));
                    }
                    proof {
                        self.list_walk_extends(index as int, walked, base);
                        walked = walked.push(at);
                    }
                    previous = cursor;
                    cursor = next;
                    chained = chained + 1;
                }
                proof {
                    self.walked_lists_are_sound(index as int, walked, base);
                }
            }
            proof {
                assert(self.list_sound(index as int, walked));
                let before = lists;
                lists = lists.push(walked);
                assert(lists.drop_last() =~= before);
                assert forall|r: int| 0 <= r < lists.len() implies self.list_sound(
                    r,
                    #[trigger] lists[r],
                ) by {
                    if r < before.len() {
                        assert(lists[r] == before[r]);
                    }
                }
            }
            index = index + 1;
        }
        Ok(chained)
    }

    /// A faultless step extends the walk.
    proof fn list_walk_extends(&self, r: int, walked: Seq<u32>, base: int)
        requires
            self.intact(),
            0 <= r < self.requests@.slots.len(),
            self.list_walked(r, walked, base),
            self.list_fault(r, walked, base) is None,
            chain_cursor(
                self.reservations@,
                self.requests@.at(r as u32).committed_head,
                walked,
            ).0 != NIL,
        ensures
            self.list_walked(
                r,
                walked.push(
                    chain_cursor(
                        self.reservations@,
                        self.requests@.at(r as u32).committed_head,
                        walked,
                    ).0,
                ),
                base,
            ),
    {
        let claims = self.reservations@;
        let request = self.request_of(r);
        let cursor = chain_cursor(claims, self.requests@.at(r as u32).committed_head, walked);
        let longer = walked.push(cursor.0);
        self.reservations.wf_model();
        assert forall|k: int| 0 <= k < longer.len() implies #[trigger] list_step(
            claims,
            request,
            longer,
            k,
        ) by {
            if k < walked.len() {
                assert(list_step(claims, request, walked, k));
                assert(longer[k] == walked[k]);
                assert(k > 0 ==> longer[k - 1] == walked[k - 1]);
                assert(k + 1 < walked.len() ==> longer[k + 1] == walked[k + 1]);
                assert(k + 1 == walked.len() ==> walked.last() == walked[k]);
            } else {
                assert(k > 0 ==> longer[k - 1] == walked.last());
            }
        }
        assert(longer.no_duplicates()) by {
            assert forall|k: int| 0 <= k < walked.len() implies walked[k] != cursor.0 by {
                assert(list_step(claims, request, walked, k));
                assert(list_step(claims, request, walked, walked.len() - 1));
                if walked[k] == cursor.0 {
                    assert(link_at(walked, k - 1) == link_at(walked, walked.len() - 1));
                    if k > 0 {
                        assert(walked[k - 1] == walked[walked.len() - 1]);
                    }
                }
            }
        }
    }

    /// A walk that has come to the end has walked the whole list.
    proof fn walked_lists_are_sound(&self, r: int, walked: Seq<u32>, base: int)
        requires
            self.intact(),
            0 <= r < self.requests@.slots.len(),
            self.requests@.slots[r].value is Some,
            self.list_walked(r, walked, base),
            chain_cursor(
                self.reservations@,
                self.requests@.at(r as u32).committed_head,
                walked,
            ).0 == NIL,
        ensures
            self.list_sound(r, walked),
    {
        let claims = self.reservations@;
        assert forall|k: int| 0 <= k < walked.len() implies #[trigger] linked(claims, walked, k) by {
            assert(list_step(claims, self.request_of(r), walked, k));
            if k + 1 == walked.len() {
                assert(walked.last() == walked[k]);
            }
        }
        assert forall|k: int| 0 <= k < walked.len() implies claims.at(#[trigger] walked[k]).list()
            == Some(self.request_of(r)) by {
            assert(list_step(claims, self.request_of(r), walked, k));
        }
    }

    /// Where the walk finds fault, no choice of lists is sound and within the budget.
    proof fn lists_never_sound(&self, lists: Seq<Seq<u32>>, walked: Seq<u32>)
        requires
            self.intact(),
            self.lists_sound(lists),
            lists.len() < self.requests@.slots.len(),
            self.requests@.slots[lists.len() as int].value is Some,
            self.list_walked(lists.len() as int, walked, entries(lists) as int),
            self.list_fault(lists.len() as int, walked, entries(lists) as int) is Some,
        ensures
            forall|other: Seq<Seq<u32>>| #[trigger]
                self.lists_sound(other) && other.len() == self.requests@.slots.len() ==> entries(
                    other,
                ) > self.reservations@.slots.len(),
    {
        assert forall|other: Seq<Seq<u32>>| #[trigger]
            self.lists_sound(other) && other.len() == self.requests@.slots.len() implies entries(
            other,
        ) > self.reservations@.slots.len() by {
            let r = lists.len() as int;
            self.sound_lists_agree(lists, other);
            assert(self.list_sound(r, other[r]));
            entries_prefix(other, r + 1);
            assert(other.take(r + 1).drop_last() =~= other.take(r));
            if entries(other) <= self.reservations@.slots.len() {
                self.sound_lists_are_walked(r, walked, entries(lists) as int, other[r]);
            }
        }
    }

    /// On a sound list a walk finds no fault, as long as the budget lasts.
    proof fn sound_lists_are_walked(&self, r: int, walked: Seq<u32>, base: int, list: Seq<u32>)
        requires
            self.intact(),
            0 <= r < self.requests@.slots.len(),
            self.requests@.slots[r].value is Some,
            self.list_sound(r, list),
            self.list_walked(r, walked, base),
            base + list.len() <= self.reservations@.slots.len(),
        ensures
            self.list_fault(r, walked, base) is None,
    {
        let claims = self.reservations@;
        let request = self.request_of(r);
        let head = self.requests@.at(r as u32).committed_head;
        self.reservations.wf_model();
        assert forall|k: int| 0 <= k < walked.len() implies k < list.len() && walked[k] == list[k] by {
            list_walk_follows_thread(claims, request, head, walked, list, k);
        }
        if walked.len() > 0 {
            assert(walked[walked.len() - 1] == list[walked.len() - 1]);
            assert(linked(claims, list, walked.len() - 1));
        }
        let n = walked.len() as int;
        assert(walked =~= list.take(n));
        assert(chain_cursor(claims, head, walked) == link_at(list, n));
        if n < list.len() {
            assert(linked(claims, list, n));
            assert(n > 0 ==> walked.last() == list[n - 1]);
        }
    }

    /// Sound lists are determined by the links.
    proof fn sound_lists_agree(&self, lists: Seq<Seq<u32>>, other: Seq<Seq<u32>>)
        requires
            self.intact(),
            self.lists_sound(lists),
            self.lists_sound(other),
            lists.len() <= other.len(),
        ensures
            other.take(lists.len() as int) == lists,
    {
        self.reservations.wf_model();
        assert forall|r: int| 0 <= r < lists.len() implies lists[r] == other[r] by {
            assert(self.list_sound(r, lists[r]));
            assert(self.list_sound(r, other[r]));
            if self.requests@.slots[r].value is Some {
                crate::ledger::threads::threads_unique(self.reservations@, lists[r], other[r]);
            } else {
                assert(lists[r] =~= other[r]);
            }
        }
        assert(other.take(lists.len() as int) =~= lists);
    }
}

/// A walk along a committed list follows the thread.
proof fn list_walk_follows_thread(
    claims: SlabView<Reservation>,
    request: ReqIdx,
    head: Link,
    walked: Seq<u32>,
    thread: Seq<u32>,
    k: int,
)
    requires
        claims.wf(),
        threaded(claims, thread),
        head == link_at(thread, 0),
        walked.len() > 0 ==> head == Link(walked[0]),
        forall|j: int| 0 <= j < walked.len() ==> #[trigger] list_step(claims, request, walked, j),
        0 <= k < walked.len(),
    ensures
        k < thread.len(),
        walked[k] == thread[k],
    decreases k,
{
    assert(list_step(claims, request, walked, k));
    assert(walked[k] < claims.slots.len());
    if k > 0 {
        list_walk_follows_thread(claims, request, head, walked, thread, k - 1);
        assert(list_step(claims, request, walked, k - 1));
        assert(linked(claims, thread, k - 1));
    } else if thread.len() == 0 {
        assert(link_at(thread, 0) == Link(NIL));
    }
}

// ───────────────────────────── totals and owners ─────────────────────────────

/// A prefix of the lists holds no more of an account than all of them.
proof fn shares_prefix(claims: SlabView<Reservation>, lists: Seq<Seq<u32>>, n: int, account: int)
    requires
        0 <= n <= lists.len(),
    ensures
        shares_of(claims, lists.take(n), account) <= shares_of(claims, lists, account),
    decreases lists.len() - n,
{
    if n < lists.len() {
        shares_prefix(claims, lists, n + 1, account);
        assert(lists.take(n + 1).drop_last() =~= lists.take(n));
        share_of_natural(claims, lists[n], account);
    } else {
        assert(lists.take(n) =~= lists);
    }
}

/// A prefix of a list holds no more of an account than all of it.
proof fn share_prefix(claims: SlabView<Reservation>, list: Seq<u32>, n: int, account: int)
    requires
        0 <= n <= list.len(),
    ensures
        share_of(claims, list.take(n), account) <= share_of(claims, list, account),
    decreases list.len() - n,
{
    if n < list.len() {
        share_prefix(claims, list, n + 1, account);
        assert(list.take(n + 1).drop_last() =~= list.take(n));
    } else {
        assert(list.take(n) =~= list);
    }
}

impl Ledger {
    /// Account `a`'s stored committed total is its share of `lists`.
    spec fn total_sound(&self, lists: Seq<Seq<u32>>, a: int) -> bool {
        self.accounts@[a].committed.0 == shares_of(self.reservations@, lists, a)
    }

    /// `violation` names the first account whose committed total is not its share of `lists`.
    spec fn totals_broken_by(&self, lists: Seq<Seq<u32>>, violation: InvariantViolation) -> bool {
        exists|a: int|
            {
                &&& 0 <= a < self.accounts@.len()
                &&& !#[trigger] self.total_sound(lists, a)
                &&& violation == InvariantViolation::CommittedTotalMismatch(AccountIdx(a as u32))
                &&& forall|b: int| 0 <= b < a ==> #[trigger] self.total_sound(lists, b)
            }
    }

    /// The committed half: every account's committed total is the sum of its amounts across
    /// the committed lists.
    fn check_committed_totals(&self, Ghost(lists): Ghost<Seq<Seq<u32>>>) -> (r: Result<
        (),
        InvariantViolation,
    >)
        requires
            self.intact(),
            self.lists_sound(lists),
            lists.len() == self.requests@.slots.len(),
        ensures
            match r {
                Ok(()) => forall|a: int|
                    0 <= a < self.accounts@.len() ==> #[trigger] self.total_sound(lists, a),
                Err(violation) => self.totals_broken_by(lists, violation),
            },
    {
        let slots = self.requests.capacity();
        let mut index: u32 = 0;
        proof {
            self.reservations.wf_model();
        }
        while (index as usize) < self.accounts.len()
            invariant
                self.intact(),
                self.reservations@.wf(),
                self.lists_sound(lists),
                slots == lists.len() == self.requests@.slots.len(),
                index <= self.accounts@.len() < u32::MAX,
                forall|a: int| 0 <= a < index ==> #[trigger] self.total_sound(lists, a),
            decreases self.accounts@.len() - index,
        {
            let account = AccountIdx(index);
            let mut sum = Amount(0);
            let mut slot: u32 = 0;
            proof {
                assert(lists.take(0).len() == 0);
            }
            while slot < slots
                invariant
                    self.intact(),
                    self.reservations@.wf(),
                    self.lists_sound(lists),
                    slots == lists.len() == self.requests@.slots.len(),
                    index < self.accounts@.len() < u32::MAX,
                    account == AccountIdx(index),
                    slot <= slots,
                    sum.0 == shares_of(self.reservations@, lists.take(slot as int), index as int),
                    forall|a: int| 0 <= a < index ==> #[trigger] self.total_sound(lists, a),
                decreases slots - slot,
            {
                let ghost list = lists[slot as int];
                let ghost mut n: int = 0;
                proof {
                    assert(self.list_sound(slot as int, lists[slot as int]));
                    assert(list.take(0).len() == 0);
                }
                if let Some(handle) = self.requests.handle_at(slot) {
                    let mut cursor = match self.requests.get(handle) {
                        Some(request) => request.committed_head,
                        None => Link::nil(),
                    };
                    proof {
                        broadcast use crate::slab::handle_of;
                    }
                    while cursor.0 != NIL
                        invariant
                            self.intact(),
                            self.reservations@.wf(),
                            threaded(self.reservations@, list),
                            slot < lists.len(),
                            list == lists[slot as int],
                            index < self.accounts@.len() < u32::MAX,
                            account == AccountIdx(index),
                            0 <= n <= list.len(),
                            cursor == link_at(list, n),
                            sum.0 == shares_of(
                                self.reservations@,
                                lists.take(slot as int),
                                index as int,
                            ) + share_of(self.reservations@, list.take(n), index as int),
                            forall|a: int|
                                0 <= a < index ==> #[trigger] self.total_sound(lists, a),
                        decreases list.len() - n,
                    {
                        proof {
                            assert(linked(self.reservations@, list, n));
                            assert(list.take(n + 1).drop_last() =~= list.take(n));
                            assert(list.take(n + 1).last() == list[n]);
                            share_prefix(self.reservations@, list, n + 1, index as int);
                            shares_prefix(self.reservations@, lists, slot + 1, index as int);
                            assert(lists.take(slot + 1).drop_last() =~= lists.take(slot as int));
                        }
                        match self.reservation_at(cursor.0) {
                            Some(reservation) => {
                                if reservation.account == account {
                                    sum = match sum.checked_add(reservation.amount) {
                                        Some(sum) => sum,
                                        None => {
                                            proof {
                                                assert(!self.total_sound(lists, index as int));
                                            }
                                            return Err(
                                                InvariantViolation::CommittedTotalMismatch(account),
                                            );
                                        },
                                    };
                                }
                                cursor = reservation.neighbours().1;
                                proof {
                                    n = n + 1;
                                }
                            },
                            None => {
                                assert(false);
                            },
                        }
                    }
                    proof {
                        if n < list.len() {
                            assert(linked(self.reservations@, list, n));
                        }
                        assert(list.take(n) =~= list);
                    }
                } else {
                    assert(list.take(0) =~= list);
                }
                proof {
                    assert(lists.take(slot + 1).drop_last() =~= lists.take(slot as int));
                    assert(lists.take(slot + 1).last() == list);
                }
                slot = slot + 1;
            }
            proof {
                assert(lists.take(slots as int) =~= lists);
            }
            if sum.0 != self.accounts[index as usize].committed.0 {
                proof {
                    assert(!self.total_sound(lists, index as int));
                }
                return Err(InvariantViolation::CommittedTotalMismatch(account));
            }
            proof {
                assert(self.total_sound(lists, index as int));
            }
            index = index + 1;
        }
        Ok(())
    }

    /// Every claim's owner **must resolve** and must point back, and the same relationship read
    /// from the owner's end: checking only one direction would miss an owner left pointing at a
    /// claim that has been released.
    fn check_owners(&self) -> (r: Result<(), InvariantViolation>)
        requires
            self.intact(),
        ensures
            match r {
                Ok(()) => self@.owners_sound(),
                Err(violation) => self@.owners_broken_by(violation),
            },
    {
        proof {
            broadcast use crate::slab::handle_of;
            self.reservations.wf_model();
            self.requests.wf_model();
            self.quotes.wf_model();
        }
        let claims = self.reservations.capacity();
        let mut i: u32 = 0;
        while i < claims
            invariant
                self.intact(),
                claims == self@.claims.slots.len(),
                i <= claims,
                forall|j: u32| j < i ==> #[trigger] self@.owner_fault(j) is None,
            decreases claims - i,
        {
            proof {
                broadcast use crate::slab::handle_of;
            }
            let ghost fault = self@.owner_fault(i);
            if let Some(claim) = self.reservations.handle_at(i) {
                if let Some(reservation) = self.reservations.get(claim) {
                    let held = match reservation.owner {
                        ResOwner::Quote(quote) => match self.quotes.get(quote) {
                            Some(record) => record.claim,
                            None => {
                                return Err(InvariantViolation::OwnerDoesNotResolve(claim));
                            },
                        },
                        ResOwner::Request(request) => match self.requests.get(request) {
                            Some(record) => record.claim,
                            None => {
                                return Err(InvariantViolation::OwnerDoesNotResolve(claim));
                            },
                        },
                    };
                    if held != Some(claim) {
                        return Err(InvariantViolation::OwnerDoesNotPointBack(claim));
                    }
                }
            }
            i = i + 1;
        }
        proof {
            assert forall|j: u32| #[trigger] self@.owner_fault(j) is None by {}
        }
        let quotes = self.quotes.capacity();
        let mut q: u32 = 0;
        while q < quotes
            invariant
                self.intact(),
                quotes == self@.quotes.slots.len(),
                q <= quotes,
                forall|j: u32| #[trigger] self@.owner_fault(j) is None,
                forall|j: u32| j < q ==> #[trigger] self@.quote_fault(j) is None,
            decreases quotes - q,
        {
            proof {
                broadcast use crate::slab::handle_of;
            }
            let ghost fault = self@.quote_fault(q);
            if let Some(handle) = self.quotes.handle_at(q) {
                if let Some(quote) = self.quotes.get(handle) {
                    if let Some(claim) = quote.claim {
                        match self.reservations.get(claim) {
                            Some(reservation) => {
                                if reservation.owner != ResOwner::Quote(handle) {
                                    return Err(InvariantViolation::OwnerDoesNotPointBack(claim));
                                }
                            },
                            None => {
                                return Err(InvariantViolation::OwnerDoesNotPointBack(claim));
                            },
                        }
                    }
                }
            }
            q = q + 1;
        }
        proof {
            assert forall|j: u32| #[trigger] self@.quote_fault(j) is None by {}
        }
        let requests = self.requests.capacity();
        let mut n: u32 = 0;
        while n < requests
            invariant
                self.intact(),
                requests == self@.requests.slots.len(),
                n <= requests,
                forall|j: u32| #[trigger] self@.owner_fault(j) is None,
                forall|j: u32| #[trigger] self@.quote_fault(j) is None,
                forall|j: u32| j < n ==> #[trigger] self@.request_fault(j) is None,
            decreases requests - n,
        {
            proof {
                broadcast use crate::slab::handle_of;
            }
            let ghost fault = self@.request_fault(n);
            if let Some(handle) = self.requests.handle_at(n) {
                if let Some(request) = self.requests.get(handle) {
                    if let Some(claim) = request.claim {
                        match self.reservations.get(claim) {
                            Some(reservation) => {
                                if reservation.owner != ResOwner::Request(handle) {
                                    return Err(InvariantViolation::OwnerDoesNotPointBack(claim));
                                }
                            },
                            None => {
                                return Err(InvariantViolation::OwnerDoesNotPointBack(claim));
                            },
                        }
                    }
                }
            }
            n = n + 1;
        }
        proof {
            assert forall|j: u32| #[trigger] self@.request_fault(j) is None by {}
        }
        Ok(())
    }
}

// ───────────────────────────── the public queries ─────────────────────────────

impl Ledger {
    /// `chains` and `lists` are what the links spell, and everything about them is as it should
    /// be: each chain is ordered and sums to its account's reserved total, each list holds the
    /// claims committed to its request, each account's committed total is its share of the
    /// lists, every live claim is on exactly one of them, and claims and owners point at each
    /// other.
    spec fn sound_with(&self, chains: Seq<Seq<u32>>, lists: Seq<Seq<u32>>) -> bool {
        &&& self.chains_sound(chains)
        &&& chains.len() == self.accounts@.len()
        &&& self.lists_sound(lists)
        &&& lists.len() == self.requests@.slots.len()
        &&& forall|a: int| 0 <= a < self.accounts@.len() ==> #[trigger] self.total_sound(lists, a)
        &&& entries(chains) + entries(lists) == self.reservations@.live()
        &&& self@.owners_sound()
    }

    /// The structural invariants hold.
    pub closed spec fn sound(&self) -> bool {
        exists|chains: Seq<Seq<u32>>, lists: Seq<Seq<u32>>| #[trigger]
            self.sound_with(chains, lists)
    }

    /// `violation` is the first structural invariant that does not hold: the chains are looked
    /// at first, then the lists, the committed totals, the count and the owners.
    pub closed spec fn broken_by(&self, violation: InvariantViolation) -> bool {
        ||| self.chains_broken_by(violation)
        ||| exists|chains: Seq<Seq<u32>>|
            {
                &&& #[trigger] self.chains_sound(chains)
                &&& chains.len() == self.accounts@.len()
                &&& self.lists_broken_by(violation)
            }
        ||| exists|chains: Seq<Seq<u32>>, lists: Seq<Seq<u32>>|
            {
                &&& #[trigger] self.chains_sound(chains)
                &&& chains.len() == self.accounts@.len()
                &&& #[trigger] self.lists_sound(lists)
                &&& lists.len() == self.requests@.slots.len()
                &&& {
                    ||| self.totals_broken_by(lists, violation)
                    ||| {
                        &&& forall|a: int|
                            0 <= a < self.accounts@.len() ==> #[trigger] self.total_sound(lists, a)
                        &&& entries(chains) + entries(lists) != self.reservations@.live()
                        &&& violation == InvariantViolation::ClaimNotOnExactlyOneChain
                    }
                    ||| {
                        &&& forall|a: int|
                            0 <= a < self.accounts@.len() ==> #[trigger] self.total_sound(lists, a)
                        &&& entries(chains) + entries(lists) == self.reservations@.live()
                        &&& self@.owners_broken_by(violation)
                    }
                }
            }
    }

    /// Every structural invariant the ledger is responsible for, in the **chain-sum** form.
    ///
    /// Chain-sum, never the expiry-predicate form: the reserved total is a stored value, while
    /// a predicate over expiries shrinks with the passage of time alone.
    pub fn check_invariants(&self) -> (r: Result<(), InvariantViolation>)
        requires
            self.intact(),
        ensures
            r is Ok <==> self.sound(),
            r is Ok ==> self@.accounted(),
            r matches Err(violation) ==> self.broken_by(violation),
    {
        self.check_structural_invariants()
    }

    /// The half of the invariants that holds after **every mutation**: chain sums, chain shape,
    /// and the bidirectional owner link.
    pub fn check_structural_invariants(&self) -> (r: Result<(), InvariantViolation>)
        requires
            self.intact(),
        ensures
            r is Ok <==> self.sound(),
            r is Ok ==> self@.accounted(),
            r matches Err(violation) ==> self.broken_by(violation),
    {
        proof {
            self.reservations.wf_model();
        }
        let chained = match self.check_expiry_chains() {
            Ok(chained) => chained,
            Err(violation) => {
                proof {
                    if self.sound() {
                        let (chains, lists) = choose|chains: Seq<Seq<u32>>, lists: Seq<Seq<u32>>|
                            #[trigger] self.sound_with(chains, lists);
                        assert(self.chains_sound(chains));
                    }
                }
                return Err(violation);
            },
        };
        let ghost chains = choose|chains: Seq<Seq<u32>>|
            {
                &&& #[trigger] self.chains_sound(chains)
                &&& chains.len() == self.accounts@.len()
                &&& chained == entries(chains)
                &&& chained <= self.reservations@.slots.len()
            };
        let listed = match self.check_committed_lists() {
            Ok(listed) => listed,
            Err(violation) => {
                proof {
                    if self.sound() {
                        let (chains, lists) = choose|chains: Seq<Seq<u32>>, lists: Seq<Seq<u32>>|
                            #[trigger] self.sound_with(chains, lists);
                        assert(self.lists_sound(lists));
                    }
                    assert(self.chains_sound(chains));
                }
                return Err(violation);
            },
        };
        let ghost lists = choose|lists: Seq<Seq<u32>>|
            {
                &&& #[trigger] self.lists_sound(lists)
                &&& lists.len() == self.requests@.slots.len()
                &&& listed == entries(lists)
                &&& listed <= self.reservations@.slots.len()
            };
        proof {
            assert(self.chains_sound(chains) && self.lists_sound(lists));
            // There is only one choice of chains and lists.
            assert forall|c: Seq<Seq<u32>>, l: Seq<Seq<u32>>| #[trigger]
                self.sound_with(c, l) implies c == chains && l == lists by {
                self.sound_chains_agree(chains, c);
                self.sound_lists_agree(lists, l);
                assert(c.take(chains.len() as int) =~= c);
                assert(l.take(lists.len() as int) =~= l);
            }
        }
        match self.check_committed_totals(Ghost(lists)) {
            Ok(()) => {},
            Err(violation) => {
                return Err(violation);
            },
        }
        // Every live claim is on exactly one chain. A claim on none, or on both, changes this
        // count.
        if chained.saturating_add(listed) != self.reservations.len() {
            return Err(InvariantViolation::ClaimNotOnExactlyOneChain);
        }
        match self.check_owners() {
            Ok(()) => {
                proof {
                    assert(self.sound_with(chains, lists));
                    self.sound_ledgers_are_accounted();
                }
                Ok(())
            },
            Err(violation) => {
                proof {
                    owners_not_sound(self@, violation);
                }
                Err(violation)
            },
        }
    }

    /// The half that holds after every **command**, not after every mutation: a reserved claim
    /// references a standing quote or an open request, and a committed claim references exactly
    /// one consumed quote on a settling request, or that request itself.
    ///
    /// Scoped to the command rather than the step: a commit phase that moves several claims has
    /// intermediate states, since the first winner's claim is committed before the request is
    /// marked as settling.
    pub fn check_claim_state_coherence(&self) -> (r: Result<(), InvariantViolation>)
        requires
            self.intact(),
        ensures
            r is Ok <==> self@.coherent(),
            r matches Err(violation) ==> exists|i: u32|
                {
                    &&& #[trigger] self@.incoherence(i) == Some(violation)
                    &&& forall|j: u32| j < i ==> #[trigger] self@.incoherence(j) is None
                },
    {
        proof {
            self.reservations.wf_model();
        }
        let claims = self.reservations.capacity();
        let mut i: u32 = 0;
        while i < claims
            invariant
                self.intact(),
                claims == self@.claims.slots.len(),
                i <= claims,
                forall|j: u32| j < i ==> #[trigger] self@.incoherence(j) is None,
            decreases claims - i,
        {
            proof {
                broadcast use crate::slab::handle_of;
            }
            let ghost fault = self@.incoherence(i);
            if let Some(claim) = self.reservations.handle_at(i) {
                if let Some(reservation) = self.reservations.get(claim) {
                    match (reservation.committed_to(), reservation.owner) {
                        // A reserved maker claim backs a standing quote.
                        (None, ResOwner::Quote(quote)) => match self.quotes.get(quote) {
                            Some(record) => {
                                if record.state != QuoteState::Active {
                                    return Err(
                                        InvariantViolation::ReservedClaimOwnerNotStanding(claim),
                                    );
                                }
                            },
                            None => {
                                return Err(InvariantViolation::OwnerDoesNotResolve(claim));
                            },
                        },
                        // A reserved requester claim backs an open request.
                        (None, ResOwner::Request(request)) => match self.requests.get(request) {
                            Some(record) => {
                                if record.state != RequestState::Open {
                                    return Err(
                                        InvariantViolation::ReservedClaimOwnerNotStanding(claim),
                                    );
                                }
                            },
                            None => {
                                return Err(InvariantViolation::OwnerDoesNotResolve(claim));
                            },
                        },
                        // A committed maker claim backs a consumed quote on the settling
                        // request.
                        (Some(list), ResOwner::Quote(quote)) => match self.quotes.get(quote) {
                            Some(record) => {
                                if record.state != QuoteState::Consumed {
                                    return Err(
                                        InvariantViolation::CommittedClaimOwnerNotConsumed(claim),
                                    );
                                }
                                if record.request != Some(list) {
                                    return Err(
                                        InvariantViolation::ClaimOnForeignCommittedList(list),
                                    );
                                }
                                match self.require_settling(list, claim) {
                                    Ok(()) => {},
                                    Err(violation) => {
                                        return Err(violation);
                                    },
                                }
                            },
                            None => {
                                return Err(InvariantViolation::OwnerDoesNotResolve(claim));
                            },
                        },
                        // A committed requester claim is on its own request's list.
                        (Some(list), ResOwner::Request(request)) => {
                            if request != list {
                                return Err(InvariantViolation::ClaimOnForeignCommittedList(list));
                            }
                            match self.require_settling(list, claim) {
                                Ok(()) => {},
                                Err(violation) => {
                                    return Err(violation);
                                },
                            }
                        },
                    }
                }
            }
            i = i + 1;
        }
        proof {
            assert forall|j: u32| #[trigger] self@.incoherence(j) is None by {}
        }
        Ok(())
    }

    /// The request a committed claim hangs off resolves and is settling.
    fn require_settling(&self, request: ReqIdx, claim: ResIdx) -> (r: Result<
        (),
        InvariantViolation,
    >)
        requires
            self.intact(),
        ensures
            r == (match self@.not_settling(request, claim) {
                Some(violation) => Err::<(), InvariantViolation>(violation),
                None => Ok::<(), InvariantViolation>(()),
            }),
    {
        match self.requests.get(request) {
            Some(record) => {
                if matches!(record.state, RequestState::Settling { .. }) {
                    Ok(())
                } else {
                    Err(InvariantViolation::CommittedClaimRequestNotSettling(claim))
                }
            },
            None => Err(InvariantViolation::OwnerDoesNotResolve(claim)),
        }
    }

    /// Claim coverage for **one account**, which is the only form worth evaluating per command.
    ///
    /// It compares claims against the *mirror*, which projects custody's **availability**: a
    /// mirror update carrying a requested withdrawal can legitimately push the mirror below
    /// claims the engine already holds. So this holds as a postcondition of *admission*, and
    /// not after a mirror update.
    pub fn check_claim_coverage_for(&self, account: AccountIdx) -> (r: Result<
        (),
        InvariantViolation,
    >)
        ensures
            r == (if account.0 < self@.accounts.len()
                && !self@.accounts[account.0 as int].covered() {
                Err::<(), InvariantViolation>(InvariantViolation::ClaimCoverageBroken(account))
            } else {
                Ok::<(), InvariantViolation>(())
            }),
    {
        if account.0 as usize >= self.accounts.len() {
            return Ok(());
        }
        let entry = self.accounts[account.0 as usize];
        match entry.reserved.checked_add(entry.committed) {
            Some(claimed) => {
                if claimed.0 > entry.free.0 {
                    Err(InvariantViolation::ClaimCoverageBroken(account))
                } else {
                    Ok(())
                }
            },
            None => Err(InvariantViolation::ClaimCoverageBroken(account)),
        }
    }

    /// Claim coverage: every account's mirrored balance covers its claims.
    pub fn check_claim_coverage(&self) -> (r: Result<(), InvariantViolation>)
        requires
            self.intact(),
        ensures
            r is Ok <==> self@.covered(),
            r matches Err(violation) ==> exists|a: int|
                {
                    &&& 0 <= a < self@.accounts.len()
                    &&& !(#[trigger] self@.accounts[a]).covered()
                    &&& violation == InvariantViolation::ClaimCoverageBroken(AccountIdx(a as u32))
                    &&& forall|b: int| 0 <= b < a ==> (#[trigger] self@.accounts[b]).covered()
                },
    {
        let mut index: u32 = 0;
        while (index as usize) < self.accounts.len()
            invariant
                self.intact(),
                index <= self.accounts@.len() < u32::MAX,
                forall|b: int| 0 <= b < index ==> (#[trigger] self@.accounts[b]).covered(),
            decreases self.accounts@.len() - index,
        {
            match self.check_claim_coverage_for(AccountIdx(index)) {
                Ok(()) => {},
                Err(violation) => {
                    proof {
                        assert(!self@.accounts[index as int].covered());
                    }
                    return Err(violation);
                },
            }
            index = index + 1;
        }
        Ok(())
    }

    /// Immediately after `release_expired(account, now)`, no claim on that account's expiry
    /// chain is dead at `now`.
    ///
    /// Scoped to the just-normalised account, deliberately: an untouched account holds its
    /// expired claims until something touches it.
    pub fn check_normalised(&self, account: AccountIdx, now: Ts) -> (r: Result<
        (),
        InvariantViolation,
    >)
        requires
            self.wf(),
        ensures
            r == (if account.0 < self@.accounts.len() && self@.holds_expired(account, now) {
                Err::<(), InvariantViolation>(
                    InvariantViolation::ExpiredClaimAfterNormalisation(account),
                )
            } else {
                Ok::<(), InvariantViolation>(())
            }),
    {
        if account.0 as usize >= self.accounts.len() {
            return Ok(());
        }
        let ghost a = account.0 as int;
        let ghost chain = self@.chains[a];
        let mut cursor = self.accounts[account.0 as usize].expiry_head;
        let ghost mut n: int = 0;
        proof {
            self.reservations.wf_model();
            assert(self.chain_threaded(a, self@.chains[a]));
            assert(self@.chain_ok(a));
        }
        while cursor.0 != NIL
            invariant
                self.wf(),
                self.reservations@.wf(),
                a == account.0,
                0 <= a < self@.accounts.len(),
                chain == self@.chains[a],
                threaded(self.reservations@, chain),
                self@.chain_ok(a),
                0 <= n <= chain.len(),
                cursor == link_at(chain, n),
                forall|k: int| 0 <= k < n ==> self@.expiry(#[trigger] chain[k]) > now.0,
            decreases chain.len() - n,
        {
            proof {
                assert(linked(self.reservations@, chain, n));
                assert(self@.reserved_by(chain[n], a));
            }
            match self.reservation_at(cursor.0) {
                Some(reservation) => {
                    if let Some(expired) = reservation.is_expired_at(now) {
                        if expired {
                            proof {
                                assert(self@.expiry(chain[n]) <= now.0);
                            }
                            return Err(
                                InvariantViolation::ExpiredClaimAfterNormalisation(account),
                            );
                        }
                    }
                    cursor = reservation.neighbours().1;
                    proof {
                        n = n + 1;
                    }
                },
                None => {
                    assert(false);
                },
            }
        }
        proof {
            if n < chain.len() {
                assert(linked(self.reservations@, chain, n));
            }
        }
        Ok(())
    }

    /// **What the structural invariants give**: on a ledger on which they hold, an account's
    /// reserved total is the sum of its uncommitted claims, expired ones included, its committed
    /// total the sum of its committed ones, every claim's owner resolves and holds that claim, and
    /// whatever holds a claim is that claim's owner.
    pub proof fn sound_ledgers_are_accounted(&self)
        requires
            self.intact(),
            self.sound(),
        ensures
            self@.accounted(),
    {
        broadcast use crate::slab::handle_of;

        let (chains, lists) = choose|chains: Seq<Seq<u32>>, lists: Seq<Seq<u32>>| #[trigger]
            self.sound_with(chains, lists);
        let claims = self.reservations@;
        let v = self@;
        self.reservations.wf_model();
        self.requests.wf_model();
        crate::slab::mapped_slots(claims, |claim: Reservation| claim.unthreaded());
        assert(spread(claims, chains, lists)) by {
            assert forall|a: int, k: int|
                0 <= a < chains.len() && 0 <= k < chains[a].len() implies on_chain(
                claims,
                #[trigger] chains[a][k],
                a,
            ) by {
                assert(self.chain_sound(a, chains[a]));
                assert(linked(claims, chains[a], k));
                assert(claims.at(chains[a][k]).links is Reserved);
            }
            assert forall|r: int, k: int|
                0 <= r < lists.len() && 0 <= k < lists[r].len() implies on_list(
                claims,
                #[trigger] lists[r][k],
                r,
            ) by {
                assert(self.list_sound(r, lists[r]));
                assert(linked(claims, lists[r], k));
                assert(claims.at(lists[r][k]).list() == Some(self.request_of(r)));
            }
            assert forall|a: int| 0 <= a < chains.len() implies (
            #[trigger] chains[a]).no_duplicates() by {
                assert(self.chain_sound(a, chains[a]));
            }
            assert forall|r: int| 0 <= r < lists.len() implies (
            #[trigger] lists[r]).no_duplicates() by {
                assert(self.list_sound(r, lists[r]));
            }
        }
        assert forall|a: int| 0 <= a < v.accounts.len() implies (
        #[trigger] v.accounts[a]).reserved.0 == claimed(v.claims, a, false)
            && v.accounts[a].committed.0 == claimed(v.claims, a, true) by {
            assert(self.chain_sound(a, chains[a]));
            assert(self.total_sound(lists, a));
            chains_count_the_claims(claims, chains, lists, a);
            counted_alike(claims, v.claims, holds(a, false), claims.slots.len());
            counted_alike(claims, v.claims, holds(a, true), claims.slots.len());
        }
        assert forall|i: u32| #[trigger] v.owned(i) by {
            assert(v.owner_fault(i) is None);
        }
        assert forall|i: u32| #[trigger] v.quote_backed(i) by {
            assert(v.quote_fault(i) is None);
        }
        assert forall|i: u32| #[trigger] v.request_backed(i) by {
            assert(v.request_fault(i) is None);
        }
    }

    /// Every well-formed ledger is sound, so a ledger reached through the ledger's own
    /// operations is never reported broken.
    pub proof fn well_formed_is_sound(&self)
        requires
            self.wf(),
        ensures
            self.intact(),
            self.sound(),
    {
        broadcast use crate::slab::handle_of;
        let v = self@;
        self.reservations.wf_model();
        self.requests.wf_model();
        crate::slab::mapped_slots(self.reservations@, |claim: Reservation| claim.unthreaded());
        assert forall|a: int| 0 <= a < v.chains.len() implies self.chain_sound(
            a,
            #[trigger] v.chains[a],
        ) by {
            let chain = v.chains[a];
            assert(self.chain_threaded(a, chain));
            assert(v.chain_ok(a));
            assert forall|k: int| 0 <= k < chain.len() implies {
                let claim = self.reservations@.at(#[trigger] chain[k]);
                &&& claim.links is Reserved
                &&& claim.account.0 == a
                &&& expiry_of(self.reservations@, chain[k]) == v.expiry(chain[k])
                &&& claim.amount == v.claims.at(chain[k]).amount
            } by {
                assert(v.reserved_by(chain[k], a));
            }
            crate::ledger::sums::chain_sum_frame(v.claims, self.reservations@, chain);
        }
        assert forall|r: int| 0 <= r < v.lists.len() implies self.list_sound(
            r,
            #[trigger] v.lists[r],
        ) by {
            let list = v.lists[r];
            assert(self.list_threaded(r, list));
            assert(v.list_ok(r));
            assert forall|k: int| 0 <= k < list.len() implies self.reservations@.at(
                #[trigger] list[k],
            ).list() == Some(self.request_of(r)) by {
                assert(v.committed_to(list[k], v.request_handle(r as u32)));
            }
        }
        assert forall|a: int| 0 <= a < self.accounts@.len() implies #[trigger] self.total_sound(
            v.lists,
            a,
        ) by {
            assert(v.committed_ok(a));
            assert forall|r: int, k: int|
                0 <= r < v.lists.len() && 0 <= k < v.lists[r].len() implies self.reservations@.at(
                #[trigger] v.lists[r][k],
            ).amount == v.claims.at(v.lists[r][k]).amount && self.reservations@.at(
                v.lists[r][k],
            ).account == v.claims.at(v.lists[r][k]).account by {
                assert(v.list_ok(r));
                assert(v.committed_to(v.lists[r][k], v.request_handle(r as u32)));
            }
            crate::ledger::sums::shares_of_frame(v.claims, self.reservations@, v.lists, a);
        }
        assert forall|j: u32| #[trigger] v.owner_fault(j) is None by {
            assert(v.owned(j));
        }
        assert forall|j: u32| #[trigger] v.quote_fault(j) is None by {
            assert(v.quote_backed(j));
        }
        assert forall|j: u32| #[trigger] v.request_fault(j) is None by {
            assert(v.request_backed(j));
        }
        assert(self.sound_with(v.chains, v.lists));
    }
}

/// Where a violation between claims and owners is found, they are not sound.
proof fn owners_not_sound(v: LedgerView, violation: InvariantViolation)
    requires
        v.owners_broken_by(violation),
    ensures
        !v.owners_sound(),
{
}

} // verus!
