//! The ledger as mathematics.
//!
//! [`LedgerView`] is the ledger with its intrusive links forgotten: every chain is a sequence
//! of slot numbers. Each operation of the ledger is a function from one view to the next, and
//! the executable operations are proved to compute exactly these functions.

use crate::account::{AccountIdx, MirroredBalance};
use crate::contract::{Contract, ContractIdx, OracleStatus};
use crate::ledger::checks::InvariantViolation;
use crate::ledger::{LedgerError, SlabKind};
use crate::quote::{Quote, QuoteIdx};
use crate::request::{ReqIdx, Request};
use crate::reservation::{ClaimLinks, ResIdx, ResOwner, Reservation};
use crate::slab::{Handle, SlabView};
use crate::types::{Amount, Ts};
use vstd::prelude::*;

verus! {

/// Everything a ledger holds.
#[verifier::ext_equal]
pub struct LedgerView {
    /// The mirrored balances and claim totals, one per account.
    pub accounts: Seq<MirroredBalance>,
    /// The registered contracts; `None` where the gateway has not registered an index yet.
    pub contracts: Seq<Option<Contract>>,
    /// The live claims.
    pub claims: SlabView<Reservation>,
    /// The live requests.
    pub requests: SlabView<Request>,
    /// The live quotes.
    pub quotes: SlabView<Quote>,
    /// For each account, its reserved claims' slots, soonest expiry first.
    pub chains: Seq<Seq<u32>>,
    /// For each request slot, its committed claims' slots, most recently committed first.
    pub lists: Seq<Seq<u32>>,
}

/// The sum of the amounts of the claims in the slots of `chain`.
pub open spec fn chain_sum(claims: SlabView<Reservation>, chain: Seq<u32>) -> int
    decreases chain.len(),
{
    if chain.len() == 0 {
        0
    } else {
        chain_sum(claims, chain.drop_last()) + claims.at(chain.last()).amount.0
    }
}

/// The sum of the amounts of `account`'s claims in the slots of `list`.
pub open spec fn share_of(claims: SlabView<Reservation>, list: Seq<u32>, account: int) -> int
    decreases list.len(),
{
    if list.len() == 0 {
        0
    } else {
        share_of(claims, list.drop_last(), account) + (if claims.at(list.last()).account.0
            == account {
            claims.at(list.last()).amount.0 as int
        } else {
            0
        })
    }
}

/// The sum of `account`'s amounts across every list.
pub open spec fn shares_of(
    claims: SlabView<Reservation>,
    lists: Seq<Seq<u32>>,
    account: int,
) -> int
    decreases lists.len(),
{
    if lists.len() == 0 {
        0
    } else {
        shares_of(claims, lists.drop_last(), account) + share_of(claims, lists.last(), account)
    }
}

/// How many entries the chains hold between them.
pub open spec fn entries(chains: Seq<Seq<u32>>) -> nat
    decreases chains.len(),
{
    if chains.len() == 0 {
        0
    } else {
        entries(chains.drop_last()) + chains.last().len()
    }
}

/// The expiry of the reserved claim in slot `i`.
pub open spec fn expiry_of(claims: SlabView<Reservation>, i: u32) -> u64 {
    claims.at(i).links->Reserved_expires_at.0
}

/// Where a claim expiring at `expires_at` goes on `chain`: after every entry that expires no
/// later, so equal expiries stay in order of arrival.
pub open spec fn slot_for(
    claims: SlabView<Reservation>,
    chain: Seq<u32>,
    expires_at: Ts,
) -> int
    decreases chain.len(),
{
    if chain.len() == 0 {
        0
    } else if expiry_of(claims, chain.last()) <= expires_at.0 {
        chain.len() as int
    } else {
        slot_for(claims, chain.drop_last(), expires_at)
    }
}

/// `chain` without the entry `slot`.
pub open spec fn without(chain: Seq<u32>, slot: u32) -> Seq<u32> {
    chain.remove(chain.index_of(slot))
}

impl LedgerView {
    /// The handle of the claim in slot `i`.
    pub open spec fn claim_handle(self, i: u32) -> ResIdx {
        Handle::of(i, self.claims.generation(i))
    }

    /// The handle of the quote in slot `i`.
    pub open spec fn quote_handle(self, i: u32) -> QuoteIdx {
        Handle::of(i, self.quotes.generation(i))
    }

    /// The handle of the request in slot `i`.
    pub open spec fn request_handle(self, i: u32) -> ReqIdx {
        Handle::of(i, self.requests.generation(i))
    }

    /// The expiry of the reserved claim in slot `i`.
    pub open spec fn expiry(self, i: u32) -> u64 {
        expiry_of(self.claims, i)
    }

    /// Slot `i` holds a reserved claim of account `a`.
    pub open spec fn reserved_by(self, i: u32, a: int) -> bool {
        &&& self.claims.occupied(i)
        &&& self.claims.at(i).links is Reserved
        &&& self.claims.at(i).account.0 == a
    }

    /// Slot `i` holds a claim committed to `request`.
    pub open spec fn committed_to(self, i: u32, request: ReqIdx) -> bool {
        &&& self.claims.occupied(i)
        &&& self.claims.at(i).list() == Some(request)
    }

    /// Account `a`'s chain holds reserved claims of that account, each once, ordered by
    /// expiry, and the stored total is the chain's sum.
    pub open spec fn chain_ok(self, a: int) -> bool {
        let chain = self.chains[a];
        &&& chain.no_duplicates()
        &&& forall|k: int| 0 <= k < chain.len() ==> self.reserved_by(#[trigger] chain[k], a)
        &&& forall|j: int, k: int|
            0 <= j <= k < chain.len() ==> self.expiry(#[trigger] chain[j]) <= self.expiry(
                #[trigger] chain[k],
            )
        &&& self.accounts[a].reserved.0 == chain_sum(self.claims, chain)
    }

    /// Request slot `r`'s list holds claims committed to that request, each once; a vacant
    /// slot has none.
    pub open spec fn list_ok(self, r: int) -> bool {
        let list = self.lists[r];
        &&& list.no_duplicates()
        &&& self.requests.slots[r].value is None ==> list.len() == 0
        &&& forall|k: int|
            0 <= k < list.len() ==> self.committed_to(
                #[trigger] list[k],
                self.request_handle(r as u32),
            )
    }

    /// The stored committed total of account `a` is its share of the committed lists, and the
    /// two totals together fit an amount.
    pub open spec fn committed_ok(self, a: int) -> bool {
        &&& self.accounts[a].committed.0 == shares_of(self.claims, self.lists, a)
        &&& self.accounts[a].reserved.0 + self.accounts[a].committed.0 <= u64::MAX
    }

    /// The claim in slot `i`, if any, is on the chain its state puts it on.
    pub open spec fn placed(self, i: u32) -> bool {
        self.claims.occupied(i) ==> {
            let claim = self.claims.at(i);
            &&& claim.account.0 < self.accounts.len()
            &&& match claim.links {
                ClaimLinks::Reserved { .. } => self.chains[claim.account.0 as int].contains(i),
                ClaimLinks::Committed { request, .. } => self.requests.names(request)
                    && self.lists[request.index() as int].contains(i),
            }
        }
    }

    /// The claim `owner` holds, where it resolves.
    pub open spec fn held_by(self, owner: ResOwner) -> Option<ResIdx> {
        match owner {
            ResOwner::Quote(quote) => self.quotes.of(quote).claim,
            ResOwner::Request(request) => self.requests.of(request).claim,
        }
    }

    /// Whether `owner` resolves.
    pub open spec fn owner_resolves(self, owner: ResOwner) -> bool {
        match owner {
            ResOwner::Quote(quote) => self.quotes.names(quote),
            ResOwner::Request(request) => self.requests.names(request),
        }
    }

    /// The claim in slot `i`, if any, has an owner that resolves and points back at it.
    pub open spec fn owned(self, i: u32) -> bool {
        self.claims.occupied(i) ==> {
            let owner = self.claims.at(i).owner;
            self.owner_resolves(owner) && self.held_by(owner) == Some(self.claim_handle(i))
        }
    }

    /// The claim the quote in slot `i` holds, if any, resolves and names that quote.
    pub open spec fn quote_backed(self, i: u32) -> bool {
        self.quotes.occupied(i) ==> match self.quotes.at(i).claim {
            Some(claim) => self.claims.names(claim) && self.claims.of(claim).owner
                == ResOwner::Quote(self.quote_handle(i)),
            None => true,
        }
    }

    /// The claim the request in slot `i` holds, if any, resolves and names that request.
    pub open spec fn request_backed(self, i: u32) -> bool {
        self.requests.occupied(i) ==> match self.requests.at(i).claim {
            Some(claim) => self.claims.names(claim) && self.claims.of(claim).owner
                == ResOwner::Request(self.request_handle(i)),
            None => true,
        }
    }

    /// The slabs are sound and the tables have the right sizes.
    pub open spec fn shaped(self) -> bool {
        &&& self.claims.wf()
        &&& self.requests.wf()
        &&& self.quotes.wf()
        &&& self.accounts.len() < u32::MAX
        &&& self.chains.len() == self.accounts.len()
        &&& self.lists.len() == self.requests.slots.len()
    }

    /// What holds of a ledger after every mutation: every claim is on exactly one chain, the
    /// chains are ordered, the stored totals are the chains' sums, and a claim and its owner
    /// point at each other.
    pub open spec fn wf(self) -> bool {
        &&& self.shaped()
        &&& forall|a: int| 0 <= a < self.accounts.len() ==> #[trigger] self.chain_ok(a)
        &&& forall|r: int| 0 <= r < self.lists.len() ==> #[trigger] self.list_ok(r)
        &&& forall|a: int| 0 <= a < self.accounts.len() ==> #[trigger] self.committed_ok(a)
        &&& forall|i: u32| #[trigger] self.placed(i)
        &&& forall|i: u32| #[trigger] self.owned(i)
        &&& forall|i: u32| #[trigger] self.quote_backed(i)
        &&& forall|i: u32| #[trigger] self.request_backed(i)
        &&& entries(self.chains) + entries(self.lists) == self.claims.live()
    }

    // ───────────────────────────── what may be wrong ─────────────────────────────

    /// What is wrong between the claim in slot `i` and its owner, if anything.
    pub open spec fn owner_fault(self, i: u32) -> Option<InvariantViolation> {
        if !self.claims.occupied(i) {
            None
        } else if !self.owner_resolves(self.claims.at(i).owner) {
            Some(InvariantViolation::OwnerDoesNotResolve(self.claim_handle(i)))
        } else if self.held_by(self.claims.at(i).owner) != Some(self.claim_handle(i)) {
            Some(InvariantViolation::OwnerDoesNotPointBack(self.claim_handle(i)))
        } else {
            None
        }
    }

    /// What is wrong between the quote in slot `i` and the claim it holds, if anything.
    pub open spec fn quote_fault(self, i: u32) -> Option<InvariantViolation> {
        if self.quotes.occupied(i) && self.quotes.at(i).claim is Some && !self.quote_backed(i) {
            Some(InvariantViolation::OwnerDoesNotPointBack(self.quotes.at(i).claim->0))
        } else {
            None
        }
    }

    /// What is wrong between the request in slot `i` and the claim it holds, if anything.
    pub open spec fn request_fault(self, i: u32) -> Option<InvariantViolation> {
        if self.requests.occupied(i) && self.requests.at(i).claim is Some && !self.request_backed(
            i,
        ) {
            Some(InvariantViolation::OwnerDoesNotPointBack(self.requests.at(i).claim->0))
        } else {
            None
        }
    }

    /// `violation` is the first thing wrong between claims and owners: claims first, then
    /// quotes, then requests, each in slot order.
    pub open spec fn owners_broken_by(self, violation: InvariantViolation) -> bool {
        ||| exists|i: u32|
            {
                &&& #[trigger] self.owner_fault(i) == Some(violation)
                &&& forall|j: u32| j < i ==> #[trigger] self.owner_fault(j) is None
            }
        ||| {
            &&& forall|j: u32| #[trigger] self.owner_fault(j) is None
            &&& exists|i: u32|
                {
                    &&& #[trigger] self.quote_fault(i) == Some(violation)
                    &&& forall|j: u32| j < i ==> #[trigger] self.quote_fault(j) is None
                }
        }
        ||| {
            &&& forall|j: u32| #[trigger] self.owner_fault(j) is None
            &&& forall|j: u32| #[trigger] self.quote_fault(j) is None
            &&& exists|i: u32|
                {
                    &&& #[trigger] self.request_fault(i) == Some(violation)
                    &&& forall|j: u32| j < i ==> #[trigger] self.request_fault(j) is None
                }
        }
    }

    /// Claims and owners point at each other.
    pub open spec fn owners_sound(self) -> bool {
        &&& forall|j: u32| #[trigger] self.owner_fault(j) is None
        &&& forall|j: u32| #[trigger] self.quote_fault(j) is None
        &&& forall|j: u32| #[trigger] self.request_fault(j) is None
    }

    /// What is wrong with the request a committed claim hangs off, if anything: it must resolve
    /// and be settling.
    pub open spec fn not_settling(self, request: ReqIdx, claim: ResIdx) -> Option<
        InvariantViolation,
    > {
        if !self.requests.names(request) {
            Some(InvariantViolation::OwnerDoesNotResolve(claim))
        } else if self.requests.of(request).state !is Settling {
            Some(InvariantViolation::CommittedClaimRequestNotSettling(claim))
        } else {
            None
        }
    }

    /// What is wrong between the state of the claim in slot `i` and the state of its owner, if
    /// anything. A reserved claim references a standing quote or an open request; a committed
    /// claim references a consumed quote of the request whose list it is on, or that request
    /// itself, and that request is settling.
    pub open spec fn incoherence(self, i: u32) -> Option<InvariantViolation> {
        let claim = self.claims.at(i);
        let handle = self.claim_handle(i);
        if !self.claims.occupied(i) {
            None
        } else {
            match (claim.list(), claim.owner) {
                (None, ResOwner::Quote(quote)) => if !self.quotes.names(quote) {
                    Some(InvariantViolation::OwnerDoesNotResolve(handle))
                } else if self.quotes.of(quote).state !is Active {
                    Some(InvariantViolation::ReservedClaimOwnerNotStanding(handle))
                } else {
                    None
                },
                (None, ResOwner::Request(request)) => if !self.requests.names(request) {
                    Some(InvariantViolation::OwnerDoesNotResolve(handle))
                } else if self.requests.of(request).state !is Open {
                    Some(InvariantViolation::ReservedClaimOwnerNotStanding(handle))
                } else {
                    None
                },
                (Some(list), ResOwner::Quote(quote)) => if !self.quotes.names(quote) {
                    Some(InvariantViolation::OwnerDoesNotResolve(handle))
                } else if self.quotes.of(quote).state !is Consumed {
                    Some(InvariantViolation::CommittedClaimOwnerNotConsumed(handle))
                } else if self.quotes.of(quote).request != Some(list) {
                    Some(InvariantViolation::ClaimOnForeignCommittedList(list))
                } else {
                    self.not_settling(list, handle)
                },
                (Some(list), ResOwner::Request(request)) => if request != list {
                    Some(InvariantViolation::ClaimOnForeignCommittedList(list))
                } else {
                    self.not_settling(list, handle)
                },
            }
        }
    }

    /// Every claim's state agrees with its owner's.
    pub open spec fn coherent(self) -> bool {
        forall|i: u32| #[trigger] self.incoherence(i) is None
    }

    /// Every account's mirrored balance covers the claims against it.
    pub open spec fn covered(self) -> bool {
        forall|a: int| 0 <= a < self.accounts.len() ==> (#[trigger] self.accounts[a]).covered()
    }

    // ───────────────────────────── the transitions ─────────────────────────────

    /// A ledger with nothing in it.
    pub open spec fn empty(
        accounts: u32,
        contracts: u32,
        claims: u32,
        requests: u32,
        quotes: u32,
    ) -> Self {
        LedgerView {
            accounts: Seq::new(accounts as nat, |i: int| MirroredBalance::empty()),
            contracts: Seq::new(contracts as nat, |i: int| None),
            claims: SlabView::vacant(claims),
            requests: SlabView::vacant(requests),
            quotes: SlabView::vacant(quotes),
            chains: Seq::new(accounts as nat, |i: int| Seq::empty()),
            lists: Seq::new(requests as nat, |i: int| Seq::empty()),
        }
    }

    /// After a mirror update.
    pub open spec fn mirrored(self, account: AccountIdx, free: Amount) -> Self {
        let a = account.0 as int;
        LedgerView {
            accounts: self.accounts.update(a, MirroredBalance { free, ..self.accounts[a] }),
            ..self
        }
    }

    /// What registering a contract leads to: refused outside the table, refused where the index
    /// is registered with another event date, a no-op where it is registered with this one.
    pub open spec fn registration(self, contract: ContractIdx, event_date: Ts) -> Result<
        Self,
        LedgerError,
    > {
        let c = contract.0 as int;
        if c >= self.contracts.len() {
            Err(LedgerError::UnknownContract)
        } else {
            match self.contracts[c] {
                Some(existing) => if existing.event_date == event_date {
                    Ok(self)
                } else {
                    Err(LedgerError::ContractIdentityChanged)
                },
                None => Ok(
                    LedgerView {
                        contracts: self.contracts.update(c, Some(Contract::unreported(event_date))),
                        ..self
                    },
                ),
            }
        }
    }

    /// The contract registered at an index, if any.
    pub open spec fn contract_at(self, contract: ContractIdx) -> Option<Contract> {
        if contract.0 < self.contracts.len() {
            self.contracts[contract.0 as int]
        } else {
            None
        }
    }

    /// After the oracle's word on a registered contract is recorded.
    pub open spec fn oracle_reported(self, contract: ContractIdx, status: OracleStatus) -> Self {
        match self.contract_at(contract) {
            Some(found) => LedgerView {
                contracts: self.contracts.update(
                    contract.0 as int,
                    Some(Contract { oracle_status: status, ..found }),
                ),
                ..self
            },
            None => self,
        }
    }

    /// After `owner`'s back-pointer is set.
    pub open spec fn owner_set(self, owner: ResOwner, claim: Option<ResIdx>) -> Self {
        match owner {
            ResOwner::Quote(quote) => LedgerView {
                quotes: self.quotes.replaced(
                    quote.index(),
                    Quote { claim, ..self.quotes.of(quote) },
                ),
                ..self
            },
            ResOwner::Request(request) => LedgerView {
                requests: self.requests.replaced(
                    request.index(),
                    Request { claim, ..self.requests.of(request) },
                ),
                ..self
            },
        }
    }

    /// Where a claim expiring at `expires_at` goes on `chain`.
    pub open spec fn slot_for(self, chain: Seq<u32>, expires_at: Ts) -> int {
        slot_for(self.claims, chain, expires_at)
    }

    /// Why a claim of `amount` on `account` is refused, if it is.
    pub open spec fn unreservable(self, account: AccountIdx, amount: Amount) -> Option<
        LedgerError,
    > {
        if account.0 >= self.accounts.len() {
            Some(LedgerError::UnknownAccount)
        } else {
            let entry = self.accounts[account.0 as int];
            if entry.reserved.0 + entry.committed.0 + amount.0 > u64::MAX {
                Some(LedgerError::AmountOverflow)
            } else if entry.reserved.0 + entry.committed.0 + amount.0 > entry.free.0 {
                Some(LedgerError::InsufficientFree)
            } else {
                None
            }
        }
    }

    /// Why a reservation is refused, if it is: the owner first, then the balance, then the
    /// slab.
    pub open spec fn reserve_refused(
        self,
        account: AccountIdx,
        amount: Amount,
        owner: ResOwner,
    ) -> Option<LedgerError> {
        if !self.owner_resolves(owner) {
            Some(LedgerError::StaleOwner)
        } else if self.held_by(owner) is Some {
            Some(LedgerError::OwnerAlreadyClaimed)
        } else if self.unreservable(account, amount) is Some {
            self.unreservable(account, amount)
        } else if !self.claims.room() {
            Some(LedgerError::SlabExhausted { slab: SlabKind::Reservation })
        } else {
            None
        }
    }

    /// After `amount` of `account`'s balance is claimed for `owner` until `expires_at`.
    pub open spec fn reserved(
        self,
        account: AccountIdx,
        amount: Amount,
        expires_at: Ts,
        owner: ResOwner,
    ) -> Self {
        let a = account.0 as int;
        let entry = self.accounts[a];
        LedgerView {
            accounts: self.accounts.update(
                a,
                MirroredBalance {
                    reserved: Amount((entry.reserved.0 + amount.0) as u64),
                    ..entry
                },
            ),
            claims: self.claims.inserted(
                Reservation::unlinked(account, amount, owner, expires_at),
            ),
            chains: self.chains.update(
                a,
                self.chains[a].insert(
                    self.slot_for(self.chains[a], expires_at),
                    self.claims.next_index(),
                ),
            ),
            ..self
        }.owner_set(owner, Some(self.claims.next_handle()))
    }

    /// Why a release is refused, if it is.
    pub open spec fn release_refused(self, claim: ResIdx) -> Option<LedgerError> {
        if !self.claims.names(claim) {
            Some(LedgerError::StaleReservation)
        } else if self.claims.of(claim).links is Committed {
            Some(LedgerError::ReservationCommitted)
        } else {
            None
        }
    }

    /// After the reserved claim in slot `i` is taken off its chain and its amount off the
    /// stored total.
    pub open spec fn unchained(self, i: u32) -> Self {
        let claim = self.claims.at(i);
        let a = claim.account.0 as int;
        let entry = self.accounts[a];
        LedgerView {
            accounts: self.accounts.update(
                a,
                MirroredBalance {
                    reserved: Amount((entry.reserved.0 - claim.amount.0) as u64),
                    ..entry
                },
            ),
            chains: self.chains.update(a, without(self.chains[a], i)),
            ..self
        }
    }

    /// After the claim in slot `i` is let go: the owner holds nothing and the slot is free.
    pub open spec fn dropped(self, i: u32) -> Self {
        let after = self.owner_set(self.claims.at(i).owner, None);
        LedgerView { claims: after.claims.removed(i), ..after }
    }

    /// After the reserved claim in slot `i` is released.
    pub open spec fn released(self, i: u32) -> Self {
        self.unchained(i).dropped(i)
    }

    /// Why a commit is refused, if it is.
    pub open spec fn commit_refused(self, claim: ResIdx, request: ReqIdx) -> Option<LedgerError> {
        if !self.claims.names(claim) {
            Some(LedgerError::StaleReservation)
        } else if self.claims.of(claim).links is Committed {
            Some(LedgerError::ReservationCommitted)
        } else if !self.requests.names(request) {
            Some(LedgerError::StaleRequest)
        } else {
            None
        }
    }

    /// After `keep` of the reserved claim in slot `i` is committed to `request` and the
    /// remainder returned.
    pub open spec fn committed(self, i: u32, request: ReqIdx, keep: Amount) -> Self {
        let before = self.unchained(i);
        let claim = self.claims.at(i);
        let a = claim.account.0 as int;
        let entry = before.accounts[a];
        let r = request.index() as int;
        LedgerView {
            accounts: before.accounts.update(
                a,
                MirroredBalance {
                    committed: Amount((entry.committed.0 + keep.0) as u64),
                    ..entry
                },
            ),
            claims: before.claims.replaced(
                i,
                Reservation {
                    amount: keep,
                    links: ClaimLinks::Committed {
                        request,
                        prev: crate::account::Link(crate::account::NIL),
                        next: crate::account::Link(crate::account::NIL),
                    },
                    ..claim
                },
            ),
            lists: before.lists.update(r, seq![i] + before.lists[r]),
            ..before
        }
    }

    /// Whether account `account`'s chain holds a claim that is dead at `now`.
    pub open spec fn holds_expired(self, account: AccountIdx, now: Ts) -> bool {
        let chain = self.chains[account.0 as int];
        exists|k: int| 0 <= k < chain.len() && self.expiry(#[trigger] chain[k]) <= now.0
    }

    /// How many claims at the front of account `a`'s chain are dead at `now`.
    pub open spec fn expired_prefix(self, chain: Seq<u32>, now: Ts) -> nat
        decreases chain.len(),
    {
        if chain.len() > 0 && self.expiry(chain[0]) <= now.0 {
            1 + self.expired_prefix(chain.drop_first(), now)
        } else {
            0
        }
    }

    /// After the first `n` claims of account `a`'s chain are released, front first.
    pub open spec fn released_prefix(self, a: int, n: nat) -> Self
        decreases n,
    {
        if n == 0 {
            self
        } else {
            let before = self.released_prefix(a, (n - 1) as nat);
            before.released(before.chains[a][0])
        }
    }

    /// After account `a` is normalised at `now`: every claim of its chain that is dead is
    /// released.
    pub open spec fn normalised(self, account: AccountIdx, now: Ts) -> Self {
        let a = account.0 as int;
        self.released_prefix(a, self.expired_prefix(self.chains[a], now))
    }

    /// After the claim at the head of request slot `r`'s committed list is discharged.
    pub open spec fn discharged_one(self, r: int) -> Self {
        let i = self.lists[r][0];
        let claim = self.claims.at(i);
        let a = claim.account.0 as int;
        let entry = self.accounts[a];
        LedgerView {
            accounts: self.accounts.update(
                a,
                MirroredBalance {
                    committed: Amount((entry.committed.0 - claim.amount.0) as u64),
                    ..entry
                },
            ),
            lists: self.lists.update(r, self.lists[r].drop_first()),
            ..self
        }.dropped(i)
    }

    /// After the first `n` claims of request slot `r`'s committed list are discharged.
    pub open spec fn discharged_prefix(self, r: int, n: nat) -> Self
        decreases n,
    {
        if n == 0 {
            self
        } else {
            self.discharged_prefix(r, (n - 1) as nat).discharged_one(r)
        }
    }

    /// After every claim on `request`'s committed list is discharged.
    pub open spec fn discharged(self, request: ReqIdx) -> Self {
        let r = request.index() as int;
        self.discharged_prefix(r, self.lists[r].len()).owner_set(ResOwner::Request(request), None)
    }

    /// The owners and amounts of the claims on `request`'s committed list, in list order.
    pub open spec fn list_entries(self, request: ReqIdx) -> Seq<(ResOwner, Amount)> {
        let list = self.lists[request.index() as int];
        Seq::new(
            list.len(),
            |k: int| (self.claims.at(list[k]).owner, self.claims.at(list[k]).amount),
        )
    }

    /// After a quote is opened.
    pub open spec fn quote_opened(self, record: Quote) -> Self {
        LedgerView { quotes: self.quotes.inserted(record), ..self }
    }

    /// After a request is opened.
    pub open spec fn request_opened(self, record: Request) -> Self {
        LedgerView { requests: self.requests.inserted(record), ..self }
    }

    /// Why opening a quote with its claim is refused, if it is: the balance first, then the
    /// slabs.
    pub open spec fn open_quote_refused(self, record: Quote, amount: Amount) -> Option<
        LedgerError,
    > {
        if self.unreservable(record.maker, amount) is Some {
            self.unreservable(record.maker, amount)
        } else if !self.quotes.room() {
            Some(LedgerError::SlabExhausted { slab: SlabKind::Quote })
        } else if !self.claims.room() {
            Some(LedgerError::SlabExhausted { slab: SlabKind::Reservation })
        } else {
            None
        }
    }

    /// Why a claim of `amount` on `maker` for a quote replacing `prior` is refused, if it is: what
    /// `prior` holds counts as returned, and its slots as free.
    pub open spec fn replacement_refused(
        self,
        prior: Option<QuoteIdx>,
        maker: AccountIdx,
        amount: Amount,
    ) -> Option<LedgerError> {
        let claim = match prior {
            Some(quote) => self.quotes.of(quote).claim,
            None => None,
        };
        let returned = match claim {
            Some(held) => self.claims.of(held).amount.0 as int,
            None => 0,
        };
        let quote_room = self.quotes.room() || (prior matches Some(quote) && self.quotes.generation(
            quote.index(),
        ) < u32::MAX);
        let claim_room = self.claims.room() || (claim matches Some(held) && self.claims.generation(
            held.index(),
        ) < u32::MAX);
        if maker.0 >= self.accounts.len() {
            Some(LedgerError::UnknownAccount)
        } else {
            let entry = self.accounts[maker.0 as int];
            let claimed = entry.reserved.0 + entry.committed.0 - returned + amount.0;
            if claimed > u64::MAX {
                Some(LedgerError::AmountOverflow)
            } else if claimed > entry.free.0 {
                Some(LedgerError::InsufficientFree)
            } else if !quote_room {
                Some(LedgerError::SlabExhausted { slab: SlabKind::Quote })
            } else if !claim_room {
                Some(LedgerError::SlabExhausted { slab: SlabKind::Reservation })
            } else {
                None
            }
        }
    }

    /// After a quote is opened with a claim of `amount` on its maker that expires with it.
    pub open spec fn quote_opened_reserving(self, record: Quote, amount: Amount) -> Self {
        self.quote_opened(Quote { claim: None, ..record }).reserved(
            record.maker,
            amount,
            record.expires_at,
            ResOwner::Quote(self.quotes.next_handle()),
        )
    }

    /// Why opening a request with its claim is refused, if it is: the balance first, then the
    /// slabs.
    pub open spec fn open_request_refused(self, record: Request, amount: Amount) -> Option<
        LedgerError,
    > {
        if self.unreservable(record.requester, amount) is Some {
            self.unreservable(record.requester, amount)
        } else if !self.requests.room() {
            Some(LedgerError::SlabExhausted { slab: SlabKind::Request })
        } else if !self.claims.room() {
            Some(LedgerError::SlabExhausted { slab: SlabKind::Reservation })
        } else {
            None
        }
    }

    /// After a request is opened with a claim of `amount` on its requester that expires with
    /// it.
    pub open spec fn request_opened_reserving(self, record: Request, amount: Amount) -> Self {
        self.request_opened(Request { claim: None, ..record.unthreaded() }).reserved(
            record.requester,
            amount,
            record.deadline,
            ResOwner::Request(self.requests.next_handle()),
        )
    }

    /// Why closing a quote is refused, if it is.
    pub open spec fn close_quote_refused(self, quote: QuoteIdx) -> Option<LedgerError> {
        if !self.quotes.names(quote) {
            Some(LedgerError::StaleOwner)
        } else if self.quotes.of(quote).claim is Some {
            Some(LedgerError::OwnerStillClaimed)
        } else {
            None
        }
    }

    /// Why closing a request is refused, if it is.
    pub open spec fn close_request_refused(self, request: ReqIdx) -> Option<LedgerError> {
        if !self.requests.names(request) {
            Some(LedgerError::StaleRequest)
        } else if self.requests.of(request).claim is Some || self.lists[request.index() as int].len()
            > 0 {
            Some(LedgerError::OwnerStillClaimed)
        } else {
            None
        }
    }

    /// After a quote's fields are rewritten.
    pub open spec fn quote_rewritten(self, quote: QuoteIdx, record: Quote) -> Self {
        LedgerView { quotes: self.quotes.replaced(quote.index(), record), ..self }
    }

    /// After a request's fields are rewritten.
    pub open spec fn request_rewritten(self, request: ReqIdx, record: Request) -> Self {
        LedgerView { requests: self.requests.replaced(request.index(), record), ..self }
    }

    /// After a quote holding no claim is closed.
    pub open spec fn quote_closed(self, quote: QuoteIdx) -> Self {
        LedgerView { quotes: self.quotes.removed(quote.index()), ..self }
    }

    /// After a request holding no claim and no committed capital is closed.
    pub open spec fn request_closed(self, request: ReqIdx) -> Self {
        LedgerView { requests: self.requests.removed(request.index()), ..self }
    }
}

} // verus!
