//! The ledger: the balance mirror, the reservation slab, and the two chains.
//!
//! Claims are slots of a preallocated slab, threaded by index onto one of two doubly linked
//! chains: a reserved claim onto its account's, in order of expiry, and a committed claim onto its
//! request's. A committed claim has no expiry at all. Nothing sweeps: expiry is a predicate
//! against the one instant a command is applied at, and reclamation happens inline in the command
//! that needs the account's capital.
//!
//! [`model::LedgerView`] is what a ledger holds, with the links forgotten: the chains are
//! sequences. Every operation is a function from one such view to the next; [`threads`] ties
//! the links to the sequences, [`keeps`] shows what every operation keeps,
//! and [`laws`] states what holds across them.

use crate::account::{AccountIdx, Link, MirroredBalance, NIL};
use crate::config::Config;
use crate::contract::{Contract, ContractIdx, OracleStatus};
use crate::quote::{Quote, QuoteIdx};
use crate::request::{ReqIdx, Request};
use crate::reservation::{ResIdx, ResOwner, Reservation};
use crate::ledger::model::{without, LedgerView};
use crate::ledger::keeps::{
    chain_fits, chains_are_apart, committed_wf, contracts_wf, discharged_one_wf, empty_wf,
    expired_prefix_bounds, expired_prefix_is, index_of_entry, lists_are_apart, mirrored_wf,
    quote_closed_wf, quote_opened_wf, request_closed_wf, request_opened_wf, released_prefix_claims,
    released_prefix_wf, released_wf, reserved_claims_are_apart, reserved_wf, slot_for_frame,
    threaded_claims_are_live, without_entry,
};
use crate::ledger::threads::{
    link_at, linked, thread_kept, thread_removed, threaded, threads_unique,
};
use crate::slab::{
    handle_of, inserted_wf, mapped_commutes, mapped_slots, occupied_indices_are_occupied, Slab,
    SlabFull, SlabView,
};
use crate::types::{Amount, Ts};
use vstd::prelude::*;

mod admission;
pub mod census;
pub mod checks;
pub mod commit_phase;
pub mod effects;
pub mod keeps;
pub mod laws;
pub mod model;
mod plumbing;
pub mod promises;
pub mod sums;
pub mod threads;

verus! {

/// Which preallocated slab ran out.
#[derive(Clone, Copy, Debug, PartialEq, Eq, Structural)]
pub enum SlabKind {
    /// The reservation slab.
    Reservation,
    /// The request slab.
    Request,
    /// The quote slab.
    Quote,
}

/// A rejected ledger operation. One variant per cause.
#[derive(Clone, Copy, Debug, PartialEq, Eq, Structural)]
pub enum LedgerError {
    /// The account index is outside the preallocated mirror.
    UnknownAccount,
    /// A preallocated slab is full. A rejection, never a reallocation.
    SlabExhausted {
        /// Which slab.
        slab: SlabKind,
    },
    /// The handle's generation no longer matches: the claim it named has been released and
    /// its slot possibly reissued.
    ///
    /// Distinct from [`LedgerError::ReservationCommitted`] on purpose. A stale handle means
    /// the caller is holding a reference past its lifetime; a committed handle means the
    /// caller is trying to release capital that may not be released on a guess.
    StaleReservation,
    /// The claim is committed, so it may not be released or committed again.
    ReservationCommitted,
    /// The owner handle does not resolve: the quote or request has been freed.
    StaleOwner,
    /// The owner already holds a claim. A quote backs exactly one reservation, and a request
    /// backs exactly one requester-side reservation.
    OwnerAlreadyClaimed,
    /// An owner was closed while capital is still claimed against it.
    OwnerStillClaimed,
    /// The request handle does not resolve.
    StaleRequest,
    /// The claim would draw on capital the mirrored balance does not cover.
    InsufficientFree,
    /// Checked arithmetic on a total overflowed. A rejection, never a wrap.
    AmountOverflow,
    /// The contract index is outside the preallocated table, or was never registered.
    UnknownContract,
    /// A contract index was re-registered with a different event date. The event date is part
    /// of the contract's identity, so this is the gateway contradicting itself.
    ContractIdentityChanged,
}

/// The claims with their links forgotten.
pub open spec fn unthread_claims(claims: SlabView<Reservation>) -> SlabView<Reservation> {
    claims.mapped(|claim: Reservation| claim.unthreaded())
}

/// The requests with the heads of their committed lists forgotten.
pub open spec fn unthread_requests(requests: SlabView<Request>) -> SlabView<Request> {
    requests.mapped(|request: Request| request.unthreaded())
}

/// The engine's claim ledger.
///
/// `PartialEq` is structural, down to slab generations and free-list order, so replaying a
/// command log through a fresh ledger and comparing is a byte-for-byte assertion rather than a
/// summary that could agree by coincidence.
#[derive(Debug, PartialEq, Eq)]
pub struct Ledger {
    accounts: Vec<MirroredBalance>,
    /// Dense, never freed, so no generation. `None` means the gateway has not registered that
    /// index yet.
    contracts: Vec<Option<Contract>>,
    reservations: Slab<Reservation>,
    requests: Slab<Request>,
    quotes: Slab<Quote>,
}

impl Ledger {
    /// `chain` is what account `a`'s endpoints and the claims' links spell.
    spec fn chain_threaded(&self, a: int, chain: Seq<u32>) -> bool {
        &&& threaded(self.reservations@, chain)
        &&& self.accounts@[a].expiry_head == link_at(chain, 0)
        &&& self.accounts@[a].expiry_tail == link_at(chain, chain.len() - 1)
    }

    /// `list` is what request slot `r`'s head and the claims' links spell.
    spec fn list_threaded(&self, r: int, list: Seq<u32>) -> bool {
        &&& threaded(self.reservations@, list)
        &&& self.requests@.slots[r].value is Some ==> self.requests@.at(r as u32).committed_head
            == link_at(list, 0)
        &&& self.requests@.slots[r].value is None ==> list.len() == 0
    }

    /// The model of this ledger.
    pub closed spec fn view(&self) -> LedgerView {
        LedgerView {
            accounts: Seq::new(
                self.accounts@.len(),
                |a: int| self.accounts@[a].unthreaded(),
            ),
            contracts: self.contracts@,
            claims: unthread_claims(self.reservations@),
            requests: unthread_requests(self.requests@),
            quotes: self.quotes@,
            chains: Seq::new(
                self.accounts@.len(),
                |a: int| choose|chain: Seq<u32>| self.chain_threaded(a, chain),
            ),
            lists: Seq::new(
                self.requests@.slots.len(),
                |r: int| choose|list: Seq<u32>| self.list_threaded(r, list),
            ),
        }
    }

    /// The slabs are sound and the tables are no larger than an index can name.
    pub closed spec fn intact(&self) -> bool {
        &&& self.reservations.wf()
        &&& self.requests.wf()
        &&& self.quotes.wf()
        &&& self.accounts@.len() < u32::MAX
        &&& self.contracts@.len() < u32::MAX
    }

    /// The ledger is intact, its model is well-formed, and the links spell the model's chains
    /// and lists.
    pub closed spec fn wf(&self) -> bool {
        &&& self.intact()
        &&& self@.wf()
        &&& forall|a: int|
            0 <= a < self.accounts@.len() ==> self.chain_threaded(a, #[trigger] self@.chains[a])
        &&& forall|r: int|
            0 <= r < self.requests@.slots.len() ==> self.list_threaded(
                r,
                #[trigger] self@.lists[r],
            )
    }

    /// A well-formed ledger is intact, and so is its model.
    pub proof fn wf_model(&self)
        requires
            self.wf(),
        ensures
            self.intact(),
            self@.wf(),
            self@.contracts.len() < u32::MAX,
    {
    }

    /// The links determine the chains and the lists.
    proof fn view_is(&self, chains: Seq<Seq<u32>>, lists: Seq<Seq<u32>>)
        requires
            self.intact(),
            chains.len() == self.accounts@.len(),
            lists.len() == self.requests@.slots.len(),
            forall|a: int|
                0 <= a < chains.len() ==> self.chain_threaded(a, #[trigger] chains[a]),
            forall|r: int| 0 <= r < lists.len() ==> self.list_threaded(r, #[trigger] lists[r]),
        ensures
            self@.chains == chains,
            self@.lists == lists,
            forall|a: int|
                0 <= a < chains.len() ==> self.chain_threaded(a, #[trigger] self@.chains[a]),
            forall|r: int|
                0 <= r < lists.len() ==> self.list_threaded(r, #[trigger] self@.lists[r]),
    {
        self.reservations.wf_model();
        assert forall|a: int| 0 <= a < chains.len() implies #[trigger] self@.chains[a]
            == chains[a] by {
            assert(self.chain_threaded(a, chains[a]));
            threads_unique(self.reservations@, self@.chains[a], chains[a]);
        }
        assert forall|r: int| 0 <= r < lists.len() implies #[trigger] self@.lists[r]
            == lists[r] by {
            assert(self.list_threaded(r, lists[r]));
            if self.requests@.slots[r].value is Some {
                threads_unique(self.reservations@, self@.lists[r], lists[r]);
            } else {
                assert(self@.lists[r] =~= lists[r]);
            }
        }
        assert(self@.chains =~= chains);
        assert(self@.lists =~= lists);
    }

    /// Threads none of whose slots were touched are as they were.
    proof fn threads_kept(before: &Ledger, after: &Ledger, a: int, r0: int, touched: Seq<u32>)
        requires
            before.wf(),
            after.intact(),
            after.accounts@.len() == before.accounts@.len(),
            after.requests@.slots.len() == before.requests@.slots.len(),
            forall|b: int|
                0 <= b < before.accounts@.len() && b != a ==> (
                #[trigger] after.accounts@[b]).expiry_head == before.accounts@[b].expiry_head
                    && after.accounts@[b].expiry_tail == before.accounts@[b].expiry_tail,
            forall|r: int|
                0 <= r < before.requests@.slots.len() && r != r0 ==> {
                    &&& (#[trigger] after.requests@.slots[r]).value is Some
                        <==> before.requests@.slots[r].value is Some
                    &&& after.requests@.slots[r].value is Some ==> after.requests@.at(
                        r as u32,
                    ).committed_head == before.requests@.at(r as u32).committed_head
                },
            forall|i: u32|
                before.reservations@.occupied(i) && !touched.contains(i) ==> {
                    &&& #[trigger] after.reservations@.occupied(i)
                    &&& after.reservations@.at(i) == before.reservations@.at(i)
                },
            forall|b: int, k: int|
                0 <= b < before@.chains.len() && b != a && 0 <= k < before@.chains[b].len()
                    ==> !touched.contains(#[trigger] before@.chains[b][k]),
            forall|r: int, k: int|
                0 <= r < before@.lists.len() && r != r0 && 0 <= k < before@.lists[r].len()
                    ==> !touched.contains(#[trigger] before@.lists[r][k]),
        ensures
            forall|b: int|
                0 <= b < before.accounts@.len() && b != a ==> after.chain_threaded(
                    b,
                    #[trigger] before@.chains[b],
                ),
            forall|r: int|
                0 <= r < before.requests@.slots.len() && r != r0 ==> after.list_threaded(
                    r,
                    #[trigger] before@.lists[r],
                ),
    {
        assert forall|b: int| 0 <= b < before.accounts@.len() && b != a implies after.chain_threaded(
            b,
            #[trigger] before@.chains[b],
        ) by {
            let chain = before@.chains[b];
            assert(before.chain_threaded(b, chain));
            assert forall|k: int| 0 <= k < chain.len() implies after.reservations@.occupied(
                #[trigger] chain[k],
            ) && after.reservations@.at(chain[k]) == before.reservations@.at(chain[k]) by {
                assert(linked(before.reservations@, chain, k));
                assert(!touched.contains(before@.chains[b][k]));
            }
            thread_kept(before.reservations@, after.reservations@, chain);
            assert(after.accounts@[b].expiry_head == before.accounts@[b].expiry_head);
        }
        assert forall|r: int|
            0 <= r < before.requests@.slots.len() && r != r0 implies after.list_threaded(
            r,
            #[trigger] before@.lists[r],
        ) by {
            let list = before@.lists[r];
            assert(before.list_threaded(r, list));
            assert forall|k: int| 0 <= k < list.len() implies after.reservations@.occupied(
                #[trigger] list[k],
            ) && after.reservations@.at(list[k]) == before.reservations@.at(list[k]) by {
                assert(linked(before.reservations@, list, k));
                assert(before@.lists[r][k] == list[k]);
                assert(!touched.contains(list[k]));
                assert(after.reservations@.occupied(list[k]));
            }
            thread_kept(before.reservations@, after.reservations@, list);
            assert(after.requests@.slots[r].value is Some <==> before.requests@.slots[r].value is Some);
        }
    }

    // ───────────────────────────── moving a claim ─────────────────────────────

    /// Claim coverage, checked against the mirror before the claim exists rather than asserted
    /// after it. Reserving moves no money, so the question is whether the claims *together*
    /// still fit inside the mirrored balance.
    ///
    /// Returns what the reserved total becomes if the claim is admitted.
    fn check_reservable(&self, account: AccountIdx, amount: Amount) -> (r: Result<
        Amount,
        LedgerError,
    >)
        requires
            self.intact(),
        ensures
            match self@.unreservable(account, amount) {
                Some(error) => r == Err::<Amount, LedgerError>(error),
                None => r == Ok::<Amount, LedgerError>(
                    Amount((self@.accounts[account.0 as int].reserved.0 + amount.0) as u64),
                ),
            },
    {
        if account.0 as usize >= self.accounts.len() {
            return Err(LedgerError::UnknownAccount);
        }
        let entry = self.accounts[account.0 as usize];
        let claims = match entry.reserved.checked_add(entry.committed) {
            Some(total) => total,
            None => {
                return Err(LedgerError::AmountOverflow);
            },
        };
        match claims.checked_add(amount) {
            Some(claimed) => {
                if claimed.0 > entry.free.0 {
                    return Err(LedgerError::InsufficientFree);
                }
            },
            None => {
                return Err(LedgerError::AmountOverflow);
            },
        }
        match entry.reserved.checked_add(amount) {
            Some(reserved) => Ok(reserved),
            None => Err(LedgerError::AmountOverflow),
        }
    }

    /// The infallible tail every reservation path shares: the claim has just been given a slot
    /// in `before`, and is put on its chain, on the total and behind its owner.
    fn link_claim(
        &mut self,
        account: AccountIdx,
        claim: ResIdx,
        expires_at: Ts,
        owner: ResOwner,
        reserved: Amount,
        Ghost(before): Ghost<Ledger>,
        Ghost(amount): Ghost<Amount>,
    )
        requires
            before.wf(),
            before@.reserve_refused(account, amount, owner) is None,
            old(self).intact(),
            old(self).accounts == before.accounts,
            old(self).contracts == before.contracts,
            old(self).requests == before.requests,
            old(self).quotes == before.quotes,
            old(self).reservations@ == before.reservations@.inserted(
                Reservation::unlinked(account, amount, owner, expires_at),
            ),
            claim == before@.claims.next_handle::<Reservation>(),
            reserved.0 == before@.accounts[account.0 as int].reserved.0 + amount.0,
        ensures
            final(self).wf(),
            final(self)@ == before@.reserved(account, amount, expires_at, owner),
    {
        let ghost v = before@;
        let ghost w = v.reserved(account, amount, expires_at, owner);
        let ghost a = account.0 as int;
        let ghost chain = v.chains[a];
        let ghost fresh = Reservation::unlinked(account, amount, owner, expires_at);
        let ghost inserted = *self;
        let ghost touched = chain.push(claim.index());
        proof {
            broadcast use handle_of;
            before.reservations.wf_model();
            before.requests.wf_model();
            before.quotes.wf_model();
            inserted_wf(before.reservations@, fresh);
            mapped_commutes(
                before.reservations@,
                |claim: Reservation| claim.unthreaded(),
                0,
                fresh,
            );
            assert(unthread_claims(self.reservations@) == v.claims.inserted(fresh));
            threaded_claims_are_live(v);
            chains_are_apart(v, a);
            assert(before.chain_threaded(a, chain));
            assert forall|k: int| 0 <= k < chain.len() implies {
                &&& before.reservations@.occupied(#[trigger] chain[k])
                &&& chain[k] != claim.index()
                &&& self.reservations@.at(chain[k]) == before.reservations@.at(chain[k])
                &&& self.reservations@.at(chain[k]).links is Reserved
            } by {
                assert(linked(before.reservations@, chain, k));
                assert(v.chain_ok(a));
                assert(v.reserved_by(chain[k], a));
            }
            thread_kept(before.reservations@, self.reservations@, chain);
            assert(self.chain_threaded(a, chain));
            slot_for_frame(v.claims, self.reservations@, chain, expires_at);
        }
        self.link_into_expiry_chain(account, claim.index(), expires_at, Ghost(chain));
        let ghost linked_in = *self;
        let mut entry = self.accounts[account.0 as usize];
        entry.reserved = reserved;
        self.accounts.set(account.0 as usize, entry);
        self.set_owner_claim(owner, Some(claim));
        proof {
            assert forall|i: u32|
                before.reservations@.occupied(i) && !touched.contains(i) implies {
                &&& #[trigger] self.reservations@.occupied(i)
                &&& self.reservations@.at(i) == before.reservations@.at(i)
            } by {
                assert(touched[chain.len() as int] == claim.index());
                assert(inserted.reservations@.slots[i as int] == before.reservations@.slots[i as int]);
                assert(linked_in.reservations@.slots[i as int]
                    == inserted.reservations@.slots[i as int]);
            }
            assert forall|b: int, k: int|
                0 <= b < v.chains.len() && b != a && 0 <= k
                    < v.chains[b].len() implies !touched.contains(#[trigger] v.chains[b][k]) by {
                assert(v.claims.occupied(v.chains[b][k]));
                if touched.contains(v.chains[b][k]) {
                    let j = choose|j: int|
                        0 <= j < touched.len() && touched[j] == v.chains[b][k];
                    assert(j < chain.len() ==> chain[j] == v.chains[b][k]);
                }
            }
            assert forall|r: int, k: int|
                0 <= r < v.lists.len() && 0 <= k < v.lists[r].len() implies !touched.contains(
                #[trigger] v.lists[r][k],
            ) by {
                assert(v.claims.occupied(v.lists[r][k]));
                if touched.contains(v.lists[r][k]) {
                    let j = choose|j: int| 0 <= j < touched.len() && touched[j] == v.lists[r][k];
                    assert(j < chain.len() ==> chain[j] == v.lists[r][k]);
                }
            }
            Ledger::threads_kept(&before, self, a, -1, touched);
            assert(linked_in.chain_threaded(a, w.chains[a]));
            assert(self.chain_threaded(a, w.chains[a]));
            assert forall|b: int| 0 <= b < w.chains.len() implies self.chain_threaded(
                b,
                #[trigger] w.chains[b],
            ) by {
                if b != a {
                    assert(w.chains[b] == v.chains[b]);
                }
            }
            assert forall|r: int| 0 <= r < w.lists.len() implies self.list_threaded(
                r,
                #[trigger] w.lists[r],
            ) by {
                assert(w.lists[r] == v.lists[r]);
            }
            self.view_is(w.chains, w.lists);
            assert(self@.accounts =~= w.accounts);
            match owner {
                ResOwner::Quote(_) => {},
                ResOwner::Request(request) => {
                    mapped_commutes(
                        before.requests@,
                        |request: Request| request.unthreaded(),
                        request.index(),
                        Request { claim: Some(claim), ..before.requests@.of(request) },
                    );
                },
            }
            assert(self@ == w);
            reserved_wf(v, account, amount, expires_at, owner);
        }
    }

    /// Take a reserved claim off its chain and off its account's total, clear its owner's
    /// back-pointer and free its slot.
    fn let_go(&mut self, claim: ResIdx)
        requires
            old(self).wf(),
            old(self)@.release_refused(claim) is None,
        ensures
            final(self).wf(),
            final(self)@ == old(self)@.released(claim.index()),
    {
        let ghost before = *self;
        let ghost v = self@;
        let index = claim.index();
        let ghost w = v.released(index);
        let ghost f = |claim: Reservation| claim.unthreaded();
        proof {
            self.reservations.wf_model();
            self.requests.wf_model();
            mapped_commutes(self.reservations@, f, index, self.reservations@.at(index));
            released_wf(v, index);
        }
        let (account, amount, owner) = match self.reservations.get(claim) {
            Some(reservation) => (reservation.account, reservation.amount, reservation.owner),
            None => {
                return ;
            },
        };
        let ghost a = account.0 as int;
        let ghost chain = v.chains[a];
        let ghost at = chain.index_of(index);
        proof {
            assert(v.owned(index));
            assert(v.reserved_by(index, a));
            reserved_claims_are_apart(v, index, a);
            threaded_claims_are_live(v);
            chains_are_apart(v, a);
            assert(v.chain_ok(a));
            without_entry(chain, index);
            assert(before.chain_threaded(a, chain));
        }
        self.unlink_from_chain(account, index, Ghost(chain), Ghost(at));
        let ghost unlinked = *self;
        let mut entry = self.accounts[account.0 as usize];
        entry.reserved = Amount(entry.reserved.0 - amount.0);
        self.accounts.set(account.0 as usize, entry);
        self.set_owner_claim(owner, None);
        proof {
            self.reservations.wf_model();
            mapped_commutes(self.reservations@, f, index, self.reservations@.at(index));
            assert(self.reservations@.generation(index) == unthread_claims(
                self.reservations@,
            ).generation(index));
        }
        let removed = self.reservations.remove(claim);
        proof {
            let shorter = w.chains[a];
            assert(shorter == chain.remove(at));
            assert forall|k: int| 0 <= k < shorter.len() implies self.reservations@.occupied(
                #[trigger] shorter[k],
            ) && self.reservations@.at(shorter[k]) == unlinked.reservations@.at(shorter[k]) by {
                assert(linked(unlinked.reservations@, shorter, k));
                assert(shorter.contains(shorter[k]));
            }
            thread_kept(unlinked.reservations@, self.reservations@, shorter);
            assert(self.chain_threaded(a, shorter));
            assert forall|i: u32| before.reservations@.occupied(i) && !chain.contains(i) implies {
                &&& #[trigger] self.reservations@.occupied(i)
                &&& self.reservations@.at(i) == before.reservations@.at(i)
            } by {
                assert(unlinked.reservations@.slots[i as int] == before.reservations@.slots[i as int]);
            }
            Ledger::threads_kept(&before, self, a, -1, chain);
            assert forall|b: int| 0 <= b < w.chains.len() implies self.chain_threaded(
                b,
                #[trigger] w.chains[b],
            ) by {
                if b != a {
                    assert(w.chains[b] == v.chains[b]);
                }
            }
            assert forall|r: int| 0 <= r < w.lists.len() implies self.list_threaded(
                r,
                #[trigger] w.lists[r],
            ) by {
                assert(w.lists[r] == v.lists[r]);
            }
            self.view_is(w.chains, w.lists);
            assert(self@.accounts =~= w.accounts);
            match owner {
                ResOwner::Quote(_) => {},
                ResOwner::Request(request) => {
                    mapped_commutes(
                        before.requests@,
                        |request: Request| request.unthreaded(),
                        request.index(),
                        Request { claim: None, ..before.requests@.of(request) },
                    );
                },
            }
            assert(self@ == w);
        }
    }

    /// Take a reserved claim off its chain and onto `request`'s committed list, keeping `keep`
    /// of its amount.
    fn move_to_list(&mut self, claim: ResIdx, request: ReqIdx, keep: Amount)
        requires
            old(self).wf(),
            old(self)@.release_refused(claim) is None,
            old(self)@.requests.names(request),
            keep.0 <= old(self)@.claims.of(claim).amount.0,
        ensures
            final(self).wf(),
            final(self)@ == old(self)@.committed(claim.index(), request, keep),
    {
        let ghost before = *self;
        let ghost v = self@;
        let index = claim.index();
        let ghost w = v.committed(index, request, keep);
        let ghost f = |claim: Reservation| claim.unthreaded();
        let ghost q = request.index() as int;
        let ghost list = v.lists[q];
        proof {
            self.reservations.wf_model();
            self.requests.wf_model();
            mapped_commutes(self.reservations@, f, index, self.reservations@.at(index));
            committed_wf(v, index, request, keep);
        }
        let (account, amount) = match self.reservations.get(claim) {
            Some(reservation) => (reservation.account, reservation.amount),
            None => {
                return ;
            },
        };
        let ghost a = account.0 as int;
        let ghost chain = v.chains[a];
        let ghost at = chain.index_of(index);
        proof {
            assert(v.reserved_by(index, a));
            reserved_claims_are_apart(v, index, a);
            threaded_claims_are_live(v);
            chains_are_apart(v, a);
            lists_are_apart(v, q);
            assert(v.chain_ok(a));
            without_entry(chain, index);
            assert(before.chain_threaded(a, chain));
            assert(before.list_threaded(q, list));
        }
        self.unlink_from_chain(account, index, Ghost(chain), Ghost(at));
        let ghost unlinked = *self;
        proof {
            self.reservations.wf_model();
            mapped_commutes(
                self.reservations@,
                f,
                index,
                Reservation { amount: keep, ..self.reservations@.at(index) },
            );
        }
        if let Some(reservation) = self.reservation_at_mut(index) {
            reservation.amount = keep;
        }
        let ghost trimmed = *self;
        proof {
            assert forall|i: u32| before.reservations@.occupied(i) && !chain.contains(i) implies {
                &&& #[trigger] self.reservations@.occupied(i)
                &&& self.reservations@.at(i) == before.reservations@.at(i)
            } by {
                assert(unlinked.reservations@.slots[i as int] == before.reservations@.slots[i as int]);
                assert(chain.contains(chain[at]));
            }
            Ledger::threads_kept(&before, self, a, -1, chain);
            assert(self.list_threaded(q, list));
            assert(!list.contains(index));
            let shorter = chain.remove(at);
            assert forall|k: int| 0 <= k < shorter.len() implies self.reservations@.occupied(
                #[trigger] shorter[k],
            ) && self.reservations@.at(shorter[k]) == unlinked.reservations@.at(shorter[k]) by {
                assert(linked(unlinked.reservations@, shorter, k));
                assert(without(chain, index).contains(shorter[k]));
            }
            thread_kept(unlinked.reservations@, self.reservations@, shorter);
            assert(self.chain_threaded(a, shorter));
        }
        self.link_into_committed_list(request, index, Ghost(list));
        let ghost listed = *self;
        let mut entry = self.accounts[account.0 as usize];
        entry.reserved = Amount(entry.reserved.0 - amount.0);
        entry.committed = Amount(entry.committed.0 + keep.0);
        self.accounts.set(account.0 as usize, entry);
        proof {
            let touched = list.push(index);
            assert(touched[list.len() as int] == index);
            assert forall|i: u32| !list.contains(i) && i != index implies !touched.contains(i) by {
                if touched.contains(i) {
                    let j = choose|j: int| 0 <= j < touched.len() && touched[j] == i;
                    assert(j < list.len() ==> list[j] == i);
                }
            }
            assert forall|i: u32| list.contains(i) implies touched.contains(i) by {
                let j = choose|j: int| 0 <= j < list.len() && list[j] == i;
                assert(touched[j] == i);
            }
            let shorter = chain.remove(at);
            assert forall|k: int| 0 <= k < shorter.len() implies self.reservations@.occupied(
                #[trigger] shorter[k],
            ) && self.reservations@.at(shorter[k]) == trimmed.reservations@.at(shorter[k]) by {
                assert(linked(trimmed.reservations@, shorter, k));
                assert(without(chain, index).contains(shorter[k]));
                assert(chain.contains(shorter[k]));
                if list.contains(shorter[k]) {
                    let j = choose|j: int| 0 <= j < list.len() && list[j] == shorter[k];
                    assert(!v.chains[a].contains(v.lists[q][j]));
                }
                assert(self.reservations@.slots[shorter[k] as int]
                    == trimmed.reservations@.slots[shorter[k] as int]);
            }
            thread_kept(trimmed.reservations@, self.reservations@, shorter);
            assert(self.chain_threaded(a, w.chains[a]));
            assert forall|b: int| 0 <= b < w.chains.len() implies self.chain_threaded(
                b,
                #[trigger] w.chains[b],
            ) by {
                if b != a {
                    let other = v.chains[b];
                    assert(w.chains[b] == other);
                    assert(trimmed.chain_threaded(b, other));
                    assert forall|k: int| 0 <= k < other.len() implies self.reservations@.occupied(
                        #[trigger] other[k],
                    ) && self.reservations@.at(other[k]) == trimmed.reservations@.at(other[k]) by {
                        assert(linked(trimmed.reservations@, other, k));
                        assert(v.chains[b][k] != index);
                        if list.contains(other[k]) {
                            let j = choose|j: int| 0 <= j < list.len() && list[j] == other[k];
                            chains_are_apart(v, b);
                            assert(!v.chains[b].contains(v.lists[q][j]));
                        }
                        assert(self.reservations@.slots[other[k] as int]
                            == trimmed.reservations@.slots[other[k] as int]);
                    }
                    thread_kept(trimmed.reservations@, self.reservations@, other);
                }
            }
            assert forall|r: int| 0 <= r < w.lists.len() implies self.list_threaded(
                r,
                #[trigger] w.lists[r],
            ) by {
                if r != q {
                    let other = v.lists[r];
                    assert(w.lists[r] == other);
                    assert(trimmed.list_threaded(r, other));
                    assert forall|k: int| 0 <= k < other.len() implies self.reservations@.occupied(
                        #[trigger] other[k],
                    ) && self.reservations@.at(other[k]) == trimmed.reservations@.at(other[k]) by {
                        assert(linked(trimmed.reservations@, other, k));
                        assert(v.lists[r][k] != index);
                        assert(!list.contains(v.lists[r][k]));
                        assert(self.reservations@.slots[other[k] as int]
                            == trimmed.reservations@.slots[other[k] as int]);
                    }
                    thread_kept(trimmed.reservations@, self.reservations@, other);
                }
            }
            self.view_is(w.chains, w.lists);
            assert(self@.accounts =~= w.accounts);
            mapped_commutes(
                before.requests@,
                |request: Request| request.unthreaded(),
                request.index(),
                Request { committed_head: Link(index), ..before.requests@.of(request) },
            );
            let g = |request: Request| request.unthreaded();
            assert(before.requests@.mapped(g).replaced(
                request.index(),
                before.requests@.mapped(g).at(request.index()),
            ).slots =~= before.requests@.mapped(g).slots);
            assert(self@.requests == w.requests);
            assert(self@.claims == w.claims);
            assert(self@ == w);
        }
    }

    /// Take the claim at the head of `request`'s committed list off the list and off its
    /// account's total, clear its owner's back-pointer and free its slot. Returns its owner and
    /// its amount.
    fn discharge_head(&mut self, request: ReqIdx) -> (r: (ResOwner, Amount))
        requires
            old(self).wf(),
            old(self)@.requests.names(request),
            old(self)@.lists[request.index() as int].len() > 0,
        ensures
            final(self).wf(),
            final(self)@ == old(self)@.discharged_one(request.index() as int),
            ({
                let i = old(self)@.lists[request.index() as int][0];
                r == (old(self)@.claims.at(i).owner, old(self)@.claims.at(i).amount)
            }),
    {
        let ghost before = *self;
        let ghost v = self@;
        let ghost q = request.index() as int;
        let ghost w = v.discharged_one(q);
        let ghost f = |claim: Reservation| claim.unthreaded();
        let ghost g = |request: Request| request.unthreaded();
        let ghost list = v.lists[q];
        let ghost i = list[0];
        proof {
            broadcast use handle_of;
            self.reservations.wf_model();
            self.requests.wf_model();
            assert(self.list_threaded(q, self@.lists[q]));
            assert(linked(self.reservations@, list, 0));
            assert(v.list_ok(q));
            mapped_commutes(self.reservations@, f, i, self.reservations@.at(i));
            mapped_commutes(self.requests@, g, request.index(), self.requests@.of(request));
            discharged_one_wf(v, q);
            assert(v.owned(i));
            threaded_claims_are_live(v);
            lists_are_apart(v, q);
        }
        let head = match self.requests.get(request) {
            Some(record) => record.committed_head,
            None => Link::nil(),
        };
        let index = head.0;
        assert(index == i);
        let (account, amount, owner, next) = match self.reservation_at(index) {
            Some(reservation) => (
                reservation.account,
                reservation.amount,
                reservation.owner,
                reservation.neighbours().1,
            ),
            None => (
                AccountIdx(0),
                Amount(0),
                ResOwner::Request(request),
                Link::nil(),
            ),
        };
        let ghost a = account.0 as int;
        // The next claim becomes the head.
        match next.index() {
            Some(next_index) => {
                proof {
                    assert(list[1] == next_index);
                    assert(linked(before.reservations@, list, 1));
                    plumbing::relinking_is_invisible(
                        self.reservations@,
                        next_index,
                        self.reservations@.at(next_index).relinked(
                            Link(NIL),
                            self.reservations@.at(next_index).links.next(),
                        ),
                    );
                }
                if let Some(reservation) = self.reservation_at_mut(next_index) {
                    reservation.set_prev(Link::nil());
                }
            },
            None => {
                assert(list.len() == 1) by {
                    if list.len() > 1 {
                        assert(linked(before.reservations@, list, 1));
                    }
                }
            },
        }
        let ghost spliced = *self;
        proof {
            self.reservations.wf_model();
            assert(self.reservations@.occupied(i));
            assert(self.reservations@.at(i) == before.reservations@.at(i));
        }
        if let Some(record) = self.requests.get_mut(request) {
            record.committed_head = next;
        }
        let ghost headed = *self;
        proof {
            self.requests.wf_model();
            mapped_commutes(
                before.requests@,
                g,
                request.index(),
                Request { committed_head: next, ..before.requests@.of(request) },
            );
            assert(before.requests@.mapped(g).replaced(
                request.index(),
                before.requests@.mapped(g).at(request.index()),
            ).slots =~= before.requests@.mapped(g).slots);
            assert(unthread_requests(self.requests@) == v.requests);
        }
        let mut entry = self.accounts[account.0 as usize];
        entry.committed = Amount(entry.committed.0 - amount.0);
        self.accounts.set(account.0 as usize, entry);
        self.set_owner_claim(owner, None);
        proof {
            mapped_commutes(self.reservations@, f, index, self.reservations@.at(index));
            match owner {
                ResOwner::Quote(_) => {},
                ResOwner::Request(other) => {
                    mapped_commutes(
                        headed.requests@,
                        g,
                        other.index(),
                        Request { claim: None, ..headed.requests@.of(other) },
                    );
                    mapped_commutes(
                        headed.requests@,
                        g,
                        other.index(),
                        headed.requests@.of(other),
                    );
                },
            }
            assert(unthread_requests(self.requests@) == w.requests);
        }
        if let Some(claim) = self.reservations.handle_at(index) {
            self.reservations.remove(claim);
        }
        proof {
            broadcast use handle_of;
            let rest = list.drop_first();
            assert(rest =~= list.remove(0));
            assert forall|k: int| 0 <= k < list.len() && k != 0 implies {
                &&& self.reservations@.occupied(#[trigger] list[k])
                &&& self.reservations@.at(list[k]).links.prev() == (if k == 0 + 1 {
                    before.reservations@.at(list[0]).links.prev()
                } else {
                    before.reservations@.at(list[k]).links.prev()
                })
                &&& self.reservations@.at(list[k]).links.next() == (if k == 0 - 1 {
                    before.reservations@.at(list[0]).links.next()
                } else {
                    before.reservations@.at(list[k]).links.next()
                })
            } by {
                assert(linked(before.reservations@, list, k));
                assert(list[k] != list[0]);
                assert(k > 1 ==> list[k] != list[1]);
            }
            thread_removed(before.reservations@, self.reservations@, list, 0);
            assert(self.requests@.at(request.index()).committed_head == next);
            assert(self.list_threaded(q, rest));
            assert forall|j: u32| before.reservations@.occupied(j) && !list.contains(j) implies {
                &&& #[trigger] self.reservations@.occupied(j)
                &&& self.reservations@.at(j) == before.reservations@.at(j)
            } by {
                assert(list.contains(list[0]));
                assert(list.len() > 1 ==> list.contains(list[1]));
            }
            assert forall|b: int, k: int|
                0 <= b < v.chains.len() && 0 <= k < v.chains[b].len() implies !list.contains(
                #[trigger] v.chains[b][k],
            ) by {
                chains_are_apart(v, b);
                if list.contains(v.chains[b][k]) {
                    let j = choose|j: int| 0 <= j < list.len() && list[j] == v.chains[b][k];
                    assert(!v.chains[b].contains(v.lists[q][j]));
                    assert(v.chains[b].contains(v.chains[b][k]));
                }
            }
            Ledger::threads_kept(&before, self, -1, q, list);
            assert forall|b: int| 0 <= b < w.chains.len() implies self.chain_threaded(
                b,
                #[trigger] w.chains[b],
            ) by {
                assert(w.chains[b] == v.chains[b]);
            }
            assert forall|r: int| 0 <= r < w.lists.len() implies self.list_threaded(
                r,
                #[trigger] w.lists[r],
            ) by {
                if r != q {
                    assert(w.lists[r] == v.lists[r]);
                }
            }
            self.view_is(w.chains, w.lists);
            assert(self@.accounts =~= w.accounts);
            assert(self@ == w);
        }
        (owner, amount)
    }

    /// Claim `amount` of `account`'s balance until `expires_at`, on behalf of `owner`.
    ///
    /// Plan, check, then commit: every fallible step happens before the first mutation, so a
    /// rejection leaves the ledger exactly as it was.
    pub fn reserve(
        &mut self,
        account: AccountIdx,
        amount: Amount,
        expires_at: Ts,
        owner: ResOwner,
    ) -> (r: Result<ResIdx, LedgerError>)
        requires
            old(self).wf(),
        ensures
            final(self).wf(),
            match old(self)@.reserve_refused(account, amount, owner) {
                Some(error) => {
                    &&& r == Err::<ResIdx, LedgerError>(error)
                    &&& *final(self) == *old(self)
                },
                None => {
                    &&& r == Ok::<ResIdx, LedgerError>(old(self)@.claims.next_handle())
                    &&& final(self)@ == old(self)@.reserved(account, amount, expires_at, owner)
                },
            },
    {
        let ghost before = *self;
        proof {
            self.reservations.wf_model();
            self.requests.wf_model();
        }
        let held = match owner {
            ResOwner::Quote(quote) => match self.quotes.get(quote) {
                Some(record) => record.claim,
                None => {
                    return Err(LedgerError::StaleOwner);
                },
            },
            ResOwner::Request(request) => match self.requests.get(request) {
                Some(record) => record.claim,
                None => {
                    return Err(LedgerError::StaleOwner);
                },
            },
        };
        if held.is_some() {
            return Err(LedgerError::OwnerAlreadyClaimed);
        }
        let reserved = match self.check_reservable(account, amount) {
            Ok(reserved) => reserved,
            Err(error) => {
                return Err(error);
            },
        };
        // A *failed* insert mutates nothing: the slab does not grow, it refuses.
        match self.reservations.insert(Reservation::reserved(account, amount, owner, expires_at)) {
            Ok(claim) => {
                self.link_claim(
                    account,
                    claim,
                    expires_at,
                    owner,
                    reserved,
                    Ghost(before),
                    Ghost(amount),
                );
                Ok(claim)
            },
            Err(SlabFull) => Err(LedgerError::SlabExhausted { slab: SlabKind::Reservation }),
        }
    }

    /// Release a named claim, returning the amount freed.
    ///
    /// A stale handle and a committed claim are two different bugs in the caller, and get two
    /// different errors.
    pub fn release(&mut self, claim: ResIdx) -> (r: Result<Amount, LedgerError>)
        requires
            old(self).wf(),
        ensures
            final(self).wf(),
            match old(self)@.release_refused(claim) {
                Some(error) => {
                    &&& r == Err::<Amount, LedgerError>(error)
                    &&& *final(self) == *old(self)
                },
                None => {
                    &&& r == Ok::<Amount, LedgerError>(old(self)@.claims.of(claim).amount)
                    &&& final(self)@ == old(self)@.released(claim.index())
                },
            },
    {
        proof {
            self.reservations.wf_model();
        }
        let amount = match self.reservations.get(claim) {
            Some(reservation) => {
                if reservation.is_committed() {
                    return Err(LedgerError::ReservationCommitted);
                }
                reservation.amount
            },
            None => {
                return Err(LedgerError::StaleReservation);
            },
        };
        self.let_go(claim);
        Ok(amount)
    }

    /// Move a claim from reserved to committed: unlink from the account's expiry chain and link
    /// into `request`'s committed list, in one step.
    ///
    /// After this the claim has no expiry, so reclamation cannot reach it: not because it is
    /// filtered out, but because it is no longer on the chain that traversal walks.
    pub fn commit(&mut self, claim: ResIdx, request: ReqIdx) -> (r: Result<(), LedgerError>)
        requires
            old(self).wf(),
        ensures
            final(self).wf(),
            match old(self)@.commit_refused(claim, request) {
                Some(error) => {
                    &&& r == Err::<(), LedgerError>(error)
                    &&& *final(self) == *old(self)
                },
                None => {
                    &&& r == Ok::<(), LedgerError>(())
                    &&& final(self)@ == old(self)@.committed(
                        claim.index(),
                        request,
                        old(self)@.claims.of(claim).amount,
                    )
                },
            },
    {
        proof {
            self.reservations.wf_model();
        }
        let amount = match self.reservations.get(claim) {
            Some(reservation) => {
                if reservation.is_committed() {
                    return Err(LedgerError::ReservationCommitted);
                }
                reservation.amount
            },
            None => {
                return Err(LedgerError::StaleReservation);
            },
        };
        if !self.requests.contains(request) {
            return Err(LedgerError::StaleRequest);
        }
        self.move_to_list(claim, request, amount);
        Ok(())
    }

    /// Reclaim every expired claim on `account`, from the head of its expiry chain, stopping at
    /// the first live entry. Returns how many were reclaimed.
    ///
    /// This is normalisation and the sole reclamation mechanism: there is no sweeper and no
    /// global expiry structure, so correctness never depends on a background pass having run.
    /// **It emits no events**, and it has **no committed-capital guard**, because committed
    /// claims are not on this chain.
    pub fn release_expired(&mut self, account: AccountIdx, now: Ts) -> (r: Result<
        u32,
        LedgerError,
    >)
        requires
            old(self).wf(),
        ensures
            final(self).wf(),
            if account.0 < old(self)@.accounts.len() {
                &&& r == Ok::<u32, LedgerError>(
                    old(self)@.expired_prefix(
                        old(self)@.chains[account.0 as int],
                        now,
                    ) as u32,
                )
                &&& old(self)@.expired_prefix(old(self)@.chains[account.0 as int], now) <= u32::MAX
                &&& final(self)@ == old(self)@.normalised(account, now)
            } else {
                &&& r == Err::<u32, LedgerError>(LedgerError::UnknownAccount)
                &&& *final(self) == *old(self)
            },
    {
        if account.0 as usize >= self.accounts.len() {
            return Err(LedgerError::UnknownAccount);
        }
        let ghost v = self@;
        let ghost a = account.0 as int;
        let ghost chain = v.chains[a];
        let mut reclaimed: u32 = 0;
        let mut cursor = self.accounts[account.0 as usize].expiry_head;
        let mut more: bool = true;
        proof {
            self.reservations.wf_model();
            assert(self.chain_threaded(a, self@.chains[a]));
            assert(v.chain_ok(a));
            threaded_claims_are_live(v);
            chain_fits(v, chain);
            assert(chain.skip(0) =~= chain);
        }
        while more && cursor.0 != NIL
            invariant
                v.wf(),
                self.wf(),
                a == account.0,
                0 <= a < v.accounts.len(),
                a < self.accounts@.len(),
                chain == v.chains[a],
                chain.len() < u32::MAX,
                reclaimed <= chain.len(),
                self@ == v.released_prefix(a, reclaimed as nat),
                self@.chains[a] == chain.skip(reclaimed as int),
                more ==> cursor == link_at(self@.chains[a], 0),
                forall|k: int| 0 <= k < reclaimed ==> v.expiry(#[trigger] chain[k]) <= now.0,
                !more ==> reclaimed < chain.len() && v.expiry(chain[reclaimed as int]) > now.0,
            decreases chain.len() - reclaimed, (if more { 1int } else { 0int }),
        {
            let ghost here = self@;
            let index = cursor.0;
            proof {
                broadcast use handle_of;
                self.reservations.wf_model();
                assert(self.chain_threaded(a, self@.chains[a]));
                assert(here.chains[a].len() > 0);
                assert(linked(self.reservations@, here.chains[a], 0));
                assert(here.chain_ok(a));
                assert(here.reserved_by(here.chains[a][0], a));
                assert(chain.skip(reclaimed as int)[0] == chain[reclaimed as int]);
                assert(v.chain_ok(a));
                released_prefix_wf(v, a, reclaimed as nat);
                assert(!chain.take(reclaimed as int).contains(index)) by {
                    if chain.take(reclaimed as int).contains(index) {
                        let k = choose|k: int|
                            0 <= k < reclaimed && chain.take(reclaimed as int)[k] == index;
                        assert(chain[k] == chain[reclaimed as int]);
                    }
                }
                released_prefix_claims(v, a, reclaimed as nat, index);
                assert(here.expiry(index) == v.expiry(index));
            }
            let expired = match self.reservation_at(index) {
                Some(reservation) => match reservation.is_expired_at(now) {
                    Some(expired) => expired,
                    None => false,
                },
                None => false,
            };
            if !expired {
                // Half-open liveness: live if and only if `now < expires_at`. The chain is
                // ordered, so the first live entry ends the walk.
                more = false;
            } else {
                match self.reservations.handle_at(index) {
                    Some(claim) => {
                        self.let_go(claim);
                        proof {
                            index_of_entry(here.chains[a], 0);
                            assert(self@ == v.released_prefix(a, (reclaimed + 1) as nat));
                            assert(chain.skip(reclaimed as int).remove(0) =~= chain.skip(
                                reclaimed + 1,
                            ));
                            assert(self.chain_threaded(a, self@.chains[a]));
                        }
                        reclaimed = reclaimed + 1;
                        cursor = self.accounts[account.0 as usize].expiry_head;
                    },
                    None => {
                        more = false;
                    },
                }
            }
        }
        proof {
            self.reservations.wf_model();
            assert(self.chain_threaded(a, self@.chains[a]));
            if more && reclaimed < chain.len() {
                assert(linked(self.reservations@, self@.chains[a], 0));
            }
            expired_prefix_is(v, chain, now, reclaimed as nat);
        }
        Ok(reclaimed)
    }

    /// Preallocate everything to configured capacity. The only allocation the ledger performs.
    pub fn new(config: &Config) -> (r: Self)
        requires
            !config.oversized(),
        ensures
            r.wf(),
            r@ == LedgerView::empty(
                config.max_accounts,
                config.max_contracts,
                config.max_reservations,
                config.max_requests,
                config.max_quotes,
            ),
    {
        let mut accounts: Vec<MirroredBalance> = Vec::with_capacity(config.max_accounts as usize);
        let mut i: u32 = 0;
        while i < config.max_accounts
            invariant
                i <= config.max_accounts,
                accounts@ == Seq::new(i as nat, |k: int| MirroredBalance::empty()),
            decreases config.max_accounts - i,
        {
            accounts.push(MirroredBalance::default());
            i = i + 1;
            assert(accounts@ =~= Seq::new(i as nat, |k: int| MirroredBalance::empty()));
        }
        let mut contracts: Vec<Option<Contract>> = Vec::with_capacity(
            config.max_contracts as usize,
        );
        let mut j: u32 = 0;
        while j < config.max_contracts
            invariant
                j <= config.max_contracts,
                contracts@ == Seq::new(j as nat, |k: int| None::<Contract>),
            decreases config.max_contracts - j,
        {
            contracts.push(None);
            j = j + 1;
            assert(contracts@ =~= Seq::new(j as nat, |k: int| None::<Contract>));
        }
        let ledger = Ledger {
            accounts,
            contracts,
            reservations: Slab::with_capacity(config.max_reservations),
            requests: Slab::with_capacity(config.max_requests),
            quotes: Slab::with_capacity(config.max_quotes),
        };
        proof {
            let v = LedgerView::empty(
                config.max_accounts,
                config.max_contracts,
                config.max_reservations,
                config.max_requests,
                config.max_quotes,
            );
            empty_wf(
                config.max_accounts,
                config.max_contracts,
                config.max_reservations,
                config.max_requests,
                config.max_quotes,
            );
            ledger.view_is(v.chains, v.lists);
            assert(ledger@.accounts =~= v.accounts);
            assert(ledger@.contracts =~= v.contracts);
            assert(ledger@.claims.slots =~= v.claims.slots);
            assert(ledger@.requests.slots =~= v.requests.slots);
            assert(ledger@ == v);
        }
        ledger
    }

    // ───────────────────────────── the balance mirror ─────────────────────────────

    /// How many accounts the mirror holds. Fixed at construction; accounts are never freed.
    pub fn account_count(&self) -> (r: u32)
        requires
            self.intact(),
        ensures
            r == self@.accounts.len(),
    {
        self.accounts.len() as u32
    }

    /// One account's mirrored balance and claim totals.
    pub fn account(&self, account: AccountIdx) -> (r: Option<&MirroredBalance>)
        ensures
            match r {
                Some(entry) => account.0 < self@.accounts.len() && entry.unthreaded()
                    == self@.accounts[account.0 as int],
                None => account.0 >= self@.accounts.len(),
            },
    {
        if (account.0 as usize) < self.accounts.len() {
            Some(&self.accounts[account.0 as usize])
        } else {
            None
        }
    }

    /// Apply a mirror update.
    ///
    /// The engine never *computes* a balance: this is the write path for a chain event arriving
    /// through the indexer, and the mirror is a projection, not an authority.
    pub fn apply_mirror_update(&mut self, account: AccountIdx, free: Amount) -> (r: Result<
        (),
        LedgerError,
    >)
        requires
            old(self).wf(),
        ensures
            final(self).wf(),
            if account.0 < old(self)@.accounts.len() {
                r == Ok::<(), LedgerError>(()) && final(self)@ == old(self)@.mirrored(account, free)
            } else {
                r == Err::<(), LedgerError>(LedgerError::UnknownAccount) && *final(self) == *old(
                    self,
                )
            },
    {
        if account.0 as usize >= self.accounts.len() {
            return Err(LedgerError::UnknownAccount);
        }
        let ghost before = *self;
        let mut entry = self.accounts[account.0 as usize];
        entry.free = free;
        self.accounts.set(account.0 as usize, entry);
        proof {
            let v = before@;
            let w = v.mirrored(account, free);
            mirrored_wf(v, account, free);
            Ledger::threads_kept(&before, self, -1, -1, Seq::empty());
            self.view_is(w.chains, w.lists);
            assert(self@.accounts =~= w.accounts);
            assert(self@ == w);
        }
        Ok(())
    }

    /// What `account` may draw on **after normalising it**: `free - reserved - committed` with
    /// every expired claim already reclaimed.
    ///
    /// This is the admission query, and normalising first is the correctness path: a decision
    /// about an account is never taken without reclaiming its expired capital.
    pub fn free(&mut self, account: AccountIdx, now: Ts) -> (r: Result<Amount, LedgerError>)
        requires
            old(self).wf(),
        ensures
            final(self).wf(),
            if account.0 < old(self)@.accounts.len() {
                &&& final(self)@ == old(self)@.normalised(account, now)
                &&& r == Ok::<Amount, LedgerError>(
                    old(self)@.normalised(account, now).accounts[account.0 as int].spare(),
                )
            } else {
                &&& r == Err::<Amount, LedgerError>(LedgerError::UnknownAccount)
                &&& *final(self) == *old(self)
            },
    {
        match self.release_expired(account, now) {
            Ok(_) => {},
            Err(error) => {
                return Err(error);
            },
        }
        proof {
            let a = account.0 as int;
            expired_prefix_bounds(old(self)@, old(self)@.chains[a], now);
            released_prefix_wf(
                old(self)@,
                a,
                old(self)@.expired_prefix(old(self)@.chains[a], now),
            );
        }
        match self.account(account) {
            Some(entry) => Ok(entry.available()),
            None => Err(LedgerError::UnknownAccount),
        }
    }

    // ───────────────────────────── contracts ─────────────────────────────

    /// Record a contract the gateway has assigned an index to.
    ///
    /// Re-registering the same index with the same event date is a no-op; with a *different*
    /// event date it is refused, since the event date is part of the identity.
    pub fn register_contract(&mut self, contract: ContractIdx, event_date: Ts) -> (r: Result<
        (),
        LedgerError,
    >)
        requires
            old(self).wf(),
        ensures
            final(self).wf(),
            match old(self)@.registration(contract, event_date) {
                Ok(after) => r == Ok::<(), LedgerError>(()) && final(self)@ == after,
                Err(error) => r == Err::<(), LedgerError>(error) && *final(self) == *old(self),
            },
    {
        if contract.0 as usize >= self.contracts.len() {
            return Err(LedgerError::UnknownContract);
        }
        let ghost before = *self;
        match self.contracts[contract.0 as usize] {
            Some(existing) => {
                if existing.event_date.0 == event_date.0 {
                    Ok(())
                } else {
                    Err(LedgerError::ContractIdentityChanged)
                }
            },
            None => {
                self.contracts.set(contract.0 as usize, Some(Contract::new(event_date)));
                proof {
                    self.contracts_changed(before);
                }
                Ok(())
            },
        }
    }

    /// Only the contract table changed.
    proof fn contracts_changed(&self, before: Ledger)
        requires
            before.wf(),
            self.accounts == before.accounts,
            self.reservations == before.reservations,
            self.requests == before.requests,
            self.quotes == before.quotes,
            self.contracts@.len() == before.contracts@.len(),
        ensures
            self.wf(),
            self@ == (LedgerView { contracts: self.contracts@, ..before@ }),
    {
        let w = LedgerView { contracts: self.contracts@, ..before@ };
        Ledger::threads_kept(&before, self, -1, -1, Seq::empty());
        self.view_is(before@.chains, before@.lists);
        assert(self@.accounts =~= w.accounts);
        assert(self@ == w);
        contracts_wf(before@, w);
    }

    /// A registered contract, if the index resolves.
    pub fn contract(&self, contract: ContractIdx) -> (r: Option<&Contract>)
        ensures
            match r {
                Some(found) => self@.contract_at(contract) == Some(*found),
                None => self@.contract_at(contract) is None,
            },
    {
        if (contract.0 as usize) < self.contracts.len() {
            match &self.contracts[contract.0 as usize] {
                Some(found) => Some(found),
                None => None,
            }
        } else {
            None
        }
    }

    /// Record what the oracle says about a contract; nothing where it is not registered.
    /// Monotonicity is checked by the caller.
    pub(crate) fn set_oracle_status(&mut self, contract: ContractIdx, status: OracleStatus)
        requires
            old(self).wf(),
        ensures
            final(self).wf(),
            final(self)@ == old(self)@.oracle_reported(contract, status),
    {
        let ghost before = *self;
        if (contract.0 as usize) < self.contracts.len() {
            match self.contracts[contract.0 as usize] {
                Some(mut found) => {
                    found.set_oracle_status(status);
                    self.contracts.set(contract.0 as usize, Some(found));
                    proof {
                        self.contracts_changed(before);
                    }
                },
                None => {},
            }
        }
    }

    /// How many contract indices the table is preallocated for.
    pub fn contract_capacity(&self) -> (r: u32)
        requires
            self.intact(),
        ensures
            r == self@.contracts.len(),
    {
        self.contracts.len() as u32
    }

    // ───────────────────────────── owners ─────────────────────────────

    /// Only the quotes changed.
    proof fn quotes_changed(&self, before: Ledger, w: LedgerView)
        requires
            before.wf(),
            self.accounts == before.accounts,
            self.contracts == before.contracts,
            self.reservations == before.reservations,
            self.requests == before.requests,
            self.quotes.wf(),
            w == (LedgerView { quotes: self.quotes@, ..before@ }),
            w.wf(),
        ensures
            self.wf(),
            self@ == w,
    {
        Ledger::threads_kept(&before, self, -1, -1, Seq::empty());
        self.view_is(before@.chains, before@.lists);
        assert(self@.accounts =~= w.accounts);
        assert(self@ == w);
    }

    /// Only the requests changed, and no head of a committed list.
    proof fn requests_changed(&self, before: Ledger, w: LedgerView)
        requires
            before.wf(),
            self.accounts == before.accounts,
            self.contracts == before.contracts,
            self.reservations == before.reservations,
            self.quotes == before.quotes,
            self.requests.wf(),
            self.requests@.slots.len() == before.requests@.slots.len(),
            w == (LedgerView { requests: unthread_requests(self.requests@), ..before@ }),
            w.wf(),
            forall|r: int|
                0 <= r < self.requests@.slots.len() ==> {
                    let now = #[trigger] self.requests@.slots[r];
                    &&& now.value is Some ==> self.requests@.at(r as u32).committed_head
                        == link_at(before@.lists[r], 0)
                    &&& now.value is None ==> before@.lists[r].len() == 0
                },
        ensures
            self.wf(),
            self@ == w,
    {
        assert forall|b: int| 0 <= b < before@.chains.len() implies self.chain_threaded(
            b,
            #[trigger] before@.chains[b],
        ) by {
            assert(before.chain_threaded(b, before@.chains[b]));
        }
        assert forall|r: int| 0 <= r < before@.lists.len() implies self.list_threaded(
            r,
            #[trigger] before@.lists[r],
        ) by {
            assert(before.list_threaded(r, before@.lists[r]));
            assert(self.requests@.slots[r] == self.requests@.slots[r]);
        }
        self.view_is(before@.chains, before@.lists);
        assert(self@.accounts =~= w.accounts);
        assert(self@ == w);
    }

    /// Open a quote that answers no request and holds no claim.
    pub fn open_quote(&mut self) -> (r: Result<QuoteIdx, LedgerError>)
        requires
            old(self).wf(),
        ensures
            final(self).wf(),
            if old(self)@.quotes.room() {
                &&& r == Ok::<QuoteIdx, LedgerError>(old(self)@.quotes.next_handle())
                &&& final(self)@ == old(self)@.quote_opened(Quote::bare())
            } else {
                &&& r == Err::<QuoteIdx, LedgerError>(
                    LedgerError::SlabExhausted { slab: SlabKind::Quote },
                )
                &&& *final(self) == *old(self)
            },
    {
        let ghost before = *self;
        match self.quotes.insert(Quote::new()) {
            Ok(quote) => {
                proof {
                    quote_opened_wf(before@, Quote::bare());
                    self.quotes_changed(before, before@.quote_opened(Quote::bare()));
                }
                Ok(quote)
            },
            Err(SlabFull) => Err(LedgerError::SlabExhausted { slab: SlabKind::Quote }),
        }
    }

    /// Open a request with no legs that holds no claim.
    pub fn open_request(&mut self) -> (r: Result<ReqIdx, LedgerError>)
        requires
            old(self).wf(),
        ensures
            final(self).wf(),
            if old(self)@.requests.room() {
                &&& r == Ok::<ReqIdx, LedgerError>(old(self)@.requests.next_handle())
                &&& final(self)@ == old(self)@.request_opened(Request::bare())
            } else {
                &&& r == Err::<ReqIdx, LedgerError>(
                    LedgerError::SlabExhausted { slab: SlabKind::Request },
                )
                &&& *final(self) == *old(self)
            },
    {
        let ghost before = *self;
        match self.requests.insert(Request::new()) {
            Ok(request) => {
                proof {
                    self.request_inserted(before, Request::bare());
                }
                Ok(request)
            },
            Err(SlabFull) => Err(LedgerError::SlabExhausted { slab: SlabKind::Request }),
        }
    }

    /// A request with no claim and an empty committed list has just been given a slot.
    proof fn request_inserted(&self, before: Ledger, record: Request)
        requires
            before.wf(),
            before@.requests.room(),
            record.claim is None,
            record.committed_head == Link(NIL),
            self.accounts == before.accounts,
            self.contracts == before.contracts,
            self.reservations == before.reservations,
            self.quotes == before.quotes,
            self.requests.wf(),
            self.requests@ == before.requests@.inserted(record),
        ensures
            self.wf(),
            self@ == before@.request_opened(record),
    {
        let f = |request: Request| request.unthreaded();
        before.requests.wf_model();
        inserted_wf(before.requests@, record);
        mapped_commutes(before.requests@, f, 0, record);
        assert(record.unthreaded() == record);
        let w = before@.request_opened(record);
        request_opened_wf(before@, record);
        assert forall|r: int| 0 <= r < self.requests@.slots.len() implies {
            let now = #[trigger] self.requests@.slots[r];
            &&& now.value is Some ==> self.requests@.at(r as u32).committed_head == link_at(
                before@.lists[r],
                0,
            )
            &&& now.value is None ==> before@.lists[r].len() == 0
        } by {
            assert(before.list_threaded(r, before@.lists[r]));
        }
        self.requests_changed(before, w);
    }

    /// Free a quote slot.
    ///
    /// Refused while capital is still claimed against it: freeing the slot would leave a claim
    /// naming whatever is reissued into it. Release the claim first.
    pub fn close_quote(&mut self, quote: QuoteIdx) -> (r: Result<(), LedgerError>)
        requires
            old(self).wf(),
        ensures
            final(self).wf(),
            match old(self)@.close_quote_refused(quote) {
                Some(error) => r == Err::<(), LedgerError>(error) && *final(self) == *old(self),
                None => r == Ok::<(), LedgerError>(()) && final(self)@ == old(
                    self,
                )@.quote_closed(quote),
            },
    {
        let ghost before = *self;
        match self.quotes.get(quote) {
            None => {
                return Err(LedgerError::StaleOwner);
            },
            Some(record) => {
                if record.claim.is_some() {
                    return Err(LedgerError::OwnerStillClaimed);
                }
            },
        }
        self.quotes.remove(quote);
        proof {
            quote_closed_wf(before@, quote);
            self.quotes_changed(before, before@.quote_closed(quote));
        }
        Ok(())
    }

    /// Free a request slot.
    ///
    /// Refused while the requester's claim is held or the committed list is not empty.
    /// Committed capital may not be released on a guess, so a request holding any cannot be
    /// freed.
    pub fn close_request(&mut self, request: ReqIdx) -> (r: Result<(), LedgerError>)
        requires
            old(self).wf(),
        ensures
            final(self).wf(),
            match old(self)@.close_request_refused(request) {
                Some(error) => r == Err::<(), LedgerError>(error) && *final(self) == *old(self),
                None => r == Ok::<(), LedgerError>(()) && final(self)@ == old(
                    self,
                )@.request_closed(request),
            },
    {
        let ghost before = *self;
        let ghost q = request.index() as int;
        proof {
            self.requests.wf_model();
            self.reservations.wf_model();
            if self@.requests.names(request) {
                assert(self.list_threaded(q, self@.lists[q]));
                if self@.lists[q].len() > 0 {
                    assert(linked(self.reservations@, self@.lists[q], 0));
                }
            }
        }
        match self.requests.get(request) {
            None => {
                return Err(LedgerError::StaleRequest);
            },
            Some(record) => {
                if record.claim.is_some() || record.committed_head.index().is_some() {
                    return Err(LedgerError::OwnerStillClaimed);
                }
            },
        }
        self.requests.remove(request);
        proof {
            let f = |request: Request| request.unthreaded();
            mapped_commutes(
                before.requests@,
                f,
                request.index(),
                before.requests@.of(request),
            );
            request_closed_wf(before@, request);
            assert forall|r: int| 0 <= r < self.requests@.slots.len() implies {
                let now = #[trigger] self.requests@.slots[r];
                &&& now.value is Some ==> self.requests@.at(r as u32).committed_head == link_at(
                    before@.lists[r],
                    0,
                )
                &&& now.value is None ==> before@.lists[r].len() == 0
            } by {
                assert(before.list_threaded(r, before@.lists[r]));
            }
            self.requests_changed(before, before@.request_closed(request));
        }
        Ok(())
    }

    /// A request, if the handle resolves.
    pub fn request(&self, request: ReqIdx) -> (r: Option<&Request>)
        requires
            self.intact(),
        ensures
            match r {
                Some(record) => self@.requests.get(request) == Some(record.unthreaded()),
                None => self@.requests.get(request) is None,
            },
    {
        self.requests.get(request)
    }

    /// A quote, if the handle resolves.
    pub fn quote(&self, quote: QuoteIdx) -> (r: Option<&Quote>)
        requires
            self.intact(),
        ensures
            match r {
                Some(record) => self@.quotes.get(quote) == Some(*record),
                None => self@.quotes.get(quote) is None,
            },
    {
        self.quotes.get(quote)
    }

    /// The handle naming whatever occupies quote slot `index`, for walking an intrusive leg
    /// chain and recovering the generation-carrying handle it names.
    pub fn quote_handle_at(&self, index: u32) -> (r: Option<QuoteIdx>)
        requires
            self.intact(),
        ensures
            r == (if self@.quotes.occupied(index) {
                Some(self@.quote_handle(index))
            } else {
                None
            }),
    {
        self.quotes.handle_at(index)
    }

    /// Live quotes.
    pub fn quote_count(&self) -> (r: u32)
        requires
            self.intact(),
        ensures
            r == self@.quotes.live(),
    {
        self.quotes.len()
    }

    /// Every live quote, in dense index order. A read model, not a query surface.
    pub fn quotes(&self) -> (r: Vec<(QuoteIdx, &Quote)>)
        requires
            self.intact(),
        ensures
            r@.len() == self@.quotes.occupied_indices().len(),
            forall|k: int|
                0 <= k < r@.len() ==> {
                    let index = self@.quotes.occupied_indices()[k];
                    &&& (#[trigger] r@[k]).0 == self@.quote_handle(index)
                    &&& *r@[k].1 == self@.quotes.at(index)
                },
    {
        self.quotes.iter()
    }

    /// Every live request, in dense index order.
    pub fn requests(&self) -> (r: Vec<(ReqIdx, &Request)>)
        requires
            self.intact(),
        ensures
            r@.len() == self@.requests.occupied_indices().len(),
            forall|k: int|
                0 <= k < r@.len() ==> {
                    let index = self@.requests.occupied_indices()[k];
                    &&& (#[trigger] r@[k]).0 == self@.request_handle(index)
                    &&& r@[k].1.unthreaded() == self@.requests.at(index)
                },
    {
        proof {
            mapped_slots(self.requests@, |request: Request| request.unthreaded());
            self.requests.wf_model();
            occupied_indices_are_occupied(self.requests@);
        }
        self.requests.iter()
    }

    /// Every live claim, in dense index order.
    pub fn reservations(&self) -> (r: Vec<(ResIdx, &Reservation)>)
        requires
            self.intact(),
        ensures
            r@.len() == self@.claims.occupied_indices().len(),
            forall|k: int|
                0 <= k < r@.len() ==> {
                    let index = self@.claims.occupied_indices()[k];
                    &&& (#[trigger] r@[k]).0 == self@.claim_handle(index)
                    &&& r@[k].1.unthreaded() == self@.claims.at(index)
                },
    {
        proof {
            mapped_slots(self.reservations@, |claim: Reservation| claim.unthreaded());
            self.reservations.wf_model();
            occupied_indices_are_occupied(self.reservations@);
        }
        self.reservations.iter()
    }

    /// The handle naming whatever occupies request slot `index`.
    ///
    /// How a nonce becomes a request again: the caller compares the generation it carries with
    /// the one this returns, and a mismatch means the slot has been reused and the nonce names
    /// nothing.
    pub fn request_handle_at(&self, index: u32) -> (r: Option<ReqIdx>)
        requires
            self.intact(),
        ensures
            r == (if self@.requests.occupied(index) {
                Some(self@.request_handle(index))
            } else {
                None
            }),
    {
        self.requests.handle_at(index)
    }

    /// Live requests.
    pub fn request_count(&self) -> (r: u32)
        requires
            self.intact(),
        ensures
            r == self@.requests.live(),
    {
        proof {
            mapped_slots(self.requests@, |request: Request| request.unthreaded());
        }
        self.requests.len()
    }

    /// A claim, if the handle resolves. `None` means the handle is stale.
    pub fn reservation(&self, claim: ResIdx) -> (r: Option<&Reservation>)
        requires
            self.intact(),
        ensures
            match r {
                Some(found) => self@.claims.get(claim) == Some(found.unthreaded()),
                None => self@.claims.get(claim) is None,
            },
    {
        self.reservations.get(claim)
    }

    /// Live claims.
    pub fn reservation_count(&self) -> (r: u32)
        requires
            self.intact(),
        ensures
            r == self@.claims.live(),
    {
        proof {
            mapped_slots(self.reservations@, |claim: Reservation| claim.unthreaded());
        }
        self.reservations.len()
    }

    /// Claim-slab capacity. Never changes after construction.
    pub fn reservation_capacity(&self) -> (r: u32)
        requires
            self.intact(),
        ensures
            r == self@.claims.slots.len(),
    {
        self.reservations.capacity()
    }

    /// Open a quote and reserve against it in one command.
    ///
    /// Two slabs and a balance move together or not at all: both slabs are checked for room
    /// *before* either insert, and neither insert can then fail.
    pub fn open_quote_reserving(&mut self, record: Quote, amount: Amount) -> (r: Result<
        (QuoteIdx, ResIdx),
        LedgerError,
    >)
        requires
            old(self).wf(),
        ensures
            final(self).wf(),
            match old(self)@.open_quote_refused(record, amount) {
                Some(error) => {
                    &&& r == Err::<(QuoteIdx, ResIdx), LedgerError>(error)
                    &&& *final(self) == *old(self)
                },
                None => {
                    &&& r == Ok::<(QuoteIdx, ResIdx), LedgerError>(
                        (old(self)@.quotes.next_handle(), old(self)@.claims.next_handle()),
                    )
                    &&& final(self)@ == old(self)@.quote_opened_reserving(record, amount)
                },
            },
    {
        let ghost before = *self;
        // The claim expires exactly when the quote does: one value, not two that could drift
        // apart.
        let expires_at = record.expires_at;
        let account = record.maker;
        let reserved = match self.check_reservable(account, amount) {
            Ok(reserved) => reserved,
            Err(error) => {
                return Err(error);
            },
        };
        proof {
            self.quotes.wf_model();
            self.reservations.wf_model();
        }
        if !self.quotes.has_room() {
            return Err(LedgerError::SlabExhausted { slab: SlabKind::Quote });
        }
        if !self.reservations.has_room() {
            return Err(LedgerError::SlabExhausted { slab: SlabKind::Reservation });
        }
        let record = Quote { claim: None, ..record };
        let quote = match self.quotes.insert(record) {
            Ok(quote) => quote,
            Err(SlabFull) => {
                return Err(LedgerError::SlabExhausted { slab: SlabKind::Quote });
            },
        };
        let ghost opened = *self;
        proof {
            broadcast use handle_of;
            quote_opened_wf(before@, record);
            self.quotes_changed(before, before@.quote_opened(record));
            inserted_wf(before@.quotes, record);
        }
        let owner = ResOwner::Quote(quote);
        match self.reservations.insert(Reservation::reserved(account, amount, owner, expires_at)) {
            Ok(claim) => {
                self.link_claim(
                    account,
                    claim,
                    expires_at,
                    owner,
                    reserved,
                    Ghost(opened),
                    Ghost(amount),
                );
                Ok((quote, claim))
            },
            Err(SlabFull) => Err(LedgerError::SlabExhausted { slab: SlabKind::Reservation }),
        }
    }

    /// Open a request and reserve the requester's claim against it in one command.
    ///
    /// The requester's capital is reserved before any price exists, which is why this is one
    /// operation and not two.
    pub fn open_request_reserving(&mut self, record: Request, amount: Amount) -> (r: Result<
        (ReqIdx, ResIdx),
        LedgerError,
    >)
        requires
            old(self).wf(),
        ensures
            final(self).wf(),
            match old(self)@.open_request_refused(record, amount) {
                Some(error) => {
                    &&& r == Err::<(ReqIdx, ResIdx), LedgerError>(error)
                    &&& *final(self) == *old(self)
                },
                None => {
                    &&& r == Ok::<(ReqIdx, ResIdx), LedgerError>(
                        (old(self)@.requests.next_handle(), old(self)@.claims.next_handle()),
                    )
                    &&& final(self)@ == old(self)@.request_opened_reserving(record, amount)
                },
            },
    {
        let ghost before = *self;
        // The requester's claim expires with the request.
        let expires_at = record.deadline;
        let account = record.requester;
        let reserved = match self.check_reservable(account, amount) {
            Ok(reserved) => reserved,
            Err(error) => {
                return Err(error);
            },
        };
        proof {
            self.requests.wf_model();
            self.reservations.wf_model();
        }
        if !self.requests.has_room() {
            return Err(LedgerError::SlabExhausted { slab: SlabKind::Request });
        }
        if !self.reservations.has_room() {
            return Err(LedgerError::SlabExhausted { slab: SlabKind::Reservation });
        }
        let record = Request { claim: None, committed_head: Link::nil(), ..record };
        let request = match self.requests.insert(record) {
            Ok(request) => request,
            Err(SlabFull) => {
                return Err(LedgerError::SlabExhausted { slab: SlabKind::Request });
            },
        };
        let ghost opened = *self;
        proof {
            broadcast use handle_of;
            self.request_inserted(before, record);
            inserted_wf(before.requests@, record);
        }
        let owner = ResOwner::Request(request);
        match self.reservations.insert(Reservation::reserved(account, amount, owner, expires_at)) {
            Ok(claim) => {
                self.link_claim(
                    account,
                    claim,
                    expires_at,
                    owner,
                    reserved,
                    Ghost(opened),
                    Ghost(amount),
                );
                Ok((request, claim))
            },
            Err(SlabFull) => Err(LedgerError::SlabExhausted { slab: SlabKind::Reservation }),
        }
    }
}

} // verus!
