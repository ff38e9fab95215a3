//! Chain plumbing: the link surgery every claim movement is made of.

use crate::account::{AccountIdx, Link, NIL};
use crate::ledger::model::{expiry_of, slot_for};
use crate::ledger::threads::{link_at, linked, thread_inserted, thread_removed, threaded};
use crate::ledger::{unthread_claims, Ledger};
use crate::quote::Quote;
use crate::request::{ReqIdx, Request};
use crate::reservation::{ClaimLinks, ResIdx, ResOwner, Reservation};
use crate::slab::{mapped_commutes, SlabView};
use crate::types::Ts;
use vstd::prelude::*;

verus! {

/// Rewriting a claim's links changes nothing but its links.
pub(super) proof fn relinking_is_invisible(claims: SlabView<Reservation>, i: u32, claim: Reservation)
    requires
        claims.wf(),
        claims.occupied(i),
        claim.unthreaded() == claims.at(i).unthreaded(),
    ensures
        unthread_claims(claims.replaced(i, claim)) == unthread_claims(claims),
{
    let f = |claim: Reservation| claim.unthreaded();
    mapped_commutes(claims, f, i, claim);
    assert(claims.mapped(f).replaced(i, f(claim)).slots =~= claims.mapped(f).slots);
}

impl Ledger {
    /// The claim in slot `index`, if any.
    pub(super) fn reservation_at(&self, index: u32) -> (r: Option<&Reservation>)
        requires
            self.intact(),
        ensures
            match r {
                Some(claim) => self.reservations@.occupied(index) && *claim
                    == self.reservations@.at(index),
                None => !self.reservations@.occupied(index),
            },
    {
        broadcast use crate::slab::handle_of;
        match self.reservations.handle_at(index) {
            Some(handle) => self.reservations.get(handle),
            None => None,
        }
    }

    /// The claim in slot `index`, mutably, if any.
    pub(super) fn reservation_at_mut(&mut self, index: u32) -> (r: Option<&mut Reservation>)
        requires
            old(self).intact(),
        ensures
            final(self).intact(),
            final(self).accounts == old(self).accounts,
            final(self).contracts == old(self).contracts,
            final(self).requests == old(self).requests,
            final(self).quotes == old(self).quotes,
            match r {
                Some(claim) => {
                    &&& old(self).reservations@.occupied(index)
                    &&& *claim == old(self).reservations@.at(index)
                    &&& final(self).reservations@ == old(self).reservations@.replaced(
                        index,
                        *final(claim),
                    )
                },
                None => !old(self).reservations@.occupied(index) && *final(self) == *old(self),
            },
    {
        broadcast use crate::slab::handle_of;
        match self.reservations.handle_at(index) {
            Some(handle) => self.reservations.get_mut(handle),
            None => None,
        }
    }

    /// Nothing moved between `self` and `after` but the links of the claims in `touched` and
    /// the chain endpoints of account `a`.
    pub(super) open spec fn relinked_within(&self, after: &Ledger, a: int, touched: Seq<u32>) -> bool {
        &&& after.intact()
        &&& after.contracts == self.contracts
        &&& after.requests == self.requests
        &&& after.quotes == self.quotes
        &&& after.accounts@.len() == self.accounts@.len()
        &&& forall|b: int|
            0 <= b < self.accounts@.len() && b != a ==> #[trigger] after.accounts@[b]
                == self.accounts@[b]
        &&& after.accounts@[a].unthreaded() == self.accounts@[a].unthreaded()
        &&& unthread_claims(after.reservations@) == unthread_claims(self.reservations@)
        &&& after.reservations@.slots.len() == self.reservations@.slots.len()
        &&& forall|i: u32|
            i < self.reservations@.slots.len() && !touched.contains(i)
                ==> #[trigger] after.reservations@.slots[i as int]
                == self.reservations@.slots[i as int]
    }

    /// Unlink from the account's expiry chain. Constant time, and it fixes **both** endpoints:
    /// removing the last entry must clear the tail, not just the head.
    ///
    /// `chain` is the account's chain and `at` the position of `index` on it.
    pub(super) fn unlink_from_chain(
        &mut self,
        account: AccountIdx,
        index: u32,
        Ghost(chain): Ghost<Seq<u32>>,
        Ghost(at): Ghost<int>,
    )
        requires
            old(self).intact(),
            account.0 < old(self).accounts@.len(),
            old(self).chain_threaded(account.0 as int, chain),
            0 <= at < chain.len(),
            chain[at] == index,
        ensures
            old(self).relinked_within(final(self), account.0 as int, chain),
            final(self).chain_threaded(account.0 as int, chain.remove(at)),
            final(self).reservations@.occupied(index),
            final(self).reservations@.at(index) == old(self).reservations@.at(index).unthreaded(),
    {
        let ghost before = *self;
        let ghost a = account.0 as int;
        proof {
            self.reservations.wf_model();
            assert(linked(self.reservations@, chain, at));
        }
        let neighbours = match self.reservation_at(index) {
            Some(reservation) => reservation.neighbours(),
            None => (Link::nil(), Link::nil()),
        };
        let prev = neighbours.0;
        let next = neighbours.1;
        assert(prev == link_at(chain, at - 1));
        assert(next == link_at(chain, at + 1));

        match prev.index() {
            Some(prev_index) => {
                proof {
                    assert(chain[at - 1] == prev_index);
                    assert(linked(self.reservations@, chain, at - 1));
                    relinking_is_invisible(
                        self.reservations@,
                        prev_index,
                        self.reservations@.at(prev_index).relinked(
                            self.reservations@.at(prev_index).links.prev(),
                            next,
                        ),
                    );
                }
                if let Some(reservation) = self.reservation_at_mut(prev_index) {
                    reservation.set_next(next);
                }
            },
            None => {
                assert(at == 0) by {
                    if at > 0 {
                        assert(linked(self.reservations@, chain, at - 1));
                    }
                }
                let mut entry = self.accounts[account.0 as usize];
                entry.expiry_head = next;
                self.accounts.set(account.0 as usize, entry);
            },
        }
        let ghost middle = *self;
        proof {
            self.reservations.wf_model();
        }
        match next.index() {
            Some(next_index) => {
                proof {
                    assert(chain[at + 1] == next_index);
                    assert(linked(before.reservations@, chain, at + 1));
                    assert(self.reservations@.occupied(next_index));
                    relinking_is_invisible(
                        self.reservations@,
                        next_index,
                        self.reservations@.at(next_index).relinked(
                            prev,
                            self.reservations@.at(next_index).links.next(),
                        ),
                    );
                }
                if let Some(reservation) = self.reservation_at_mut(next_index) {
                    reservation.set_prev(prev);
                }
            },
            None => {
                assert(at == chain.len() - 1) by {
                    if at < chain.len() - 1 {
                        assert(linked(before.reservations@, chain, at + 1));
                    }
                }
                let mut entry = self.accounts[account.0 as usize];
                entry.expiry_tail = prev;
                self.accounts.set(account.0 as usize, entry);
            },
        }
        let ghost last = *self;
        proof {
            self.reservations.wf_model();
            assert(self.reservations@.occupied(index));
            assert(self.reservations@.at(index) == before.reservations@.at(index));
            relinking_is_invisible(
                self.reservations@,
                index,
                self.reservations@.at(index).unthreaded(),
            );
        }
        if let Some(reservation) = self.reservation_at_mut(index) {
            reservation.set_prev(Link::nil());
            reservation.set_next(Link::nil());
        }
        proof {
            assert forall|k: int| 0 <= k < chain.len() && k != at implies {
                &&& self.reservations@.occupied(#[trigger] chain[k])
                &&& self.reservations@.at(chain[k]).links.prev() == (if k == at + 1 {
                    before.reservations@.at(chain[at]).links.prev()
                } else {
                    before.reservations@.at(chain[k]).links.prev()
                })
                &&& self.reservations@.at(chain[k]).links.next() == (if k == at - 1 {
                    before.reservations@.at(chain[at]).links.next()
                } else {
                    before.reservations@.at(chain[k]).links.next()
                })
            } by {
                assert(linked(before.reservations@, chain, k));
                assert(chain[k] != chain[at]);
                assert(at > 0 && k != at - 1 ==> chain[k] != chain[at - 1]);
                assert(at + 1 < chain.len() && k != at + 1 ==> chain[k] != chain[at + 1]);
            }
            thread_removed(before.reservations@, self.reservations@, chain, at);
            let shorter = chain.remove(at);
            assert(self.accounts@[a].expiry_head == link_at(shorter, 0));
            assert(self.accounts@[a].expiry_tail == link_at(shorter, shorter.len() - 1));
            assert forall|i: u32| i < before.reservations@.slots.len() && !chain.contains(
                i,
            ) implies #[trigger] self.reservations@.slots[i as int]
                == before.reservations@.slots[i as int] by {
                assert(chain.contains(chain[at]));
                assert(at > 0 ==> chain.contains(chain[at - 1]));
                assert(at + 1 < chain.len() ==> chain.contains(chain[at + 1]));
            }
        }
    }

    /// Splice `index` in immediately after `after`, fixing the tail if `after` was it.
    ///
    /// `chain` is the account's chain and `at` the position of `after` on it.
    fn splice_after(
        &mut self,
        account: AccountIdx,
        index: u32,
        after: u32,
        Ghost(chain): Ghost<Seq<u32>>,
        Ghost(at): Ghost<int>,
    )
        requires
            old(self).intact(),
            account.0 < old(self).accounts@.len(),
            old(self).chain_threaded(account.0 as int, chain),
            0 <= at < chain.len(),
            chain[at] == after,
            !chain.contains(index),
            old(self).reservations@.occupied(index),
        ensures
            old(self).relinked_within(final(self), account.0 as int, chain.push(index)),
            final(self).chain_threaded(account.0 as int, chain.insert(at + 1, index)),
    {
        let ghost before = *self;
        let ghost a = account.0 as int;
        proof {
            self.reservations.wf_model();
            assert(linked(self.reservations@, chain, at));
        }
        let next = match self.reservation_at(after) {
            Some(reservation) => reservation.neighbours().1,
            None => Link::nil(),
        };
        assert(next == link_at(chain, at + 1));
        proof {
            relinking_is_invisible(
                self.reservations@,
                after,
                self.reservations@.at(after).relinked(
                    self.reservations@.at(after).links.prev(),
                    Link(index),
                ),
            );
        }
        if let Some(reservation) = self.reservation_at_mut(after) {
            reservation.set_next(Link::to(index));
        }
        proof {
            self.reservations.wf_model();
            assert(chain.contains(chain[at]));
            assert(self.reservations@.at(index) == before.reservations@.at(index));
            relinking_is_invisible(
                self.reservations@,
                index,
                self.reservations@.at(index).relinked(Link(after), next),
            );
        }
        if let Some(reservation) = self.reservation_at_mut(index) {
            reservation.set_prev(Link::to(after));
            reservation.set_next(next);
        }
        proof {
            self.reservations.wf_model();
        }
        match next.index() {
            Some(next_index) => {
                proof {
                    assert(chain[at + 1] == next_index);
                    assert(linked(before.reservations@, chain, at + 1));
                    assert(chain.contains(chain[at + 1]));
                    assert(self.reservations@.at(next_index) == before.reservations@.at(next_index));
                    relinking_is_invisible(
                        self.reservations@,
                        next_index,
                        self.reservations@.at(next_index).relinked(
                            Link(index),
                            self.reservations@.at(next_index).links.next(),
                        ),
                    );
                }
                if let Some(reservation) = self.reservation_at_mut(next_index) {
                    reservation.set_prev(Link::to(index));
                }
            },
            None => {
                assert(at == chain.len() - 1) by {
                    if at < chain.len() - 1 {
                        assert(linked(before.reservations@, chain, at + 1));
                    }
                }
                let mut entry = self.accounts[account.0 as usize];
                entry.expiry_tail = Link::to(index);
                self.accounts.set(account.0 as usize, entry);
            },
        }
        proof {
            self.spliced(before, a, index, chain, at + 1);
        }
    }

    /// What a splice at position `p` amounts to.
    proof fn spliced(&self, before: Ledger, a: int, index: u32, chain: Seq<u32>, p: int)
        requires
            before.intact(),
            self.intact(),
            self.contracts == before.contracts,
            self.requests == before.requests,
            self.quotes == before.quotes,
            0 <= a < before.accounts@.len() == self.accounts@.len(),
            forall|b: int|
                0 <= b < before.accounts@.len() && b != a ==> #[trigger] self.accounts@[b]
                    == before.accounts@[b],
            self.accounts@[a].unthreaded() == before.accounts@[a].unthreaded(),
            self.accounts@[a].expiry_head == (if p == 0 {
                Link(index)
            } else {
                before.accounts@[a].expiry_head
            }),
            self.accounts@[a].expiry_tail == (if p == chain.len() {
                Link(index)
            } else {
                before.accounts@[a].expiry_tail
            }),
            before.chain_threaded(a, chain),
            0 <= p <= chain.len(),
            !chain.contains(index),
            before.reservations@.occupied(index),
            unthread_claims(self.reservations@) == unthread_claims(before.reservations@),
            self.reservations@.slots.len() == before.reservations@.slots.len(),
            self.reservations@.occupied(index),
            self.reservations@.at(index) == before.reservations@.at(index).relinked(
                link_at(chain, p - 1),
                link_at(chain, p),
            ),
            forall|i: u32|
                i != index && before.reservations@.occupied(i) ==> {
                    &&& #[trigger] self.reservations@.occupied(i)
                    &&& self.reservations@.at(i) == before.reservations@.at(i).relinked(
                        if p < chain.len() && i == chain[p] {
                            Link(index)
                        } else {
                            before.reservations@.at(i).links.prev()
                        },
                        if p > 0 && i == chain[p - 1] {
                            Link(index)
                        } else {
                            before.reservations@.at(i).links.next()
                        },
                    )
                },
            forall|i: u32|
                i < before.reservations@.slots.len() && i != index && !(p < chain.len() && i
                    == chain[p]) && !(p > 0 && i == chain[p - 1])
                    ==> #[trigger] self.reservations@.slots[i as int]
                    == before.reservations@.slots[i as int],
        ensures
            before.relinked_within(self, a, chain.push(index)),
            self.chain_threaded(a, chain.insert(p, index)),
    {
        let touched = chain.push(index);
        assert forall|k: int| 0 <= k < chain.len() implies {
            &&& self.reservations@.occupied(#[trigger] chain[k])
            &&& self.reservations@.at(chain[k]).links.prev() == (if k == p {
                Link(index)
            } else {
                before.reservations@.at(chain[k]).links.prev()
            })
            &&& self.reservations@.at(chain[k]).links.next() == (if k == p - 1 {
                Link(index)
            } else {
                before.reservations@.at(chain[k]).links.next()
            })
        } by {
            assert(linked(before.reservations@, chain, k));
            assert(chain.contains(chain[k]));
            assert(self.reservations@.occupied(chain[k]));
        }
        thread_inserted(before.reservations@, self.reservations@, chain, p, index);
        assert(touched[chain.len() as int] == index);
        assert forall|i: u32| i < before.reservations@.slots.len() && !touched.contains(
            i,
        ) implies #[trigger] self.reservations@.slots[i as int]
            == before.reservations@.slots[i as int] by {
            assert(p < chain.len() ==> touched[p] == chain[p]);
            assert(p > 0 ==> touched[p - 1] == chain[p - 1]);
        }
    }

    /// Splice `index` in at the head, fixing the tail if the chain was empty.
    fn splice_at_head(
        &mut self,
        account: AccountIdx,
        index: u32,
        Ghost(chain): Ghost<Seq<u32>>,
    )
        requires
            old(self).intact(),
            account.0 < old(self).accounts@.len(),
            old(self).chain_threaded(account.0 as int, chain),
            !chain.contains(index),
            old(self).reservations@.occupied(index),
        ensures
            old(self).relinked_within(final(self), account.0 as int, chain.push(index)),
            final(self).chain_threaded(account.0 as int, chain.insert(0, index)),
    {
        let ghost before = *self;
        let ghost a = account.0 as int;
        let head = self.accounts[account.0 as usize].expiry_head;
        proof {
            self.reservations.wf_model();
            relinking_is_invisible(
                self.reservations@,
                index,
                self.reservations@.at(index).relinked(Link(NIL), head),
            );
        }
        if let Some(reservation) = self.reservation_at_mut(index) {
            reservation.set_prev(Link::nil());
            reservation.set_next(head);
        }
        proof {
            self.reservations.wf_model();
        }
        match head.index() {
            Some(head_index) => {
                proof {
                    assert(chain[0] == head_index);
                    assert(linked(before.reservations@, chain, 0));
                    assert(chain.contains(chain[0]));
                    assert(self.reservations@.at(head_index) == before.reservations@.at(head_index));
                    relinking_is_invisible(
                        self.reservations@,
                        head_index,
                        self.reservations@.at(head_index).relinked(
                            Link(index),
                            self.reservations@.at(head_index).links.next(),
                        ),
                    );
                }
                if let Some(reservation) = self.reservation_at_mut(head_index) {
                    reservation.set_prev(Link::to(index));
                }
            },
            None => {
                assert(chain.len() == 0) by {
                    if chain.len() > 0 {
                        assert(linked(before.reservations@, chain, 0));
                    }
                }
                let mut entry = self.accounts[account.0 as usize];
                entry.expiry_tail = Link::to(index);
                self.accounts.set(account.0 as usize, entry);
            },
        }
        let mut entry = self.accounts[account.0 as usize];
        entry.expiry_head = Link::to(index);
        self.accounts.set(account.0 as usize, entry);
        proof {
            self.spliced(before, a, index, chain, 0);
        }
    }

    /// Insert into the account's expiry chain, **walking back from the tail**.
    ///
    /// Near constant time: a maker's quotes usually expire later than the ones already
    /// standing, so the walk stops immediately.
    pub(super) fn link_into_expiry_chain(
        &mut self,
        account: AccountIdx,
        index: u32,
        expires_at: Ts,
        Ghost(chain): Ghost<Seq<u32>>,
    )
        requires
            old(self).intact(),
            account.0 < old(self).accounts@.len(),
            old(self).chain_threaded(account.0 as int, chain),
            forall|k: int|
                0 <= k < chain.len() ==> old(self).reservations@.at(
                    #[trigger] chain[k],
                ).links is Reserved,
            !chain.contains(index),
            old(self).reservations@.occupied(index),
        ensures
            old(self).relinked_within(final(self), account.0 as int, chain.push(index)),
            final(self).chain_threaded(
                account.0 as int,
                chain.insert(slot_for(old(self).reservations@, chain, expires_at), index),
            ),
    {
        proof {
            self.reservations.wf_model();
        }
        let mut cursor = self.accounts[account.0 as usize].expiry_tail;
        let mut after: Option<u32> = None;
        let ghost mut p: int = chain.len() as int;
        proof {
            assert(chain.take(p) =~= chain);
        }
        while cursor.0 != NIL && after.is_none()
            invariant
                self.intact(),
                *self == *old(self),
                threaded(self.reservations@, chain),
                self.reservations@.wf(),
                forall|k: int|
                    0 <= k < chain.len() ==> self.reservations@.at(
                        #[trigger] chain[k],
                    ).links is Reserved,
                0 <= p <= chain.len(),
                slot_for(self.reservations@, chain, expires_at) == slot_for(
                    self.reservations@,
                    chain.take(p),
                    expires_at,
                ),
                after is None ==> cursor == link_at(chain, p - 1),
                after is Some ==> p > 0 && after == Some(chain[p - 1]) && expiry_of(
                    self.reservations@,
                    chain[p - 1],
                ) <= expires_at.0,
            decreases p, (if after is None { 1int } else { 0int }),
        {
            let candidate = cursor.0;
            proof {
                if p > 0 {
                    assert(linked(self.reservations@, chain, p - 1));
                    assert(chain.take(p).last() == chain[p - 1]);
                    assert(chain.take(p).drop_last() =~= chain.take(p - 1));
                }
            }
            match self.reservation_at(candidate) {
                Some(reservation) => match reservation.links {
                    ClaimLinks::Reserved { expires_at: theirs, prev, .. } => {
                        // Ascending, with equal expiries ordered by arrival: stop at the first
                        // entry that does not expire later, and insert after it.
                        if theirs.0 <= expires_at.0 {
                            after = Some(candidate);
                        } else {
                            cursor = prev;
                            proof {
                                p = p - 1;
                            }
                        }
                    },
                    ClaimLinks::Committed { .. } => {
                        assert(false);
                    },
                },
                None => {
                    assert(false);
                },
            }
        }
        match after {
            Some(after) => {
                assert(chain.take(p).last() == chain[p - 1]);
                self.splice_after(account, index, after, Ghost(chain), Ghost(p - 1));
            },
            None => {
                proof {
                    if p > 0 {
                        assert(linked(self.reservations@, chain, p - 1));
                    }
                    assert(chain.take(0).len() == 0);
                }
                self.splice_at_head(account, index, Ghost(chain));
            },
        }
    }

    /// Link into the request's committed list. Head insertion, constant time: the list is
    /// unordered, because nothing ever asks it for an earliest element.
    pub(super) fn link_into_committed_list(
        &mut self,
        request: ReqIdx,
        index: u32,
        Ghost(list): Ghost<Seq<u32>>,
    )
        requires
            old(self).intact(),
            old(self).requests@.names(request),
            old(self).list_threaded(request.index() as int, list),
            !list.contains(index),
            old(self).reservations@.occupied(index),
        ensures
            final(self).intact(),
            final(self).accounts == old(self).accounts,
            final(self).contracts == old(self).contracts,
            final(self).quotes == old(self).quotes,
            final(self).requests@ == old(self).requests@.replaced(
                request.index(),
                Request {
                    committed_head: Link(index),
                    ..old(self).requests@.of(request)
                },
            ),
            final(self).list_threaded(request.index() as int, seq![index] + list),
            unthread_claims(final(self).reservations@) == unthread_claims(
                old(self).reservations@,
            ).replaced(
                index,
                Reservation {
                    links: ClaimLinks::Committed { request, prev: Link(NIL), next: Link(NIL) },
                    ..old(self).reservations@.at(index)
                },
            ),
            final(self).reservations@.slots.len() == old(self).reservations@.slots.len(),
            forall|i: u32|
                i < old(self).reservations@.slots.len() && i != index && !list.contains(i)
                    ==> #[trigger] final(self).reservations@.slots[i as int]
                    == old(self).reservations@.slots[i as int],
    {
        let ghost before = *self;
        let ghost r = request.index() as int;
        let ghost f = |claim: Reservation| claim.unthreaded();
        let head = match self.requests.get(request) {
            Some(record) => record.committed_head,
            None => Link::nil(),
        };
        proof {
            self.reservations.wf_model();
            self.requests.wf_model();
            mapped_commutes(
                self.reservations@,
                f,
                index,
                Reservation {
                    links: ClaimLinks::Committed { request, prev: Link(NIL), next: head },
                    ..self.reservations@.at(index)
                },
            );
        }
        if let Some(reservation) = self.reservation_at_mut(index) {
            reservation.links = ClaimLinks::Committed { request, prev: Link::nil(), next: head };
        }
        proof {
            self.reservations.wf_model();
        }
        match head.index() {
            Some(head_index) => {
                proof {
                    assert(list[0] == head_index);
                    assert(linked(before.reservations@, list, 0));
                    assert(list.contains(list[0]));
                    assert(self.reservations@.at(head_index) == before.reservations@.at(head_index));
                    relinking_is_invisible(
                        self.reservations@,
                        head_index,
                        self.reservations@.at(head_index).relinked(
                            Link(index),
                            self.reservations@.at(head_index).links.next(),
                        ),
                    );
                }
                if let Some(reservation) = self.reservation_at_mut(head_index) {
                    reservation.set_prev(Link::to(index));
                }
            },
            None => {
                assert(list.len() == 0) by {
                    if list.len() > 0 {
                        assert(linked(before.reservations@, list, 0));
                    }
                }
            },
        }
        if let Some(record) = self.requests.get_mut(request) {
            record.committed_head = Link::to(index);
        }
        proof {
            assert forall|k: int| 0 <= k < list.len() implies {
                &&& self.reservations@.occupied(#[trigger] list[k])
                &&& self.reservations@.at(list[k]).links.prev() == (if k == 0 {
                    Link(index)
                } else {
                    before.reservations@.at(list[k]).links.prev()
                })
                &&& self.reservations@.at(list[k]).links.next()
                    == before.reservations@.at(list[k]).links.next()
            } by {
                assert(linked(before.reservations@, list, k));
                assert(list.contains(list[k]));
                assert(k > 0 ==> list[k] != list[0]);
            }
            thread_inserted(before.reservations@, self.reservations@, list, 0, index);
            assert(list.insert(0, index) =~= seq![index] + list);
        }
    }

    /// Point `owner` at `claim`, or at nothing.
    pub(super) fn set_owner_claim(&mut self, owner: ResOwner, claim: Option<ResIdx>)
        requires
            old(self).intact(),
            match owner {
                ResOwner::Quote(quote) => old(self).quotes@.names(quote),
                ResOwner::Request(request) => old(self).requests@.names(request),
            },
        ensures
            final(self).intact(),
            final(self).accounts == old(self).accounts,
            final(self).contracts == old(self).contracts,
            final(self).reservations == old(self).reservations,
            match owner {
                ResOwner::Quote(quote) => {
                    &&& final(self).requests == old(self).requests
                    &&& final(self).quotes@ == old(self).quotes@.replaced(
                        quote.index(),
                        Quote { claim, ..old(self).quotes@.of(quote) },
                    )
                },
                ResOwner::Request(request) => {
                    &&& final(self).quotes == old(self).quotes
                    &&& final(self).requests@ == old(self).requests@.replaced(
                        request.index(),
                        Request { claim, ..old(self).requests@.of(request) },
                    )
                },
            },
    {
        match owner {
            ResOwner::Quote(quote) => {
                if let Some(record) = self.quotes.get_mut(quote) {
                    record.set_claim(claim);
                }
            },
            ResOwner::Request(request) => {
                if let Some(record) = self.requests.get_mut(request) {
                    record.set_claim(claim);
                }
            },
        }
    }
}

} // verus!
