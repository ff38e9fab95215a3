//! Reservations: the engine's soft claims against custody.
//!
//! A reservation is a promise that a unit will be available. It moves no money, custody has
//! no concept of it, and it is safe only because custody enforces a withdrawal timelock longer
//! than the maximum quote lifetime.
//!
//! **A claim is linked into exactly one chain, and the type says so.** While `reserved` it
//! sits on its account's expiry-ordered chain; while `committed` it sits on its request's
//! committed list. [`ClaimLinks`] is an enum over those two states rather than a struct with a
//! flag, so a committed claim has **no `expires_at` field at all**. That is what makes "may
//! not be released on a guess" structurally true: reclamation walks the expiry chain and
//! evaluates an expiry predicate, and neither can be written against a committed claim.

use crate::account::{AccountIdx, Link, NIL};
use crate::quote::QuoteIdx;
use crate::request::ReqIdx;
use crate::slab::Handle;
use crate::types::{Amount, Ts};
use vstd::prelude::*;

verus! {

/// A generation-carrying handle to a reservation.
///
/// Generation-carrying because it is handed out: a caller holding one across a
/// release-and-reallocate must be refused, not silently pointed at the slot's new occupant.
pub type ResIdx = Handle<Reservation>;

/// What a claim is attached to.
///
/// **Requester-side claims have no quote.** A maker's claim hangs off the quote that reserved
/// it; the requester's is reserved before any price exists and before any quote arrives, so it
/// can only hang off the request itself.
#[derive(Clone, Copy, Debug)]
pub enum ResOwner {
    /// A maker's claim, backing one live quote.
    Quote(QuoteIdx),
    /// The requester's claim, backing the request itself.
    Request(ReqIdx),
}

impl PartialEq for ResOwner {
    fn eq(&self, other: &Self) -> (r: bool) {
        match (self, other) {
            (ResOwner::Quote(a), ResOwner::Quote(b)) => *a == *b,
            (ResOwner::Request(a), ResOwner::Request(b)) => *a == *b,
            _ => false,
        }
    }
}

impl vstd::std_specs::cmp::PartialEqSpecImpl for ResOwner {
    open spec fn obeys_eq_spec() -> bool {
        true
    }

    open spec fn eq_spec(&self, other: &Self) -> bool {
        *self == *other
    }
}

impl Eq for ResOwner {

}

/// Which chain a claim is on, and the links threading it.
///
/// Two variants, never both, and never neither.
#[derive(Clone, Copy, Debug, PartialEq, Eq)]
pub enum ClaimLinks {
    /// On the account's expiry-ordered chain, ascending by `expires_at`.
    ///
    /// Doubly linked: early release when a quote wins or loses at accept is a constant-time
    /// unlink from the middle of the chain.
    Reserved { expires_at: Ts, prev: Link, next: Link },
    /// On the request's committed list: unordered, and with **no expiry**.
    ///
    /// Unordered because nothing ever asks for the earliest: the list is walked whole, when
    /// settlement confirms or definitively fails. It therefore needs no tail pointer.
    Committed { request: ReqIdx, prev: Link, next: Link },
}

impl ClaimLinks {
    /// The link towards the head.
    pub open spec fn prev(self) -> Link {
        match self {
            ClaimLinks::Reserved { prev, .. } => prev,
            ClaimLinks::Committed { prev, .. } => prev,
        }
    }

    /// The link away from the head.
    pub open spec fn next(self) -> Link {
        match self {
            ClaimLinks::Reserved { next, .. } => next,
            ClaimLinks::Committed { next, .. } => next,
        }
    }

    /// The same place on the same chain, with the links replaced.
    pub open spec fn relinked(self, prev: Link, next: Link) -> Self {
        match self {
            ClaimLinks::Reserved { expires_at, .. } => ClaimLinks::Reserved {
                expires_at,
                prev,
                next,
            },
            ClaimLinks::Committed { request, .. } => ClaimLinks::Committed {
                request,
                prev,
                next,
            },
        }
    }
}

/// One claim on one account's balance.
#[derive(Clone, Copy, Debug, PartialEq, Eq)]
pub struct Reservation {
    pub account: AccountIdx,
    pub amount: Amount,
    pub owner: ResOwner,
    pub links: ClaimLinks,
}

impl Reservation {
    /// A claim on no chain yet, expiring at `expires_at`.
    pub open spec fn unlinked(
        account: AccountIdx,
        amount: Amount,
        owner: ResOwner,
        expires_at: Ts,
    ) -> Self {
        Reservation {
            account,
            amount,
            owner,
            links: ClaimLinks::Reserved { expires_at, prev: Link(NIL), next: Link(NIL) },
        }
    }

    /// The claim with its links replaced.
    pub open spec fn relinked(self, prev: Link, next: Link) -> Self {
        Reservation { links: self.links.relinked(prev, next), ..self }
    }

    /// The claim without its chain links.
    pub open spec fn unthreaded(self) -> Self {
        self.relinked(Link(NIL), Link(NIL))
    }

    /// A fresh claim, linked nowhere yet. The ledger links it before anyone can see it.
    pub(crate) fn reserved(
        account: AccountIdx,
        amount: Amount,
        owner: ResOwner,
        expires_at: Ts,
    ) -> (r: Self)
        ensures
            r == Reservation::unlinked(account, amount, owner, expires_at),
    {
        Reservation {
            account,
            amount,
            owner,
            links: ClaimLinks::Reserved { expires_at, prev: Link::nil(), next: Link::nil() },
        }
    }

    /// Whose balance this claim is against.
    pub fn account(&self) -> (r: AccountIdx)
        ensures
            r == self.account,
    {
        self.account
    }

    /// How much is claimed.
    pub fn amount(&self) -> (r: Amount)
        ensures
            r == self.amount,
    {
        self.amount
    }

    /// What the claim is attached to.
    pub fn owner(&self) -> (r: ResOwner)
        ensures
            r == self.owner,
    {
        self.owner
    }

    /// The expiry of a reserved claim; a committed one has none.
    pub open spec fn expiry(self) -> Option<Ts> {
        match self.links {
            ClaimLinks::Reserved { expires_at, .. } => Some(expires_at),
            ClaimLinks::Committed { .. } => None,
        }
    }

    /// The request whose committed list holds the claim; a reserved one has none.
    pub open spec fn list(self) -> Option<ReqIdx> {
        match self.links {
            ClaimLinks::Reserved { .. } => None,
            ClaimLinks::Committed { request, .. } => Some(request),
        }
    }

    /// When this claim expires, or `None` if it is committed.
    ///
    /// `None` is not "unknown": a committed claim has no expiry, and its only exits are
    /// settlement confirming or definitively failing.
    pub fn expires_at(&self) -> (r: Option<Ts>)
        ensures
            r == self.expiry(),
    {
        match self.links {
            ClaimLinks::Reserved { expires_at, .. } => Some(expires_at),
            ClaimLinks::Committed { .. } => None,
        }
    }

    /// Whether this claim is committed.
    pub fn is_committed(&self) -> (r: bool)
        ensures
            r == self.list().is_some(),
    {
        match self.links {
            ClaimLinks::Reserved { .. } => false,
            ClaimLinks::Committed { .. } => true,
        }
    }

    /// The request whose committed list holds this claim, or `None` if it is reserved.
    pub fn committed_to(&self) -> (r: Option<ReqIdx>)
        ensures
            r == self.list(),
    {
        match self.links {
            ClaimLinks::Reserved { .. } => None,
            ClaimLinks::Committed { request, .. } => Some(request),
        }
    }

    /// Whether this claim is dead at `now`. Half-open: a claim expiring at exactly `now` is
    /// dead. Only answerable for a reserved claim.
    pub(crate) fn is_expired_at(&self, now: Ts) -> (r: Option<bool>)
        ensures
            r == (match self.expiry() {
                Some(expires_at) => Some(now.0 >= expires_at.0),
                None => None,
            }),
    {
        match self.links {
            ClaimLinks::Reserved { expires_at, .. } => Some(now.0 >= expires_at.0),
            ClaimLinks::Committed { .. } => None,
        }
    }

    /// The chain neighbours, whichever chain this claim is on.
    pub(crate) fn neighbours(&self) -> (r: (Link, Link))
        ensures
            r == (self.links.prev(), self.links.next()),
    {
        match self.links {
            ClaimLinks::Reserved { prev, next, .. } => (prev, next),
            ClaimLinks::Committed { prev, next, .. } => (prev, next),
        }
    }

    /// Replace the link towards the head.
    pub(crate) fn set_prev(&mut self, link: Link)
        ensures
            *final(self) == old(self).relinked(link, old(self).links.next()),
    {
        self.links = match self.links {
            ClaimLinks::Reserved { expires_at, next, .. } => ClaimLinks::Reserved {
                expires_at,
                prev: link,
                next,
            },
            ClaimLinks::Committed { request, next, .. } => ClaimLinks::Committed {
                request,
                prev: link,
                next,
            },
        };
    }

    /// Replace the link away from the head.
    pub(crate) fn set_next(&mut self, link: Link)
        ensures
            *final(self) == old(self).relinked(old(self).links.prev(), link),
    {
        self.links = match self.links {
            ClaimLinks::Reserved { expires_at, prev, .. } => ClaimLinks::Reserved {
                expires_at,
                prev,
                next: link,
            },
            ClaimLinks::Committed { request, prev, .. } => ClaimLinks::Committed {
                request,
                prev,
                next: link,
            },
        };
    }
}

/// **A claim is reserved until an instant or committed to a request, never both**: a reserved one has
/// that expiry, and a committed one has a request and no expiry to die by.
pub proof fn a_claim_expires_or_is_committed(
    claim: &Reservation,
    expires_at: Option<Ts>,
    committed: bool,
    to: Option<ReqIdx>,
)
    requires
        call_ensures(Reservation::expires_at, (claim,), expires_at),
        call_ensures(Reservation::is_committed, (claim,), committed),
        call_ensures(Reservation::committed_to, (claim,), to),
    ensures
        match claim.links {
            ClaimLinks::Reserved { expires_at: until, .. } => {
                &&& expires_at == Some(until)
                &&& !committed
                &&& to is None
            },
            ClaimLinks::Committed { request, .. } => {
                &&& expires_at is None
                &&& committed
                &&& to == Some(request)
            },
        },
{
}

} // verus!
