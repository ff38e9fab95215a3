//! Requests: one or more legs a requester wants filled together or not at all.
//!
//! A request owns the requester's claim and holds the **committed list**: the one place both
//! sides of a trade in `Settling` are attached.

use crate::account::{AccountIdx, Link, NIL};
use crate::config::MAX_LEGS;
use crate::contract::ContractIdx;
use crate::quote::QuoteIdx;
use crate::reservation::ResIdx;
use crate::slab::Handle;
use crate::types::{LegId, Price, Side, Size, Ts};
use vstd::prelude::*;

verus! {

/// A generation-carrying handle to a request.
///
/// The generation is not bookkeeping: index and generation together **are** the settlement
/// nonce. A request slot reused after its predecessor was freed yields a different generation,
/// so nonces are never reused even though indices are.
pub type ReqIdx = Handle<Request>;

/// The identity of one settlement: a request's slot index and generation.
#[derive(Clone, Copy, Debug, PartialEq, Eq, Structural, PartialOrd, Ord)]
pub struct Nonce {
    pub request: u32,
    pub generation: u32,
}

impl Nonce {
    /// The nonce of a request.
    pub open spec fn naming(request: ReqIdx) -> Self {
        Nonce { request: request.index(), generation: request.generation() }
    }

    /// The nonce of a request.
    pub fn of(request: ReqIdx) -> (r: Self)
        ensures
            r == Nonce::naming(request),
    {
        Nonce { request: request.index(), generation: request.generation() }
    }
}

/// Where a request is in its life. `Expired` is derived, never stored: a request is expired
/// if and only if it is open and its deadline has passed.
#[derive(Clone, Copy, Debug, PartialEq, Eq, Structural)]
pub enum RequestState {
    /// Collecting quotes.
    Open,
    /// Accepted; both sides' capital is committed until the nonce's fate is known.
    Settling {
        /// The settlement's identity.
        nonce: Nonce,
        /// When an unanswered settlement starts to alert. An alert, never an abort.
        deadline: Ts,
    },
    /// Settled into escrow.
    Escrowed,
    /// Withdrawn by the requester.
    Rejected,
    /// The settlement definitively reverted.
    SettlementFailed,
}

impl RequestState {
    /// Whether no transition leaves this state.
    pub open spec fn terminal(self) -> bool {
        self is Escrowed || self is Rejected || self is SettlementFailed
    }

    /// Whether no transition leaves this state.
    pub fn is_terminal(self) -> (r: bool)
        ensures
            r == self.terminal(),
    {
        match self {
            RequestState::Open => false,
            RequestState::Settling { .. } => false,
            RequestState::Escrowed => true,
            RequestState::Rejected => true,
            RequestState::SettlementFailed => true,
        }
    }

    /// The settlement in flight, if there is one.
    pub fn nonce(self) -> (r: Option<Nonce>)
        ensures
            r == (match self {
                RequestState::Settling { nonce, .. } => Some(nonce),
                _ => None,
            }),
    {
        match self {
            RequestState::Settling { nonce, .. } => Some(nonce),
            _ => None,
        }
    }
}

/// The best eligible quote on a leg, and its price.
#[derive(Clone, Copy, Debug)]
pub struct Selection {
    pub quote: QuoteIdx,
    pub price: Price,
}

impl PartialEq for Selection {
    fn eq(&self, other: &Self) -> (r: bool) {
        self.quote == other.quote && self.price == other.price
    }
}

impl vstd::std_specs::cmp::PartialEqSpecImpl for Selection {
    open spec fn obeys_eq_spec() -> bool {
        true
    }

    open spec fn eq_spec(&self, other: &Self) -> bool {
        *self == *other
    }
}

impl Eq for Selection {

}

/// One leg of a request.
#[derive(Clone, Copy, Debug, PartialEq, Eq)]
pub struct Leg {
    /// The contract.
    pub contract: ContractIdx,
    /// The side the requester is buying.
    pub side: Side,
    /// How many contracts.
    pub size: Size,
    /// The worst price the requester authorises. Private: makers never see it.
    pub limit: Price,
    /// Head of the chain of quotes on this leg.
    pub quotes_head: Link,
    /// How many quotes are on that chain.
    pub quote_count: u8,
    /// The best price last published to the requester, a cache for the presentation feed and
    /// never an input to a fill.
    pub published: Option<Price>,
}

impl Default for Leg {
    fn default() -> (r: Self)
        ensures
            r == Leg::blank(),
    {
        Leg {
            contract: ContractIdx(0),
            side: Side::Yes,
            size: Size(0),
            limit: Price(0),
            quotes_head: Link(NIL),
            quote_count: 0,
            published: None,
        }
    }
}

impl Leg {
    /// A leg nobody asked for, filling the unused places of a leg array.
    pub open spec fn blank() -> Self {
        Leg {
            contract: ContractIdx(0),
            side: Side::Yes,
            size: Size(0),
            limit: Price(0),
            quotes_head: Link(NIL),
            quote_count: 0,
            published: None,
        }
    }

    /// The contract.
    pub fn contract(&self) -> (r: ContractIdx)
        ensures
            r == self.contract,
    {
        self.contract
    }

    /// The side the requester is buying.
    pub fn side(&self) -> (r: Side)
        ensures
            r == self.side,
    {
        self.side
    }

    /// How many contracts.
    pub fn size(&self) -> (r: Size)
        ensures
            r == self.size,
    {
        self.size
    }

    /// The worst price the requester authorises.
    pub fn limit(&self) -> (r: Price)
        ensures
            r == self.limit,
    {
        self.limit
    }

    /// How many quotes are on the leg's chain.
    pub fn quote_count(&self) -> (r: u8)
        ensures
            r == self.quote_count,
    {
        self.quote_count
    }
}

/// The owner side of the requester's claim, the head of the committed list, and the legs.
#[derive(Clone, Copy, Debug, PartialEq, Eq)]
pub struct Request {
    /// Who asks.
    pub requester: AccountIdx,
    /// When quoting and accepting close. Half-open: closed at exactly this instant.
    pub deadline: Ts,
    /// Where it is in its life.
    pub state: RequestState,
    /// The legs; the first `n_legs` are real.
    pub legs: [Leg; MAX_LEGS],
    /// How many legs are real.
    pub n_legs: u8,
    /// The requester's own claim, or `None` if it has been released.
    pub claim: Option<ResIdx>,
    /// Head of this request's committed list. No tail: the list is unordered, insertion is at
    /// the head, and nothing ever asks for its last element.
    pub committed_head: Link,
}

impl Default for Request {
    fn default() -> (r: Self)
        ensures
            r == Request::bare(),
    {
        Request::new()
    }
}

impl Request {
    /// A request with no legs, owning nothing.
    pub open spec fn bare() -> Self {
        Request {
            requester: AccountIdx(0),
            deadline: Ts(0),
            state: RequestState::Open,
            legs: [Leg::blank(); MAX_LEGS],
            n_legs: 0,
            claim: None,
            committed_head: Link(NIL),
        }
    }

    /// The request without the head of its committed list.
    pub open spec fn unthreaded(self) -> Self {
        Request { committed_head: Link(NIL), ..self }
    }

    /// A request owning nothing yet.
    pub fn new() -> (r: Self)
        ensures
            r == Request::bare(),
    {
        let blank = Leg::default();
        let legs: [Leg; MAX_LEGS] = [blank; MAX_LEGS];
        Request {
            requester: AccountIdx(0),
            deadline: Ts(0),
            state: RequestState::Open,
            legs,
            n_legs: 0,
            claim: None,
            committed_head: Link(NIL),
        }
    }

    /// The requester's claim, if it still holds one.
    pub fn claim(&self) -> (r: Option<ResIdx>)
        ensures
            r == self.claim,
    {
        self.claim
    }

    /// Point the request at its claim, or at none.
    pub(crate) fn set_claim(&mut self, claim: Option<ResIdx>)
        ensures
            *final(self) == (Request { claim, ..*old(self) }),
    {
        self.claim = claim;
    }

    /// Who asks.
    pub fn requester(&self) -> (r: AccountIdx)
        ensures
            r == self.requester,
    {
        self.requester
    }

    /// When quoting and accepting close.
    pub fn deadline(&self) -> (r: Ts)
        ensures
            r == self.deadline,
    {
        self.deadline
    }

    /// Where it is in its life.
    pub fn state(&self) -> (r: RequestState)
        ensures
            r == self.state,
    {
        self.state
    }

    /// How many legs are real.
    pub fn n_legs(&self) -> (r: u8)
        ensures
            r == self.n_legs,
    {
        self.n_legs
    }

    /// A leg, if the request has that many.
    pub fn leg(&self, leg: LegId) -> (r: Option<&Leg>)
        ensures
            match r {
                Some(found) => leg.0 < self.n_legs && leg.0 < MAX_LEGS && *found
                    == self.legs@[leg.0 as int],
                None => !(leg.0 < self.n_legs && leg.0 < MAX_LEGS),
            },
    {
        if leg.0 < self.n_legs && (leg.0 as usize) < MAX_LEGS {
            Some(&self.legs[leg.0 as usize])
        } else {
            None
        }
    }

    /// Expired at `now`: still open, and the deadline has passed.
    pub open spec fn expired_at(self, now: Ts) -> bool {
        self.state == RequestState::Open && now.0 >= self.deadline.0
    }

    /// Whether the request is expired at `now`. Derived, never stored, so no scheduler timing
    /// can decide it.
    pub fn is_expired_at(&self, now: Ts) -> (r: bool)
        ensures
            r == self.expired_at(now),
    {
        self.state == RequestState::Open && now.0 >= self.deadline.0
    }
}

/// **An open request has expired from its deadline on**, and one that is not open never does.
pub proof fn a_request_expires_at_its_deadline(request: &Request, now: Ts, r: bool)
    requires
        call_ensures(Request::is_expired_at, (request, now), r),
    ensures
        request.state == RequestState::Open && now.0 >= request.deadline.0 ==> r,
        request.state != RequestState::Open || now.0 < request.deadline.0 ==> !r,
{
}

/// **A request is over once it is escrowed, rejected or failed**; one that settles is known by its
/// nonce, and no other is. A nonce is the slot and the generation of its request.
pub proof fn a_request_is_over_or_not(
    state: RequestState,
    request: ReqIdx,
    terminal: bool,
    nonce: Option<Nonce>,
    naming: Nonce,
)
    requires
        call_ensures(RequestState::is_terminal, (state,), terminal),
        call_ensures(RequestState::nonce, (state,), nonce),
        call_ensures(Nonce::of, (request,), naming),
    ensures
        match state {
            RequestState::Open => !terminal && nonce is None,
            RequestState::Settling { nonce: own, .. } => !terminal && nonce == Some(own),
            RequestState::Escrowed => terminal && nonce is None,
            RequestState::Rejected => terminal && nonce is None,
            RequestState::SettlementFailed => terminal && nonce is None,
        },
        naming.request == request.index(),
        naming.generation == request.generation(),
{
}

/// A fresh request is open, with no legs and no claim.
pub proof fn a_fresh_request_asks_nothing(r: Request)
    requires
        call_ensures(Request::new, (), r),
    ensures
        r.state == RequestState::Open,
        r.n_legs == 0,
        r.claim is None,
        r.committed_head == Link(NIL),
        r.deadline.0 == 0,
{
}

} // verus!
