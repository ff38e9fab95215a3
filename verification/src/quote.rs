//! Quotes: a maker's irrevocable offer on one leg of one request.
//!
//! A quote owns one maker claim, and the two point at each other: a quote not backed by
//! reserved capital is a promise, and promises are worthless here.

use crate::account::{AccountIdx, Link, NIL};
use crate::request::ReqIdx;
use crate::reservation::ResIdx;
use crate::slab::Handle;
use crate::types::{LegId, Price, Size, Ts};
use vstd::prelude::*;

verus! {

/// A generation-carrying handle to a quote.
pub type QuoteIdx = Handle<Quote>;

/// Where a quote is in its life.
#[derive(Clone, Copy, Debug, PartialEq, Eq, Structural)]
pub enum QuoteState {
    /// Standing: it may be selected until it expires.
    Active,
    /// It won its leg at accept; its capital is committed.
    Consumed,
    /// It lost, was replaced, expired, or its request was rejected.
    Released,
}

/// One maker's offer, and the owner side of that maker's claim.
#[derive(Clone, Copy, Debug, PartialEq, Eq)]
pub struct Quote {
    /// Whose capital backs it.
    pub maker: AccountIdx,
    /// The request it answers; `None` for a quote that answers none.
    pub request: Option<ReqIdx>,
    /// The leg of that request it answers.
    pub leg: LegId,
    /// The price of the side the requester is buying.
    pub price: Price,
    /// How many contracts it covers.
    pub size: Size,
    /// When it stops being live. Half-open: dead at exactly this instant.
    pub expires_at: Ts,
    /// Its place in the order of arrival, the tiebreak between equal prices.
    pub arrival: u64,
    /// Where it is in its life.
    pub state: QuoteState,
    /// The maker's claim, or `None` if it has been released.
    pub claim: Option<ResIdx>,
    /// The next quote on the same leg's chain.
    pub next_on_leg: Link,
}

impl Default for Quote {
    fn default() -> (r: Self)
        ensures
            r == Quote::bare(),
    {
        Quote::new()
    }
}

impl Quote {
    /// A quote on no request, owning no claim.
    pub open spec fn bare() -> Self {
        Quote {
            maker: AccountIdx(0),
            request: None,
            leg: LegId(0),
            price: Price(0),
            size: Size(0),
            expires_at: Ts(0),
            arrival: 0,
            state: QuoteState::Active,
            claim: None,
            next_on_leg: Link(NIL),
        }
    }

    /// A quote owning no claim yet.
    pub fn new() -> (r: Self)
        ensures
            r == Quote::bare(),
    {
        Quote {
            maker: AccountIdx(0),
            request: None,
            leg: LegId(0),
            price: Price(0),
            size: Size(0),
            expires_at: Ts(0),
            arrival: 0,
            state: QuoteState::Active,
            claim: None,
            next_on_leg: Link(NIL),
        }
    }

    /// The maker's claim, if it still holds one.
    pub fn claim(&self) -> (r: Option<ResIdx>)
        ensures
            r == self.claim,
    {
        self.claim
    }

    /// Point the quote at its claim, or at none.
    pub(crate) fn set_claim(&mut self, claim: Option<ResIdx>)
        ensures
            *final(self) == (Quote { claim, ..*old(self) }),
    {
        self.claim = claim;
    }

    /// Whose capital backs it.
    pub fn maker(&self) -> (r: AccountIdx)
        ensures
            r == self.maker,
    {
        self.maker
    }

    /// The request it answers, if any.
    pub fn request(&self) -> (r: Option<ReqIdx>)
        ensures
            r == self.request,
    {
        self.request
    }

    /// The leg it answers.
    pub fn leg(&self) -> (r: LegId)
        ensures
            r == self.leg,
    {
        self.leg
    }

    /// The price.
    pub fn price(&self) -> (r: Price)
        ensures
            r == self.price,
    {
        self.price
    }

    /// The size.
    pub fn size(&self) -> (r: Size)
        ensures
            r == self.size,
    {
        self.size
    }

    /// When it stops being live.
    pub fn expires_at(&self) -> (r: Ts)
        ensures
            r == self.expires_at,
    {
        self.expires_at
    }

    /// Its place in the order of arrival.
    pub fn arrival(&self) -> (r: u64)
        ensures
            r == self.arrival,
    {
        self.arrival
    }

    /// Where it is in its life.
    pub fn state(&self) -> (r: QuoteState)
        ensures
            r == self.state,
    {
        self.state
    }

    /// Live at `now`: standing, and not yet expired.
    pub open spec fn live_at(self, now: Ts) -> bool {
        self.state == QuoteState::Active && now.0 < self.expires_at.0
    }

    /// Whether the quote may still be selected at `now`.
    pub fn is_live_at(&self, now: Ts) -> (r: bool)
        ensures
            r == self.live_at(now),
    {
        self.state == QuoteState::Active && now.0 < self.expires_at.0
    }
}

/// **A quote is live while it stands and before it expires**, and at its expiry no longer.
pub proof fn a_quote_is_live_before_its_expiry(quote: &Quote, now: Ts, r: bool)
    requires
        call_ensures(Quote::is_live_at, (quote, now), r),
    ensures
        quote.state == QuoteState::Active && now.0 < quote.expires_at.0 ==> r,
        quote.state != QuoteState::Active || now.0 >= quote.expires_at.0 ==> !r,
{
}

/// A fresh quote stands, for nobody, on no request and with no claim.
pub proof fn a_fresh_quote_is_nobodys(r: Quote)
    requires
        call_ensures(Quote::new, (), r),
    ensures
        r.state == QuoteState::Active,
        r.request is None,
        r.claim is None,
        r.next_on_leg == Link(NIL),
        r.price.0 == 0 && r.size.0 == 0 && r.expires_at.0 == 0 && r.arrival == 0,
{
}

} // verus!
