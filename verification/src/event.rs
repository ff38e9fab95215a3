//! The event set.
//!
//! Events are the engine's only output. A command performs no I/O and writes into a
//! caller-provided buffer whose headroom is checked before anything is committed.
//!
//! [`Event::SubmitIntent`] and [`Event::SettleIntent`] are the **only** paths from the engine to
//! custody. They are events rather than calls because settlement is never invoked inside a
//! command, and they carry everything custody needs: it cannot reach back into the engine.

use crate::account::AccountIdx;
use crate::config::MAX_LEGS;
use crate::contract::{ContractIdx, Outcome};
use crate::escrow::EscrowId;
use crate::quote::QuoteIdx;
use crate::request::{Nonce, ReqIdx};
use crate::settlement::TxStatus;
use crate::types::{LegId, Price, Side, Size, Ts};
use vstd::prelude::*;

verus! {

/// One leg of a request, as broadcast to makers.
///
/// **No limit price.** Makers receive the terms they need to price and nothing more: a revealed
/// reserve shades quotes toward the limit rather than toward the maker's true best price.
#[derive(Clone, Copy, Debug, PartialEq, Eq, Structural)]
pub struct OpenLeg {
    /// The contract. The publisher resolves this to the verbatim description.
    pub contract: ContractIdx,
    /// The side the requester is buying, so a maker knows which side they would take.
    pub side: Side,
    /// How much.
    pub size: Size,
}

impl OpenLeg {
    /// A leg nothing has been written into.
    pub open spec fn blank() -> Self {
        OpenLeg { contract: ContractIdx(0), side: Side::Yes, size: Size(0) }
    }
}

impl Default for OpenLeg {
    fn default() -> (r: Self)
        ensures
            r == OpenLeg::blank(),
    {
        OpenLeg { contract: ContractIdx(0), side: Side::Yes, size: Size(0) }
    }
}

/// One leg of a settlement bundle, as handed to custody.
#[derive(Clone, Copy, Debug, PartialEq, Eq, Structural)]
pub struct IntentLeg {
    /// The contract the escrow forms on.
    pub contract: ContractIdx,
    /// The side the requester bought: what the payout mapping consumes.
    pub side: Side,
    /// The size.
    pub size: Size,
    /// The winning maker.
    pub maker: AccountIdx,
    /// The fill price. Both contributions derive from it exactly.
    pub fill_price: Price,
    /// The winning quote's expiry. Custody revalidates it against **its own clock**.
    pub quote_expiry: Ts,
}

impl IntentLeg {
    /// A leg nothing has been written into.
    pub open spec fn blank() -> Self {
        IntentLeg {
            contract: ContractIdx(0),
            side: Side::Yes,
            size: Size(0),
            maker: AccountIdx(0),
            fill_price: Price(0),
            quote_expiry: Ts(0),
        }
    }
}

impl Default for IntentLeg {
    fn default() -> (r: Self)
        ensures
            r == IntentLeg::blank(),
    {
        IntentLeg {
            contract: ContractIdx(0),
            side: Side::Yes,
            size: Size(0),
            maker: AccountIdx(0),
            fill_price: Price(0),
            quote_expiry: Ts(0),
        }
    }
}

/// Why a quote was rejected.
#[derive(Clone, Copy, Debug, PartialEq, Eq, Structural)]
pub enum QuoteRejectReason {
    /// A better quote won the leg at accept.
    Outbid,
    /// The maker replaced this quote with a better one of their own.
    Replaced,
    /// The requester withdrew the request.
    RequestRejected,
    /// The quote won, and the settlement of its request reverted.
    SettlementFailed,
}

/// Something the engine did, for whoever is listening.
#[allow(inconsistent_fields)]
#[derive(Clone, Copy, Debug, PartialEq, Eq)]
pub enum Event {
    /// A request is open. Fanned out to makers: without it no maker learns a request exists.
    RequestOpened {
        /// Which request.
        request: ReqIdx,
        /// When quoting closes.
        deadline: Ts,
        /// The legs, without their limit prices.
        legs: [OpenLeg; MAX_LEGS],
        /// How many are real.
        n_legs: u8,
    },
    /// The best eligible selection on one leg changed, published to the requester on **quote
    /// arrival**, the only point at which the engine emits it.
    ///
    /// The feed is eventually consistent by design: when the best quote expires and nothing new
    /// arrives, no event is published. That is safe, because an accept carries the prices the
    /// requester saw and fills at-or-better.
    BestSelectionChanged {
        /// Which request.
        request: ReqIdx,
        /// Which leg.
        leg: LegId,
        /// The new best price.
        price: Price,
    },
    /// A quote lost and its reservation was released. Makers are never left inferring the fate
    /// of their capital from silence.
    QuoteRejected {
        /// The quote.
        quote: QuoteIdx,
        /// Its maker, so the publisher can route the notice.
        maker: AccountIdx,
        /// Why.
        reason: QuoteRejectReason,
    },
    /// A quote died of expiry. Emitted **only** when its request is accepted.
    QuoteExpired {
        /// The quote.
        quote: QuoteIdx,
        /// Its maker.
        maker: AccountIdx,
    },
    /// A complete bundle and its nonce, for custody.
    ///
    /// Escrow does not exist yet. Until settlement confirms both sides' capital is `committed`
    /// and may not be released on a guess.
    SubmitIntent {
        /// The request being settled.
        request: ReqIdx,
        /// The request's slot and generation: unique and deterministic without hashing.
        nonce: Nonce,
        /// The requester, who is debited the sum of `size * fill_price`.
        requester: AccountIdx,
        /// The legs.
        legs: [IntentLeg; MAX_LEGS],
        /// How many are real.
        n_legs: u8,
    },
    /// A request is past its settling deadline and its nonce has no final answer. An alert,
    /// never a state change.
    SettlementStalled {
        /// The request being settled.
        request: ReqIdx,
        /// Its nonce.
        nonce: Nonce,
        /// What is known of it.
        status: TxStatus,
    },
    /// A contract's outcome is final.
    ContractResolved {
        /// Which contract.
        contract: ContractIdx,
        /// How it ended.
        outcome: Outcome,
    },
    /// An escrow is to be paid out under an outcome, for custody.
    SettleIntent {
        /// Which escrow.
        escrow: EscrowId,
        /// The contract it is claimed to rest on. Custody checks.
        contract: ContractIdx,
        /// The outcome the engine derived.
        outcome: Outcome,
    },
}

/// The caller-provided event buffer.
///
/// The buffer is a type rather than a bare `Vec` so that the two halves of the discipline are
/// separate: [`EventBuffer::headroom`] is fallible and belongs before anything is committed;
/// [`EventBuffer::push`] is infallible and belongs in the commit phase.
#[derive(Debug)]
pub struct EventBuffer {
    events: Vec<Event>,
    capacity: usize,
}

/// The buffer cannot hold what the command would emit.
#[derive(Clone, Copy, Debug, PartialEq, Eq, Structural)]
pub struct EventBufferFull;

impl Default for EventBuffer {
    fn default() -> (r: Self)
        ensures
            r.wf(),
            r@ == Seq::<Event>::empty(),
            r.room() == 0,
    {
        EventBuffer::with_capacity(0)
    }
}

impl EventBuffer {
    /// The events written and not yet drained, in order.
    pub closed spec fn view(&self) -> Seq<Event> {
        self.events@
    }

    /// How many events the buffer holds at most.
    pub closed spec fn room(&self) -> nat {
        self.capacity as nat
    }

    /// The buffer holds no more than its room.
    pub closed spec fn wf(&self) -> bool {
        self.events@.len() <= self.capacity
    }

    /// What a well-formed buffer is.
    pub proof fn wf_model(&self)
        requires
            self.wf(),
        ensures
            self@.len() <= self.room(),
            self.room() <= usize::MAX,
    {
    }

    /// Whether `needed` more events fit.
    pub open spec fn fits(&self, needed: nat) -> bool {
        self@.len() + needed <= self.room()
    }

    /// Preallocate room for `capacity` events.
    pub fn with_capacity(capacity: usize) -> (r: Self)
        ensures
            r.wf(),
            r@ == Seq::<Event>::empty(),
            r.room() == capacity,
    {
        EventBuffer { events: Vec::with_capacity(capacity), capacity }
    }

    /// Room, fixed at construction.
    pub fn capacity(&self) -> (r: usize)
        ensures
            r == self.room(),
    {
        self.capacity
    }

    /// Events written and not yet drained.
    pub fn len(&self) -> (r: usize)
        ensures
            r == self@.len(),
    {
        self.events.len()
    }

    /// Whether nothing has been written.
    pub fn is_empty(&self) -> (r: bool)
        ensures
            r == (self@.len() == 0),
    {
        self.events.len() == 0
    }

    /// Assert room for `needed` more events before committing to emit them.
    pub fn headroom(&self, needed: usize) -> (r: Result<(), EventBufferFull>)
        ensures
            r == (if self.fits(needed as nat) {
                Ok::<(), EventBufferFull>(())
            } else {
                Err::<(), EventBufferFull>(EventBufferFull)
            }),
    {
        match self.events.len().checked_add(needed) {
            Some(total) => if total <= self.capacity {
                Ok(())
            } else {
                Err(EventBufferFull)
            },
            None => Err(EventBufferFull),
        }
    }

    /// Write an event. Infallible, and never grows the buffer: the check phase verified headroom.
    pub fn push(&mut self, event: Event)
        requires
            old(self).wf(),
            old(self).fits(1),
        ensures
            final(self).wf(),
            final(self)@ == old(self)@.push(event),
            final(self).room() == old(self).room(),
    {
        self.events.push(event);
    }

    /// Take everything written, leaving the buffer empty and its capacity untouched.
    pub fn drain(&mut self) -> (r: Vec<Event>)
        ensures
            final(self).wf(),
            r@ == old(self)@,
            final(self)@ == Seq::<Event>::empty(),
            final(self).room() == old(self).room(),
    {
        let mut taken: Vec<Event> = Vec::new();
        let mut i: usize = 0;
        while i < self.events.len()
            invariant
                i <= self.events@.len(),
                taken@ == self.events@.take(i as int),
                *self == *old(self),
            decreases self.events@.len() - i,
        {
            taken.push(self.events[i]);
            i += 1;
        }
        proof {
            assert(taken@ =~= self.events@);
        }
        self.events.clear();
        taken
    }

    /// Discard everything written.
    pub fn clear(&mut self)
        ensures
            final(self).wf(),
            final(self)@ == Seq::<Event>::empty(),
            final(self).room() == old(self).room(),
    {
        self.events.clear();
    }
}

/// **Events are taken as long as there is room, and handed over once, in order.**
pub proof fn events_are_kept_in_order(
    buffer: &EventBuffer,
    needed: usize,
    fits: Result<(), EventBufferFull>,
    event: Event,
    drained: Vec<Event>,
)
    requires
        call_ensures(EventBuffer::headroom, (buffer, needed), fits),
    ensures
        fits is Ok <==> buffer@.len() + needed <= buffer.room(),
        forall|events: &mut EventBuffer| #[trigger]
            call_ensures(EventBuffer::push, (events, event), ()) ==> {
                &&& final(events)@.len() == (*events)@.len() + 1
                &&& final(events)@.last() == event
                &&& forall|k: int|
                    0 <= k < (*events)@.len() ==> #[trigger] final(events)@[k] == (*events)@[k]
                &&& final(events).room() == (*events).room()
            },
        forall|events: &mut EventBuffer| #[trigger]
            call_ensures(EventBuffer::drain, (events,), drained) ==> {
                &&& drained@ == (*events)@
                &&& final(events)@.len() == 0
                &&& final(events).room() == (*events).room()
            },
{
}

} // verus!
