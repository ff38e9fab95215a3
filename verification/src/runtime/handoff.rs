//! The hand-offs out of the engine thread.
//!
//! The engine produces two streams that leave its thread: **events**, for whoever is watching,
//! and the **command log**, which replay reconstructs engine state from. Each leaves on a bounded
//! queue to a worker that does nothing but receive, and the engine never waits on either.
//!
//! The two streams need different answers to a full queue. Events are best-effort: a refused event
//! is a lost message, counted, and the sequence gap exposes it. The command log is not: a lost
//! entry is a lost guarantee, so dropping is not available and blocking is forbidden, which leaves
//! halting.

use crate::event::Event;
use crate::runtime::event_ring::{counted_up, Sequenced, SequencedEvent};
use vstd::prelude::*;

verus! {

/// Why the engine stopped applying commands.
#[derive(Clone, Copy, Debug, PartialEq, Eq, Structural)]
pub enum HaltReason {
    /// Every command sender was dropped. The ordinary end of a round.
    ChannelClosed,
    /// The command log's queue is full, so the next entry could not be recorded.
    ///
    /// Continuing would apply commands that replay can never reproduce. Halting is the
    /// deliberate choice of durability over availability.
    LogUnrecordable,
}

/// What has left the engine thread, and whether anything more may.
#[derive(Clone, Copy, Debug, PartialEq, Eq, Structural)]
pub struct Handoff {
    /// The sequence number the next event gets.
    pub next: u64,
    /// Events the queue took.
    pub emitted: u64,
    /// Events the queue refused.
    pub dropped: u64,
    /// Why the engine stopped, if it has.
    pub halted: Option<HaltReason>,
}

/// The number the `k`-th event from `from` on gets, clamped at the largest.
pub open spec fn numbered_from(from: u64, k: int) -> u64 {
    (if from + k <= u64::MAX {
        from + k
    } else {
        u64::MAX as int
    }) as u64
}

/// `events` numbered from `from` on, in order.
pub open spec fn stamped(from: u64, events: Seq<Event>) -> Seq<SequencedEvent> {
    Seq::new(
        events.len(),
        |k: int| Sequenced { sequence: numbered_from(from, k), event: events[k] },
    )
}

impl Handoff {
    /// Nothing has left.
    pub open spec fn fresh() -> Self {
        Handoff { next: 0, emitted: 0, dropped: 0, halted: None }
    }

    /// After `n` events are numbered.
    pub open spec fn after_stamping(self, n: nat) -> Self {
        Handoff { next: numbered_from(self.next, n as int), ..self }
    }

    /// After an event is offered to its queue.
    pub open spec fn after_event(self, taken: bool) -> Self {
        if taken {
            Handoff { emitted: counted_up(self.emitted), ..self }
        } else {
            Handoff { dropped: counted_up(self.dropped), ..self }
        }
    }

    /// After a log entry is offered to its queue: one refused halts the engine.
    pub open spec fn after_entry(self, taken: bool) -> Self {
        if taken || self.halted is Some {
            self
        } else {
            Handoff { halted: Some(HaltReason::LogUnrecordable), ..self }
        }
    }

    /// After the last command sender is gone.
    pub open spec fn after_closing(self) -> Self {
        if self.halted is Some {
            self
        } else {
            Handoff { halted: Some(HaltReason::ChannelClosed), ..self }
        }
    }

    /// Nothing has left yet.
    pub fn new() -> (r: Self)
        ensures
            r == Handoff::fresh(),
    {
        Handoff { next: 0, emitted: 0, dropped: 0, halted: None }
    }

    /// Number `events` in the order they were emitted, before any of them is offered: a gap is
    /// then visible to a consumer whatever was lost and wherever it was lost.
    pub fn stamp(&mut self, events: Vec<Event>) -> (r: Vec<SequencedEvent>)
        ensures
            r@ == stamped(old(self).next, events@),
            *final(self) == old(self).after_stamping(events@.len()),
    {
        let mut numbered: Vec<SequencedEvent> = Vec::with_capacity(events.len());
        let n: usize = events.len();
        let mut k: usize = 0;
        let ghost from = self.next;
        while k < n
            invariant
                k <= n == events@.len(),
                numbered@ == stamped(from, events@).take(k as int),
                from == old(self).next,
                *self == old(self).after_stamping(k as nat),
            decreases n - k,
        {
            numbered.push(Sequenced { sequence: self.next, event: events[k] });
            self.next = self.next.saturating_add(1);
            k += 1;
            proof {
                assert(numbered@ =~= stamped(from, events@).take(k as int));
            }
        }
        proof {
            assert(stamped(from, events@).take(n as int) =~= stamped(from, events@));
        }
        numbered
    }

    /// An event was offered to its queue. **A full event queue never halts.**
    pub fn event_offered(&mut self, taken: bool)
        ensures
            *final(self) == old(self).after_event(taken),
    {
        if taken {
            self.emitted = self.emitted.saturating_add(1);
        } else {
            self.dropped = self.dropped.saturating_add(1);
        }
    }

    /// A log entry was offered to its queue. **A full log queue always halts.**
    pub fn entry_offered(&mut self, taken: bool)
        ensures
            *final(self) == old(self).after_entry(taken),
    {
        if !taken && self.halted.is_none() {
            self.halted = Some(HaltReason::LogUnrecordable);
        }
    }

    /// Every command sender is gone.
    pub fn commands_closed(&mut self)
        ensures
            *final(self) == old(self).after_closing(),
    {
        if self.halted.is_none() {
            self.halted = Some(HaltReason::ChannelClosed);
        }
    }

    /// Whether the engine may apply another command.
    pub fn may_apply(&self) -> (r: bool)
        ensures
            r == self.halted is None,
    {
        self.halted.is_none()
    }
}

impl Default for Handoff {
    fn default() -> (r: Self)
        ensures
            r == Handoff::fresh(),
    {
        Handoff::new()
    }
}

/// **Every event is accounted for**: while the counts hold, what the queue took and what it
/// refused add up to what was numbered.
pub proof fn every_event_is_accounted_for(handoff: Handoff, taken: bool)
    requires
        handoff.emitted + handoff.dropped == handoff.next,
        handoff.next < u64::MAX,
    ensures
        ({
            let after = handoff.after_stamping(1).after_event(taken);
            after.emitted + after.dropped == after.next
        }),
{
}

/// **A halt is final, and only the log or the end of the commands brings one**: a refused event
/// changes nothing but a count.
pub proof fn a_halt_is_final(handoff: Handoff, taken: bool, n: nat)
    ensures
        handoff.after_event(taken).halted == handoff.halted,
        handoff.after_stamping(n).halted == handoff.halted,
        handoff.after_entry(true) == handoff,
        handoff.after_entry(false).halted is Some,
        handoff.halted is Some ==> handoff.after_entry(taken) == handoff
            && handoff.after_closing() == handoff,
{
}

/// **Every event is numbered in turn**: from the next number on, one apart, in the order they came.
pub proof fn events_are_numbered_in_turn(events: Vec<Event>, r: Vec<SequencedEvent>)
    ensures
        forall|handoff: &mut Handoff| #[trigger]
            call_ensures(Handoff::stamp, (handoff, events), r) && (*handoff).next + events@.len()
                <= 0xffff_ffff_ffff_ffff ==> {
                &&& r@.len() == events@.len()
                &&& forall|k: int|
                    0 <= k < events@.len() ==> (#[trigger] r@[k]).event == events@[k]
                        && r@[k].sequence == (*handoff).next + k
                &&& final(handoff).next == (*handoff).next + events@.len()
                &&& final(handoff).emitted == (*handoff).emitted
                &&& final(handoff).dropped == (*handoff).dropped
                &&& final(handoff).halted == (*handoff).halted
            },
{
}

/// **An event taken is counted as emitted, and one that is not as dropped**; only a log entry that is
/// not taken, or the end of the commands, halts the venue, and the first reason stays.
pub proof fn what_is_offered_is_counted(taken: bool)
    ensures
        forall|handoff: &mut Handoff| #[trigger]
            call_ensures(Handoff::event_offered, (handoff, taken), ()) ==> {
                let more: int = if taken {
                    1
                } else {
                    0
                };
                &&& final(handoff).next == (*handoff).next
                &&& final(handoff).halted == (*handoff).halted
                &&& (*handoff).emitted < 0xffff_ffff_ffff_ffff ==> final(handoff).emitted == (
                *handoff).emitted + more
                &&& (*handoff).dropped < 0xffff_ffff_ffff_ffff ==> final(handoff).dropped == (
                *handoff).dropped + 1 - more
            },
        forall|handoff: &mut Handoff| #[trigger]
            call_ensures(Handoff::entry_offered, (handoff, taken), ()) ==> {
                &&& final(handoff).next == (*handoff).next
                &&& final(handoff).emitted == (*handoff).emitted
                &&& final(handoff).dropped == (*handoff).dropped
                &&& final(handoff).halted == (if !taken && (*handoff).halted is None {
                    Some(HaltReason::LogUnrecordable)
                } else {
                    (*handoff).halted
                })
            },
        forall|handoff: &mut Handoff| #[trigger]
            call_ensures(Handoff::commands_closed, (handoff,), ()) ==> {
                &&& final(handoff).next == (*handoff).next
                &&& final(handoff).emitted == (*handoff).emitted
                &&& final(handoff).dropped == (*handoff).dropped
                &&& final(handoff).halted == (if (*handoff).halted is None {
                    Some(HaltReason::ChannelClosed)
                } else {
                    (*handoff).halted
                })
            },
{
}

} // verus!
