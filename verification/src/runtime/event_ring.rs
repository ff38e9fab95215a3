//! The event queue: bounded, **drop-oldest**, sequence-numbered.
//!
//! Backpressure is drop-oldest, never block. Blocking the sole writer on a full queue would let
//! one slow consumer stall the entire venue, so a full ring overwrites its oldest entry and the
//! writer returns immediately.
//!
//! Every event ever pushed gets the next sequence number, **including the ones that are later
//! evicted**. A consumer seeing 5, 6, then 12 knows 7 through 11 existed and were dropped.

use crate::event::Event;
use vstd::prelude::*;

verus! {

/// A payload with the position it occupied in the total order.
#[derive(Clone, Copy, Debug, PartialEq, Eq)]
pub struct Sequenced<T> {
    /// Position in the total order of everything ever pushed. Gaps mean eviction, not
    /// reordering.
    pub sequence: u64,
    /// What happened.
    pub event: T,
}

/// The engine's events, sequenced.
pub type SequencedEvent = Sequenced<Event>;

/// What a ring holds.
#[verifier::ext_equal]
pub struct RingView<T> {
    /// The entries waiting, oldest first.
    pub waiting: Seq<Sequenced<T>>,
    /// How many entries fit.
    pub capacity: nat,
    /// The sequence number the next entry gets.
    pub next: u64,
    /// How many entries were evicted unread.
    pub dropped: u64,
}

/// One more, clamped at the largest count.
pub open spec fn counted_up(count: u64) -> u64 {
    if count < u64::MAX {
        (count + 1) as u64
    } else {
        u64::MAX
    }
}

impl<T> RingView<T> {
    /// A ring nothing was pushed to.
    pub open spec fn empty(capacity: nat) -> Self {
        RingView { waiting: Seq::empty(), capacity, next: 0, dropped: 0 }
    }

    /// After a push: the newest entry waits last, and a full ring loses its oldest.
    pub open spec fn pushed(self, event: T) -> Self {
        let entry = Sequenced { sequence: self.next, event };
        RingView {
            waiting: if self.waiting.len() == self.capacity {
                self.waiting.drop_first().push(entry)
            } else {
                self.waiting.push(entry)
            },
            next: counted_up(self.next),
            dropped: if self.waiting.len() == self.capacity {
                counted_up(self.dropped)
            } else {
                self.dropped
            },
            ..self
        }
    }

    /// After the oldest waiting entry is taken.
    pub open spec fn popped(self) -> Self {
        RingView {
            waiting: if self.waiting.len() > 0 {
                self.waiting.drop_first()
            } else {
                self.waiting
            },
            ..self
        }
    }

    /// What waits is numbered without a gap, up to the number given last.
    pub open spec fn numbered(self) -> bool {
        self.next < u64::MAX ==> forall|k: int|
            0 <= k < self.waiting.len() ==> (#[trigger] self.waiting[k]).sequence == self.next
                - self.waiting.len() + k
    }

    /// What holds of a ring.
    pub open spec fn wf(self) -> bool {
        &&& self.capacity > 0
        &&& self.waiting.len() <= self.capacity
        &&& self.numbered()
    }
}

/// **Gaps are visible**: what waits keeps consecutive sequence numbers through every push and
/// pop, so what a consumer misses between two entries is exactly what was evicted.
pub proof fn numbering_has_no_gap<T>(ring: RingView<T>, event: T)
    requires
        ring.wf(),
        ring.next < u64::MAX,
    ensures
        ring.pushed(event).wf(),
        ring.popped().wf(),
        ring.pushed(event).waiting.last().sequence == ring.next,
        ring.waiting.len() == ring.capacity && ring.dropped < u64::MAX ==> ring.pushed(
            event,
        ).dropped == ring.dropped + 1,
        ring.waiting.len() < ring.capacity ==> ring.pushed(event).dropped == ring.dropped,
{
    let after = ring.pushed(event);
    assert forall|k: int| 0 <= k < after.waiting.len() implies (
    #[trigger] after.waiting[k]).sequence == after.next - after.waiting.len() + k || after.next
        == u64::MAX by {
        if k < after.waiting.len() - 1 {
            let from = if ring.waiting.len() == ring.capacity {
                k + 1
            } else {
                k
            };
            assert(after.waiting[k] == ring.waiting[from]);
        }
    }
    let less = ring.popped();
    assert forall|k: int| 0 <= k < less.waiting.len() implies (
    #[trigger] less.waiting[k]).sequence == less.next - less.waiting.len() + k by {
        if ring.waiting.len() > 0 {
            assert(less.waiting[k] == ring.waiting[k + 1]);
        }
    }
}

/// A ring that is kept drained never drops.
pub proof fn a_drained_ring_never_drops<T>(ring: RingView<T>, event: T)
    requires
        ring.wf(),
        ring.waiting.len() == 0,
    ensures
        ring.pushed(event).dropped == ring.dropped,
        ring.pushed(event).popped().waiting == ring.waiting,
{
    assert(ring.pushed(event).popped().waiting =~= ring.waiting);
}

/// A bounded ring that evicts its oldest entry rather than blocking its writer.
#[derive(Debug)]
pub struct EventRing<T> {
    slots: Vec<Option<Sequenced<T>>>,
    head: usize,
    len: usize,
    next_sequence: u64,
    dropped: u64,
}

/// The slot `k` places after `head` in a ring of `capacity` slots.
pub open spec fn place(head: int, k: int, capacity: int) -> int {
    if head + k < capacity {
        head + k
    } else {
        head + k - capacity
    }
}

fn wrap(head: usize, k: usize, capacity: usize) -> (r: usize)
    requires
        head < capacity,
        k <= capacity,
    ensures
        r == place(head as int, k as int, capacity as int),
        k < capacity ==> r < capacity,
{
    if k < capacity - head {
        head + k
    } else {
        k - (capacity - head)
    }
}

impl<T> EventRing<T> {
    /// What the ring holds.
    pub closed spec fn view(&self) -> RingView<T> {
        RingView {
            waiting: Seq::new(
                self.len as nat,
                |k: int| self.slots@[place(self.head as int, k, self.slots@.len() as int)]->0,
            ),
            capacity: self.slots@.len(),
            next: self.next_sequence,
            dropped: self.dropped,
        }
    }

    /// The slots hold what waits.
    pub closed spec fn wf(&self) -> bool {
        &&& self@.wf()
        &&& self.head < self.slots@.len()
        &&& self.len <= self.slots@.len()
        &&& forall|k: int|
            0 <= k < self.len ==> #[trigger] self.slots@[place(
                self.head as int,
                k,
                self.slots@.len() as int,
            )] is Some
    }

    /// What a well-formed ring is.
    pub proof fn wf_model(&self)
        requires
            self.wf(),
        ensures
            self@.wf(),
    {
    }

    /// A ring holding `capacity` events. A ring of none would publish nothing.
    pub fn with_capacity(capacity: usize) -> (r: Self)
        requires
            capacity > 0,
        ensures
            r.wf(),
            r@ == RingView::<T>::empty(capacity as nat),
    {
        let mut slots: Vec<Option<Sequenced<T>>> = Vec::with_capacity(capacity);
        let mut i: usize = 0;
        while i < capacity
            invariant
                i <= capacity,
                slots@.len() == i,
            decreases capacity - i,
        {
            slots.push(None);
            i += 1;
        }
        let r = EventRing { slots, head: 0, len: 0, next_sequence: 0, dropped: 0 };
        proof {
            assert(r@ =~= RingView::<T>::empty(capacity as nat));
        }
        r
    }

    /// How many events the ring can hold. Fixed at construction.
    pub fn capacity(&self) -> (r: usize)
        ensures
            r == self@.capacity,
    {
        self.slots.len()
    }

    /// How many events are waiting to be published.
    pub fn len(&self) -> (r: usize)
        ensures
            r == self@.waiting.len(),
    {
        self.len
    }

    /// Whether nothing is waiting.
    pub fn is_empty(&self) -> (r: bool)
        ensures
            r == (self@.waiting.len() == 0),
    {
        self.len == 0
    }

    /// How many events have been evicted unread.
    pub fn dropped(&self) -> (r: u64)
        ensures
            r == self@.dropped,
    {
        self.dropped
    }

    /// Push an event, evicting the oldest if the ring is full. Returns the sequence number
    /// assigned. **Never blocks and never fails.**
    pub fn push(&mut self, event: T) -> (r: u64)
        requires
            old(self).wf(),
        ensures
            final(self).wf(),
            final(self)@ == old(self)@.pushed(event),
            r == old(self)@.next,
    {
        let ghost before = *self;
        let sequence: u64 = self.next_sequence;
        self.next_sequence = self.next_sequence.saturating_add(1);
        let capacity: usize = self.slots.len();
        let tail: usize = if self.len == capacity {
            self.head
        } else {
            wrap(self.head, self.len, capacity)
        };
        self.slots.set(tail, Some(Sequenced { sequence, event }));
        if self.len == capacity {
            // The write above landed on the oldest entry, so the head moves on and the evicted
            // event is counted. The consumer will see the gap in the sequence.
            self.head = if self.head + 1 < capacity {
                self.head + 1
            } else {
                0
            };
            self.dropped = self.dropped.saturating_add(1);
        } else {
            self.len = self.len + 1;
        }
        proof {
            let n = capacity as int;
            let after = before@.pushed(event);
            assert forall|k: int| 0 <= k < self.len implies {
                &&& #[trigger] self.slots@[place(self.head as int, k, n)] is Some
                &&& self.slots@[place(self.head as int, k, n)]->0 == after.waiting[k]
            } by {
                if before.len == capacity {
                    if k < n - 1 {
                        assert(place(self.head as int, k, n) == place(before.head as int, k + 1, n));
                        assert(place(before.head as int, k + 1, n) != tail);
                        assert(before.slots@[place(before.head as int, k + 1, n)] is Some);
                    } else {
                        assert(place(self.head as int, k, n) == tail);
                    }
                } else if k < before.len {
                    assert(place(before.head as int, k, n) != tail);
                    assert(before.slots@[place(before.head as int, k, n)] is Some);
                } else {
                    assert(place(self.head as int, k, n) == tail);
                }
            }
            assert(self@.waiting =~= after.waiting);
            if before@.next < u64::MAX {
                numbering_has_no_gap(before@, event);
            }
        }
        sequence
    }

    /// Take the oldest waiting event.
    pub fn pop(&mut self) -> (r: Option<Sequenced<T>>)
        requires
            old(self).wf(),
        ensures
            final(self).wf(),
            final(self)@ == old(self)@.popped(),
            r == (if old(self)@.waiting.len() > 0 {
                Some(old(self)@.waiting[0])
            } else {
                None
            }),
    {
        if self.len == 0 {
            return None;
        }
        let ghost before = *self;
        let capacity: usize = self.slots.len();
        let mut taken: Option<Sequenced<T>> = None;
        proof {
            assert(self.slots@[place(self.head as int, 0, capacity as int)] is Some);
        }
        self.slots.set_and_swap(self.head, &mut taken);
        self.head = if self.head + 1 < capacity {
            self.head + 1
        } else {
            0
        };
        self.len = self.len - 1;
        proof {
            let n = capacity as int;
            assert(before@.waiting[0] == taken->0);
            assert forall|k: int| 0 <= k < self.len implies {
                &&& #[trigger] self.slots@[place(self.head as int, k, n)] is Some
                &&& self.slots@[place(self.head as int, k, n)]->0 == before@.waiting[k + 1]
            } by {
                assert(place(self.head as int, k, n) == place(before.head as int, k + 1, n));
                assert(place(before.head as int, k + 1, n) != before.head as int);
                assert(before.slots@[place(before.head as int, k + 1, n)] is Some);
            }
            assert(self@.waiting =~= before@.waiting.drop_first());
            if before@.next < u64::MAX {
                assert forall|k: int| 0 <= k < self@.waiting.len() implies (
                #[trigger] self@.waiting[k]).sequence == self@.next - self@.waiting.len() + k by {
                    assert(self@.waiting[k] == before@.waiting[k + 1]);
                }
            }
        }
        taken
    }
}

/// **An event goes in last, under the next number, and pushes the oldest out of a full ring**: what
/// was pushed out is counted, and everything else waits as it did.
pub proof fn an_event_goes_in_last<T>(event: T, r: u64)
    ensures
        forall|ring: &mut EventRing<T>| #[trigger]
            call_ensures(EventRing::<T>::push, (ring, event), r) && (*ring).wf() ==> {
                let (before, after) = ((*ring)@, final(ring)@);
                let (was, is) = (before.waiting.len() as int, after.waiting.len() as int);
                let lost: int = if was == before.capacity {
                    1
                } else {
                    0
                };
                &&& r == before.next
                &&& after.capacity == before.capacity
                &&& before.next < 0xffff_ffff_ffff_ffff ==> after.next == before.next + 1
                &&& before.next == 0xffff_ffff_ffff_ffff ==> after.next == before.next
                &&& is == was + 1 - lost
                &&& after.waiting[is - 1].event == event
                &&& after.waiting[is - 1].sequence == r
                &&& forall|k: int|
                    0 <= k < is - 1 ==> #[trigger] after.waiting[k] == before.waiting[k + lost]
                &&& lost == 0 || before.dropped == 0xffff_ffff_ffff_ffff ==> after.dropped
                    == before.dropped
                &&& lost == 1 && before.dropped < 0xffff_ffff_ffff_ffff ==> after.dropped
                    == before.dropped + 1
            },
{
    assert forall|ring: &mut EventRing<T>| #[trigger]
        call_ensures(EventRing::<T>::push, (ring, event), r) && (*ring).wf() implies (
    *ring)@.wf() by {
        (*ring).wf_model();
    }
}

/// **The oldest event comes out first**, and the others wait as they did; of an empty ring nothing
/// comes out.
pub proof fn the_oldest_event_comes_out<T>(r: Option<Sequenced<T>>)
    ensures
        forall|ring: &mut EventRing<T>| #[trigger]
            call_ensures(EventRing::<T>::pop, (ring,), r) ==> {
                let (before, after) = ((*ring)@, final(ring)@);
                &&& after.capacity == before.capacity
                &&& after.next == before.next
                &&& after.dropped == before.dropped
                &&& before.waiting.len() == 0 ==> r is None && after.waiting.len() == 0
                &&& before.waiting.len() > 0 ==> {
                    &&& r == Some(before.waiting[0])
                    &&& after.waiting.len() == before.waiting.len() - 1
                    &&& forall|k: int|
                        0 <= k < after.waiting.len() ==> #[trigger] after.waiting[k]
                            == before.waiting[k + 1]
                }
            },
{
}

} // verus!
