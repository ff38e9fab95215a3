//! The generation-counted slab.
//!
//! Every slab in the engine (requests, quotes, reservations) is an instance of this one
//! type, so **every slab carries a generation counter** by construction. Two things depend on
//! that:
//!
//! - a stale handle naming a slot that has been freed and reissued must be *rejected*, not
//!   silently resolved to its successor;
//! - the settlement nonce is a request's slot index and generation. A request slot reused
//!   after its predecessor was freed yields a different generation, so nonces are never
//!   reused even though indices are.
//!
//! Slabs are preallocated to configured capacity and **never grow**. Exhaustion is
//! [`SlabFull`], a rejection, never a reallocation.
//!
//! The mathematical model is [`SlabView`]: one [`SlotView`] per slot, and the free list in the
//! order in which it will be handed out.

use core::marker::PhantomData;
use vstd::prelude::*;

verus! {

/// The nil link. Reserved, so capacity is bounded by `u32::MAX - 1` slots.
const NIL: u32 = u32::MAX;

/// A handle into a [`Slab`], carrying the generation of the slot it was issued against.
///
/// Typed by the slot contents, so a request handle cannot be passed to a quote slab.
/// `Copy` regardless of `T`. Only a slab issues one.
#[derive(Debug)]
pub struct Handle<T> {
    index: u32,
    generation: u32,
    slot_type: PhantomData<T>,
}

impl<T> Handle<T> {
    /// The slot index, as a mathematical fact about the handle.
    pub closed spec fn spec_index(&self) -> u32 {
        self.index
    }

    /// The generation, as a mathematical fact about the handle.
    pub closed spec fn spec_generation(&self) -> u32 {
        self.generation
    }

    /// The handle naming slot `index` at `generation`.
    pub closed spec fn of(index: u32, generation: u32) -> Self {
        Handle { index, generation, slot_type: PhantomData }
    }

    /// The dense index this handle names. Stable for the life of the entry.
    #[verifier::when_used_as_spec(spec_index)]
    pub fn index(&self) -> (r: u32)
        ensures
            r == self.index(),
    {
        self.index
    }

    /// The generation this handle was issued against.
    ///
    /// For a request handle this is the second half of the settlement nonce; it is what makes
    /// a resubmission of an already-included bundle bounce off its own nonce instead of
    /// forming a second escrow.
    #[verifier::when_used_as_spec(spec_generation)]
    pub fn generation(&self) -> (r: u32)
        ensures
            r == self.generation(),
    {
        self.generation
    }
}

/// A handle is exactly its index and its generation.
pub broadcast proof fn handle_of<T>(index: u32, generation: u32)
    ensures
        (#[trigger] Handle::<T>::of(index, generation)).index() == index,
        Handle::<T>::of(index, generation).generation() == generation,
{
}

/// Two handles with the same index and the same generation are the same handle.
pub proof fn handle_extensional<T>(a: Handle<T>, b: Handle<T>)
    requires
        a.index() == b.index(),
        a.generation() == b.generation(),
    ensures
        a == b,
{
}

impl<T> Clone for Handle<T> {
    fn clone(&self) -> (r: Self)
        ensures
            r == *self,
    {
        *self
    }
}

impl<T> Copy for Handle<T> {

}

impl<T> PartialEq for Handle<T> {
    fn eq(&self, other: &Self) -> (r: bool) {
        self.index == other.index && self.generation == other.generation
    }
}

impl<T> vstd::std_specs::cmp::PartialEqSpecImpl for Handle<T> {
    open spec fn obeys_eq_spec() -> bool {
        true
    }

    open spec fn eq_spec(&self, other: &Self) -> bool {
        *self == *other
    }
}

impl<T> Eq for Handle<T> {

}

/// The slab is at its configured capacity. A rejection, never a reallocation.
#[derive(Clone, Copy, Debug, PartialEq, Eq, Structural)]
pub struct SlabFull;

// ───────────────────────────────── the model ─────────────────────────────────

/// One slot: the generation its occupant carries (or the next occupant will), and the
/// occupant.
pub struct SlotView<V> {
    pub generation: u32,
    pub value: Option<V>,
}

/// A slab, as mathematics: its slots, and the vacant ones in the order they will be issued.
#[verifier::ext_equal]
pub struct SlabView<V> {
    pub slots: Seq<SlotView<V>>,
    pub free: Seq<u32>,
}

/// How many of `slots` are occupied.
pub open spec fn live_in<V>(slots: Seq<SlotView<V>>) -> nat
    decreases slots.len(),
{
    if slots.len() == 0 {
        0
    } else {
        live_in(slots.drop_last()) + (if slots.last().value is Some {
            1nat
        } else {
            0nat
        })
    }
}

/// The occupied ones among the first `n` slots, in ascending order.
pub open spec fn occupied_among<V>(slots: Seq<SlotView<V>>, n: nat) -> Seq<u32>
    decreases n,
{
    if n == 0 {
        Seq::empty()
    } else {
        let before = occupied_among(slots, (n - 1) as nat);
        if slots[n - 1].value is Some {
            before.push((n - 1) as u32)
        } else {
            before
        }
    }
}

impl<V> SlabView<V> {
    /// A slab of `capacity` vacant slots, issued in index order.
    pub open spec fn vacant(capacity: u32) -> Self {
        SlabView {
            slots: Seq::new(capacity as nat, |i: int| SlotView { generation: 0, value: None }),
            free: Seq::new(capacity as nat, |i: int| i as u32),
        }
    }

    /// Whether slot `index` holds an entry.
    pub open spec fn occupied(self, index: u32) -> bool {
        index < self.slots.len() && self.slots[index as int].value is Some
    }

    /// The entry in slot `index`.
    pub open spec fn at(self, index: u32) -> V {
        self.slots[index as int].value->0
    }

    /// The generation of slot `index`.
    pub open spec fn generation(self, index: u32) -> u32 {
        self.slots[index as int].generation
    }

    /// Whether slot `index` holds an entry issued at `generation`.
    pub open spec fn holds(self, index: u32, generation: u32) -> bool {
        self.occupied(index) && self.generation(index) == generation
    }

    /// Whether `handle` names a live entry.
    pub open spec fn names<T>(self, handle: Handle<T>) -> bool {
        self.holds(handle.index(), handle.generation())
    }

    /// The entry `handle` names.
    pub open spec fn of<T>(self, handle: Handle<T>) -> V {
        self.at(handle.index())
    }

    /// The entry `handle` names, or `None` if it is stale.
    pub open spec fn get<T>(self, handle: Handle<T>) -> Option<V> {
        if self.names(handle) {
            Some(self.of(handle))
        } else {
            None
        }
    }

    /// Entries held.
    pub open spec fn live(self) -> nat {
        live_in(self.slots)
    }

    /// Whether an insertion will be admitted.
    pub open spec fn room(self) -> bool {
        self.free.len() > 0
    }

    /// The slot the next insertion takes.
    pub open spec fn next_index(self) -> u32 {
        self.free[0]
    }

    /// The handle the next insertion returns.
    pub open spec fn next_handle<T>(self) -> Handle<T> {
        Handle::of(self.next_index(), self.generation(self.next_index()))
    }

    /// After an insertion of `value`.
    pub open spec fn inserted(self, value: V) -> Self {
        let index = self.next_index() as int;
        SlabView {
            slots: self.slots.update(
                index,
                SlotView { generation: self.slots[index].generation, value: Some(value) },
            ),
            free: self.free.drop_first(),
        }
    }

    /// After freeing slot `index`: the generation is bumped and the slot is the next to be
    /// issued. A slot whose generation cannot be bumped is retired, never reissued.
    pub open spec fn removed(self, index: u32) -> Self {
        let generation = self.generation(index);
        if generation < u32::MAX {
            SlabView {
                slots: self.slots.update(
                    index as int,
                    SlotView { generation: (generation + 1) as u32, value: None },
                ),
                free: seq![index] + self.free,
            }
        } else {
            SlabView {
                slots: self.slots.update(index as int, SlotView { generation, value: None }),
                free: self.free,
            }
        }
    }

    /// After overwriting the entry in slot `index`.
    pub open spec fn replaced(self, index: u32, value: V) -> Self {
        SlabView {
            slots: self.slots.update(
                index as int,
                SlotView { generation: self.generation(index), value: Some(value) },
            ),
            free: self.free,
        }
    }

    /// The same slab with every entry seen through `f`.
    pub open spec fn mapped<W>(self, f: spec_fn(V) -> W) -> SlabView<W> {
        SlabView {
            slots: Seq::new(
                self.slots.len(),
                |i: int|
                    SlotView {
                        generation: self.slots[i].generation,
                        value: match self.slots[i].value {
                            Some(value) => Some(f(value)),
                            None => None,
                        },
                    },
            ),
            free: self.free,
        }
    }

    /// The occupied slots, in ascending index order.
    pub open spec fn occupied_indices(self) -> Seq<u32> {
        occupied_among(self.slots, self.slots.len())
    }

    /// Slot `index` will never be issued again: it is vacant and its generation cannot be
    /// bumped.
    pub open spec fn retired(self, index: u32) -> bool {
        index < self.slots.len() && self.slots[index as int].value is None && !self.free.contains(
            index,
        )
    }

    /// What every slab satisfies: the free list names vacant slots, each once, and a vacant
    /// slot that is not on it has exhausted its generations.
    pub open spec fn wf(self) -> bool {
        &&& self.slots.len() < u32::MAX
        &&& self.free.no_duplicates()
        &&& forall|k: int|
            0 <= k < self.free.len() ==> (#[trigger] self.free[k]) < self.slots.len()
                && self.slots[self.free[k] as int].value is None
        &&& forall|i: u32| #[trigger]
            self.retired(i) ==> self.slots[i as int].generation == u32::MAX
    }

    /// No entry will ever be issued at `(index, generation)` again, and none holds it now.
    pub open spec fn spent(self, index: u32, generation: u32) -> bool {
        &&& index < self.slots.len()
        &&& generation < self.generation(index) || (generation == self.generation(index)
            && self.retired(index))
    }
}

// ───────────────────────────────── the structure ─────────────────────────────────

/// What a slot holds. A vacant slot carries the free-list link in place of its value, so the
/// free list costs no storage of its own.
#[derive(Debug, PartialEq, Eq)]
enum SlotState<T> {
    Vacant { next: u32 },
    Occupied(T),
}

#[derive(Debug, PartialEq, Eq)]
struct Slot<T> {
    generation: u32,
    state: SlotState<T>,
}

/// A preallocated, generation-counted slab with an intrusive free list.
#[derive(Debug, PartialEq, Eq)]
pub struct Slab<T> {
    slots: Vec<Slot<T>>,
    free_head: u32,
    live: u32,
}

/// `free` is the list that starts at `head` and follows the vacant slots' links.
spec fn free_list<T>(slots: Seq<Slot<T>>, head: u32, free: Seq<u32>) -> bool {
    &&& head == (if free.len() == 0 {
        NIL
    } else {
        free[0]
    })
    &&& free.no_duplicates()
    &&& forall|k: int|
        0 <= k < free.len() ==> (#[trigger] free[k]) < slots.len() && slots[free[k] as int].state
            == (SlotState::<T>::Vacant {
            next: if k + 1 < free.len() {
                free[k + 1]
            } else {
                NIL
            },
        })
}

/// The free list is determined by the links.
proof fn free_list_unique<T>(slots: Seq<Slot<T>>, head: u32, a: Seq<u32>, b: Seq<u32>)
    requires
        slots.len() < u32::MAX,
        free_list(slots, head, a),
        free_list(slots, head, b),
    ensures
        a == b,
{
    assert forall|k: int| 0 <= k < a.len() implies k < b.len() && a[k] == b[k] by {
        free_list_agrees(slots, head, a, b, k);
    }
    if a.len() > 0 {
        free_list_agrees(slots, head, a, b, a.len() - 1);
    }
    if b.len() > 0 {
        free_list_agrees(slots, head, b, a, b.len() - 1);
    }
    assert(a =~= b);
}

proof fn free_list_agrees<T>(slots: Seq<Slot<T>>, head: u32, a: Seq<u32>, b: Seq<u32>, k: int)
    requires
        slots.len() < u32::MAX,
        free_list(slots, head, a),
        free_list(slots, head, b),
        0 <= k < a.len(),
    ensures
        k < b.len(),
        a[k] == b[k],
    decreases k,
{
    assert(a[k] < slots.len());
    if k > 0 {
        free_list_agrees(slots, head, a, b, k - 1);
        assert(a[k - 1] == b[k - 1]);
    }
}

/// Freeing or filling one slot moves the live count by one.
proof fn live_in_update<V>(slots: Seq<SlotView<V>>, i: int, slot: SlotView<V>)
    requires
        0 <= i < slots.len(),
    ensures
        live_in(slots.update(i, slot)) + (if slots[i].value is Some {
            1nat
        } else {
            0nat
        }) == live_in(slots) + (if slot.value is Some {
            1nat
        } else {
            0nat
        }),
    decreases slots.len(),
{
    let after = slots.update(i, slot);
    if i == slots.len() - 1 {
        assert(after.drop_last() =~= slots.drop_last());
    } else {
        assert(after.drop_last() =~= slots.drop_last().update(i, slot));
        live_in_update(slots.drop_last(), i, slot);
    }
}

proof fn live_in_bound<V>(slots: Seq<SlotView<V>>)
    ensures
        live_in(slots) <= slots.len(),
    decreases slots.len(),
{
    if slots.len() > 0 {
        live_in_bound(slots.drop_last());
    }
}

proof fn live_in_none<V>(slots: Seq<SlotView<V>>)
    requires
        forall|i: int| 0 <= i < slots.len() ==> (#[trigger] slots[i]).value is None,
    ensures
        live_in(slots) == 0,
    decreases slots.len(),
{
    if slots.len() > 0 {
        live_in_none(slots.drop_last());
    }
}

impl<T> Slab<T> {
    spec fn slot_views(self) -> Seq<SlotView<T>> {
        Seq::new(
            self.slots@.len(),
            |i: int|
                SlotView {
                    generation: self.slots@[i].generation,
                    value: match self.slots@[i].state {
                        SlotState::Occupied(value) => Some(value),
                        SlotState::Vacant { .. } => None,
                    },
                },
        )
    }

    /// The model of this slab.
    pub closed spec fn view(&self) -> SlabView<T> {
        SlabView {
            slots: self.slot_views(),
            free: choose|free: Seq<u32>| free_list(self.slots@, self.free_head, free),
        }
    }

    /// The intrusive free list is intact, and the stored count is the live count.
    pub closed spec fn wf(&self) -> bool {
        &&& self@.wf()
        &&& free_list(self.slots@, self.free_head, self@.free)
        &&& self.live == self@.live()
    }

    /// What a slab outside this module may be assumed to satisfy.
    pub proof fn wf_model(&self)
        requires
            self.wf(),
        ensures
            self@.wf(),
            self@.live() <= self@.slots.len(),
    {
        live_in_bound(self@.slots);
    }

    /// Preallocate `capacity` slots. This is the only allocation the slab ever performs.
    ///
    /// `u32::MAX` is reserved as the nil free-list link. Slab capacities come from the
    /// configuration and are validated at startup.
    pub fn with_capacity(capacity: u32) -> (r: Self)
        requires
            capacity < u32::MAX,
        ensures
            r.wf(),
            r@ == SlabView::<T>::vacant(capacity),
    {
        let mut slots: Vec<Slot<T>> = Vec::with_capacity(capacity as usize);
        let mut index: u32 = 0;
        while index < capacity
            invariant
                index <= capacity < u32::MAX,
                slots@.len() == index,
                forall|i: int|
                    0 <= i < index ==> (#[trigger] slots@[i]) == (Slot {
                        generation: 0,
                        state: SlotState::<T>::Vacant {
                            next: if i + 1 < capacity {
                                (i + 1) as u32
                            } else {
                                NIL
                            },
                        },
                    }),
            decreases capacity - index,
        {
            // Link each slot to its successor so allocation walks the slab in order.
            let next: u32 = if index + 1 < capacity {
                index + 1
            } else {
                NIL
            };
            slots.push(Slot { generation: 0, state: SlotState::Vacant { next } });
            index = index + 1;
        }
        let free_head: u32 = if capacity == 0 {
            NIL
        } else {
            0
        };
        let slab = Slab { slots, free_head, live: 0 };
        proof {
            let free = SlabView::<T>::vacant(capacity).free;
            assert(free_list(slab.slots@, slab.free_head, free));
            free_list_unique(slab.slots@, slab.free_head, free, slab@.free);
            assert(slab@.slots =~= SlabView::<T>::vacant(capacity).slots);
            live_in_none(slab@.slots);
            assert forall|i: u32| #[trigger] slab@.retired(i) implies false by {
                assert(free[i as int] == i);
            }
        }
        slab
    }

    /// Slots allocated at construction. Never changes.
    pub fn capacity(&self) -> (r: u32)
        requires
            self.wf(),
        ensures
            r == self@.slots.len(),
    {
        self.slots.len() as u32
    }

    /// Occupied slots.
    pub fn len(&self) -> (r: u32)
        requires
            self.wf(),
        ensures
            r == self@.live(),
    {
        self.live
    }

    /// Whether no slot is occupied.
    pub fn is_empty(&self) -> (r: bool)
        requires
            self.wf(),
        ensures
            r == (self@.live() == 0),
    {
        self.live == 0
    }

    /// Whether an insertion would be admitted.
    pub fn has_room(&self) -> (r: bool)
        requires
            self.wf(),
        ensures
            r == self@.room(),
    {
        self.free_head != NIL
    }

    /// Take a free slot, or reject. The slab does not grow.
    pub fn insert(&mut self, value: T) -> (r: Result<Handle<T>, SlabFull>)
        requires
            old(self).wf(),
        ensures
            final(self).wf(),
            match r {
                Ok(handle) => {
                    &&& old(self)@.room()
                    &&& handle == old(self)@.next_handle::<T>()
                    &&& final(self)@ == old(self)@.inserted(value)
                },
                Err(SlabFull) => !old(self)@.room() && *final(self) == *old(self),
            },
    {
        let index = self.free_head;
        if index == NIL {
            return Err(SlabFull);
        }
        let ghost before = *self;
        let ghost free = self@.free;
        let next: u32 = match &self.slots[index as usize].state {
            SlotState::Vacant { next } => *next,
            SlotState::Occupied(_) => NIL,
        };
        let generation: u32 = self.slots[index as usize].generation;
        self.slots.set(index as usize, Slot { generation, state: SlotState::Occupied(value) });
        self.free_head = next;
        proof {
            live_in_update(
                before@.slots,
                index as int,
                SlotView { generation, value: Some(value) },
            );
            live_in_bound(before@.inserted(value).slots);
        }
        self.live = self.live + 1;
        proof {
            let rest = free.drop_first();
            assert(free_list(self.slots@, self.free_head, rest)) by {
                assert forall|k: int| 0 <= k < rest.len() implies rest[k] == free[k + 1] && rest[k]
                    != index by {}
                assert forall|k: int| 0 <= k < rest.len() implies (#[trigger] rest[k])
                    < self.slots@.len() && self.slots@[rest[k] as int].state == (SlotState::<
                    T,
                >::Vacant {
                    next: if k + 1 < rest.len() {
                        rest[k + 1]
                    } else {
                        NIL
                    },
                }) by {
                    assert(free[k + 1] != index);
                }
                if rest.len() > 0 {
                    assert(rest[0] == free[1]);
                }
            }
            free_list_unique(self.slots@, self.free_head, rest, self@.free);
            assert(self@.slots =~= before@.inserted(value).slots);
            inserted_wf(before@, value);
        }
        Ok(Handle { index, generation, slot_type: PhantomData })
    }

    /// The entry `handle` names, or `None` if the handle is stale.
    ///
    /// Stale means either generation mismatch (the slot was freed, so this handle refers to
    /// an entry that no longer exists even if the index now holds something else) or a vacant
    /// slot, which a retired slot can still match on generation.
    pub fn get(&self, handle: Handle<T>) -> (r: Option<&T>)
        requires
            self.wf(),
        ensures
            match r {
                Some(value) => self@.get(handle) == Some(*value),
                None => self@.get(handle) is None,
            },
    {
        if (handle.index as usize) < self.slots.len() {
            let slot = &self.slots[handle.index as usize];
            if slot.generation != handle.generation {
                return None;
            }
            match &slot.state {
                SlotState::Occupied(value) => Some(value),
                SlotState::Vacant { .. } => None,
            }
        } else {
            None
        }
    }

    /// The entry `handle` names, mutably, or `None` if the handle is stale.
    pub fn get_mut(&mut self, handle: Handle<T>) -> (r: Option<&mut T>)
        requires
            old(self).wf(),
        ensures
            final(self).wf(),
            match r {
                Some(value) => {
                    &&& old(self)@.get(handle) == Some(*value)
                    &&& final(self)@ == old(self)@.replaced(handle.index(), *final(value))
                },
                None => old(self)@.get(handle) is None && *final(self) == *old(self),
            },
    {
        if !self.contains(handle) {
            return None;
        }
        let ghost before = *self;
        let ghost after = *final(self);
        let index = handle.index;
        let slot = &mut self.slots[index as usize];
        match &mut slot.state {
            SlotState::Occupied(value) => {
                proof {
                    overwritten(before, after, index, *final(value));
                }
                Some(value)
            },
            SlotState::Vacant { .. } => None,
        }
    }

    /// Whether `handle` still names a live entry.
    pub fn contains(&self, handle: Handle<T>) -> (r: bool)
        requires
            self.wf(),
        ensures
            r == self@.names(handle),
    {
        self.get(handle).is_some()
    }

    /// Free the slot `handle` names and return its contents, or `None` if the handle is
    /// stale, in which case **nothing is mutated**. A stale free must not evict whatever
    /// occupies the slot now.
    pub fn remove(&mut self, handle: Handle<T>) -> (r: Option<T>)
        requires
            old(self).wf(),
        ensures
            final(self).wf(),
            r == old(self)@.get(handle),
            final(self)@ == (if old(self)@.names(handle) {
                old(self)@.removed(handle.index())
            } else {
                old(self)@
            }),
            r is None ==> *final(self) == *old(self),
    {
        if !self.contains(handle) {
            return None;
        }
        let ghost before = *self;
        let ghost free = self@.free;
        let index = handle.index;
        // Bump first: every handle outstanding against this slot must stop resolving. On
        // overflow the slot is *retired* rather than wrapped: a wrapped generation would let a
        // handle from long ago alias a live entry.
        let reusable: bool = handle.generation < u32::MAX;
        let generation: u32 = if reusable {
            handle.generation + 1
        } else {
            handle.generation
        };
        let next: u32 = if reusable {
            self.free_head
        } else {
            NIL
        };
        let mut slot = Slot { generation, state: SlotState::Vacant { next } };
        self.slots.set_and_swap(index as usize, &mut slot);
        if reusable {
            self.free_head = index;
        }
        proof {
            live_in_update(before@.slots, index as int, SlotView { generation, value: None });
        }
        self.live = self.live - 1;
        proof {
            let after = before@.removed(index).free;
            assert(free_list(self.slots@, self.free_head, after)) by {
                assert forall|k: int| 0 <= k < free.len() implies (#[trigger] free[k]) != index by {
                    assert(before@.slots[free[k] as int].value is None);
                }
                if reusable {
                    assert(after.len() == free.len() + 1);
                    assert(forall|k: int| 0 < k < after.len() ==> (#[trigger] after[k]) == free[k - 1]);
                }
            }
            free_list_unique(self.slots@, self.free_head, after, self@.free);
            assert(self@.slots =~= before@.removed(index).slots);
            removed_wf(before@, index);
        }
        match slot.state {
            SlotState::Occupied(value) => Some(value),
            SlotState::Vacant { .. } => None,
        }
    }

    /// Every occupied slot, in ascending index order.
    ///
    /// Dense index order, so iteration is deterministic.
    pub fn iter(&self) -> (r: Vec<(Handle<T>, &T)>)
        requires
            self.wf(),
        ensures
            r@.len() == self@.occupied_indices().len(),
            forall|k: int|
                0 <= k < r@.len() ==> {
                    let index = self@.occupied_indices()[k];
                    &&& (#[trigger] r@[k]).0 == Handle::<T>::of(index, self@.generation(index))
                    &&& *r@[k].1 == self@.at(index)
                },
    {
        let mut found: Vec<(Handle<T>, &T)> = Vec::new();
        let mut i: usize = 0;
        while i < self.slots.len()
            invariant
                self.wf(),
                i <= self.slots@.len() < u32::MAX,
                found@.len() == occupied_among(self@.slots, i as nat).len(),
                forall|k: int|
                    0 <= k < found@.len() ==> {
                        let index = occupied_among(self@.slots, i as nat)[k];
                        &&& (#[trigger] found@[k]).0 == Handle::<T>::of(
                            index,
                            self@.generation(index),
                        )
                        &&& *found@[k].1 == self@.at(index)
                    },
            decreases self.slots@.len() - i,
        {
            let slot = &self.slots[i];
            match &slot.state {
                SlotState::Occupied(value) => {
                    found.push(
                        (
                            Handle {
                                index: i as u32,
                                generation: slot.generation,
                                slot_type: PhantomData,
                            },
                            value,
                        ),
                    );
                },
                SlotState::Vacant { .. } => {},
            }
            i = i + 1;
        }
        found
    }

    /// The handle naming whatever occupies `index`, or `None` if the slot is vacant.
    ///
    /// Intrusive chains are threaded with bare `u32` links, because a link the structure
    /// maintains itself cannot go stale. Checking a *cross-structure* reference against such a
    /// link needs the full handle, and this recovers it.
    pub fn handle_at(&self, index: u32) -> (r: Option<Handle<T>>)
        requires
            self.wf(),
        ensures
            r == (if self@.occupied(index) {
                Some(Handle::<T>::of(index, self@.generation(index)))
            } else {
                None
            }),
    {
        if (index as usize) < self.slots.len() {
            let slot = &self.slots[index as usize];
            match &slot.state {
                SlotState::Occupied(_) => Some(
                    Handle { index, generation: slot.generation, slot_type: PhantomData },
                ),
                SlotState::Vacant { .. } => None,
            }
        } else {
            None
        }
    }
}

/// Overwriting an occupied slot's entry leaves the free list and the count alone.
proof fn overwritten<T>(before: Slab<T>, after: Slab<T>, index: u32, value: T)
    requires
        before.wf(),
        before@.occupied(index),
        after.free_head == before.free_head,
        after.live == before.live,
        after.slots@ == before.slots@.update(
            index as int,
            Slot {
                generation: before@.generation(index),
                state: SlotState::Occupied(value),
            },
        ),
    ensures
        after.wf(),
        after@ == before@.replaced(index, value),
{
    let free = before@.free;
    assert forall|k: int| 0 <= k < free.len() implies (#[trigger] free[k]) != index by {
        assert(before@.slots[free[k] as int].value is None);
    }
    assert(free_list(after.slots@, after.free_head, free));
    free_list_unique(after.slots@, after.free_head, free, after@.free);
    assert(after@.slots =~= before@.replaced(index, value).slots);
    live_in_update(
        before@.slots,
        index as int,
        SlotView { generation: before@.generation(index), value: Some(value) },
    );
    replaced_wf(before@, index, value);
}

// ───────────────────────────── what the operations keep ─────────────────────────────

/// A slab of vacant slots is well-formed and holds nothing.
pub proof fn vacant_wf<V>(capacity: u32)
    requires
        capacity < u32::MAX,
    ensures
        SlabView::<V>::vacant(capacity).wf(),
        SlabView::<V>::vacant(capacity).live() == 0,
{
    let slab = SlabView::<V>::vacant(capacity);
    live_in_none(slab.slots);
    assert forall|i: u32| #[trigger] slab.retired(i) implies false by {
        assert(slab.free[i as int] == i);
    }
}

/// An insertion keeps the model well-formed.
pub proof fn inserted_wf<V>(slab: SlabView<V>, value: V)
    requires
        slab.wf(),
        slab.room(),
    ensures
        slab.inserted(value).wf(),
        !slab.occupied(slab.next_index()),
        slab.next_index() < slab.slots.len(),
{
    let after = slab.inserted(value);
    let index = slab.next_index();
    assert(forall|k: int| 0 <= k < after.free.len() ==> (#[trigger] after.free[k]) == slab.free[k + 1]);
    assert forall|i: u32| #[trigger] after.retired(i) implies after.slots[i as int].generation
        == u32::MAX by {
        assert(i != index);
        if slab.free.contains(i) {
            let k = choose|k: int| 0 <= k < slab.free.len() && slab.free[k] == i;
            assert(k > 0);
            assert(after.free[k - 1] == i);
        }
        assert(slab.retired(i));
    }
}

/// Every operation moves the live count as it should: an insertion by one up, a removal by one
/// down, an overwrite not at all.
pub proof fn live_moves<V>(slab: SlabView<V>, index: u32, value: V)
    requires
        slab.wf(),
    ensures
        slab.room() ==> slab.inserted(value).live() == slab.live() + 1,
        slab.occupied(index) ==> slab.removed(index).live() + 1 == slab.live(),
        slab.occupied(index) ==> slab.replaced(index, value).live() == slab.live(),
{
    if slab.room() {
        inserted_wf(slab, value);
        let next = slab.next_index() as int;
        live_in_update(
            slab.slots,
            next,
            SlotView { generation: slab.slots[next].generation, value: Some(value) },
        );
    }
    if slab.occupied(index) {
        let generation = slab.generation(index);
        live_in_update(
            slab.slots,
            index as int,
            SlotView { generation, value: Some(value) },
        );
        live_in_update(slab.slots, index as int, slab.removed(index).slots[index as int]);
    }
}

/// Freeing an occupied slot keeps the model well-formed.
pub proof fn removed_wf<V>(slab: SlabView<V>, index: u32)
    requires
        slab.wf(),
        slab.occupied(index),
    ensures
        slab.removed(index).wf(),
{
    let after = slab.removed(index);
    assert forall|k: int| 0 <= k < slab.free.len() implies (#[trigger] slab.free[k]) != index by {
        assert(slab.slots[slab.free[k] as int].value is None);
    }
    if slab.generation(index) < u32::MAX {
        assert(after.free[0] == index);
        assert(forall|k: int| 0 < k < after.free.len() ==> (#[trigger] after.free[k]) == slab.free[k - 1]);
    }
    assert forall|i: u32| #[trigger] after.retired(i) implies after.slots[i as int].generation
        == u32::MAX by {
        if i != index {
            if slab.free.contains(i) {
                let k = choose|k: int| 0 <= k < slab.free.len() && slab.free[k] == i;
                if slab.generation(index) < u32::MAX {
                    assert(after.free[k + 1] == i);
                }
            }
            assert(slab.retired(i));
        }
    }
}

/// Overwriting an entry keeps the model well-formed.
pub proof fn replaced_wf<V>(slab: SlabView<V>, index: u32, value: V)
    requires
        slab.wf(),
        slab.occupied(index),
    ensures
        slab.replaced(index, value).wf(),
{
    let after = slab.replaced(index, value);
    assert forall|i: u32| #[trigger] after.retired(i) implies after.slots[i as int].generation
        == u32::MAX by {
        assert(slab.retired(i));
    }
}

/// Seeing the entries through a function changes neither the slots nor the free list.
pub proof fn mapped_slots<V, W>(slab: SlabView<V>, f: spec_fn(V) -> W)
    ensures
        slab.wf() ==> slab.mapped(f).wf(),
        slab.mapped(f).live() == slab.live(),
        slab.mapped(f).occupied_indices() == slab.occupied_indices(),
{
    let after = slab.mapped(f);
    if slab.wf() {
        assert forall|i: u32| #[trigger] after.retired(i) implies after.slots[i as int].generation
            == u32::MAX by {
            assert(slab.retired(i));
        }
    }
    live_in_same(slab.slots, after.slots);
    occupied_among_same(slab.slots, after.slots, slab.slots.len());
}

proof fn live_in_same<V, W>(a: Seq<SlotView<V>>, b: Seq<SlotView<W>>)
    requires
        a.len() == b.len(),
        forall|i: int| 0 <= i < a.len() ==> ((#[trigger] a[i]).value is Some <==> b[i].value is Some),
    ensures
        live_in(a) == live_in(b),
    decreases a.len(),
{
    if a.len() > 0 {
        assert forall|i: int| 0 <= i < a.drop_last().len() implies ((
        #[trigger] a.drop_last()[i]).value is Some <==> b.drop_last()[i].value is Some) by {
            assert(a.drop_last()[i] == a[i]);
        }
        live_in_same(a.drop_last(), b.drop_last());
        assert(a.last() == a[a.len() - 1]);
    }
}

proof fn occupied_among_same<V, W>(a: Seq<SlotView<V>>, b: Seq<SlotView<W>>, n: nat)
    requires
        n <= a.len() == b.len(),
        forall|i: int| 0 <= i < a.len() ==> ((#[trigger] a[i]).value is Some <==> b[i].value is Some),
    ensures
        occupied_among(a, n) == occupied_among(b, n),
    decreases n,
{
    if n > 0 {
        occupied_among_same(a, b, (n - 1) as nat);
        assert(a[n - 1].value is Some <==> b[n - 1].value is Some);
    }
}

/// Seeing the entries through a function commutes with every operation.
pub proof fn mapped_commutes<V, W>(slab: SlabView<V>, f: spec_fn(V) -> W, index: u32, value: V)
    requires
        slab.wf(),
    ensures
        slab.room() ==> slab.inserted(value).mapped(f) == slab.mapped(f).inserted(f(value)),
        slab.occupied(index) ==> slab.removed(index).mapped(f) == slab.mapped(f).removed(index),
        slab.occupied(index) ==> slab.replaced(index, value).mapped(f) == slab.mapped(f).replaced(
            index,
            f(value),
        ),
        slab.occupied(index) ==> slab.mapped(f).at(index) == f(slab.at(index)),
{
    if slab.room() {
        inserted_wf(slab, value);
        assert(slab.inserted(value).mapped(f).slots =~= slab.mapped(f).inserted(f(value)).slots);
    }
    if slab.occupied(index) {
        assert(slab.removed(index).mapped(f).slots =~= slab.mapped(f).removed(index).slots);
        assert(slab.replaced(index, value).mapped(f).slots =~= slab.mapped(f).replaced(
            index,
            f(value),
        ).slots);
    }
}

/// The occupied indices are ascending, and are exactly the occupied slots.
pub proof fn occupied_indices_are_occupied<V>(slab: SlabView<V>)
    requires
        slab.slots.len() < u32::MAX,
    ensures
        forall|k: int|
            0 <= k < slab.occupied_indices().len() ==> slab.occupied(
                #[trigger] slab.occupied_indices()[k],
            ),
        forall|j: int, k: int|
            0 <= j < k < slab.occupied_indices().len() ==> (#[trigger] slab.occupied_indices()[j])
                < (#[trigger] slab.occupied_indices()[k]),
        forall|i: u32| #[trigger] slab.occupied(i) ==> slab.occupied_indices().contains(i),
        slab.occupied_indices().len() == slab.live(),
{
    occupied_among_is(slab.slots, slab.slots.len());
    assert(slab.slots.take(slab.slots.len() as int) =~= slab.slots);
}

proof fn occupied_among_is<V>(slots: Seq<SlotView<V>>, n: nat)
    requires
        n <= slots.len() < u32::MAX,
    ensures
        forall|k: int|
            0 <= k < occupied_among(slots, n).len() ==> {
                &&& (#[trigger] occupied_among(slots, n)[k]) < n
                &&& slots[occupied_among(slots, n)[k] as int].value is Some
            },
        forall|j: int, k: int|
            0 <= j < k < occupied_among(slots, n).len() ==> (#[trigger] occupied_among(slots, n)[j])
                < (#[trigger] occupied_among(slots, n)[k]),
        forall|i: u32|
            i < n && (#[trigger] slots[i as int]).value is Some ==> occupied_among(
                slots,
                n,
            ).contains(i),
        occupied_among(slots, n).len() == live_in(slots.take(n as int)),
    decreases n,
{
    if n > 0 {
        occupied_among_is(slots, (n - 1) as nat);
        let before = occupied_among(slots, (n - 1) as nat);
        let after = occupied_among(slots, n);
        assert(slots.take(n as int).drop_last() =~= slots.take(n - 1));
        assert forall|i: u32| i < n && (
        #[trigger] slots[i as int]).value is Some implies after.contains(i) by {
            if i == n - 1 {
                assert(after[after.len() - 1] == i);
            } else {
                assert(before.contains(i));
                let k = choose|k: int| 0 <= k < before.len() && before[k] == i;
                assert(after[k] == i);
            }
        }
    }
}

/// A freed handle never resolves again: the moment a slot is freed its handle is spent.
pub proof fn freed_handles_are_spent<V, T>(slab: SlabView<V>, handle: Handle<T>)
    requires
        slab.wf(),
        slab.names(handle),
    ensures
        slab.removed(handle.index()).spent(handle.index(), handle.generation()),
{
    let after = slab.removed(handle.index());
    if handle.generation() == u32::MAX {
        assert forall|k: int| 0 <= k < slab.free.len() implies slab.free[k] != handle.index() by {
            assert(slab.slots[slab.free[k] as int].value is None);
        }
    }
}

/// A spent handle stays spent through every operation, and resolves in none of the states it
/// passes through, whatever occupies its index by then.
pub proof fn spent_handles_stay_spent<V, T>(slab: SlabView<V>, handle: Handle<T>, other: u32, value: V)
    requires
        slab.wf(),
        slab.spent(handle.index(), handle.generation()),
    ensures
        slab.get(handle) is None,
        slab.room() ==> slab.inserted(value).spent(handle.index(), handle.generation()),
        slab.occupied(other) ==> slab.removed(other).spent(handle.index(), handle.generation()),
        slab.occupied(other) ==> slab.replaced(other, value).spent(
            handle.index(),
            handle.generation(),
        ),
{
    let index = handle.index();
    if slab.room() {
        inserted_wf(slab, value);
        let after = slab.inserted(value);
        assert(slab.free.contains(slab.next_index()));
        if slab.retired(index) {
            assert forall|k: int| 0 <= k < after.free.len() implies after.free[k] != index by {
                assert(after.free[k] == slab.free[k + 1]);
                assert(slab.free.contains(slab.free[k + 1]));
            }
        }
    }
    if slab.occupied(other) {
        let after = slab.removed(other);
        if slab.retired(index) {
            assert(index != other);
            assert forall|k: int| 0 <= k < after.free.len() implies after.free[k] != index by {
                if slab.generation(other) < u32::MAX && k > 0 {
                    assert(after.free[k] == slab.free[k - 1]);
                    assert(slab.free.contains(slab.free[k - 1]));
                } else if slab.generation(other) == u32::MAX {
                    assert(slab.free.contains(slab.free[k]));
                }
            }
        }
    }
}

/// An insertion never issues a spent handle: an index and generation that have been freed
/// name nothing, ever again. This is what makes a request's index and generation usable as a
/// settlement nonce.
pub proof fn spent_handles_are_never_reissued<V, T>(slab: SlabView<V>, handle: Handle<T>)
    requires
        slab.wf(),
        slab.room(),
        slab.spent(handle.index(), handle.generation()),
    ensures
        slab.next_handle::<T>() != handle,
{
    broadcast use handle_of;
    assert(slab.free.contains(slab.next_index()));
}

/// Capacity is fixed at construction: no operation adds or drops a slot.
pub proof fn capacity_never_changes<V>(slab: SlabView<V>, index: u32, value: V)
    requires
        slab.wf(),
    ensures
        slab.room() ==> slab.inserted(value).slots.len() == slab.slots.len(),
        slab.occupied(index) ==> slab.removed(index).slots.len() == slab.slots.len(),
        slab.occupied(index) ==> slab.replaced(index, value).slots.len() == slab.slots.len(),
{
}

/// Freeing what was just inserted restores every slot's contents and the set of free slots;
/// only the slot's generation has moved on.
pub proof fn remove_undoes_insert<V>(slab: SlabView<V>, value: V)
    requires
        slab.wf(),
        slab.room(),
        slab.generation(slab.next_index()) < u32::MAX,
    ensures
        ({
            let index = slab.next_index();
            let after = slab.inserted(value).removed(index);
            &&& after.free == slab.free
            &&& after.slots == slab.slots.update(
                index as int,
                SlotView { generation: (slab.generation(index) + 1) as u32, value: None },
            )
        }),
{
    let after = slab.inserted(value).removed(slab.next_index());
    assert(after.free =~= slab.free);
    inserted_wf(slab, value);
    assert(after.slots =~= slab.slots.update(
        slab.next_index() as int,
        SlotView { generation: (slab.generation(slab.next_index()) + 1) as u32, value: None },
    ));
}

/// Slot `index` holds `value` under `generation`, and every other slot is as it was.
pub open spec fn only_slot<V>(
    before: SlabView<V>,
    after: SlabView<V>,
    index: u32,
    generation: u32,
    value: Option<V>,
) -> bool {
    &&& after.slots.len() == before.slots.len()
    &&& index < before.slots.len()
    &&& after.slots[index as int].generation == generation
    &&& after.slots[index as int].value == value
    &&& forall|j: int|
        0 <= j < before.slots.len() && j != index ==> #[trigger] after.slots[j] == before.slots[j]
}

/// **An entry goes into the next free slot, and is found there under the handle it was given**: a
/// slot that was empty, under that slot's own generation. Nothing else moves. It is refused exactly
/// where no slot is free.
pub proof fn an_entry_goes_where_its_handle_says<T>(value: T, r: Result<Handle<T>, SlabFull>)
    ensures
        forall|slab: &mut Slab<T>| #[trigger]
            call_ensures(Slab::<T>::insert, (slab, value), r) && (*slab).wf() ==> match r {
                Ok(handle) => {
                    &&& (*slab)@.free.len() > 0
                    &&& handle.index() == (*slab)@.free[0]
                    &&& (*slab)@.slots[handle.index() as int].value is None
                    &&& handle.generation() == (*slab)@.slots[handle.index() as int].generation
                    &&& only_slot(
                        (*slab)@,
                        final(slab)@,
                        handle.index(),
                        handle.generation(),
                        Some(value),
                    )
                    &&& final(slab)@.free == (*slab)@.free.drop_first()
                },
                Err(_) => (*slab)@.free.len() == 0 && final(slab)@ == (*slab)@,
            },
{
    broadcast use handle_of;

    assert forall|slab: &mut Slab<T>| #[trigger]
        call_ensures(Slab::<T>::insert, (slab, value), r) && (*slab).wf() && r is Ok implies {
        let index = (*slab)@.free[0];
        index < (*slab)@.slots.len() && (*slab)@.slots[index as int].value is None
    } by {
        inserted_wf((*slab)@, value);
    }
}

/// **An entry comes out once**: the one its handle names, and nothing where it names none. Its slot
/// is empty then; under the next generation, and the next to be filled, or for good where there is
/// no next generation. Nothing else moves.
pub proof fn an_entry_comes_out_once<T>(handle: Handle<T>, r: Option<T>)
    ensures
        forall|slab: &mut Slab<T>| #[trigger]
            call_ensures(Slab::<T>::remove, (slab, handle), r) ==> {
                let (before, after) = ((*slab)@, final(slab)@);
                let slot = before.slots[handle.index() as int];
                if handle.index() < before.slots.len() && slot.value is Some && slot.generation
                    == handle.generation() {
                    &&& r == slot.value
                    &&& slot.generation < 0xffff_ffff ==> only_slot(
                        before,
                        after,
                        handle.index(),
                        (slot.generation + 1) as u32,
                        None,
                    ) && after.free == seq![handle.index()] + before.free
                    &&& slot.generation == 0xffff_ffff ==> only_slot(
                        before,
                        after,
                        handle.index(),
                        slot.generation,
                        None,
                    ) && after.free == before.free
                } else {
                    r is None && after == before
                }
            },
{
}

/// **A handle finds the entry it was given for, and no later one**: the one in its slot, while that
/// slot is of its generation.
pub proof fn a_handle_finds_its_own_entry<T>(
    slab: &Slab<T>,
    handle: Handle<T>,
    found: Option<&T>,
    there: bool,
    named: Option<Handle<T>>,
)
    requires
        call_ensures(Slab::<T>::get, (slab, handle), found),
        call_ensures(Slab::<T>::contains, (slab, handle), there),
        call_ensures(Slab::<T>::handle_at, (slab, handle.index()), named),
    ensures
        ({
            let slot = slab@.slots[handle.index() as int];
            let filled = handle.index() < slab@.slots.len() && slot.value is Some;
            &&& there <==> filled && slot.generation == handle.generation()
            &&& found is Some <==> there
            &&& there ==> Some(*(found->0)) == slot.value
            &&& named is Some <==> filled
            &&& filled ==> (named->0).index() == handle.index() && (named->0).generation()
                == slot.generation
        }),
{
    broadcast use handle_of;

}

} // verus!
