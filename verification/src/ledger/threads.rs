//! Doubly linked threads through the claim slab.
//!
//! A thread is a sequence of slots whose claims link each to the next and each back to the
//! one before. The links determine the sequence, and splicing one slot in or out of the links
//! is inserting it in or removing it from the sequence.

use crate::account::{Link, NIL};
use crate::reservation::Reservation;
use crate::slab::SlabView;
use vstd::prelude::*;

verus! {

/// A link to the `k`-th slot of `thread`, nil outside it.
pub open spec fn link_at(thread: Seq<u32>, k: int) -> Link {
    if 0 <= k < thread.len() {
        Link(thread[k])
    } else {
        Link(NIL)
    }
}

/// The `k`-th slot of `thread` is live and linked to its neighbours.
pub open spec fn linked(claims: SlabView<Reservation>, thread: Seq<u32>, k: int) -> bool {
    &&& claims.occupied(thread[k])
    &&& claims.at(thread[k]).links.prev() == link_at(thread, k - 1)
    &&& claims.at(thread[k]).links.next() == link_at(thread, k + 1)
}

/// `thread` is what the links spell.
pub open spec fn threaded(claims: SlabView<Reservation>, thread: Seq<u32>) -> bool {
    &&& thread.no_duplicates()
    &&& forall|k: int| 0 <= k < thread.len() ==> #[trigger] linked(claims, thread, k)
}

proof fn threads_agree(claims: SlabView<Reservation>, a: Seq<u32>, b: Seq<u32>, k: int)
    requires
        claims.wf(),
        threaded(claims, a),
        threaded(claims, b),
        link_at(a, 0) == link_at(b, 0),
        0 <= k < a.len(),
    ensures
        k < b.len(),
        a[k] == b[k],
    decreases k,
{
    assert(linked(claims, a, k));
    assert(a[k] < claims.slots.len());
    if k == 0 {
        assert(link_at(a, 0) == Link(a[0]));
        if b.len() == 0 {
            assert(link_at(b, 0) == Link(NIL));
        }
    } else {
        threads_agree(claims, a, b, k - 1);
        assert(linked(claims, a, k - 1));
        assert(linked(claims, b, k - 1));
        assert(link_at(a, k) == Link(a[k]));
    }
}

/// A thread is determined by its first link.
pub proof fn threads_unique(claims: SlabView<Reservation>, a: Seq<u32>, b: Seq<u32>)
    requires
        claims.wf(),
        threaded(claims, a),
        threaded(claims, b),
        link_at(a, 0) == link_at(b, 0),
    ensures
        a == b,
{
    if a.len() > 0 {
        threads_agree(claims, a, b, a.len() - 1);
    }
    if b.len() > 0 {
        threads_agree(claims, b, a, b.len() - 1);
    }
    assert forall|k: int| 0 <= k < a.len() implies a[k] == b[k] by {
        threads_agree(claims, a, b, k);
    }
    assert(a =~= b);
}

/// A thread none of whose slots' links changed is still a thread.
pub proof fn thread_kept(
    before: SlabView<Reservation>,
    after: SlabView<Reservation>,
    thread: Seq<u32>,
)
    requires
        threaded(before, thread),
        forall|k: int|
            0 <= k < thread.len() ==> after.occupied(#[trigger] thread[k]) && after.at(
                thread[k],
            ).links.prev() == before.at(thread[k]).links.prev() && after.at(thread[k]).links.next()
                == before.at(thread[k]).links.next(),
    ensures
        threaded(after, thread),
{
    assert forall|k: int| 0 <= k < thread.len() implies #[trigger] linked(after, thread, k) by {
        assert(linked(before, thread, k));
        assert(after.occupied(thread[k]));
    }
}

/// Splicing a slot in at position `p`.
pub proof fn thread_inserted(
    before: SlabView<Reservation>,
    after: SlabView<Reservation>,
    thread: Seq<u32>,
    p: int,
    slot: u32,
)
    requires
        threaded(before, thread),
        0 <= p <= thread.len(),
        !thread.contains(slot),
        after.occupied(slot),
        after.at(slot).links.prev() == link_at(thread, p - 1),
        after.at(slot).links.next() == link_at(thread, p),
        forall|k: int|
            0 <= k < thread.len() ==> {
                &&& after.occupied(#[trigger] thread[k])
                &&& after.at(thread[k]).links.prev() == (if k == p {
                    Link(slot)
                } else {
                    before.at(thread[k]).links.prev()
                })
                &&& after.at(thread[k]).links.next() == (if k == p - 1 {
                    Link(slot)
                } else {
                    before.at(thread[k]).links.next()
                })
            },
    ensures
        threaded(after, thread.insert(p, slot)),
{
    let longer = thread.insert(p, slot);
    assert forall|k: int| 0 <= k < longer.len() implies #[trigger] linked(after, longer, k) by {
        if k < p {
            assert(longer[k] == thread[k]);
            assert(linked(before, thread, k));
            assert(after.occupied(thread[k]));
        } else if k > p {
            assert(longer[k] == thread[k - 1]);
            assert(linked(before, thread, k - 1));
            assert(after.occupied(thread[k - 1]));
        }
    }
    assert forall|j: int, k: int| 0 <= j < longer.len() && 0 <= k < longer.len() && j
        != k implies longer[j] != longer[k] by {
        assert(j < p ==> longer[j] == thread[j] && thread.contains(thread[j]));
        assert(j > p ==> longer[j] == thread[j - 1] && thread.contains(thread[j - 1]));
        assert(k < p ==> longer[k] == thread[k] && thread.contains(thread[k]));
        assert(k > p ==> longer[k] == thread[k - 1] && thread.contains(thread[k - 1]));
    }
}

/// Splicing the slot at position `p` out.
pub proof fn thread_removed(
    before: SlabView<Reservation>,
    after: SlabView<Reservation>,
    thread: Seq<u32>,
    p: int,
)
    requires
        threaded(before, thread),
        0 <= p < thread.len(),
        forall|k: int|
            0 <= k < thread.len() && k != p ==> {
                &&& after.occupied(#[trigger] thread[k])
                &&& after.at(thread[k]).links.prev() == (if k == p + 1 {
                    before.at(thread[p]).links.prev()
                } else {
                    before.at(thread[k]).links.prev()
                })
                &&& after.at(thread[k]).links.next() == (if k == p - 1 {
                    before.at(thread[p]).links.next()
                } else {
                    before.at(thread[k]).links.next()
                })
            },
    ensures
        threaded(after, thread.remove(p)),
{
    let shorter = thread.remove(p);
    assert(linked(before, thread, p));
    assert forall|k: int| 0 <= k < shorter.len() implies #[trigger] linked(after, shorter, k) by {
        let from = if k < p { k } else { k + 1 };
        assert(shorter[k] == thread[from]);
        assert(linked(before, thread, from));
        assert(after.occupied(thread[from]));
    }
    assert forall|j: int, k: int| 0 <= j < shorter.len() && 0 <= k < shorter.len() && j
        != k implies shorter[j] != shorter[k] by {
        let fj = if j < p { j } else { j + 1 };
        let fk = if k < p { k } else { k + 1 };
        assert(shorter[j] == thread[fj] && shorter[k] == thread[fk]);
    }
}

} // verus!
