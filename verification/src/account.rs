//! Accounts: the balance mirror and the two claim totals.
//!
//! The engine holds a **read-only projection** of custody's balances, used for admission
//! only. It is never authoritative: admission uses it, settlement revalidates against custody
//! and reverts wholesale on disagreement. A stale mirror can therefore cause a failed
//! settlement, a liveness cost, but never a money-state error.
//!
//! `reserved` and `committed` sit beside the mirrored balance because they are **claims
//! against it, not partitions of it**. Reserving moves no money; it records that the engine
//! has promised a unit will be available. So `free` is not decremented by a reservation, and
//! the quantity admission actually asks about is `free - reserved - committed`.

use crate::types::Amount;
use vstd::prelude::*;

verus! {

/// A dense account index, assigned by the gateway on first sight.
///
/// Unlike a slab handle this carries **no generation**, and deliberately: accounts are never
/// freed, so an index is never reused and a stale one cannot exist.
#[derive(Clone, Copy, Debug, PartialEq, Eq, Structural, PartialOrd, Ord)]
pub struct AccountIdx(pub u32);

impl Default for AccountIdx {
    fn default() -> (r: Self)
        ensures
            r == AccountIdx(0),
    {
        AccountIdx(0)
    }
}

/// The nil link. `u32::MAX` is reserved, so a chain can hold `u32::MAX - 1` entries.
pub const NIL: u32 = u32::MAX;

/// An intrusive chain link: a bare slab index, or nil.
///
/// Bare rather than a generation-carrying handle because this is a link the ledger maintains
/// itself and never hands out. A generation protects against a *stale* reference held by
/// someone else; a link the structure owns cannot be stale.
#[derive(Clone, Copy, Debug, PartialEq, Eq, Structural)]
pub struct Link(pub u32);

impl Default for Link {
    /// Nil, not index zero: a link to slot 0 would make a fresh chain look populated before
    /// anything is on it.
    fn default() -> (r: Self)
        ensures
            r == Link(NIL),
    {
        Link(NIL)
    }
}

impl Link {
    /// The nil link.
    pub fn nil() -> (r: Self)
        ensures
            r == Link(NIL),
    {
        Link(NIL)
    }

    /// A link to `index`.
    pub fn to(index: u32) -> (r: Self)
        requires
            index != NIL,
        ensures
            r == Link(index),
    {
        Link(index)
    }

    /// The index this link names, as a mathematical fact.
    pub open spec fn target(self) -> Option<u32> {
        if self.0 == NIL {
            None
        } else {
            Some(self.0)
        }
    }

    /// The index this link names, or `None` if it is nil.
    pub fn index(self) -> (r: Option<u32>)
        ensures
            r == self.target(),
    {
        if self.0 == NIL {
            None
        } else {
            Some(self.0)
        }
    }
}

/// One account's state on the engine side: the mirrored balance, the two stored claim totals,
/// and the endpoints of its expiry-ordered reservation chain.
///
/// The chain endpoints live here rather than in a parallel array because the stored total and
/// the chain it summarises are asserted against each other account by account.
#[derive(Clone, Copy, Debug, PartialEq, Eq, Structural)]
pub struct MirroredBalance {
    /// Projection of custody's availability. Never written by engine logic, only by a chain
    /// event.
    pub free: Amount,
    /// Stored total. Equal to the sum of amounts on this account's expiry chain.
    pub reserved: Amount,
    /// Stored total. Equal to the sum of this account's amounts across the committed lists of
    /// every request. Committed capital has no expiry and may not be released on a guess.
    pub committed: Amount,
    /// Head of the expiry-ordered chain: the soonest expiry, and where reclamation starts.
    pub expiry_head: Link,
    /// Tail: the latest expiry, and where insertion walks back from.
    pub expiry_tail: Link,
}

impl Default for MirroredBalance {
    fn default() -> (r: Self)
        ensures
            r == MirroredBalance::empty(),
    {
        MirroredBalance {
            free: Amount(0),
            reserved: Amount(0),
            committed: Amount(0),
            expiry_head: Link(NIL),
            expiry_tail: Link(NIL),
        }
    }
}

impl MirroredBalance {
    /// An account with no balance and no claims.
    pub open spec fn empty() -> Self {
        MirroredBalance {
            free: Amount(0),
            reserved: Amount(0),
            committed: Amount(0),
            expiry_head: Link(NIL),
            expiry_tail: Link(NIL),
        }
    }

    /// The account without its chain endpoints.
    pub open spec fn unthreaded(self) -> Self {
        MirroredBalance { expiry_head: Link(NIL), expiry_tail: Link(NIL), ..self }
    }

    /// The mirrored free balance.
    pub fn free(&self) -> (r: Amount)
        ensures
            r == self.free,
    {
        self.free
    }

    /// The stored `reserved` total.
    pub fn reserved(&self) -> (r: Amount)
        ensures
            r == self.reserved,
    {
        self.reserved
    }

    /// The stored `committed` total.
    pub fn committed(&self) -> (r: Amount)
        ensures
            r == self.committed,
    {
        self.committed
    }

    /// `free - reserved - committed`, or zero where the claims exceed the balance.
    pub open spec fn spare(self) -> Amount {
        if self.reserved.0 + self.committed.0 <= self.free.0 {
            Amount((self.free.0 - self.reserved.0 - self.committed.0) as u64)
        } else {
            Amount(0)
        }
    }

    /// What a new claim may draw on.
    ///
    /// Saturating at zero rather than checked: the subtraction cannot go negative on an account
    /// whose claims are covered, and a caller asking "how much is spare" has no use for an
    /// error.
    pub fn available(&self) -> (r: Amount)
        ensures
            r == self.spare(),
    {
        Amount(self.free.0.saturating_sub(self.reserved.0).saturating_sub(self.committed.0))
    }

    /// The mirrored balance covers every claim against it.
    pub open spec fn covered(self) -> bool {
        self.reserved.0 + self.committed.0 <= self.free.0
    }
}

/// **What an account may still promise is what it has less what it has promised**, and nothing where
/// it has promised more.
pub proof fn what_is_available_is_not_promised(entry: &MirroredBalance, r: Amount)
    requires
        call_ensures(MirroredBalance::available, (entry,), r),
    ensures
        entry.reserved.0 + entry.committed.0 <= entry.free.0 ==> r.0 + entry.reserved.0
            + entry.committed.0 == entry.free.0,
        entry.reserved.0 + entry.committed.0 > entry.free.0 ==> r.0 == 0,
{
}

} // verus!
