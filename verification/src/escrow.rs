//! The one thing the core knows about an escrow: its id.
//!
//! Escrows are owned by custody, not by the core. The engine holds an `EscrowId` and cannot
//! reach into balances, contributions or state.

use vstd::prelude::*;

verus! {

/// A dense escrow index, assigned by custody.
///
/// No generation: an escrow is never freed. A settled escrow stays in the record because
/// re-settlement must be a no-op rather than a lookup failure.
#[derive(Clone, Copy, Debug, PartialEq, Eq, Structural, PartialOrd, Ord)]
pub struct EscrowId(pub u32);

impl Default for EscrowId {
    fn default() -> (r: Self)
        ensures
            r == EscrowId(0),
    {
        EscrowId(0)
    }
}

} // verus!
