//! What the engine may know about a settlement transaction.
//!
//! A synchronous call has two outcomes. A transaction submitted to a network has **three**,
//! because between submission and inclusion there is an interval in which no local answer
//! exists. Every local guess during that interval is wrong:
//!
//! | Guess | Consequence |
//! |---|---|
//! | assume failure, release the claims | the maker requotes the same capital, the transaction lands: **duplicated** |
//! | assume success, record the escrow | the transaction reverts, an escrow that exists nowhere: **invented** |
//! | hold indefinitely | the node never received it, capital claimed forever: **stuck** |
//!
//! The resolution is not to guess. The bundle carries a nonce that is unique, and the request
//! sits in `Settling` with its claims held until the nonce's fate is definitively known.

use vstd::prelude::*;

verus! {

/// The fate of a **nonce**, against final chain state, not the outcome of whichever submission
/// most recently carried it: a retry bouncing off its own nonce is evidence the original
/// succeeded.
///
/// **Monotonic and terminal.** Once a nonce reaches `Settled` or `Reverted` that answer is
/// immutable.
#[derive(Clone, Copy, Debug, PartialEq, Eq, Structural, PartialOrd, Ord)]
pub enum TxStatus {
    /// No local answer exists. **Never a reason to release anything.**
    Unknown,
    /// Received and not yet included.
    Pending,
    /// Included and applied. Terminal.
    Settled,
    /// Included and reverted, or refused. Terminal.
    Reverted,
}

impl TxStatus {
    /// Whether this answer is final.
    pub open spec fn terminal(self) -> bool {
        self is Settled || self is Reverted
    }

    /// Whether this answer is final. Only a final answer may move a request out of `Settling`;
    /// everything else means keep holding and keep polling.
    pub fn is_terminal(self) -> (r: bool)
        ensures
            r == self.terminal(),
    {
        matches!(self, TxStatus::Settled | TxStatus::Reverted)
    }
}

/// **Only a settled or reverted answer is final.**
pub proof fn an_answer_is_final_or_not(status: TxStatus, r: bool)
    requires
        call_ensures(TxStatus::is_terminal, (status,), r),
    ensures
        match status {
            TxStatus::Unknown => !r,
            TxStatus::Pending => !r,
            TxStatus::Settled => r,
            TxStatus::Reverted => r,
        },
{
}

} // verus!
