//! The command set.
//!
//! Everything that mutates engine state arrives here, on one bounded channel consumed by one
//! thread. What is *absent* is a design statement: there is no `Deposit`, `RequestWithdrawal` or
//! `ExecuteWithdrawal`. Those are custody's own operations. The engine cannot move money and has
//! never heard of a balance it did not receive through the indexer.
//!
//! Authorisation is designed and not enforced: "requester only" and "oracle adapter only" are
//! the gateway's boundary, not the engine's.

use crate::account::AccountIdx;
use crate::config::MAX_LEGS;
use crate::contract::{ContractIdx, OracleStatus};
use crate::escrow::EscrowId;
use crate::quote::QuoteIdx;
use crate::request::{Nonce, ReqIdx};
use crate::settlement::TxStatus;
use crate::types::{Amount, LegId, Price, Side, Size, Ts};
use vstd::prelude::*;

verus! {

/// One leg of a request, as its requester submits it.
#[derive(Clone, Copy, Debug, PartialEq, Eq, Structural)]
pub struct LegSpec {
    /// Which contract.
    pub contract: ContractIdx,
    /// The side the requester is buying.
    pub side: Side,
    /// How much.
    pub size: Size,
    /// The worst price the requester will pay. Never shown to a maker.
    pub limit: Price,
}

impl LegSpec {
    /// A leg nothing has been written into.
    pub open spec fn blank() -> Self {
        LegSpec { contract: ContractIdx(0), side: Side::Yes, size: Size(0), limit: Price(0) }
    }
}

impl Default for LegSpec {
    fn default() -> (r: Self)
        ensures
            r == LegSpec::blank(),
    {
        LegSpec { contract: ContractIdx(0), side: Side::Yes, size: Size(0), limit: Price(0) }
    }
}

/// What the requester was shown for one leg when they accepted.
#[derive(Clone, Copy, Debug, PartialEq, Eq, Structural)]
pub struct ExpectedFill {
    /// Which leg.
    pub leg: LegId,
    /// The price they saw. The fill is at this price or better.
    pub price: Price,
}

impl Default for ExpectedFill {
    fn default() -> (r: Self)
        ensures
            r == (ExpectedFill { leg: LegId(0), price: Price(0) }),
    {
        ExpectedFill { leg: LegId(0), price: Price(0) }
    }
}

/// A state-mutating request to the engine.
#[allow(inconsistent_fields)]
#[derive(Clone, Copy, Debug, PartialEq, Eq)]
pub enum Command {
    /// Custody's availability for one account changed. Carries the new value, not a difference,
    /// so a replay is harmless.
    CreditAccount {
        /// Whose.
        account: AccountIdx,
        /// What custody has available for them.
        free: Amount,
    },
    /// The gateway assigned an index to a contract.
    RegisterContract {
        /// The index.
        contract: ContractIdx,
        /// When the event settles.
        event_date: Ts,
    },
    /// Open a request against one or more legs, reserving the sum of `size * limit`.
    SubmitRequest {
        /// Who asks.
        requester: AccountIdx,
        /// When quoting closes.
        deadline: Ts,
        /// The legs.
        legs: [LegSpec; MAX_LEGS],
        /// How many are real.
        n_legs: u8,
    },
    /// Requester withdraws their own request, releasing every standing quote on it.
    RejectRequest {
        /// Which request.
        request: ReqIdx,
    },
    /// Requester accepts, carrying the per-leg prices they were shown; fills at-or-better or
    /// rejects as stale.
    AcceptRequest {
        /// Which request.
        request: ReqIdx,
        /// What they saw, in leg order.
        expected: [ExpectedFill; MAX_LEGS],
        /// How many are real.
        n_legs: u8,
    },
    /// Maker quotes one leg, reserving `leg.size * (UNIT - price)`.
    SubmitQuote {
        /// Who quotes.
        maker: AccountIdx,
        /// Which request.
        request: ReqIdx,
        /// Which leg.
        leg: LegId,
        /// The price of the side the requester is buying.
        price: Price,
        /// How much the maker offers. At least the leg's size.
        size: Size,
        /// When the offer stops binding.
        expires_at: Ts,
    },
    /// Present as a **rejected** transition, not as an absent one: quotes are irrevocable until
    /// expiry, and enabling cancellation is then a policy change rather than a redesign.
    CancelQuote {
        /// Which quote.
        quote: QuoteIdx,
    },
    /// Tell the engine what became of a nonce; the request leaves `Settling` only on a
    /// definitive answer.
    PollSettlement {
        /// Which nonce.
        nonce: Nonce,
        /// Its fate.
        status: TxStatus,
    },
    /// Oracle adapter reports a status, monotonically.
    ReportOracleStatus {
        /// Which contract.
        contract: ContractIdx,
        /// What the oracle says.
        status: OracleStatus,
    },
    /// Pay out one escrow.
    SettleEscrow {
        /// Which escrow.
        escrow: EscrowId,
        /// The contract it rests on.
        contract: ContractIdx,
    },
}

} // verus!
