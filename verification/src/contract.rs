//! Contracts, as the engine sees them.
//!
//! **The engine never sees a description.** Identity is byte equality over the full description
//! plus event date plus resolution source, and that comparison happens at the gateway, which
//! hands the engine an index.
//!
//! The engine models **no** proposal, dispute or voting either: its interface to the oracle is
//! one status type, reported monotonically.

use crate::types::{Dur, Ts};
use vstd::prelude::*;

verus! {

/// A dense contract index, assigned by the gateway on first sight.
///
/// **No generation, and deliberately.** Nothing ever frees a contract, since escrows resolve
/// against it for months after the trade, so an index is never reused and a stale one cannot
/// exist.
#[derive(Clone, Copy, Debug, PartialEq, Eq, Structural, PartialOrd, Ord)]
pub struct ContractIdx(pub u32);

impl Default for ContractIdx {
    fn default() -> (r: Self)
        ensures
            r == ContractIdx(0),
    {
        ContractIdx(0)
    }
}

/// How a contract resolved.
#[derive(Clone, Copy, Debug, PartialEq, Eq, Structural)]
pub enum Outcome {
    /// The event happened.
    Yes,
    /// It did not.
    No,
    /// Neither: each side gets back its own contribution.
    Void,
}

/// What the oracle says about a contract.
#[derive(Clone, Copy, Debug, PartialEq, Eq, Structural)]
pub enum OracleStatus {
    /// Nothing has been proposed.
    Silent,
    /// An outcome has been proposed and is not final.
    InProgress,
    /// The outcome is final, and immutable.
    Final(Outcome),
}

impl OracleStatus {
    /// How far along a status is.
    pub open spec fn rank(self) -> int {
        match self {
            OracleStatus::Silent => 0,
            OracleStatus::InProgress => 1,
            OracleStatus::Final(_) => 2,
        }
    }

    /// Whether `next` may be reported after `self`: statuses never move backwards, and a final
    /// one refuses every later report, its own repetition included.
    pub open spec fn admits(self, next: OracleStatus) -> bool {
        self !is Final && self.rank() <= next.rank()
    }

    /// Whether `next` may be reported after `self`.
    pub fn may_become(self, next: OracleStatus) -> (r: bool)
        ensures
            r == self.admits(next),
    {
        match (self, next) {
            (OracleStatus::Final(_), _) => false,
            (OracleStatus::InProgress, OracleStatus::Silent) => false,
            _ => true,
        }
    }
}

/// Whether a contract has an outcome the oracle has made final.
#[derive(Clone, Copy, Debug, PartialEq, Eq, Structural)]
pub enum ContractState {
    /// No final outcome.
    Unresolved,
    /// The oracle's final outcome.
    Resolved(Outcome),
}

/// What the engine knows about a contract: the date the event settles and what the oracle says.
/// The description and the resolution source stay at the gateway.
#[derive(Clone, Copy, Debug, PartialEq, Eq, Structural)]
pub struct Contract {
    pub event_date: Ts,
    pub oracle_status: OracleStatus,
}

impl Contract {
    /// A contract settling at `event_date`, about which the oracle has said nothing.
    pub open spec fn unreported(event_date: Ts) -> Self {
        Contract { event_date, oracle_status: OracleStatus::Silent }
    }

    /// A contract settling at `event_date`.
    pub fn new(event_date: Ts) -> (r: Self)
        ensures
            r == Contract::unreported(event_date),
    {
        Contract { event_date, oracle_status: OracleStatus::Silent }
    }

    /// When the event this contract is about occurs.
    ///
    /// Gates admission, so escrow can never form on a contract whose stall grace has already
    /// elapsed.
    pub fn event_date(&self) -> (r: Ts)
        ensures
            r == self.event_date,
    {
        self.event_date
    }

    /// What the oracle last said.
    pub fn oracle_status(&self) -> (r: OracleStatus)
        ensures
            r == self.oracle_status,
    {
        self.oracle_status
    }

    /// Whether the oracle has made an outcome final.
    pub fn state(&self) -> (r: ContractState)
        ensures
            r == (match self.oracle_status {
                OracleStatus::Final(outcome) => ContractState::Resolved(outcome),
                _ => ContractState::Unresolved,
            }),
    {
        match self.oracle_status {
            OracleStatus::Final(outcome) => ContractState::Resolved(outcome),
            _ => ContractState::Unresolved,
        }
    }

    /// Record what the oracle says. Monotonicity is checked by the caller.
    pub(crate) fn set_oracle_status(&mut self, status: OracleStatus)
        ensures
            *final(self) == (Contract { oracle_status: status, ..*old(self) }),
    {
        self.oracle_status = status;
    }

    /// The outcome an escrow on this contract may be paid under at `now`: the final one, or
    /// `Void` once the oracle has been silent for longer than `stall_grace` after the event.
    /// An oracle that has proposed anything closes the stall exit for good.
    pub open spec fn payable(self, now: Ts, stall_grace: Dur) -> Option<Outcome> {
        match self.oracle_status {
            OracleStatus::Final(outcome) => Some(outcome),
            OracleStatus::InProgress => None,
            OracleStatus::Silent => if now.0 > self.event_date.0 + stall_grace.0 {
                Some(Outcome::Void)
            } else {
                None
            },
        }
    }

    /// The outcome an escrow on this contract may be paid under at `now`, if any.
    pub fn outcome_at(&self, now: Ts, stall_grace: Dur) -> (r: Option<Outcome>)
        ensures
            r == self.payable(now, stall_grace),
    {
        match self.oracle_status {
            OracleStatus::Final(outcome) => Some(outcome),
            OracleStatus::InProgress => None,
            OracleStatus::Silent => match self.event_date.checked_add(stall_grace) {
                Some(stalled) => if now.0 > stalled.0 {
                    Some(Outcome::Void)
                } else {
                    None
                },
                None => None,
            },
        }
    }
}

/// **A disputed contract never times out**: once the oracle has proposed anything, no passage of
/// time makes the contract payable, only finality does; and a final outcome is what is paid at
/// every instant.
pub proof fn only_silence_times_out(contract: Contract, now: Ts, stall_grace: Dur)
    ensures
        contract.oracle_status is InProgress ==> contract.payable(now, stall_grace) is None,
        contract.oracle_status matches OracleStatus::Final(outcome) ==> contract.payable(
            now,
            stall_grace,
        ) == Some(outcome),
        contract.oracle_status is Silent ==> (contract.payable(now, stall_grace) is Some
            <==> now.0 > contract.event_date.0 + stall_grace.0),
{
}

/// **An oracle's word only moves forwards**: from silence to anything, from a question in progress to
/// itself or to a final outcome, and from a final outcome to nothing, itself included.
pub proof fn an_oracles_word_moves_forwards(status: OracleStatus, next: OracleStatus, r: bool)
    requires
        call_ensures(OracleStatus::may_become, (status, next), r),
    ensures
        r == (match (status, next) {
            (OracleStatus::Silent, _) => true,
            (OracleStatus::InProgress, OracleStatus::Silent) => false,
            (OracleStatus::InProgress, _) => true,
            (OracleStatus::Final(_), _) => false,
        }),
{
}

/// **What a contract pays on**: its final outcome, whenever; nothing while the question is in
/// progress; and as void once the oracle has been silent for longer than the grace after the event.
pub proof fn a_contract_pays_on_its_outcome(
    contract: &Contract,
    now: Ts,
    stall_grace: Dur,
    r: Option<Outcome>,
    state: ContractState,
)
    requires
        call_ensures(Contract::outcome_at, (contract, now, stall_grace), r),
        call_ensures(Contract::state, (contract,), state),
    ensures
        match contract.oracle_status {
            OracleStatus::Final(outcome) => r == Some(outcome) && state == ContractState::Resolved(
                outcome,
            ),
            OracleStatus::InProgress => r is None && state == ContractState::Unresolved,
            OracleStatus::Silent => {
                &&& state == ContractState::Unresolved
                &&& now.0 > contract.event_date.0 + stall_grace.0 ==> r == Some(Outcome::Void)
                &&& now.0 <= contract.event_date.0 + stall_grace.0 ==> r is None
            },
        },
{
}

} // verus!
