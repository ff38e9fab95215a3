//! The optimistic oracle, as far as the venue needs one.
//!
//! Propose, a challenge window, contestation, finality, and an escalation authority that can
//! rule anything, including `Void`.
//!
//! **None of this is in the engine.** What crosses is an [`OracleStatus`], carried by an adapter
//! into the same command queue as everything else: a status that only ever moves forwards.

use crate::account::AccountIdx;
use crate::clock::Clock;
use crate::contract::{ContractIdx, OracleStatus, Outcome};
use crate::types::{Dur, Ts};
use std::collections::BTreeMap;
use vstd::prelude::*;

verus! {

/// Why the oracle refused.
#[derive(Clone, Copy, Debug, PartialEq, Eq, Structural)]
pub enum OracleError {
    /// A proposal already stands.
    AlreadyProposed,
    /// Nothing has been proposed, so there is nothing to contest or finalise.
    NothingProposed,
    /// The challenge window has not elapsed, or would never close.
    WindowOpen,
    /// The proposal was contested, so it cannot finalise on its own. Only the escalation
    /// authority can end it.
    Contested,
    /// Already decided. `Final` is terminal here as well as in the engine.
    AlreadyFinal,
    /// Someone other than the escalation authority tried to rule.
    NotTheEscalationAuthority,
}

/// What the oracle knows about one contract.
#[derive(Clone, Copy, Debug, PartialEq, Eq, Structural)]
pub enum Proposal {
    /// Proposed, and contestable until this instant.
    Proposed {
        /// What was proposed.
        outcome: Outcome,
        /// When it can no longer be contested.
        window_closes: Ts,
    },
    /// Contested. It can no longer finalise on its own.
    Contested,
    /// Decided.
    Final(Outcome),
}

impl Proposal {
    /// What the engine would be told: proposal, window and contestation all collapse to
    /// `InProgress`.
    pub open spec fn told(proposal: Option<Proposal>) -> OracleStatus {
        match proposal {
            None => OracleStatus::Silent,
            Some(Proposal::Final(outcome)) => OracleStatus::Final(outcome),
            Some(_) => OracleStatus::InProgress,
        }
    }

    /// What proposing `outcome` at `now` leads to.
    pub open spec fn proposed(
        standing: Option<Proposal>,
        outcome: Outcome,
        now: Ts,
        window: Dur,
    ) -> Result<Proposal, OracleError> {
        match standing {
            Some(Proposal::Final(_)) => Err(OracleError::AlreadyFinal),
            Some(_) => Err(OracleError::AlreadyProposed),
            None => if now.0 + window.0 > u64::MAX {
                Err(OracleError::WindowOpen)
            } else {
                Ok(Proposal::Proposed { outcome, window_closes: Ts((now.0 + window.0) as u64) })
            },
        }
    }

    /// What contesting leads to. Contesting twice is contesting once.
    pub open spec fn contested(standing: Option<Proposal>) -> Result<Proposal, OracleError> {
        match standing {
            Some(Proposal::Final(_)) => Err(OracleError::AlreadyFinal),
            Some(_) => Ok(Proposal::Contested),
            None => Err(OracleError::NothingProposed),
        }
    }

    /// What finalising at `now` leads to: only an uncontested proposal whose window has closed
    /// becomes final.
    pub open spec fn finalised(standing: Option<Proposal>, now: Ts) -> Result<
        Outcome,
        OracleError,
    > {
        match standing {
            Some(Proposal::Proposed { outcome, window_closes }) => if now.0 < window_closes.0 {
                Err(OracleError::WindowOpen)
            } else {
                Ok(outcome)
            },
            Some(Proposal::Contested) => Err(OracleError::Contested),
            Some(Proposal::Final(_)) => Err(OracleError::AlreadyFinal),
            None => Err(OracleError::NothingProposed),
        }
    }

    /// Why `who` may not rule, if they may not.
    pub open spec fn ruling_refused(
        standing: Option<Proposal>,
        who: AccountIdx,
        authority: AccountIdx,
    ) -> Option<OracleError> {
        if who != authority {
            Some(OracleError::NotTheEscalationAuthority)
        } else if standing matches Some(Proposal::Final(_)) {
            Some(OracleError::AlreadyFinal)
        } else {
            None
        }
    }
}

/// Whatever the oracle does next to a contract, the status the engine is told never moves
/// backwards, and an outcome once final is never replaced.
pub proof fn the_oracle_never_regresses(
    standing: Option<Proposal>,
    outcome: Outcome,
    now: Ts,
    window: Dur,
    who: AccountIdx,
    authority: AccountIdx,
)
    ensures
        Proposal::proposed(standing, outcome, now, window) matches Ok(next) ==> Proposal::told(
            standing,
        ).admits(Proposal::told(Some(next))),
        Proposal::contested(standing) matches Ok(next) ==> Proposal::told(standing).admits(
            Proposal::told(Some(next)),
        ),
        Proposal::finalised(standing, now) matches Ok(found) ==> Proposal::told(standing).admits(
            Proposal::told(Some(Proposal::Final(found))),
        ),
        Proposal::ruling_refused(standing, who, authority) is None ==> Proposal::told(
            standing,
        ).admits(Proposal::told(Some(Proposal::Final(outcome)))),
{
}

/// Contesting buys a delay, never an outcome: a contested proposal is not finalised at any
/// instant, is not the silence a stall exit conditions on, and only a ruling ends it.
pub proof fn a_contest_is_ended_only_by_a_ruling(standing: Proposal, now: Ts)
    requires
        Proposal::contested(Some(standing)) == Ok::<Proposal, OracleError>(Proposal::Contested),
    ensures
        Proposal::finalised(Some(Proposal::Contested), now) == Err::<Outcome, OracleError>(
            OracleError::Contested,
        ),
        Proposal::told(Some(Proposal::Contested)) is InProgress,
{
}

/// **What is proposed and never contested is what becomes final**: a proposal opens its window at
/// its own instant, is refused at every instant before the window closes, and from then on is
/// final with exactly the outcome that was proposed, whichever it is.
pub proof fn what_is_proposed_becomes_final(
    outcome: Outcome,
    proposed_at: Ts,
    window: Dur,
    now: Ts,
)
    ensures
        proposed_at.0 + window.0 > u64::MAX ==> Proposal::proposed(
            None,
            outcome,
            proposed_at,
            window,
        ) == Err::<Proposal, OracleError>(OracleError::WindowOpen),
        proposed_at.0 + window.0 <= u64::MAX ==> {
            let next = Proposal::proposed(None, outcome, proposed_at, window);
            &&& next is Ok
            &&& next->Ok_0 is Proposed
            &&& next->Ok_0->window_closes.0 == proposed_at.0 + window.0
            &&& Proposal::told(Some(next->Ok_0)) == OracleStatus::InProgress
            &&& now.0 < proposed_at.0 + window.0 ==> Proposal::finalised(Some(next->Ok_0), now)
                == Err::<Outcome, OracleError>(OracleError::WindowOpen)
            &&& now.0 >= proposed_at.0 + window.0 ==> Proposal::finalised(Some(next->Ok_0), now)
                == Ok::<Outcome, OracleError>(outcome)
        },
        Proposal::told(Some(Proposal::Final(outcome))) == OracleStatus::Final(outcome),
{
}

/// **What each step is refused for**: a proposal over a standing one or a final one, a contest of
/// nothing or of what is final, a finalisation of nothing, of what is contested or of what is
/// final, and a ruling by anybody but the authority or over what is final.
pub proof fn every_step_is_refused_by_name(
    standing: Option<Proposal>,
    outcome: Outcome,
    now: Ts,
    window: Dur,
    who: AccountIdx,
    authority: AccountIdx,
)
    ensures
        match standing {
            None => {
                &&& Proposal::contested(standing) == Err::<Proposal, OracleError>(
                    OracleError::NothingProposed,
                )
                &&& Proposal::finalised(standing, now) == Err::<Outcome, OracleError>(
                    OracleError::NothingProposed,
                )
                &&& Proposal::told(standing) == OracleStatus::Silent
            },
            Some(Proposal::Proposed { .. }) => {
                &&& Proposal::proposed(standing, outcome, now, window) == Err::<
                    Proposal,
                    OracleError,
                >(OracleError::AlreadyProposed)
                &&& Proposal::contested(standing) == Ok::<Proposal, OracleError>(
                    Proposal::Contested,
                )
                &&& Proposal::told(standing) == OracleStatus::InProgress
            },
            Some(Proposal::Contested) => {
                &&& Proposal::proposed(standing, outcome, now, window) == Err::<
                    Proposal,
                    OracleError,
                >(OracleError::AlreadyProposed)
                &&& Proposal::contested(standing) == Ok::<Proposal, OracleError>(
                    Proposal::Contested,
                )
                &&& Proposal::finalised(standing, now) == Err::<Outcome, OracleError>(
                    OracleError::Contested,
                )
                &&& Proposal::told(standing) == OracleStatus::InProgress
            },
            Some(Proposal::Final(decided)) => {
                &&& Proposal::proposed(standing, outcome, now, window) == Err::<
                    Proposal,
                    OracleError,
                >(OracleError::AlreadyFinal)
                &&& Proposal::contested(standing) == Err::<Proposal, OracleError>(
                    OracleError::AlreadyFinal,
                )
                &&& Proposal::finalised(standing, now) == Err::<Outcome, OracleError>(
                    OracleError::AlreadyFinal,
                )
                &&& Proposal::told(standing) == OracleStatus::Final(decided)
            },
        },
        who != authority ==> Proposal::ruling_refused(standing, who, authority) == Some(
            OracleError::NotTheEscalationAuthority,
        ),
        who == authority ==> Proposal::ruling_refused(standing, who, authority) == (if standing
            is Some && standing->0 is Final {
            Some(OracleError::AlreadyFinal)
        } else {
            None
        }),
{
}

/// An optimistic oracle with its own clock.
#[derive(Debug)]
pub struct Oracle<C: Clock> {
    clock: C,
    challenge_window: Dur,
    escalation_authority: AccountIdx,
    contracts: BTreeMap<u32, Proposal>,
}

impl<C: Clock> Oracle<C> {
    /// What the oracle knows, by contract index.
    pub closed spec fn view(&self) -> Map<u32, Proposal> {
        self.contracts@
    }

    /// What the oracle knows about one contract.
    pub open spec fn standing(&self, contract: ContractIdx) -> Option<Proposal> {
        if self@.contains_key(contract.0) {
            Some(self@[contract.0])
        } else {
            None
        }
    }

    /// The clock the oracle reads.
    pub closed spec fn timepiece(&self) -> C {
        self.clock
    }

    /// How long a proposal may be contested.
    pub closed spec fn window(&self) -> Dur {
        self.challenge_window
    }

    /// Who may end a contest.
    pub closed spec fn authority(&self) -> AccountIdx {
        self.escalation_authority
    }

    /// The clock, the window and the authority are those of `other`.
    pub open spec fn configured_as(&self, other: &Self) -> bool {
        &&& self.timepiece() == other.timepiece()
        &&& self.window() == other.window()
        &&& self.authority() == other.authority()
    }

    /// An oracle with its own clock, its challenge window, and its escalation authority.
    pub fn new(clock: C, challenge_window: Dur, escalation_authority: AccountIdx) -> (r: Self)
        ensures
            r@ == Map::<u32, Proposal>::empty(),
            r.timepiece() == clock,
            r.window() == challenge_window,
            r.authority() == escalation_authority,
    {
        Oracle { clock, challenge_window, escalation_authority, contracts: BTreeMap::new() }
    }

    /// The oracle's clock, for a caller to advance.
    pub fn clock_mut(&mut self) -> (r: &mut C)
        ensures
            *r == old(self).timepiece(),
            final(self).timepiece() == *final(r),
            final(self)@ == old(self)@,
            final(self).window() == old(self).window(),
            final(self).authority() == old(self).authority(),
    {
        &mut self.clock
    }

    /// What stands on a contract.
    fn proposal(&self, contract: ContractIdx) -> (r: Option<Proposal>)
        ensures
            r == self.standing(contract),
    {
        match self.contracts.get(&contract.0) {
            Some(found) => Some(*found),
            None => None,
        }
    }

    /// What the engine would be told about this contract right now: the **only** thing that
    /// crosses into the engine.
    pub fn status(&self, contract: ContractIdx) -> (r: OracleStatus)
        ensures
            r == Proposal::told(self.standing(contract)),
    {
        match self.proposal(contract) {
            None => OracleStatus::Silent,
            Some(Proposal::Proposed { .. }) => OracleStatus::InProgress,
            Some(Proposal::Contested) => OracleStatus::InProgress,
            Some(Proposal::Final(outcome)) => OracleStatus::Final(outcome),
        }
    }

    /// Propose an outcome at the clock's reading, opening the challenge window.
    pub fn propose(&mut self, contract: ContractIdx, outcome: Outcome) -> (r: Result<
        Ts,
        OracleError,
    >)
        ensures
            final(self).configured_as(old(self)),
            exists|now: Ts| #[trigger]
                old(self).timepiece().may_read(now) && match Proposal::proposed(
                    old(self).standing(contract),
                    outcome,
                    now,
                    old(self).window(),
                ) {
                    Ok(next) => {
                        &&& r == Ok::<Ts, OracleError>(next->window_closes)
                        &&& final(self)@ == old(self)@.insert(contract.0, next)
                    },
                    Err(error) => r == Err::<Ts, OracleError>(error) && final(self)@ == old(self)@,
                },
    {
        let now = self.clock.now();
        self.propose_at(contract, outcome, now)
    }

    /// Propose an outcome at a sampled instant.
    pub fn propose_at(&mut self, contract: ContractIdx, outcome: Outcome, now: Ts) -> (r: Result<
        Ts,
        OracleError,
    >)
        ensures
            final(self).configured_as(old(self)),
            match Proposal::proposed(
                old(self).standing(contract),
                outcome,
                now,
                old(self).window(),
            ) {
                Ok(next) => {
                    &&& r == Ok::<Ts, OracleError>(next->window_closes)
                    &&& final(self)@ == old(self)@.insert(contract.0, next)
                },
                Err(error) => r == Err::<Ts, OracleError>(error) && final(self)@ == old(self)@,
            },
            old(self).standing(contract) is None && now.0 + old(self).window().0 <= u64::MAX ==> {
                let closes = Ts((now.0 + old(self).window().0) as u64);
                &&& r == Ok::<Ts, OracleError>(closes)
                &&& final(self).standing(contract) == Some(
                    Proposal::Proposed { outcome, window_closes: closes },
                )
            },
    {
        match self.proposal(contract) {
            Some(Proposal::Final(_)) => {
                return Err(OracleError::AlreadyFinal);
            },
            Some(_) => {
                return Err(OracleError::AlreadyProposed);
            },
            None => {},
        }
        match now.checked_add(self.challenge_window) {
            Some(window_closes) => {
                self.contracts.insert(contract.0, Proposal::Proposed { outcome, window_closes });
                Ok(window_closes)
            },
            None => Err(OracleError::WindowOpen),
        }
    }

    /// Contest a standing proposal.
    ///
    /// After this the proposal can never finalise on its own: only the escalation authority can
    /// end it. A losing party who contests buys a delay, not a free unwind.
    pub fn contest(&mut self, contract: ContractIdx) -> (r: Result<(), OracleError>)
        ensures
            final(self).configured_as(old(self)),
            match Proposal::contested(old(self).standing(contract)) {
                Ok(next) => r == Ok::<(), OracleError>(()) && final(self)@ == old(self)@.insert(
                    contract.0,
                    next,
                ),
                Err(error) => r == Err::<(), OracleError>(error) && final(self)@ == old(self)@,
            },
    {
        match self.proposal(contract) {
            Some(Proposal::Proposed { .. }) => {
                self.contracts.insert(contract.0, Proposal::Contested);
                Ok(())
            },
            Some(Proposal::Contested) => {
                proof {
                    assert(self@ =~= self@.insert(contract.0, Proposal::Contested));
                }
                Ok(())
            },
            Some(Proposal::Final(_)) => Err(OracleError::AlreadyFinal),
            None => Err(OracleError::NothingProposed),
        }
    }

    /// Finalise an uncontested proposal whose window has closed at the clock's reading.
    pub fn finalise(&mut self, contract: ContractIdx) -> (r: Result<Outcome, OracleError>)
        ensures
            final(self).configured_as(old(self)),
            exists|now: Ts| #[trigger]
                old(self).timepiece().may_read(now) && match Proposal::finalised(
                    old(self).standing(contract),
                    now,
                ) {
                    Ok(outcome) => {
                        &&& r == Ok::<Outcome, OracleError>(outcome)
                        &&& final(self)@ == old(self)@.insert(contract.0, Proposal::Final(outcome))
                    },
                    Err(error) => r == Err::<Outcome, OracleError>(error) && final(self)@ == old(
                        self,
                    )@,
                },
    {
        let now = self.clock.now();
        self.finalise_at(contract, now)
    }

    /// Finalise an uncontested proposal whose window has closed at a sampled instant.
    pub fn finalise_at(&mut self, contract: ContractIdx, now: Ts) -> (r: Result<
        Outcome,
        OracleError,
    >)
        ensures
            final(self).configured_as(old(self)),
            match Proposal::finalised(old(self).standing(contract), now) {
                Ok(outcome) => {
                    &&& r == Ok::<Outcome, OracleError>(outcome)
                    &&& final(self)@ == old(self)@.insert(contract.0, Proposal::Final(outcome))
                },
                Err(error) => r == Err::<Outcome, OracleError>(error) && final(self)@ == old(self)@,
            },
            match old(self).standing(contract) {
                Some(Proposal::Proposed { outcome, window_closes }) => if now.0 < window_closes.0 {
                    r == Err::<Outcome, OracleError>(OracleError::WindowOpen)
                } else {
                    &&& r == Ok::<Outcome, OracleError>(outcome)
                    &&& final(self).standing(contract) == Some(Proposal::Final(outcome))
                },
                _ => r is Err,
            },
    {
        match self.proposal(contract) {
            Some(Proposal::Proposed { outcome, window_closes }) => {
                if now.0 < window_closes.0 {
                    return Err(OracleError::WindowOpen);
                }
                self.contracts.insert(contract.0, Proposal::Final(outcome));
                Ok(outcome)
            },
            Some(Proposal::Contested) => Err(OracleError::Contested),
            Some(Proposal::Final(_)) => Err(OracleError::AlreadyFinal),
            None => Err(OracleError::NothingProposed),
        }
    }

    /// The escalation authority rules, ending a contest.
    ///
    /// A single unbonded key that can assign any outcome, including `Void`: the design's one
    /// trusted component.
    pub fn escalate(&mut self, contract: ContractIdx, outcome: Outcome, who: AccountIdx) -> (r:
        Result<(), OracleError>)
        ensures
            final(self).configured_as(old(self)),
            match Proposal::ruling_refused(
                old(self).standing(contract),
                who,
                old(self).authority(),
            ) {
                Some(error) => r == Err::<(), OracleError>(error) && final(self)@ == old(self)@,
                None => r == Ok::<(), OracleError>(()) && final(self)@ == old(self)@.insert(
                    contract.0,
                    Proposal::Final(outcome),
                ),
            },
    {
        if who != self.escalation_authority {
            return Err(OracleError::NotTheEscalationAuthority);
        }
        if let Some(Proposal::Final(_)) = self.proposal(contract) {
            return Err(OracleError::AlreadyFinal);
        }
        self.contracts.insert(contract.0, Proposal::Final(outcome));
        Ok(())
    }
}

/// **Proposing and then finalising yields the outcome proposed**: while the window is open it is
/// refused, and from then on it is exactly that outcome, for good.
pub proof fn finalising_yields_what_was_proposed<C: Clock>(
    contract: ContractIdx,
    outcome: Outcome,
    proposed_at: Ts,
    closes: Ts,
    now: Ts,
    r: Result<Outcome, OracleError>,
)
    ensures
        forall|proposing: &mut Oracle<C>, finalising: &mut Oracle<C>|
            {
                &&& #[trigger] call_ensures(
                    Oracle::<C>::propose_at,
                    (proposing, contract, outcome, proposed_at),
                    Ok::<Ts, OracleError>(closes),
                )
                &&& #[trigger] call_ensures(
                    Oracle::<C>::finalise_at,
                    (finalising, contract, now),
                    r,
                )
                &&& (*finalising)@ == final(proposing)@
            } ==> if now.0 < closes.0 {
                r == Err::<Outcome, OracleError>(OracleError::WindowOpen) && final(finalising)@ == (
                *finalising)@
            } else {
                &&& r == Ok::<Outcome, OracleError>(outcome)
                &&& final(finalising)@.dom().contains(contract.0)
                &&& final(finalising)@[contract.0] == Proposal::Final(outcome)
            },
{
}

/// **A contest holds a proposal up, and only the authority's ruling ends it, with the outcome it
/// rules**: a contested proposal stays contested; anybody else's ruling, and any over what is final,
/// changes nothing. No other contract moves.
pub proof fn a_ruling_is_final_as_it_is_ruled<C: Clock>(
    contract: ContractIdx,
    outcome: Outcome,
    who: AccountIdx,
    contested: Result<(), OracleError>,
    ruled: Result<(), OracleError>,
)
    ensures
        forall|oracle: &mut Oracle<C>| #[trigger]
            call_ensures(Oracle::<C>::contest, (oracle, contract), contested) ==> {
                let (before, after) = ((*oracle)@, final(oracle)@);
                let contestable = before.dom().contains(contract.0) && before[contract.0] !is Final;
                &&& contested is Ok <==> contestable
                &&& contestable ==> after == before.insert(contract.0, Proposal::Contested)
                &&& !contestable ==> after == before
            },
        forall|oracle: &mut Oracle<C>| #[trigger]
            call_ensures(Oracle::<C>::escalate, (oracle, contract, outcome, who), ruled) ==> {
                let (before, after) = ((*oracle)@, final(oracle)@);
                let open = !before.dom().contains(contract.0) || before[contract.0] !is Final;
                &&& ruled is Ok <==> who == (*oracle).authority() && open
                &&& ruled is Ok ==> after == before.insert(contract.0, Proposal::Final(outcome))
                &&& ruled is Err ==> after == before
            },
{
}

} // verus!
