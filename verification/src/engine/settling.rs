//! Settlement answers, oracle reports and payouts.

use crate::contract::{ContractIdx, OracleStatus};
use crate::engine::closing::{finished_sound, quote_same, settling_claim_is_committed};
use crate::engine::model::{failures, EngineView};
use crate::engine::shelf::{quote_closed_sound, unshelved};
use crate::engine::steps::unrelated_sound;
use crate::engine::{headroom_of, performs, Engine, EngineError};
use crate::escrow::EscrowId;
use crate::event::{Event, EventBuffer, QuoteRejectReason};
use crate::ledger::keeps::contracts_wf;
use crate::ledger::model::LedgerView;
use crate::quote::Quote;
use crate::request::{Nonce, ReqIdx, Request, RequestState};
use crate::reservation::ResOwner;
use crate::settlement::TxStatus;
use crate::slab::{handle_extensional, handle_of, SlabView};
use crate::types::{Amount, Ts};
use vstd::prelude::*;

verus! {

/// No more makers are told than there are owners, and the request itself is none of them.
proof fn failures_fit(quotes: SlabView<Quote>, owners: Seq<(ResOwner, Amount)>, n: nat, p: int)
    requires
        n <= owners.len(),
        0 <= p < owners.len(),
        owners[p].0 is Request,
    ensures
        failures(quotes, owners, n).len() <= (if p < n {
            n - 1
        } else {
            n as int
        }),
    decreases n,
{
    if n > 0 {
        failures_fit(quotes, owners, (n - 1) as nat, p);
    }
}

/// Where the requester's own claim is on a settling request's list.
proof fn requesters_entry(v: LedgerView, request: ReqIdx) -> (p: int)
    requires
        v.wf(),
        v.sound_book(),
        v.requests.names(request),
        v.requests.of(request).state is Settling,
    ensures
        0 <= p < v.list_entries(request).len(),
        v.list_entries(request)[p].0 == ResOwner::Request(request),
{
    settling_claim_is_committed(v, request);
    let claim = v.requests.of(request).claim->0;
    assert(v.placed(claim.index()));
    let list = v.lists[request.index() as int];
    let p = list.index_of(claim.index());
    assert(list[p] == claim.index());
    p
}

impl Engine {
    /// Discharge everything committed to a settling request, free its winners' slots, and finish
    /// it in `state`; where `told`, tell each winner that the settlement failed.
    fn finish(
        &mut self,
        request: ReqIdx,
        state: RequestState,
        told: bool,
        events: &mut EventBuffer,
    )
        requires
            old(self).wf(),
            old(self)@.ledger.requests.names(request),
            old(self)@.ledger.requests.of(request).state is Settling,
            state.terminal(),
            old(events).wf(),
            told ==> old(events).fits(old(self)@.ledger.requests.of(request).n_legs as nat),
        ensures
            final(self).wf(),
            final(self)@ == (EngineView {
                ledger: old(self)@.discharged(request, state),
                ..old(self)@
            }),
            final(events).wf(),
            final(events).room() == old(events).room(),
            final(events)@ == (if told {
                old(events)@ + failures(
                    old(self)@.ledger.quotes,
                    old(self)@.ledger.list_entries(request),
                    old(self)@.ledger.list_entries(request).len(),
                )
            } else {
                old(events)@
            }),
    {
        broadcast use handle_of;

        let ghost v = self@.ledger;
        let ghost said = events@;
        let ghost listed = v.list_entries(request);
        let ghost n_legs = v.requests.of(request).n_legs as nat;
        let ghost p = requesters_entry(v, request);
        proof {
            self.ledger.wf_model();
            finished_sound(v, request, state);
            settling_claim_is_committed(v, request);
        }
        let mut phase = self.ledger.commit_phase();
        let owners = phase.discharge_committed(request);
        match self.ledger.request_mut(request) {
            Some(record) => {
                record.state = state;
            },
            None => {},
        }
        let ghost finished = self.ledger@;
        proof {
            assert(finished == v.finished(request, state));
            assert(said + Seq::<Event>::empty() =~= said);
        }
        let mut k: usize = 0;
        while k < owners.len()
            invariant
                k <= owners@.len(),
                owners@ == listed,
                listed.len() == n_legs + 1,
                0 <= p < listed.len(),
                listed[p].0 is Request,
                self.ledger.wf(),
                self.ledger@.sound_book(),
                self.ledger@ == finished.owners_closed(listed, k as nat),
                self.config == old(self).config,
                self.arrivals == old(self).arrivals,
                forall|j: int|
                    0 <= j < listed.len() ==> match (#[trigger] listed[j]).0 {
                        ResOwner::Quote(quote) => {
                            &&& v.quotes.names(quote)
                            &&& finished.quotes.names(quote)
                            &&& finished.quotes.of(quote) == (Quote {
                                claim: None,
                                ..v.quotes.of(quote)
                            })
                            &&& v.quotes.of(quote).state is Consumed
                        },
                        ResOwner::Request(owner) => owner == request,
                    },
                forall|i: int, j: int|
                    0 <= i < j < listed.len() ==> (#[trigger] listed[i]).0 != (
                    #[trigger] listed[j]).0,
                forall|j: int|
                    k <= j < listed.len() ==> match (#[trigger] listed[j]).0 {
                        ResOwner::Quote(quote) => quote_same(
                            finished,
                            self.ledger@,
                            quote.index(),
                        ),
                        ResOwner::Request(_) => true,
                    },
                events.wf(),
                events.room() == old(events).room(),
                said == old(events)@,
                told ==> said.len() + n_legs <= events.room(),
                events@ == (if told {
                    said + failures(v.quotes, listed, k as nat)
                } else {
                    said
                }),
            decreases owners@.len() - k,
        {
            let ghost before = self.ledger@;
            proof {
                self.ledger.wf_model();
                failures_fit(v.quotes, listed, (k + 1) as nat, p);
                assert(listed[k as int] == owners@[k as int]);
            }
            match owners[k].0 {
                ResOwner::Quote(quote) => {
                    proof {
                        assert(quote_same(finished, before, quote.index()));
                        unshelved(before, quote.index());
                        quote_closed_sound(before, quote);
                    }
                    if told {
                        let maker = match self.ledger.quote(quote) {
                            Some(record) => record.maker(),
                            None => crate::account::AccountIdx(0),
                        };
                        let event = Event::QuoteRejected {
                            quote,
                            maker,
                            reason: QuoteRejectReason::SettlementFailed,
                        };
                        proof {
                            let told_so_far = failures(v.quotes, listed, k as nat);
                            assert(failures(v.quotes, listed, (k + 1) as nat) == told_so_far.push(
                                event,
                            ));
                            assert(said + told_so_far.push(event) =~= (said + told_so_far).push(
                                event,
                            ));
                        }
                        events.push(event);
                    }
                    let mut phase = self.ledger.commit_phase();
                    phase.close_quote(quote);
                    proof {
                        assert forall|j: int| k + 1 <= j < listed.len() implies match (
                        #[trigger] listed[j]).0 {
                            ResOwner::Quote(other) => quote_same(
                                finished,
                                self.ledger@,
                                other.index(),
                            ),
                            ResOwner::Request(_) => true,
                        } by {
                            match listed[j].0 {
                                ResOwner::Quote(other) => {
                                    assert(quote_same(finished, before, other.index()));
                                    assert(listed[k as int].0 != listed[j].0);
                                    if other.index() == quote.index() {
                                        handle_extensional(other, quote);
                                    }
                                },
                                ResOwner::Request(_) => {},
                            }
                        }
                    }
                },
                ResOwner::Request(_) => {},
            }
            k += 1;
        }
        proof {
            self.ledger.wf_model();
        }
    }

    /// Act on what became of a nonce. Only a final answer moves anything.
    pub(super) fn poll(
        &mut self,
        nonce: Nonce,
        status: TxStatus,
        now: Ts,
        events: &mut EventBuffer,
    ) -> (r: Result<(), EngineError>)
        requires
            old(self).wf(),
            old(events).wf(),
        ensures
            final(self).wf(),
            final(events).wf(),
            final(events).room() == old(events).room(),
            performs(
                old(self)@.on_poll(nonce, status, now, headroom_of(old(events))),
                old(self)@,
                final(self)@,
                old(events)@,
                final(events)@,
                r,
            ),
    {
        broadcast use handle_of;

        let ghost v = self@.ledger;
        proof {
            events.wf_model();
            self.ledger.wf_model();
            assert(events@ + Seq::<Event>::empty() =~= events@);
        }
        let request = match self.ledger.request_handle_at(nonce.request) {
            Some(handle) => handle,
            None => {
                return Err(EngineError::StaleNonce);
            },
        };
        if request.generation() != nonce.generation {
            return Err(EngineError::StaleNonce);
        }
        let record = match self.ledger.request(request) {
            Some(record) => *record,
            None => {
                return Err(EngineError::StaleNonce);
            },
        };
        let deadline = match record.state() {
            RequestState::Settling { deadline, .. } => deadline,
            _ => {
                return Err(EngineError::RequestNotSettling);
            },
        };
        match status {
            TxStatus::Settled => {
                self.finish(request, RequestState::Escrowed, false, events);
                Ok(())
            },
            TxStatus::Reverted => {
                match events.headroom(record.n_legs() as usize) {
                    Ok(()) => {},
                    Err(_) => {
                        return Err(EngineError::EventBufferFull);
                    },
                }
                self.finish(request, RequestState::SettlementFailed, true, events);
                Ok(())
            },
            _ => {
                if now.0 < deadline.0 {
                    return Ok(());
                }
                match events.headroom(1) {
                    Ok(()) => {},
                    Err(_) => {
                        return Err(EngineError::EventBufferFull);
                    },
                }
                let event = Event::SettlementStalled { request, nonce, status };
                events.push(event);
                proof {
                    assert(events@ =~= old(events)@ + seq![event]);
                }
                Ok(())
            },
        }
    }

    /// Record what the oracle says of a contract. Status never moves backwards.
    pub(super) fn report(
        &mut self,
        contract: ContractIdx,
        status: OracleStatus,
        events: &mut EventBuffer,
    ) -> (r: Result<(), EngineError>)
        requires
            old(self).wf(),
            old(events).wf(),
        ensures
            final(self).wf(),
            final(events).wf(),
            final(events).room() == old(events).room(),
            performs(
                old(self)@.on_report(contract, status, headroom_of(old(events))),
                old(self)@,
                final(self)@,
                old(events)@,
                final(events)@,
                r,
            ),
    {
        let ghost v = self@.ledger;
        proof {
            events.wf_model();
            self.ledger.wf_model();
            assert(events@ + Seq::<Event>::empty() =~= events@);
        }
        let standing = match self.ledger.contract(contract) {
            Some(found) => found.oracle_status(),
            None => {
                return Err(EngineError::UnknownContract);
            },
        };
        if !standing.may_become(status) {
            return Err(EngineError::OracleStatusRegression);
        }
        proof {
            contracts_wf(v, v.oracle_reported(contract, status));
            unrelated_sound(v, v.oracle_reported(contract, status));
        }
        match status {
            OracleStatus::Final(outcome) => {
                match events.headroom(1) {
                    Ok(()) => {},
                    Err(_) => {
                        return Err(EngineError::EventBufferFull);
                    },
                }
                self.ledger.set_oracle_status(contract, status);
                let event = Event::ContractResolved { contract, outcome };
                events.push(event);
                proof {
                    assert(events@ =~= old(events)@ + seq![event]);
                }
                Ok(())
            },
            _ => {
                self.ledger.set_oracle_status(contract, status);
                Ok(())
            },
        }
    }

    /// Ask custody to pay an escrow out, once its contract has an outcome.
    pub(super) fn pay_out(
        &self,
        escrow: EscrowId,
        contract: ContractIdx,
        now: Ts,
        events: &mut EventBuffer,
    ) -> (r: Result<(), EngineError>)
        requires
            self.wf(),
            old(events).wf(),
        ensures
            final(events).wf(),
            final(events).room() == old(events).room(),
            performs(
                self@.on_settle(escrow, contract, now, headroom_of(old(events))),
                self@,
                self@,
                old(events)@,
                final(events)@,
                r,
            ),
    {
        proof {
            events.wf_model();
        }
        let outcome = match self.ledger.contract(contract) {
            Some(found) => match found.outcome_at(now, self.config.stall_grace) {
                Some(outcome) => outcome,
                None => {
                    return Err(EngineError::OutcomeNotYet);
                },
            },
            None => {
                return Err(EngineError::UnknownContract);
            },
        };
        match events.headroom(1) {
            Ok(()) => {},
            Err(_) => {
                return Err(EngineError::EventBufferFull);
            },
        }
        let event = Event::SettleIntent { escrow, contract, outcome };
        events.push(event);
        proof {
            assert(events@ =~= old(events)@ + seq![event]);
        }
        Ok(())
    }
}

} // verus!
