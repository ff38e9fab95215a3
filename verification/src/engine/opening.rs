//! Mirror updates, contracts, and requests being opened.

use crate::account::{AccountIdx, Link};
use crate::arrays::{array_from_holds, array_is};
use crate::command::LegSpec;
use crate::config::MAX_LEGS;
use crate::contract::ContractIdx;
use crate::engine::book::limit_total;
use crate::engine::model::{asked_total, leg_of, legs_of, request_record, shown_legs, EngineView};
use crate::engine::steps::{request_opened_sound, unrelated_sound};
use crate::engine::{headroom_of, performs, Engine, EngineError};
use crate::event::{Event, EventBuffer, OpenLeg};
use crate::ledger::keeps::{contracts_wf, mirrored_wf};
use crate::ledger::LedgerError;
use crate::request::{Leg, Request, RequestState};
use crate::types::{narrow, product, Amount, Ts};
use vstd::prelude::*;

verus! {

/// What the first legs may cost is never negative and grows with the legs.
pub proof fn limit_total_grows(legs: Seq<Leg>, j: nat, n: nat)
    requires
        j <= n,
    ensures
        0 <= limit_total(legs, j) <= limit_total(legs, n),
    decreases n,
{
    if n > 0 {
        let leg = legs[n - 1];
        let (size, limit) = (leg.size.0 as int, leg.limit.0 as int);
        assert(0 <= size * limit) by (nonlinear_arith)
            requires
                size >= 0,
                limit >= 0,
        ;
        if j < n {
            limit_total_grows(legs, j, (n - 1) as nat);
        } else {
            limit_total_grows(legs, (j - 1) as nat, (n - 1) as nat);
        }
    }
}

proof fn term_fault_persists(
    engine: EngineView,
    legs: Seq<LegSpec>,
    now: Ts,
    k: nat,
    n: nat,
)
    requires
        engine.first_term_fault(legs, now, k) is Some,
        k <= n,
    ensures
        engine.first_term_fault(legs, now, n) == engine.first_term_fault(legs, now, k),
    decreases n,
{
    if k < n {
        term_fault_persists(engine, legs, now, k, (n - 1) as nat);
    }
}

impl Engine {
    /// Record what custody has available for an account.
    pub(super) fn credit(&mut self, account: AccountIdx, free: Amount) -> (r: Result<
        (),
        EngineError,
    >)
        requires
            old(self).wf(),
        ensures
            final(self).wf(),
            performs(
                old(self)@.on_credit(account, free),
                old(self)@,
                final(self)@,
                Seq::empty(),
                Seq::empty(),
                r,
            ),
    {
        proof {
            if account.0 < self@.ledger.accounts.len() {
                mirrored_wf(self@.ledger, account, free);
                unrelated_sound(self@.ledger, self@.ledger.mirrored(account, free));
            }
        }
        let outcome = self.ledger.apply_mirror_update(account, free);
        assert(Seq::<Event>::empty() + Seq::<Event>::empty() =~= Seq::<Event>::empty());
        match outcome {
            Ok(()) => Ok(()),
            Err(error) => Err(EngineError::Ledger(error)),
        }
    }

    /// Record a contract the gateway assigned an index to.
    pub(super) fn register(&mut self, contract: ContractIdx, event_date: Ts) -> (r: Result<
        (),
        EngineError,
    >)
        requires
            old(self).wf(),
        ensures
            final(self).wf(),
            performs(
                old(self)@.on_register(contract, event_date),
                old(self)@,
                final(self)@,
                Seq::empty(),
                Seq::empty(),
                r,
            ),
    {
        let ghost before = self@.ledger;
        let outcome = self.ledger.register_contract(contract, event_date);
        proof {
            contracts_wf(before, self@.ledger);
            unrelated_sound(before, self@.ledger);
            assert(Seq::<Event>::empty() + Seq::<Event>::empty() =~= Seq::<Event>::empty());
        }
        match outcome {
            Ok(()) => Ok(()),
            Err(error) => Err(EngineError::Ledger(error)),
        }
    }

    /// Whether every leg may be traded at `now`.
    fn check_terms(&self, legs: &[LegSpec; MAX_LEGS], n_legs: u8, now: Ts) -> (r: Result<
        (),
        EngineError,
    >)
        requires
            n_legs <= MAX_LEGS,
        ensures
            r == (match self@.first_term_fault(legs@, now, n_legs as nat) {
                Some(error) => Err::<(), EngineError>(error),
                None => Ok::<(), EngineError>(()),
            }),
    {
        let n: usize = n_legs as usize;
        let mut k: usize = 0;
        while k < n
            invariant
                k <= n == n_legs,
                n <= MAX_LEGS,
                self@.first_term_fault(legs@, now, k as nat) is None,
            decreases n - k,
        {
            let terms = legs[k];
            proof {
                if self@.term_fault(terms, now) is Some {
                    term_fault_persists(self@, legs@, now, (k + 1) as nat, n as nat);
                }
            }
            match self.ledger.contract(terms.contract) {
                None => {
                    return Err(EngineError::UnknownContract);
                },
                Some(contract) => {
                    let near = match now.checked_add(self.config.min_horizon) {
                        Some(horizon) => contract.event_date().0 <= horizon.0,
                        None => true,
                    };
                    if near {
                        return Err(EngineError::ContractTooNear);
                    }
                },
            }
            k += 1;
        }
        Ok(())
    }

    /// What the legs may cost, or `None` if it does not fit an amount.
    fn ask(legs: &[LegSpec; MAX_LEGS], n_legs: u8) -> (r: Option<Amount>)
        requires
            n_legs <= MAX_LEGS,
        ensures
            r == narrow(asked_total(*legs, n_legs)),
    {
        broadcast use array_from_holds;

        let n: usize = n_legs as usize;
        let ghost all = legs_of(*legs, n as int)@;
        let mut total = Amount(0);
        let mut k: usize = 0;
        while k < n
            invariant
                k <= n == n_legs,
                n <= MAX_LEGS,
                all == legs_of(*legs, n as int)@,
                total.0 == limit_total(all, k as nat),
            decreases n - k,
        {
            broadcast use array_from_holds;

            let terms = legs[k];
            proof {
                assert(all[k as int] == leg_of(legs@[k as int]));
                limit_total_grows(all, (k + 1) as nat, n as nat);
                limit_total_grows(all, k as nat, (k + 1) as nat);
                assert(limit_total(all, (k + 1) as nat) == limit_total(all, k as nat) + product(
                    terms.size,
                    terms.limit.0 as int,
                ));
            }
            let cost = match terms.size.checked_mul(terms.limit) {
                Some(cost) => cost,
                None => {
                    return None;
                },
            };
            total = match total.checked_add(cost) {
                Some(sum) => sum,
                None => {
                    return None;
                },
            };
            k += 1;
        }
        Some(total)
    }

    /// Open a request against one or more legs, reserving the sum of `size * limit`.
    pub(super) fn submit_request(
        &mut self,
        requester: AccountIdx,
        deadline: Ts,
        legs: &[LegSpec; MAX_LEGS],
        n_legs: u8,
        now: Ts,
        events: &mut EventBuffer,
    ) -> (r: Result<(), EngineError>)
        requires
            old(self).wf(),
            old(events).wf(),
        ensures
            final(self).wf(),
            final(events).wf(),
            final(events).room() == old(events).room(),
            performs(
                old(self)@.on_request(
                    requester,
                    deadline,
                    *legs,
                    n_legs,
                    now,
                    headroom_of(old(events)),
                ),
                old(self)@,
                final(self)@,
                old(events)@,
                final(events)@,
                r,
            ),
    {
        broadcast use array_from_holds;

        proof {
            events.wf_model();
        }
        if n_legs == 0 {
            return Err(EngineError::NoLegs);
        }
        if n_legs > self.config.max_legs {
            return Err(EngineError::TooManyLegs);
        }
        if deadline.0 <= now.0 {
            return Err(EngineError::DeadlineInThePast);
        }
        if deadline.0 - now.0 > self.config.max_request_ttl.0 {
            return Err(EngineError::DeadlineTooFar);
        }
        match self.check_terms(legs, n_legs, now) {
            Ok(()) => {},
            Err(error) => {
                return Err(error);
            },
        }
        let ghost all = legs_of(*legs, n_legs as int)@;
        proof {
            limit_total_grows(all, 0, n_legs as nat);
        }
        let amount = match Self::ask(legs, n_legs) {
            Some(amount) => amount,
            None => {
                return Err(EngineError::Ledger(LedgerError::AmountOverflow));
            },
        };
        match events.headroom(1) {
            Ok(()) => {},
            Err(_) => {
                return Err(EngineError::EventBufferFull);
            },
        }
        let n: usize = n_legs as usize;
        let mut opened: [Leg; MAX_LEGS] = [Leg::default();MAX_LEGS];
        let mut shown: [OpenLeg; MAX_LEGS] = [OpenLeg::default();MAX_LEGS];
        let mut k: usize = 0;
        while k < n
            invariant
                k <= n <= MAX_LEGS,
                forall|j: int|
                    0 <= j < MAX_LEGS ==> #[trigger] opened@[j] == (if j < k {
                        leg_of(legs@[j])
                    } else {
                        Leg::blank()
                    }),
                forall|j: int|
                    0 <= j < MAX_LEGS ==> #[trigger] shown@[j] == (if j < k {
                        OpenLeg {
                            contract: legs@[j].contract,
                            side: legs@[j].side,
                            size: legs@[j].size,
                        }
                    } else {
                        OpenLeg::blank()
                    }),
            decreases n - k,
        {
            let terms = legs[k];
            let mut leg = Leg::default();
            leg.contract = terms.contract;
            leg.side = terms.side;
            leg.size = terms.size;
            leg.limit = terms.limit;
            opened[k] = leg;
            shown[k] = OpenLeg { contract: terms.contract, side: terms.side, size: terms.size };
            k += 1;
        }
        let ghost record_spec = request_record(requester, deadline, *legs, n_legs);
        proof {
            array_is(opened);
            array_is(shown);
            assert(opened@ =~= Seq::new(
                MAX_LEGS as nat,
                |k: int|
                    if k < n_legs as int {
                        leg_of(legs@[k])
                    } else {
                        Leg::blank()
                    },
            ));
            assert(shown@ =~= Seq::new(
                MAX_LEGS as nat,
                |k: int|
                    if k < n_legs as int {
                        OpenLeg {
                            contract: legs@[k].contract,
                            side: legs@[k].side,
                            size: legs@[k].size,
                        }
                    } else {
                        OpenLeg::blank()
                    },
            ));
            assert(opened == legs_of(*legs, n_legs as int));
            assert(shown == shown_legs(*legs, n_legs as int));
        }
        let record = Request {
            requester,
            deadline,
            state: RequestState::Open,
            legs: opened,
            n_legs,
            claim: None,
            committed_head: Link::nil(),
        };
        proof {
            assert(record == record_spec);
            if self@.ledger.open_request_refused(record, amount) is None {
                request_opened_sound(self@.ledger, record, amount);
            }
        }
        match self.ledger.open_request_reserving(record, amount) {
            Ok((request, _)) => {
                let event = Event::RequestOpened { request, deadline, legs: shown, n_legs };
                events.push(event);
                proof {
                    assert(events@ =~= old(events)@ + seq![event]);
                }
                Ok(())
            },
            Err(error) => Err(EngineError::Ledger(error)),
        }
    }
}

} // verus!
