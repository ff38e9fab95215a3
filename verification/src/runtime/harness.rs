//! One engine, one custody, two clocks, and the wires between them.
//!
//! The harness is the only structure that may see both systems, which is why the assertions that
//! span both are made here: conservation, claim coverage, mirror agreement. Neither system alone
//! can check them.
//!
//! Everything the engine learns about the outside world arrives through the indexer: cursor,
//! confirmation depth and dedup, not a synchronous copy of a balance.

use crate::account::AccountIdx;
use crate::chain::bundle::Bundle;
use crate::chain::custody::model::CustodyView;
use crate::chain::custody::queue::ChainState;
use crate::chain::custody::{
    Custody, CustodyError, IncludedTx, SettleError, SettleReceipt, SubmitAck,
};
use crate::chain::escrow::Escrow;
use crate::chain::indexer::{Indexer, IndexerView};
use crate::chain::log::ChainPayload;
use crate::chain::oracle::{Oracle, Proposal};
use crate::clock::{Clock, SettableClock};
use crate::command::Command;
use crate::config::{Config, ConfigError};
use crate::contract::{ContractIdx, OracleStatus, Outcome};
use crate::engine::model::EngineView;
use crate::engine::{Engine, EngineError};
use crate::escrow::EscrowId;
use crate::event::{Event, EventBuffer};
use crate::request::{Nonce, ReqIdx};
use crate::runtime::harness::model::{
    bundles_in, paid_intents, payout_answers, payouts_in, HarnessView,
};
use crate::runtime::settlement::bundle_from;
use crate::settlement::TxStatus;
use crate::types::{Amount, Ts};
use vstd::prelude::*;

pub use crate::runtime::harness::checks::CrossSystemViolation;

pub mod checks;
pub mod effects;
pub mod laws;
pub mod model;

verus! {

/// A harness operation that one of the two systems refused.
#[derive(Clone, Copy, Debug, PartialEq, Eq, Structural)]
pub enum HarnessError {
    /// The engine refused a command.
    Engine(EngineError),
    /// Custody refused a balance operation.
    Custody(CustodyError),
}

/// One engine, one custody, two clocks, and the wires between them.
#[derive(Debug)]
pub struct Harness<EC: Clock, CC: Clock> {
    engine: Engine,
    engine_clock: EC,
    custody: Custody<CC>,
    events: EventBuffer,
    pending: Vec<Bundle>,
    escrows: Vec<EscrowId>,
    oracle: Oracle<CC>,
    payouts: Vec<Event>,
    indexer: Indexer,
    indexer_stalled: bool,
    in_flight: Vec<Bundle>,
    emitted: Vec<Event>,
}

/// Copy a list of events.
fn events_of(events: &Vec<Event>) -> (r: Vec<Event>)
    ensures
        r@ == events@,
{
    let mut copy: Vec<Event> = Vec::new();
    let mut i: usize = 0;
    while i < events.len()
        invariant
            i <= events@.len(),
            copy@ == events@.take(i as int),
        decreases events@.len() - i,
    {
        copy.push(events[i]);
        i += 1;
    }
    proof {
        assert(copy@ =~= events@);
    }
    copy
}

impl<EC: Clock, CC: Clock> Harness<EC, CC> {
    /// What the harness holds.
    pub closed spec fn view(&self) -> HarnessView {
        HarnessView {
            engine: self.engine@,
            room: self.events.room(),
            custody: self.custody@,
            oracle: self.oracle@,
            indexer: self.indexer@,
            stalled: self.indexer_stalled,
            pending: self.pending@,
            in_flight: self.in_flight@,
            escrows: self.escrows@,
            payouts: self.payouts@,
            emitted: self.emitted@,
        }
    }

    /// The venue's clock.
    pub closed spec fn venue_clock(&self) -> EC {
        self.engine_clock
    }

    /// The chain's clock.
    pub closed spec fn chain_clock(&self) -> CC {
        self.custody.timepiece()
    }

    /// The oracle, its clock and its terms.
    pub closed spec fn referee(&self) -> Oracle<CC> {
        self.oracle
    }

    /// The two clocks, and the oracle's, are those of `other`.
    pub open spec fn timed_as(&self, other: &Self) -> bool {
        &&& self.venue_clock() == other.venue_clock()
        &&& self.chain_clock() == other.chain_clock()
        &&& self.referee() == other.referee()
    }

    /// Whether both systems are sound.
    pub closed spec fn wf(&self) -> bool {
        &&& self.engine.wf()
        &&& self.custody.wf()
        &&& self.events.wf()
    }

    /// What a sound harness is.
    pub proof fn wf_model(&self)
        requires
            self.wf(),
        ensures
            self@.engine.wf(),
            self@.custody.ledger.wf(),
    {
        self.engine.wf_model();
    }

    /// Validate the configuration and construct both systems.
    ///
    /// Both startup assertions are checked here: the timelock inequality relates the engine's
    /// quote lifetime to custody's withdrawal delay, so it is a statement about the pair. The
    /// oracle is a third external system and keeps a clock of its own.
    pub fn new(config: Config, engine_clock: EC, custody_clock: CC, oracle_clock: CC) -> (r: Result<
        Self,
        ConfigError,
    >)
        ensures
            match config.refusal() {
                Some(error) => r == Err::<Self, ConfigError>(error),
                None => {
                    &&& r is Ok
                    &&& r->Ok_0.wf()
                    &&& r->Ok_0.venue_clock() == engine_clock
                    &&& r->Ok_0.chain_clock() == custody_clock
                    &&& r->Ok_0.referee().timepiece() == oracle_clock
                    &&& r->Ok_0.referee().window() == config.challenge_window
                    &&& r->Ok_0.referee().authority() == config.escalation_authority
                    &&& r->Ok_0@ == (HarnessView {
                        engine: EngineView::fresh(config),
                        room: 64,
                        custody: ChainState {
                            ledger: CustodyView::empty(
                                config.max_accounts,
                                config.max_escrows,
                                config.withdrawal_delay,
                            ),
                            queue: Seq::empty(),
                            reverted: Seq::empty(),
                        },
                        oracle: Map::empty(),
                        indexer: IndexerView {
                            cursor: 0,
                            confirmations: config.confirmations as u64,
                            delivered: Seq::empty(),
                        },
                        stalled: false,
                        pending: Seq::empty(),
                        in_flight: Seq::empty(),
                        escrows: Seq::empty(),
                        payouts: Seq::empty(),
                        emitted: Seq::empty(),
                    })
                },
            },
    {
        let engine = match Engine::new(config) {
            Ok(engine) => engine,
            Err(error) => {
                return Err(error);
            },
        };
        let custody = Custody::new(
            custody_clock,
            config.withdrawal_delay,
            config.max_accounts,
            config.max_escrows,
        );
        let oracle = Oracle::new(
            oracle_clock,
            config.challenge_window,
            config.escalation_authority,
        );
        Ok(
            Harness {
                engine,
                engine_clock,
                custody,
                events: EventBuffer::with_capacity(64),
                pending: Vec::new(),
                escrows: Vec::new(),
                oracle,
                payouts: Vec::new(),
                indexer: Indexer::new(config.confirmations as u64),
                indexer_stalled: false,
                in_flight: Vec::new(),
                emitted: Vec::new(),
            },
        )
    }

    // ───────────────────────────── reading ─────────────────────────────

    /// Venue time, sampled once: this is the instant a command is applied at.
    pub fn engine_now(&self) -> (r: Ts)
        ensures
            self.venue_clock().may_read(r),
    {
        self.engine_clock.now()
    }

    /// Chain time. Deliberately a separate reading; the two may disagree.
    pub fn custody_now(&self) -> (r: Ts)
        ensures
            self.chain_clock().may_read(r),
    {
        self.custody.now()
    }

    /// The venue's clock, to advance.
    pub fn engine_clock_mut(&mut self) -> (r: &mut EC)
        ensures
            *r == old(self).venue_clock(),
            final(self).venue_clock() == *final(r),
            final(self).chain_clock() == old(self).chain_clock(),
            final(self).referee() == old(self).referee(),
            final(self)@ == old(self)@,
            old(self).wf() ==> final(self).wf(),
    {
        &mut self.engine_clock
    }

    /// The chain's clock, to advance: independently, and by a different amount.
    pub fn custody_clock_mut(&mut self) -> (r: &mut CC)
        ensures
            *r == old(self).chain_clock(),
            final(self).chain_clock() == *final(r),
            final(self).venue_clock() == old(self).venue_clock(),
            final(self).referee() == old(self).referee(),
            final(self)@ == old(self)@,
            old(self).wf() ==> final(self).wf(),
    {
        self.custody.clock_mut()
    }

    /// The engine, read-only.
    pub fn engine(&self) -> (r: &Engine)
        ensures
            r@ == self@.engine,
            self.wf() ==> r.wf(),
    {
        &self.engine
    }

    /// Custody, read-only.
    pub fn custody(&self) -> (r: &Custody<CC>)
        ensures
            r@ == self@.custody,
            r.timepiece() == self.chain_clock(),
            self.wf() ==> r.wf(),
    {
        &self.custody
    }

    /// Custody, to move money on the chain's side.
    pub fn custody_mut(&mut self) -> (r: &mut Custody<CC>)
        ensures
            r@ == old(self)@.custody,
            r.timepiece() == old(self).chain_clock(),
            old(self).wf() ==> r.wf(),
            final(self)@ == (HarnessView { custody: final(r)@, ..old(self)@ }),
            final(self).chain_clock() == final(r).timepiece(),
            final(self).venue_clock() == old(self).venue_clock(),
            final(self).referee() == old(self).referee(),
            old(self).wf() && final(r).wf() ==> final(self).wf(),
    {
        &mut self.custody
    }

    /// Escrows formed so far, in settlement order.
    pub fn escrows(&self) -> (r: &[EscrowId])
        ensures
            r@ == self@.escrows,
    {
        self.escrows.as_slice()
    }

    /// Bundles waiting to be submitted.
    pub fn pending_bundles(&self) -> (r: &[Bundle])
        ensures
            r@ == self@.pending,
    {
        self.pending.as_slice()
    }

    /// Payout intents waiting to be applied.
    pub fn pending_payouts(&self) -> (r: &[Event])
        ensures
            r@ == self@.payouts,
    {
        self.payouts.as_slice()
    }

    /// Everything the engine has emitted, in order.
    pub fn emitted(&self) -> (r: &[Event])
        ensures
            r@ == self@.emitted,
    {
        self.emitted.as_slice()
    }

    /// Whether the indexer is left un-pumped.
    pub fn is_stalled(&self) -> (r: bool)
        ensures
            r == self@.stalled,
    {
        self.indexer_stalled
    }

    /// The oracle, read-only.
    pub fn oracle(&self) -> (r: &Oracle<CC>)
        ensures
            *r == self.referee(),
            r@ == self@.oracle,
    {
        &self.oracle
    }

    /// The oracle, to propose, contest, finalise or escalate.
    pub fn oracle_mut(&mut self) -> (r: &mut Oracle<CC>)
        ensures
            *r == old(self).referee(),
            r@ == old(self)@.oracle,
            final(self).referee() == *final(r),
            final(self)@ == (HarnessView { oracle: final(r)@, ..old(self)@ }),
            final(self).venue_clock() == old(self).venue_clock(),
            final(self).chain_clock() == old(self).chain_clock(),
            old(self).wf() ==> final(self).wf(),
    {
        &mut self.oracle
    }

    /// The indexer, read-only.
    pub fn indexer(&self) -> (r: &Indexer)
        ensures
            r@ == self@.indexer,
    {
        &self.indexer
    }

    /// The indexer, to rewind its cursor or forget what it has delivered.
    pub fn indexer_mut(&mut self) -> (r: &mut Indexer)
        ensures
            r@ == old(self)@.indexer,
            final(self)@ == (HarnessView { indexer: final(r)@, ..old(self)@ }),
            final(self).timed_as(old(self)),
            old(self).wf() ==> final(self).wf(),
    {
        &mut self.indexer
    }

    /// Every locked escrow custody holds, in the order they formed.
    pub fn locked_escrows(&self) -> (r: Vec<(EscrowId, &Escrow)>)
        requires
            self.wf(),
        ensures
            forall|k: int|
                0 <= k < r@.len() ==> {
                    let (id, escrow) = #[trigger] r@[k];
                    &&& id.0 < self@.custody.ledger.escrows.len()
                    &&& *escrow == self@.custody.ledger.escrows[id.0 as int]
                    &&& escrow.state is Locked
                },
            forall|j: int, k: int|
                0 <= j < k < r@.len() ==> (#[trigger] r@[j]).0.0 < (#[trigger] r@[k]).0.0,
            forall|i: int|
                0 <= i < self@.custody.ledger.escrows.len() && (
                #[trigger] self@.custody.ledger.escrows[i]).state is Locked ==> exists|k: int|
                    0 <= k < r@.len() && (#[trigger] r@[k]).0 == EscrowId(i as u32),
    {
        let all = self.custody.ledger().escrows();
        let ghost escrows = self@.custody.ledger.escrows;
        let mut found: Vec<(EscrowId, &Escrow)> = Vec::new();
        let mut i: usize = 0;
        while i < all.len()
            invariant
                i <= all@.len() == escrows.len(),
                escrows.len() <= u32::MAX,
                forall|k: int|
                    0 <= k < all@.len() ==> (#[trigger] all@[k]).0 == EscrowId(k as u32)
                        && *all@[k].1 == escrows[k],
                forall|k: int|
                    0 <= k < found@.len() ==> {
                        let (id, escrow) = #[trigger] found@[k];
                        &&& id.0 < i
                        &&& *escrow == escrows[id.0 as int]
                        &&& escrow.state is Locked
                    },
                forall|j: int, k: int|
                    0 <= j < k < found@.len() ==> (#[trigger] found@[j]).0.0 < (
                    #[trigger] found@[k]).0.0,
                forall|j: int|
                    0 <= j < i && (#[trigger] escrows[j]).state is Locked ==> exists|k: int|
                        0 <= k < found@.len() && (#[trigger] found@[k]).0 == EscrowId(j as u32),
            decreases all@.len() - i,
        {
            let (id, escrow) = all[i];
            let ghost was = found@;
            if escrow.is_locked() {
                found.push((id, escrow));
                proof {
                    assert(found@[was.len() as int].0 == EscrowId(i as u32));
                }
            }
            proof {
                assert forall|j: int| 0 <= j < i + 1 && (#[trigger] escrows[j]).state is Locked implies
                    exists|k: int|
                    0 <= k < found@.len() && (#[trigger] found@[k]).0 == EscrowId(j as u32) by {
                    if j < i {
                        let k = choose|k: int|
                            0 <= k < was.len() && (#[trigger] was[k]).0 == EscrowId(j as u32);
                        assert(found@[k] == was[k]);
                    }
                }
            }
            i += 1;
        }
        found
    }

    // ───────────────────────────── the wires ─────────────────────────────

    /// The engine-to-custody wire: the adapters pick what is theirs off the stream. Nothing else
    /// crosses.
    fn hear(&mut self, events: Vec<Event>)
        requires
            old(self).wf(),
        ensures
            final(self).wf(),
            final(self).timed_as(old(self)),
            final(self)@ == old(self)@.heard(events@),
    {
        let ghost before = self@;
        let mut i: usize = 0;
        proof {
            assert(before.pending + Seq::<Bundle>::empty() =~= before.pending);
            assert(before.payouts + Seq::<Event>::empty() =~= before.payouts);
            assert(events@.take(0) =~= Seq::<Event>::empty());
            assert(before.emitted + Seq::<Event>::empty() =~= before.emitted);
        }
        while i < events.len()
            invariant
                i <= events@.len(),
                self.wf(),
                self.timed_as(old(self)),
                before == old(self)@,
                self@ == (HarnessView {
                    pending: before.pending + bundles_in(events@, i as nat),
                    payouts: before.payouts + payouts_in(events@, i as nat),
                    emitted: before.emitted + events@.take(i as int),
                    ..before
                }),
            decreases events@.len() - i,
        {
            let event = events[i];
            let ghost was = self@;
            match bundle_from(&event) {
                Some(bundle) => {
                    self.pending.push(bundle);
                },
                None => {},
            }
            if let Event::SettleIntent { .. } = event {
                self.payouts.push(event);
            }
            self.emitted.push(event);
            proof {
                assert(self@.pending =~= before.pending + bundles_in(events@, (i + 1) as nat));
                assert(self@.payouts =~= before.payouts + payouts_in(events@, (i + 1) as nat));
                assert(self@.emitted =~= before.emitted + events@.take(i + 1));
            }
            i += 1;
        }
        proof {
            assert(events@.take(i as int) =~= events@);
        }
    }

    /// Apply one command to the engine at `now` and let the adapters hear what it emitted.
    pub fn apply_at(&mut self, command: Command, now: Ts) -> (r: Result<(), EngineError>)
        requires
            old(self).wf(),
        ensures
            final(self).wf(),
            final(self).timed_as(old(self)),
            final(self)@ == old(self)@.commanded(command, now),
            r == old(self)@.engine.outcome(command, now, old(self)@.room),
    {
        let ghost before = self@;
        self.events.clear();
        let ghost said = self.events@;
        let outcome = self.engine.apply(command, now, &mut self.events);
        let emitted = self.events.drain();
        proof {
            let expected = before.engine.emitted(command, now, before.room);
            assert(said + expected =~= expected);
        }
        self.hear(emitted);
        proof {
            assert(self@ =~= before.commanded(command, now));
        }
        outcome
    }

    /// Read every confirmed, undelivered log entry and apply the commands it yields. Returns how
    /// many commands were delivered.
    ///
    /// A command from the indexer can legitimately be refused: a payout request arriving before
    /// the resolution it depends on is exactly that.
    pub fn pump_indexer(&mut self) -> (r: usize)
        requires
            old(self).wf(),
        ensures
            final(self).wf(),
            final(self).timed_as(old(self)),
            r == old(self)@.undelivered().len(),
            old(self)@.pumps_to(old(self).venue_clock(), final(self)@),
    {
        let ghost before = self@;
        if self.indexer_stalled {
            proof {
                let none = Seq::<Ts>::empty();
                assert(before.pumped(none) == before);
            }
            return 0;
        }
        let commands = self.indexer.drain(self.custody.log());
        let ghost reading = self@;
        proof {
            assert(reading =~= before.read());
        }
        let ghost mut nows: Seq<Ts> = Seq::empty();
        let mut i: usize = 0;
        while i < commands.len()
            invariant
                i <= commands@.len(),
                self.wf(),
                self.timed_as(old(self)),
                commands@ == before.undelivered(),
                reading == before.read(),
                nows.len() == i,
                forall|k: int|
                    0 <= k < nows.len() ==> old(self).venue_clock().may_read(#[trigger] nows[k]),
                self@ == reading.told(commands@, nows, i as nat),
            decreases commands@.len() - i,
        {
            let now = self.engine_clock.now();
            proof {
                assert(self.venue_clock().may_read(now));
            }
            let _ = self.apply_at(commands[i], now);
            proof {
                told_prefix(reading, commands@, nows, now, i as nat);
                nows = nows.push(now);
            }
            i += 1;
        }
        proof {
            assert(self@ == before.pumped(nows));
        }
        commands.len()
    }

    /// Apply one command to the engine at the venue's current time, and let the adapters hear
    /// what it emitted.
    pub fn apply(&mut self, command: Command) -> (r: Result<(), HarnessError>)
        requires
            old(self).wf(),
        ensures
            final(self).wf(),
            final(self).timed_as(old(self)),
            exists|now: Ts| #[trigger]
                old(self).venue_clock().may_read(now) && {
                    &&& final(self)@ == old(self)@.commanded(command, now)
                    &&& r == (match old(self)@.engine.outcome(command, now, old(self)@.room) {
                        Ok(()) => Ok::<(), HarnessError>(()),
                        Err(error) => Err(HarnessError::Engine(error)),
                    })
                },
    {
        let now = self.engine_clock.now();
        assert(self.venue_clock().may_read(now));
        match self.apply_at(command, now) {
            Ok(()) => Ok(()),
            Err(error) => Err(HarnessError::Engine(error)),
        }
    }

    /// Put money into custody and let the engine hear of it.
    ///
    /// Custody is credited first, because it is authoritative, and the engine learns through the
    /// indexer. The engine never computes a balance.
    pub fn deposit(&mut self, account: AccountIdx, amount: Amount) -> (r: Result<(), HarnessError>)
        requires
            old(self).wf(),
        ensures
            final(self).wf(),
            final(self).timed_as(old(self)),
            match old(self)@.custody.ledger.deposit_refused(account, amount) {
                Some(error) => r == Err::<(), HarnessError>(HarnessError::Custody(error))
                    && final(self)@ == old(self)@,
                None => r == Ok::<(), HarnessError>(()) && old(self)@.with_ledger(
                    old(self)@.custody.ledger.after_deposit(account, amount),
                ).pumps_to(old(self).venue_clock(), final(self)@),
            },
    {
        let ghost before = self@;
        match self.custody.deposit(account, amount) {
            Ok(()) => {},
            Err(error) => {
                return Err(HarnessError::Custody(error));
            },
        }
        proof {
            assert(self@ =~= before.with_ledger(
                before.custody.ledger.after_deposit(account, amount),
            ));
        }
        let _ = self.pump_indexer();
        Ok(())
    }

    /// Ask custody to release funds, and let the engine hear that availability has dropped.
    ///
    /// The mirror moves immediately even though the balance does not: admission must stop lending
    /// against this money now, and settlement must keep finding it until the timelock expires.
    pub fn request_withdrawal(&mut self, account: AccountIdx, amount: Amount) -> (r: Result<
        Ts,
        HarnessError,
    >)
        requires
            old(self).wf(),
        ensures
            final(self).wf(),
            final(self).timed_as(old(self)),
            exists|now: Ts| #[trigger]
                old(self).chain_clock().may_read(now) && {
                    let ledger = old(self)@.custody.ledger;
                    match ledger.withdrawal_refused(account, amount, now) {
                        Some(error) => r == Err::<Ts, HarnessError>(HarnessError::Custody(error))
                            && final(self)@ == old(self)@,
                        None => {
                            &&& r == Ok::<Ts, HarnessError>(Ts((now.0 + ledger.delay.0) as u64))
                            &&& old(self)@.with_ledger(
                                ledger.withdrawal_requested(account, amount, now),
                            ).pumps_to(old(self).venue_clock(), final(self)@)
                        },
                    }
                },
    {
        let ghost before = self@;
        let now = self.custody.now();
        assert(self.chain_clock().may_read(now));
        let matures_at = match self.custody.ledger_mut().request_withdrawal(account, amount, now) {
            Ok(matures_at) => matures_at,
            Err(error) => {
                proof {
                    assert(self@ =~= before);
                }
                return Err(HarnessError::Custody(error));
            },
        };
        proof {
            assert(self@ =~= before.with_ledger(
                before.custody.ledger.withdrawal_requested(account, amount, now),
            ));
        }
        let _ = self.pump_indexer();
        Ok(matures_at)
    }

    /// Execute a matured withdrawal and let the engine hear of it.
    pub fn execute_withdrawal(&mut self, account: AccountIdx) -> (r: Result<Amount, HarnessError>)
        requires
            old(self).wf(),
        ensures
            final(self).wf(),
            final(self).timed_as(old(self)),
            exists|now: Ts| #[trigger]
                old(self).chain_clock().may_read(now) && {
                    let ledger = old(self)@.custody.ledger;
                    match ledger.execution_refused(account, now) {
                        Some(error) => r == Err::<Amount, HarnessError>(
                            HarnessError::Custody(error),
                        ) && final(self)@ == old(self)@,
                        None => {
                            &&& r == Ok::<Amount, HarnessError>(ledger.payable(account))
                            &&& old(self)@.with_ledger(
                                ledger.withdrawal_executed(account),
                            ).pumps_to(old(self).venue_clock(), final(self)@)
                        },
                    }
                },
    {
        let ghost before = self@;
        let now = self.custody.now();
        assert(self.chain_clock().may_read(now));
        let amount = match self.custody.ledger_mut().execute_withdrawal(account, now) {
            Ok(amount) => amount,
            Err(error) => {
                proof {
                    assert(self@ =~= before);
                }
                return Err(HarnessError::Custody(error));
            },
        };
        proof {
            assert(self@ =~= before.with_ledger(
                before.custody.ledger.withdrawal_executed(account),
            ));
        }
        let _ = self.pump_indexer();
        Ok(amount)
    }

    /// Hand every bundle the adapter has picked up to custody, in order.
    ///
    /// **Sent, and nothing more.** Nothing is included yet.
    pub fn submit_pending(&mut self) -> (r: Vec<SubmitAck>)
        requires
            old(self).wf(),
        ensures
            final(self).wf(),
            final(self).timed_as(old(self)),
            final(self)@ == old(self)@.sent(),
            r@.len() == old(self)@.pending.len(),
            forall|k: int|
                0 <= k < r@.len() ==> (#[trigger] r@[k]).nonce == old(self)@.pending[k].nonce,
    {
        let ghost before = self@;
        let mut acks: Vec<SubmitAck> = Vec::new();
        let mut k: usize = 0;
        proof {
            assert(before.pending.take(0) =~= Seq::<Bundle>::empty());
            assert(before.in_flight + Seq::<Bundle>::empty() =~= before.in_flight);
            assert(before.custody.queue + Seq::<Bundle>::empty() =~= before.custody.queue);
            assert(self@ =~= HarnessView {
                custody: ChainState {
                    queue: before.custody.queue + before.pending.take(0),
                    ..before.custody
                },
                in_flight: before.in_flight + before.pending.take(0),
                ..before
            });
        }
        while k < self.pending.len()
            invariant
                k <= self.pending@.len(),
                self.wf(),
                self.timed_as(old(self)),
                before == old(self)@,
                self@ == (HarnessView {
                    custody: ChainState {
                        queue: before.custody.queue + before.pending.take(k as int),
                        ..before.custody
                    },
                    in_flight: before.in_flight + before.pending.take(k as int),
                    ..before
                }),
                acks@.len() == k,
                forall|j: int| 0 <= j < k ==> (#[trigger] acks@[j]).nonce == before.pending[j].nonce,
            decreases self.pending@.len() - k,
        {
            let bundle = self.pending[k];
            self.in_flight.push(bundle);
            let ack = self.custody.submit(bundle);
            acks.push(ack);
            proof {
                let more = before.pending.take(k + 1);
                assert(more =~= before.pending.take(k as int).push(bundle));
                assert(self@ =~= HarnessView {
                    custody: ChainState {
                        queue: before.custody.queue + more,
                        ..before.custody
                    },
                    in_flight: before.in_flight + more,
                    ..before
                });
            }
            k += 1;
        }
        self.pending.clear();
        proof {
            assert(before.pending.take(k as int) =~= before.pending);
            assert(self@ =~= before.sent());
        }
        acks
    }

    /// Send a settling request's bundle again: the retry after a lost acknowledgement.
    ///
    /// The bundle is identical and so is its nonce. Nothing is re-derived from engine state: the
    /// submitter resends what it sent under the request's nonce, or cannot retry at all.
    pub fn resubmit(&mut self, request: ReqIdx) -> (r: Result<SubmitAck, HarnessError>)
        requires
            old(self).wf(),
        ensures
            final(self).wf(),
            final(self).timed_as(old(self)),
            match r {
                Ok(ack) => exists|k: int| #[trigger]
                    old(self)@.first_sent(request, k) && ack.nonce == Nonce::naming(request)
                        && final(self)@ == (HarnessView {
                        custody: old(self)@.custody.submitted(old(self)@.in_flight[k]),
                        ..old(self)@
                    }),
                Err(error) => {
                    &&& error == HarnessError::Engine(EngineError::RequestNotSettling)
                    &&& final(self)@ == old(self)@
                    &&& forall|k: int|
                        0 <= k < old(self)@.in_flight.len() ==> (
                        #[trigger] old(self)@.in_flight[k]).nonce != Nonce::naming(request)
                },
            },
    {
        let ghost before = self@;
        let nonce = Nonce::of(request);
        let mut k: usize = 0;
        while k < self.in_flight.len()
            invariant
                k <= self.in_flight@.len(),
                self@ == before,
                self.wf(),
                self.timed_as(old(self)),
                before == old(self)@,
                forall|j: int|
                    0 <= j < k ==> (#[trigger] before.in_flight[j]).nonce != nonce,
                nonce == Nonce::naming(request),
            decreases self.in_flight@.len() - k,
        {
            let bundle = self.in_flight[k];
            if bundle.nonce == nonce {
                proof {
                    assert(before.first_sent(request, k as int));
                }
                let ack = self.custody.submit(bundle);
                proof {
                    assert(self@ =~= HarnessView {
                        custody: before.custody.submitted(bundle),
                        ..before
                    });
                }
                return Ok(ack);
            }
            k += 1;
        }
        Err(HarnessError::Engine(EngineError::RequestNotSettling))
    }

    /// Write one entry to the log and pump the indexer.
    fn announce(&mut self, payload: ChainPayload)
        requires
            old(self).wf(),
        ensures
            final(self).wf(),
            final(self).timed_as(old(self)),
            old(self)@.logged(payload).pumps_to(old(self).venue_clock(), final(self)@),
    {
        let ghost before = self@;
        self.custody.log_mut().append(payload);
        proof {
            assert(self@ =~= before.logged(payload));
        }
        let _ = self.pump_indexer();
    }

    /// Read what the oracle says about a contract and put it on the chain for the engine to hear.
    pub fn report_oracle_status(&mut self, contract: ContractIdx) -> (r: Result<
        OracleStatus,
        HarnessError,
    >)
        requires
            old(self).wf(),
        ensures
            final(self).wf(),
            final(self).timed_as(old(self)),
            ({
                let status = Proposal::told(old(self).referee().standing(contract));
                &&& r == Ok::<OracleStatus, HarnessError>(status)
                &&& old(self)@.logged(
                    ChainPayload::OracleStatusReported { contract, status },
                ).pumps_to(old(self).venue_clock(), final(self)@)
            }),
    {
        let status = self.oracle.status(contract);
        self.announce(ChainPayload::OracleStatusReported { contract, status });
        Ok(status)
    }

    /// Someone sends a transaction asking for an escrow to be paid out: it enters the engine the
    /// way every other outside fact does.
    pub fn request_escrow_settlement(
        &mut self,
        escrow: EscrowId,
        contract: ContractIdx,
        outcome: Outcome,
    )
        requires
            old(self).wf(),
        ensures
            final(self).wf(),
            final(self).timed_as(old(self)),
            old(self)@.logged(
                ChainPayload::EscrowSettled { escrow, contract, outcome },
            ).pumps_to(old(self).venue_clock(), final(self)@),
    {
        self.announce(ChainPayload::EscrowSettled { escrow, contract, outcome });
    }

    /// Apply every payout intent the adapter has picked up. Returns what custody made of each:
    /// `true` if it paid, `false` if it had already been paid.
    pub fn apply_payouts(&mut self) -> (r: Vec<Result<bool, CustodyError>>)
        requires
            old(self).wf(),
        ensures
            final(self).wf(),
            final(self).timed_as(old(self)),
            ({
                let intents = old(self)@.payouts;
                let ledger = old(self)@.custody.ledger;
                &&& r@ == payout_answers(ledger, intents, intents.len())
                &&& (HarnessView { payouts: Seq::empty(), ..old(self)@ }).with_ledger(
                    paid_intents(ledger, intents, intents.len()),
                ).pumps_to(old(self).venue_clock(), final(self)@)
            }),
    {
        let ghost before = self@;
        let ghost ledger = before.custody.ledger;
        let intents = events_of(&self.payouts);
        self.payouts.clear();
        let ghost cleared = self@;
        proof {
            assert(cleared =~= HarnessView { payouts: Seq::empty(), ..before });
            assert(cleared =~= cleared.with_ledger(ledger));
        }
        let mut outcomes: Vec<Result<bool, CustodyError>> = Vec::new();
        let mut k: usize = 0;
        while k < intents.len()
            invariant
                k <= intents@.len(),
                self.wf(),
                self.timed_as(old(self)),
                ledger == cleared.custody.ledger,
                self@ == cleared.with_ledger(paid_intents(ledger, intents@, k as nat)),
                outcomes@ == payout_answers(ledger, intents@, k as nat),
            decreases intents@.len() - k,
        {
            let ghost here = self@;
            if let Event::SettleIntent { escrow, contract, outcome } = intents[k] {
                let answer = self.custody.ledger_mut().settle_escrow(escrow, contract, outcome);
                outcomes.push(answer);
                proof {
                    assert(self@ =~= here.with_ledger(self@.custody.ledger));
                    assert(self@ =~= cleared.with_ledger(
                        paid_intents(ledger, intents@, (k + 1) as nat),
                    ));
                }
            }
            k += 1;
        }
        let _ = self.pump_indexer();
        outcomes
    }

    /// Throw away the oldest pending submission without including it: the send that never
    /// arrived.
    pub fn lose_next_submission(&mut self) -> (r: bool)
        requires
            old(self).wf(),
        ensures
            final(self).wf(),
            final(self).timed_as(old(self)),
            r == (old(self)@.custody.queue.len() > 0),
            final(self)@ == (HarnessView { custody: old(self)@.custody.lost(), ..old(self)@ }),
    {
        self.custody.drop_next_submission()
    }

    /// Include everything the chain has been handed, oldest first, and let the engine hear of it.
    pub fn include_all(&mut self) -> (r: Vec<IncludedTx>)
        requires
            old(self).wf(),
        ensures
            final(self).wf(),
            final(self).timed_as(old(self)),
            exists|mid: HarnessView| #[trigger]
                old(self)@.includes_to(old(self).chain_clock(), mid, r@) && mid.pumps_to(
                    old(self).venue_clock(),
                    final(self)@,
                ),
    {
        let ghost before = self@;
        let included = self.custody.include_all();
        let ghost settled = self@;
        proof {
            assert(settled =~= HarnessView { custody: settled.custody, ..before });
        }
        let mut k: usize = 0;
        proof {
            assert(before.escrows + Seq::<EscrowId>::empty() =~= before.escrows);
        }
        while k < included.len()
            invariant
                k <= included@.len(),
                self.wf(),
                self.timed_as(old(self)),
                settled == (HarnessView { custody: settled.custody, ..before }),
                self@ == (HarnessView {
                    escrows: before.escrows + formed_by(included@, k as nat),
                    ..settled
                }),
            decreases included@.len() - k,
        {
            let ghost here = self@;
            match included[k].outcome {
                Ok(receipt) => {
                    let ghost fresh = receipt.escrows@.take(receipt_len(receipt) as int);
                    let n: usize = receipt.n_escrows as usize;
                    let mut i: usize = 0;
                    proof {
                        assert(here.escrows + fresh.take(0) =~= here.escrows);
                    }
                    while i < n && i < crate::config::MAX_LEGS
                        invariant
                            i <= n == receipt.n_escrows,
                            i <= crate::config::MAX_LEGS,
                            fresh == receipt.escrows@.take(receipt_len(receipt) as int),
                            self.wf(),
                            self.timed_as(old(self)),
                            self@ == (HarnessView {
                                escrows: here.escrows + fresh.take(i as int),
                                ..here
                            }),
                        decreases n - i,
                    {
                        let id = receipt.escrows[i];
                        self.escrows.push(id);
                        proof {
                            assert(fresh.take(i + 1) =~= fresh.take(i as int).push(id));
                            assert(self@.escrows =~= here.escrows + fresh.take(i + 1));
                        }
                        i += 1;
                    }
                    proof {
                        assert(fresh.take(i as int) =~= fresh);
                        assert(self@.escrows =~= before.escrows + formed_by(
                            included@,
                            (k + 1) as nat,
                        ));
                    }
                },
                Err(_) => {},
            }
            k += 1;
        }
        let ghost mid = self@;
        proof {
            assert(before.includes_to(old(self).chain_clock(), mid, included@));
        }
        let _ = self.pump_indexer();
        included
    }

    /// Submit and include in one step. Returns what became of each submission.
    pub fn settle_pending(&mut self) -> (r: Vec<Result<SettleReceipt, SettleError>>)
        requires
            old(self).wf(),
        ensures
            final(self).wf(),
            final(self).timed_as(old(self)),
            exists|mid: HarnessView, txs: Seq<IncludedTx>| #[trigger]
                old(self)@.sent().includes_to(old(self).chain_clock(), mid, txs) && mid.pumps_to(
                    old(self).venue_clock(),
                    final(self)@,
                ) && r@ == Seq::new(txs.len(), |k: int| txs[k].outcome),
    {
        let _ = self.submit_pending();
        let included = self.include_all();
        let mut outcomes: Vec<Result<SettleReceipt, SettleError>> = Vec::new();
        let mut k: usize = 0;
        while k < included.len()
            invariant
                k <= included@.len(),
                outcomes@.len() == k,
                forall|j: int| 0 <= j < k ==> #[trigger] outcomes@[j] == included@[j].outcome,
            decreases included@.len() - k,
        {
            outcomes.push(included[k].outcome);
            k += 1;
        }
        proof {
            assert(outcomes@ =~= Seq::new(included@.len(), |k: int| included@[k].outcome));
        }
        outcomes
    }

    /// Ask about a nonce the way a poller would, and hand the answer to the engine.
    ///
    /// **This cannot move a request out of `Settling`.** A terminal answer arrives through the
    /// log, where confirmation depth and dedup apply; a terminal answer read directly is
    /// observed and deliberately not delivered.
    pub fn poll_settlement(&mut self, request: ReqIdx) -> (r: Result<TxStatus, HarnessError>)
        requires
            old(self).wf(),
        ensures
            final(self).wf(),
            final(self).timed_as(old(self)),
            match old(self)@.settling_nonce(request) {
                None => {
                    &&& r == Err::<TxStatus, HarnessError>(
                        HarnessError::Engine(EngineError::RequestNotSettling),
                    )
                    &&& final(self)@ == old(self)@
                },
                Some(nonce) => {
                    let status = old(self)@.custody.status(nonce);
                    if status.terminal() {
                        r == Ok::<TxStatus, HarnessError>(status) && final(self)@ == old(self)@
                    } else {
                        let command = Command::PollSettlement { nonce, status };
                        exists|now: Ts| #[trigger]
                            old(self).venue_clock().may_read(now) && {
                                &&& final(self)@ == old(self)@.commanded(command, now)
                                &&& r == (match old(self)@.engine.outcome(
                                    command,
                                    now,
                                    old(self)@.room,
                                ) {
                                    Ok(()) => Ok::<TxStatus, HarnessError>(status),
                                    Err(error) => Err(HarnessError::Engine(error)),
                                })
                            }
                    }
                },
            },
    {
        let ledger = self.engine.ledger();
        proof {
            ledger.wf_model();
        }
        let nonce = match ledger.request(request) {
            Some(record) => match record.state().nonce() {
                Some(nonce) => nonce,
                None => {
                    return Err(HarnessError::Engine(EngineError::RequestNotSettling));
                },
            },
            None => {
                return Err(HarnessError::Engine(EngineError::RequestNotSettling));
            },
        };
        let status = self.custody.status(nonce);
        if status.is_terminal() {
            return Ok(status);
        }
        match self.apply(Command::PollSettlement { nonce, status }) {
            Ok(()) => Ok(status),
            Err(error) => Err(error),
        }
    }

    /// Mine a block, then deliver whatever that made deep enough. Returns how many commands were
    /// delivered.
    pub fn advance_block(&mut self) -> (r: usize)
        requires
            old(self).wf(),
        ensures
            final(self).wf(),
            final(self).timed_as(old(self)),
            ({
                let mined = old(self)@.with_ledger(
                    CustodyView {
                        log: old(self)@.custody.ledger.log.mined(),
                        ..old(self)@.custody.ledger
                    },
                );
                &&& r == mined.undelivered().len()
                &&& mined.pumps_to(old(self).venue_clock(), final(self)@)
            }),
    {
        let ghost before = self@;
        self.custody.log_mut().advance_block();
        proof {
            assert(self@ =~= before.with_ledger(
                CustodyView { log: before.custody.ledger.log.mined(), ..before.custody.ledger },
            ));
        }
        self.pump_indexer()
    }

    /// Stop pumping the indexer: the log keeps growing and nothing reads it.
    ///
    /// A venue configured for zero indexer lag must not be made to exhibit any.
    pub fn stall_indexer(&mut self)
        requires
            old(self).wf(),
            old(self)@.engine.config.max_indexer_lag.0 > 0,
        ensures
            final(self).wf(),
            final(self).timed_as(old(self)),
            final(self)@ == (HarnessView { stalled: true, ..old(self)@ }),
    {
        self.indexer_stalled = true;
    }

    /// Resume pumping and catch the engine up.
    pub fn resume_indexer(&mut self)
        requires
            old(self).wf(),
        ensures
            final(self).wf(),
            final(self).timed_as(old(self)),
            (HarnessView { stalled: false, ..old(self)@ }).pumps_to(
                old(self).venue_clock(),
                final(self)@,
            ),
    {
        self.indexer_stalled = false;
        let _ = self.pump_indexer();
    }
}

impl<EC: SettableClock, CC: SettableClock> Harness<EC, CC> {
    /// Move both clocks to the same instant: custody is in-process and the two clocks happen to
    /// agree. Divergence is injected, not drifted into.
    pub fn set_both_clocks(&mut self, now: Ts)
        requires
            forall|t: Ts| old(self).venue_clock().may_read(t) ==> t.0 <= now.0,
            forall|t: Ts| old(self).chain_clock().may_read(t) ==> t.0 <= now.0,
        ensures
            final(self)@ == old(self)@,
            old(self).wf() ==> final(self).wf(),
            final(self).referee() == old(self).referee(),
            forall|t: Ts| final(self).venue_clock().may_read(t) <==> t == now,
            forall|t: Ts| final(self).chain_clock().may_read(t) <==> t == now,
    {
        proof {
            assert forall|t: Ts| self.engine_clock.may_read(t) implies t.0 <= now.0 by {
                assert(self.venue_clock().may_read(t));
            }
        }
        self.engine_clock.set_now(now);
        let custody_clock = self.custody.clock_mut();
        proof {
            assert forall|t: Ts| custody_clock.may_read(t) implies t.0 <= now.0 by {
                assert(old(self).chain_clock().may_read(t));
            }
        }
        custody_clock.set_now(now);
        proof {
            assert forall|t: Ts| self.venue_clock().may_read(t) <==> t == now by {
                assert(self.engine_clock.may_read(t) <==> t == now);
            }
            assert forall|t: Ts| self.chain_clock().may_read(t) <==> t == now by {}
        }
    }
}

/// How many of a receipt's escrows are real.
pub open spec fn receipt_len(receipt: SettleReceipt) -> nat {
    if receipt.n_escrows <= crate::config::MAX_LEGS {
        receipt.n_escrows as nat
    } else {
        crate::config::MAX_LEGS as nat
    }
}

/// The escrows the first `n` inclusions formed.
pub open spec fn formed_by(txs: Seq<IncludedTx>, n: nat) -> Seq<EscrowId>
    decreases n,
{
    if n == 0 {
        Seq::empty()
    } else {
        let before = formed_by(txs, (n - 1) as nat);
        match txs[n - 1].outcome {
            Ok(receipt) => before + receipt.escrows@.take(receipt_len(receipt) as int),
            Err(_) => before,
        }
    }
}

impl HarnessView {
    /// `after` is this state once everything the chain was handed is included, each at an instant
    /// the chain's clock may read, with `txs` reported.
    pub open spec fn includes_to<C: Clock>(
        self,
        clock: C,
        after: Self,
        txs: Seq<IncludedTx>,
    ) -> bool {
        exists|nows: Seq<Ts>|
            {
                &&& nows.len() == self.custody.queue.len()
                &&& forall|i: int| 0 <= i < nows.len() ==> clock.may_read(#[trigger] nows[i])
                &&& txs.len() == nows.len()
                &&& forall|i: int|
                    0 <= i < nows.len() ==> self.custody.reported_at(nows, i, #[trigger] txs[i])
                &&& after == (HarnessView {
                    custody: #[trigger] self.custody.drained(nows, nows.len()),
                    escrows: self.escrows + formed_by(txs, txs.len()),
                    ..self
                })
            }
    }
}

proof fn told_prefix(h: HarnessView, commands: Seq<Command>, nows: Seq<Ts>, now: Ts, n: nat)
    requires
        n == nows.len(),
    ensures
        h.told(commands, nows.push(now), n) == h.told(commands, nows, n),
{
    told_prefix_upto(h, commands, nows, now, n);
}

proof fn told_prefix_upto(h: HarnessView, commands: Seq<Command>, nows: Seq<Ts>, now: Ts, n: nat)
    requires
        n <= nows.len(),
    ensures
        h.told(commands, nows.push(now), n) == h.told(commands, nows, n),
    decreases n,
{
    if n > 0 {
        told_prefix_upto(h, commands, nows, now, (n - 1) as nat);
    }
}

} // verus!
