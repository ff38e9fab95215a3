//! The chain in front of custody's ledger: a clock, a queue of submissions, and the fate of every
//! nonce.
//!
//! A submission is not an inclusion. Between the two there is an interval in which no answer
//! exists, and what can be asked in that interval is asked of the **nonce**, never of whichever
//! submission most recently carried it.

use crate::account::AccountIdx;
use crate::chain::bundle::Bundle;
use crate::chain::custody::model::CustodyView;
use crate::chain::custody::{CustodyError, CustodyLedger, SettleError, SettleReceipt};
use crate::chain::log::{ChainLog, ChainPayload};
use crate::clock::Clock;
use crate::config::MAX_LEGS;
use crate::request::Nonce;
use crate::settlement::TxStatus;
use crate::types::{Amount, Dur, Ts};
use vstd::prelude::*;

verus! {

/// What a submitter is told: the bundle was handed over, and nothing more.
#[derive(Clone, Copy, Debug, PartialEq, Eq, Structural)]
pub struct SubmitAck {
    /// The nonce to ask about.
    pub nonce: Nonce,
}

/// One included submission.
#[derive(Clone, Copy, Debug, PartialEq, Eq)]
pub struct IncludedTx {
    /// The nonce it carried.
    pub nonce: Nonce,
    /// What became of the **submission**.
    pub outcome: Result<SettleReceipt, SettleError>,
    /// What became of the **nonce**.
    pub status: TxStatus,
}

/// What the chain holds.
#[verifier::ext_equal]
pub struct ChainState {
    /// The balances, escrows and nonces.
    pub ledger: CustodyView,
    /// Submissions received and not yet included, oldest first.
    pub queue: Seq<Bundle>,
    /// Nonces whose settlement reverted.
    pub reverted: Seq<Nonce>,
}

impl ChainState {
    /// Some queued submission carries `nonce`.
    pub open spec fn queued(self, nonce: Nonce) -> bool {
        exists|i: int| 0 <= i < self.queue.len() && (#[trigger] self.queue[i]).nonce == nonce
    }

    /// What is known of a nonce.
    pub open spec fn status(self, nonce: Nonce) -> TxStatus {
        if self.ledger.nonces.contains(nonce) {
            TxStatus::Settled
        } else if self.reverted.contains(nonce) {
            TxStatus::Reverted
        } else if self.queued(nonce) {
            TxStatus::Pending
        } else {
            TxStatus::Unknown
        }
    }

    /// After a submission is received.
    pub open spec fn submitted(self, bundle: Bundle) -> Self {
        ChainState { queue: self.queue.push(bundle), ..self }
    }

    /// After the oldest submission is lost.
    pub open spec fn lost(self) -> Self {
        ChainState {
            queue: if self.queue.len() > 0 {
                self.queue.drop_first()
            } else {
                self.queue
            },
            ..self
        }
    }

    /// Why including `bundle` at `now` reverts, if it does: first for the number of its legs, then
    /// for its nonce, then for the rest. A nonce with a terminal answer is spent, whichever answer
    /// it was.
    pub open spec fn reverts(self, bundle: Bundle, now: Ts) -> Option<SettleError> {
        if bundle.n_legs == 0 {
            Some(SettleError::NoLegs)
        } else if bundle.n_legs > MAX_LEGS {
            Some(SettleError::TooManyLegs)
        } else if self.status(bundle.nonce).terminal() {
            Some(SettleError::NonceReused)
        } else {
            self.ledger.reverts(bundle, now)
        }
    }

    /// After `bundle` settles or reverts at `now`, without recording the revert.
    pub open spec fn settled(self, bundle: Bundle, now: Ts) -> Self {
        if self.reverts(bundle, now) is None {
            ChainState { ledger: self.ledger.settled(bundle), ..self }
        } else {
            self
        }
    }

    /// After a transaction carrying `bundle` is included at `now`. A settlement and a first
    /// revert are announced; whatever carries a nonce that has its answer announces nothing.
    pub open spec fn included(self, bundle: Bundle, now: Ts) -> Self {
        if self.status(bundle.nonce).terminal() {
            self
        } else if self.reverts(bundle, now) is None {
            self.settled(bundle, now)
        } else {
            ChainState {
                ledger: CustodyView {
                    log: self.ledger.log.written(
                        seq![
                            ChainPayload::SettlementResolved {
                                nonce: bundle.nonce,
                                status: TxStatus::Reverted,
                            },
                        ],
                    ),
                    ..self.ledger
                },
                reverted: self.reverted.push(bundle.nonce),
                ..self
            }
        }
    }

    /// After the first `n` queued submissions are included at the instants `nows`, oldest first.
    pub open spec fn drained(self, nows: Seq<Ts>, n: nat) -> Self
        decreases n,
    {
        if n == 0 {
            self
        } else {
            let before = self.drained(nows, (n - 1) as nat);
            let bundle = before.queue[0];
            ChainState { queue: before.queue.drop_first(), ..before }.included(
                bundle,
                nows[n - 1],
            )
        }
    }

    /// `tx` reports the inclusion of `bundle` at `now`.
    pub open spec fn reported(self, bundle: Bundle, now: Ts, tx: IncludedTx) -> bool {
        &&& tx.nonce == bundle.nonce
        &&& tx.status == self.included(bundle, now).status(bundle.nonce)
        &&& match self.reverts(bundle, now) {
            Some(error) => tx.outcome == Err::<SettleReceipt, SettleError>(error),
            None => tx.outcome is Ok && tx.outcome->Ok_0.names(bundle, self.ledger.escrows.len()),
        }
    }

    /// `tx` reports the `i`-th inclusion of a drain.
    pub open spec fn reported_at(self, nows: Seq<Ts>, i: int, tx: IncludedTx) -> bool {
        let before = self.drained(nows, i as nat);
        ChainState { queue: before.queue.drop_first(), ..before }.reported(
            before.queue[0],
            nows[i],
            tx,
        )
    }
}

/// **A terminal answer is immutable**: once a nonce is `Settled` or `Reverted`, no submission,
/// loss or inclusion changes what is known of it.
pub proof fn a_terminal_answer_is_immutable(
    chain: ChainState,
    nonce: Nonce,
    bundle: Bundle,
    now: Ts,
)
    requires
        chain.status(nonce).terminal(),
    ensures
        chain.submitted(bundle).status(nonce) == chain.status(nonce),
        chain.lost().status(nonce) == chain.status(nonce),
        chain.settled(bundle, now).status(nonce) == chain.status(nonce),
        chain.included(bundle, now).status(nonce) == chain.status(nonce),
{
    let after = chain.included(bundle, now);
    let direct = chain.settled(bundle, now);
    if chain.ledger.nonces.contains(nonce) {
        let i = chain.ledger.nonces.index_of(nonce);
        assert(after.ledger.nonces[i] == nonce);
        assert(direct.ledger.nonces[i] == nonce);
    } else {
        let i = chain.reverted.index_of(nonce);
        assert(after.reverted[i] == nonce);
        if after.ledger.nonces.contains(nonce) || direct.ledger.nonces.contains(nonce) {
            assert(chain.reverts(bundle, now) is None);
            assert(bundle.nonce != nonce);
            let pushed = chain.ledger.nonces.push(bundle.nonce);
            let j = pushed.index_of(nonce);
            assert(pushed.contains(nonce));
            assert(pushed[j] == nonce);
            if j < chain.ledger.nonces.len() {
                assert(chain.ledger.nonces[j] == nonce);
            }
            assert(false);
        }
    }
}

/// **A retry is applied exactly once**: a submission whose nonce has a terminal answer reverts and
/// moves nothing, as reused wherever it has an admissible number of legs.
pub proof fn a_retry_changes_nothing(chain: ChainState, bundle: Bundle, now: Ts)
    requires
        chain.status(bundle.nonce).terminal(),
    ensures
        chain.reverts(bundle, now) is Some,
        0 < bundle.n_legs <= MAX_LEGS ==> chain.reverts(bundle, now) == Some(
            SettleError::NonceReused,
        ),
        chain.included(bundle, now) == chain,
        chain.settled(bundle, now) == chain,
{
}

/// **A dry run answers what settling would**: at one instant and in one state, a dry run fails
/// exactly where settling reverts, with the same error, and passes exactly where it settles.
pub proof fn a_dry_run_answers_what_settling_would(
    chain: ChainState,
    bundle: Bundle,
    now: Ts,
    checked: Result<(), SettleError>,
    outcome: Result<SettleReceipt, SettleError>,
)
    requires
        checked == (match chain.reverts(bundle, now) {
            Some(error) => Err::<(), SettleError>(error),
            None => Ok::<(), SettleError>(()),
        }),
        match chain.reverts(bundle, now) {
            Some(error) => outcome == Err::<SettleReceipt, SettleError>(error),
            None => outcome is Ok && outcome->Ok_0.names(bundle, chain.ledger.escrows.len()),
        },
    ensures
        checked == (match outcome {
            Ok(_) => Ok::<(), SettleError>(()),
            Err(error) => Err::<(), SettleError>(error),
        }),
        checked is Ok <==> chain.settled(bundle, now) != chain,
{
    if checked is Ok {
        assert(chain.ledger.settled(bundle).nonces.len() == chain.ledger.nonces.len() + 1);
    }
}

/// **Inclusion is an answer**: once a submission is included its nonce has a terminal answer, and
/// `Settled` is the answer exactly where this or an earlier submission settled it.
pub proof fn inclusion_answers(chain: ChainState, bundle: Bundle, now: Ts)
    ensures
        chain.included(bundle, now).status(bundle.nonce).terminal(),
        chain.included(bundle, now).status(bundle.nonce) is Settled <==> (chain.status(
            bundle.nonce,
        ) is Settled || chain.reverts(bundle, now) is None),
{
    let after = chain.included(bundle, now);
    if !chain.status(bundle.nonce).terminal() {
        if chain.reverts(bundle, now) is None {
            let i = chain.ledger.nonces.len() as int;
            assert(after.ledger.nonces[i] == bundle.nonce);
        } else {
            let i = chain.reverted.len() as int;
            assert(after.reverted[i] == bundle.nonce);
        }
    }
}

/// The escrow contract, as a local model.
///
/// Generic over its clock: a custody built on a monotonic clock exposes no way to advance it,
/// because that type has no such method.
#[derive(Debug)]
pub struct Custody<C: Clock> {
    clock: C,
    ledger: CustodyLedger,
    queue: Vec<Bundle>,
    reverted: Vec<Nonce>,
}

impl<C: Clock> Custody<C> {
    /// What the chain holds.
    pub closed spec fn view(&self) -> ChainState {
        ChainState { ledger: self.ledger@, queue: self.queue@, reverted: self.reverted@ }
    }

    /// The chain's clock.
    pub closed spec fn timepiece(&self) -> C {
        self.clock
    }

    /// Whether custody is sound; see [`CustodyView::wf`].
    pub open spec fn wf(&self) -> bool {
        self@.ledger.wf()
    }

    /// Construct custody with its own clock, its timelock, and its preallocated tables.
    ///
    /// The delay is passed as a bare duration rather than as the venue's whole configuration:
    /// custody enforces the timelock but has no business knowing how many legs a request may
    /// carry.
    pub fn new(clock: C, withdrawal_delay: Dur, max_accounts: u32, max_escrows: u32) -> (r: Self)
        ensures
            r.wf(),
            r.timepiece() == clock,
            r@ == (ChainState {
                ledger: CustodyView::empty(max_accounts, max_escrows, withdrawal_delay),
                queue: Seq::empty(),
                reverted: Seq::empty(),
            }),
    {
        Custody {
            clock,
            ledger: CustodyLedger::new(withdrawal_delay, max_accounts, max_escrows),
            queue: Vec::new(),
            reverted: Vec::new(),
        }
    }

    /// Chain time. Sampled once per settlement transaction, never by the engine.
    pub fn now(&self) -> (r: Ts)
        ensures
            self.timepiece().may_read(r),
    {
        self.clock.now()
    }

    /// How long a withdrawal request waits before execution.
    pub fn withdrawal_delay(&self) -> (r: Dur)
        ensures
            r == self@.ledger.delay,
    {
        self.ledger.withdrawal_delay()
    }

    /// Custody's clock, for a caller to advance independently of the engine's.
    pub fn clock_mut(&mut self) -> (r: &mut C)
        ensures
            *r == old(self).timepiece(),
            final(self).timepiece() == *final(r),
            final(self)@ == old(self)@,
    {
        &mut self.clock
    }

    /// Balances, escrows and nonces, read-only.
    pub fn ledger(&self) -> (r: &CustodyLedger)
        ensures
            r@ == self@.ledger,
    {
        &self.ledger
    }

    /// Balances, escrows and nonces, for the operations that take an instant.
    pub fn ledger_mut(&mut self) -> (r: &mut CustodyLedger)
        ensures
            r@ == old(self)@.ledger,
            final(self)@ == (ChainState { ledger: final(r)@, ..old(self)@ }),
            final(self).timepiece() == old(self).timepiece(),
    {
        &mut self.ledger
    }

    /// The chain log, read-only.
    pub fn log(&self) -> (r: &ChainLog)
        ensures
            r@ == self@.ledger.log,
    {
        self.ledger.log()
    }

    /// The chain log, for facts that are not custody's own.
    pub fn log_mut(&mut self) -> (r: &mut ChainLog)
        ensures
            r@ == old(self)@.ledger.log,
            final(self)@ == (ChainState {
                ledger: CustodyView { log: final(r)@, ..old(self)@.ledger },
                ..old(self)@
            }),
            old(self).wf() ==> final(self).wf(),
            final(self).timepiece() == old(self).timepiece(),
    {
        self.ledger.log_mut()
    }

    /// Credit an account.
    pub fn deposit(&mut self, account: AccountIdx, amount: Amount) -> (r: Result<(), CustodyError>)
        requires
            old(self).wf(),
        ensures
            final(self).wf(),
            final(self).timepiece() == old(self).timepiece(),
            match old(self)@.ledger.deposit_refused(account, amount) {
                Some(error) => r == Err::<(), CustodyError>(error) && final(self)@ == old(self)@,
                None => r == Ok::<(), CustodyError>(()) && final(self)@ == (ChainState {
                    ledger: old(self)@.ledger.after_deposit(account, amount),
                    ..old(self)@
                }),
            },
    {
        self.ledger.deposit(account, amount)
    }

    /// Request a withdrawal at custody's current time.
    pub fn request_withdrawal(&mut self, account: AccountIdx, amount: Amount) -> (r: Result<
        Ts,
        CustodyError,
    >)
        requires
            old(self).wf(),
        ensures
            final(self).wf(),
            final(self).timepiece() == old(self).timepiece(),
            exists|now: Ts| #[trigger]
                old(self).timepiece().may_read(now) && match old(self)@.ledger.withdrawal_refused(
                    account,
                    amount,
                    now,
                ) {
                    Some(error) => r == Err::<Ts, CustodyError>(error) && final(self)@ == old(
                        self,
                    )@,
                    None => {
                        &&& r == Ok::<Ts, CustodyError>(
                            Ts((now.0 + old(self)@.ledger.delay.0) as u64),
                        )
                        &&& final(self)@ == (ChainState {
                            ledger: old(self)@.ledger.withdrawal_requested(account, amount, now),
                            ..old(self)@
                        })
                    },
                },
    {
        let now = self.clock.now();
        assert(self.timepiece().may_read(now));
        self.ledger.request_withdrawal(account, amount, now)
    }

    /// Execute a matured withdrawal at custody's current time.
    pub fn execute_withdrawal(&mut self, account: AccountIdx) -> (r: Result<Amount, CustodyError>)
        requires
            old(self).wf(),
        ensures
            final(self).wf(),
            final(self).timepiece() == old(self).timepiece(),
            exists|now: Ts| #[trigger]
                old(self).timepiece().may_read(now) && match old(self)@.ledger.execution_refused(
                    account,
                    now,
                ) {
                    Some(error) => r == Err::<Amount, CustodyError>(error) && final(self)@ == old(
                        self,
                    )@,
                    None => {
                        &&& r == Ok::<Amount, CustodyError>(old(self)@.ledger.payable(account))
                        &&& final(self)@ == (ChainState {
                            ledger: old(self)@.ledger.withdrawal_executed(account),
                            ..old(self)@
                        })
                    },
                },
    {
        let now = self.clock.now();
        assert(self.timepiece().may_read(now));
        self.ledger.execute_withdrawal(account, now)
    }

    /// A read-only dry run of [`Custody::settle`] at custody's current time: whatever it would
    /// revert with, as of now.
    ///
    /// **An optimisation with no correctness role.** The authoritative validation is inside the
    /// transaction.
    pub fn precheck(&self, bundle: &Bundle) -> (r: Result<(), SettleError>)
        requires
            self.wf(),
        ensures
            exists|now: Ts| #[trigger]
                self.timepiece().may_read(now) && r == (match self@.reverts(*bundle, now) {
                    Some(error) => Err::<(), SettleError>(error),
                    None => Ok::<(), SettleError>(()),
                }),
    {
        let now = self.clock.now();
        assert(self.timepiece().may_read(now));
        self.precheck_at(bundle, now)
    }

    /// A read-only dry run of [`Custody::settle_at`].
    pub fn precheck_at(&self, bundle: &Bundle, now: Ts) -> (r: Result<(), SettleError>)
        requires
            self.wf(),
        ensures
            r == (match self@.reverts(*bundle, now) {
                Some(error) => Err::<(), SettleError>(error),
                None => Ok::<(), SettleError>(()),
            }),
    {
        if self.bounces(bundle) {
            return Err(SettleError::NonceReused);
        }
        self.ledger.precheck(bundle, now)
    }

    /// Whether a bundle with an admissible number of legs carries a nonce that has its answer.
    fn bounces(&self, bundle: &Bundle) -> (r: bool)
        ensures
            r == (0 < bundle.n_legs <= MAX_LEGS && self@.status(bundle.nonce).terminal()),
    {
        bundle.n_legs > 0 && bundle.n_legs as usize <= MAX_LEGS && self.status(
            bundle.nonce,
        ).is_terminal()
    }

    /// Settle a bundle at custody's current time, or revert entirely.
    pub fn settle(&mut self, bundle: &Bundle) -> (r: Result<SettleReceipt, SettleError>)
        requires
            old(self).wf(),
        ensures
            final(self).wf(),
            final(self).timepiece() == old(self).timepiece(),
            exists|now: Ts| #[trigger]
                old(self).timepiece().may_read(now) && {
                    &&& final(self)@ == old(self)@.settled(*bundle, now)
                    &&& match old(self)@.reverts(*bundle, now) {
                        Some(error) => r == Err::<SettleReceipt, SettleError>(error),
                        None => r is Ok && r->Ok_0.names(
                            *bundle,
                            old(self)@.ledger.escrows.len(),
                        ),
                    }
                },
    {
        let now = self.clock.now();
        self.settle_at(bundle, now)
    }

    /// Settle a bundle at a sampled instant, or revert entirely.
    pub fn settle_at(&mut self, bundle: &Bundle, now: Ts) -> (r: Result<
        SettleReceipt,
        SettleError,
    >)
        requires
            old(self).wf(),
        ensures
            final(self).wf(),
            final(self).timepiece() == old(self).timepiece(),
            final(self)@ == old(self)@.settled(*bundle, now),
            match old(self)@.reverts(*bundle, now) {
                Some(error) => r == Err::<SettleReceipt, SettleError>(error),
                None => r is Ok && r->Ok_0.names(*bundle, old(self)@.ledger.escrows.len()),
            },
    {
        if self.bounces(bundle) {
            return Err(SettleError::NonceReused);
        }
        self.ledger.settle(bundle, now)
    }

    // ───────────────────────────── submission and inclusion ─────────────────────────────

    /// Whether `nonce` is among those that reverted.
    fn has_reverted(&self, nonce: Nonce) -> (r: bool)
        ensures
            r == self@.reverted.contains(nonce),
    {
        let mut i: usize = 0;
        while i < self.reverted.len()
            invariant
                i <= self.reverted@.len(),
                forall|j: int| 0 <= j < i ==> #[trigger] self.reverted@[j] != nonce,
            decreases self.reverted@.len() - i,
        {
            if self.reverted[i] == nonce {
                proof {
                    assert(self@.reverted[i as int] == nonce);
                }
                return true;
            }
            i += 1;
        }
        false
    }

    /// Whether a queued submission carries `nonce`.
    fn is_queued(&self, nonce: Nonce) -> (r: bool)
        ensures
            r == self@.queued(nonce),
    {
        let mut i: usize = 0;
        while i < self.queue.len()
            invariant
                i <= self.queue@.len(),
                forall|j: int| 0 <= j < i ==> (#[trigger] self.queue@[j]).nonce != nonce,
            decreases self.queue@.len() - i,
        {
            if self.queue[i].nonce == nonce {
                proof {
                    assert(self@.queue[i as int].nonce == nonce);
                }
                return true;
            }
            i += 1;
        }
        false
    }

    /// What is known of a nonce.
    pub fn status(&self, nonce: Nonce) -> (r: TxStatus)
        ensures
            r == self@.status(nonce),
    {
        if self.ledger.nonce_used(nonce) {
            TxStatus::Settled
        } else if self.has_reverted(nonce) {
            TxStatus::Reverted
        } else if self.is_queued(nonce) {
            TxStatus::Pending
        } else {
            TxStatus::Unknown
        }
    }

    /// Receive a submission. **Sent, and nothing more**: nothing is included yet.
    pub fn submit(&mut self, bundle: Bundle) -> (r: SubmitAck)
        ensures
            final(self)@ == old(self)@.submitted(bundle),
            final(self).timepiece() == old(self).timepiece(),
            r.nonce == bundle.nonce,
    {
        self.queue.push(bundle);
        SubmitAck { nonce: bundle.nonce }
    }

    /// Throw away the oldest pending submission without including it: the send that never
    /// arrived. `false` if there was none.
    pub fn drop_next_submission(&mut self) -> (r: bool)
        ensures
            r == (old(self)@.queue.len() > 0),
            final(self)@ == old(self)@.lost(),
            final(self).timepiece() == old(self).timepiece(),
    {
        if self.queue.len() == 0 {
            return false;
        }
        let _ = self.queue.remove(0);
        proof {
            assert(self.queue@ =~= old(self).queue@.drop_first());
        }
        true
    }

    /// Include one bundle at a sampled instant.
    pub fn include_at(&mut self, bundle: &Bundle, now: Ts) -> (r: IncludedTx)
        requires
            old(self).wf(),
        ensures
            final(self).wf(),
            final(self).timepiece() == old(self).timepiece(),
            final(self)@ == old(self)@.included(*bundle, now),
            old(self)@.reported(*bundle, now, r),
    {
        let ghost before = self@;
        let answered = self.status(bundle.nonce).is_terminal();
        let outcome = self.settle_at(bundle, now);
        if outcome.is_err() && !answered {
            self.reverted.push(bundle.nonce);
            self.log_mut().append(
                ChainPayload::SettlementResolved {
                    nonce: bundle.nonce,
                    status: TxStatus::Reverted,
                },
            );
        }
        proof {
            assert(self@ =~= before.included(*bundle, now));
        }
        let status = self.status(bundle.nonce);
        IncludedTx { nonce: bundle.nonce, outcome, status }
    }

    /// Include everything the chain has been handed, oldest first, sampling the clock once per
    /// transaction.
    pub fn include_all(&mut self) -> (r: Vec<IncludedTx>)
        requires
            old(self).wf(),
        ensures
            final(self).wf(),
            final(self).timepiece() == old(self).timepiece(),
            r@.len() == old(self)@.queue.len(),
            exists|nows: Seq<Ts>|
                {
                    &&& nows.len() == old(self)@.queue.len()
                    &&& forall|i: int|
                        0 <= i < nows.len() ==> old(self).timepiece().may_read(#[trigger] nows[i])
                    &&& final(self)@ == #[trigger] old(self)@.drained(nows, nows.len())
                    &&& forall|i: int|
                        0 <= i < nows.len() ==> old(self)@.reported_at(
                            nows,
                            i,
                            #[trigger] r@[i],
                        )
                },
    {
        let mut included: Vec<IncludedTx> = Vec::new();
        let ghost mut nows: Seq<Ts> = Seq::empty();
        let ghost start = self@;
        while self.queue.len() > 0
            invariant
                self.wf(),
                start == old(self)@,
                self.timepiece() == old(self).timepiece(),
                included@.len() == nows.len(),
                self@ == start.drained(nows, nows.len()),
                self@.queue == start.queue.skip(nows.len() as int),
                nows.len() <= start.queue.len(),
                forall|i: int|
                    0 <= i < nows.len() ==> old(self).timepiece().may_read(#[trigger] nows[i]),
                forall|i: int|
                    0 <= i < nows.len() ==> start.reported_at(nows, i, #[trigger] included@[i]),
            decreases self.queue@.len(),
        {
            let ghost before = self@;
            let ghost n = nows.len() as int;
            let bundle = self.queue.remove(0);
            proof {
                assert(self@.queue =~= before.queue.drop_first());
                assert(self@ =~= ChainState { queue: before.queue.drop_first(), ..before });
                assert(before.queue.drop_first() =~= start.queue.skip(n + 1));
            }
            let ghost popped = self@;
            let now = self.clock.now();
            let tx = self.include_at(&bundle, now);
            included.push(tx);
            proof {
                let more = nows.push(now);
                assert forall|k: nat| k <= n implies #[trigger] start.drained(more, k)
                    == start.drained(nows, k) by {
                    drained_prefix(start, nows, now, k);
                }
                assert(more[n] == now);
                assert(start.drained(more, n as nat) == before);
                assert(before.queue[0] == bundle);
                assert(((n + 1) as nat - 1) as nat == n as nat);
                assert(start.drained(more, (n + 1) as nat) == popped.included(bundle, now));
                assert forall|i: int| 0 <= i < more.len() implies start.reported_at(
                    more,
                    i,
                    #[trigger] included@[i],
                ) by {
                    if i < n {
                        assert(start.reported_at(nows, i, included@[i]));
                        assert(start.drained(more, i as nat) == start.drained(nows, i as nat));
                        assert(more[i] == nows[i]);
                    } else {
                        assert(start.drained(more, i as nat) == before);
                    }
                }
                nows = more;
            }
        }
        proof {
            assert(start.drained(nows, nows.len()) == self@);
        }
        included
    }
}

proof fn drained_prefix(chain: ChainState, nows: Seq<Ts>, now: Ts, k: nat)
    requires
        k <= nows.len(),
    ensures
        chain.drained(nows.push(now), k) == chain.drained(nows, k),
    decreases k,
{
    if k > 0 {
        drained_prefix(chain, nows, now, (k - 1) as nat);
    }
}

} // verus!
