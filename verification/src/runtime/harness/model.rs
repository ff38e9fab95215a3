//! The two systems side by side, as mathematics.

use crate::account::AccountIdx;
use crate::chain::bundle::Bundle;
use crate::chain::custody::model::CustodyView;
use crate::chain::custody::queue::ChainState;
use crate::chain::custody::CustodyError;
use crate::chain::escrow::Escrow;
use crate::chain::indexer::IndexerView;
use crate::chain::log::{ChainPayload, LogView};
use crate::chain::oracle::Proposal;
use crate::clock::Clock;
use crate::command::Command;
use crate::engine::model::EngineView;
use crate::escrow::EscrowId;
use crate::event::Event;
use crate::request::{Nonce, ReqIdx, RequestState};
use crate::runtime::settlement::bundle_of;
use crate::types::{Amount, Ts};
use vstd::prelude::*;

verus! {

/// Everything a harness holds.
#[verifier::ext_equal]
pub struct HarnessView {
    /// The engine.
    pub engine: EngineView,
    /// How many events one command may emit.
    pub room: nat,
    /// The chain.
    pub custody: ChainState,
    /// What the oracle knows.
    pub oracle: Map<u32, Proposal>,
    /// The indexer.
    pub indexer: IndexerView,
    /// Whether the indexer is left un-pumped.
    pub stalled: bool,
    /// Bundles picked off the event stream and not yet submitted.
    pub pending: Seq<Bundle>,
    /// Bundles that have been sent.
    pub in_flight: Seq<Bundle>,
    /// Escrows formed so far, in settlement order.
    pub escrows: Seq<EscrowId>,
    /// Payout intents picked up and not yet applied.
    pub payouts: Seq<Event>,
    /// Every event the engine has emitted.
    pub emitted: Seq<Event>,
}

/// The bundles the first `n` of `events` call for.
pub open spec fn bundles_in(events: Seq<Event>, n: nat) -> Seq<Bundle>
    decreases n,
{
    if n == 0 {
        Seq::empty()
    } else {
        let before = bundles_in(events, (n - 1) as nat);
        match bundle_of(events[n - 1]) {
            Some(bundle) => before.push(bundle),
            None => before,
        }
    }
}

/// The payout intents among the first `n` of `events`.
pub open spec fn payouts_in(events: Seq<Event>, n: nat) -> Seq<Event>
    decreases n,
{
    if n == 0 {
        Seq::empty()
    } else {
        let before = payouts_in(events, (n - 1) as nat);
        if events[n - 1] is SettleIntent {
            before.push(events[n - 1])
        } else {
            before
        }
    }
}

/// What custody answers to the first `n` of `intents`, in order.
pub open spec fn payout_answers(
    custody: CustodyView,
    intents: Seq<Event>,
    n: nat,
) -> Seq<Result<bool, CustodyError>>
    decreases n,
{
    if n == 0 {
        Seq::empty()
    } else {
        let before = payout_answers(custody, intents, (n - 1) as nat);
        match intents[n - 1] {
            Event::SettleIntent { escrow, contract, .. } => {
                let state = paid_intents(custody, intents, (n - 1) as nat);
                before.push(
                    match state.payout_refused(escrow, contract) {
                        Some(error) => Err(error),
                        None => Ok(state.escrows[escrow.0 as int].state is Locked),
                    },
                )
            },
            _ => before,
        }
    }
}

/// Custody after the first `n` of `intents` are paid out, in order.
pub open spec fn paid_intents(custody: CustodyView, intents: Seq<Event>, n: nat) -> CustodyView
    decreases n,
{
    if n == 0 {
        custody
    } else {
        let before = paid_intents(custody, intents, (n - 1) as nat);
        match intents[n - 1] {
            Event::SettleIntent { escrow, contract, outcome } => {
                if before.payout_refused(escrow, contract) is None && before.escrows[escrow.0 as int].state is Locked {
                    before.paid_out(escrow, outcome)
                } else {
                    before
                }
            },
            _ => before,
        }
    }
}

/// What the locked escrows hold of `account`'s money, among the first `n`.
pub open spec fn escrowed(escrows: Seq<Escrow>, account: AccountIdx, n: nat) -> int
    decreases n,
{
    if n == 0 {
        0
    } else {
        let escrow = escrows[n - 1];
        escrowed(escrows, account, (n - 1) as nat) + (if escrow.state is Locked
            && escrow.requester == account {
            escrow.requester_contribution.0 as int
        } else {
            0
        }) + (if escrow.state is Locked && escrow.maker == account {
            escrow.maker_contribution.0 as int
        } else {
            0
        })
    }
}

/// The chain said, at some point, that `account` has `available` available.
pub open spec fn was_published(log: LogView, account: AccountIdx, available: Amount) -> bool {
    exists|i: int|
        0 <= i < log.entries.len() && (#[trigger] log.entries[i]).payload
            == (ChainPayload::BalanceChanged { account, available })
}

impl HarnessView {
    /// After the adapters have heard `events`.
    pub open spec fn heard(self, events: Seq<Event>) -> Self {
        HarnessView {
            pending: self.pending + bundles_in(events, events.len()),
            payouts: self.payouts + payouts_in(events, events.len()),
            emitted: self.emitted + events,
            ..self
        }
    }

    /// After the engine applies `command` at `now` and the adapters hear what it emitted.
    pub open spec fn commanded(self, command: Command, now: Ts) -> Self {
        HarnessView {
            engine: self.engine.after(command, now, self.room),
            ..self
        }.heard(self.engine.emitted(command, now, self.room))
    }

    /// What the indexer has to deliver.
    pub open spec fn undelivered(self) -> Seq<Command> {
        if self.stalled {
            Seq::empty()
        } else {
            self.indexer.delivery(self.custody.ledger.log)
        }
    }

    /// After the first `n` of `commands` are applied at the instants `nows`.
    pub open spec fn told(self, commands: Seq<Command>, nows: Seq<Ts>, n: nat) -> Self
        decreases n,
    {
        if n == 0 {
            self
        } else {
            self.told(commands, nows, (n - 1) as nat).commanded(commands[n - 1], nows[n - 1])
        }
    }

    /// After the indexer has read the log.
    pub open spec fn read(self) -> Self {
        HarnessView {
            indexer: if self.stalled {
                self.indexer
            } else {
                self.indexer.drained(self.custody.ledger.log)
            },
            ..self
        }
    }

    /// After everything the indexer has to deliver is applied at the instants `nows`.
    pub open spec fn pumped(self, nows: Seq<Ts>) -> Self {
        self.read().told(self.undelivered(), nows, self.undelivered().len())
    }

    /// `after` is this state once the indexer is pumped, each command at an instant the venue's
    /// clock may read.
    pub open spec fn pumps_to<C: Clock>(self, clock: C, after: Self) -> bool {
        exists|nows: Seq<Ts>|
            {
                &&& nows.len() == self.undelivered().len()
                &&& forall|i: int| 0 <= i < nows.len() ==> clock.may_read(#[trigger] nows[i])
                &&& after == #[trigger] self.pumped(nows)
            }
    }

    /// With another custody ledger.
    pub open spec fn with_ledger(self, ledger: CustodyView) -> Self {
        HarnessView { custody: ChainState { ledger, ..self.custody }, ..self }
    }

    /// After one entry is written to the log.
    pub open spec fn logged(self, payload: ChainPayload) -> Self {
        self.with_ledger(
            CustodyView {
                log: self.custody.ledger.log.written(seq![payload]),
                ..self.custody.ledger
            },
        )
    }

    /// After every pending bundle is sent.
    pub open spec fn sent(self) -> Self {
        HarnessView {
            custody: ChainState { queue: self.custody.queue + self.pending, ..self.custody },
            in_flight: self.in_flight + self.pending,
            pending: Seq::empty(),
            ..self
        }
    }

    /// Position `k` is the first sent bundle carrying `request`'s nonce.
    pub open spec fn first_sent(self, request: ReqIdx, k: int) -> bool {
        &&& 0 <= k < self.in_flight.len()
        &&& self.in_flight[k].nonce == Nonce::naming(request)
        &&& forall|j: int|
            0 <= j < k ==> (#[trigger] self.in_flight[j]).nonce != Nonce::naming(request)
    }

    /// The nonce a request is settling under, if it is.
    pub open spec fn settling_nonce(self, request: ReqIdx) -> Option<Nonce> {
        if self.engine.ledger.requests.names(request) {
            match self.engine.ledger.requests.of(request).state {
                RequestState::Settling { nonce, .. } => Some(nonce),
                _ => None,
            }
        } else {
            None
        }
    }

    // ───────────────────────────── what spans both systems ─────────────────────────────

    /// Account `a`'s claims are not covered: the engine has promised more than custody holds for
    /// it, in its balance and in locked escrows.
    pub open spec fn uncovered(self, a: int) -> bool {
        let account = AccountIdx(a as u32);
        let ledger = self.custody.ledger;
        &&& a < self.engine.ledger.accounts.len()
        &&& self.engine.ledger.accounts[a].reserved.0 + self.engine.ledger.accounts[a].committed.0
            > ledger.balance(account).0 + escrowed(ledger.escrows, account, ledger.escrows.len())
    }

    /// Whether no lag is declared and none is exhibited.
    pub open spec fn lagless(self) -> bool {
        &&& self.engine.config.confirmations == 0
        &&& self.engine.config.max_indexer_lag.0 == 0
        &&& !self.stalled
    }

    /// Account `a`'s mirror is wrong. Without lag the mirror is exact; with lag it is something
    /// the chain said, or nothing.
    pub open spec fn misjudged(self, a: int) -> bool {
        let account = AccountIdx(a as u32);
        let mirrored = self.engine.ledger.accounts[a].free;
        &&& a < self.engine.ledger.accounts.len()
        &&& if self.lagless() {
            mirrored != self.custody.ledger.available(account)
        } else {
            mirrored.0 != 0 && !was_published(self.custody.ledger.log, account, mirrored)
        }
    }
}

} // verus!
