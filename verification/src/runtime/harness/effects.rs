//! What the wires between the two systems carry, item by item.

use crate::account::AccountIdx;
use crate::chain::custody::effects::{
    a_void_refunds_each_side_its_own, pays_out, the_side_that_happened_is_paid,
};
use crate::chain::custody::model::CustodyView;
use crate::chain::custody::money::payout_wf;
use crate::chain::custody::{CustodyError, IncludedTx};
use crate::chain::escrow::{Escrow, EscrowState};
use crate::chain::log::ChainPayload;
use crate::command::Command;
use crate::config::MAX_LEGS;
use crate::event::Event;
use crate::request::{Nonce, ReqIdx, RequestState};
use crate::runtime::harness::formed_by;
use crate::runtime::harness::model::{
    bundles_in, escrowed, paid_intents, payout_answers, payouts_in, HarnessView,
};
use crate::runtime::settlement::bundle_of;
use crate::types::Ts;
use vstd::prelude::*;

verus! {

/// `from` names places below `n`, each later than the one before.
pub open spec fn in_turn(from: Seq<int>, n: nat) -> bool {
    &&& forall|j: int| 0 <= j < from.len() ==> 0 <= #[trigger] from[j] < n
    &&& forall|i: int, j: int| 0 <= i < j < from.len() ==> #[trigger] from[i] < #[trigger] from[j]
}

/// **Every intent to settle becomes one bundle, in the order they were emitted, and nothing else
/// does**: `from` says of each bundle which event it comes from.
pub proof fn every_intent_becomes_one_bundle(events: Seq<Event>, n: nat) -> (from: Seq<int>)
    requires
        n <= events.len(),
    ensures
        from.len() == bundles_in(events, n).len(),
        in_turn(from, n),
        forall|j: int|
            0 <= j < from.len() ==> events[#[trigger] from[j]] is SubmitIntent && bundle_of(
                events[from[j]],
            ) == Some(bundles_in(events, n)[j]),
        forall|k: int| 0 <= k < n && (#[trigger] events[k]) is SubmitIntent ==> from.contains(k),
    decreases n,
{
    if n == 0 {
        Seq::empty()
    } else {
        let m = (n - 1) as nat;
        let before = every_intent_becomes_one_bundle(events, m);
        if events[m as int] is SubmitIntent {
            let from = before.push(m as int);
            assert forall|k: int| 0 <= k < n && (#[trigger] events[k]) is SubmitIntent implies
                from.contains(k) by {
                if k < m {
                    assert(before.contains(k));
                    assert(from[before.index_of(k)] == k);
                } else {
                    assert(from[before.len() as int] == k);
                }
            }
            from
        } else {
            before
        }
    }
}

/// **Every payout intent is picked up once, in the order they were emitted, and nothing else is.**
pub proof fn every_payout_intent_is_picked_up(events: Seq<Event>, n: nat) -> (from: Seq<int>)
    requires
        n <= events.len(),
    ensures
        from.len() == payouts_in(events, n).len(),
        in_turn(from, n),
        forall|j: int|
            0 <= j < from.len() ==> events[#[trigger] from[j]] is SettleIntent
                && events[from[j]] == payouts_in(events, n)[j],
        forall|k: int| 0 <= k < n && (#[trigger] events[k]) is SettleIntent ==> from.contains(k),
    decreases n,
{
    if n == 0 {
        Seq::empty()
    } else {
        let m = (n - 1) as nat;
        let before = every_payout_intent_is_picked_up(events, m);
        if events[m as int] is SettleIntent {
            let from = before.push(m as int);
            assert forall|k: int| 0 <= k < n && (#[trigger] events[k]) is SettleIntent implies
                from.contains(k) by {
                if k < m {
                    assert(before.contains(k));
                    assert(from[before.index_of(k)] == k);
                } else {
                    assert(from[before.len() as int] == k);
                }
            }
            from
        } else {
            before
        }
    }
}

/// **A command reaches the engine alone, and what it emits its adapters**: custody, the oracle and
/// the indexer do not move, and what the adapters had picked up before they keep.
pub proof fn a_command_is_heard_by_the_adapters(h: HarnessView, command: Command, now: Ts)
    ensures
        ({
            let after = h.commanded(command, now);
            let events = h.engine.emitted(command, now, h.room);
            &&& after.engine == h.engine.after(command, now, h.room)
            &&& after.room == h.room
            &&& after.custody == h.custody
            &&& after.oracle == h.oracle
            &&& after.indexer == h.indexer
            &&& after.stalled == h.stalled
            &&& after.in_flight == h.in_flight
            &&& after.escrows == h.escrows
            &&& after.emitted == h.emitted + events
            &&& after.pending == h.pending + bundles_in(events, events.len())
            &&& after.payouts == h.payouts + payouts_in(events, events.len())
        }),
{
}

/// **Sending hands custody every bundle picked up, in order, and keeps them as sent**; nothing is left
/// to send, and nothing else moves.
pub proof fn sending_hands_over_every_bundle(h: HarnessView)
    ensures
        ({
            let after = h.sent();
            let (q, f) = (h.custody.queue.len() as int, h.in_flight.len() as int);
            &&& after.pending.len() == 0
            &&& after.custody.queue.len() == q + h.pending.len()
            &&& after.in_flight.len() == f + h.pending.len()
            &&& forall|k: int|
                0 <= k < q ==> #[trigger] after.custody.queue[k] == h.custody.queue[k]
            &&& forall|k: int| 0 <= k < f ==> #[trigger] after.in_flight[k] == h.in_flight[k]
            &&& forall|k: int|
                0 <= k < h.pending.len() ==> {
                    &&& after.custody.queue[q + k] == #[trigger] h.pending[k]
                    &&& after.in_flight[f + k] == h.pending[k]
                }
            &&& after.custody.ledger == h.custody.ledger
            &&& after.custody.reverted == h.custody.reverted
            &&& after.engine == h.engine
            &&& after.oracle == h.oracle
            &&& after.indexer == h.indexer
            &&& after.escrows == h.escrows
            &&& after.payouts == h.payouts
            &&& after.emitted == h.emitted
        }),
{
}

/// **A fact of the oracle's or of an escrow is written to the log, at its head, and nothing else
/// moves.**
pub proof fn a_fact_is_written_at_the_head(h: HarnessView, payload: ChainPayload)
    ensures
        ({
            let after = h.logged(payload);
            let (was, is) = (h.custody.ledger.log, after.custody.ledger.log);
            let n = was.entries.len() as int;
            &&& is.head == was.head
            &&& is.entries.len() == n + 1
            &&& forall|k: int| 0 <= k < n ==> #[trigger] is.entries[k] == was.entries[k]
            &&& is.entries[n].payload == payload
            &&& is.entries[n].block == was.head
            &&& after.custody.ledger.accounts == h.custody.ledger.accounts
            &&& after.custody.ledger.escrows == h.custody.ledger.escrows
            &&& after.custody.ledger.nonces == h.custody.ledger.nonces
            &&& after.custody.ledger.deposited == h.custody.ledger.deposited
            &&& after.custody.ledger.withdrawn == h.custody.ledger.withdrawn
            &&& after.custody.queue == h.custody.queue
            &&& after.custody.reverted == h.custody.reverted
            &&& after.engine == h.engine
            &&& after.indexer == h.indexer
            &&& after.pending == h.pending
            &&& after.payouts == h.payouts
        }),
{
}

/// **Payout intents are paid in turn, each once**: a locked escrow of the contract named pays the side
/// that happened, and is answered `Ok(true)`; a settled one pays nothing, and is answered
/// `Ok(false)`; one that is not there, or of another contract, is refused.
pub proof fn payout_intents_are_paid_in_turn(custody: CustodyView, intents: Seq<Event>, n: nat)
    requires
        custody.wf(),
        n < intents.len(),
    ensures
        ({
            let before = paid_intents(custody, intents, n);
            let after = paid_intents(custody, intents, n + 1);
            let answers = payout_answers(custody, intents, n);
            let answered = payout_answers(custody, intents, n + 1);
            &&& before.wf()
            &&& match intents[n as int] {
                Event::SettleIntent { escrow, contract, outcome } => {
                    let held = before.escrows[escrow.0 as int];
                    let there = escrow.0 < before.escrows.len() && held.contract == contract;
                    &&& answered.len() == answers.len() + 1
                    &&& forall|k: int|
                        0 <= k < answers.len() ==> #[trigger] answered[k] == answers[k]
                    &&& there && held.state == EscrowState::Locked ==> {
                        &&& answered.last() == Ok::<bool, CustodyError>(true)
                        &&& pays_out(before, after, escrow, outcome)
                    }
                    &&& there && held.state == EscrowState::Settled ==> {
                        &&& answered.last() == Ok::<bool, CustodyError>(false)
                        &&& after == before
                    }
                    &&& !there ==> answered.last() is Err && after == before
                },
                _ => after == before && answered == answers,
            }
        }),
    decreases n,
{
    if n > 0 {
        payout_intents_are_paid_in_turn(custody, intents, (n - 1) as nat);
        let m = n - 1;
        let earlier = paid_intents(custody, intents, m as nat);
        match intents[m] {
            Event::SettleIntent { escrow, contract, outcome } => {
                if earlier.payout_refused(escrow, contract) is None
                    && earlier.escrows[escrow.0 as int].state is Locked {
                    payout_wf(earlier, escrow, contract, outcome);
                }
            },
            _ => {},
        }
    }
    let before = paid_intents(custody, intents, n);
    match intents[n as int] {
        Event::SettleIntent { escrow, contract, outcome } => {
            let held = before.escrows[escrow.0 as int];
            if escrow.0 < before.escrows.len() && held.contract == contract && held.state
                == EscrowState::Locked {
                the_side_that_happened_is_paid(before, escrow, contract, outcome);
                a_void_refunds_each_side_its_own(before, escrow, contract);
            }
        },
        _ => {},
    }
}

/// What the locked ones among `escrows` hold of `account`'s, whichever side it is on.
pub open spec fn locked_up(escrows: Seq<Escrow>, account: AccountIdx) -> int
    decreases escrows.len(),
{
    if escrows.len() == 0 {
        0
    } else {
        let last = escrows.last();
        let bought = if last.requester == account {
            last.requester_contribution.0 as int
        } else {
            0
        };
        let sold = if last.maker == account {
            last.maker_contribution.0 as int
        } else {
            0
        };
        locked_up(escrows.drop_last(), account) + if last.state == EscrowState::Locked {
            bought + sold
        } else {
            0
        }
    }
}

proof fn escrowed_is_locked_up(escrows: Seq<Escrow>, account: AccountIdx, n: nat)
    requires
        n <= escrows.len(),
    ensures
        escrowed(escrows, account, n) == locked_up(escrows.take(n as int), account),
    decreases n,
{
    if n > 0 {
        escrowed_is_locked_up(escrows, account, (n - 1) as nat);
        assert(escrows.take(n as int).drop_last() =~= escrows.take(n - 1));
        assert(escrows.take(n as int).last() == escrows[n - 1]);
    }
}

/// **When claims are not covered, and when a mirror is wrong.** Claims on an account are not covered
/// where they come to more than custody holds for it, in its balance and in locked escrows. A mirror
/// without lag is wrong where it is not what custody has available; one with lag, where it is
/// neither nothing nor something the chain said of that account.
pub proof fn what_is_checked_across_the_two_systems(h: HarnessView, a: int)
    requires
        0 <= a < h.engine.ledger.accounts.len(),
        a < h.custody.ledger.accounts.len() <= u32::MAX,
    ensures
        ({
            let account = AccountIdx(a as u32);
            let claims = h.engine.ledger.accounts[a];
            let ledger = h.custody.ledger;
            let entry = ledger.accounts[a];
            let available: int = if entry.pending.0 <= entry.balance.0 {
                entry.balance.0 - entry.pending.0
            } else {
                0
            };
            let lags = h.stalled || h.engine.config.confirmations > 0
                || h.engine.config.max_indexer_lag.0 > 0;
            let published = exists|i: int|
                0 <= i < ledger.log.entries.len() && (#[trigger] ledger.log.entries[i]).payload == (
                ChainPayload::BalanceChanged { account, available: claims.free });
            &&& h.uncovered(a) <==> claims.reserved.0 + claims.committed.0 > entry.balance.0
                + locked_up(ledger.escrows, account)
            &&& !lags ==> (h.misjudged(a) <==> claims.free.0 != available)
            &&& lags ==> (h.misjudged(a) <==> claims.free.0 != 0 && !published)
        }),
{
    let escrows = h.custody.ledger.escrows;
    escrowed_is_locked_up(escrows, AccountIdx(a as u32), escrows.len());
    assert(escrows.take(escrows.len() as int) =~= escrows);
}

/// **What the indexer has to deliver is applied in order, each command at its own instant**; and while
/// it is stalled nothing is delivered and nothing moves.
pub proof fn deliveries_are_applied_in_order(h: HarnessView, nows: Seq<Ts>)
    requires
        nows.len() == h.undelivered().len(),
    ensures
        h.stalled ==> h.undelivered().len() == 0 && h.pumped(nows) == h,
        !h.stalled ==> h.undelivered() == h.indexer.delivery(h.custody.ledger.log),
        h.undelivered().len() == 1 ==> {
            let read = h.read();
            &&& h.pumped(nows) == read.commanded(h.undelivered()[0], nows[0])
            &&& read.indexer == h.indexer.drained(h.custody.ledger.log)
            &&& read.engine == h.engine
            &&& read.custody == h.custody
            &&& read.pending == h.pending
            &&& read.payouts == h.payouts
        },
        h.undelivered().len() == 2 ==> h.pumped(nows) == h.read().commanded(
            h.undelivered()[0],
            nows[0],
        ).commanded(h.undelivered()[1], nows[1]),
        forall|n: nat|
            n < nows.len() ==> #[trigger] h.read().told(h.undelivered(), nows, n + 1)
                == h.read().told(h.undelivered(), nows, n).commanded(
                h.undelivered()[n as int],
                nows[n as int],
            ),
{
    reveal_with_fuel(HarnessView::told, 3);
    if h.stalled {
        assert(h.read() == h);
    }
}

/// **Every escrow that an inclusion formed is recorded, in the order they formed**: those its receipt
/// names, and none of a submission that reverted.
pub proof fn formed_escrows_are_recorded(txs: Seq<IncludedTx>, n: nat)
    requires
        n < txs.len(),
    ensures
        ({
            let (before, after) = (formed_by(txs, n), formed_by(txs, n + 1));
            &&& formed_by(txs, 0).len() == 0
            &&& forall|k: int| 0 <= k < before.len() ==> #[trigger] after[k] == before[k]
            &&& match txs[n as int].outcome {
                Ok(receipt) => receipt.n_escrows <= MAX_LEGS ==> {
                    &&& after.len() == before.len() + receipt.n_escrows
                    &&& forall|k: int|
                        0 <= k < receipt.n_escrows ==> after[before.len() + k]
                            == #[trigger] receipt.escrows@[k]
                },
                Err(_) => after == before,
            }
        }),
{
}

/// **A request is sent again as it was sent first**: the earliest bundle sent under its nonce.
pub proof fn what_is_sent_again_was_sent_first(h: HarnessView, request: ReqIdx, k: int)
    ensures
        h.first_sent(request, k) <==> {
            &&& 0 <= k < h.in_flight.len()
            &&& h.in_flight[k].nonce.request == request.index()
            &&& h.in_flight[k].nonce.generation == request.generation()
            &&& forall|j: int|
                0 <= j < k ==> {
                    ||| (#[trigger] h.in_flight[j]).nonce.request != request.index()
                    ||| h.in_flight[j].nonce.generation != request.generation()
                }
        },
        match h.settling_nonce(request) {
            Some(nonce) => h.engine.ledger.requests.names(request) && match h.engine.ledger.requests.of(
                request,
            ).state {
                RequestState::Settling { nonce: own, .. } => own == nonce,
                _ => false,
            },
            None => !h.engine.ledger.requests.names(request) || h.engine.ledger.requests.of(
                request,
            ).state !is Settling,
        },
{
    if 0 <= k < h.in_flight.len() {
        assert forall|j: int| 0 <= j < k implies ((#[trigger] h.in_flight[j]).nonce
            != Nonce::naming(request) <==> (h.in_flight[j].nonce.request != request.index()
            || h.in_flight[j].nonce.generation != request.generation())) by {}
    }
}

} // verus!
