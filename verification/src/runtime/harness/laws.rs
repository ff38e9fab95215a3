//! What holds between the two systems.

use crate::account::AccountIdx;
use crate::arrays::array_from_holds;
use crate::chain::bundle::Bundle;
use crate::chain::custody::laws::{
    an_empty_custody_is_outspoken, carries_on, every_change_is_announced, mining_changes_nothing,
    other_words_change_nothing, outspoken, said, said_so_far,
};
use crate::chain::custody::model::{first_leg_fault, leg_fault, owed, party, CustodyView};
use crate::chain::custody::money::{no_party_before, owed_grows, shares_are_nonnegative};
use crate::chain::custody::queue::ChainState;
use crate::chain::escrow::Escrow;
use crate::chain::indexer::{reach_is, translated, IndexerView, Key};
use crate::chain::log::{ChainPayload, EntryView, LogView};
use crate::clock::Clock;
use crate::command::{Command, ExpectedFill, LegSpec};
use crate::config::{quotes_die_before_withdrawals_land, Config, MAX_LEGS};
use crate::contract::{ContractIdx, Outcome};
use crate::engine::closing::{open_claim_is_reserved, standing_claim_is_reserved};
use crate::engine::laws::{
    a_fill_is_the_best_eligible_quote, a_fresh_engine_is_sound,
    every_command_keeps_the_engine_sound, only_a_mirror_update_moves_the_mirror,
    the_timelock_outlasts_every_request,
};
use crate::engine::model::EngineView;
use crate::engine::moves::{accept_keeps, fills_are_found, ready_keeps};
use crate::escrow::EscrowId;
use crate::event::Event;
use crate::request::{Nonce, ReqIdx};
use crate::runtime::harness::model::{escrowed, paid_intents, was_published, HarnessView};
use crate::runtime::settlement::laws::{
    an_accept_commits_what_it_owes, the_bundle_debits_what_is_committed,
};
use crate::runtime::settlement::{bundle_of, converted};
use crate::settlement::TxStatus;
use crate::types::{Amount, LegId, Price, Size, Ts, UNIT};
use vstd::prelude::*;

verus! {

/// **A direct read cannot end a settlement**: a poll hands the engine an answer only where it is
/// not final, and that moves nothing in the engine and nothing in custody.
pub proof fn polling_moves_nothing(h: HarnessView, nonce: Nonce, now: Ts)
    requires
        !h.custody.status(nonce).terminal(),
    ensures
        ({
            let command = Command::PollSettlement { nonce, status: h.custody.status(nonce) };
            &&& h.commanded(command, now).engine == h.engine
            &&& h.commanded(command, now).custody == h.custody
        }),
{
}

// ───────────────────────────── the mirror ─────────────────────────────

/// One of the first `n` entries carries `key`.
pub open spec fn carried(entries: Seq<EntryView>, n: nat, key: Key) -> bool {
    exists|i: int| 0 <= i < n && i < entries.len() && (#[trigger] entries[i]).key() == key
}

/// Everything the indexer counts as delivered is something it has read.
pub open spec fn read_what_it_delivered(indexer: IndexerView, entries: Seq<EntryView>) -> bool {
    forall|k: int|
        0 <= k < indexer.delivered.len() ==> carried(
            entries,
            indexer.cursor,
            #[trigger] indexer.delivered[k],
        )
}

/// The engine's mirror is what the log said of everyone as far as the indexer has read, and what
/// it has read is exactly what it counts as delivered.
pub open spec fn follows(h: HarnessView) -> bool {
    let entries = h.custody.ledger.log.entries;
    &&& h.indexer.cursor <= entries.len()
    &&& h.indexer.seen(entries, h.indexer.cursor)
    &&& read_what_it_delivered(h.indexer, entries)
    &&& forall|a: int|
        0 <= a < h.engine.ledger.accounts.len() && a <= u32::MAX ==> (
        #[trigger] h.engine.ledger.accounts[a]).free == said(
            entries,
            h.indexer.cursor,
            AccountIdx(a as u32),
        )
}

/// The two systems are in step: custody announces everything it does, the engine follows what is
/// announced, and a venue that declares no lag has none.
pub open spec fn in_step(h: HarnessView) -> bool {
    &&& h.engine.wf()
    &&& outspoken(h.custody.ledger)
    &&& h.custody.ledger.accounts.len() == h.engine.ledger.accounts.len()
    &&& h.indexer.confirmations == h.engine.config.confirmations
    &&& follows(h)
    &&& h.lagless() ==> h.indexer.cursor == h.custody.ledger.log.entries.len()
}

/// Fresh entries are delivered one for one, in log order.
proof fn fresh_entries_are_delivered(indexer: IndexerView, entries: Seq<EntryView>, end: nat)
    requires
        indexer.cursor <= end <= entries.len(),
        forall|i: int, j: int|
            0 <= i < j < entries.len() ==> (#[trigger] entries[i]).key() != (
            #[trigger] entries[j]).key(),
        indexer.seen(entries, indexer.cursor),
        read_what_it_delivered(indexer, entries),
    ensures
        ({
            let after = indexer.read(entries, end);
            let commands = indexer.commands(entries, end);
            &&& after.cursor == end
            &&& after.confirmations == indexer.confirmations
            &&& after.seen(entries, end)
            &&& read_what_it_delivered(after, entries)
            &&& commands.len() == end - indexer.cursor
            &&& forall|k: int|
                0 <= k < commands.len() ==> #[trigger] commands[k] == translated(
                    entries[indexer.cursor + k].payload,
                )
        }),
    decreases end - indexer.cursor,
{
    if indexer.cursor < end {
        let next = indexer.stepped(entries);
        let key = entries[indexer.cursor as int].key();
        assert(!indexer.delivered.contains(key)) by {
            if indexer.delivered.contains(key) {
                let k = indexer.delivered.index_of(key);
                assert(carried(entries, indexer.cursor, indexer.delivered[k]));
                let i = choose|i: int|
                    0 <= i < indexer.cursor && i < entries.len() && (
                    #[trigger] entries[i]).key() == key;
                assert(entries[i].key() != entries[indexer.cursor as int].key());
            }
        }
        assert(next.delivered == indexer.delivered.push(key));
        assert(next.delivered.last() == key);
        assert forall|i: int| 0 <= i < next.cursor && i < entries.len() implies
            next.delivered.contains((#[trigger] entries[i]).key()) by {
            if i < indexer.cursor {
                let k = indexer.delivered.index_of(entries[i].key());
                assert(next.delivered[k] == entries[i].key());
            }
        }
        assert forall|k: int| 0 <= k < next.delivered.len() implies carried(
            entries,
            next.cursor,
            #[trigger] next.delivered[k],
        ) by {
            if k < indexer.delivered.len() {
                assert(carried(entries, indexer.cursor, indexer.delivered[k]));
            } else {
                assert(entries[indexer.cursor as int].key() == key);
            }
        }
        fresh_entries_are_delivered(next, entries, end);
        let first = indexer.step(entries);
        let rest = next.commands(entries, end);
        assert(first.len() == 1);
        assert forall|k: int| 0 <= k < (first + rest).len() implies #[trigger] (first + rest)[k]
            == translated(entries[indexer.cursor + k].payload) by {
            if k > 0 {
                assert((first + rest)[k] == rest[k - 1]);
            }
        }
    }
}

/// The engine hears the first `n` of the entries from `from` on.
proof fn telling_mirrors(
    h: HarnessView,
    commands: Seq<Command>,
    nows: Seq<Ts>,
    entries: Seq<EntryView>,
    from: nat,
    n: nat,
)
    requires
        h.engine.wf(),
        n <= commands.len(),
        from + commands.len() <= entries.len(),
        forall|k: int|
            0 <= k < commands.len() ==> #[trigger] commands[k] == translated(
                entries[from + k].payload,
            ),
        forall|a: int|
            0 <= a < h.engine.ledger.accounts.len() && a <= u32::MAX ==> (
            #[trigger] h.engine.ledger.accounts[a]).free == said(
                entries,
                from,
                AccountIdx(a as u32),
            ),
    ensures
        ({
            let after = h.told(commands, nows, n);
            &&& after.engine.wf()
            &&& after.engine.config == h.engine.config
            &&& after.engine.ledger.accounts.len() == h.engine.ledger.accounts.len()
            &&& after.custody == h.custody
            &&& after.indexer == h.indexer
            &&& after.stalled == h.stalled
            &&& after.room == h.room
            &&& forall|a: int|
                0 <= a < h.engine.ledger.accounts.len() && a <= u32::MAX ==> (
                #[trigger] after.engine.ledger.accounts[a]).free == said(
                    entries,
                    from + n,
                    AccountIdx(a as u32),
                )
        }),
    decreases n,
{
    if n > 0 {
        let m = (n - 1) as nat;
        telling_mirrors(h, commands, nows, entries, from, m);
        let before = h.told(commands, nows, m);
        let after = h.told(commands, nows, n);
        let command = commands[m as int];
        let payload = entries[from + m as int].payload;
        assert(command == translated(payload));
        every_command_keeps_the_engine_sound(before.engine, command, nows[m as int], before.room);
        assert forall|a: int| 0 <= a < h.engine.ledger.accounts.len() && a <= u32::MAX implies (
        #[trigger] after.engine.ledger.accounts[a]).free == said(
            entries,
            from + n,
            AccountIdx(a as u32),
        ) by {
            only_a_mirror_update_moves_the_mirror(
                before.engine,
                command,
                nows[m as int],
                before.room,
                a,
            );
            assert(before.engine.ledger.accounts[a].free == said(
                entries,
                from + m,
                AccountIdx(a as u32),
            ));
        }
    }
}

/// **The mirror follows the chain.** Pumping the indexer keeps the mirror at what the log said of
/// everyone as far as it has been read, and a venue that declares no lag has then read all of it.
pub proof fn pumping_keeps_step<C: Clock>(h: HarnessView, clock: C, after: HarnessView)
    requires
        h.engine.wf(),
        outspoken(h.custody.ledger),
        h.custody.ledger.accounts.len() == h.engine.ledger.accounts.len(),
        h.indexer.confirmations == h.engine.config.confirmations,
        follows(h),
        h.pumps_to(clock, after),
    ensures
        in_step(after),
        after.custody == h.custody,
        after.stalled == h.stalled,
{
    let nows = choose|nows: Seq<Ts>|
        {
            &&& nows.len() == h.undelivered().len()
            &&& forall|i: int| 0 <= i < nows.len() ==> clock.may_read(#[trigger] nows[i])
            &&& after == #[trigger] h.pumped(nows)
        };
    let log = h.custody.ledger.log;
    let entries = log.entries;
    let commands = h.undelivered();
    let from = h.indexer.cursor;
    let reading = h.read();
    if !h.stalled {
        match h.indexer.horizon(log.head) {
            Some(horizon) => {
                let end = h.indexer.reach(entries, horizon);
                reach_is(h.indexer, entries, horizon);
                fresh_entries_are_delivered(h.indexer, entries, end);
            },
            None => {},
        }
    }
    telling_mirrors(reading, commands, nows, entries, from, commands.len());
    assert(after.indexer == reading.indexer);
    assert(after.indexer.cursor == from + commands.len());
}

/// **Something said and a pump leave the two systems in step**: whatever custody does that it
/// announces, the engine has caught up with it once the indexer is pumped, or is no further behind
/// than the lag the venue declares.
pub proof fn announced_changes_keep_step<C: Clock>(
    h: HarnessView,
    changed: HarnessView,
    clock: C,
    after: HarnessView,
)
    requires
        in_step(h),
        carries_on(h.custody.ledger, changed.custody.ledger),
        changed.engine == h.engine,
        changed.indexer == h.indexer,
        changed.pumps_to(clock, after),
    ensures
        in_step(after),
        after.custody == changed.custody,
{
    let before = h.custody.ledger.log.entries;
    let entries = changed.custody.ledger.log.entries;
    let cursor = h.indexer.cursor;
    assert forall|i: int| 0 <= i < cursor && i < entries.len() implies
        changed.indexer.delivered.contains((#[trigger] entries[i]).key()) by {
        assert(entries[i] == before[i]);
    }
    assert forall|a: int| 0 <= a < h.engine.ledger.accounts.len() && a <= u32::MAX implies (
    #[trigger] changed.engine.ledger.accounts[a]).free == said(
        entries,
        cursor,
        AccountIdx(a as u32),
    ) by {
        said_so_far(before, entries, cursor, AccountIdx(a as u32));
    }
    assert forall|k: int| 0 <= k < h.indexer.delivered.len() implies carried(
        entries,
        cursor,
        #[trigger] changed.indexer.delivered[k],
    ) by {
        let key = h.indexer.delivered[k];
        assert(carried(before, cursor, key));
        let i = choose|i: int|
            0 <= i < cursor && i < before.len() && (#[trigger] before[i]).key() == key;
        assert(entries[i] == before[i]);
    }
    pumping_keeps_step(changed, clock, after);
}

/// **The mirror agrees with custody** wherever the two systems are in step: without lag it is
/// exactly what everyone has available, and under lag it is a number the chain has published, or
/// nothing. The engine has never invented one.
pub proof fn in_step_the_mirror_agrees(h: HarnessView)
    requires
        in_step(h),
    ensures
        forall|a: int| 0 <= a < h.custody.ledger.accounts.len() ==> !(#[trigger] h.misjudged(a)),
{
    let ledger = h.custody.ledger;
    let entries = ledger.log.entries;
    assert forall|a: int| 0 <= a < ledger.accounts.len() implies !(#[trigger] h.misjudged(a)) by {
        let account = AccountIdx(a as u32);
        let mirrored = h.engine.ledger.accounts[a].free;
        assert(mirrored == said(entries, h.indexer.cursor, account));
        if h.lagless() {
            assert(ledger.available(account) == said(entries, entries.len(), account));
        } else {
            said_is_published(ledger.log, h.indexer.cursor, account);
        }
    }
}

/// What the log says of an account is something it published, or nothing.
proof fn said_is_published(log: LogView, n: nat, account: AccountIdx)
    requires
        n <= log.entries.len(),
    ensures
        said(log.entries, n, account).0 == 0 || was_published(
            log,
            account,
            said(log.entries, n, account),
        ),
    decreases n,
{
    if n > 0 {
        said_is_published(log, (n - 1) as nat, account);
        let payload = log.entries[n - 1].payload;
        match payload {
            ChainPayload::BalanceChanged { account: subject, available } => {
                if subject == account {
                    assert(payload == (ChainPayload::BalanceChanged { account, available }));
                }
            },
            _ => {},
        }
    }
}

/// **A covered engine is backed**: without lag, an engine whose claims are within its mirror has
/// promised nothing custody does not hold.
pub proof fn a_covered_engine_is_backed(h: HarnessView)
    requires
        in_step(h),
        h.lagless(),
        h.engine.ledger.covered(),
    ensures
        forall|a: int| 0 <= a < h.custody.ledger.accounts.len() ==> !(#[trigger] h.uncovered(a)),
{
    in_step_the_mirror_agrees(h);
    let ledger = h.custody.ledger;
    assert forall|a: int| 0 <= a < ledger.accounts.len() implies !(#[trigger] h.uncovered(a)) by {
        let account = AccountIdx(a as u32);
        assert(!h.misjudged(a));
        assert(h.engine.ledger.accounts[a].covered());
        escrowed_is_nonnegative(ledger.escrows, account, ledger.escrows.len());
    }
}

proof fn escrowed_is_nonnegative(escrows: Seq<Escrow>, account: AccountIdx, n: nat)
    ensures
        0 <= escrowed(escrows, account, n),
    decreases n,
{
    if n > 0 {
        escrowed_is_nonnegative(escrows, account, (n - 1) as nat);
    }
}

/// A command that is not a mirror update leaves the two systems in step.
pub proof fn commands_keep_step(h: HarnessView, command: Command, now: Ts)
    requires
        in_step(h),
        command !is CreditAccount,
    ensures
        in_step(h.commanded(command, now)),
{
    let after = h.commanded(command, now);
    every_command_keeps_the_engine_sound(h.engine, command, now, h.room);
    assert forall|a: int| 0 <= a < h.engine.ledger.accounts.len() && a <= u32::MAX implies (
    #[trigger] after.engine.ledger.accounts[a]).free == said(
        h.custody.ledger.log.entries,
        h.indexer.cursor,
        AccountIdx(a as u32),
    ) by {
        assert(h.engine.ledger.accounts[a].free == said(
            h.custody.ledger.log.entries,
            h.indexer.cursor,
            AccountIdx(a as u32),
        ));
    }
}

/// Including one bundle is something custody announces, whatever becomes of it.
proof fn inclusion_is_announced(chain: ChainState, bundle: Bundle, now: Ts)
    requires
        outspoken(chain.ledger),
        chain.ledger.log.minted < u64::MAX,
    ensures
        carries_on(chain.ledger, chain.included(bundle, now).ledger),
        chain.included(bundle, now).ledger.log.minted <= chain.ledger.log.minted + 1,
{
    if !chain.status(bundle.nonce).terminal() {
        if chain.reverts(bundle, now) is None {
            every_change_is_announced(
                chain.ledger,
                AccountIdx(0),
                Amount(0),
                now,
                bundle,
                EscrowId(0),
                ContractIdx(0),
                Outcome::Void,
            );
        } else {
            other_words_change_nothing(
                chain.ledger,
                ChainPayload::SettlementResolved {
                    nonce: bundle.nonce,
                    status: TxStatus::Reverted,
                },
            );
        }
    }
}

/// Including the first `n` of what is queued.
pub proof fn inclusions_are_announced(chain: ChainState, nows: Seq<Ts>, n: nat)
    requires
        outspoken(chain.ledger),
        chain.ledger.log.minted + n < u64::MAX,
    ensures
        carries_on(chain.ledger, chain.drained(nows, n).ledger),
        chain.drained(nows, n).ledger.log.minted <= chain.ledger.log.minted + n,
    decreases n,
{
    if n > 0 {
        let m = (n - 1) as nat;
        inclusions_are_announced(chain, nows, m);
        let before = chain.drained(nows, m);
        let popped = ChainState { queue: before.queue.drop_first(), ..before };
        inclusion_is_announced(popped, before.queue[0], nows[m as int]);
        let (a, b, c) = (
            chain.ledger.log.entries,
            before.ledger.log.entries,
            chain.drained(nows, n).ledger.log.entries,
        );
        assert forall|i: int| 0 <= i < a.len() implies #[trigger] c[i] == a[i] by {
            assert(b[i] == a[i]);
            assert(c[i] == b[i]);
        }
    }
}

/// Paying the first `n` of `intents` out.
pub proof fn payouts_are_announced(custody: CustodyView, intents: Seq<Event>, n: nat)
    requires
        outspoken(custody),
        custody.log.minted + n < u64::MAX,
    ensures
        carries_on(custody, paid_intents(custody, intents, n)),
        paid_intents(custody, intents, n).log.minted <= custody.log.minted + n,
    decreases n,
{
    if n > 0 {
        let m = (n - 1) as nat;
        payouts_are_announced(custody, intents, m);
        let before = paid_intents(custody, intents, m);
        let after = paid_intents(custody, intents, n);
        match intents[m as int] {
            Event::SettleIntent { escrow, contract, outcome } => {
                every_change_is_announced(
                    before,
                    AccountIdx(0),
                    Amount(0),
                    Ts(0),
                    arbitrary(),
                    escrow,
                    contract,
                    outcome,
                );
            },
            _ => {},
        }
        let (a, b, c) = (custody.log.entries, before.log.entries, after.log.entries);
        assert forall|i: int| 0 <= i < a.len() implies #[trigger] c[i] == a[i] by {
            assert(b[i] == a[i]);
            if after != before {
                assert(c[i] == b[i]);
            }
        }
    }
}

/// **Nothing the harness does takes the two systems out of step**: not a deposit, a withdrawal
/// requested or executed, a fact logged, a block mined, a round of inclusions or of payouts, nor
/// stalling and resuming the indexer. (While transaction identities last.)
pub proof fn every_operation_keeps_step<C: Clock>(
    h: HarnessView,
    clock: C,
    after: HarnessView,
    account: AccountIdx,
    amount: Amount,
    now: Ts,
    payload: ChainPayload,
    nows: Seq<Ts>,
    escrows: Seq<EscrowId>,
)
    requires
        in_step(h),
        h.custody.ledger.log.minted + h.custody.queue.len() + h.payouts.len() + 1 < u64::MAX,
    ensures
        ({
            let ledger = h.custody.ledger;
            let queued = h.custody.queue.len();
            let mined = CustodyView { log: ledger.log.mined(), ..ledger };
            let paid = paid_intents(ledger, h.payouts, h.payouts.len());
            &&& ledger.deposit_refused(account, amount) is None && h.with_ledger(
                ledger.after_deposit(account, amount),
            ).pumps_to(clock, after) ==> in_step(after)
            &&& ledger.withdrawal_refused(account, amount, now) is None && h.with_ledger(
                ledger.withdrawal_requested(account, amount, now),
            ).pumps_to(clock, after) ==> in_step(after)
            &&& ledger.execution_refused(account, now) is None && h.with_ledger(
                ledger.withdrawal_executed(account),
            ).pumps_to(clock, after) ==> in_step(after)
            &&& payload !is BalanceChanged && h.logged(payload).pumps_to(clock, after) ==> in_step(
                after,
            )
            &&& h.with_ledger(mined).pumps_to(clock, after) ==> in_step(after)
            &&& (HarnessView {
                custody: h.custody.drained(nows, queued),
                escrows,
                ..h
            }).pumps_to(clock, after) ==> in_step(after)
            &&& (HarnessView { payouts: Seq::empty(), ..h }).with_ledger(paid).pumps_to(
                clock,
                after,
            ) ==> in_step(after)
            &&& h.pumps_to(clock, after) ==> in_step(after)
            &&& in_step(HarnessView { stalled: true, ..h })
            &&& (HarnessView { stalled: false, ..h }).pumps_to(clock, after) ==> in_step(after)
        }),
{
    let ledger = h.custody.ledger;
    let queued = h.custody.queue.len();
    every_change_is_announced(
        ledger,
        account,
        amount,
        now,
        arbitrary(),
        EscrowId(0),
        ContractIdx(0),
        Outcome::Void,
    );
    mining_changes_nothing(ledger);
    if payload !is BalanceChanged {
        other_words_change_nothing(ledger, payload);
    }
    inclusions_are_announced(h.custody, nows, queued);
    payouts_are_announced(ledger, h.payouts, h.payouts.len());
    let deposited = h.with_ledger(ledger.after_deposit(account, amount));
    let requested = h.with_ledger(ledger.withdrawal_requested(account, amount, now));
    let executed = h.with_ledger(ledger.withdrawal_executed(account));
    let mined = h.with_ledger(CustodyView { log: ledger.log.mined(), ..ledger });
    let drained = HarnessView { custody: h.custody.drained(nows, queued), escrows, ..h };
    let paid = (HarnessView { payouts: Seq::empty(), ..h }).with_ledger(
        paid_intents(ledger, h.payouts, h.payouts.len()),
    );
    let resumed = HarnessView { stalled: false, ..h };
    if ledger.deposit_refused(account, amount) is None && deposited.pumps_to(clock, after) {
        announced_changes_keep_step(h, deposited, clock, after);
    }
    if ledger.withdrawal_refused(account, amount, now) is None && requested.pumps_to(
        clock,
        after,
    ) {
        announced_changes_keep_step(h, requested, clock, after);
    }
    if ledger.execution_refused(account, now) is None && executed.pumps_to(clock, after) {
        announced_changes_keep_step(h, executed, clock, after);
    }
    if payload !is BalanceChanged && h.logged(payload).pumps_to(clock, after) {
        announced_changes_keep_step(h, h.logged(payload), clock, after);
    }
    if mined.pumps_to(clock, after) {
        announced_changes_keep_step(h, mined, clock, after);
    }
    if drained.pumps_to(clock, after) {
        announced_changes_keep_step(h, drained, clock, after);
    }
    if paid.pumps_to(clock, after) {
        announced_changes_keep_step(h, paid, clock, after);
    }
    if h.pumps_to(clock, after) {
        pumping_keeps_step(h, clock, after);
    }
    if resumed.pumps_to(clock, after) {
        assert(follows(resumed));
        pumping_keeps_step(resumed, clock, after);
    }
}

/// A fresh harness is in step.
pub proof fn a_fresh_harness_is_in_step(config: Config, h: HarnessView)
    requires
        config.refusal() is None,
        h.engine == EngineView::fresh(config),
        h.custody.ledger == CustodyView::empty(
            config.max_accounts,
            config.max_escrows,
            config.withdrawal_delay,
        ),
        h.indexer == (IndexerView {
            cursor: 0,
            confirmations: config.confirmations as u64,
            delivered: Seq::empty(),
        }),
    ensures
        in_step(h),
{
    a_fresh_engine_is_sound(config);
    an_empty_custody_is_outspoken(
        config.max_accounts,
        config.max_escrows,
        config.withdrawal_delay,
    );
}

// ───────────────────────────── settlement ─────────────────────────────

/// No leg at fault, none among the first.
proof fn no_leg_at_fault(bundle: Bundle, now: Ts, n: nat)
    requires
        forall|k: nat| k < n ==> (#[trigger] leg_fault(bundle, now, k)) is None,
    ensures
        first_leg_fault(bundle, now, n) is None,
    decreases n,
{
    if n > 0 {
        no_leg_at_fault(bundle, now, (n - 1) as nat);
        assert(leg_fault(bundle, now, (n - 1) as nat) is None);
    }
}

/// **An accept that is included at once settles**: without lag, the bundle of an accept in a
/// covered engine finds in custody everything every party to it owes. (Where its nonce is unspent
/// and there is room for its escrows.)
pub proof fn an_accept_included_at_once_settles(
    h: HarnessView,
    request: ReqIdx,
    expected: [ExpectedFill; MAX_LEGS],
    n_legs: u8,
    now: Ts,
)
    requires
        in_step(h),
        h.lagless(),
        h.engine.ledger.covered(),
        h.engine.outcome(Command::AcceptRequest { request, expected, n_legs }, now, h.room) is Ok,
        !h.custody.ledger.nonces.contains(Nonce::naming(request)),
        h.custody.ledger.escrows.len() + n_legs <= h.custody.ledger.max_escrows,
    ensures
        ({
            let command = Command::AcceptRequest { request, expected, n_legs };
            let emitted = h.engine.emitted(command, now, h.room);
            let bundle = bundle_of(emitted.last());
            &&& emitted.len() > 0
            &&& bundle is Some
            &&& bundle->0.nonce == Nonce::naming(request)
            &&& h.custody.ledger.reverts(bundle->0, now) is None
        }),
{
    let command = Command::AcceptRequest { request, expected, n_legs };
    let ready = h.engine.ready_for(command, now);
    let v = ready.ledger;
    let custody = h.custody.ledger;
    let bundle = bundle_of(v.intent(request, now))->0;
    let n = n_legs as nat;
    ready_keeps(h.engine, command, now);
    in_step_the_mirror_agrees(h);
    the_bundle_debits_what_is_committed(ready, request, expected, n_legs, now, h.room);
    accept_keeps(ready, request, expected, n_legs, now, h.room);
    assert(v.request_ok(request.index()));
    let after = ready.accepted(request, now);
    assert(h.engine.emitted(command, now, h.room).last() == v.intent(request, now));
    assert forall|account: AccountIdx| #[trigger] custody.knows(account) implies owed(
        bundle,
        account.0 as int,
        n,
    ) <= custody.balance(account).0 by {
        let a = account.0 as int;
        an_accept_commits_what_it_owes(ready, request, expected, n_legs, now, h.room, a);
        assert(!h.misjudged(a));
        assert(after.accounts[a].free == v.accounts[a].free);
        assert(v.accounts[a].free == h.engine.ledger.accounts[a].free);
        assert(after.accounts[a].covered());
    }
    assert forall|l: int| 0 <= l < n implies {
        let leg = #[trigger] bundle.legs@[l];
        &&& now.0 < leg.quote_expiry.0
        &&& leg.fill_price.0 <= UNIT
        &&& 0 <= leg.maker_share() <= u64::MAX
        &&& 0 <= leg.requester_share()
        &&& custody.knows(leg.maker)
    } by {
        a_leg_is_sound(ready, request, expected, n_legs, now, h.room, l);
        shares_are_nonnegative(bundle, l);
    }
    assert(custody.knows(bundle.requester)) by {
        open_claim_is_reserved(v, request);
        let claim = v.requests.of(request).claim->0;
        assert(v.claim_ok(claim.index()));
        assert(v.placed(claim.index()));
    }
    assert forall|k: nat| k < n implies (#[trigger] leg_fault(bundle, now, k)) is None by {
        let leg = bundle.legs@[k as int];
        owed_grows(bundle, leg.maker.0 as int, k + 1, n);
        owed_grows(bundle, bundle.requester.0 as int, k, n);
        owed_grows(bundle, bundle.requester.0 as int, k + 1, n);
        assert(custody.knows(leg.maker));
        assert(custody.knows(bundle.requester));
    }
    no_leg_at_fault(bundle, now, n);
    assert forall|q: nat| q < 2 * n implies custody.party_fault(
        bundle,
        #[trigger] party(bundle, q as int),
    ) is None by {
        let l = q as int / 2;
        assert(0 <= l < n);
        assert(custody.knows(bundle.legs@[l].maker));
        assert(custody.knows(party(bundle, q as int)));
    }
    no_party_before(custody, bundle, 2 * n);
}

/// A leg of an accept's bundle is live, priced within what a contract pays, and its maker is known.
proof fn a_leg_is_sound(
    engine: EngineView,
    request: ReqIdx,
    expected: [ExpectedFill; MAX_LEGS],
    n_legs: u8,
    now: Ts,
    room: nat,
    l: int,
)
    requires
        engine.wf(),
        engine.accept_refused(request, expected, n_legs, now, room) is None,
        0 <= l < n_legs,
    ensures
        ({
            let leg = bundle_of(engine.ledger.intent(request, now))->0.legs@[l];
            &&& now.0 < leg.quote_expiry.0
            &&& leg.fill_price.0 <= UNIT
            &&& leg.maker_share() <= u64::MAX
            &&& leg.maker.0 < engine.ledger.accounts.len()
        }),
{
    broadcast use array_from_holds;

    let v = engine.ledger;
    assert(v.request_ok(request.index()));
    fills_are_found(engine, request, expected, now, n_legs as nat);
    assert(v.fill(request, l, now) is Ok);
    a_fill_is_the_best_eligible_quote(v, request, l, now);
    the_bundle_debits_what_is_committed(engine, request, expected, n_legs, now, room);
    let winner = v.winner(request, l, now);
    standing_claim_is_reserved(v, winner);
    let claim = v.quotes.of(winner).claim->0;
    assert(v.claim_ok(claim.index()));
    assert(v.placed(claim.index()));
    let leg = bundle_of(v.intent(request, now))->0.legs@[l];
    assert(leg == converted(v.intent_leg(request, l, now)));
}

// ───────────────────────────── withdrawals ─────────────────────────────

/// **No withdrawal lands on a live quote**: at whatever instant custody grants a withdrawal that
/// was requested no earlier than a quote was admitted, that quote is dead.
pub proof fn no_withdrawal_lands_on_a_live_quote(
    h: HarnessView,
    maker: AccountIdx,
    request: ReqIdx,
    leg: LegId,
    price: Price,
    size: Size,
    expires_at: Ts,
    now: Ts,
    amount: Amount,
    requested_at: Ts,
    lands_at: Ts,
)
    requires
        h.engine.wf(),
        h.custody.ledger.delay == h.engine.config.withdrawal_delay,
        h.engine.quote_refused(
            maker,
            request,
            leg,
            price,
            size,
            expires_at,
            now,
            h.room,
        ) is None,
        now.0 <= requested_at.0,
        h.custody.ledger.withdrawal_refused(maker, amount, requested_at) is None,
        h.custody.ledger.withdrawal_requested(maker, amount, requested_at).execution_refused(
            maker,
            lands_at,
        ) is None,
    ensures
        expires_at.0 < lands_at.0,
{
    quotes_die_before_withdrawals_land(h.engine.config, now.0 as int, requested_at.0 as int);
}

/// **No withdrawal lands on a live request**, where the delay is longer than a requester's whole
/// claim window: at whatever instant custody grants a withdrawal that was requested no earlier than
/// a request was admitted, that request's deadline has passed, and so has the settling time of any
/// accept before it.
pub proof fn no_withdrawal_lands_on_a_live_request(
    h: HarnessView,
    requester: AccountIdx,
    deadline: Ts,
    legs: [LegSpec; MAX_LEGS],
    n_legs: u8,
    now: Ts,
    accepted_at: Ts,
    amount: Amount,
    requested_at: Ts,
    lands_at: Ts,
)
    requires
        h.engine.wf(),
        h.custody.ledger.delay == h.engine.config.withdrawal_delay,
        h.engine.config.withdrawal_delay.0 > h.engine.config.max_request_ttl.0
            + h.engine.config.max_settling_time.0,
        h.engine.request_refused(requester, deadline, legs, n_legs, now, h.room) is None,
        accepted_at.0 < deadline.0,
        now.0 <= requested_at.0,
        h.custody.ledger.withdrawal_refused(requester, amount, requested_at) is None,
        h.custody.ledger.withdrawal_requested(requester, amount, requested_at).execution_refused(
            requester,
            lands_at,
        ) is None,
    ensures
        deadline.0 < lands_at.0,
        accepted_at.plus(h.engine.config.max_settling_time).0 < lands_at.0,
{
    the_timelock_outlasts_every_request(
        h.engine,
        requester,
        deadline,
        legs,
        n_legs,
        now,
        h.room,
        accepted_at,
        requested_at,
    );
}

} // verus!
