//! The indexer.
//!
//! A separate component translating log entries into engine commands. Three properties, and each
//! exists for a failure the others do not cover:
//!
//! - **cursor**: a resumable position, so a restart does not begin from block zero;
//! - **confirmation depth**: entries are delivered only once `block + confirmations <= head`.
//!   This *avoids* reorgs rather than recovering from them: an entry that vanishes before it is
//!   deep enough was never delivered, so there is nothing to undo;
//! - **dedup** on transaction and position: restart replays are harmless. A cursor can be lost or
//!   rewound, and then the same entries arrive again; dedup is what makes that a no-op.
//!
//! It holds no engine state and cannot write any. Like the gateway, it *produces commands*.

use crate::account::AccountIdx;
use crate::chain::log::{below, ChainEvent, ChainLog, ChainPayload, EntryView, LogView, TxHash};
use crate::command::Command;
use crate::contract::{ContractIdx, OracleStatus, Outcome};
use crate::escrow::EscrowId;
use crate::request::Nonce;
use crate::settlement::TxStatus;
use crate::types::Amount;
use vstd::prelude::*;

verus! {

/// What an entry is deduplicated by.
pub type Key = (Seq<u8>, u32);

/// What an indexer holds.
#[verifier::ext_equal]
pub struct IndexerView {
    /// How far through the log it has read.
    pub cursor: nat,
    /// How many blocks it waits before believing anything.
    pub confirmations: u64,
    /// The keys delivered so far, in order.
    pub delivered: Seq<Key>,
}

/// One log entry, as an engine command.
pub open spec fn translated(payload: ChainPayload) -> Command {
    match payload {
        ChainPayload::BalanceChanged { account, available } => Command::CreditAccount {
            account,
            free: available,
        },
        ChainPayload::OracleStatusReported { contract, status } => Command::ReportOracleStatus {
            contract,
            status,
        },
        ChainPayload::SettlementResolved { nonce, status } => Command::PollSettlement {
            nonce,
            status,
        },
        ChainPayload::EscrowSettled { escrow, contract, .. } => Command::SettleEscrow {
            escrow,
            contract,
        },
    }
}

impl IndexerView {
    /// The highest block the indexer acts on, given the log's head.
    pub open spec fn horizon(self, head: u64) -> Option<u64> {
        if head >= self.confirmations {
            Some((head - self.confirmations) as u64)
        } else {
            None
        }
    }

    /// Where a read of `entries` from the cursor stops: at the first entry above `horizon`.
    pub open spec fn reach(self, entries: Seq<EntryView>, horizon: u64) -> nat
        decreases entries.len() - self.cursor,
    {
        if self.cursor < entries.len() && entries[self.cursor as int].block <= horizon {
            IndexerView { cursor: self.cursor + 1, ..self }.reach(entries, horizon)
        } else {
            self.cursor
        }
    }

    /// After the entry at the cursor is read.
    pub open spec fn stepped(self, entries: Seq<EntryView>) -> Self {
        let key = entries[self.cursor as int].key();
        IndexerView {
            cursor: self.cursor + 1,
            delivered: if self.delivered.contains(key) {
                self.delivered
            } else {
                self.delivered.push(key)
            },
            ..self
        }
    }

    /// What reading the entry at the cursor delivers: its command, unless it was seen before.
    pub open spec fn step(self, entries: Seq<EntryView>) -> Seq<Command> {
        let entry = entries[self.cursor as int];
        if self.delivered.contains(entry.key()) {
            Seq::empty()
        } else {
            seq![translated(entry.payload)]
        }
    }

    /// After the entries up to position `end` are read.
    pub open spec fn read(self, entries: Seq<EntryView>, end: nat) -> Self
        decreases end - self.cursor,
    {
        if self.cursor < end {
            self.stepped(entries).read(entries, end)
        } else {
            self
        }
    }

    /// What reading the entries up to position `end` delivers, in log order.
    pub open spec fn commands(self, entries: Seq<EntryView>, end: nat) -> Seq<Command>
        decreases end - self.cursor,
    {
        if self.cursor < end {
            self.step(entries) + self.stepped(entries).commands(entries, end)
        } else {
            Seq::empty()
        }
    }

    /// After a drain of `log`.
    pub open spec fn drained(self, log: LogView) -> Self {
        match self.horizon(log.head) {
            Some(horizon) => self.read(log.entries, self.reach(log.entries, horizon)),
            None => self,
        }
    }

    /// What a drain of `log` delivers.
    pub open spec fn delivery(self, log: LogView) -> Seq<Command> {
        match self.horizon(log.head) {
            Some(horizon) => self.commands(log.entries, self.reach(log.entries, horizon)),
            None => Seq::empty(),
        }
    }

    /// After the cursor is rewound.
    pub open spec fn rewound(self) -> Self {
        IndexerView { cursor: 0, ..self }
    }

    /// Every entry before position `end` has been delivered.
    pub open spec fn seen(self, entries: Seq<EntryView>, end: nat) -> bool {
        forall|i: int|
            0 <= i < end && i < entries.len() ==> self.delivered.contains(
                (#[trigger] entries[i]).key(),
            )
    }
}

/// What a read leaves behind: the cursor at its end, everything delivered before still
/// delivered, every entry it passed delivered, and no key twice.
pub proof fn read_is(indexer: IndexerView, entries: Seq<EntryView>, end: nat)
    requires
        indexer.cursor <= end <= entries.len(),
    ensures
        ({
            let after = indexer.read(entries, end);
            &&& after.cursor == end
            &&& after.confirmations == indexer.confirmations
            &&& indexer.delivered.len() <= after.delivered.len()
            &&& after.delivered.len() == indexer.delivered.len() + indexer.commands(
                entries,
                end,
            ).len()
            &&& forall|k: Key| indexer.delivered.contains(k) ==> #[trigger] after.delivered.contains(k)
            &&& forall|i: int|
                indexer.cursor <= i < end ==> after.delivered.contains(
                    (#[trigger] entries[i]).key(),
                )
            &&& indexer.delivered.no_duplicates() ==> after.delivered.no_duplicates()
        }),
    decreases end - indexer.cursor,
{
    if indexer.cursor < end {
        let next = indexer.stepped(entries);
        let key = entries[indexer.cursor as int].key();
        assert(next.delivered.contains(key)) by {
            if !indexer.delivered.contains(key) {
                assert(next.delivered[indexer.delivered.len() as int] == key);
            }
        }
        assert forall|k: Key| indexer.delivered.contains(k) implies next.delivered.contains(k) by {
            let w = indexer.delivered.index_of(k);
            assert(next.delivered[w] == k);
        }
        read_is(next, entries, end);
    }
}

/// How far a read from the cursor gets: never past an entry above the horizon, and, in a log in
/// block order, past every entry at or below it.
pub proof fn reach_is(indexer: IndexerView, entries: Seq<EntryView>, horizon: u64)
    requires
        indexer.cursor <= entries.len(),
    ensures
        ({
            let end = indexer.reach(entries, horizon);
            &&& indexer.cursor <= end <= entries.len()
            &&& forall|i: int|
                indexer.cursor <= i < end ==> (#[trigger] entries[i]).block <= horizon
            &&& end < entries.len() ==> entries[end as int].block > horizon
        }),
    decreases entries.len() - indexer.cursor,
{
    if indexer.cursor < entries.len() && entries[indexer.cursor as int].block <= horizon {
        reach_is(IndexerView { cursor: indexer.cursor + 1, ..indexer }, entries, horizon);
    }
}

proof fn reading_the_seen(indexer: IndexerView, entries: Seq<EntryView>, end: nat)
    requires
        indexer.cursor <= end <= entries.len(),
        indexer.seen(entries, end),
    ensures
        indexer.commands(entries, end) == Seq::<Command>::empty(),
        indexer.read(entries, end) == (IndexerView { cursor: end, ..indexer }),
    decreases end - indexer.cursor,
{
    if indexer.cursor < end {
        assert(indexer.delivered.contains(entries[indexer.cursor as int].key()));
        let next = indexer.stepped(entries);
        assert(next.seen(entries, end));
        reading_the_seen(next, entries, end);
        assert(indexer.step(entries) + next.commands(entries, end) =~= Seq::<Command>::empty());
    }
}

/// **A replay is a no-op.** An indexer that has kept everything it read in its dedup set can
/// lose its cursor: reading the same log again delivers nothing and records nothing new.
pub proof fn a_replay_delivers_nothing(indexer: IndexerView, log: LogView)
    requires
        indexer.cursor <= log.entries.len(),
        indexer.seen(log.entries, indexer.cursor),
        log.wf(),
    ensures
        ({
            let after = indexer.drained(log);
            &&& after.rewound().delivery(log) == Seq::<Command>::empty()
            &&& after.rewound().drained(log).delivered == after.delivered
        }),
{
    match indexer.horizon(log.head) {
        Some(horizon) => {
            let entries = log.entries;
            let end = indexer.reach(entries, horizon);
            reach_is(indexer, entries, horizon);
            read_is(indexer, entries, end);
            let after = indexer.drained(log);
            let again = after.rewound();
            let end2 = again.reach(entries, horizon);
            reach_is(again, entries, horizon);
            if end < end2 {
                assert(entries[end as int].block <= horizon);
            }
            assert(again.seen(entries, end2)) by {
                assert forall|i: int| 0 <= i < end2 && i < entries.len() implies
                    again.delivered.contains((#[trigger] entries[i]).key()) by {
                    if i < indexer.cursor {
                        assert(indexer.delivered.contains(entries[i].key()));
                    }
                }
            }
            reading_the_seen(again, entries, end2);
        },
        None => {},
    }
}

/// **Nothing unconfirmed is delivered, and everything confirmed is.** A drain stops at the first
/// entry that is not deep enough; in a log in block order every entry behind it is at least as
/// young, and every entry before it has been delivered once the drain returns.
pub proof fn a_drain_reads_the_confirmed_entries(indexer: IndexerView, log: LogView)
    requires
        indexer.cursor <= log.entries.len(),
        indexer.seen(log.entries, indexer.cursor),
        log.wf(),
    ensures
        ({
            let after = indexer.drained(log);
            &&& indexer.cursor <= after.cursor <= log.entries.len()
            &&& after.seen(log.entries, after.cursor)
            &&& indexer.delivered.no_duplicates() ==> after.delivered.no_duplicates()
            &&& forall|i: int|
                indexer.cursor <= i < after.cursor ==> (#[trigger] log.entries[i]).block
                    + indexer.confirmations <= log.head
            &&& forall|i: int|
                after.cursor <= i < log.entries.len() ==> (#[trigger] log.entries[i]).block
                    + indexer.confirmations > log.head
            &&& after.delivered.len() == indexer.delivered.len() + indexer.delivery(log).len()
        }),
{
    match indexer.horizon(log.head) {
        Some(horizon) => {
            let end = indexer.reach(log.entries, horizon);
            reach_is(indexer, log.entries, horizon);
            read_is(indexer, log.entries, end);
            assert forall|i: int| end <= i < log.entries.len() implies (
            #[trigger] log.entries[i]).block + indexer.confirmations > log.head by {
                assert(log.entries[end as int].block <= log.entries[i].block);
            }
            let after = indexer.drained(log);
            assert forall|i: int| 0 <= i < after.cursor && i < log.entries.len() implies
                after.delivered.contains((#[trigger] log.entries[i]).key()) by {
                if i < indexer.cursor {
                    assert(indexer.delivered.contains(log.entries[i].key()));
                }
            }
        },
        None => {},
    }
}

/// **An entry is delivered at most once, whatever becomes of the cursor**: an entry whose key
/// is in the dedup set yields no command when it is read.
pub proof fn a_delivered_entry_is_skipped(indexer: IndexerView, entries: Seq<EntryView>)
    requires
        indexer.cursor < entries.len(),
        indexer.delivered.contains(entries[indexer.cursor as int].key()),
    ensures
        indexer.step(entries) == Seq::<Command>::empty(),
        indexer.stepped(entries).delivered == indexer.delivered,
{
}

/// **A reorganisation no deeper than the confirmation depth touches nothing delivered**: every
/// entry the indexer has passed stays where it was, and counts as delivered still.
pub proof fn a_shallow_reorganisation_touches_nothing_delivered(
    indexer: IndexerView,
    log: LogView,
    block: u64,
)
    requires
        log.wf(),
        indexer.cursor <= log.entries.len(),
        indexer.seen(log.entries, indexer.cursor),
        forall|i: int|
            0 <= i < indexer.cursor ==> (#[trigger] log.entries[i]).block + indexer.confirmations
                <= log.head,
        block + indexer.confirmations > log.head,
    ensures
        ({
            let after = indexer.drained(log);
            let fork = log.reorganised(block);
            &&& after.cursor <= fork.entries.len()
            &&& fork.entries.take(after.cursor as int) == log.entries.take(after.cursor as int)
            &&& after.seen(fork.entries, after.cursor)
        }),
{
    a_drain_reads_the_confirmed_entries(indexer, log);
    let after = indexer.drained(log);
    let fork = log.reorganised(block);
    let kept = log.entries.take(after.cursor as int);
    let rest = log.entries.skip(after.cursor as int);
    assert(log.entries =~= kept + rest);
    Seq::filter_distributes_over_add(kept, rest, below(block));
    assert forall|i: int| 0 <= i < kept.len() implies (#[trigger] kept[i]).block < block by {
        assert(kept[i] == log.entries[i]);
    }
    keeping_all(kept, block);
    assert(fork.entries.take(after.cursor as int) =~= kept);
    assert forall|i: int| 0 <= i < after.cursor && i < fork.entries.len() implies
        after.delivered.contains((#[trigger] fork.entries[i]).key()) by {
        assert(fork.entries[i] == kept[i]);
        assert(kept[i] == log.entries[i]);
    }
}

/// Nothing is discarded where everything lies below the block.
proof fn keeping_all(entries: Seq<EntryView>, block: u64)
    requires
        forall|i: int| 0 <= i < entries.len() ==> (#[trigger] entries[i]).block < block,
    ensures
        entries.filter(below(block)) == entries,
    decreases entries.len(),
{
    reveal(Seq::filter);
    if entries.len() > 0 {
        keeping_all(entries.drop_last(), block);
        assert(entries[entries.len() - 1].block < block);
        assert(entries.drop_last().push(entries.last()) =~= entries);
    }
}

/// **Every fact becomes its own command and no other**: an availability the mirror update that
/// carries it, an oracle's word its report, a nonce's fate the answer to it, and a payout asked for
/// the request to pay, without the outcome it was asked under.
pub proof fn every_fact_becomes_its_command(
    account: AccountIdx,
    available: Amount,
    contract: ContractIdx,
    said: OracleStatus,
    nonce: Nonce,
    fate: TxStatus,
    escrow: EscrowId,
    outcome: Outcome,
)
    ensures
        translated(ChainPayload::BalanceChanged { account, available }) == (
        Command::CreditAccount { account, free: available }),
        translated(ChainPayload::OracleStatusReported { contract, status: said }) == (
        Command::ReportOracleStatus { contract, status: said }),
        translated(ChainPayload::SettlementResolved { nonce, status: fate }) == (
        Command::PollSettlement { nonce, status: fate }),
        translated(ChainPayload::EscrowSettled { escrow, contract, outcome }) == (
        Command::SettleEscrow { escrow, contract }),
{
}

/// **An entry is delivered once it is deep enough, in log order, and once**: what has been passed
/// is what lies `confirmations` blocks below the head; of an entry whose key was not delivered
/// before the command is delivered and its key kept, and of one whose key was, nothing.
pub proof fn entries_are_delivered_in_order(indexer: IndexerView, log: LogView)
    requires
        indexer.cursor <= log.entries.len(),
        log.wf(),
    ensures
        ({
            let after = indexer.drained(log);
            let from = indexer.cursor as int;
            &&& indexer.cursor <= after.cursor <= log.entries.len()
            &&& after.confirmations == indexer.confirmations
            &&& forall|i: int|
                from <= i < after.cursor ==> (#[trigger] log.entries[i]).block
                    + indexer.confirmations <= log.head
            &&& forall|i: int|
                after.cursor <= i < log.entries.len() ==> (#[trigger] log.entries[i]).block
                    + indexer.confirmations > log.head
            &&& (forall|i: int|
                from <= i < after.cursor ==> !indexer.delivered.contains(
                    (#[trigger] log.entries[i]).key(),
                )) && (forall|i: int, j: int|
                from <= i < j < after.cursor ==> (#[trigger] log.entries[i]).key() != (
                #[trigger] log.entries[j]).key()) ==> {
                &&& indexer.delivery(log).len() == after.cursor - from
                &&& forall|k: int|
                    0 <= k < indexer.delivery(log).len() ==> #[trigger] indexer.delivery(log)[k]
                        == translated(log.entries[from + k].payload)
            }
            &&& (forall|i: int|
                from <= i < after.cursor ==> indexer.delivered.contains(
                    (#[trigger] log.entries[i]).key(),
                )) ==> indexer.delivery(log).len() == 0 && after.delivered == indexer.delivered
        }),
{
    let after = indexer.drained(log);
    match indexer.horizon(log.head) {
        Some(horizon) => {
            let end = indexer.reach(log.entries, horizon);
            reach_is(indexer, log.entries, horizon);
            read_is(indexer, log.entries, end);
            if end < log.entries.len() {
                assert forall|i: int| end <= i < log.entries.len() implies (
                #[trigger] log.entries[i]).block + indexer.confirmations > log.head by {
                    assert(log.entries[end as int].block <= log.entries[i].block);
                }
            }
            if (forall|i: int|
                indexer.cursor <= i < end ==> !indexer.delivered.contains(
                    (#[trigger] log.entries[i]).key(),
                )) && (forall|i: int, j: int|
                indexer.cursor <= i < j < end ==> (#[trigger] log.entries[i]).key() != (
                #[trigger] log.entries[j]).key()) {
                fresh_keys_are_delivered(indexer, log.entries, end);
            }
            if forall|i: int|
                indexer.cursor <= i < end ==> indexer.delivered.contains(
                    (#[trigger] log.entries[i]).key(),
                ) {
                known_keys_are_skipped(indexer, log.entries, end);
            }
        },
        None => {
            assert forall|i: int| indexer.cursor <= i < log.entries.len() implies (
            #[trigger] log.entries[i]).block + indexer.confirmations > log.head by {}
        },
    }
}

proof fn known_keys_are_skipped(indexer: IndexerView, entries: Seq<EntryView>, end: nat)
    requires
        indexer.cursor <= end <= entries.len(),
        forall|i: int|
            indexer.cursor <= i < end ==> indexer.delivered.contains(
                (#[trigger] entries[i]).key(),
            ),
    ensures
        indexer.commands(entries, end).len() == 0,
        indexer.read(entries, end).delivered == indexer.delivered,
    decreases end - indexer.cursor,
{
    if indexer.cursor < end {
        assert(indexer.delivered.contains(entries[indexer.cursor as int].key()));
        known_keys_are_skipped(indexer.stepped(entries), entries, end);
    }
}

proof fn fresh_keys_are_delivered(indexer: IndexerView, entries: Seq<EntryView>, end: nat)
    requires
        indexer.cursor <= end <= entries.len(),
        forall|i: int|
            indexer.cursor <= i < end ==> !indexer.delivered.contains(
                (#[trigger] entries[i]).key(),
            ),
        forall|i: int, j: int|
            indexer.cursor <= i < j < end ==> (#[trigger] entries[i]).key() != (
            #[trigger] entries[j]).key(),
    ensures
        indexer.commands(entries, end).len() == end - indexer.cursor,
        forall|k: int|
            0 <= k < end - indexer.cursor ==> #[trigger] indexer.commands(entries, end)[k]
                == translated(entries[indexer.cursor + k].payload),
    decreases end - indexer.cursor,
{
    if indexer.cursor < end {
        let next = indexer.stepped(entries);
        let key = entries[indexer.cursor as int].key();
        assert(!indexer.delivered.contains(key));
        assert forall|i: int| next.cursor <= i < end implies !next.delivered.contains(
            (#[trigger] entries[i]).key(),
        ) by {
            assert(entries[indexer.cursor as int].key() != entries[i].key());
            if next.delivered.contains(entries[i].key()) {
                let k = next.delivered.index_of(entries[i].key());
                assert(next.delivered[k] == entries[i].key());
                assert(k < indexer.delivered.len());
                assert(indexer.delivered[k] == entries[i].key());
            }
        }
        fresh_keys_are_delivered(next, entries, end);
        let first = indexer.step(entries);
        let rest = next.commands(entries, end);
        assert forall|k: int| 0 <= k < end - indexer.cursor implies #[trigger] (first + rest)[k]
            == translated(entries[indexer.cursor + k].payload) by {
            if k > 0 {
                assert((first + rest)[k] == rest[k - 1]);
            }
        }
    }
}

/// **Rewinding forgets the position and nothing else.**
pub proof fn rewinding_keeps_what_was_delivered(indexer: IndexerView, head: u64)
    ensures
        indexer.rewound().cursor == 0,
        indexer.rewound().delivered == indexer.delivered,
        indexer.rewound().confirmations == indexer.confirmations,
        head < indexer.confirmations ==> indexer.horizon(head) is None,
        head >= indexer.confirmations ==> indexer.horizon(head) is Some
            && indexer.horizon(head)->0 + indexer.confirmations == head,
{
}

/// Cursor, confirmation depth and dedup.
#[derive(Debug)]
pub struct Indexer {
    cursor: usize,
    confirmations: u64,
    delivered: Vec<(TxHash, u32)>,
}

impl View for Indexer {
    type V = IndexerView;

    closed spec fn view(&self) -> IndexerView {
        IndexerView {
            cursor: self.cursor as nat,
            confirmations: self.confirmations,
            delivered: self.delivered@.map_values(|key: (TxHash, u32)| (key.0@, key.1)),
        }
    }
}

fn same_hash(a: &TxHash, b: &TxHash) -> (r: bool)
    ensures
        r == (a@ == b@),
{
    let mut k: usize = 0;
    while k < 32
        invariant
            k <= 32,
            forall|j: int| 0 <= j < k ==> a@[j] == b@[j],
        decreases 32 - k,
    {
        if a[k] != b[k] {
            return false;
        }
        k += 1;
    }
    proof {
        assert(a@ =~= b@);
    }
    true
}

impl Indexer {
    /// An indexer waiting `confirmations` blocks before believing anything.
    pub fn new(confirmations: u64) -> (r: Self)
        ensures
            r@ == (IndexerView { cursor: 0, confirmations, delivered: Seq::empty() }),
    {
        let r = Indexer { cursor: 0, confirmations, delivered: Vec::new() };
        proof {
            assert(r@.delivered =~= Seq::<Key>::empty());
        }
        r
    }

    /// The highest block the indexer will act on, given the log's head. Everything above it
    /// exists and is not yet believed.
    pub fn horizon(&self, head: u64) -> (r: Option<u64>)
        ensures
            r == self@.horizon(head),
    {
        head.checked_sub(self.confirmations)
    }

    /// How far through the log the cursor has read.
    pub fn cursor(&self) -> (r: usize)
        ensures
            r == self@.cursor,
    {
        self.cursor
    }

    /// Entries delivered so far, by dedup key.
    pub fn delivered_count(&self) -> (r: usize)
        ensures
            r == self@.delivered.len(),
    {
        self.delivered.len()
    }

    /// Rewind the cursor to the beginning, keeping the dedup set.
    ///
    /// A restart that lost its position. Every entry is read again and every one is recognised,
    /// so nothing is delivered twice.
    pub fn rewind(&mut self)
        ensures
            final(self)@ == old(self)@.rewound(),
    {
        self.cursor = 0;
        proof {
            assert(self@ =~= old(self)@.rewound());
        }
    }

    /// Rewind the cursor **and** forget what has been delivered.
    pub fn forget_everything(&mut self)
        ensures
            final(self)@ == (IndexerView {
                cursor: 0,
                confirmations: old(self)@.confirmations,
                delivered: Seq::empty(),
            }),
    {
        self.cursor = 0;
        self.delivered.clear();
        proof {
            assert(self@.delivered =~= Seq::<Key>::empty());
        }
    }

    /// Whether an entry has been delivered.
    fn is_delivered(&self, entry: &ChainEvent) -> (r: bool)
        ensures
            r == self@.delivered.contains(entry@.key()),
    {
        let mut k: usize = 0;
        while k < self.delivered.len()
            invariant
                k <= self.delivered@.len(),
                forall|j: int| 0 <= j < k ==> #[trigger] self@.delivered[j] != entry@.key(),
            decreases self.delivered@.len() - k,
        {
            let known: &(TxHash, u32) = &self.delivered[k];
            let same = same_hash(&known.0, &entry.tx_hash) && known.1 == entry.log_index;
            proof {
                assert(self@.delivered[k as int] == (known.0@, known.1));
            }
            if same {
                return true;
            }
            k += 1;
        }
        false
    }

    /// Read every confirmed, undelivered entry and translate it into a command.
    ///
    /// The cursor advances past entries that are confirmed; an unconfirmed entry stops the walk,
    /// because everything after it is at least as young.
    pub fn drain(&mut self, log: &ChainLog) -> (r: Vec<Command>)
        ensures
            final(self)@ == old(self)@.drained(log@),
            r@ == old(self)@.delivery(log@),
    {
        let mut commands: Vec<Command> = Vec::new();
        let horizon: u64 = match self.horizon(log.head()) {
            Some(horizon) => horizon,
            None => {
                return commands;
            },
        };
        let entries: &[ChainEvent] = log.entries();
        let ghost views = log@.entries;
        let ghost end = self@.reach(views, horizon);
        proof {
            if self@.cursor <= views.len() {
                reach_is(self@, views, horizon);
            }
        }
        while self.cursor < entries.len() && entries[self.cursor].block <= horizon
            invariant
                entries@.len() == views.len(),
                forall|i: int| 0 <= i < views.len() ==> (#[trigger] entries@[i])@ == views[i],
                old(self)@.horizon(log@.head) == Some(horizon),
                views == log@.entries,
                end == old(self)@.reach(views, horizon),
                end == self@.reach(views, horizon),
                self@.read(views, end) == old(self)@.read(views, end),
                commands@ + self@.commands(views, end) == old(self)@.commands(views, end),
            decreases entries@.len() - self.cursor,
        {
            let entry = entries[self.cursor];
            let ghost before = self@;
            let ghost sent = commands@;
            proof {
                assert(entry@ == views[self.cursor as int]);
                assert(before.cursor < end) by {
                    reach_is(
                        IndexerView { cursor: before.cursor + 1, ..before },
                        views,
                        horizon,
                    );
                }
                reach_ignores_dedup(before.stepped(views), IndexerView { cursor: before.cursor + 1, ..before }, views, horizon);
            }
            let seen = self.is_delivered(&entry);
            self.cursor += 1;
            if !seen {
                self.delivered.push((entry.tx_hash, entry.log_index));
                commands.push(Self::translate(&entry));
                proof {
                    assert(self@.delivered =~= before.delivered.push(entry@.key()));
                    assert(commands@ =~= sent + before.step(views));
                }
            } else {
                proof {
                    assert(commands@ =~= sent + before.step(views));
                }
            }
            proof {
                assert(self@ =~= before.stepped(views));
                assert(sent + before.step(views) + self@.commands(views, end) =~= sent + (
                before.step(views) + self@.commands(views, end)));
            }
        }
        proof {
            assert(self@.reach(views, horizon) == self@.cursor);
            assert(commands@ + Seq::<Command>::empty() =~= commands@);
        }
        commands
    }

    /// One log entry, as an engine command.
    ///
    /// Translation, not interpretation: nothing here decides anything.
    fn translate(entry: &ChainEvent) -> (r: Command)
        ensures
            r == translated(entry.payload),
    {
        match entry.payload {
            ChainPayload::BalanceChanged { account, available } => Command::CreditAccount {
                account,
                free: available,
            },
            ChainPayload::OracleStatusReported { contract, status } => {
                Command::ReportOracleStatus { contract, status }
            },
            ChainPayload::SettlementResolved { nonce, status } => Command::PollSettlement {
                nonce,
                status,
            },
            ChainPayload::EscrowSettled { escrow, contract, .. } => Command::SettleEscrow {
                escrow,
                contract,
            },
        }
    }
}

proof fn reach_ignores_dedup(a: IndexerView, b: IndexerView, entries: Seq<EntryView>, horizon: u64)
    requires
        a.cursor == b.cursor,
    ensures
        a.reach(entries, horizon) == b.reach(entries, horizon),
    decreases entries.len() - a.cursor,
{
    if a.cursor < entries.len() && entries[a.cursor as int].block <= horizon {
        reach_ignores_dedup(
            IndexerView { cursor: a.cursor + 1, ..a },
            IndexerView { cursor: b.cursor + 1, ..b },
            entries,
            horizon,
        );
    }
}

} // verus!
