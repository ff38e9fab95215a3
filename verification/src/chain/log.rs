//! The chain's append-only log.
//!
//! What a real chain gives an observer: entries at a block height, identified by transaction and
//! position within it, and a head that moves forwards. The log is the **only** path from custody
//! back to the engine. Nothing calls across; a fact is written here, and the indexer turns it
//! into a command.

use crate::account::AccountIdx;
use crate::contract::{ContractIdx, OracleStatus, Outcome};
use crate::escrow::EscrowId;
use crate::request::Nonce;
use crate::settlement::TxStatus;
use crate::types::Amount;
use vstd::prelude::*;

verus! {

/// A transaction identity.
///
/// Opaque bytes, not a digest: the indexer uses it for equality only.
pub type TxHash = [u8; 32];

/// What happened, in terms the engine can be told about.
#[allow(inconsistent_fields)]
#[derive(Clone, Copy, Debug, PartialEq, Eq, Structural)]
pub enum ChainPayload {
    /// An account's spendable balance moved.
    ///
    /// Carries **availability**, not balance: it is the number admission is entitled to lend
    /// against.
    BalanceChanged {
        /// Whose.
        account: AccountIdx,
        /// Balance minus pending withdrawals.
        available: Amount,
    },
    /// The oracle said something about a contract.
    OracleStatusReported {
        /// Which contract.
        contract: ContractIdx,
        /// What it said.
        status: OracleStatus,
    },
    /// A settlement transaction reached a terminal answer: the only thing that can move a
    /// request out of `Settling`. "Still pending" is not an event and never appears here.
    SettlementResolved {
        /// Which nonce.
        nonce: Nonce,
        /// Its fate.
        status: TxStatus,
    },
    /// Somebody sent a transaction asking for an escrow to be paid out.
    ///
    /// **Inbound, not a confirmation.** The indexer turns this into a command whose
    /// admissibility the engine re-derives from the contract state it holds, so safety does not
    /// depend on delivery order.
    EscrowSettled {
        /// Which escrow.
        escrow: EscrowId,
        /// The contract it rests on.
        contract: ContractIdx,
        /// The outcome it was settled under, for the record. The engine re-derives its own.
        outcome: Outcome,
    },
}

/// One log entry.
#[derive(Clone, Copy, Debug, PartialEq, Eq)]
pub struct ChainEvent {
    /// The block it landed in. Confirmation depth is measured against this.
    pub block: u64,
    /// Which transaction. With `log_index`, the dedup key.
    pub tx_hash: TxHash,
    /// Position within that transaction.
    pub log_index: u32,
    /// What happened.
    pub payload: ChainPayload,
}

/// A log entry with its transaction's identity as a sequence of bytes.
pub struct EntryView {
    /// The block it landed in.
    pub block: u64,
    /// Which transaction.
    pub tx_hash: Seq<u8>,
    /// Position within that transaction.
    pub log_index: u32,
    /// What happened.
    pub payload: ChainPayload,
}

impl EntryView {
    /// What the entry is deduplicated by.
    pub open spec fn key(self) -> (Seq<u8>, u32) {
        (self.tx_hash, self.log_index)
    }
}

impl View for ChainEvent {
    type V = EntryView;

    open spec fn view(&self) -> EntryView {
        EntryView {
            block: self.block,
            tx_hash: self.tx_hash@,
            log_index: self.log_index,
            payload: self.payload,
        }
    }
}

/// What a log holds.
#[verifier::ext_equal]
pub struct LogView {
    /// The entries, oldest first.
    pub entries: Seq<EntryView>,
    /// The current block height.
    pub head: u64,
    /// Transactions minted so far.
    pub minted: u64,
}

/// The identity of the `n`-th transaction: `n` in big-endian order, padded with zeros.
pub open spec fn hash_of(n: u64) -> Seq<u8> {
    Seq::new(32, |k: int| hash_byte(n, k))
}

/// The `k`-th byte of the identity of the `n`-th transaction.
pub open spec fn hash_byte(n: u64, k: int) -> u8 {
    (if k == 0 {
        n as int / 0x100_0000_0000_0000 % 0x100
    } else if k == 1 {
        n as int / 0x1_0000_0000_0000 % 0x100
    } else if k == 2 {
        n as int / 0x100_0000_0000 % 0x100
    } else if k == 3 {
        n as int / 0x1_0000_0000 % 0x100
    } else if k == 4 {
        n as int / 0x100_0000 % 0x100
    } else if k == 5 {
        n as int / 0x1_0000 % 0x100
    } else if k == 6 {
        n as int / 0x100 % 0x100
    } else if k == 7 {
        n as int % 0x100
    } else {
        0
    }) as u8
}

/// **An identity spells out which transaction it is of**: its first eight bytes are the number, the
/// highest first, and the others are zero.
pub proof fn an_identity_spells_its_number(n: u64)
    ensures
        hash_of(n).len() == 32,
        ((((((hash_of(n)[0] * 256 + hash_of(n)[1]) * 256 + hash_of(n)[2]) * 256 + hash_of(n)[3])
            * 256 + hash_of(n)[4]) * 256 + hash_of(n)[5]) * 256 + hash_of(n)[6]) * 256 + hash_of(
            n,
        )[7] == n,
        forall|k: int| 8 <= k < 32 ==> #[trigger] hash_of(n)[k] == 0,
{
    let n0 = n as int;
    let n1 = n0 / 256;
    let n2 = n1 / 256;
    let n3 = n2 / 256;
    let n4 = n3 / 256;
    let n5 = n4 / 256;
    let n6 = n5 / 256;
    let n7 = n6 / 256;
    assert(n2 == n0 / 0x1_0000);
    assert(n3 == n0 / 0x100_0000);
    assert(n4 == n0 / 0x1_0000_0000);
    assert(n5 == n0 / 0x100_0000_0000);
    assert(n6 == n0 / 0x1_0000_0000_0000);
    assert(n7 == n0 / 0x100_0000_0000_0000);
    assert(n7 < 256);
}

/// Different transactions have different identities.
pub proof fn hashes_differ(a: u64, b: u64)
    requires
        hash_of(a) == hash_of(b),
    ensures
        a == b,
{
    let (x, y) = (hash_of(a), hash_of(b));
    assert(x[0] == y[0] && x[1] == y[1] && x[2] == y[2] && x[3] == y[3]);
    assert(x[4] == y[4] && x[5] == y[5] && x[6] == y[6] && x[7] == y[7]);
    let (m, n) = (a as int, b as int);
    same_quotient(m, n, 0x1_0000_0000_0000, 0x100_0000_0000_0000);
    same_quotient(m, n, 0x100_0000_0000, 0x1_0000_0000_0000);
    same_quotient(m, n, 0x1_0000_0000, 0x100_0000_0000);
    same_quotient(m, n, 0x100_0000, 0x1_0000_0000);
    same_quotient(m, n, 0x1_0000, 0x100_0000);
    same_quotient(m, n, 0x100, 0x1_0000);
    same_quotient(m, n, 1, 0x100);
}

proof fn same_quotient(m: int, n: int, d: int, whole: int)
    requires
        m >= 0,
        n >= 0,
        d > 0,
        whole == d * 0x100,
        m / whole == n / whole,
        m / d % 0x100 == n / d % 0x100,
    ensures
        m / d == n / d,
{
    vstd::arithmetic::div_mod::lemma_div_denominator(m, d, 0x100);
    vstd::arithmetic::div_mod::lemma_div_denominator(n, d, 0x100);
    let (p, q) = (m / d, n / d);
    assert(p / 0x100 == q / 0x100);
    assert(p == q);
}

/// A position within a transaction, clamped to what an index holds.
pub open spec fn log_position(k: int) -> u32 {
    (if k <= u32::MAX {
        k
    } else {
        u32::MAX as int
    }) as u32
}

/// An entry lands below block `block`.
pub open spec fn below(block: u64) -> spec_fn(EntryView) -> bool {
    |entry: EntryView| entry.block < block
}

impl LogView {
    /// A log nothing has been written to.
    pub open spec fn empty() -> Self {
        LogView { entries: Seq::empty(), head: 0, minted: 0 }
    }

    /// The entries one transaction carrying `payloads` would add.
    pub open spec fn transaction(self, payloads: Seq<ChainPayload>) -> Seq<EntryView> {
        Seq::new(
            payloads.len(),
            |k: int|
                EntryView {
                    block: self.head,
                    tx_hash: hash_of(self.minted),
                    log_index: log_position(k),
                    payload: payloads[k],
                },
        )
    }

    /// After one transaction carrying `payloads` is written at the current head.
    pub open spec fn written(self, payloads: Seq<ChainPayload>) -> Self {
        LogView {
            entries: self.entries + self.transaction(payloads),
            minted: if self.minted < u64::MAX {
                (self.minted + 1) as u64
            } else {
                u64::MAX
            },
            ..self
        }
    }

    /// After a block is mined.
    pub open spec fn mined(self) -> Self {
        LogView {
            head: if self.head < u64::MAX {
                (self.head + 1) as u64
            } else {
                u64::MAX
            },
            ..self
        }
    }

    /// After the blocks from `block` on are discarded.
    pub open spec fn reorganised(self, block: u64) -> Self {
        LogView {
            entries: self.entries.filter(below(block)),
            head: if block > 0 {
                (block - 1) as u64
            } else {
                0
            },
            ..self
        }
    }

    /// Entries come in block order, none above the head.
    pub open spec fn wf(self) -> bool {
        &&& forall|i: int| 0 <= i < self.entries.len() ==> (#[trigger] self.entries[i]).block
            <= self.head
        &&& forall|i: int, j: int|
            0 <= i <= j < self.entries.len() ==> (#[trigger] self.entries[i]).block <= (
            #[trigger] self.entries[j]).block
    }

    /// No entry carries the identity of a transaction that is still to be minted.
    pub open spec fn unminted(self) -> bool {
        forall|i: int, n: u64|
            0 <= i < self.entries.len() && self.minted <= n ==> (#[trigger] self.entries[i]).tx_hash
                != #[trigger] hash_of(n)
    }
}

impl LogView {
    /// In block order, every entry under a key of its own, and no key spent on the future.
    pub open spec fn sound(self) -> bool {
        &&& self.wf()
        &&& self.unminted()
        &&& forall|i: int, j: int|
            0 <= i < j < self.entries.len() ==> (#[trigger] self.entries[i]).key() != (
            #[trigger] self.entries[j]).key()
    }

    /// Everything in `self` is in `later`, where it was.
    pub open spec fn grows_to(self, later: Self) -> bool {
        &&& self.entries.len() <= later.entries.len()
        &&& forall|i: int|
            0 <= i < self.entries.len() ==> #[trigger] later.entries[i] == self.entries[i]
    }
}

/// While identities last, writing and mining keep the log sound and rewrite nothing.
pub proof fn writing_keeps_the_log_sound(log: LogView, payloads: Seq<ChainPayload>)
    requires
        log.sound(),
    ensures
        log.minted < u64::MAX && payloads.len() <= u32::MAX ==> log.written(payloads).sound()
            && log.grows_to(log.written(payloads)),
        log.mined().sound(),
        log.grows_to(log.mined()),
{
    log_stays_ordered(log, payloads, 0);
    if log.minted < u64::MAX && payloads.len() <= u32::MAX {
        keys_are_fresh(log, payloads);
        let after = log.written(payloads);
        let fresh = log.transaction(payloads);
        let n = log.entries.len();
        assert forall|i: int, j: int| 0 <= i < j < after.entries.len() implies (
        #[trigger] after.entries[i]).key() != (#[trigger] after.entries[j]).key() by {
            if j < n {
                assert(log.entries[i].key() != log.entries[j].key());
            } else if i < n {
                assert(log.entries[i].key() != fresh[j - n].key());
            } else {
                assert(fresh[i - n].key() != fresh[j - n].key());
            }
        }
    }
}

/// Entries stay in block order whatever is written, mined or discarded.
pub proof fn log_stays_ordered(log: LogView, payloads: Seq<ChainPayload>, block: u64)
    requires
        log.wf(),
    ensures
        log.written(payloads).wf(),
        log.mined().wf(),
        log.reorganised(block).wf(),
{
    let kept = log.reorganised(block);
    filter_is_ordered(log.entries, block);
    assert forall|i: int| 0 <= i < kept.entries.len() implies (#[trigger] kept.entries[i]).block
        <= kept.head by {
        log.entries.lemma_filter_pred(below(block), i);
    }
}

proof fn filter_is_ordered(entries: Seq<EntryView>, block: u64)
    requires
        forall|i: int, j: int|
            0 <= i <= j < entries.len() ==> (#[trigger] entries[i]).block <= (
            #[trigger] entries[j]).block,
    ensures
        ({
            let kept = entries.filter(below(block));
            &&& forall|i: int, j: int|
                0 <= i <= j < kept.len() ==> (#[trigger] kept[i]).block <= (
                #[trigger] kept[j]).block
            &&& forall|i: int|
                0 <= i < kept.len() && entries.len() > 0 ==> (#[trigger] kept[i]).block
                    <= entries.last().block
        }),
    decreases entries.len(),
{
    reveal(Seq::filter);
    if entries.len() > 0 {
        filter_is_ordered(entries.drop_last(), block);
        if entries.len() > 1 {
            assert(entries[entries.len() - 2] == entries.drop_last().last());
        }
    }
}

/// While identities last, a transaction's entries carry keys no entry carried before, and no key
/// twice.
pub proof fn keys_are_fresh(log: LogView, payloads: Seq<ChainPayload>)
    requires
        log.unminted(),
        log.minted < u64::MAX,
        payloads.len() <= u32::MAX,
    ensures
        log.written(payloads).unminted(),
        forall|i: int, k: int|
            0 <= i < log.entries.len() && 0 <= k < payloads.len() ==> (
            #[trigger] log.entries[i]).key() != (#[trigger] log.transaction(payloads)[k]).key(),
        forall|j: int, k: int|
            0 <= j < k < payloads.len() ==> (#[trigger] log.transaction(payloads)[j]).key() != (
            #[trigger] log.transaction(payloads)[k]).key(),
{
    let after = log.written(payloads);
    assert forall|i: int, n: u64| 0 <= i < after.entries.len() && after.minted <= n implies (
    #[trigger] after.entries[i]).tx_hash != #[trigger] hash_of(n) by {
        if i < log.entries.len() {
            assert(after.entries[i] == log.entries[i]);
        } else {
            assert(after.entries[i].tx_hash == hash_of(log.minted));
            if hash_of(log.minted) == hash_of(n) {
                hashes_differ(log.minted, n);
            }
        }
    }
}

/// **Writing appends and rewrites nothing**: every payload becomes one entry, in order, in the
/// block at the head, under one identity and its own position; mining moves the head by one block
/// and says nothing.
pub proof fn writing_appends_in_order(log: LogView, payloads: Seq<ChainPayload>)
    ensures
        ({
            let after = log.written(payloads);
            let n = log.entries.len() as int;
            &&& after.head == log.head
            &&& after.entries.len() == n + payloads.len()
            &&& forall|i: int| 0 <= i < n ==> #[trigger] after.entries[i] == log.entries[i]
            &&& forall|k: int|
                0 <= k < payloads.len() ==> {
                    let entry = #[trigger] after.entries[n + k];
                    &&& entry.payload == payloads[k]
                    &&& entry.block == log.head
                    &&& entry.tx_hash.len() == 32
                    &&& entry.tx_hash == hash_of(log.minted)
                    &&& k <= u32::MAX ==> entry.log_index == k
                }
            &&& log.minted < u64::MAX ==> after.minted == log.minted + 1
        }),
        log.head < u64::MAX ==> log.mined().head == log.head + 1,
        log.mined().entries == log.entries,
        log.mined().minted == log.minted,
        LogView::empty().entries.len() == 0,
        LogView::empty().head == 0,
{
}

/// **A reorganisation discards the blocks from its own on, and those alone**: what lies below
/// stays, in order, what does not is gone, the head is the block before, and no identity is given
/// out twice for it.
pub proof fn a_reorganisation_discards_exactly_its_blocks(log: LogView, block: u64)
    requires
        log.wf(),
    ensures
        ({
            let after = log.reorganised(block);
            &&& after.entries.len() <= log.entries.len()
            &&& forall|i: int|
                0 <= i < after.entries.len() ==> (#[trigger] after.entries[i]).block < block
                    && after.entries[i] == log.entries[i]
            &&& forall|i: int|
                after.entries.len() <= i < log.entries.len() ==> (#[trigger] log.entries[i]).block
                    >= block
            &&& block > 0 ==> after.head == block - 1
            &&& block == 0 ==> after.head == 0
            &&& after.minted == log.minted
        }),
{
    lower_blocks_are_a_prefix(log.entries, block);
}

proof fn lower_blocks_are_a_prefix(entries: Seq<EntryView>, block: u64)
    requires
        forall|i: int, j: int|
            0 <= i <= j < entries.len() ==> (#[trigger] entries[i]).block <= (
            #[trigger] entries[j]).block,
    ensures
        ({
            let kept = entries.filter(below(block));
            &&& kept.len() <= entries.len()
            &&& forall|i: int|
                0 <= i < kept.len() ==> (#[trigger] kept[i]).block < block && kept[i] == entries[i]
            &&& forall|i: int|
                kept.len() <= i < entries.len() ==> (#[trigger] entries[i]).block >= block
        }),
    decreases entries.len(),
{
    reveal(Seq::filter);
    if entries.len() > 0 {
        let before = entries.drop_last();
        lower_blocks_are_a_prefix(before, block);
        let kept = before.filter(below(block));
        let last = entries.last();
        if last.block < block {
            if kept.len() < before.len() {
                let i = kept.len() as int;
                assert(before[i].block >= block);
                assert(entries[i].block <= entries[entries.len() - 1].block);
            }
            assert(kept.len() == before.len());
        } else {
            assert forall|i: int| kept.len() <= i < entries.len() implies (
            #[trigger] entries[i]).block >= block by {
                if i < before.len() {
                    assert(before[i].block >= block);
                }
            }
        }
    }
}

/// An append-only log with a moving head.
#[derive(Debug)]
pub struct ChainLog {
    entries: Vec<ChainEvent>,
    head: u64,
    next_tx: u64,
}

impl Default for ChainLog {
    fn default() -> (r: Self)
        ensures
            r@ == LogView::empty(),
    {
        ChainLog::new()
    }
}

impl View for ChainLog {
    type V = LogView;

    closed spec fn view(&self) -> LogView {
        LogView {
            entries: self.entries@.map_values(|event: ChainEvent| event@),
            head: self.head,
            minted: self.next_tx,
        }
    }
}

fn identity(n: u64) -> (r: TxHash)
    ensures
        r@ == hash_of(n),
{
    let mut tx_hash: TxHash = [0u8;32];
    tx_hash[0] = (n / 0x100_0000_0000_0000 % 0x100) as u8;
    tx_hash[1] = (n / 0x1_0000_0000_0000 % 0x100) as u8;
    tx_hash[2] = (n / 0x100_0000_0000 % 0x100) as u8;
    tx_hash[3] = (n / 0x1_0000_0000 % 0x100) as u8;
    tx_hash[4] = (n / 0x100_0000 % 0x100) as u8;
    tx_hash[5] = (n / 0x1_0000 % 0x100) as u8;
    tx_hash[6] = (n / 0x100 % 0x100) as u8;
    tx_hash[7] = (n % 0x100) as u8;
    proof {
        assert(tx_hash@ =~= hash_of(n));
    }
    tx_hash
}

impl ChainLog {
    /// An empty log at block zero.
    pub fn new() -> (r: Self)
        ensures
            r@ == LogView::empty(),
    {
        let r = ChainLog { entries: Vec::new(), head: 0, next_tx: 0 };
        proof {
            assert(r@ =~= LogView::empty());
        }
        r
    }

    /// The current block height.
    pub fn head(&self) -> (r: u64)
        ensures
            r == self@.head,
    {
        self.head
    }

    /// Mine a block. Nothing else moves the head forward.
    pub fn advance_block(&mut self)
        ensures
            final(self)@ == old(self)@.mined(),
    {
        self.head = self.head.saturating_add(1);
        proof {
            assert(self@ =~= old(self)@.mined());
        }
    }

    /// Every entry, oldest first.
    pub fn entries(&self) -> (r: &[ChainEvent])
        ensures
            r@.len() == self@.entries.len(),
            forall|i: int| 0 <= i < r@.len() ==> (#[trigger] r@[i])@ == self@.entries[i],
    {
        self.entries.as_slice()
    }

    /// Append one entry at the current head, in a transaction of its own.
    pub fn append(&mut self, payload: ChainPayload) -> (r: ChainEvent)
        ensures
            final(self)@ == old(self)@.written(seq![payload]),
            r@ == final(self)@.entries.last(),
    {
        let event = ChainEvent {
            block: self.head,
            tx_hash: identity(self.next_tx),
            log_index: 0,
            payload,
        };
        self.next_tx = self.next_tx.saturating_add(1);
        self.entries.push(event);
        proof {
            assert(self@ =~= old(self)@.written(seq![payload]));
        }
        event
    }

    /// Append several entries as one transaction, so they share an identity and differ by index.
    pub fn append_transaction(&mut self, payloads: &[ChainPayload])
        ensures
            final(self)@ == old(self)@.written(payloads@),
    {
        let tx_hash = identity(self.next_tx);
        self.next_tx = self.next_tx.saturating_add(1);
        let n: usize = payloads.len();
        let mut index: usize = 0;
        while index < n
            invariant
                index <= n == payloads@.len(),
                self.head == old(self).head,
                self.next_tx == old(self)@.written(payloads@).minted,
                tx_hash@ == hash_of(old(self).next_tx),
                self@.entries == old(self)@.entries + old(self)@.transaction(
                    payloads@,
                ).take(index as int),
            decreases n - index,
        {
            let log_index: u32 = if index < 0xffff_ffff {
                index as u32
            } else {
                u32::MAX
            };
            let ghost before = self@.entries;
            let event = ChainEvent {
                block: self.head,
                tx_hash,
                log_index,
                payload: payloads[index],
            };
            self.entries.push(event);
            proof {
                assert(event@ == old(self)@.transaction(payloads@)[index as int]);
                assert(self@.entries =~= before.push(event@));
                assert(self@.entries =~= old(self)@.entries + old(self)@.transaction(
                    payloads@,
                ).take(index + 1));
            }
            index += 1;
        }
        proof {
            assert(self@ =~= old(self)@.written(payloads@));
        }
    }

    /// Discard every entry at or above `block`, and move the head back to just below it.
    ///
    /// A reorg. Confirmation depth **avoids** these rather than recovering from them: an entry
    /// the indexer has not delivered yet can vanish without the engine ever having known about
    /// it.
    pub fn reorg(&mut self, block: u64)
        ensures
            final(self)@ == old(self)@.reorganised(block),
    {
        let mut kept: Vec<ChainEvent> = Vec::new();
        let mut index: usize = 0;
        let n: usize = self.entries.len();
        let ghost all = old(self)@.entries;
        while index < n
            invariant
                *self == *old(self),
                index <= n == self.entries@.len(),
                all == old(self)@.entries,
                kept@.map_values(|event: ChainEvent| event@) == all.take(index as int).filter(
                    below(block),
                ),
            decreases n - index,
        {
            let ghost before = kept@.map_values(|event: ChainEvent| event@);
            let event = self.entries[index];
            proof {
                reveal(Seq::filter);
                assert(all.take(index + 1).drop_last() =~= all.take(index as int));
                assert(all.take(index + 1).last() == event@);
            }
            if event.block < block {
                kept.push(event);
                proof {
                    assert(kept@.map_values(|event: ChainEvent| event@) =~= before.push(event@));
                }
            }
            index += 1;
        }
        self.entries = kept;
        self.head = block.saturating_sub(1);
        proof {
            assert(all.take(n as int) =~= all);
            assert(self@ =~= old(self)@.reorganised(block));
        }
    }
}

} // verus!
