//! The single writer: one command at a time, each at the instant sampled for it, each logged.
//!
//! The real content of the single-writer claim is that the log **reproduces** the state: replayed
//! through a fresh engine, each entry at **its recorded instant**, it leads to the same engine.
//! Rejected commands are logged too, and must be: a rejection still normalises the account it
//! touched.

use crate::command::Command;
use crate::config::{Config, ConfigError};
use crate::engine::laws::{a_fresh_engine_is_sound, every_command_keeps_the_engine_sound};
use crate::engine::model::EngineView;
use crate::engine::{Engine, EngineError};
use crate::event::EventBuffer;
use crate::runtime::event_ring::{counted_up, SequencedEvent};
use crate::runtime::handoff::{stamped, Handoff, HaltReason};
use crate::types::Ts;
use vstd::prelude::*;

verus! {

/// One entry of the append-only command log.
#[derive(Clone, Copy, Debug, PartialEq, Eq)]
pub struct LogEntry {
    /// Position in the total order the channel imposed.
    pub sequence: u64,
    /// The instant the engine sampled for this command.
    pub at: Ts,
    /// What was applied.
    pub command: Command,
    /// What the engine made of it.
    pub outcome: Result<(), EngineError>,
}

/// How large the runtime's preallocated structures are.
#[derive(Clone, Copy, Debug, PartialEq, Eq, Structural)]
pub struct RuntimeCapacities {
    /// Bound on the command channel.
    pub command_channel: usize,
    /// Events the ring holds before it starts evicting.
    pub event_ring: usize,
    /// Events one command may emit.
    pub event_buffer: usize,
    /// Commands the log is preallocated for.
    pub command_log: usize,
}

impl Default for RuntimeCapacities {
    fn default() -> (r: Self)
        ensures
            r == (RuntimeCapacities {
                command_channel: 4,
                event_ring: 256,
                event_buffer: 64,
                command_log: 1024,
            }),
    {
        RuntimeCapacities {
            command_channel: 4,
            event_ring: 256,
            event_buffer: 64,
            command_log: 1024,
        }
    }
}

/// The engine the first `n` entries of `log` lead to, each applied at its recorded instant with
/// room for `room` events.
pub open spec fn replayed(config: Config, log: Seq<LogEntry>, room: nat, n: nat) -> EngineView
    decreases n,
{
    if n == 0 {
        EngineView::fresh(config)
    } else {
        replayed(config, log, room, (n - 1) as nat).after(log[n - 1].command, log[n - 1].at, room)
    }
}

/// Every entry of `log` records what the engine made of it.
pub open spec fn faithful(config: Config, log: Seq<LogEntry>, room: nat) -> bool {
    forall|k: int|
        0 <= k < log.len() ==> (#[trigger] log[k]).outcome == replayed(
            config,
            log,
            room,
            k as nat,
        ).outcome(log[k].command, log[k].at, room)
}

proof fn replay_of_a_prefix(config: Config, log: Seq<LogEntry>, entry: LogEntry, room: nat, n: nat)
    requires
        n <= log.len(),
    ensures
        replayed(config, log.push(entry), room, n) == replayed(config, log, room, n),
    decreases n,
{
    if n > 0 {
        replay_of_a_prefix(config, log, entry, room, (n - 1) as nat);
    }
}

/// **Every log leads to a sound engine**: whatever was sent, at whatever instants, and whatever
/// was refused.
pub proof fn every_log_leads_to_a_sound_engine(
    config: Config,
    log: Seq<LogEntry>,
    room: nat,
    n: nat,
)
    requires
        config.refusal() is None,
        n <= log.len(),
    ensures
        replayed(config, log, room, n).wf(),
        replayed(config, log, room, n).config == config,
    decreases n,
{
    if n == 0 {
        a_fresh_engine_is_sound(config);
    } else {
        let m = (n - 1) as nat;
        every_log_leads_to_a_sound_engine(config, log, room, m);
        let before = replayed(config, log, room, m);
        every_command_keeps_the_engine_sound(before, log[m as int].command, log[m as int].at, room);
    }
}

/// **The log reproduces the engine**: where a log leads to an engine's state, logging the next
/// command with the instant it was applied at and what was made of it, accepted or refused, leads
/// to the state after it.
pub proof fn the_log_reproduces_the_engine(
    config: Config,
    log: Seq<LogEntry>,
    entry: LogEntry,
    engine: EngineView,
    room: nat,
)
    requires
        engine == replayed(config, log, room, log.len()),
        faithful(config, log, room),
        entry.outcome == engine.outcome(entry.command, entry.at, room),
    ensures
        engine.after(entry.command, entry.at, room) == replayed(
            config,
            log.push(entry),
            room,
            log.len() + 1,
        ),
        faithful(config, log.push(entry), room),
{
    let longer = log.push(entry);
    replay_of_a_prefix(config, log, entry, room, log.len());
    assert forall|k: int| 0 <= k < longer.len() implies (#[trigger] longer[k]).outcome == replayed(
        config,
        longer,
        room,
        k as nat,
    ).outcome(longer[k].command, longer[k].at, room) by {
        replay_of_a_prefix(config, log, entry, room, k as nat);
        if k < log.len() {
            assert(longer[k] == log[k]);
        }
    }
}

/// What a finished round leaves behind.
#[derive(Debug)]
pub struct RoundOutcome {
    /// The engine, after the last command.
    pub engine: Engine,
    /// Every command, in the order the channel serialised them.
    pub log: Vec<LogEntry>,
    /// How many commands were applied, and so how often claim coverage was checked.
    pub coverage_checks: u64,
    /// Events refused at the boundary.
    pub events_dropped: u64,
    /// Events handed over.
    pub events_emitted: u64,
    /// Why the round ended.
    pub halted: HaltReason,
}

/// One engine, applying one command at a time.
#[derive(Debug)]
pub struct Round {
    engine: Engine,
    events: EventBuffer,
    sequence: u64,
    handoff: Handoff,
}

impl Round {
    /// The engine.
    pub closed spec fn state(&self) -> EngineView {
        self.engine@
    }

    /// How many events one command may emit.
    pub closed spec fn room(&self) -> nat {
        self.events.room()
    }

    /// The position the next command gets.
    pub closed spec fn position(&self) -> u64 {
        self.sequence
    }

    /// What has left the engine's thread.
    pub closed spec fn sent(&self) -> Handoff {
        self.handoff
    }

    /// Whether the round is sound.
    pub closed spec fn wf(&self) -> bool {
        self.engine.wf() && self.events.wf()
    }

    /// Everything but what has left is as in `other`.
    pub open spec fn same_engine(&self, other: &Self) -> bool {
        &&& self.wf() == other.wf()
        &&& self.state() == other.state()
        &&& self.room() == other.room()
        &&& self.position() == other.position()
    }

    /// A round over a fresh engine, or why the configuration is refused.
    pub fn new(config: Config, event_buffer: usize) -> (r: Result<Self, ConfigError>)
        ensures
            match config.refusal() {
                Some(error) => r == Err::<Self, ConfigError>(error),
                None => {
                    &&& r is Ok
                    &&& r->Ok_0.wf()
                    &&& r->Ok_0.state() == EngineView::fresh(config)
                    &&& r->Ok_0.room() == event_buffer
                    &&& r->Ok_0.position() == 0
                    &&& r->Ok_0.sent() == Handoff::fresh()
                },
            },
    {
        match Engine::new(config) {
            Ok(engine) => Ok(
                Round {
                    engine,
                    events: EventBuffer::with_capacity(event_buffer),
                    sequence: 0,
                    handoff: Handoff::new(),
                },
            ),
            Err(error) => Err(error),
        }
    }

    /// The engine, read-only.
    pub fn engine(&self) -> (r: &Engine)
        ensures
            r@ == self.state(),
            self.wf() ==> r.wf(),
    {
        &self.engine
    }

    /// The engine, once the round is over.
    pub fn into_engine(self) -> (r: Engine)
        ensures
            r@ == self.state(),
            self.wf() ==> r.wf(),
    {
        self.engine
    }

    /// What has left the engine's thread so far.
    pub fn handoff(&self) -> (r: &Handoff)
        ensures
            *r == self.sent(),
    {
        &self.handoff
    }

    /// Apply one command at `now`. Returns the entry to log, and what was emitted, numbered, to
    /// publish.
    ///
    /// Logged whether it was accepted or refused; numbered in the order applied.
    pub fn step(&mut self, command: Command, now: Ts) -> (r: (LogEntry, Vec<SequencedEvent>))
        requires
            old(self).wf(),
        ensures
            final(self).wf(),
            final(self).room() == old(self).room(),
            final(self).state() == old(self).state().after(command, now, old(self).room()),
            final(self).position() == counted_up(old(self).position()),
            r.0 == (LogEntry {
                sequence: old(self).position(),
                at: now,
                command,
                outcome: old(self).state().outcome(command, now, old(self).room()),
            }),
            r.1@ == stamped(
                old(self).sent().next,
                old(self).state().emitted(command, now, old(self).room()),
            ),
            final(self).sent() == old(self).sent().after_stamping(r.1@.len()),
    {
        self.events.clear();
        let ghost said = self.events@;
        let outcome = self.engine.apply(command, now, &mut self.events);
        let entry = LogEntry { sequence: self.sequence, at: now, command, outcome };
        self.sequence = self.sequence.saturating_add(1);
        let emitted = self.events.drain();
        proof {
            assert(said + old(self).state().emitted(command, now, old(self).room()) =~= old(
                self,
            ).state().emitted(command, now, old(self).room()));
        }
        let numbered = self.handoff.stamp(emitted);
        (entry, numbered)
    }

    /// Whether claim coverage holds of the account `command` touched. After a mirror update it is
    /// not asked: one that carries a requested withdrawal can rightly put the mirror below claims
    /// the engine already holds.
    pub fn coverage_holds(&self, command: Command) -> (r: bool)
        requires
            self.wf(),
        ensures
            r == (command is CreditAccount || match self.state().touched(command) {
                Some(account) => account.0 < self.state().ledger.accounts.len()
                    ==> self.state().ledger.accounts[account.0 as int].covered(),
                None => true,
            }),
    {
        if matches!(command, Command::CreditAccount { .. }) {
            return true;
        }
        match self.engine.touched_account(command) {
            Some(account) => self.engine.ledger().check_claim_coverage_for(account).is_ok(),
            None => true,
        }
    }

    /// A log entry was offered to the logger.
    pub fn entry_offered(&mut self, taken: bool)
        ensures
            final(self).same_engine(old(self)),
            final(self).sent() == old(self).sent().after_entry(taken),
    {
        self.handoff.entry_offered(taken);
    }

    /// An event was offered to the publisher.
    pub fn event_offered(&mut self, taken: bool)
        ensures
            final(self).same_engine(old(self)),
            final(self).sent() == old(self).sent().after_event(taken),
    {
        self.handoff.event_offered(taken);
    }

    /// Every command sender is gone.
    pub fn commands_closed(&mut self)
        ensures
            final(self).same_engine(old(self)),
            final(self).sent() == old(self).sent().after_closing(),
    {
        self.handoff.commands_closed();
    }

    /// The round's results, once it has ended; `log` is what the logger collected.
    pub fn finish(self, log: Vec<LogEntry>) -> (r: RoundOutcome)
        ensures
            r.engine@ == self.state(),
            self.wf() ==> r.engine.wf(),
            r.log == log,
            r.coverage_checks == self.position(),
            r.events_dropped == self.sent().dropped,
            r.events_emitted == self.sent().emitted,
            r.halted == (match self.sent().halted {
                Some(reason) => reason,
                None => HaltReason::ChannelClosed,
            }),
    {
        let halted = match self.handoff.halted {
            Some(reason) => reason,
            None => HaltReason::ChannelClosed,
        };
        RoundOutcome {
            engine: self.engine,
            log,
            coverage_checks: self.sequence,
            events_dropped: self.handoff.dropped,
            events_emitted: self.handoff.emitted,
            halted,
        }
    }
}

/// Replay a command log through a fresh engine.
///
/// Each entry is applied at **its recorded instant**. Time is an input to the state machine, so
/// replaying against a different clock replays a different history.
pub fn replay(config: Config, log: &[LogEntry], event_buffer: usize) -> (r: Result<
    Engine,
    ConfigError,
>)
    ensures
        match config.refusal() {
            Some(error) => r == Err::<Engine, ConfigError>(error),
            None => {
                &&& r is Ok
                &&& r->Ok_0.wf()
                &&& r->Ok_0@ == replayed(config, log@, event_buffer as nat, log@.len())
            },
        },
{
    let mut round = match Round::new(config, event_buffer) {
        Ok(round) => round,
        Err(error) => {
            return Err(error);
        },
    };
    let n: usize = log.len();
    let mut k: usize = 0;
    while k < n
        invariant
            k <= n == log@.len(),
            round.wf(),
            round.room() == event_buffer,
            round.state() == replayed(config, log@, event_buffer as nat, k as nat),
        decreases n - k,
    {
        let entry = log[k];
        let _ = round.step(entry.command, entry.at);
        k += 1;
    }
    Ok(round.into_engine())
}

/// **Each command is logged in the next position, at the instant it was applied at, with what the
/// engine made of it**, and what it emitted is numbered in turn, whether it was accepted or not.
pub proof fn a_step_is_logged_as_it_went(command: Command, now: Ts, r: (LogEntry, Vec<SequencedEvent>))
    ensures
        forall|round: &mut Round| #[trigger]
            call_ensures(Round::step, (round, command, now), r) && (*round).position()
                < 0xffff_ffff_ffff_ffff ==> {
                let emitted = (*round).state().emitted(command, now, (*round).room());
                let next = (*round).sent().next;
                &&& final(round).state() == (*round).state().after(command, now, (*round).room())
                &&& final(round).position() == (*round).position() + 1
                &&& r.0.sequence == (*round).position()
                &&& r.0.at == now
                &&& r.0.command == command
                &&& r.0.outcome == (*round).state().outcome(command, now, (*round).room())
                &&& r.1@.len() == emitted.len()
                &&& forall|k: int|
                    0 <= k < emitted.len() ==> (#[trigger] r.1@[k]).event == emitted[k]
                &&& next + emitted.len() <= 0xffff_ffff_ffff_ffff ==> forall|k: int|
                    0 <= k < emitted.len() ==> (#[trigger] r.1@[k]).sequence == next + k
            },
{
}

/// **A round leaves behind what it counted**: as many coverage checks as commands, what was handed over
/// and what was dropped, the log it was given, and why it ended.
pub proof fn a_round_leaves_what_it_counted(round: Round, log: Vec<LogEntry>, r: RoundOutcome)
    requires
        call_ensures(Round::finish, (round, log), r),
    ensures
        r.engine@ == round.state(),
        r.log == log,
        r.coverage_checks == round.position(),
        r.events_emitted == round.sent().emitted,
        r.events_dropped == round.sent().dropped,
        round.sent().halted is Some ==> r.halted == round.sent().halted->0,
        round.sent().halted is None ==> r.halted == HaltReason::ChannelClosed,
{
}

/// **Coverage is asked of the account a command touched, and of no mirror update.**
pub proof fn coverage_is_asked_of_the_account_touched(round: &Round, command: Command, r: bool)
    requires
        call_ensures(Round::coverage_holds, (round, command), r),
    ensures
        command is CreditAccount ==> r,
        command !is CreditAccount ==> match round.state().touched(command) {
            Some(account) => if account.0 < round.state().ledger.accounts.len() {
                let entry = round.state().ledger.accounts[account.0 as int];
                r <==> entry.reserved.0 + entry.committed.0 <= entry.free.0
            } else {
                r
            },
            None => r,
        },
{
}

} // verus!
