use std::collections::VecDeque;

use rfq::account::AccountIdx;
use rfq::command::{Command, LegSpec};
use rfq::config::{Config, MAX_LEGS};
use rfq::contract::ContractIdx;
use rfq::runtime::event_ring::SequencedEvent;
use rfq::runtime::handoff::HaltReason;
use rfq::runtime::venue::{LogEntry, Round, RoundOutcome, RuntimeCapacities};
use rfq::types::{Amount, Price, Side, Size, Ts};

const SEPTEMBER: ContractIdx = ContractIdx(0);
const REQUESTER: AccountIdx = AccountIdx(0);

fn config() -> Config {
    Config { max_quotes_per_leg: 4, ..Config::default() }
}

/// A request that emits one `RequestOpened`.
fn request(deadline: u64) -> Command {
    let mut legs = [LegSpec::default(); MAX_LEGS];
    legs[0] = LegSpec {
        contract: SEPTEMBER,
        side: Side::Yes,
        size: Size(100_000),
        limit: Price(650_000),
    };
    Command::SubmitRequest { requester: REQUESTER, deadline: Ts(deadline), legs, n_legs: 1 }
}

/// The setup commands and `count` requests.
fn commands(count: u64) -> Vec<Command> {
    let mut commands = vec![
        Command::RegisterContract { contract: SEPTEMBER, event_date: Ts(10_000_000) },
        Command::CreditAccount { account: REQUESTER, free: Amount(1_000_000_000_000_000) },
    ];
    for index in 0..count {
        commands.push(request(50_000 + index));
    }
    commands
}

/// A queue that holds `capacity` and refuses the newest once it is full.
struct Bounded<T> {
    capacity: usize,
    waiting: VecDeque<T>,
}

impl<T> Bounded<T> {
    fn new(capacity: usize) -> Self {
        Bounded { capacity, waiting: VecDeque::new() }
    }

    fn offer(&mut self, item: T) -> bool {
        if self.waiting.len() < self.capacity {
            self.waiting.push_back(item);
            return true;
        }
        false
    }
}

/// Drive `count` requests through a round whose workers receive after every hand-off, each only
/// where it is alive; the clock moves one tick per command.
fn round_with(
    count: u64,
    capacities: RuntimeCapacities,
    publishing: bool,
    logging: bool,
) -> (RoundOutcome, Vec<u64>) {
    let mut round = Round::new(config(), capacities.event_buffer).unwrap();
    let mut events: Bounded<SequencedEvent> = Bounded::new(capacities.event_ring);
    let mut entries: Bounded<LogEntry> = Bounded::new(capacities.command_log);
    let mut log: Vec<LogEntry> = Vec::new();
    let mut seen: Vec<u64> = Vec::new();
    let mut now = 1_000;
    for command in commands(count) {
        if !round.handoff().may_apply() {
            break;
        }
        let (entry, emitted) = round.step(command, Ts(now));
        now += 1;
        round.entry_offered(entries.offer(entry));
        if logging {
            log.extend(entries.waiting.drain(..));
        }
        for event in emitted {
            round.event_offered(events.offer(event));
            if publishing {
                seen.extend(events.waiting.drain(..).map(|event| event.sequence));
            }
        }
        assert!(round.coverage_holds(command));
    }
    round.commands_closed();
    log.extend(entries.waiting.drain(..));
    (round.finish(log), seen)
}

fn round(count: u64, capacities: RuntimeCapacities) -> (RoundOutcome, Vec<u64>) {
    round_with(count, capacities, true, true)
}

#[test]
fn every_event_crosses_the_boundary_and_arrives_in_order() {
    let (outcome, seen) = round(8, RuntimeCapacities::default());

    assert_eq!(outcome.halted, HaltReason::ChannelClosed, "the round ended normally");
    assert_eq!(outcome.events_dropped, 0, "the publisher never stopped draining");
    assert!(outcome.events_emitted >= 8, "the engine must actually have emitted");
    assert_eq!(
        seen.len() as u64,
        outcome.events_emitted,
        "every accepted event reached the sink"
    );
    assert!(seen.windows(2).all(|pair| pair[0] < pair[1]), "arrival order is send order");
}

#[test]
fn sequence_numbers_are_contiguous_when_nothing_is_refused() {
    let (outcome, seen) = round(8, RuntimeCapacities::default());
    assert_eq!(outcome.events_dropped, 0);

    let expected: Vec<u64> = (0..seen.len() as u64).collect();
    assert_eq!(seen, expected, "no gaps, because nothing was refused");
}

#[test]
fn a_one_slot_event_channel_still_applies_every_command() {
    let capacities = RuntimeCapacities { event_ring: 1, ..RuntimeCapacities::default() };
    let (outcome, _) = round(64, capacities);

    assert_eq!(outcome.halted, HaltReason::ChannelClosed, "a full event queue never halts");
    assert_eq!(outcome.log.len(), 66, "every command was applied: 64 requests + 2 setup");
    assert!(
        outcome.log.iter().all(|entry| entry.outcome.is_ok()),
        "and every one succeeded: a refused event is not a refused command"
    );
    assert_eq!(
        outcome.events_emitted + outcome.events_dropped,
        64,
        "emitted plus refused accounts for every event the engine produced"
    );
    assert_eq!(outcome.events_dropped, 0, "the publisher kept up even at one slot");
}

#[test]
fn the_command_log_is_complete_and_ordered_across_the_handoff() {
    let (outcome, _) = round(16, RuntimeCapacities::default());

    assert_eq!(outcome.log.len(), 18, "16 requests plus the two setup commands");
    let sequences: Vec<u64> = outcome.log.iter().map(|entry| entry.sequence).collect();
    assert_eq!(sequences, (0..18).collect::<Vec<u64>>(), "contiguous and in order");
    assert!(
        outcome.log.windows(2).all(|pair| pair[1].at >= pair[0].at),
        "and the sampled clock never runs backwards"
    );
}

#[test]
fn both_workers_retire_when_the_engine_drops_its_senders() {
    let (outcome, seen) = round(4, RuntimeCapacities::default());
    assert_eq!(outcome.halted, HaltReason::ChannelClosed);
    assert!(!outcome.log.is_empty(), "the logger returned its collection");
    assert!(!seen.is_empty(), "the publisher drained before retiring");
}

#[test]
fn a_stopped_publisher_costs_events_and_nothing_else() {
    let capacities = RuntimeCapacities { event_ring: 3, ..RuntimeCapacities::default() };
    let (outcome, seen) = round_with(8, capacities, false, true);
    assert_eq!(outcome.halted, HaltReason::ChannelClosed);
    assert_eq!(outcome.log.len(), 10);
    assert_eq!(outcome.coverage_checks, 10);
    assert_eq!((outcome.events_emitted, outcome.events_dropped), (3, 5));
    assert!(seen.is_empty());
}

#[test]
fn a_stopped_logger_halts_the_engine() {
    let capacities = RuntimeCapacities { command_log: 4, ..RuntimeCapacities::default() };
    let (outcome, seen) = round_with(8, capacities, true, false);
    assert_eq!(outcome.halted, HaltReason::LogUnrecordable);
    // Four entries were recorded, the fifth was refused, and no sixth command was applied.
    assert_eq!(outcome.log.len(), 4);
    assert_eq!(outcome.coverage_checks, 5);
    assert_eq!(seen, vec![0, 1, 2]);
}
