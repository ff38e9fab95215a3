use rfq::account::AccountIdx;
use rfq::command::{Command, LegSpec};
use rfq::config::{Config, MAX_LEGS};
use rfq::contract::ContractIdx;
use rfq::runtime::handoff::HaltReason;
use rfq::runtime::venue::{replay, LogEntry, Round, RoundOutcome, RuntimeCapacities};
use rfq::types::{Amount, Price, Side, Size, Ts};

const CLIENTS: u32 = 4;
const COMMANDS_PER_CLIENT: u32 = 24;
const FUNDING: u64 = 1_000_000;
const CONTRACT: ContractIdx = ContractIdx(0);
const EVENT_DATE: Ts = Ts(100_000_000);

fn config() -> Config {
    Config {
        max_accounts: CLIENTS,
        max_reservations: 128,
        max_requests: 128,
        max_quotes: 128,
        max_contracts: 4,
        ..Config::default()
    }
}

fn capacities() -> RuntimeCapacities {
    RuntimeCapacities { command_channel: 2, event_ring: 256, event_buffer: 64, command_log: 256 }
}

/// The commands one client submits: a mirror update, then requests with varying deadlines, and
/// one guaranteed rejection in every eighth slot.
fn client_commands(client: u32) -> Vec<Command> {
    let account = AccountIdx(client);
    let mut commands = Vec::with_capacity(COMMANDS_PER_CLIENT as usize);
    commands.push(Command::CreditAccount { account, free: Amount(FUNDING) });
    for step in 1..COMMANDS_PER_CLIENT {
        let mut legs = [LegSpec::default(); MAX_LEGS];
        let deadline = Ts(1_000 + 30 + u64::from(step % 7) * 3);
        let (size, limit) = if step % 8 == 7 {
            (Size(FUNDING * 10), Price(1_000))
        } else {
            (Size(u64::from(step % 7) + 1), Price(1_000))
        };
        legs[0] = LegSpec { contract: CONTRACT, side: Side::Yes, size, limit };
        commands.push(Command::SubmitRequest { requester: account, deadline, legs, n_legs: 1 });
    }
    commands
}

/// One interleaving of the clients' commands, each client's own in order.
fn interleaved(seed: u64) -> Vec<Command> {
    let mut queues: Vec<Vec<Command>> = (0..CLIENTS)
        .map(|client| {
            let mut commands = client_commands(client);
            commands.reverse();
            commands
        })
        .collect();
    let mut commands =
        vec![Command::RegisterContract { contract: CONTRACT, event_date: EVENT_DATE }];
    let mut state = seed;
    loop {
        let waiting: Vec<usize> =
            (0..queues.len()).filter(|client| !queues[*client].is_empty()).collect();
        if waiting.is_empty() {
            return commands;
        }
        state = state.wrapping_mul(6_364_136_223_846_793_005).wrapping_add(1_442_695_040_888_963);
        let client = waiting[(state >> 33) as usize % waiting.len()];
        commands.push(queues[client].pop().unwrap());
    }
}

fn client_of(entry: &LogEntry) -> Option<u32> {
    match entry.command {
        Command::CreditAccount { account, .. } => Some(account.0),
        Command::SubmitRequest { requester, .. } => Some(requester.0),
        _ => None,
    }
}

/// Apply `commands` at one tick each from 1_000 on; the publisher takes events where it lives.
fn round(commands: Vec<Command>, publishing: bool) -> RoundOutcome {
    let mut round = Round::new(config(), capacities().event_buffer).unwrap();
    let mut log: Vec<LogEntry> = Vec::new();
    for (tick, command) in commands.into_iter().enumerate() {
        let (entry, events) = round.step(command, Ts(1_000 + tick as u64));
        log.push(entry);
        round.entry_offered(true);
        for _ in events {
            round.event_offered(publishing);
        }
        assert!(round.coverage_holds(command));
    }
    round.commands_closed();
    round.finish(log)
}

#[test]
fn any_interleaving_is_logged_in_order_and_replays_exactly() {
    for seed in 0..20 {
        let RoundOutcome { engine, log, coverage_checks, events_dropped, events_emitted, halted } =
            round(interleaved(seed), true);
        assert_eq!(halted, HaltReason::ChannelClosed);
        assert_eq!(events_dropped, 0);

        let expected = (CLIENTS * COMMANDS_PER_CLIENT) as usize + 1;
        assert_eq!(log.len(), expected);
        for (position, entry) in log.iter().enumerate() {
            assert_eq!(entry.sequence, position as u64);
        }
        for client in 0..CLIENTS {
            let seen: Vec<Command> = log
                .iter()
                .filter(|entry| client_of(entry) == Some(client))
                .map(|entry| entry.command)
                .collect();
            assert_eq!(seen, client_commands(client));
        }

        let replayed = replay(config(), &log, capacities().event_buffer).unwrap();
        assert!(replayed == engine, "seed {seed}: the log did not reproduce the engine");
        assert_eq!(coverage_checks, expected as u64);
        assert_eq!(engine.ledger().check_claim_coverage(), Ok(()));

        let rejected = log.iter().filter(|entry| entry.outcome.is_err()).count();
        assert!(rejected >= CLIENTS as usize);
        let claims_made = log
            .iter()
            .filter(|entry| {
                entry.outcome.is_ok() && matches!(entry.command, Command::SubmitRequest { .. })
            })
            .count();
        assert!(claims_made > 0);
        assert!((engine.ledger().reservation_count() as usize) < claims_made);
        assert!(events_emitted >= claims_made as u64);
    }
}

#[test]
fn the_engine_keeps_applying_after_the_publisher_dies() {
    let outcome = round(interleaved(0), false);
    assert_eq!(
        outcome.log.len(),
        (CLIENTS * COMMANDS_PER_CLIENT) as usize + 1,
        "the engine stopped when the publisher did"
    );
    assert_eq!(outcome.coverage_checks, outcome.log.len() as u64);
    assert_eq!(outcome.events_emitted, 0);
    assert!(outcome.events_dropped > 0);
}

#[test]
fn a_rejected_command_still_normalises_so_the_log_must_keep_it() {
    let request = |size: u64, deadline: u64| {
        let mut legs = [LegSpec::default(); MAX_LEGS];
        legs[0] =
            LegSpec { contract: CONTRACT, side: Side::Yes, size: Size(size), limit: Price(1) };
        Command::SubmitRequest {
            requester: AccountIdx(0),
            deadline: Ts(deadline),
            legs,
            n_legs: 1,
        }
    };

    let mut round = Round::new(config(), capacities().event_buffer).unwrap();
    let mut log: Vec<LogEntry> = Vec::new();
    let commands = [
        Command::RegisterContract { contract: CONTRACT, event_date: EVENT_DATE },
        Command::CreditAccount { account: AccountIdx(0), free: Amount(100) },
        request(100, 3),
        request(1_000, 20),
        Command::CreditAccount { account: AccountIdx(1), free: Amount(1) },
    ];
    for (tick, command) in commands.into_iter().enumerate() {
        let (entry, _) = round.step(command, Ts(tick as u64));
        assert_eq!(entry.sequence, tick as u64);
        log.push(entry);
    }
    let engine = round.into_engine();

    assert_eq!(log.len(), 5, "the rejected command must be in the log");
    assert!(log[3].outcome.is_err(), "1_000 is more than the account holds");

    assert_eq!(engine.ledger().reservation_count(), 0);
    assert_eq!(engine.ledger().account(AccountIdx(0)).unwrap().reserved(), Amount(0));

    let replayed = replay(config(), &log, capacities().event_buffer).unwrap();
    assert!(replayed == engine);

    let pruned: Vec<LogEntry> =
        log.iter().copied().filter(|entry| entry.outcome.is_ok()).collect();
    assert_eq!(pruned.len(), 4);
    let from_pruned = replay(config(), &pruned, capacities().event_buffer).unwrap();
    assert_eq!(
        from_pruned.ledger().reservation_count(),
        1,
        "without the rejected command nothing ever normalises account 0 again"
    );
    assert!(
        from_pruned != engine,
        "a log that kept only accepted commands replayed to the same state"
    );
}
