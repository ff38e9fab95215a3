use rfq::command::Command;
use rfq::config::Config;
use rfq::event::Event;
use rfq::runtime::event_ring::SequencedEvent;
use rfq::runtime::gateway::{ContractRef, ContractRegistry, Gateway};
use rfq::runtime::venue::{LogEntry, Round};
use rfq::types::{Amount, Price, Side, Size, Ts};

#[derive(Clone, Debug, PartialEq, Eq)]
struct BroadcastLeg {
    description: Vec<u8>,
    event_date: Ts,
    resolution_source: Vec<u8>,
    side: Side,
    size: Size,
}

#[derive(Debug, Default)]
struct MakerFeed {
    opened: Vec<(Ts, Vec<BroadcastLeg>)>,
    selections: Vec<(u8, Price)>,
    sequences: Vec<u64>,
}

impl MakerFeed {
    fn publish(&mut self, registry: &ContractRegistry, event: SequencedEvent) {
        self.sequences.push(event.sequence);
        match event.event {
            Event::RequestOpened { deadline, legs, n_legs, .. } => {
                let mut broadcast = Vec::new();
                for leg in legs.iter().take(usize::from(n_legs)) {
                    let Some(reference) = registry.describe(leg.contract) else { continue };
                    broadcast.push(BroadcastLeg {
                        description: reference.description.clone(),
                        event_date: reference.event_date,
                        resolution_source: reference.resolution_source.clone(),
                        side: leg.side,
                        size: leg.size,
                    });
                }
                self.opened.push((deadline, broadcast));
            }
            Event::BestSelectionChanged { leg, price, .. } => {
                self.selections.push((leg.0, price));
            }
            _ => {}
        }
    }
}

fn contract(name: &str) -> ContractRef {
    ContractRef {
        description: format!("ECB cuts at the {name} meeting").into_bytes(),
        event_date: Ts(50_000_000),
        resolution_source: b"ECB press release".to_vec(),
    }
}

#[test]
fn a_request_reaches_makers_with_its_wording_its_sides_and_its_sizes_but_no_limits() {
    let config = Config {
        max_accounts: 8,
        max_reservations: 64,
        max_requests: 8,
        max_quotes: 64,
        max_contracts: 8,
        max_legs: 4,
        max_quotes_per_leg: 4,
        ..Config::default()
    };
    let mut gateway = Gateway::new(config.max_accounts, config.max_contracts);
    let mut feed = MakerFeed::default();
    let mut round = Round::new(config, 64).unwrap();

    let legs = vec![
        (contract("September"), Side::Yes, Size(100_000), Price(650_000)),
        (contract("October"), Side::No, Size(100_000), Price(500_000)),
        (contract("November"), Side::Yes, Size(50_000), Price(400_000)),
    ];
    let (registrations, request) =
        gateway.submit_request(b"requester", Ts(100_000), &legs).unwrap();

    let requester = gateway.account(b"requester").unwrap();
    let maker = gateway.account(b"alpha").unwrap();
    let mut commands = vec![
        Command::CreditAccount { account: requester, free: Amount(1_000_000_000_000) },
        Command::CreditAccount { account: maker, free: Amount(1_000_000_000_000) },
    ];
    commands.extend(registrations);
    commands.push(request);

    let mut log: Vec<LogEntry> = Vec::new();
    for (tick, command) in commands.into_iter().enumerate() {
        let (entry, events) = round.step(command, Ts(1_000 + tick as u64));
        log.push(entry);
        round.entry_offered(true);
        for event in events {
            feed.publish(gateway.registry(), event);
            round.event_offered(true);
        }
    }
    round.commands_closed();
    let outcome = round.finish(log);

    assert!(outcome.log.iter().all(|entry| entry.outcome.is_ok()), "{:?}", outcome.log);
    assert!(outcome.events_emitted >= 1, "the engine emitted nothing");
    assert_eq!(outcome.coverage_checks, outcome.log.len() as u64, "coverage ran per command");

    assert_eq!(feed.opened.len(), 1, "exactly one request was announced");
    let (deadline, broadcast) = feed.opened.first().unwrap();
    assert_eq!(*deadline, Ts(100_000));
    assert_eq!(broadcast.len(), 3);

    assert_eq!(broadcast[0].description, b"ECB cuts at the September meeting".to_vec());
    assert_eq!(broadcast[1].description, b"ECB cuts at the October meeting".to_vec());
    assert_eq!(broadcast[2].description, b"ECB cuts at the November meeting".to_vec());
    assert_eq!(broadcast[0].resolution_source, b"ECB press release".to_vec());
    assert_eq!(broadcast[0].event_date, Ts(50_000_000));

    assert_eq!(broadcast[0].side, Side::Yes);
    assert_eq!(broadcast[1].side, Side::No);
    assert_eq!(broadcast[2].side, Side::Yes);
    assert_eq!(broadcast[0].size, Size(100_000));
    assert_eq!(broadcast[2].size, Size(50_000));

    let expected = |name: &str, side, size| BroadcastLeg {
        description: format!("ECB cuts at the {name} meeting").into_bytes(),
        event_date: Ts(50_000_000),
        resolution_source: b"ECB press release".to_vec(),
        side,
        size,
    };
    assert_eq!(
        *broadcast,
        vec![
            expected("September", Side::Yes, Size(100_000)),
            expected("October", Side::No, Size(100_000)),
            expected("November", Side::Yes, Size(50_000)),
        ],
        "the broadcast carries the wording, the sides and the sizes, and nothing else"
    );
}

#[test]
fn the_gateway_resolves_identical_wording_to_one_index_and_a_byte_apart_to_two() {
    let mut gateway = Gateway::new(8, 8);
    let september = contract("September");

    let (first, registration) = gateway.contract(&september).unwrap();
    assert!(registration.is_some(), "the first reference allocates and announces");
    let (again, none) = gateway.contract(&september.clone()).unwrap();
    assert_eq!(first, again, "identical bytes resolve to the same index");
    assert!(none.is_none(), "a known contract needs no second registration");

    let mut typo = september.clone();
    typo.description.push(b'.');
    let (other, registration) = gateway.contract(&typo).unwrap();
    assert_ne!(first, other);
    assert!(registration.is_some());

    let mut other_source = september.clone();
    other_source.resolution_source = b"Reuters".to_vec();
    assert_ne!(gateway.contract(&other_source).unwrap().0, first);

    let mut other_date = september.clone();
    other_date.event_date = Ts(50_000_001);
    assert_ne!(gateway.contract(&other_date).unwrap().0, first);
}
