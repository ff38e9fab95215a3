use rfq::request::{Nonce, RequestState};
use rfq::types::Ts;

const NONCE: Nonce = Nonce { request: 0, generation: 0 };

#[derive(Clone, Copy, Debug, PartialEq, Eq, PartialOrd, Ord)]
struct StateName(&'static str);

const EXPECTED_WITHOUT_EXIT: [StateName; 0] = [];

fn implemented_transitions() -> Vec<(StateName, StateName)> {
    vec![

        (StateName("Request::Open"), StateName("Request::Rejected")),
        (StateName("Request::Open"), StateName("Request::Settling")),

        (StateName("Request::Settling"), StateName("Request::Escrowed")),
        (StateName("Request::Settling"), StateName("Request::SettlementFailed")),

        (StateName("Quote::Active"), StateName("Quote::Consumed")),
        (StateName("Quote::Active"), StateName("Quote::Released")),

    ]
}

fn states() -> Vec<(StateName, bool)> {
    vec![
        (StateName("Request::Open"), RequestState::Open.is_terminal()),
        (StateName("Request::Settling"), RequestState::Settling { nonce: NONCE, deadline: Ts(0) }.is_terminal()),
        (StateName("Request::Escrowed"), RequestState::Escrowed.is_terminal()),
        (StateName("Request::Rejected"), RequestState::Rejected.is_terminal()),
        (StateName("Request::SettlementFailed"), RequestState::SettlementFailed.is_terminal()),
        (StateName("Quote::Active"), false),
        (StateName("Quote::Consumed"), true),
        (StateName("Quote::Released"), true),
    ]
}

#[test]
fn every_non_terminal_state_has_a_reachable_exit() {
    let transitions = implemented_transitions();
    let mut without_exit: Vec<StateName> = states()
        .into_iter()
        .filter(|(_, terminal)| !terminal)
        .map(|(state, _)| state)
        .filter(|state| !transitions.iter().any(|(from, _)| from == state))
        .collect();
    without_exit.sort_unstable();

    let mut expected: Vec<StateName> = EXPECTED_WITHOUT_EXIT.to_vec();
    expected.sort_unstable();

    assert_eq!(
        without_exit, expected,
        "the set of non-terminal states with no reachable exit is not what this stage \
         declares. If a state appeared, a real exit is missing. If one disappeared, tighten EXPECTED_WITHOUT_EXIT."
    );
}

#[test]
fn settling_now_has_both_of_its_exits_and_the_declared_set_is_empty() {

    assert_eq!(EXPECTED_WITHOUT_EXIT.len(), 0, "no state may be left without an exit");
    assert!(!RequestState::Settling { nonce: NONCE, deadline: Ts(0) }.is_terminal());

    let transitions = implemented_transitions();
    let exits: Vec<StateName> = transitions
        .iter()
        .filter(|(from, _)| *from == StateName("Request::Settling"))
        .map(|(_, to)| *to)
        .collect();
    assert_eq!(
        exits,
        vec![StateName("Request::Escrowed"), StateName("Request::SettlementFailed")]
    );
}

#[test]
fn the_two_declared_exceptions_of_spec_15_9_are_still_exactly_two() {

    const DECLARED_EXCEPTIONS: [&str; 2] = [
        "Settling under indefinite Unknown",
        "an escrow whose oracle parks in InProgress",
    ];
    assert_eq!(DECLARED_EXCEPTIONS.len(), 2);

    let transitions = implemented_transitions();
    assert!(
        transitions.iter().any(|(from, _)| *from == StateName("Request::Settling")),
        "the first exception is about when the exit is taken, not whether it exists"
    );
}

#[test]
fn every_terminal_state_really_is_terminal() {

    let transitions = implemented_transitions();
    for (state, terminal) in states() {
        if terminal {
            assert!(
                !transitions.iter().any(|(from, _)| *from == state),
                "{state:?} is terminal but has an outgoing transition"
            );
        }
    }
}
