use rfq::clock::TestClock;
use rfq::config::{Config, ConfigError};
use rfq::types::{Dur, Ts};
use rfq::runtime::harness::Harness;

fn harness() -> Harness<TestClock, TestClock> {
    Harness::new(Config::default(), TestClock::at(Ts(0)), TestClock::at(Ts(0)), TestClock::at(Ts(0))).unwrap()
}

#[test]
fn the_two_clocks_advance_independently() {
    let mut harness = harness();
    assert_eq!(harness.engine_now(), Ts(0));
    assert_eq!(harness.custody_now(), Ts(0));

    harness.engine_clock_mut().advance(Dur(1_000));
    assert_eq!(harness.engine_now(), Ts(1_000));
    assert_eq!(harness.custody_now(), Ts(0), "advancing venue time must not move chain time");

    harness.custody_clock_mut().advance(Dur(2_500));
    assert_eq!(harness.custody_now(), Ts(2_500));
    assert_eq!(harness.engine_now(), Ts(1_000), "advancing chain time must not move venue time");

    assert_ne!(harness.engine_now(), harness.custody_now());
}

#[test]
fn custody_can_run_ahead_of_the_venue() {

    let mut harness = harness();
    harness.engine_clock_mut().advance(Dur(5_000));
    harness.custody_clock_mut().advance(Dur(8_000));

    assert!(harness.custody_now() > harness.engine_now());
    assert_eq!(harness.custody_now().saturating_sub(harness.engine_now()), Dur(3_000));
}

#[test]
fn the_harness_refuses_to_start_on_a_configuration_that_fails_its_assertions() {

    let violating = Config {
        withdrawal_delay: Dur(40_000),
        max_quote_ttl: Dur(30_000),
        max_indexer_lag: Dur(15_000),
        ..Config::default()
    };
    assert_ne!(violating.max_indexer_lag, Dur(0), "the lag term under test must be non-zero");

    let refused = Harness::new(violating, TestClock::at(Ts(0)), TestClock::at(Ts(0)), TestClock::at(Ts(0)));
    assert!(matches!(refused, Err(ConfigError::WithdrawalDelayTooShort)));

    let short_horizon = Config { min_horizon: Dur(1_000), ..Config::default() };
    let refused = Harness::new(short_horizon, TestClock::at(Ts(0)), TestClock::at(Ts(0)), TestClock::at(Ts(0)));
    assert!(matches!(refused, Err(ConfigError::HorizonTooShort)));
}

#[test]
fn custody_holds_its_own_clock_instance() {

    let mut harness =
        Harness::new(Config::default(), TestClock::at(Ts(100)), TestClock::at(Ts(7)), TestClock::at(Ts(7))).unwrap();
    assert_eq!(harness.engine_now(), Ts(100));
    assert_eq!(harness.custody_now(), Ts(7));
    assert_eq!(harness.custody().now(), Ts(7));

    harness.custody_clock_mut().set(Ts(9));
    assert_eq!(harness.custody().now(), Ts(9));
    assert_eq!(harness.engine_now(), Ts(100));
}
