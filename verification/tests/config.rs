use rfq::config::{Config, ConfigError, MAX_LEGS, MAX_QUOTES_PER_LEG};
use rfq::engine::Engine;
use rfq::types::Dur;

#[test]
fn the_default_configuration_starts() {
    assert_eq!(Config::default().validate(), Ok(()));
    assert!(Engine::new(Config::default()).is_ok());
}

#[test]
fn a_lag_term_alone_can_violate_the_four_term_timelock_inequality() {

    let base =
        Config { withdrawal_delay: Dur(40_000), max_quote_ttl: Dur(30_000), ..Config::default() };

    assert_eq!(base.confirmations, 0);
    assert_eq!(base.block_time, Dur(0));
    assert_eq!(base.max_indexer_lag, Dur(0));
    assert_eq!(base.max_settlement_inclusion_time, Dur(0));
    assert_eq!(base.validate(), Ok(()), "the two-term form is satisfied");

    let confirmation_lag = Config { confirmations: 12, block_time: Dur(1_000), ..base };
    assert_ne!(confirmation_lag.block_time, Dur(0), "the lag term under test must be non-zero");
    assert_eq!(confirmation_lag.validate(), Err(ConfigError::WithdrawalDelayTooShort));
    assert!(matches!(Engine::new(confirmation_lag), Err(ConfigError::WithdrawalDelayTooShort)));

    let indexer_lag = Config { max_indexer_lag: Dur(15_000), ..base };
    assert_ne!(indexer_lag.max_indexer_lag, Dur(0));
    assert_eq!(indexer_lag.validate(), Err(ConfigError::WithdrawalDelayTooShort));

    let inclusion = Config { max_settlement_inclusion_time: Dur(11_000), ..base };
    assert_ne!(inclusion.max_settlement_inclusion_time, Dur(0));
    assert_eq!(inclusion.validate(), Err(ConfigError::WithdrawalDelayTooShort));

    let exactly_equal = Config {
        confirmations: 3,
        block_time: Dur(1_000),
        max_indexer_lag: Dur(4_000),
        max_settlement_inclusion_time: Dur(3_000),
        ..base
    };
    assert_eq!(exactly_equal.validate(), Err(ConfigError::WithdrawalDelayTooShort));

    let just_enough = Config { withdrawal_delay: Dur(40_001), ..exactly_equal };
    assert_eq!(just_enough.validate(), Ok(()));
}

#[test]
fn a_horizon_that_does_not_cover_request_ttl_plus_settling_time_fails_to_start() {

    let violating = Config {
        max_request_ttl: Dur(300_000),
        max_settling_time: Dur(60_000),
        min_horizon: Dur(360_000),
        ..Config::default()
    };
    assert_eq!(violating.validate(), Err(ConfigError::HorizonTooShort));
    assert!(matches!(Engine::new(violating), Err(ConfigError::HorizonTooShort)));

    let shorter_still = Config { min_horizon: Dur(1_000), ..violating };
    assert_eq!(shorter_still.validate(), Err(ConfigError::HorizonTooShort));

    let just_enough = Config { min_horizon: Dur(360_001), ..violating };
    assert_eq!(just_enough.validate(), Ok(()));
}

#[test]
fn config_may_not_exceed_the_compile_time_storage_bounds() {

    let too_many_legs = Config { max_legs: u8::try_from(MAX_LEGS).unwrap() + 1, ..Config::default() };
    assert_eq!(too_many_legs.validate(), Err(ConfigError::MaxLegsExceedsStorage));

    let too_many_quotes = Config {
        max_quotes_per_leg: u8::try_from(MAX_QUOTES_PER_LEG).unwrap() + 1,
        ..Config::default()
    };
    assert_eq!(too_many_quotes.validate(), Err(ConfigError::MaxQuotesPerLegExceedsStorage));

    let at_the_bound = Config {
        max_legs: u8::try_from(MAX_LEGS).unwrap(),
        max_quotes_per_leg: u8::try_from(MAX_QUOTES_PER_LEG).unwrap(),
        ..Config::default()
    };
    assert_eq!(at_the_bound.validate(), Ok(()));
}

#[test]
fn overflowing_terms_are_rejected_rather_than_wrapped() {

    let horizon_overflow =
        Config { max_request_ttl: Dur(u64::MAX), max_settling_time: Dur(1), ..Config::default() };
    assert_eq!(horizon_overflow.validate(), Err(ConfigError::HorizonTermOverflow));

    let timelock_overflow = Config {
        max_quote_ttl: Dur(u64::MAX),
        max_indexer_lag: Dur(1),
        min_horizon: Dur(u64::MAX),
        ..Config::default()
    };
    assert_eq!(timelock_overflow.validate(), Err(ConfigError::TimelockTermOverflow));
}
