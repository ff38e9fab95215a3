//! Injectable configuration, and the two startup assertions.
//!
//! Market structure is configuration, not constants in the source. Storage bounds are the
//! opposite: [`MAX_LEGS`] and [`MAX_QUOTES_PER_LEG`] size fixed arrays and cannot take a
//! runtime value, so the constant bounds storage and the config bounds policy, with the config
//! checked against the constant at startup.

use crate::account::AccountIdx;
use crate::types::Dur;
use vstd::prelude::*;

verus! {

/// Storage bound on legs per request.
///
/// It is also what makes the accept commit phase's event count bounded.
pub const MAX_LEGS: usize = 8;

/// Storage bound on live quotes per leg.
///
/// Together with [`MAX_LEGS`] it bounds the accept commit phase at
/// `MAX_LEGS * MAX_QUOTES_PER_LEG` emitted events, plus one.
pub const MAX_QUOTES_PER_LEG: usize = 16;

/// Venue policy: every value the design leaves open, in one injectable structure.
///
/// Every bound on time here is a [`Dur`], a length of time, never an instant. The lag terms
/// default to zero because custody is in-process; they are settable so that a violating
/// configuration is constructible.
#[derive(Clone, Copy, Debug, PartialEq, Eq, Structural)]
pub struct Config {
    /// Legs a request may carry. Checked against [`MAX_LEGS`].
    pub max_legs: u8,
    /// Live quotes a leg may carry. Checked against [`MAX_QUOTES_PER_LEG`].
    pub max_quotes_per_leg: u8,
    /// Longest lifetime a maker may give a quote. Coupled to `withdrawal_delay` by the
    /// timelock inequality and by nothing else.
    pub max_quote_ttl: Dur,
    /// Longest `deadline - now` a request may ask for.
    pub max_request_ttl: Dur,
    /// A contract may not be traded within this distance of its event date.
    pub min_horizon: Dur,
    /// Longest a request may sit in `Settling` before polling alerts. An alert, never an abort.
    pub max_settling_time: Dur,
    /// How long after the event date a silent oracle must stay silent before the stall exit
    /// admits `Void`.
    pub stall_grace: Dur,
    /// Delay between requesting a withdrawal and executing it. The reason soft reservation is
    /// safe at all.
    pub withdrawal_delay: Dur,
    /// How long a proposed outcome may be contested.
    pub challenge_window: Dur,
    /// The one account that may end a contested resolution.
    pub escalation_authority: AccountIdx,
    /// Accounts the balance mirror is preallocated for. Accounts are never freed.
    pub max_accounts: u32,
    /// Reservation-slab capacity. Exhaustion is a rejection, never a grow.
    pub max_reservations: u32,
    /// Request-slab capacity.
    pub max_requests: u32,
    /// Quote-slab capacity.
    pub max_quotes: u32,
    /// Escrows custody preallocates for. One per filled leg, and they are never freed.
    pub max_escrows: u32,
    /// Contract indices the table is preallocated for. Contracts are never freed.
    pub max_contracts: u32,
    /// Confirmation depth the balance mirror waits for. A count, not a duration: it becomes one
    /// only when multiplied by `block_time`.
    pub confirmations: u32,
    /// Block time, multiplied by `confirmations` to give the mirror's confirmation lag.
    pub block_time: Dur,
    /// Worst-case indexer lag on top of confirmation depth.
    pub max_indexer_lag: Dur,
    /// Worst-case submit-to-final settlement inclusion time.
    pub max_settlement_inclusion_time: Dur,
}

/// A configuration that must not be allowed to start. One variant per cause.
#[derive(Clone, Copy, Debug, PartialEq, Eq, Structural)]
pub enum ConfigError {
    /// `max_legs` exceeds [`MAX_LEGS`].
    MaxLegsExceedsStorage,
    /// `max_quotes_per_leg` exceeds [`MAX_QUOTES_PER_LEG`].
    MaxQuotesPerLegExceedsStorage,
    /// A preallocated capacity is `u32::MAX`, which is reserved as the nil chain link.
    CapacityTooLarge,
    /// `max_request_ttl + max_settling_time` overflows.
    HorizonTermOverflow,
    /// `min_horizon > max_request_ttl + max_settling_time` does not hold.
    HorizonTooShort,
    /// One of the four timelock terms overflows while summing them.
    TimelockTermOverflow,
    /// The four-term withdrawal timelock inequality does not hold.
    WithdrawalDelayTooShort,
}

impl Config {
    /// The latest a request opened now can still be forming escrow.
    pub open spec fn latest_escrow_formation(self) -> int {
        self.max_request_ttl.0 + self.max_settling_time.0
    }

    /// How long the mirror waits for confirmations.
    pub open spec fn confirmation_lag(self) -> int {
        self.block_time.0 * self.confirmations
    }

    /// How long after a quote is admitted capital behind it may still be drawn on.
    pub open spec fn claim_window(self) -> int {
        self.max_quote_ttl.0 + self.confirmation_lag() + self.max_indexer_lag.0
            + self.max_settlement_inclusion_time.0
    }

    /// A preallocated capacity collides with the nil link.
    pub open spec fn oversized(self) -> bool {
        ||| self.max_accounts == u32::MAX
        ||| self.max_reservations == u32::MAX
        ||| self.max_requests == u32::MAX
        ||| self.max_quotes == u32::MAX
        ||| self.max_contracts == u32::MAX
        ||| self.max_escrows == u32::MAX
    }

    /// Why the configuration may not start, if it may not: the first of the causes, in the
    /// order in which [`ConfigError`] lists them.
    pub open spec fn refusal(self) -> Option<ConfigError> {
        if self.max_legs > MAX_LEGS {
            Some(ConfigError::MaxLegsExceedsStorage)
        } else if self.max_quotes_per_leg > MAX_QUOTES_PER_LEG {
            Some(ConfigError::MaxQuotesPerLegExceedsStorage)
        } else if self.oversized() {
            Some(ConfigError::CapacityTooLarge)
        } else if self.latest_escrow_formation() > u64::MAX {
            Some(ConfigError::HorizonTermOverflow)
        } else if self.min_horizon.0 <= self.latest_escrow_formation() {
            Some(ConfigError::HorizonTooShort)
        } else if self.claim_window() > u64::MAX {
            Some(ConfigError::TimelockTermOverflow)
        } else if self.withdrawal_delay.0 <= self.claim_window() {
            Some(ConfigError::WithdrawalDelayTooShort)
        } else {
            None
        }
    }

    /// The two startup assertions, in full, and the storage bounds.
    ///
    /// A configuration that fails this must not start: both inequalities are load-bearing, and
    /// both fail invisibly if merely violated.
    pub fn validate(&self) -> (r: Result<(), ConfigError>)
        ensures
            r == (match self.refusal() {
                Some(error) => Err(error),
                None => Ok(()),
            }),
    {
        if self.max_legs as usize > MAX_LEGS {
            return Err(ConfigError::MaxLegsExceedsStorage);
        }
        if self.max_quotes_per_leg as usize > MAX_QUOTES_PER_LEG {
            return Err(ConfigError::MaxQuotesPerLegExceedsStorage);
        }
        // `u32::MAX` is the nil link threading the intrusive chains, so no slab may be large
        // enough for a real index to collide with it.
        if self.max_accounts == u32::MAX || self.max_reservations == u32::MAX || self.max_requests
            == u32::MAX || self.max_quotes == u32::MAX || self.max_contracts == u32::MAX
            || self.max_escrows == u32::MAX {
            return Err(ConfigError::CapacityTooLarge);
        }
        // A request opened at the last legal instant, accepted at its deadline and settling for
        // the maximum time still forms escrow strictly before the event date.
        match self.max_request_ttl.checked_add(self.max_settling_time) {
            None => {
                return Err(ConfigError::HorizonTermOverflow);
            },
            Some(latest_escrow_formation) => {
                if self.min_horizon.0 <= latest_escrow_formation.0 {
                    return Err(ConfigError::HorizonTooShort);
                }
            },
        }
        proof {
            assert(0 <= self.confirmation_lag()) by (nonlinear_arith)
                requires
                    self.confirmation_lag() == self.block_time.0 * self.confirmations,
                    0 <= self.block_time.0,
                    0 <= self.confirmations,
            ;
        }
        // Every term named: omitting the lag terms lets a maker withdraw out from under a quote
        // that was live when accepted.
        let mirror_confirmation_lag = match self.block_time.checked_mul(self.confirmations) {
            None => {
                return Err(ConfigError::TimelockTermOverflow);
            },
            Some(lag) => lag,
        };
        let confirmed = match self.max_quote_ttl.checked_add(mirror_confirmation_lag) {
            None => {
                return Err(ConfigError::TimelockTermOverflow);
            },
            Some(sum) => sum,
        };
        let indexed = match confirmed.checked_add(self.max_indexer_lag) {
            None => {
                return Err(ConfigError::TimelockTermOverflow);
            },
            Some(sum) => sum,
        };
        let must_exceed = match indexed.checked_add(self.max_settlement_inclusion_time) {
            None => {
                return Err(ConfigError::TimelockTermOverflow);
            },
            Some(sum) => sum,
        };
        if self.withdrawal_delay.0 <= must_exceed.0 {
            return Err(ConfigError::WithdrawalDelayTooShort);
        }
        Ok(())
    }

    /// Seconds-scale quotes, minutes-scale requests, and every lag term zero because custody is
    /// in-process.
    pub open spec fn standard() -> Self {
        Config {
            max_legs: 4,
            max_quotes_per_leg: 8,
            max_quote_ttl: Dur(30_000),
            max_request_ttl: Dur(300_000),
            min_horizon: Dur(3_600_000),
            max_settling_time: Dur(60_000),
            stall_grace: Dur(86_400_000),
            withdrawal_delay: Dur(600_000),
            challenge_window: Dur(7_200_000),
            escalation_authority: AccountIdx(0),
            max_accounts: 256,
            max_reservations: 4_096,
            max_requests: 1_024,
            max_quotes: 4_096,
            max_escrows: 4_096,
            max_contracts: 1_024,
            confirmations: 0,
            block_time: Dur(0),
            max_indexer_lag: Dur(0),
            max_settlement_inclusion_time: Dur(0),
        }
    }
}

impl Default for Config {
    /// These are policy, not derived quantities, chosen to satisfy both startup assertions with
    /// headroom.
    fn default() -> (r: Self)
        ensures
            r == Config::standard(),
            r.refusal() is None,
    {
        proof {
            assert(0u64 * 0u32 == 0);
        }
        Config {
            max_legs: 4,
            max_quotes_per_leg: 8,
            // 30s: a maker round trip plus room to reprice.
            max_quote_ttl: Dur(30_000),
            // 5min: long enough to collect quotes, short enough that the free option a firm
            // quote represents stays cheap.
            max_request_ttl: Dur(300_000),
            // 1h, comfortably above max_request_ttl + max_settling_time = 6min.
            min_horizon: Dur(3_600_000),
            max_settling_time: Dur(60_000),
            // 24h of oracle silence before the stall exit admits Void.
            stall_grace: Dur(86_400_000),
            // 10min, comfortably above max_quote_ttl + 0 + 0 + 0 = 30s.
            withdrawal_delay: Dur(600_000),
            // 2h.
            challenge_window: Dur(7_200_000),
            escalation_authority: AccountIdx(0),
            max_accounts: 256,
            max_reservations: 4_096,
            max_requests: 1_024,
            max_quotes: 4_096,
            max_escrows: 4_096,
            max_contracts: 1_024,
            confirmations: 0,
            block_time: Dur(0),
            max_indexer_lag: Dur(0),
            max_settlement_inclusion_time: Dur(0),
        }
    }
}

/// What the timelock inequality buys: under a configuration that starts, a quote admitted no
/// later than a withdrawal is requested, with the longest lifetime policy allows and whatever
/// lag the configuration admits, is dead strictly before the withdrawal lands.
pub proof fn quotes_die_before_withdrawals_land(config: Config, admitted_at: int, requested_at: int)
    requires
        config.refusal() is None,
        admitted_at <= requested_at,
    ensures
        admitted_at + config.claim_window() < requested_at + config.withdrawal_delay.0,
        admitted_at + config.max_quote_ttl.0 < requested_at + config.withdrawal_delay.0,
{
    assert(0 <= config.confirmation_lag()) by (nonlinear_arith)
        requires
            config.confirmation_lag() == config.block_time.0 * config.confirmations,
            0 <= config.block_time.0,
            0 <= config.confirmations,
    ;
}

/// What a delay longer than a requester's whole claim window buys: a request admitted no later
/// than a withdrawal is requested, accepted by its deadline and settled within the settling time,
/// holds nothing any more when the withdrawal lands. A configuration need not have such a delay.
pub proof fn requests_die_before_withdrawals_land(
    config: Config,
    admitted_at: int,
    deadline: int,
    accepted_at: int,
    settled_at: int,
    requested_at: int,
)
    requires
        config.withdrawal_delay.0 > config.latest_escrow_formation(),
        admitted_at <= requested_at,
        deadline <= admitted_at + config.max_request_ttl.0,
        accepted_at < deadline,
        settled_at <= accepted_at + config.max_settling_time.0,
    ensures
        deadline < requested_at + config.withdrawal_delay.0,
        settled_at < requested_at + config.withdrawal_delay.0,
{
}

/// What the horizon inequality buys: a request admitted outside the horizon, accepted by its
/// deadline and settled within the settling time forms its escrow before the event.
pub proof fn escrow_forms_before_the_event(
    config: Config,
    now: int,
    event_date: int,
    deadline: int,
    accepted_at: int,
    settled_at: int,
)
    requires
        config.refusal() is None,
        now < event_date - config.min_horizon.0,
        deadline <= now + config.max_request_ttl.0,
        accepted_at < deadline,
        settled_at <= accepted_at + config.max_settling_time.0,
    ensures
        settled_at < event_date,
{
}

/// **When a configuration may start**: its legs and quotes fit their storage, no capacity is
/// `4_294_967_295`, the horizon is longer than a request's life and settling time together, and the
/// withdrawal delay longer than a quote's life, the confirmations, the indexer's lag and the time a
/// settlement takes to be included together.
pub proof fn a_configuration_starts_exactly_within_its_bounds(
    config: &Config,
    r: Result<(), ConfigError>,
)
    requires
        call_ensures(Config::validate, (config,), r),
    ensures
        ({
            let fits = config.max_legs <= 8 && config.max_quotes_per_leg <= 16;
            let sized = config.max_accounts < 0xffff_ffff && config.max_reservations < 0xffff_ffff
                && config.max_requests < 0xffff_ffff && config.max_quotes < 0xffff_ffff
                && config.max_contracts < 0xffff_ffff && config.max_escrows < 0xffff_ffff;
            let formed_by = config.max_request_ttl.0 + config.max_settling_time.0;
            let drawn_by = config.max_quote_ttl.0 + config.block_time.0 * config.confirmations
                + config.max_indexer_lag.0 + config.max_settlement_inclusion_time.0;
            &&& r is Ok <==> {
                &&& fits
                &&& sized
                &&& formed_by < config.min_horizon.0
                &&& drawn_by < config.withdrawal_delay.0
            }
            &&& match r {
                Ok(_) => true,
                Err(ConfigError::MaxLegsExceedsStorage) => config.max_legs > 8,
                Err(ConfigError::MaxQuotesPerLegExceedsStorage) => config.max_quotes_per_leg > 16,
                Err(ConfigError::CapacityTooLarge) => !sized,
                Err(ConfigError::HorizonTermOverflow) => formed_by > 0xffff_ffff_ffff_ffff,
                Err(ConfigError::HorizonTooShort) => config.min_horizon.0 <= formed_by
                    <= 0xffff_ffff_ffff_ffff,
                Err(ConfigError::TimelockTermOverflow) => drawn_by > 0xffff_ffff_ffff_ffff,
                Err(ConfigError::WithdrawalDelayTooShort) => config.withdrawal_delay.0 <= drawn_by
                    <= 0xffff_ffff_ffff_ffff,
            }
        }),
{
}

/// **The policy a venue starts with, unless told otherwise**: four legs and eight quotes a leg, quotes
/// of half a minute, requests of five, an hour's horizon, a minute to settle, a day of silence before
/// a contract is void, ten minutes' delay on withdrawals, two hours to contest; and no lag.
pub proof fn the_policy_to_start_with(r: Config)
    requires
        call_ensures(<Config as Default>::default, (), r),
    ensures
        r.max_legs == 4 && r.max_quotes_per_leg == 8,
        r.max_quote_ttl.0 == 30 * 1_000,
        r.max_request_ttl.0 == 5 * 60 * 1_000,
        r.min_horizon.0 == 60 * 60 * 1_000,
        r.max_settling_time.0 == 60 * 1_000,
        r.stall_grace.0 == 24 * 60 * 60 * 1_000,
        r.withdrawal_delay.0 == 10 * 60 * 1_000,
        r.challenge_window.0 == 2 * 60 * 60 * 1_000,
        r.escalation_authority == AccountIdx(0),
        r.max_accounts == 256 && r.max_contracts == 1_024 && r.max_requests == 1_024,
        r.max_reservations == 4_096 && r.max_quotes == 4_096 && r.max_escrows == 4_096,
        r.confirmations == 0 && r.block_time.0 == 0 && r.max_indexer_lag.0 == 0,
        r.max_settlement_inclusion_time.0 == 0,
{
}

} // verus!
