//! Clock authority.
//!
//! A monotonic clock owned by the venue and injected as a trait. There are **two** clocks in the
//! system, not one: the venue's and custody's. Custody is a separate system and holds its own
//! instance, sampled once per settlement transaction. The divergence between venue time and
//! chain time is a real property the design must expose. Neither clock can read the other; only
//! the harness advances both.

use crate::types::{Dur, Ts};
use vstd::prelude::*;

verus! {

/// A source of the current time, in milliseconds.
///
/// A command samples this **once**, at the call site, and every predicate evaluated during the
/// command uses that one value. The engine therefore does not hold a clock at all: the runtime
/// samples it and passes the value in, which makes re-reading mid-command impossible rather than
/// merely forbidden.
pub trait Clock {
    /// Whether this clock may read `now`.
    spec fn may_read(&self, now: Ts) -> bool;

    /// The current time.
    fn now(&self) -> (r: Ts)
        ensures
            self.may_read(r),
    ;
}

/// A clock that can be moved by hand.
pub trait SettableClock: Clock {
    /// Move the clock to `now`, which may not lie behind any instant it could read.
    fn set_now(&mut self, now: Ts)
        requires
            forall|t: Ts| old(self).may_read(t) ==> t.0 <= now.0,
        ensures
            forall|t: Ts| final(self).may_read(t) <==> t == now,
    ;
}

/// A clock that stands still until it is moved by hand. It reads no wall clock.
#[derive(Clone, Copy, Debug, PartialEq, Eq, Structural)]
pub struct TestClock {
    /// What it reads.
    pub now: Ts,
}

impl Default for TestClock {
    fn default() -> (r: Self)
        ensures
            r.now == Ts(0),
    {
        TestClock { now: Ts(0) }
    }
}

impl TestClock {
    /// A clock reading `now`.
    pub fn at(now: Ts) -> (r: Self)
        ensures
            r.now == now,
    {
        TestClock { now }
    }

    /// Move the clock forward by `duration`, clamped at the end of time.
    pub fn advance(&mut self, duration: Dur)
        ensures
            final(self).now.0 == (if old(self).now.0 + duration.0 <= u64::MAX {
                old(self).now.0 + duration.0
            } else {
                u64::MAX as int
            }),
    {
        self.now = self.now.saturating_add(duration);
    }

    /// Move the clock to `now`. A clock does not run backwards.
    pub fn set(&mut self, now: Ts)
        requires
            now.0 >= old(self).now.0,
        ensures
            final(self).now == now,
    {
        self.now = now;
    }
}

impl Clock for TestClock {
    open spec fn may_read(&self, now: Ts) -> bool {
        now == self.now
    }

    fn now(&self) -> (r: Ts) {
        self.now
    }
}

impl SettableClock for TestClock {
    fn set_now(&mut self, now: Ts) {
        proof {
            assert(self.may_read(self.now));
        }
        self.set(now);
    }
}

/// **A clock moves by exactly what it is moved by**, and no further than the end of time.
pub proof fn a_clock_moves_as_it_is_told(length: Dur, now: Ts)
    ensures
        forall|clock: &mut TestClock| #[trigger]
            call_ensures(TestClock::advance, (clock, length), ()) ==> if (*clock).now.0 + length.0
                <= 0xffff_ffff_ffff_ffff {
                final(clock).now.0 == (*clock).now.0 + length.0
            } else {
                final(clock).now.0 == 0xffff_ffff_ffff_ffff
            },
        forall|clock: &mut TestClock| #[trigger]
            call_ensures(TestClock::set, (clock, now), ()) ==> final(clock).now == now,
{
}

} // verus!
