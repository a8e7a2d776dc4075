//! The cached clock: the present instant as it was last read, kept so that
//! asking for it costs nothing.

use crate::calendar::{utc_now_seconds, MAX_INSTANT};
use vstd::prelude::*;

verus! {

/// The instant that a reading of the clock stands for: the reading itself
/// where it lies between the epoch and the last instant reckoned with, and
/// the nearer of the two where it does not.
pub open spec fn clamped(seconds: i64) -> u64 {
    if seconds < 0 {
        0
    } else if seconds > MAX_INSTANT {
        MAX_INSTANT
    } else {
        seconds as u64
    }
}

/// The clock as it was last read, in seconds since the epoch, UTC.
#[derive(Clone, Copy, Debug)]
pub struct CachedClock {
    now: u64,
}

impl View for CachedClock {
    type V = u64;

    closed spec fn view(&self) -> u64 {
        self.now
    }
}

impl CachedClock {
    #[verifier::type_invariant]
    spec fn in_range(self) -> bool {
        self.now <= MAX_INSTANT
    }

    /// A clock that shows the reading `seconds`.
    pub fn at(seconds: i64) -> (clock: CachedClock)
        ensures
            clock@ == clamped(seconds),
    {
        let mut clock = CachedClock { now: 0 };
        clock.set(seconds);
        clock
    }

    /// Takes the reading `seconds` for the present instant.
    pub fn set(&mut self, seconds: i64)
        ensures
            final(self)@ == clamped(seconds),
    {
        if seconds < 0 {
            self.now = 0;
        } else if seconds as u64 > MAX_INSTANT {
            self.now = MAX_INSTANT;
        } else {
            self.now = seconds as u64;
        }
    }
}

/// A clock that shows the instant at which it was made, whatever that is:
/// an instant between the epoch and the last that is reckoned with.
pub fn init() -> (clock: CachedClock)
    ensures
        clock@ <= MAX_INSTANT,
{
    CachedClock::at(utc_now_seconds())
}

/// The instant that the clock shows: the present as it was last read.
pub fn get_cached_timestamp(clock: &CachedClock) -> (now: u64)
    ensures
        now == clock@,
        now <= MAX_INSTANT,
{
    proof {
        use_type_invariant(clock);
    }
    clock.now
}

/// Reads the present instant into the clock, whatever it is: an instant
/// between the epoch and the last that is reckoned with.
pub fn update_cached_timestamp(clock: &mut CachedClock)
    ensures
        final(clock)@ <= MAX_INSTANT,
{
    clock.set(utc_now_seconds());
}

} // verus!
