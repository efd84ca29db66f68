//! Epoch helpers for frame versions.
//!
//! Ring counters answer "where in this ring did the write land?". An epoch
//! answers "when did this sample claim to be captured?". Keeping that
//! distinction explicit lets semantic layers use frame versions consistently
//! without making the ring itself know about clocks.

use vstd::prelude::*;

use crate::clock;

verus! {

/// A point in time, in milliseconds since the Unix epoch.
#[derive(Clone, Copy, Debug, PartialEq, Eq, Structural, PartialOrd, Ord, Hash)]
pub struct OrbitEpoch {
    unix_ms: u64,
}

impl OrbitEpoch {
    /// The milliseconds of this epoch.
    pub closed spec fn spec_unix_ms(self) -> u64 {
        self.unix_ms
    }

    /// How long before `now` this epoch lies; nothing where it lies after.
    pub open spec fn spec_age_at(self, now: OrbitEpoch) -> u64 {
        if now.spec_unix_ms() > self.spec_unix_ms() {
            (now.spec_unix_ms() - self.spec_unix_ms()) as u64
        } else {
            0
        }
    }

    /// Whether this epoch is at most `max_age_ms` old at `now`.
    pub open spec fn spec_is_fresh_at(self, now: OrbitEpoch, max_age_ms: u128) -> bool {
        self.spec_age_at(now) <= max_age_ms
    }

    pub fn from_unix_ms(unix_ms: u64) -> (epoch: OrbitEpoch)
        ensures
            epoch.spec_unix_ms() == unix_ms,
    {
        OrbitEpoch { unix_ms }
    }

    #[verifier::when_used_as_spec(spec_unix_ms)]
    pub fn as_unix_ms(self) -> (unix_ms: u64)
        ensures
            unix_ms == self.spec_unix_ms(),
    {
        self.unix_ms
    }

    /// The current time.
    pub fn now() -> (epoch: OrbitEpoch) {
        OrbitEpoch { unix_ms: clock::now_ms() }
    }

    /// Milliseconds between this epoch and `now`, saturating at zero.
    #[verifier::when_used_as_spec(spec_age_at)]
    pub fn age_at(self, now: OrbitEpoch) -> (age_ms: u64)
        ensures
            age_ms == self.spec_age_at(now),
    {
        now.unix_ms.saturating_sub(self.unix_ms)
    }

    /// Whether this epoch is at most `max_age_ms` old at `now`.
    #[verifier::when_used_as_spec(spec_is_fresh_at)]
    pub fn is_fresh_at(self, now: OrbitEpoch, max_age_ms: u128) -> (fresh: bool)
        ensures
            fresh == (self.spec_age_at(now) <= max_age_ms),
            fresh == self.spec_is_fresh_at(now, max_age_ms),
    {
        self.age_at(now) as u128 <= max_age_ms
    }
}

/// An age is the plain distance back in time: the milliseconds that have passed, and
/// nothing for an epoch that lies ahead. It grows by one with each millisecond.
pub proof fn law_ages_count_milliseconds(epoch: OrbitEpoch, now: OrbitEpoch, later: OrbitEpoch)
    ensures
        epoch.spec_unix_ms() <= now.spec_unix_ms() ==> epoch.spec_unix_ms() + epoch.spec_age_at(now)
            == now.spec_unix_ms(),
        epoch.spec_unix_ms() >= now.spec_unix_ms() ==> epoch.spec_age_at(now) == 0,
        epoch.spec_unix_ms() <= now.spec_unix_ms() <= later.spec_unix_ms() ==> epoch.spec_age_at(
            later,
        ) - epoch.spec_age_at(now) == later.spec_unix_ms() - now.spec_unix_ms(),
{
}

/// An epoch is fresh up to and including the millisecond in which it reaches the allowed
/// age, and one that lies ahead is always fresh.
pub proof fn law_epochs_are_fresh_up_to_their_age(epoch: OrbitEpoch, now: OrbitEpoch, max_age_ms: u128)
    ensures
        epoch.spec_is_fresh_at(now, max_age_ms) <==> now.spec_unix_ms() - epoch.spec_unix_ms()
            <= max_age_ms,
{
}

} // verus!
