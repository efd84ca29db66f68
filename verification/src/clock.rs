//! The wall clock, in milliseconds since the Unix epoch.
//!
//! Everything that depends on time takes the time as an argument. The functions
//! that read the clock themselves only pass its reading on.

use vstd::prelude::*;

verus! {

/// Calls `std::time::SystemTime::elapsed` on the Unix epoch: the milliseconds
/// that have passed since, or nothing where the clock stands before the epoch.
/// What the clock shows is not stated.
#[verifier::external_body]
fn since_epoch() -> (millis: Option<u128>) {
    match std::time::UNIX_EPOCH.elapsed() {
        Ok(since) => Some(since.as_millis()),
        Err(_) => None,
    }
}

/// A number of milliseconds, cut to what 64 bits hold.
pub open spec fn clamped(millis: u128) -> u64 {
    if millis > u64::MAX {
        u64::MAX
    } else {
        millis as u64
    }
}

/// Cut a number of milliseconds to what 64 bits hold.
#[verifier::when_used_as_spec(clamped)]
pub fn clamp_ms(millis: u128) -> (ms: u64)
    ensures
        ms == clamped(millis),
{
    if millis > u64::MAX as u128 {
        u64::MAX
    } else {
        millis as u64
    }
}

/// The clock reading for a number of milliseconds since the epoch; a clock that
/// stands before the epoch reads zero.
pub fn reading(millis: Option<u128>) -> (ms: u64)
    ensures
        ms == (match millis {
            Some(millis) => clamped(millis),
            None => 0,
        }),
{
    match millis {
        Some(millis) => clamp_ms(millis),
        None => 0,
    }
}

/// The current time.
pub fn now_ms() -> (ms: u64) {
    reading(since_epoch())
}

/// The time `ttl_ms` after `now_ms`, without overflow.
pub open spec fn later(now_ms: u64, ttl_ms: u128) -> u64 {
    now_ms.saturating_add(clamped(ttl_ms))
}

/// The time `ttl_ms` after `now_ms`, without overflow.
#[verifier::when_used_as_spec(later)]
pub fn expires_at(now_ms: u64, ttl_ms: u128) -> (ms: u64)
    ensures
        ms == later(now_ms, ttl_ms),
{
    now_ms.saturating_add(clamp_ms(ttl_ms))
}

/// Times do not overflow: a number of milliseconds is kept as long as it fits, and a
/// moment a term later is the plain sum as long as that fits; both stop at the largest
/// number otherwise.
pub proof fn law_times_stop_at_the_end(now_ms: u64, ttl_ms: u128)
    ensures
        ttl_ms <= u64::MAX ==> clamped(ttl_ms) == ttl_ms,
        ttl_ms > u64::MAX ==> clamped(ttl_ms) == u64::MAX,
        now_ms + ttl_ms <= u64::MAX ==> later(now_ms, ttl_ms) == now_ms + ttl_ms,
        now_ms + ttl_ms > u64::MAX ==> later(now_ms, ttl_ms) == u64::MAX,
{
}

} // verus!
