use std::time::{Duration, SystemTime, UNIX_EPOCH};
use vstd::prelude::*;
use crate::sprite::error::SpriteGenError;

verus! {

/// std's wall-clock time, carried through as an opaque value.
#[verifier::external_type_specification]
#[verifier::external_body]
pub struct ExSystemTime(SystemTime);

/// How many times an image request is attempted in all.
pub const MAX_RETRIES: u32 = 3;

/// Wait before the second attempt; it doubles for each later one.
pub const BASE_DELAY_MS: u64 = 1000;

/// Errors worth another attempt: rate limiting (429), server errors (5xx)
/// and failed HTTP requests.
pub open spec fn spec_should_retry(err: SpriteGenError) -> bool {
    match err {
        SpriteGenError::Api { status, .. } => status == 429 || status >= 500,
        SpriteGenError::Http(_) => true,
        _ => false,
    }
}

pub fn should_retry(err: &SpriteGenError) -> (r: bool)
    ensures
        r == spec_should_retry(*err),
{
    match err {
        SpriteGenError::Api { status, .. } => *status == 429 || *status >= 500,
        SpriteGenError::Http(_) => true,
        _ => false,
    }
}

/// 2 to the power `n`.
pub open spec fn exp2(n: nat) -> nat
    decreases n,
{
    if n == 0 { 1 } else { 2 * exp2((n - 1) as nat) }
}

/// Wait, before jitter, after failed attempt number `attempt` (from 0).
pub open spec fn spec_backoff_ms(attempt: nat) -> nat {
    (BASE_DELAY_MS as nat) * exp2(attempt)
}

fn backoff_ms(attempt: u32) -> (r: u64)
    requires
        attempt < MAX_RETRIES,
    ensures
        r == spec_backoff_ms(attempt as nat),
{
    proof {
        reveal_with_fuel(exp2, 3);
    }
    let mut d: u64 = BASE_DELAY_MS;
    let mut i: u32 = 0;
    while i < attempt
        invariant
            attempt < MAX_RETRIES,
            i <= attempt,
            d == BASE_DELAY_MS * exp2(i as nat),
            d <= 2000 * i + 1000,
        decreases attempt - i,
    {
        d = d * 2;
        i = i + 1;
    }
    d
}

/// Decision after failed attempt number `attempt` (from 0) ended in `err`:
/// `Some(d)` means wait `d` milliseconds (before jitter) and try again,
/// `None` means give up and report `err`.
pub fn retry_backoff(attempt: u32, err: &SpriteGenError) -> (r: Option<u64>)
    ensures
        r is Some <==> (spec_should_retry(*err) && attempt + 1 < MAX_RETRIES),
        r is Some ==> r->0 == spec_backoff_ms(attempt as nat),
{
    if !should_retry(err) || attempt >= MAX_RETRIES - 1 {
        None
    } else {
        Some(backoff_ms(attempt))
    }
}

/// `SystemTime::now`: the current wall-clock time.
#[verifier::external_body]
fn system_time_now() -> SystemTime {
    SystemTime::now()
}

/// `SystemTime::duration_since` the Unix epoch; a clock set before the
/// epoch (std's error case) gives `None`. Nothing is stated of the
/// duration: it depends on the clock.
#[verifier::external_body]
fn since_unix_epoch(t: &SystemTime) -> Option<Duration> {
    t.duration_since(UNIX_EPOCH).ok()
}

/// `Duration::subsec_nanos`: the fractional part of a second in
/// nanoseconds, which std documents as less than one billion.
#[verifier::external_body]
fn subsec_nanos(d: &Duration) -> (r: u32)
    ensures
        r < 1_000_000_000,
{
    d.subsec_nanos()
}

/// The modulus of the jitter: `max_ms`, or 1 when it is 0.
pub open spec fn jitter_modulus(max_ms: u64) -> u64 {
    if max_ms == 0 { 1 } else { max_ms }
}

/// The jitter that a nanosecond reading gives.
pub open spec fn spec_jitter(nanos: u64, max_ms: u64) -> u64 {
    nanos % jitter_modulus(max_ms)
}

/// Jitter derived from a nanosecond reading.
pub fn jitter_from_nanos(nanos: u64, max_ms: u64) -> (r: u64)
    ensures
        r == spec_jitter(nanos, max_ms),
{
    let m = if max_ms == 0 { 1 } else { max_ms };
    nanos % m
}

/// A pseudo-random jitter below `max_ms` (below 1 when `max_ms` is 0),
/// taken from the sub-second part of the current time.
pub fn rand_jitter(max_ms: u64) -> (r: u64)
    ensures
        r < jitter_modulus(max_ms),
        exists|nanos: u64| nanos < 1_000_000_000 && r == #[trigger] spec_jitter(nanos, max_ms),
{
    let now = system_time_now();
    let nanos: u64 = match since_unix_epoch(&now) {
        Some(d) => subsec_nanos(&d) as u64,
        None => 0,
    };
    jitter_from_nanos(nanos, max_ms)
}

/// The full wait after a backoff of `base` ms: `base` plus a jitter below a
/// quarter of it, taken from the clock's nanosecond reading. Which reading
/// comes is up to the clock, so any jitter in range, 0 included, can come.
pub fn retry_delay_ms(base: u64) -> (r: u64)
    requires
        base + base / 4 <= u64::MAX,
    ensures
        base <= r < base + jitter_modulus(base / 4),
        exists|nanos: u64| nanos < 1_000_000_000 && r == base + #[trigger] spec_jitter(nanos, base / 4),
{
    let jitter = rand_jitter(base / 4);
    base + jitter
}

} // verus!
