//! The wall clock, in milliseconds since the Unix epoch.
use std::time::{Duration, SystemTime, UNIX_EPOCH};
use vstd::prelude::*;

verus! {

/// A reading of the wall clock (`std::time::SystemTime`), held opaque.
#[verifier::external_type_specification]
#[verifier::external_body]
pub struct ExSystemTime(std::time::SystemTime);

/// Calls `SystemTime::now`. Nothing is stated of the result: it is the time.
#[verifier::external_body]
fn system_now() -> (r: SystemTime) {
    SystemTime::now()
}

/// Calls `SystemTime::duration_since` with the Unix epoch: `None` when the
/// time lies before the epoch (the call's error). Nothing is stated of the
/// duration, which the library holds opaque.
#[verifier::external_body]
fn since_epoch(t: &SystemTime) -> (r: Option<Duration>) {
    match t.duration_since(UNIX_EPOCH) {
        Ok(d) => Some(d),
        Err(_) => None,
    }
}

/// Calls `Duration::as_millis`: the whole milliseconds of a duration, which
/// the library holds opaque; nothing is stated of them.
#[verifier::external_body]
fn whole_millis(d: &Duration) -> (r: u128) {
    d.as_millis()
}

/// Milliseconds as `i64`: the low 64 bits, in two's complement.
fn millis_to_i64(ms: u128) -> (r: i64)
    ensures
        r == ms as i64,
{
    ms as i64
}

/// The current time in milliseconds since the Unix epoch, cast to `i64`
/// (the low 64 bits, in two's complement); `None` when the clock reads a
/// time before the epoch. What the clock reads is not stated.
pub fn get_sys_ms() -> (r: Option<i64>) {
    let now = system_now();
    match since_epoch(&now) {
        Some(d) => Some(millis_to_i64(whole_millis(&d))),
        None => None,
    }
}

} // verus!
