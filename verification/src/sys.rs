//! Trusted bridges to the system clock and the UUID generator.
//!
//! Everything here either reads the wall clock or draws randomness, so
//! no contract can pin the values down; the contracts state only the
//! shape facts the standard library and the `uuid` crate document.

use vstd::prelude::*;

verus! {

#[verifier::external_type_specification]
#[verifier::external_body]
pub struct ExSystemTime(std::time::SystemTime);

/// Whole seconds of a `Duration`, as `Duration::as_secs` reads them.
pub uninterp spec fn duration_secs(d: core::time::Duration) -> u64;

/// Subsecond nanoseconds of a `Duration`, as `Duration::subsec_nanos`
/// reads them; always below one billion.
pub uninterp spec fn duration_nanos(d: core::time::Duration) -> u32;

pub assume_specification[ core::time::Duration::new ](secs: u64, nanos: u32) -> (r:
    core::time::Duration)
    requires
        nanos < 1_000_000_000,
    ensures
        duration_secs(r) == secs,
        duration_nanos(r) == nanos,
;

pub assume_specification[ core::time::Duration::from_secs ](secs: u64) -> (r:
    core::time::Duration)
    ensures
        duration_secs(r) == secs,
        duration_nanos(r) == 0,
;

pub assume_specification[ core::time::Duration::as_secs ](d: &core::time::Duration) -> (r: u64)
    ensures
        r == duration_secs(*d),
;

pub assume_specification[ core::time::Duration::subsec_nanos ](d: &core::time::Duration) -> (r:
    u32)
    ensures
        r == duration_nanos(*d),
        r < 1_000_000_000,
;

/// Relies on `SystemTime::now`, `SystemTime::duration_since` against
/// `UNIX_EPOCH`, and `Duration::{as_secs, subsec_nanos}`: the wall clock
/// as whole seconds and subsecond nanoseconds since the Unix epoch. A
/// clock before the epoch reads as zero.
#[verifier::external_body]
pub fn clock_now() -> (r: (u64, u32))
    ensures
        r.1 < 1_000_000_000,
{
    match std::time::SystemTime::now().duration_since(std::time::UNIX_EPOCH) {
        Ok(d) => (d.as_secs(), d.subsec_nanos()),
        Err(_) => (0, 0),
    }
}

/// Relies on `SystemTime::duration_since` against `UNIX_EPOCH`: the
/// seconds and subsecond nanoseconds a time lies after the epoch. A time
/// before the epoch reads as zero.
#[verifier::external_body]
pub fn time_since_epoch(t: std::time::SystemTime) -> (r: (u64, u32))
    ensures
        r.1 < 1_000_000_000,
{
    match t.duration_since(std::time::UNIX_EPOCH) {
        Ok(d) => (d.as_secs(), d.subsec_nanos()),
        Err(_) => (0, 0),
    }
}

/// Relies on `SystemTime::checked_add` over `UNIX_EPOCH` and
/// `Duration::new`: the time the given span after the epoch. A span the
/// platform cannot represent reads back as the epoch itself.
#[verifier::external_body]
pub fn time_from_epoch(secs: u64, nanos: u32) -> std::time::SystemTime
    requires
        nanos < 1_000_000_000,
{
    match std::time::UNIX_EPOCH.checked_add(core::time::Duration::new(secs, nanos)) {
        Some(t) => t,
        None => std::time::UNIX_EPOCH,
    }
}

/// The wall clock in whole microseconds since the Unix epoch, saturated
/// at `u64::MAX`.
pub fn now_micros() -> u64 {
    let (secs, nanos) = clock_now();
    if secs > 18_000_000_000_000 {
        return u64::MAX;
    }
    secs * 1_000_000 + (nanos / 1_000) as u64
}

/// Relies on `uuid::Uuid::new_v4` and `Uuid::as_u128`: a fresh random
/// 128-bit value. Nothing can be promised of a random draw.
#[verifier::external_body]
pub fn random_u128() -> u128 {
    uuid::Uuid::new_v4().as_u128()
}

/// Relies on `uuid::Uuid::new_v4` and its `Display` form: a fresh
/// version-4 UUID in the 36-character hyphenated form.
#[verifier::external_body]
pub fn generate_uuid() -> (r: String)
    ensures
        r@.len() == 36,
{
    uuid::Uuid::new_v4().to_string()
}

/// A fresh random request id in UUID form.
pub fn generate_request_id() -> (r: String)
    ensures
        r@.len() == 36,
{
    generate_uuid()
}

} // verus!
