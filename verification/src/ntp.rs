//! Time in the Q16 format that the feedback reports carry, and the clock
//! that produces it.
use std::time::Duration;
use std::time::Instant;
use vstd::prelude::*;

verus! {

/// Ticks of the Q16 clock in one second.
pub const NTP_PER_SEC: u64 = 65536;

/// Nanoseconds in one second.
pub const NANOS_PER_SEC: u64 = 1_000_000_000;

/// The number of ticks from `then` to `now` on a clock that wraps at 2^32.
pub open spec fn ticks_since(now: u32, then: u32) -> int {
    (now - then) % 0x1_0000_0000
}

/// The timestamp of a clock that has run for `secs` whole seconds and `nanos`
/// nanoseconds: the elapsed time in units of 1/65536 s, rounded down, modulo 2^32.
pub open spec fn ntp_of_elapsed(secs: u64, nanos: u32) -> int {
    (secs * 65536 + (nanos * 65536) / 1_000_000_000) % 0x1_0000_0000
}

/// Elapsed ticks between two timestamps, correct across the wrap of the clock.
pub fn elapsed(now: u32, then: u32) -> (d: u32)
    ensures
        d == ticks_since(now, then),
{
    let d: u32 = now.wrapping_sub(then);
    assert(d == (now - then) % 0x1_0000_0000) by {
        if now >= then {
            assert((now - then) % 0x1_0000_0000 == now - then);
        } else {
            assert((now - then) % 0x1_0000_0000 == now - then + 0x1_0000_0000);
        }
    }
    d
}

/// Converts an elapsed time to a Q16 timestamp.
pub fn ntp_from_elapsed(secs: u64, nanos: u32) -> (t: u32)
    ensures
        t == ntp_of_elapsed(secs, nanos),
{
    let whole: u64 = (secs % 65536) * NTP_PER_SEC;
    let frac: u64 = (nanos as u64 * NTP_PER_SEC) / NANOS_PER_SEC;
    let sum: u64 = whole + frac;
    let t: u64 = sum % 0x1_0000_0000;
    assert(t == ntp_of_elapsed(secs, nanos)) by {
        let hi: int = secs as int / 65536;
        let lo: int = secs as int % 65536;
        assert(secs * 65536 == hi * 0x1_0000_0000 + lo * 65536) by (nonlinear_arith)
            requires
                hi == secs as int / 65536,
                lo == secs as int % 65536,
        ;
        vstd::arithmetic::div_mod::lemma_mod_multiples_vanish(hi, lo * 65536 + frac as int, 0x1_0000_0000);
    }
    t as u32
}

/// The standard library's monotonic time point, opaque to the proofs.
#[verifier::external_type_specification]
#[verifier::external_body]
pub struct ExInstant(Instant);

/// `Instant::now` reads the monotonic clock; nothing is claimed of the reading.
pub assume_specification[ Instant::now ]() -> (t: Instant);

/// `Instant::saturating_duration_since` returns the time from `earlier` to `t`,
/// or zero when `earlier` is the later one; it never panics. Nothing is claimed
/// of the duration.
pub assume_specification[ Instant::saturating_duration_since ](t: &Instant, earlier: Instant) -> (d: Duration);

/// `Duration::as_secs` returns the whole seconds of the duration; nothing is
/// claimed of their number.
pub assume_specification[ Duration::as_secs ](d: &Duration) -> (secs: u64);

/// `Duration::subsec_nanos` returns the part of the duration below one second,
/// in nanoseconds, which is always less than 1_000_000_000.
pub assume_specification[ Duration::subsec_nanos ](d: &Duration) -> (nanos: u32)
    ensures
        nanos < 1_000_000_000,
;

/// A monotonic clock that counts Q16 ticks from the moment it was made.
pub struct Clock {
    epoch: Instant,
}

impl Clock {
    /// Starts a clock; its timestamps count from this call.
    pub fn new() -> (clock: Clock) {
        Clock { epoch: Instant::now() }
    }
}

/// Reads the clock: the time since it was started, as a Q16 timestamp, which
/// is `ntp_from_elapsed` of the time that has passed. Nothing is promised of
/// the reading itself: it depends on the moment of the call, and every
/// timestamp is the conversion of some elapsed time.
pub fn getTimeInNtp(clock: &Clock) -> (t: u32) {
    let now: Instant = Instant::now();
    let since: Duration = now.saturating_duration_since(clock.epoch);
    let secs: u64 = since.as_secs();
    let nanos: u32 = since.subsec_nanos();
    ntp_from_elapsed(secs, nanos)
}

} // verus!
