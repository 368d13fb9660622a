//! Arithmetic on 16-bit RTP sequence numbers, which wrap from 65535 to 0.
use vstd::prelude::*;

verus! {

/// Two sequence numbers further apart than this are taken to lie on opposite
/// sides of the wrap.
pub const SEQ_WRAP_GUARD: u16 = 16384;

/// The sequence number `n` steps after `s`; `n` may be negative.
pub open spec fn seq_plus(s: u16, n: int) -> u16 {
    ((s + n) % 65536) as u16
}

/// The signed distance from `from` to `to` on the 16-bit circle, in
/// `-32768 ..= 32767`.
pub open spec fn seq_distance(to: u16, from: u16) -> int {
    let d: int = (to - from) % 65536;
    if d >= 32768 {
        d - 65536
    } else {
        d
    }
}

/// `a` lifted to a wider range for a comparison with `b`: when `a` is the
/// smaller of the two by more than the guard, it is taken to have wrapped and
/// 65536 is added.
pub open spec fn seq_extended(a: u16, b: u16) -> int {
    if a < b && b - a > SEQ_WRAP_GUARD {
        a + 65536
    } else {
        a as int
    }
}

/// Whether a packet numbered `seq` is at or ahead of the highest number seen so
/// far, so that it becomes the new highest.
pub open spec fn seq_advances(seq: u16, highest: u16) -> bool {
    seq_extended(seq, highest) >= seq_extended(highest, seq)
}

/// The sequence number `n` steps after `s`.
pub fn seq_add(s: u16, n: u16) -> (r: u16)
    ensures
        r == seq_plus(s, n as int),
{
    let r: u16 = s.wrapping_add(n);
    assert(r == (s + n) % 65536) by {
        if s + n >= 65536 {
            assert((s + n) % 65536 == s + n - 65536);
        }
    }
    r
}

/// The sequence number `n` steps before `s`.
pub fn seq_sub(s: u16, n: u16) -> (r: u16)
    ensures
        r == seq_plus(s, -(n as int)),
{
    let r: u16 = s.wrapping_sub(n);
    assert(r == (s - n) % 65536) by {
        if s < n {
            assert((s - n) % 65536 == s - n + 65536);
        }
    }
    r
}

/// The signed distance from `from` to `to`, correct across the wrap.
pub fn seq_diff(to: u16, from: u16) -> (d: i32)
    ensures
        d == seq_distance(to, from),
        -32768 <= d <= 32767,
{
    let raw: u16 = to.wrapping_sub(from);
    assert(raw == (to - from) % 65536) by {
        if to < from {
            assert((to - from) % 65536 == to - from + 65536);
        }
    }
    if raw >= 32768 {
        raw as i32 - 65536
    } else {
        raw as i32
    }
}

/// Decides whether `seq` becomes the new highest sequence number.
pub fn seq_is_newer(seq: u16, highest: u16) -> (newer: bool)
    ensures
        newer == seq_advances(seq, highest),
{
    let mut seq_ext: u32 = seq as u32;
    let mut highest_ext: u32 = highest as u32;
    if seq < highest && highest - seq > SEQ_WRAP_GUARD {
        seq_ext = seq_ext + 65536;
    }
    if highest < seq && seq - highest > SEQ_WRAP_GUARD {
        highest_ext = highest_ext + 65536;
    }
    seq_ext >= highest_ext
}

} // verus!
