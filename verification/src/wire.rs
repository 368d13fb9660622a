//! Byte-level pieces of the feedback packet: big-endian integers and the
//! 16-bit entry that reports one RTP packet.
use crate::ntp::elapsed;
use crate::ntp::ticks_since;
use vstd::prelude::*;

verus! {

/// Largest arrival-time offset, in units of 1/1024 s, that an entry carries as it is.
pub const ATO_MAX: u32 = 8189;

/// The value an entry carries for every larger offset.
pub const ATO_SATURATED: u32 = 0x1FFE;

/// The two bytes of `x`, most significant first.
pub open spec fn be16(x: u16) -> Seq<u8> {
    seq![(x / 256) as u8, (x % 256) as u8]
}

/// The four bytes of `x`, most significant first.
pub open spec fn be32(x: u32) -> Seq<u8> {
    seq![
        (x / 0x100_0000) as u8,
        (x / 0x1_0000 % 256) as u8,
        (x / 0x100 % 256) as u8,
        (x % 256) as u8,
    ]
}

/// The arrival-time offset field for a packet that arrived at `arrival`,
/// reported at `now`: the elapsed time in units of 1/1024 s, and `ATO_SATURATED`
/// once that exceeds `ATO_MAX`.
pub open spec fn arrival_offset(now: u32, arrival: u32) -> int {
    let q: int = ticks_since(now, arrival) / 64;
    if q > ATO_MAX {
        ATO_SATURATED as int
    } else {
        q
    }
}

/// The entry for a packet that was received: bit 15 set, the two ECN bits in
/// bits 14 and 13, the arrival-time offset in bits 12 to 0.
pub open spec fn received_entry(now: u32, arrival: u32, ce_bits: u8) -> int {
    0x8000 + (ce_bits % 4) * 0x2000 + arrival_offset(now, arrival)
}

/// Appends `x` to `bytes`, most significant byte first.
pub fn push_be16(bytes: &mut Vec<u8>, x: u16)
    ensures
        final(bytes)@ == old(bytes)@ + be16(x),
{
    bytes.push((x / 256) as u8);
    bytes.push((x % 256) as u8);
    assert(bytes@ =~= old(bytes)@ + be16(x));
}

/// Appends `x` to `bytes`, most significant byte first.
pub fn push_be32(bytes: &mut Vec<u8>, x: u32)
    ensures
        final(bytes)@ == old(bytes)@ + be32(x),
{
    bytes.push((x / 0x100_0000) as u8);
    bytes.push((x / 0x1_0000 % 256) as u8);
    bytes.push((x / 0x100 % 256) as u8);
    bytes.push((x % 256) as u8);
    assert(bytes@ =~= old(bytes)@ + be32(x));
}

/// Computes the entry that reports a received packet.
pub fn encode_received(now: u32, arrival: u32, ce_bits: u8) -> (entry: u16)
    ensures
        entry == received_entry(now, arrival, ce_bits),
        entry >= 0x8000,
{
    let mut ato: u32 = elapsed(now, arrival) / 64;
    if ato > ATO_MAX {
        ato = ATO_SATURATED;
    }
    let ecn: u16 = (ce_bits % 4) as u16;
    0x8000 + ecn * 0x2000 + ato as u16
}

/// The fields of an entry for a received packet: bit 15 is set, bits 14 and 13
/// hold the ECN bits, and bits 12 to 0 hold the arrival-time offset, which is at
/// most `ATO_SATURATED`.
pub proof fn lemma_received_entry_fields(now: u32, arrival: u32, ce_bits: u8)
    ensures
        0x8000 <= received_entry(now, arrival, ce_bits) < 0x1_0000,
        received_entry(now, arrival, ce_bits) / 0x2000 % 4 == ce_bits % 4,
        received_entry(now, arrival, ce_bits) % 0x2000 == arrival_offset(now, arrival),
        0 <= arrival_offset(now, arrival) <= ATO_SATURATED,
{
}

} // verus!
