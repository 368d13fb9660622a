//! What holds of a flow after a whole series of arrivals.
use crate::seqnum::seq_advances;
use crate::seqnum::seq_distance;
use crate::seqnum::seq_plus;
use crate::stream::lemma_entries_len;
use crate::stream::FlowState;
use crate::wire::be16;
use crate::wire::received_entry;
use vstd::prelude::*;

verus! {

/// The arrival of one RTP packet on a flow.
pub struct PacketArrival {
    /// Time of arrival.
    pub time_ntp: u32,
    /// Sequence number of the packet.
    pub seq_nr: u16,
    /// ECN bits of the packet.
    pub ce_bits: u8,
}

/// The flow after the packets of `arrivals` have arrived on it in their order.
pub open spec fn after_arrivals(flow: FlowState, arrivals: Seq<PacketArrival>) -> FlowState
    decreases arrivals.len(),
{
    if arrivals.len() == 0 {
        flow
    } else {
        let last = arrivals.last();
        after_arrivals(flow, arrivals.drop_last()).received(
            last.time_ntp,
            last.seq_nr,
            last.ce_bits,
        )
    }
}

/// The packets of `arrivals` are numbered consecutively from `first`, wrapping
/// after 65535.
pub open spec fn in_order_from(arrivals: Seq<PacketArrival>, first: u16) -> bool {
    forall|i: int| 0 <= i < arrivals.len() ==> (#[trigger] arrivals[i]).seq_nr == seq_plus(first, i)
}

/// The last packet of `arrivals` that went into `slot` of the history, if any
/// did.
pub open spec fn last_into_slot(arrivals: Seq<PacketArrival>, slot: int) -> Option<PacketArrival>
    decreases arrivals.len(),
{
    if arrivals.len() == 0 {
        None
    } else if arrivals.last().seq_nr as int % 128 == slot {
        Some(arrivals.last())
    } else {
        last_into_slot(arrivals.drop_last(), slot)
    }
}

/// A packet that directly follows the highest one always becomes the highest,
/// across the wrap too.
pub proof fn lemma_successor_advances(highest: u16)
    ensures
        seq_advances(seq_plus(highest, 1), highest),
{
}

/// After packets numbered consecutively from `first` have arrived on a new
/// flow, the highest sequence number is that of the last packet, whether or not
/// the numbers wrapped on the way. Nothing has been reported yet.
pub proof fn lemma_in_order_highest(
    ssrc: u32,
    reports: i32,
    arrivals: Seq<PacketArrival>,
    first: u16,
)
    requires
        arrivals.len() >= 1,
        in_order_from(arrivals, first),
    ensures
        after_arrivals(FlowState::fresh(ssrc, reports), arrivals).highest_seq == seq_plus(
            first,
            arrivals.len() - 1,
        ),
        after_arrivals(FlowState::fresh(ssrc, reports), arrivals).highest_seq_tx == 0,
        after_arrivals(FlowState::fresh(ssrc, reports), arrivals).initialized,
    decreases arrivals.len(),
{
    let fresh = FlowState::fresh(ssrc, reports);
    let last = arrivals.last();
    let before = arrivals.drop_last();
    assert(last.seq_nr == seq_plus(first, arrivals.len() - 1));
    if arrivals.len() == 1 {
        assert(after_arrivals(fresh, before) == fresh);
        lemma_successor_advances(seq_plus(last.seq_nr, -1));
        assert(seq_plus(seq_plus(last.seq_nr, -1), 1) == last.seq_nr);
    } else {
        assert(in_order_from(before, first)) by {
            assert forall|i: int| 0 <= i < before.len() implies (#[trigger] before[i]).seq_nr
                == seq_plus(first, i) by {
                assert(before[i] == arrivals[i]);
            }
        }
        lemma_in_order_highest(ssrc, reports, before, first);
        let highest = seq_plus(first, before.len() - 1);
        lemma_successor_advances(highest);
        assert(seq_plus(highest, 1) == last.seq_nr);
    }
}

/// After `n` packets numbered `0 .. n-1` have arrived in order on a new flow,
/// the highest sequence number is `n - 1`, and the flow asks for a flush exactly
/// when that backlog of `n - 1` has reached the threshold.
pub proof fn lemma_in_order_from_zero(
    ssrc: u32,
    reports: i32,
    arrivals: Seq<PacketArrival>,
    threshold: int,
)
    requires
        1 <= arrivals.len() <= 32768,
        in_order_from(arrivals, 0),
    ensures
        after_arrivals(FlowState::fresh(ssrc, reports), arrivals).highest_seq == arrivals.len() - 1,
        after_arrivals(FlowState::fresh(ssrc, reports), arrivals).backlog() == arrivals.len() - 1,
        after_arrivals(FlowState::fresh(ssrc, reports), arrivals).needs_flush(threshold) <==> (
        arrivals.len() - 1 >= threshold),
{
    lemma_in_order_highest(ssrc, reports, arrivals, 0);
}

/// The history of a flow always has its 128 slots once a packet has arrived.
pub proof fn lemma_arrivals_keep_history(flow: FlowState, arrivals: Seq<PacketArrival>)
    requires
        flow.wf(),
    ensures
        after_arrivals(flow, arrivals).wf(),
    decreases arrivals.len(),
{
    if arrivals.len() > 0 {
        lemma_arrivals_keep_history(flow, arrivals.drop_last());
    }
}

/// After any series of arrivals on a new flow, each slot of the history shows
/// the last packet that went into it, and a slot that no packet went into is
/// unfilled.
pub proof fn lemma_history_shows_last(
    ssrc: u32,
    reports: i32,
    arrivals: Seq<PacketArrival>,
    slot: int,
)
    requires
        0 <= slot < 128,
    ensures
        ({
            let flow = after_arrivals(FlowState::fresh(ssrc, reports), arrivals);
            match last_into_slot(arrivals, slot) {
                Some(packet) => {
                    &&& flow.history[slot].filled
                    &&& flow.history[slot].seq_nr == packet.seq_nr
                    &&& flow.history[slot].rx_time == packet.time_ntp
                    &&& flow.history[slot].ce_bits == packet.ce_bits
                },
                None => !flow.history[slot].filled,
            }
        }),
        after_arrivals(FlowState::fresh(ssrc, reports), arrivals).history.len() == 128,
        after_arrivals(FlowState::fresh(ssrc, reports), arrivals).initialized == (arrivals.len()
            > 0),
    decreases arrivals.len(),
{
    if arrivals.len() > 0 {
        lemma_history_shows_last(ssrc, reports, arrivals.drop_last(), slot);
        if arrivals.len() == 1 {
            assert(arrivals.drop_last().len() == 0);
        }
    }
}

/// The history holds a packet exactly if the last arrival into its slot had its
/// sequence number. So a packet that never arrived reads as not received, and
/// so does one that a later packet has pushed out of its slot, although it did
/// arrive.
pub proof fn lemma_holds_last_arrival(
    ssrc: u32,
    reports: i32,
    arrivals: Seq<PacketArrival>,
    seq_nr: u16,
)
    ensures
        after_arrivals(FlowState::fresh(ssrc, reports), arrivals).holds(seq_nr) <==> (
        last_into_slot(arrivals, seq_nr as int % 128) matches Some(packet) && packet.seq_nr
            == seq_nr),
{
    lemma_history_shows_last(ssrc, reports, arrivals, seq_nr as int % 128);
}

/// Entry `k` of a report block lies in bytes `2k` and `2k + 1` of the entries.
pub proof fn lemma_entry_bytes(flow: FlowState, now: u32, n: int, k: int)
    requires
        0 <= k < n,
    ensures
        flow.entries(now, n).len() == 2 * n,
        flow.entries(now, n)[2 * k] == be16(flow.entry(now, k))[0],
        flow.entries(now, n)[2 * k + 1] == be16(flow.entry(now, k))[1],
    decreases n,
{
    lemma_entries_len(flow, now, n);
    lemma_entries_len(flow, now, n - 1);
    if k < n - 1 {
        lemma_entry_bytes(flow, now, n - 1, k);
    }
}

/// In a report block, entry `k` stands at byte `8 + 2k`, and its top bit, the
/// ack bit, is set exactly if the history holds the packet that the entry is
/// about: the `k`-th sequence number from the first of the block.
pub proof fn lemma_ack_bit_matches_history(flow: FlowState, now: u32, k: int)
    requires
        0 <= k < flow.reports,
    ensures
        8 + 2 * k + 1 < flow.block(now).len(),
        flow.block(now)[8 + 2 * k] == be16(flow.entry(now, k))[0],
        flow.block(now)[8 + 2 * k + 1] == be16(flow.entry(now, k))[1],
        flow.block(now)[8 + 2 * k] >= 128 <==> flow.holds(seq_plus(flow.begin_seq(), k)),
{
    lemma_entry_bytes(flow, now, flow.reports as int, k);
    let sn = seq_plus(flow.begin_seq(), k);
    let slot = flow.history[sn as int % 128];
    if flow.holds(sn) {
        let e = received_entry(now, slot.rx_time, slot.ce_bits);
        assert(0x8000 <= e < 0x10000);
        assert(flow.entry(now, k) == e);
    } else {
        assert(flow.entry(now, k) == 0);
    }
}

/// The ack bits of a report block say which of the sequence numbers it covers
/// were the last to go into their slots of the history, for any series of
/// arrivals on a new flow.
pub proof fn lemma_block_reports_arrivals(
    ssrc: u32,
    reports: i32,
    arrivals: Seq<PacketArrival>,
    now: u32,
    k: int,
)
    requires
        0 <= k < reports,
    ensures
        ({
            let flow = after_arrivals(FlowState::fresh(ssrc, reports), arrivals);
            let seq_nr = seq_plus(flow.begin_seq(), k);
            flow.block(now)[8 + 2 * k] >= 128 <==> (last_into_slot(arrivals, seq_nr as int % 128)
                matches Some(packet) && packet.seq_nr == seq_nr)
        }),
{
    let fresh = FlowState::fresh(ssrc, reports);
    lemma_arrivals_keep_reports(fresh, arrivals);
    let flow = after_arrivals(fresh, arrivals);
    lemma_ack_bit_matches_history(flow, now, k);
    lemma_holds_last_arrival(ssrc, reports, arrivals, seq_plus(flow.begin_seq(), k));
}

/// Arrivals change neither the identifier of a flow nor the number of sequence
/// numbers that its blocks report.
pub proof fn lemma_arrivals_keep_reports(flow: FlowState, arrivals: Seq<PacketArrival>)
    ensures
        after_arrivals(flow, arrivals).reports == flow.reports,
        after_arrivals(flow, arrivals).ssrc == flow.ssrc,
    decreases arrivals.len(),
{
    if arrivals.len() > 0 {
        lemma_arrivals_keep_reports(flow, arrivals.drop_last());
    }
}

} // verus!
