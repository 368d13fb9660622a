//! One flow whose packets arrive in order on a new session: when feedback
//! goes out and what it says.
use crate::ntp::Clock;
use crate::seqnum::seq_plus;
use crate::session::with_length;
use crate::session::SessionState;
use crate::session_laws::block_len_of;
use crate::session_laws::lemma_feedback_iff_due;
use crate::session_laws::lemma_flow_reported_wf;
use crate::session_laws::lemma_metered;
use crate::session_laws::lemma_next_due_iff_due;
use crate::session_laws::lemma_registered_wf;
use crate::stream::lemma_block_head;
use crate::stream::lemma_block_len;
use crate::stream::FlowState;
use crate::wire::be16;
use crate::wire::be32;
use vstd::prelude::*;

verus! {

/// What may differ from one packet of the flow to the next.
pub struct PacketEvent {
    /// Clock reading on arrival.
    pub rx_time: u32,
    /// Clock reading when feedback is made, if it is.
    pub fb_time: u32,
    /// Size of the packet in bytes.
    pub size: u32,
    /// ECN bits of the packet.
    pub ce_bits: u8,
}

/// The session after the packets of `events` have arrived on flow `ssrc`, the
/// first numbered 0, the next 1 and so on, none with the marker bit.
pub open spec fn after_in_order(start: SessionState, ssrc: u32, events: Seq<PacketEvent>) -> SessionState
    decreases events.len(),
{
    if events.len() == 0 {
        start
    } else {
        let e = events.last();
        after_in_order(start, ssrc, events.drop_last()).arrival(
            e.rx_time,
            e.fb_time,
            e.size,
            (events.len() - 1) as u16,
            ssrc,
            false,
            e.ce_bits,
        ).0
    }
}

/// The feedback packet that the arrival of the last packet of `events` leads
/// to, if it leads to one.
pub open spec fn feedback_on_last(start: SessionState, ssrc: u32, events: Seq<PacketEvent>) -> Option<
    Seq<u8>,
> {
    let e = events.last();
    after_in_order(start, ssrc, events.drop_last()).arrival(
        e.rx_time,
        e.fb_time,
        e.size,
        (events.len() - 1) as u16,
        ssrc,
        false,
        e.ce_bits,
    ).1
}

/// The feedback of a session with a single flow that is due: a packet with the
/// block of that flow and nothing else, after which the flow is noted as
/// reported.
pub proof fn lemma_single_flow_feedback(s: SessionState, now: u32, force: bool)
    requires
        s.wf(),
        s.flows.len() == 1,
        s.due(0, now, force),
    ensures
        s.feedback(now, force).1 == Some(
            with_length(s.packet_header() + s.flows[0].block(now) + be32(now)),
        ),
        s.feedback(now, force).0 == (SessionState {
            last_feedback_t: now,
            flows: seq![s.flows[0].reported(now)],
            ..s
        }),
{
    let header = s.packet_header();
    assert(header.len() == 8);
    lemma_next_due_iff_due(s, now, force);
    assert(s.next_due(now, force) == Some(0int));
    assert(s.fits(header, 0, now));
    assert(s.next_block(header, now, force) == Some(0int));
    let next = s.flow_reported(0, now);
    lemma_flow_reported_wf(s, 0, now);
    lemma_block_len(s.flows[0], now);
    let longer = header + s.flows[0].block(now);
    assert(!next.due(0, now, force));
    lemma_next_due_iff_due(next, now, force);
    assert(next.next_due(now, force) is None);
    assert(next.next_block(longer, now, force) is None);
    assert(next.assembled(longer, now, force) == (next, longer));
    assert(s.assembled(header, now, force) == (next, longer));
    assert(next.flows =~= seq![s.flows[0].reported(now)]);
}

/// Registering a packet on the single flow of a session changes that flow and
/// adds no other.
pub proof fn lemma_single_flow_registered(
    s: SessionState,
    time_ntp: u32,
    ssrc: u32,
    size: u32,
    seq_nr: u16,
    ce_bits: u8,
)
    requires
        s.wf(),
        s.flows.len() == 1,
        s.flows[0].ssrc == ssrc,
    ensures
        s.registered(time_ntp, ssrc, size, seq_nr, ce_bits).flows == seq![
            s.flows[0].received(time_ntp, seq_nr, ce_bits),
        ],
        s.registered(time_ntp, ssrc, size, seq_nr, ce_bits).wf(),
        s.registered(time_ntp, ssrc, size, seq_nr, ce_bits).ack_diff == s.ack_diff,
        s.registered(time_ntp, ssrc, size, seq_nr, ce_bits).reports == s.reports,
        s.registered(time_ntp, ssrc, size, seq_nr, ce_bits).ssrc == s.ssrc,
{
    assert(s.is_position(ssrc, 0));
    assert(s.position(ssrc) == Some(0int));
    lemma_registered_wf(s, time_ntp, ssrc, size, seq_nr, ce_bits);
    assert(s.registered(time_ntp, ssrc, size, seq_nr, ce_bits).flows =~= seq![
        s.flows[0].received(time_ntp, seq_nr, ce_bits),
    ]);
}

/// Registering the first packet of a session makes its first flow.
pub proof fn lemma_first_flow_registered(
    s: SessionState,
    time_ntp: u32,
    ssrc: u32,
    size: u32,
    seq_nr: u16,
    ce_bits: u8,
)
    requires
        s.wf(),
        s.flows.len() == 0,
    ensures
        s.registered(time_ntp, ssrc, size, seq_nr, ce_bits).flows == seq![
            FlowState::fresh(ssrc, s.reports as i32).received(time_ntp, seq_nr, ce_bits),
        ],
        s.registered(time_ntp, ssrc, size, seq_nr, ce_bits).wf(),
        s.registered(time_ntp, ssrc, size, seq_nr, ce_bits).ack_diff == s.ack_diff,
        s.registered(time_ntp, ssrc, size, seq_nr, ce_bits).reports == s.reports,
        s.registered(time_ntp, ssrc, size, seq_nr, ce_bits).ssrc == s.ssrc,
{
    assert(s.position(ssrc) is None);
    lemma_registered_wf(s, time_ntp, ssrc, size, seq_nr, ce_bits);
    assert(s.registered(time_ntp, ssrc, size, seq_nr, ce_bits).flows =~= seq![
        FlowState::fresh(ssrc, s.reports as i32).received(time_ntp, seq_nr, ce_bits),
    ]);
}

/// What holds of the session after the packet numbered `m` of the flow: the
/// flow is the only one, `m` is its highest sequence number, the last report
/// covered the last multiple of 16 up to `m`, and the packets since then are
/// pending.
pub open spec fn in_step(s: SessionState, reports: usize, ssrc: u32, m: int) -> bool {
    &&& s.wf()
    &&& s.ack_diff == 16
    &&& s.reports == reports
    &&& s.flows.len() == 1
    &&& s.flows[0].ssrc == ssrc
    &&& s.flows[0].highest_seq == m
    &&& s.flows[0].highest_seq_tx == 16 * (m / 16)
    &&& s.flows[0].pending == (if m < 16 {
        m + 1
    } else {
        m % 16
    })
}

/// The flow after the packet numbered `m` has been registered and before any
/// feedback: `m` is the highest sequence number, and one more packet is
/// pending.
pub open spec fn registered_step(s: SessionState, reports: usize, ssrc: u32, m: int) -> bool {
    &&& s.wf()
    &&& s.ack_diff == 16
    &&& s.reports == reports
    &&& s.flows.len() == 1
    &&& s.flows[0].ssrc == ssrc
    &&& s.flows[0].reports == reports
    &&& s.flows[0].highest_seq == m
    &&& s.flows[0].highest_seq_tx == (if m == 0 {
        0
    } else {
        16 * ((m - 1) / 16)
    })
    &&& s.flows[0].pending == (if m <= 16 {
        m + 1
    } else {
        (m - 1) % 16 + 1
    })
}

/// Registering the packet numbered `m` on a session that is in step for
/// `m - 1`, or on a new session if `m` is 0.
proof fn lemma_register_in_step(
    before: SessionState,
    reports: usize,
    ssrc: u32,
    m: int,
    e: PacketEvent,
)
    requires
        0 <= m <= 32767,
        if m == 0 {
            before.wf() && before.flows.len() == 0 && before.ack_diff == 16 && before.reports
                == reports
        } else {
            in_step(before, reports, ssrc, m - 1)
        },
    ensures
        registered_step(
            before.registered(e.rx_time, ssrc, e.size, m as u16, e.ce_bits),
            reports,
            ssrc,
            m,
        ),
{
    if m == 0 {
        lemma_first_flow_registered(before, e.rx_time, ssrc, e.size, 0, e.ce_bits);
    } else {
        lemma_single_flow_registered(before, e.rx_time, ssrc, e.size, m as u16, e.ce_bits);
        let flow = before.flows[0];
        assert(flow.initialized);
        assert(flow.reports == reports);
        let registered = before.registered(e.rx_time, ssrc, e.size, m as u16, e.ce_bits);
        assert(registered.flows[0] == flow.received(e.rx_time, m as u16, e.ce_bits));
    }
}

/// Feedback after the packet numbered `m` has been registered: a packet goes
/// out exactly if `m` is 16, 32, 48 and so on, and the session is in step for
/// `m` afterwards.
proof fn lemma_feedback_in_step(
    registered: SessionState,
    reports: usize,
    ssrc: u32,
    m: int,
    fb_time: u32,
)
    requires
        0 <= m <= 32767,
        1 <= reports <= 65536,
        registered_step(registered, reports, ssrc, m),
    ensures
        ({
            let outcome = if registered.flush_forced() {
                registered.feedback(fb_time, false)
            } else {
                (registered, None::<Seq<u8>>)
            };
            &&& outcome.1 is Some <==> m >= 16 && m % 16 == 0
            &&& outcome.1 matches Some(bytes) ==> {
                &&& bytes.len() == 8 + block_len_of(reports) + 4
                &&& bytes.subrange(8, 12) == be32(ssrc)
                &&& bytes.subrange(12, 14) == be16(seq_plus(m as u16, 1 - reports))
                &&& bytes.subrange(bytes.len() - 4, bytes.len() as int) == be32(fb_time)
            }
            &&& in_step(outcome.0, reports, ssrc, m)
        }),
{
    let flow = registered.flows[0];
    assert(registered.flush_forced() <==> flow.needs_flush(16));
    if m >= 16 && m % 16 == 0 {
        assert(flow.highest_seq_tx == m - 16);
        assert(flow.backlog() == 16);
        assert(flow.pending >= 8);
        assert(registered.due(0, fb_time, false));
        lemma_single_flow_feedback(registered, fb_time, false);
        lemma_flow_reported_wf(registered, 0, fb_time);
        lemma_one_block_packet(registered, fb_time);
        let after = registered.feedback(fb_time, false).0;
        assert(after.flows[0] == flow.reported(fb_time));
        assert(after.flows =~= registered.flow_reported(0, fb_time).flows);
    } else {
        assert(flow.backlog() == (if m == 0 {
            0
        } else {
            (m - 1) % 16 + 1
        }));
        assert(flow.backlog() < 16);
        assert(!registered.flush_forced());
    }
}

/// The bytes of a feedback packet with the block of the first flow alone.
proof fn lemma_one_block_packet(s: SessionState, now: u32)
    requires
        s.wf(),
        s.flows.len() >= 1,
    ensures
        ({
            let bytes = with_length(s.packet_header() + s.flows[0].block(now) + be32(now));
            &&& bytes.len() == 8 + block_len_of(s.reports) + 4
            &&& bytes.subrange(8, 12) == be32(s.flows[0].ssrc)
            &&& bytes.subrange(12, 14) == be16(s.flows[0].begin_seq())
            &&& bytes.subrange(bytes.len() - 4, bytes.len() as int) == be32(now)
        }),
{
    let flow = s.flows[0];
    lemma_block_len(flow, now);
    lemma_block_head(flow, now);
    let block = flow.block(now);
    let whole = s.packet_header() + block + be32(now);
    let bytes = with_length(whole);
    assert(s.packet_header().len() == 8);
    assert(be32(now).len() == 4);
    assert forall|t: int| 0 <= t < 6 implies bytes[8 + t] == block[t] by {}
    assert forall|t: int| 0 <= t < 4 implies block.subrange(0, 4)[t] == block[t] by {}
    assert forall|t: int| 0 <= t < 2 implies block.subrange(4, 6)[t] == block[4 + t] by {}
    assert(bytes.subrange(8, 12) =~= block.subrange(0, 4));
    assert(bytes.subrange(12, 14) =~= block.subrange(4, 6));
    assert(bytes.subrange(bytes.len() - 4, bytes.len() as int) =~= be32(now));
}

/// With a flush threshold of 16, packets numbered from 0 that arrive in order
/// on the one flow of a new session lead to feedback exactly on the arrival of
/// the packets numbered 16, 32, 48 and so on: not before the backlog has
/// reached 16, and every 16 packets from then on. Each feedback packet holds
/// the one block of that flow, which starts at the number of the packet that
/// has just arrived less the number of reports in a block plus one, wrapping
/// below zero. This holds whatever the times, sizes and ECN bits of the
/// packets.
pub proof fn lemma_in_order_feedback(
    reports: usize,
    clock: Clock,
    ssrc: u32,
    events: Seq<PacketEvent>,
)
    requires
        1 <= reports <= 65536,
        1 <= events.len() <= 32768,
    ensures
        ({
            let start = SessionState::initial(reports, 16, clock);
            let m = events.len() - 1;
            let packet = feedback_on_last(start, ssrc, events);
            &&& packet is Some <==> m >= 16 && m % 16 == 0
            &&& packet matches Some(bytes) ==> {
                &&& bytes.len() == 8 + block_len_of(reports) + 4
                &&& bytes.subrange(8, 12) == be32(ssrc)
                &&& bytes.subrange(12, 14) == be16(seq_plus(m as u16, 1 - reports))
                &&& bytes.subrange(bytes.len() - 4, bytes.len() as int) == be32(
                    events.last().fb_time,
                )
            }
            &&& in_step(after_in_order(start, ssrc, events), reports, ssrc, m)
        }),
    decreases events.len(),
{
    let start = SessionState::initial(reports, 16, clock);
    let m = events.len() - 1;
    let e = events.last();
    let before = after_in_order(start, ssrc, events.drop_last());
    if m == 0 {
        assert(events.drop_last().len() == 0);
        assert(before == start);
        assert(start.wf());
    } else {
        lemma_in_order_feedback(reports, clock, ssrc, events.drop_last());
    }
    lemma_register_in_step(before, reports, ssrc, m, e);
    let registered = before.registered(e.rx_time, ssrc, e.size, m as u16, e.ce_bits);
    lemma_feedback_in_step(registered, reports, ssrc, m, e.fb_time);
}

} // verus!
