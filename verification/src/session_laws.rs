//! What holds of the feedback packets of a session.
use crate::ntp::ticks_since;
use crate::session::kMaxRtcpSize;
use crate::session::room;
use crate::session::with_length;
use crate::session::PACKET_HEADER_LEN;
use crate::session::SessionState;
use crate::session::REPORT_AGE_NTP;
use crate::rate::lemma_average_bounds;
use crate::rate::lemma_interval_bounds;
use crate::rate::average_after;
use crate::rate::interval_for;
use crate::rate::RATE_WINDOW_NTP;
use crate::stream::lemma_block_head;
use crate::stream::lemma_block_len;
use crate::stream::FlowState;
use crate::wire::be32;
use vstd::prelude::*;

verus! {

/// Among the first `n` flows, either none is due or one of them goes before
/// all other due ones.
proof fn lemma_earliest_of_prefix(s: SessionState, n: int, now: u32, force: bool) -> (best: Option<
    int,
>)
    requires
        0 <= n <= s.flows.len(),
    ensures
        match best {
            Some(b) => {
                &&& 0 <= b < n
                &&& s.due(b, now, force)
                &&& forall|j: int|
                    0 <= j < n && #[trigger] s.due(j, now, force) ==> {
                        ||| s.flows[b].last_feedback_t < s.flows[j].last_feedback_t
                        ||| (s.flows[b].last_feedback_t == s.flows[j].last_feedback_t && b <= j)
                    }
            },
            None => forall|j: int| 0 <= j < n ==> !#[trigger] s.due(j, now, force),
        },
    decreases n,
{
    if n == 0 {
        None
    } else {
        let before = lemma_earliest_of_prefix(s, n - 1, now, force);
        if s.due(n - 1, now, force) {
            match before {
                Some(b) => {
                    if s.flows[n - 1].last_feedback_t < s.flows[b].last_feedback_t {
                        Some(n - 1)
                    } else {
                        Some(b)
                    }
                },
                None => Some(n - 1),
            }
        } else {
            before
        }
    }
}

/// A flow goes into the packet next exactly if some flow is due.
pub proof fn lemma_next_due_iff_due(s: SessionState, now: u32, force: bool)
    ensures
        s.next_due(now, force) is Some <==> exists|i: int|
            0 <= i < s.flows.len() && #[trigger] s.due(i, now, force),
        s.next_due(now, force) matches Some(i) ==> s.is_next(i, now, force),
{
    let best = lemma_earliest_of_prefix(s, s.flows.len() as int, now, force);
    match best {
        Some(b) => {
            assert(s.is_next(b, now, force));
        },
        None => {
            assert(forall|i: int| !s.is_next(i, now, force));
        },
    }
}

/// Assembling a packet stops only when no flow is due any more or the block of
/// the flow that is next does not fit. It only ever adds to the packet, changes
/// nothing of the session but the flows, and keeps their number.
pub proof fn lemma_assembled_ends(s: SessionState, packet: Seq<u8>, now: u32, force: bool)
    ensures
        ({
            let (after, body) = s.assembled(packet, now, force);
            &&& after.next_block(body, now, force) is None
            &&& body.len() >= packet.len()
            &&& body.len() == packet.len() ==> after == s
            &&& body.len() > packet.len() ==> s.next_block(packet, now, force) is Some
            &&& after == (SessionState { flows: after.flows, ..s })
            &&& after.flows.len() == s.flows.len()
        }),
    decreases room(packet),
{
    match s.next_block(packet, now, force) {
        None => {},
        Some(i) => {
            lemma_next_due_iff_due(s, now, force);
            assert(be32(s.flows[i].ssrc).len() == 4);
            assert(s.flows[i].block(now).len() >= 4);
            lemma_assembled_ends(
                s.flow_reported(i, now),
                packet + s.flows[i].block(now),
                now,
                force,
            );
        },
    }
}

/// A session has a feedback packet to send exactly if some flow is due: the
/// block of the first due flow always goes in.
pub proof fn lemma_feedback_iff_due(s: SessionState, now: u32, force: bool)
    ensures
        s.feedback(now, force).1 is Some <==> s.next_due(now, force) is Some,
        s.feedback(now, force).1 is None ==> s.feedback(now, force).0 == s,
{
    lemma_assembled_ends(s, s.packet_header(), now, force);
    assert(s.packet_header().len() == 8);
    if s.next_due(now, force) is Some {
        let i = s.next_due(now, force)->0;
        assert(s.fits(s.packet_header(), i, now));
        lemma_assembled_ends(
            s.flow_reported(i, now),
            s.packet_header() + s.flows[i].block(now),
            now,
            force,
        );
        assert(be32(s.flows[i].ssrc).len() == 4);
        assert(s.flows[i].block(now).len() >= 4);
    }
}

/// A session without flows sends no feedback packet and stays as it is.
pub proof fn lemma_no_flows_no_packet(s: SessionState, now: u32, force: bool)
    requires
        s.flows.len() == 0,
    ensures
        s.feedback(now, force) == (s, None::<Seq<u8>>),
        s.periodic(now) == (s, None::<Seq<u8>>),
{
    lemma_next_due_iff_due(s, now, force);
    lemma_next_due_iff_due(s, now, true);
    lemma_feedback_iff_due(s, now, force);
    lemma_feedback_iff_due(s, now, true);
}

/// Every flow that a session holds has received at least one packet: a flow
/// comes into being with its first packet, so no report block is ever about a
/// flow on which nothing arrived.
pub proof fn lemma_reported_flow_has_received(s: SessionState, now: u32, force: bool)
    requires
        s.wf(),
    ensures
        s.next_due(now, force) matches Some(i) ==> 0 <= i < s.flows.len()
            && s.flows[i].total_received >= 1 && s.flows[i].initialized,
{
    lemma_next_due_iff_due(s, now, force);
}

/// Feedback right after feedback: when the first call left no flow due, then
/// a second call returns nothing and leaves the session as it is, provided
/// that no packet arrived in between, that no report is older than 10 ms at the
/// time of the second call, and that the second call does not force flows which
/// the first did not force.
pub proof fn lemma_feedback_twice(
    s: SessionState,
    now: u32,
    force: bool,
    again: u32,
    force_again: bool,
)
    requires
        s.feedback(now, force).0.next_due(now, force) is None,
        force_again ==> force,
        forall|i: int|
            0 <= i < s.feedback(now, force).0.flows.len() ==> ticks_since(
                again,
                (#[trigger] s.feedback(now, force).0.flows[i]).last_feedback_t,
            ) <= REPORT_AGE_NTP,
    ensures
        s.feedback(now, force).0.feedback(again, force_again) == (
            s.feedback(now, force).0,
            None::<Seq<u8>>,
        ),
{
    let second = s.feedback(now, force).0;
    lemma_next_due_iff_due(second, now, force);
    assert forall|i: int| 0 <= i < second.flows.len() implies !#[trigger] second.due(
        i,
        again,
        force_again,
    ) by {
        assert(!second.due(i, now, force));
    }
    lemma_next_due_iff_due(second, again, force_again);
    lemma_feedback_iff_due(second, again, force_again);
}

/// A feedback packet that had room for one more block left no flow due: had a
/// flow been due, its block would have gone in.
pub proof fn lemma_room_left_none_due(s: SessionState, now: u32, force: bool)
    requires
        s.wf(),
        s.feedback(now, force).1 matches Some(packet) ==> packet.len() - 4 + block_len_of(
            s.reports,
        ) <= kMaxRtcpSize,
    ensures
        s.feedback(now, force).0.next_due(now, force) is None,
{
    let (after, body) = s.assembled(s.packet_header(), now, force);
    let second = s.feedback(now, force).0;
    lemma_assembled_ends(s, s.packet_header(), now, force);
    lemma_assembled_wf(s, s.packet_header(), now, force);
    assert(s.packet_header().len() == 8);
    lemma_next_due_iff_due(after, now, force);
    if body.len() > 8 {
        assert(with_length(body + be32(now)).len() == body.len() + 4);
        assert(second.flows == after.flows);
        if after.next_due(now, force) is Some {
            let i = after.next_due(now, force)->0;
            lemma_block_len(after.flows[i], now);
            assert(after.fits(body, i, now));
        }
        assert forall|i: int| 0 <= i < second.flows.len() implies !#[trigger] second.due(
            i,
            now,
            force,
        ) by {
            assert(!after.due(i, now, force));
        }
        lemma_next_due_iff_due(second, now, force);
    } else {
        lemma_feedback_iff_due(s, now, force);
    }
}

/// Length in bytes of a report block that covers `reports` sequence numbers.
pub open spec fn block_len_of(reports: usize) -> int {
    8 + 2 * reports + (if reports % 2 == 1 {
        2int
    } else {
        0int
    })
}

/// Feedback twice at the same instant: when the first call left no flow due, a
/// second call for the same time that forces no more than the first returns
/// nothing.
pub proof fn lemma_feedback_twice_at_once(s: SessionState, now: u32, force: bool, force_again: bool)
    requires
        s.feedback(now, force).0.next_due(now, force) is None,
        force_again ==> force,
    ensures
        s.feedback(now, force).0.feedback(now, force_again) == (
            s.feedback(now, force).0,
            None::<Seq<u8>>,
        ),
{
    let second = s.feedback(now, force).0;
    lemma_next_due_iff_due(second, now, force);
    assert forall|i: int| 0 <= i < second.flows.len() implies ticks_since(
        now,
        (#[trigger] second.flows[i]).last_feedback_t,
    ) <= REPORT_AGE_NTP by {
        assert(!second.due(i, now, force));
    }
    lemma_feedback_twice(s, now, force, now, force_again);
}

/// Noting a report on a flow keeps the session well formed.
pub proof fn lemma_flow_reported_wf(s: SessionState, i: int, now: u32)
    requires
        s.wf(),
        0 <= i < s.flows.len(),
    ensures
        s.flow_reported(i, now).wf(),
{
    let next = s.flow_reported(i, now);
    assert forall|k: int| 0 <= k < next.flows.len() implies {
        &&& (#[trigger] next.flows[k]).wf()
        &&& next.flows[k].reports == next.reports
        &&& next.flows[k].initialized
        &&& next.flows[k].total_received >= 1
    } by {
        assert(s.flows[k].wf());
    }
    assert forall|a: int, b: int| 0 <= a < b < next.flows.len() implies (#[trigger] next.flows[a]).ssrc
        != (#[trigger] next.flows[b]).ssrc by {
        assert(s.flows[a].ssrc != s.flows[b].ssrc);
    }
}

/// Assembling a packet keeps the session well formed.
pub proof fn lemma_assembled_wf(s: SessionState, packet: Seq<u8>, now: u32, force: bool)
    requires
        s.wf(),
    ensures
        s.assembled(packet, now, force).0.wf(),
    decreases room(packet),
{
    if s.next_block(packet, now, force) is Some {
        let i = s.next_block(packet, now, force)->0;
        lemma_next_due_iff_due(s, now, force);
        lemma_block_len(s.flows[i], now);
        lemma_flow_reported_wf(s, i, now);
        lemma_assembled_wf(s.flow_reported(i, now), packet + s.flows[i].block(now), now, force);
    }
}

/// Assembling adds whole 32-bit words to the packet, at least eight bytes if
/// any. The packet stays within the size cap, unless it started with no more
/// than its header and the one block that went in is larger than the cap.
pub proof fn lemma_assembled_len(s: SessionState, packet: Seq<u8>, now: u32, force: bool)
    requires
        s.wf(),
    ensures
        s.assembled(packet, now, force).1.len() >= packet.len(),
        (s.assembled(packet, now, force).1.len() - packet.len()) % 4 == 0,
        s.assembled(packet, now, force).1.len() > packet.len() ==> s.assembled(
            packet,
            now,
            force,
        ).1.len() >= packet.len() + block_len_of(s.reports),
        ({
            ||| s.assembled(packet, now, force).1.len() == packet.len()
            ||| s.assembled(packet, now, force).1.len() <= kMaxRtcpSize
            ||| (packet.len() <= PACKET_HEADER_LEN && s.assembled(packet, now, force).1.len()
                == packet.len() + block_len_of(s.reports))
        }),
    decreases room(packet),
{
    if s.next_block(packet, now, force) is Some {
        let i = s.next_block(packet, now, force)->0;
        lemma_next_due_iff_due(s, now, force);
        lemma_block_len(s.flows[i], now);
        lemma_flow_reported_wf(s, i, now);
        let next = s.flow_reported(i, now);
        let longer = packet + s.flows[i].block(now);
        let added: int = s.flows[i].block_len();
        assert(added == block_len_of(s.reports));
        assert(longer.len() == packet.len() + added);
        assert(8 <= added <= 131080 && added % 4 == 0);
        lemma_assembled_len(next, longer, now, force);
        let total: int = s.assembled(packet, now, force).1.len() as int;
        assert(total == next.assembled(longer, now, force).1.len());
        assert((total - packet.len()) % 4 == 0) by {
            let rest: int = total - longer.len();
            assert(rest % 4 == 0);
            assert(total - packet.len() == rest + added);
            assert((rest + added) % 4 == 0) by (nonlinear_arith)
                requires
                    rest % 4 == 0,
                    added % 4 == 0,
            ;
        }
        if total > longer.len() {
            // A further block went in, so it fitted behind a packet that
            // already held a block.
            lemma_assembled_ends(next, longer, now, force);
            let j = next.next_block(longer, now, force)->0;
            lemma_next_due_iff_due(next, now, force);
            lemma_block_len(next.flows[j], now);
            assert(longer.len() > PACKET_HEADER_LEN);
            assert(longer.len() + block_len_of(s.reports) <= kMaxRtcpSize);
        }
    }
}

/// Assembling keeps what the packet held and only adds behind it.
pub proof fn lemma_assembled_prefix(s: SessionState, packet: Seq<u8>, now: u32, force: bool)
    ensures
        s.assembled(packet, now, force).1.len() >= packet.len(),
        s.assembled(packet, now, force).1.subrange(0, packet.len() as int) == packet,
    decreases room(packet),
{
    let body = s.assembled(packet, now, force).1;
    if s.next_block(packet, now, force) is Some {
        let i = s.next_block(packet, now, force)->0;
        let block = s.flows[i].block(now);
        assert(be32(s.flows[i].ssrc).len() == 4);
        assert(block.len() >= 4);
        let longer = packet + block;
        lemma_assembled_prefix(s.flow_reported(i, now), longer, now, force);
        lemma_prefix_of_prefix(body, longer, packet.len() as int);
        assert(longer.subrange(0, packet.len() as int) =~= packet);
    } else {
        assert(body.subrange(0, packet.len() as int) =~= packet);
    }
}

/// A prefix of a prefix of a sequence is a prefix of that sequence.
proof fn lemma_prefix_of_prefix(whole: Seq<u8>, part: Seq<u8>, n: int)
    requires
        0 <= n <= part.len() <= whole.len(),
        whole.subrange(0, part.len() as int) == part,
    ensures
        whole.subrange(0, n) == part.subrange(0, n),
{
    assert forall|k: int| 0 <= k < n implies whole[k] == part[k] by {
        assert(whole.subrange(0, part.len() as int)[k] == whole[k]);
    }
    assert(whole.subrange(0, n) =~= part.subrange(0, n));
}

/// The size of a feedback packet: a whole number of 32-bit words, at least
/// header, one block and time stamp. Without the time stamp it stays within
/// `kMaxRtcpSize` bytes, unless it holds a single block that is larger by
/// itself.
pub proof fn lemma_packet_size(s: SessionState, now: u32, force: bool)
    requires
        s.wf(),
        s.feedback(now, force).1 is Some,
    ensures
        s.feedback(now, force).1->0.len() % 4 == 0,
        20 <= s.feedback(now, force).1->0.len() <= 8 + 131080 + 4,
        s.feedback(now, force).1->0.len() == s.assembled(s.packet_header(), now, force).1.len()
            + 4,
        s.feedback(now, force).1->0.len() - 4 <= kMaxRtcpSize || s.feedback(now, force).1->0.len()
            - 4 == PACKET_HEADER_LEN + block_len_of(s.reports),
{
    let header = s.packet_header();
    let body = s.assembled(header, now, force).1;
    assert(header.len() == 8);
    lemma_assembled_len(s, header, now, force);
    assert(be32(now).len() == 4);
    assert((body + be32(now)).len() == body.len() + 4);
    assert(with_length(body + be32(now)).len() == body.len() + 4);
    let extra: int = body.len() - 8;
    assert(extra % 4 == 0);
    assert((extra + 12) % 4 == 0) by (nonlinear_arith)
        requires
            extra % 4 == 0,
    ;
}

/// Writing the length into a packet changes bytes 2 and 3 and nothing else.
proof fn lemma_with_length(packet: Seq<u8>)
    requires
        packet.len() >= 4,
    ensures
        with_length(packet).len() == packet.len(),
        forall|k: int| 0 <= k < packet.len() && k != 2 && k != 3 ==> with_length(packet)[k]
            == packet[k],
        with_length(packet)[2] == ((packet.len() / 4 - 1) / 256) as u8,
        with_length(packet)[3] == ((packet.len() / 4 - 1) % 256) as u8,
{
}

/// The frame of a feedback packet: it starts with `0x80` and the packet type
/// 205, bytes 2 and 3 hold its length in words less one, bytes 4 to 7 the
/// identifier of the session, and its last four bytes the time of the report.
/// The session remembers that time and stays well formed.
pub proof fn lemma_packet_frame(s: SessionState, now: u32, force: bool)
    requires
        s.wf(),
        s.feedback(now, force).1 is Some,
    ensures
        ({
            let packet = s.feedback(now, force).1->0;
            let words = packet.len() / 4 - 1;
            &&& packet.len() >= 20
            &&& packet[0] == 0x80
            &&& packet[1] == 205
            &&& packet[2] == words / 256
            &&& packet[3] == words % 256
            &&& packet.subrange(4, 8) == be32(s.ssrc)
            &&& packet.subrange(packet.len() - 4, packet.len() as int) == be32(now)
        }),
        s.feedback(now, force).0.last_feedback_t == now,
        s.feedback(now, force).0.wf(),
{
    let header = s.packet_header();
    let body = s.assembled(header, now, force).1;
    let whole = body + be32(now);
    let packet = with_length(whole);
    lemma_packet_size(s, now, force);
    lemma_assembled_wf(s, header, now, force);
    lemma_assembled_prefix(s, header, now, force);
    lemma_with_length(whole);
    assert(header.len() == 8);
    assert(be32(now).len() == 4);
    assert(packet == s.feedback(now, force).1->0);
    assert forall|k: int| 0 <= k < 8 implies whole[k] == header[k] by {
        assert(body.subrange(0, 8)[k] == body[k]);
    }
    assert(header[0] == 0x80 && header[1] == 205);
    assert forall|k: int| 4 <= k < 8 implies header[k] == be32(s.ssrc)[k - 4] by {}
    assert(packet.subrange(4, 8) =~= be32(s.ssrc));
    assert(packet.subrange(packet.len() - 4, packet.len() as int) =~= be32(now));
    let words = packet.len() / 4 - 1;
    assert(0 <= words <= 65535);
    assert(0 <= words / 256 <= 255);
}

/// The flows whose blocks go into `packet` when it is assembled, in the order
/// of their blocks.
pub open spec fn flows_in_packet(s: SessionState, packet: Seq<u8>, now: u32, force: bool) -> Seq<
    int,
>
    decreases room(packet),
{
    match s.next_block(packet, now, force) {
        None => Seq::empty(),
        Some(i) => {
            proof {
                assert(be32(s.flows[i].ssrc).len() == 4);
                assert(s.flows[i].block(now).len() >= 4);
                assert((packet + s.flows[i].block(now)).len() > packet.len());
            }
            seq![i] + flows_in_packet(
                s.flow_reported(i, now),
                packet + s.flows[i].block(now),
                now,
                force,
            )
        },
    }
}

/// What assembling adds to a packet is one block after the other, all of the
/// same length, and each block is about a flow of the session on which a
/// packet has arrived: block `k` starts with the identifier of such a flow. So
/// no block is ever about a flow that has received nothing.
pub proof fn lemma_blocks_are_of_flows(
    s: SessionState,
    packet: Seq<u8>,
    now: u32,
    force: bool,
    k: int,
)
    requires
        s.wf(),
        0 <= k < flows_in_packet(s, packet, now, force).len(),
    ensures
        s.assembled(packet, now, force).1.len() == packet.len() + flows_in_packet(
            s,
            packet,
            now,
            force,
        ).len() * block_len_of(s.reports),
        ({
            let body = s.assembled(packet, now, force).1;
            let j = flows_in_packet(s, packet, now, force)[k];
            let at = packet.len() + k * block_len_of(s.reports);
            &&& 0 <= j < s.flows.len()
            &&& s.flows[j].total_received >= 1
            &&& s.flows[j].initialized
            &&& at + 4 <= body.len()
            &&& body.subrange(at, at + 4) == be32(s.flows[j].ssrc)
        }),
    decreases room(packet),
{
    let body = s.assembled(packet, now, force).1;
    let i = s.next_block(packet, now, force)->0;
    let len: int = block_len_of(s.reports);
    lemma_next_due_iff_due(s, now, force);
    lemma_block_len(s.flows[i], now);
    lemma_block_head(s.flows[i], now);
    lemma_flow_reported_wf(s, i, now);
    let next = s.flow_reported(i, now);
    let block = s.flows[i].block(now);
    let longer = packet + block;
    let rest = flows_in_packet(next, longer, now, force);
    assert(flows_in_packet(s, packet, now, force) == seq![i] + rest);
    assert(block.len() == len);
    lemma_blocks_count(next, longer, now, force);
    lemma_assembled_prefix(next, longer, now, force);
    assert(body == next.assembled(longer, now, force).1);
    assert(body.len() == packet.len() + (1 + rest.len()) * len) by (nonlinear_arith)
        requires
            body.len() == packet.len() + len + rest.len() * len,
    ;
    if k == 0 {
        let at: int = packet.len() as int;
        assert(at + 0 * len == at) by (nonlinear_arith);
        assert forall|t: int| 0 <= t < 4 implies body[at + t] == be32(s.flows[i].ssrc)[t] by {
            assert(body.subrange(0, longer.len() as int)[at + t] == body[at + t]);
            assert(longer[at + t] == block[t]);
            assert(block.subrange(0, 4)[t] == block[t]);
        }
        assert(body.subrange(at, at + 4) =~= be32(s.flows[i].ssrc));
    } else {
        lemma_blocks_are_of_flows(next, longer, now, force, k - 1);
        assert(longer.len() + (k - 1) * len == packet.len() + k * len) by (nonlinear_arith)
            requires
                longer.len() == packet.len() + len,
        ;
        assert((seq![i] + rest)[k] == rest[k - 1]);
    }
}

/// What assembling adds to a packet is a whole number of blocks.
pub proof fn lemma_blocks_count(s: SessionState, packet: Seq<u8>, now: u32, force: bool)
    requires
        s.wf(),
    ensures
        s.assembled(packet, now, force).1.len() == packet.len() + flows_in_packet(
            s,
            packet,
            now,
            force,
        ).len() * block_len_of(s.reports),
    decreases room(packet),
{
    if s.next_block(packet, now, force) is Some {
        let i = s.next_block(packet, now, force)->0;
        let len: int = block_len_of(s.reports);
        lemma_next_due_iff_due(s, now, force);
        lemma_block_len(s.flows[i], now);
        lemma_flow_reported_wf(s, i, now);
        let next = s.flow_reported(i, now);
        let longer = packet + s.flows[i].block(now);
        let rest = flows_in_packet(next, longer, now, force);
        lemma_blocks_count(next, longer, now, force);
        assert(flows_in_packet(s, packet, now, force).len() == 1 + rest.len());
        assert(packet.len() + len + rest.len() * len == packet.len() + (1 + rest.len()) * len)
            by (nonlinear_arith);
    } else {
        assert(flows_in_packet(s, packet, now, force).len() == 0);
        assert(0 * block_len_of(s.reports) == 0);
    }
}

/// In a feedback packet the blocks stand one after the other behind the
/// eight bytes of the header, and each starts with the identifier of a flow of
/// the session on which a packet has arrived.
pub proof fn lemma_packet_blocks(s: SessionState, now: u32, force: bool, k: int)
    requires
        s.wf(),
        0 <= k < flows_in_packet(s, s.packet_header(), now, force).len(),
    ensures
        s.feedback(now, force).1 is Some,
        ({
            let packet = s.feedback(now, force).1->0;
            let j = flows_in_packet(s, s.packet_header(), now, force)[k];
            let at = 8 + k * block_len_of(s.reports);
            &&& packet.len() == 8 + flows_in_packet(s, s.packet_header(), now, force).len()
                * block_len_of(s.reports) + 4
            &&& 0 <= j < s.flows.len()
            &&& s.flows[j].total_received >= 1
            &&& at + 4 <= packet.len() - 4
            &&& packet.subrange(at, at + 4) == be32(s.flows[j].ssrc)
        }),
{
    let header = s.packet_header();
    let body = s.assembled(header, now, force).1;
    let len: int = block_len_of(s.reports);
    assert(header.len() == 8);
    lemma_blocks_are_of_flows(s, header, now, force, k);
    let count = flows_in_packet(s, header, now, force).len();
    assert(count * len >= len) by (nonlinear_arith)
        requires
            count >= 1,
            len >= 0,
    ;
    assert(k * len >= 0) by (nonlinear_arith)
        requires
            k >= 0,
            len >= 0,
    ;
    assert(body.len() > 8);
    let whole = body + be32(now);
    lemma_with_length(whole);
    let packet = with_length(whole);
    let at: int = 8 + k * len;
    let j = flows_in_packet(s, header, now, force)[k];
    assert forall|t: int| 0 <= t < 4 implies packet[at + t] == be32(s.flows[j].ssrc)[t] by {
        assert(body.subrange(at, at + 4)[t] == body[at + t]);
        assert(whole[at + t] == body[at + t]);
    }
    assert(packet.subrange(at, at + 4) =~= be32(s.flows[j].ssrc));
}

/// Counting received bytes keeps the feedback interval between 2 ms and
/// 100 ms. While the rate window goes on, rate and interval stay as they are;
/// when it ends, the interval is the one that belongs to the new average rate.
/// Either way the average rate is at least 95 % of what it was.
pub proof fn lemma_metered(s: SessionState, time_ntp: u32, size: u32)
    requires
        s.wf(),
    ensures
        s.metered(time_ntp, size).wf(),
        s.metered(time_ntp, size).flows == s.flows,
        s.metered(time_ntp, size).fb_interval == s.fb_interval || s.metered(
            time_ntp,
            size,
        ).fb_interval == interval_for(s.metered(time_ntp, size).average_rate as int),
        100 * s.metered(time_ntp, size).average_rate >= 95 * s.average_rate,
{
    let start: u32 = if s.last_rate_t == 0 {
        time_ntp
    } else {
        s.last_rate_t
    };
    let delta: int = ticks_since(time_ntp, start);
    if delta > RATE_WINDOW_NTP {
        let bytes: u32 = if s.bytes_window + size > u32::MAX {
            u32::MAX
        } else {
            (s.bytes_window + size) as u32
        };
        lemma_average_bounds(s.average_rate, bytes, delta as u32);
        lemma_interval_bounds(average_after(s.average_rate, bytes, delta as u32));
    }
}

/// Registering a packet keeps the session well formed, whether the flow is
/// known or new.
pub proof fn lemma_registered_wf(
    s: SessionState,
    time_ntp: u32,
    ssrc: u32,
    size: u32,
    seq_nr: u16,
    ce_bits: u8,
)
    requires
        s.wf(),
    ensures
        s.registered(time_ntp, ssrc, size, seq_nr, ce_bits).wf(),
        s.registered(time_ntp, ssrc, size, seq_nr, ce_bits).position(ssrc) is Some,
{
    lemma_metered(s, time_ntp, size);
    let next = s.registered(time_ntp, ssrc, size, seq_nr, ce_bits);
    match s.position(ssrc) {
        Some(i) => {
            assert(s.is_position(ssrc, i));
            assert forall|k: int| 0 <= k < next.flows.len() implies {
                &&& (#[trigger] next.flows[k]).wf()
                &&& next.flows[k].reports == next.reports
                &&& next.flows[k].initialized
                &&& next.flows[k].total_received >= 1
            } by {
                assert(s.flows[k].wf());
            }
            assert forall|a: int, b: int| 0 <= a < b < next.flows.len() implies (
            #[trigger] next.flows[a]).ssrc != (#[trigger] next.flows[b]).ssrc by {
                assert(s.flows[a].ssrc != s.flows[b].ssrc);
            }
            assert(next.is_position(ssrc, i));
        },
        None => {
            let fresh = FlowState::fresh(ssrc, s.reports as i32);
            assert(fresh.wf());
            assert forall|k: int| 0 <= k < next.flows.len() implies {
                &&& (#[trigger] next.flows[k]).wf()
                &&& next.flows[k].reports == next.reports
                &&& next.flows[k].initialized
                &&& next.flows[k].total_received >= 1
            } by {
                if k < s.flows.len() {
                    assert(s.flows[k].wf());
                }
            }
            assert forall|a: int, b: int| 0 <= a < b < next.flows.len() implies (
            #[trigger] next.flows[a]).ssrc != (#[trigger] next.flows[b]).ssrc by {
                if b < s.flows.len() {
                    assert(s.flows[a].ssrc != s.flows[b].ssrc);
                } else {
                    assert(!s.is_position(ssrc, a));
                }
            }
            assert(next.is_position(ssrc, s.flows.len() as int));
        },
    }
}

/// A flow that has just been reported is not due again at the same time: no
/// packet is pending and its report is not old. So a packet holds at most one
/// block of each flow.
pub proof fn lemma_reported_not_due_again(s: SessionState, i: int, now: u32, force: bool)
    requires
        s.wf(),
        0 <= i < s.flows.len(),
    ensures
        !s.flow_reported(i, now).due(i, now, force),
{
}

/// Assembling a packet leaves each flow either as it was or reported at `now`:
/// only the flows whose blocks went into the packet are noted as reported, and
/// those have no backlog and no pending packet afterwards.
pub proof fn lemma_assembled_flows(s: SessionState, packet: Seq<u8>, now: u32, force: bool, k: int)
    requires
        0 <= k < s.flows.len(),
    ensures
        s.assembled(packet, now, force).0.flows.len() == s.flows.len(),
        s.assembled(packet, now, force).0.flows[k] == s.flows[k] || s.assembled(
            packet,
            now,
            force,
        ).0.flows[k] == s.flows[k].reported(now),
    decreases room(packet),
{
    if s.next_block(packet, now, force) is Some {
        let i = s.next_block(packet, now, force)->0;
        lemma_next_due_iff_due(s, now, force);
        assert(be32(s.flows[i].ssrc).len() == 4);
        assert(s.flows[i].block(now).len() >= 4);
        let next = s.flow_reported(i, now);
        lemma_assembled_flows(next, packet + s.flows[i].block(now), now, force, k);
        assert(s.flows[k].reported(now).reported(now) == s.flows[k].reported(now));
    }
}

} // verus!
