//! The receiver session: all flows of one RTP session, the feedback interval,
//! and the feedback packets that report on the flows.
use crate::flow_index::entries_of;
use crate::flow_index::index_get;
use crate::flow_index::index_insert;
use crate::flow_index::index_new;
use crate::flow_index::FlowIndex;
use crate::ntp::elapsed;
use crate::ntp::getTimeInNtp;
use crate::ntp::ticks_since;
use crate::ntp::Clock;
use crate::rate::average_after;
use crate::rate::feedback_interval;
use crate::rate::interval_for;
use crate::rate::next_average_rate;
use crate::rate::INITIAL_FEEDBACK_INTERVAL;
use crate::rate::INITIAL_RATE;
use crate::rate::MAX_FEEDBACK_INTERVAL;
use crate::rate::MIN_FEEDBACK_INTERVAL;
use crate::rate::RATE_WINDOW_NTP;
use crate::stream::lemma_block_len;
use crate::stream::FlowState;
use crate::stream::Stream;
use crate::wire::be32;
use crate::wire::push_be32;
use vstd::prelude::*;

verus! {

/// How many sequence numbers a report block covers unless the session is told
/// otherwise.
pub const kReportedRtpPackets: usize = 64;

/// A packet without its trailing time stamp grows no larger than this many
/// bytes, unless its first block alone is larger.
pub const kMaxRtcpSize: usize = 900;

/// Length of the header of a feedback packet in bytes.
pub const PACKET_HEADER_LEN: usize = 8;

/// A flow is reported at the latest when this many packets are pending.
pub const PENDING_LIMIT: i32 = 8;

/// A flow is reported again once more than this many ticks have passed since
/// its last report (10 ms).
pub const REPORT_AGE_NTP: u32 = 655;

/// Identifier under which a session sends its feedback.
pub const FEEDBACK_SSRC: u32 = 10;

/// The state of a session as the contracts see it.
pub struct SessionState {
    /// The flows, in the order in which their first packets arrived.
    pub flows: Seq<FlowState>,
    /// Time of the last feedback packet.
    pub last_feedback_t: u32,
    /// Bytes received in the current rate window.
    pub bytes_window: u32,
    /// Start of the current rate window; 0 until the first packet.
    pub last_rate_t: u32,
    /// Average received rate in bits per second.
    pub average_rate: u64,
    /// Feedback interval in ticks.
    pub fb_interval: u32,
    /// Identifier under which the session sends its feedback.
    pub ssrc: u32,
    /// Backlog at which a flow asks for a report at once.
    pub ack_diff: i32,
    /// How many sequence numbers a report block covers.
    pub reports: usize,
    /// The clock of the session, started when the session was made.
    pub clock: Clock,
}

impl SessionState {
    /// A session without flows that reports `reports` sequence numbers per
    /// block, flushes at a backlog of `ack_diff`, and takes its time from
    /// `clock`.
    pub open spec fn initial(reports: usize, ack_diff: i32, clock: Clock) -> SessionState {
        SessionState {
            flows: Seq::empty(),
            last_feedback_t: 0,
            bytes_window: 0,
            last_rate_t: 0,
            average_rate: INITIAL_RATE,
            fb_interval: INITIAL_FEEDBACK_INTERVAL,
            ssrc: FEEDBACK_SSRC,
            ack_diff,
            reports,
            clock,
        }
    }

    /// What holds of every session: the configuration is in range, the
    /// feedback interval is between 2 ms and 100 ms, every flow has received a
    /// packet and reports as many sequence numbers as the session says, and no
    /// two flows share an identifier.
    pub open spec fn wf(self) -> bool {
        &&& 1 <= self.reports <= 65536
        &&& 1 <= self.ack_diff
        &&& MIN_FEEDBACK_INTERVAL <= self.fb_interval <= MAX_FEEDBACK_INTERVAL
        &&& forall|i: int|
            0 <= i < self.flows.len() ==> {
                &&& (#[trigger] self.flows[i]).wf()
                &&& self.flows[i].reports == self.reports
                &&& self.flows[i].initialized
                &&& self.flows[i].total_received >= 1
            }
        &&& forall|i: int, j: int|
            0 <= i < j < self.flows.len() ==> (#[trigger] self.flows[i]).ssrc != (
            #[trigger] self.flows[j]).ssrc
    }

    /// Whether `i` is the place of the flow with identifier `ssrc`.
    pub open spec fn is_position(self, ssrc: u32, i: int) -> bool {
        0 <= i < self.flows.len() && self.flows[i].ssrc == ssrc
    }

    /// The place of the flow with identifier `ssrc`, if the session has one.
    pub open spec fn position(self, ssrc: u32) -> Option<int> {
        if exists|i: int| self.is_position(ssrc, i) {
            Some(choose|i: int| self.is_position(ssrc, i))
        } else {
            None
        }
    }

    /// The state after `size` more bytes have arrived at `time_ntp`, as far as
    /// the rate is concerned. The first packet starts the rate window. Once
    /// more than 100 ms have passed since its start the window ends: the
    /// average rate and the feedback interval are set anew and the next window
    /// starts empty. The byte count stops at the largest value of its type.
    pub open spec fn metered(self, time_ntp: u32, size: u32) -> SessionState {
        let bytes: u32 = if self.bytes_window + size > u32::MAX {
            u32::MAX
        } else {
            (self.bytes_window + size) as u32
        };
        let start: u32 = if self.last_rate_t == 0 {
            time_ntp
        } else {
            self.last_rate_t
        };
        let delta: int = ticks_since(time_ntp, start);
        if delta > RATE_WINDOW_NTP {
            let rate: int = average_after(self.average_rate, bytes, delta as u32);
            SessionState {
                bytes_window: 0,
                last_rate_t: time_ntp,
                average_rate: rate as u64,
                fb_interval: interval_for(rate) as u32,
                ..self
            }
        } else {
            SessionState { bytes_window: bytes, last_rate_t: start, ..self }
        }
    }

    /// The state after a packet of `size` bytes on flow `ssrc`, numbered
    /// `seq_nr` and with ECN bits `ce_bits`, has arrived at `time_ntp`. A flow
    /// that the session has not seen is added behind the others.
    pub open spec fn registered(
        self,
        time_ntp: u32,
        ssrc: u32,
        size: u32,
        seq_nr: u16,
        ce_bits: u8,
    ) -> SessionState {
        let metered = self.metered(time_ntp, size);
        match self.position(ssrc) {
            Some(i) => SessionState {
                flows: self.flows.update(i, self.flows[i].received(time_ntp, seq_nr, ce_bits)),
                ..metered
            },
            None => SessionState {
                flows: self.flows.push(
                    FlowState::fresh(ssrc, self.reports as i32).received(time_ntp, seq_nr, ce_bits),
                ),
                ..metered
            },
        }
    }

    /// Whether a packet numbered `seq_nr` on flow `ssrc` does not directly
    /// follow the packet that arrived last on that flow.
    pub open spec fn out_of_sequence(self, ssrc: u32, seq_nr: u16) -> bool {
        match self.position(ssrc) {
            Some(i) => self.flows[i].out_of_sequence(seq_nr),
            None => FlowState::fresh(ssrc, self.reports as i32).out_of_sequence(seq_nr),
        }
    }

    /// Whether feedback is due whatever the time: the backlog of some flow has
    /// reached the threshold.
    pub open spec fn flush_forced(self) -> bool {
        exists|i: int|
            0 <= i < self.flows.len() && (#[trigger] self.flows[i]).needs_flush(self.ack_diff as int)
    }

    /// Whether some flow has received a packet since its last report.
    pub open spec fn has_pending(self) -> bool {
        exists|i: int| 0 <= i < self.flows.len() && (#[trigger] self.flows[i]).pending >= 1
    }

    /// Number of pending packets at which a flow is reported: 8, or the flush
    /// threshold if that is less.
    pub open spec fn pending_limit(self) -> int {
        if self.ack_diff < PENDING_LIMIT {
            self.ack_diff as int
        } else {
            PENDING_LIMIT as int
        }
    }

    /// Whether flow `i` may go into a feedback packet made at `now`: enough
    /// packets are pending, or its last report is more than 10 ms old, or
    /// `force` is set and at least one packet is pending.
    pub open spec fn due(self, i: int, now: u32, force: bool) -> bool {
        let flow = self.flows[i];
        ||| flow.pending >= self.pending_limit()
        ||| ticks_since(now, flow.last_feedback_t) > REPORT_AGE_NTP
        ||| (force && flow.pending > 0)
    }

    /// Whether flow `i` is the one that goes into the packet next: it is due,
    /// no due flow was reported longer ago, and of the due flows reported at
    /// the same time it is the first.
    pub open spec fn is_next(self, i: int, now: u32, force: bool) -> bool {
        &&& 0 <= i < self.flows.len()
        &&& self.due(i, now, force)
        &&& forall|j: int|
            0 <= j < self.flows.len() && #[trigger] self.due(j, now, force) ==> {
                ||| self.flows[i].last_feedback_t < self.flows[j].last_feedback_t
                ||| (self.flows[i].last_feedback_t == self.flows[j].last_feedback_t && i <= j)
            }
    }

    /// The flow that goes into the packet next, if any flow is due.
    pub open spec fn next_due(self, now: u32, force: bool) -> Option<int> {
        if exists|i: int| self.is_next(i, now, force) {
            Some(choose|i: int| self.is_next(i, now, force))
        } else {
            None
        }
    }

    /// The state after flow `i` has been reported at `now`.
    pub open spec fn flow_reported(self, i: int, now: u32) -> SessionState {
        SessionState { flows: self.flows.update(i, self.flows[i].reported(now)), ..self }
    }

    /// The first eight bytes of a feedback packet: version 2 without padding,
    /// packet type 205, a length still to be filled in, and the identifier of
    /// the session.
    pub open spec fn packet_header(self) -> Seq<u8> {
        seq![0x80u8, 205u8, 0u8, 0u8] + be32(self.ssrc)
    }

    /// Whether the block of flow `i` may be added to `packet`: the packet with
    /// the block stays within `kMaxRtcpSize` bytes, or the packet holds no
    /// block yet. So a packet always has room for its first block, even for a
    /// block that by itself is larger than the cap.
    pub open spec fn fits(self, packet: Seq<u8>, i: int, now: u32) -> bool {
        packet.len() <= PACKET_HEADER_LEN || packet.len() + self.flows[i].block(now).len()
            <= kMaxRtcpSize
    }

    /// The flow whose block is added to `packet` next: the flow that is next
    /// among the due ones, if its block fits.
    pub open spec fn next_block(self, packet: Seq<u8>, now: u32, force: bool) -> Option<int> {
        match self.next_due(now, force) {
            Some(i) => if self.fits(packet, i, now) {
                Some(i)
            } else {
                None
            },
            None => None,
        }
    }

    /// Adds report blocks to `packet` until no flow is due or the block of the
    /// flow that is next does not fit, and gives the session and the packet
    /// after that.
    pub open spec fn assembled(self, packet: Seq<u8>, now: u32, force: bool) -> (
        SessionState,
        Seq<u8>,
    )
        decreases room(packet),
    {
        match self.next_block(packet, now, force) {
            None => (self, packet),
            Some(i) => {
                proof {
                    assert(be32(self.flows[i].ssrc).len() == 4);
                    assert(self.flows[i].block(now).len() >= 4);
                    assert((packet + self.flows[i].block(now)).len() > packet.len());
                }
                self.flow_reported(i, now).assembled(
                    packet + self.flows[i].block(now),
                    now,
                    force,
                )
            },
        }
    }

    /// The feedback packet that the session sends at `now`, and the session
    /// after it: the header, the blocks of the due flows, the report time, and
    /// the length in 32-bit words less one in bytes 2 and 3. Without a due flow
    /// there is no packet and the session stays as it is.
    pub open spec fn feedback(self, now: u32, force: bool) -> (SessionState, Option<Seq<u8>>) {
        let (after, body) = self.assembled(self.packet_header(), now, force);
        if body.len() > 8 {
            (SessionState { last_feedback_t: now, ..after }, Some(with_length(body + be32(now))))
        } else {
            (self, None)
        }
    }

    /// The session and the feedback packet after a packet of `size` bytes on
    /// flow `ssrc` has arrived at `rx_time`: the packet is registered, and if
    /// feedback is then due whatever the time, or the packet carries the marker
    /// bit, a feedback packet is made at `fb_time`.
    pub open spec fn arrival(
        self,
        rx_time: u32,
        fb_time: u32,
        size: u32,
        seq_nr: u16,
        ssrc: u32,
        marker: bool,
        ce_bits: u8,
    ) -> (SessionState, Option<Seq<u8>>) {
        let registered = self.registered(rx_time, ssrc, size, seq_nr, ce_bits);
        if registered.flush_forced() || marker {
            registered.feedback(fb_time, marker)
        } else {
            (registered, None)
        }
    }

    /// Whether the periodic timer finds feedback due at `now`: some flow has a
    /// pending packet and either feedback is due whatever the time or the last
    /// report on that flow is older than the feedback interval.
    pub open spec fn periodic_due(self, now: u32) -> bool {
        exists|i: int|
            0 <= i < self.flows.len() && (#[trigger] self.flows[i]).pending >= 1 && (
            self.flush_forced() || ticks_since(now, self.flows[i].last_feedback_t)
                > self.fb_interval)
    }

    /// The session and the feedback packet after the periodic timer has fired
    /// at `now`: if feedback is due, a packet is made for every flow with a
    /// pending packet.
    pub open spec fn periodic(self, now: u32) -> (SessionState, Option<Seq<u8>>) {
        if self.periodic_due(now) {
            self.feedback(now, true)
        } else {
            (self, None)
        }
    }
}

/// What the arrival of an RTP packet led to.
pub struct Arrival {
    /// The packet did not directly follow the one before it on its flow.
    pub out_of_sequence: bool,
    /// The feedback packet to send, if one is due.
    pub feedback: Option<Vec<u8>>,
}

/// How many bytes a packet could still grow by, counted so that a packet at
/// the cap has one left; assembling a packet ends because this falls with every
/// block.
pub open spec fn room(packet: Seq<u8>) -> nat {
    if packet.len() <= kMaxRtcpSize {
        (kMaxRtcpSize - packet.len() + 1) as nat
    } else {
        0
    }
}

/// The bytes of a feedback packet, if there is one.
pub open spec fn packet_bytes(packet: Option<Vec<u8>>) -> Option<Seq<u8>> {
    match packet {
        Some(bytes) => Some(bytes@),
        None => None,
    }
}

/// `packet` with its length, in 32-bit words less one, written big-endian into
/// bytes 2 and 3.
pub open spec fn with_length(packet: Seq<u8>) -> Seq<u8> {
    let words: int = packet.len() / 4 - 1;
    packet.update(2, (words / 256) as u8).update(3, (words % 256) as u8)
}

/// The receiver side of one RTP session.
pub struct ScreamRx {
    last_feedback_t_ntp: u32,
    bytes_received: u32,
    last_rate_compute_t_ntp: u32,
    average_received_rate: u64,
    rtcp_fb_interval_ntp: u32,
    ssrc: u32,
    ack_diff: i32,
    n_reported_rtp_packets: usize,
    streams: Vec<Stream>,
    index: FlowIndex,
    clock: Clock,
}

impl View for ScreamRx {
    type V = SessionState;

    closed spec fn view(&self) -> SessionState {
        SessionState {
            flows: self.streams@.map_values(|stream: Stream| stream@),
            last_feedback_t: self.last_feedback_t_ntp,
            bytes_window: self.bytes_received,
            last_rate_t: self.last_rate_compute_t_ntp,
            average_rate: self.average_received_rate,
            fb_interval: self.rtcp_fb_interval_ntp,
            ssrc: self.ssrc,
            ack_diff: self.ack_diff,
            reports: self.n_reported_rtp_packets,
            clock: self.clock,
        }
    }
}

impl Default for ScreamRx {
    /// A session without flows that reports 64 sequence numbers per block and
    /// flushes at a backlog of 16.
    fn default() -> (session: ScreamRx)
        ensures
            session@ == SessionState::initial(64, 16, session@.clock),
            session.wf(),
    {
        let reports: usize = kReportedRtpPackets;
        let quarter: usize = reports / 4;
        let ack_diff: i32 = if quarter < 1 {
            1
        } else {
            quarter as i32
        };
        ScreamRx::build(reports, ack_diff)
    }
}

impl ScreamRx {
    /// The lookup table agrees with the flows: it maps the identifier of each
    /// flow to its place and holds nothing else.
    pub closed spec fn indexed(&self) -> bool {
        &&& forall|i: int|
            0 <= i < self.streams.len() ==> {
                &&& entries_of(self.index).contains_key((#[trigger] self.streams[i])@.ssrc)
                &&& entries_of(self.index)[self.streams[i]@.ssrc] == i
            }
        &&& forall|k: u32| #[trigger]
            entries_of(self.index).contains_key(k) ==> {
                &&& entries_of(self.index)[k] < self.streams.len()
                &&& self.streams[entries_of(self.index)[k] as int]@.ssrc == k
            }
    }

    /// What every function of a session expects and keeps.
    pub open spec fn wf(&self) -> bool {
        self@.wf() && self.indexed()
    }

    /// Makes a session without flows and starts its clock.
    fn build(reports: usize, ack_diff: i32) -> (session: ScreamRx)
        requires
            1 <= reports <= 65536,
            1 <= ack_diff,
        ensures
            session@ == SessionState::initial(reports, ack_diff, session@.clock),
            session.wf(),
    {
        let session = ScreamRx {
            last_feedback_t_ntp: 0,
            bytes_received: 0,
            last_rate_compute_t_ntp: 0,
            average_received_rate: INITIAL_RATE,
            rtcp_fb_interval_ntp: INITIAL_FEEDBACK_INTERVAL,
            ssrc: FEEDBACK_SSRC,
            ack_diff,
            n_reported_rtp_packets: reports,
            streams: Vec::new(),
            index: index_new(),
            clock: Clock::new(),
        };
        assert(session@.flows =~= Seq::empty());
        session
    }

    /// A session that reports `nReportedRtpPackets` sequence numbers per block
    /// and flushes at a backlog of `ackDiff`. A block can cover from 1 to 65536
    /// sequence numbers, and a backlog is at least one packet; there is no
    /// session for another count or for a threshold below 1.
    pub fn new(nReportedRtpPackets: usize, ackDiff: i32) -> (session: Option<ScreamRx>)
        ensures
            session is Some <==> 1 <= nReportedRtpPackets <= 65536 && 1 <= ackDiff,
            session matches Some(s) ==> s@ == SessionState::initial(
                nReportedRtpPackets,
                ackDiff,
                s@.clock,
            ) && s.wf(),
    {
        if 1 <= nReportedRtpPackets && nReportedRtpPackets <= 65536 && 1 <= ackDiff {
            Some(ScreamRx::build(nReportedRtpPackets, ackDiff))
        } else {
            None
        }
    }

    /// Counts `size` received bytes and, at the end of a rate window, sets the
    /// average rate and the feedback interval anew.
    fn meter(&mut self, time_ntp: u32, size: u32)
        requires
            old(self).wf(),
        ensures
            final(self)@ == old(self)@.metered(time_ntp, size),
            final(self).streams == old(self).streams,
            final(self).index == old(self).index,
            final(self).wf(),
    {
        self.bytes_received = self.bytes_received.saturating_add(size);
        if self.last_rate_compute_t_ntp == 0 {
            self.last_rate_compute_t_ntp = time_ntp;
        }
        let delta: u32 = elapsed(time_ntp, self.last_rate_compute_t_ntp);
        if delta > RATE_WINDOW_NTP {
            self.last_rate_compute_t_ntp = time_ntp;
            self.average_received_rate = next_average_rate(
                self.average_received_rate,
                self.bytes_received,
                delta,
            );
            self.rtcp_fb_interval_ntp = feedback_interval(self.average_received_rate);
            self.bytes_received = 0;
        }
    }

    /// Registers the arrival of an RTP packet of `size` bytes on flow `ssrc`.
    /// The result tells whether the packet did not directly follow the one
    /// before it on its flow.
    pub fn receive_register(
        &mut self,
        time_ntp: u32,
        ssrc: u32,
        size: u32,
        seqNr: u16,
        ceBits: u8,
    ) -> (out_of_sequence: bool)
        requires
            old(self).wf(),
        ensures
            final(self).wf(),
            final(self)@ == old(self)@.registered(time_ntp, ssrc, size, seqNr, ceBits),
            out_of_sequence == old(self)@.out_of_sequence(ssrc, seqNr),
    {
        self.meter(time_ntp, size);
        let ghost before = self@;
        match index_get(&self.index, ssrc) {
            Some(i) => {
                assert(old(self)@.is_position(ssrc, i as int));
                assert(old(self)@.position(ssrc) == Some(i as int));
                let out_of_sequence: bool = self.streams[i].receive(time_ntp, seqNr, ceBits);
                assert(self@.flows =~= before.flows.update(
                    i as int,
                    before.flows[i as int].received(time_ntp, seqNr, ceBits),
                ));
                out_of_sequence
            },
            None => {
                assert(old(self)@.position(ssrc) is None);
                let mut stream: Stream = Stream::new(ssrc).with_reports(
                    self.n_reported_rtp_packets as i32,
                );
                let out_of_sequence: bool = stream.receive(time_ntp, seqNr, ceBits);
                index_insert(&mut self.index, ssrc, self.streams.len());
                self.streams.push(stream);
                assert(self@.flows =~= before.flows.push(
                    FlowState::fresh(ssrc, before.reports as i32).received(time_ntp, seqNr, ceBits),
                ));
                out_of_sequence
            },
        }
    }

    /// Picks the flow that goes into the packet next: of the flows that are
    /// due, the one reported longest ago, and the first of several such.
    pub fn next_flow(&self, time_ntp: u32, isMark: bool) -> (next: Option<usize>)
        ensures
            self@.next_due(time_ntp, isMark) == (match next {
                Some(i) => Some(i as int),
                None => None,
            }),
            next matches Some(i) ==> i < self@.flows.len(),
    {
        let limit: i32 = if self.ack_diff < PENDING_LIMIT {
            self.ack_diff
        } else {
            PENDING_LIMIT
        };
        let mut best: Option<usize> = None;
        let mut best_t: u32 = 0;
        let mut i: usize = 0;
        while i < self.streams.len()
            invariant
                i <= self.streams.len(),
                limit == self@.pending_limit(),
                match best {
                    Some(b) => {
                        &&& b < i
                        &&& best_t == self@.flows[b as int].last_feedback_t
                        &&& self@.due(b as int, time_ntp, isMark)
                        &&& forall|j: int|
                            0 <= j < i && #[trigger] self@.due(j, time_ntp, isMark) ==> {
                                ||| best_t < self@.flows[j].last_feedback_t
                                ||| (best_t == self@.flows[j].last_feedback_t && b <= j)
                            }
                    },
                    None => forall|j: int| 0 <= j < i ==> !#[trigger] self@.due(j, time_ntp, isMark),
                },
            decreases self.streams.len() - i,
        {
            let pending: i32 = self.streams[i].pending();
            let last: u32 = self.streams[i].last_feedback_t();
            let due: bool = pending >= limit || elapsed(time_ntp, last) > REPORT_AGE_NTP || (isMark
                && pending > 0);
            assert(due == self@.due(i as int, time_ntp, isMark));
            if due && (best.is_none() || last < best_t) {
                best = Some(i);
                best_t = last;
            }
            i = i + 1;
        }
        proof {
            match best {
                Some(b) => {
                    assert(self@.is_next(b as int, time_ntp, isMark));
                    lemma_next_unique(
                        self@,
                        b as int,
                        choose|k: int| self@.is_next(k, time_ntp, isMark),
                        time_ntp,
                        isMark,
                    );
                },
                None => {
                    assert(forall|k: int| !self@.is_next(k, time_ntp, isMark));
                },
            }
        }
        best
    }

    /// Appends the report block of flow `i` to `bytes` and notes the report on
    /// the flow.
    fn report_flow(&mut self, i: usize, time_ntp: u32, bytes: &mut Vec<u8>)
        requires
            old(self).wf(),
            i < old(self)@.flows.len(),
        ensures
            final(self).wf(),
            final(self)@ == old(self)@.flow_reported(i as int, time_ntp),
            final(bytes)@ == old(bytes)@ + old(self)@.flows[i as int].block(time_ntp),
            final(bytes)@.len() == old(bytes)@.len() + old(self)@.flows[i as int].block_len(),
            8 <= old(self)@.flows[i as int].block_len() <= 131080,
    {
        proof {
            lemma_block_len(self@.flows[i as int], time_ntp);
        }
        self.streams[i].getStandardizedFeedback(time_ntp, bytes);
        self.streams[i].mark_reported(time_ntp);
        assert(self@.flows =~= old(self)@.flow_reported(i as int, time_ntp).flows);
    }

    /// Builds the feedback packet for `time_ntp` and notes the report on every
    /// flow that went into it. With `isMark` set, every flow with a pending
    /// packet is due. Blocks are added in the order in which the flows are due,
    /// as long as the packet stays within `kMaxRtcpSize` bytes; the first block
    /// always goes in. Returns `None`, and leaves the session as it is, when no
    /// flow is due.
    pub fn createStandardizedFeedback(&mut self, time_ntp: u32, isMark: bool) -> (packet: Option<
        Vec<u8>,
    >)
        requires
            old(self).wf(),
        ensures
            final(self).wf(),
            final(self)@ == old(self)@.feedback(time_ntp, isMark).0,
            packet_bytes(packet) == old(self)@.feedback(time_ntp, isMark).1,
            packet is Some <==> old(self)@.next_due(time_ntp, isMark) is Some,
    {
        proof {
            crate::session_laws::lemma_feedback_iff_due(old(self)@, time_ntp, isMark);
        }
        let mut bytes: Vec<u8> = Vec::with_capacity(300);
        bytes.push(0x80);
        bytes.push(205);
        bytes.push(0);
        bytes.push(0);
        push_be32(&mut bytes, self.ssrc);
        assert(bytes@ =~= self@.packet_header());
        let mut is_feedback: bool = false;
        loop
            invariant_except_break
                self@.assembled(bytes@, time_ntp, isMark) == old(self)@.assembled(
                    old(self)@.packet_header(),
                    time_ntp,
                    isMark,
                ),
            invariant
                self.wf(),
                self@ == (SessionState { flows: self@.flows, ..old(self)@ }),
                8 <= bytes@.len() <= 8 + 131080,
                is_feedback <==> bytes@.len() > 8,
                !is_feedback ==> self@ == old(self)@,
            ensures
                old(self)@.assembled(old(self)@.packet_header(), time_ntp, isMark) == (
                    self@,
                    bytes@,
                ),
            decreases room(bytes@),
        {
            match self.next_flow(time_ntp, isMark) {
                None => {
                    break ;
                },
                Some(i) => {
                    let block_len: usize = self.streams[i].block_size();
                    if bytes.len() > PACKET_HEADER_LEN && bytes.len() + block_len > kMaxRtcpSize {
                        assert(!self@.fits(bytes@, i as int, time_ntp));
                        break ;
                    }
                    assert(self@.fits(bytes@, i as int, time_ntp));
                    self.report_flow(i, time_ntp, &mut bytes);
                    is_feedback = true;
                },
            }
        }
        if !is_feedback {
            return None;
        }
        push_be32(&mut bytes, time_ntp);
        let ghost body = bytes@;
        let words: usize = bytes.len() / 4 - 1;
        bytes[2] = (words / 256) as u8;
        bytes[3] = (words % 256) as u8;
        assert(bytes@ =~= with_length(body));
        self.last_feedback_t_ntp = time_ntp;
        Some(bytes)
    }

    /// Registers an RTP packet that arrived at `time_ntp` and, if feedback is
    /// then due whatever the time or the packet carries the marker bit, makes
    /// the feedback packet for `feedback_time_ntp`.
    pub fn receive_at(
        &mut self,
        time_ntp: u32,
        feedback_time_ntp: u32,
        recvlen: u32,
        seqNr: u16,
        ssrc: u32,
        marker: bool,
        EcnCe: u8,
    ) -> (arrival: Arrival)
        requires
            old(self).wf(),
        ensures
            final(self).wf(),
            final(self)@ == old(self)@.arrival(
                time_ntp,
                feedback_time_ntp,
                recvlen,
                seqNr,
                ssrc,
                marker,
                EcnCe,
            ).0,
            packet_bytes(arrival.feedback) == old(self)@.arrival(
                time_ntp,
                feedback_time_ntp,
                recvlen,
                seqNr,
                ssrc,
                marker,
                EcnCe,
            ).1,
            arrival.out_of_sequence == old(self)@.out_of_sequence(ssrc, seqNr),
    {
        let out_of_sequence: bool = self.receive_register(time_ntp, ssrc, recvlen, seqNr, EcnCe);
        let feedback: Option<Vec<u8>> = if self.checkIfFlushAck() || marker {
            self.createStandardizedFeedback(feedback_time_ntp, marker)
        } else {
            None
        };
        Arrival { out_of_sequence, feedback }
    }

    /// Registers an RTP packet that arrives now and returns the feedback packet
    /// to send, if one is due. The clock is read on arrival and once more when
    /// a feedback packet is made; the outcome is that of `receive_at` for the
    /// two readings.
    pub fn ScreamReceiver(
        &mut self,
        recvlen: u32,
        seqNr: u16,
        _payload_type: u8,
        _timestamp: u32,
        ssrc: u32,
        marker: bool,
        EcnCe: u8,
    ) -> (arrival: Arrival)
        requires
            old(self).wf(),
        ensures
            final(self).wf(),
            arrival.out_of_sequence == old(self)@.out_of_sequence(ssrc, seqNr),
            exists|rx_time: u32, fb_time: u32|
                (final(self)@, packet_bytes(arrival.feedback)) == #[trigger] old(self)@.arrival(
                    rx_time,
                    fb_time,
                    recvlen,
                    seqNr,
                    ssrc,
                    marker,
                    EcnCe,
                ),
    {
        let time_ntp: u32 = getTimeInNtp(&self.clock);
        let out_of_sequence: bool = self.receive_register(time_ntp, ssrc, recvlen, seqNr, EcnCe);
        let feedback: Option<Vec<u8>> = if self.checkIfFlushAck() || marker {
            let feedback_time_ntp: u32 = getTimeInNtp(&self.clock);
            let feedback: Option<Vec<u8>> = self.createStandardizedFeedback(
                feedback_time_ntp,
                marker,
            );
            assert((self@, packet_bytes(feedback)) == old(self)@.arrival(
                time_ntp,
                feedback_time_ntp,
                recvlen,
                seqNr,
                ssrc,
                marker,
                EcnCe,
            ));
            feedback
        } else {
            assert((self@, packet_bytes(None)) == old(self)@.arrival(
                time_ntp,
                time_ntp,
                recvlen,
                seqNr,
                ssrc,
                marker,
                EcnCe,
            ));
            None
        };
        Arrival { out_of_sequence, feedback }
    }

    /// Whether the periodic timer finds feedback due at `time_ntp`.
    pub fn periodic_due(&self, time_ntp: u32) -> (due: bool)
        ensures
            due == self@.periodic_due(time_ntp),
    {
        let forced: bool = self.checkIfFlushAck();
        let mut i: usize = 0;
        while i < self.streams.len()
            invariant
                i <= self.streams.len(),
                forced == self@.flush_forced(),
                forall|j: int|
                    0 <= j < i ==> !((#[trigger] self@.flows[j]).pending >= 1 && (forced
                        || ticks_since(time_ntp, self@.flows[j].last_feedback_t)
                        > self@.fb_interval)),
            decreases self.streams.len() - i,
        {
            if self.streams[i].pending() >= 1 && (forced || elapsed(
                time_ntp,
                self.streams[i].last_feedback_t(),
            ) > self.rtcp_fb_interval_ntp) {
                assert(self@.flows[i as int].pending >= 1);
                return true;
            }
            i = i + 1;
        }
        false
    }

    /// The periodic timer has fired at `time_ntp`: returns the feedback packet
    /// to send, if feedback is due.
    pub fn periodic_flush_at(&mut self, time_ntp: u32) -> (packet: Option<Vec<u8>>)
        requires
            old(self).wf(),
        ensures
            final(self).wf(),
            final(self)@ == old(self)@.periodic(time_ntp).0,
            packet_bytes(packet) == old(self)@.periodic(time_ntp).1,
    {
        if self.periodic_due(time_ntp) {
            self.createStandardizedFeedback(time_ntp, true)
        } else {
            None
        }
    }

    /// The periodic timer has fired: reads the clock and returns the feedback
    /// packet to send, if feedback is due. The outcome is that of
    /// `periodic_flush_at` for the reading.
    pub fn periodic_flush(&mut self) -> (packet: Option<Vec<u8>>)
        requires
            old(self).wf(),
        ensures
            final(self).wf(),
            exists|time_ntp: u32|
                (final(self)@, packet_bytes(packet)) == #[trigger] old(self)@.periodic(time_ntp),
    {
        let time_ntp: u32 = getTimeInNtp(&self.clock);
        let packet: Option<Vec<u8>> = self.periodic_flush_at(time_ntp);
        assert((self@, packet_bytes(packet)) == old(self)@.periodic(time_ntp));
        packet
    }

    /// The flow with identifier `ssrc`, if a packet of it has arrived.
    pub fn stream(&self, ssrc: u32) -> (found: Option<&Stream>)
        requires
            self.wf(),
        ensures
            match self@.position(ssrc) {
                Some(i) => found matches Some(stream) && stream@ == self@.flows[i],
                None => found is None,
            },
    {
        match index_get(&self.index, ssrc) {
            Some(i) => {
                assert(self@.is_position(ssrc, i as int));
                Some(&self.streams[i])
            },
            None => None,
        }
    }

    /// Number of flows of which a packet has arrived.
    pub fn stream_count(&self) -> (n: usize)
        ensures
            n == self@.flows.len(),
    {
        self.streams.len()
    }

    /// Average received rate in bits per second.
    pub fn average_received_rate(&self) -> (rate: u64)
        ensures
            rate == self@.average_rate,
    {
        self.average_received_rate
    }

    /// Time of the last feedback packet.
    pub fn getLastFeedbackT(&self) -> (t: u32)
        ensures
            t == self@.last_feedback_t,
    {
        self.last_feedback_t_ntp
    }

    /// The feedback interval in ticks.
    pub fn getRtcpFbInterval(&self) -> (interval: u32)
        ensures
            interval == self@.fb_interval,
    {
        self.rtcp_fb_interval_ntp
    }

    /// Whether feedback is due whatever the time.
    pub fn checkIfFlushAck(&self) -> (flush: bool)
        ensures
            flush == self@.flush_forced(),
    {
        let mut i: usize = 0;
        while i < self.streams.len()
            invariant
                i <= self.streams.len(),
                forall|j: int| 0 <= j < i ==> !(#[trigger] self@.flows[j]).needs_flush(self.ack_diff as int),
            decreases self.streams.len() - i,
        {
            if self.streams[i].checkIfFlushAck(self.ack_diff) {
                assert(self@.flows[i as int].needs_flush(self.ack_diff as int));
                return true;
            }
            i = i + 1;
        }
        false
    }

    /// Whether some flow has received a packet since its last report.
    pub fn isFeedback(&self, _time_ntp: u32) -> (pending: bool)
        ensures
            pending == self@.has_pending(),
    {
        let mut i: usize = 0;
        while i < self.streams.len()
            invariant
                i <= self.streams.len(),
                forall|j: int| 0 <= j < i ==> (#[trigger] self@.flows[j]).pending < 1,
            decreases self.streams.len() - i,
        {
            if self.streams[i].pending() >= 1 {
                assert(self@.flows[i as int].pending >= 1);
                return true;
            }
            i = i + 1;
        }
        false
    }
}

/// At most one flow goes into the packet next.
pub proof fn lemma_next_unique(s: SessionState, a: int, b: int, now: u32, force: bool)
    requires
        s.is_next(a, now, force),
        s.is_next(b, now, force),
    ensures
        a == b,
{
}

} // verus!
