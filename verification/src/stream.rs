//! The reception history of one flow, and the report block built from it.
use crate::seqnum::seq_add;
use crate::seqnum::seq_advances;
use crate::seqnum::seq_diff;
use crate::seqnum::seq_distance;
use crate::seqnum::seq_is_newer;
use crate::seqnum::seq_plus;
use crate::seqnum::seq_sub;
use crate::wire::be16;
use crate::wire::be32;
use crate::wire::encode_received;
use crate::wire::push_be16;
use crate::wire::push_be32;
use crate::wire::received_entry;
use vstd::prelude::*;

verus! {

/// Number of slots in a flow's history; a packet is kept in slot
/// `sequence number % kRxHistorySize`.
pub const kRxHistorySize: usize = 128;

/// What the history keeps of one packet.
#[derive(Clone, Copy, Debug)]
pub struct Slot {
    /// Sequence number of the packet, or a placeholder while the slot is not
    /// filled.
    pub seq_nr: u16,
    /// Arrival time of the packet.
    pub rx_time: u32,
    /// ECN bits of the packet.
    pub ce_bits: u8,
    /// Whether a packet has gone into the slot.
    pub filled: bool,
}

impl Slot {
    /// A slot that no packet has filled, holding `seq_nr` as its placeholder.
    pub open spec fn unfilled(seq_nr: u16) -> Slot {
        Slot { seq_nr, rx_time: 0, ce_bits: 0, filled: false }
    }

    /// Makes a slot that no packet has filled.
    pub fn blank(seq_nr: u16) -> (slot: Slot)
        ensures
            slot == Slot::unfilled(seq_nr),
    {
        Slot { seq_nr, rx_time: 0, ce_bits: 0, filled: false }
    }
}

/// `array_init::array_init` calls the initializer once for each index in order
/// and returns the array of what it gave: here every slot is unfilled and holds
/// `seq_nr`.
#[verifier::external_body]
fn blank_history(seq_nr: u16) -> (history: [Slot; 128])
    ensures
        forall|i: int| 0 <= i < 128 ==> history[i] == Slot::unfilled(seq_nr),
{
    array_init::array_init(|_| Slot::blank(seq_nr))
}

/// Marks every slot as unfilled, with `placeholder` as its sequence number.
fn clear_history(history: &mut [Slot; 128], placeholder: u16)
    ensures
        final(history)@ =~= Seq::new(128, |i: int| Slot::unfilled(placeholder)),
{
    let mut n: usize = 0;
    while n < kRxHistorySize
        invariant
            n <= 128,
            forall|i: int| 0 <= i < n ==> history[i] == Slot::unfilled(placeholder),
        decreases 128 - n,
    {
        history[n] = Slot::blank(placeholder);
        n = n + 1;
    }
}

/// The state of one flow as the contracts see it.
pub struct FlowState {
    /// Identifier of the flow (the SSRC of its source).
    pub ssrc: u32,
    /// Highest sequence number received.
    pub highest_seq: u16,
    /// Highest sequence number that a report has covered.
    pub highest_seq_tx: u16,
    /// The `kRxHistorySize` slots, by `sequence number % kRxHistorySize`.
    pub history: Seq<Slot>,
    /// Time of the last report on this flow.
    pub last_feedback_t: u32,
    /// Packets received since the last report.
    pub pending: i32,
    /// Packets received in all.
    pub total_received: u64,
    /// Sequence number of the packet that arrived last.
    pub last_seq: u16,
    /// Whether a first packet has arrived.
    pub initialized: bool,
    /// How many sequence numbers one report block covers.
    pub reports: i32,
}

impl FlowState {
    /// A flow on which nothing has arrived.
    pub open spec fn fresh(ssrc: u32, reports: i32) -> FlowState {
        FlowState {
            ssrc,
            highest_seq: 0,
            highest_seq_tx: 0,
            history: Seq::new(128, |i: int| Slot::unfilled(0)),
            last_feedback_t: 0,
            pending: 0,
            total_received: 0,
            last_seq: 0,
            initialized: false,
            reports,
        }
    }

    /// The history has its fixed number of slots.
    pub open spec fn wf(self) -> bool {
        self.history.len() == 128
    }

    /// The state that the first packet, numbered `seq_nr`, starts from: the
    /// highest sequence number is the one before it, and every slot is unfilled
    /// with the placeholder `seq_nr + 1`.
    pub open spec fn started(self, seq_nr: u16) -> FlowState {
        if self.initialized {
            self
        } else {
            FlowState {
                highest_seq: seq_plus(seq_nr, -1),
                history: Seq::new(128, |i: int| Slot::unfilled(seq_plus(seq_nr, 1))),
                initialized: true,
                ..self
            }
        }
    }

    /// The state after a packet numbered `seq_nr` with ECN bits `ce_bits` has
    /// arrived at `time_ntp`. The packet always takes its slot; it becomes the
    /// highest only if it is not behind the highest so far. The two counters
    /// stop at the largest value of their type.
    pub open spec fn received(self, time_ntp: u32, seq_nr: u16, ce_bits: u8) -> FlowState {
        let base = self.started(seq_nr);
        FlowState {
            highest_seq: if seq_advances(seq_nr, base.highest_seq) {
                seq_nr
            } else {
                base.highest_seq
            },
            history: base.history.update(
                seq_nr as int % 128,
                Slot { seq_nr, rx_time: time_ntp, ce_bits, filled: true },
            ),
            pending: if self.pending < i32::MAX {
                (self.pending + 1) as i32
            } else {
                i32::MAX
            },
            total_received: if self.total_received < u64::MAX {
                (self.total_received + 1) as u64
            } else {
                u64::MAX
            },
            last_seq: seq_nr,
            ..base
        }
    }

    /// Whether a packet numbered `seq_nr` does not directly follow the packet
    /// that arrived last: a sign of loss or reordering.
    pub open spec fn out_of_sequence(self, seq_nr: u16) -> bool {
        seq_distance(seq_nr, self.last_seq) != 1
    }

    /// Packets received beyond what the last report covered, as a signed
    /// distance on the 16-bit circle.
    pub open spec fn backlog(self) -> int {
        seq_distance(self.highest_seq, self.highest_seq_tx)
    }

    /// Whether the backlog has reached `threshold`.
    pub open spec fn needs_flush(self, threshold: int) -> bool {
        self.backlog() >= threshold
    }

    /// Whether the history holds the packet numbered `seq_nr`: its slot is
    /// filled, and the packet that went into it last had that number.
    pub open spec fn holds(self, seq_nr: u16) -> bool {
        let slot = self.history[seq_nr as int % 128];
        slot.filled && slot.seq_nr == seq_nr
    }

    /// First sequence number of a report block: the block ends at the highest
    /// received.
    pub open spec fn begin_seq(self) -> u16 {
        seq_plus(self.highest_seq, 1 - self.reports)
    }

    /// The `k`-th entry of a report block made at `now`: zero for a packet that
    /// the history does not hold.
    pub open spec fn entry(self, now: u32, k: int) -> u16 {
        let sn = seq_plus(self.begin_seq(), k);
        let slot = self.history[sn as int % 128];
        if self.holds(sn) {
            received_entry(now, slot.rx_time, slot.ce_bits) as u16
        } else {
            0
        }
    }

    /// The first `n` entries of a report block made at `now`, two bytes each.
    pub open spec fn entries(self, now: u32, n: int) -> Seq<u8>
        decreases n,
    {
        if n <= 0 {
            Seq::empty()
        } else {
            self.entries(now, n - 1) + be16(self.entry(now, n - 1))
        }
    }

    /// The two zero bytes that follow an odd number of entries, so that a block
    /// is a whole number of 32-bit words.
    pub open spec fn padding(self) -> Seq<u8> {
        if self.reports % 2 == 1 {
            seq![0u8, 0u8]
        } else {
            Seq::empty()
        }
    }

    /// The report block of this flow made at `now`: flow identifier, first
    /// sequence number, number of entries less one, the entries, and the padding.
    pub open spec fn block(self, now: u32) -> Seq<u8> {
        be32(self.ssrc) + be16(self.begin_seq()) + be16((self.reports - 1) as u16) + self.entries(
            now,
            self.reports as int,
        ) + self.padding()
    }

    /// Length of a report block in bytes.
    pub open spec fn block_len(self) -> int {
        8 + 2 * self.reports + (if self.reports % 2 == 1 {
            2int
        } else {
            0int
        })
    }

    /// The state after a report made at `now` has gone out: nothing is pending
    /// and the backlog is zero.
    pub open spec fn reported(self, now: u32) -> FlowState {
        FlowState {
            last_feedback_t: now,
            pending: 0,
            highest_seq_tx: self.highest_seq,
            ..self
        }
    }
}

/// The reception history of one flow.
pub struct Stream {
    ssrc: u32,
    highest_seq_nr: u16,
    highest_seq_nr_tx: u16,
    history: [Slot; 128],
    last_feedback_t_ntp: u32,
    n_rtp_since_last_rtcp: i32,
    n_recv_rtp_packets: u64,
    last_sn: u16,
    first_received: bool,
    n_reported_rtp_packets: i32,
}

impl View for Stream {
    type V = FlowState;

    closed spec fn view(&self) -> FlowState {
        FlowState {
            ssrc: self.ssrc,
            highest_seq: self.highest_seq_nr,
            highest_seq_tx: self.highest_seq_nr_tx,
            history: self.history@,
            last_feedback_t: self.last_feedback_t_ntp,
            pending: self.n_rtp_since_last_rtcp,
            total_received: self.n_recv_rtp_packets,
            last_seq: self.last_sn,
            initialized: self.first_received,
            reports: self.n_reported_rtp_packets,
        }
    }
}

impl Stream {
    /// A flow on which nothing has arrived. Its report blocks cover no sequence
    /// number until `with_reports` says how many.
    pub fn new(ssrc_: u32) -> (stream: Stream)
        ensures
            stream@ == FlowState::fresh(ssrc_, 0),
            stream@.wf(),
    {
        let stream = Stream {
            ssrc: ssrc_,
            highest_seq_nr: 0,
            highest_seq_nr_tx: 0,
            history: blank_history(0),
            last_feedback_t_ntp: 0,
            n_rtp_since_last_rtcp: 0,
            n_recv_rtp_packets: 0,
            last_sn: 0,
            first_received: false,
            n_reported_rtp_packets: 0,
        };
        assert(stream@.history =~= FlowState::fresh(ssrc_, 0).history);
        stream
    }

    /// The history of a flow always has its 128 slots.
    pub proof fn lemma_history_len(&self)
        ensures
            self@.wf(),
    {
    }

    /// Sets how many sequence numbers a report block of this flow covers.
    pub fn with_reports(self, reports: i32) -> (stream: Stream)
        ensures
            stream@ == (FlowState { reports, ..self@ }),
    {
        let mut stream = self;
        stream.n_reported_rtp_packets = reports;
        stream
    }

    /// Records the arrival of an RTP packet. The result tells whether the
    /// packet did not directly follow the one before it, which hints at loss or
    /// reordering; the history is updated either way.
    pub fn receive(&mut self, time_ntp: u32, seqNr: u16, ceBits: u8) -> (out_of_sequence: bool)
        ensures
            final(self)@ == old(self)@.received(time_ntp, seqNr, ceBits),
            final(self)@.wf(),
            out_of_sequence == old(self)@.out_of_sequence(seqNr),
    {
        if self.n_recv_rtp_packets < u64::MAX {
            self.n_recv_rtp_packets = self.n_recv_rtp_packets + 1;
        }
        if self.n_rtp_since_last_rtcp < i32::MAX {
            self.n_rtp_since_last_rtcp = self.n_rtp_since_last_rtcp + 1;
        }
        if !self.first_received {
            self.highest_seq_nr = seq_sub(seqNr, 1);
            clear_history(&mut self.history, seq_add(seqNr, 1));
            self.first_received = true;
        }
        assert(self@.history =~= old(self)@.started(seqNr).history);
        let ix: usize = (seqNr as usize) % kRxHistorySize;
        self.history[ix] = Slot {
            seq_nr: seqNr,
            rx_time: time_ntp,
            ce_bits: ceBits,
            filled: true,
        };
        let out_of_sequence: bool = seq_diff(seqNr, self.last_sn) != 1;
        self.last_sn = seqNr;
        if seq_is_newer(seqNr, self.highest_seq_nr) {
            self.highest_seq_nr = seqNr;
        }
        assert(self@.history =~= old(self)@.received(time_ntp, seqNr, ceBits).history);
        out_of_sequence
    }

    /// Appends the report block of this flow, made at `time_ntp`, to `bytes`.
    /// The flow itself stays as it is: the caller notes the report with
    /// `mark_reported` once the block is part of a packet.
    pub fn getStandardizedFeedback(&self, time_ntp: u32, bytes: &mut Vec<u8>)
        requires
            1 <= self@.reports <= 65536,
        ensures
            final(bytes)@ == old(bytes)@ + self@.block(time_ntp),
    {
        proof {
            self.lemma_history_len();
        }
        let reports: u32 = self.n_reported_rtp_packets as u32;
        let last: u16 = (reports - 1) as u16;
        push_be32(bytes, self.ssrc);
        let begin: u16 = seq_sub(self.highest_seq_nr, last);
        push_be16(bytes, begin);
        push_be16(bytes, last);
        let ghost head = bytes@;
        let mut k: u32 = 0;
        while k < reports
            invariant
                k <= reports,
                reports == self@.reports,
                reports <= 65536,
                self@.wf(),
                begin == self@.begin_seq(),
                bytes@ == head + self@.entries(time_ntp, k as int),
            decreases reports - k,
        {
            let sn: u16 = seq_add(begin, k as u16);
            let slot: Slot = self.history[(sn as usize) % kRxHistorySize];
            let entry: u16 = if slot.filled && slot.seq_nr == sn {
                encode_received(time_ntp, slot.rx_time, slot.ce_bits)
            } else {
                0
            };
            assert(entry == self@.entry(time_ntp, k as int));
            push_be16(bytes, entry);
            assert(bytes@ =~= head + self@.entries(time_ntp, k as int + 1));
            k = k + 1;
        }
        if reports % 2 == 1 {
            bytes.push(0);
            bytes.push(0);
        }
        assert(bytes@ =~= old(bytes)@ + self@.block(time_ntp));
    }

    /// Identifier of the flow.
    pub fn ssrc(&self) -> (ssrc: u32)
        ensures
            ssrc == self@.ssrc,
    {
        self.ssrc
    }

    /// Highest sequence number received.
    pub fn highest_seq_nr(&self) -> (seq_nr: u16)
        ensures
            seq_nr == self@.highest_seq,
    {
        self.highest_seq_nr
    }

    /// Highest sequence number that a report has covered.
    pub fn highest_seq_nr_tx(&self) -> (seq_nr: u16)
        ensures
            seq_nr == self@.highest_seq_tx,
    {
        self.highest_seq_nr_tx
    }

    /// Packets received in all.
    pub fn total_received(&self) -> (n: u64)
        ensures
            n == self@.total_received,
    {
        self.n_recv_rtp_packets
    }

    /// Packets received since the last report.
    pub fn pending(&self) -> (n: i32)
        ensures
            n == self@.pending,
    {
        self.n_rtp_since_last_rtcp
    }

    /// Time of the last report on this flow.
    pub fn last_feedback_t(&self) -> (t: u32)
        ensures
            t == self@.last_feedback_t,
    {
        self.last_feedback_t_ntp
    }

    /// Length in bytes of a report block of this flow.
    pub fn block_size(&self) -> (len: usize)
        requires
            1 <= self@.reports <= 65536,
        ensures
            len == self@.block_len(),
            forall|now: u32| len == #[trigger] self@.block(now).len(),
            8 <= len <= 131080,
            len % 4 == 0,
    {
        proof {
            assert forall|now: u32| self@.block_len() == #[trigger] self@.block(now).len() by {
                lemma_block_len(self@, now);
            }
        }
        let reports: usize = self.n_reported_rtp_packets as usize;
        let padding: usize = if reports % 2 == 1 {
            2
        } else {
            0
        };
        8 + 2 * reports + padding
    }

    /// Notes that a report on this flow went out at `time_ntp`.
    pub fn mark_reported(&mut self, time_ntp: u32)
        ensures
            final(self)@ == old(self)@.reported(time_ntp),
    {
        self.last_feedback_t_ntp = time_ntp;
        self.n_rtp_since_last_rtcp = 0;
        self.highest_seq_nr_tx = self.highest_seq_nr;
    }

    /// Whether the backlog of this flow has reached `ackDiff`, so that a report
    /// is due whatever the time.
    pub fn checkIfFlushAck(&self, ackDiff: i32) -> (flush: bool)
        ensures
            flush == self@.needs_flush(ackDiff as int),
    {
        let diff: i32 = seq_diff(self.highest_seq_nr, self.highest_seq_nr_tx);
        diff >= ackDiff
    }
}

/// The first `n` entries of a block take two bytes each.
pub proof fn lemma_entries_len(flow: FlowState, now: u32, n: int)
    requires
        0 <= n,
    ensures
        flow.entries(now, n).len() == 2 * n,
    decreases n,
{
    if n > 0 {
        lemma_entries_len(flow, now, n - 1);
    }
}

/// A report block is a whole number of 32-bit words: eight bytes, two for each
/// sequence number it reports, and two more when their number is odd.
pub proof fn lemma_block_len(flow: FlowState, now: u32)
    requires
        1 <= flow.reports,
    ensures
        flow.block(now).len() == flow.block_len(),
        flow.block_len() % 4 == 0,
{
    lemma_entries_len(flow, now, flow.reports as int);
}

/// A report leaves no backlog and no pending packet behind, and changes
/// nothing of the history.
pub proof fn lemma_reported_clears_backlog(flow: FlowState, now: u32)
    ensures
        flow.reported(now).backlog() == 0,
        flow.reported(now).pending == 0,
        flow.reported(now).history == flow.history,
        flow.reported(now).highest_seq == flow.highest_seq,
        !flow.reported(now).needs_flush(1),
{
}

/// A report block covers consecutive sequence numbers that end at the highest
/// one received: the last of its entries is about that packet.
pub proof fn lemma_block_ends_at_highest(flow: FlowState)
    requires
        1 <= flow.reports <= 65536,
    ensures
        seq_plus(flow.begin_seq(), flow.reports - 1) == flow.highest_seq,
{
}

/// The first eight bytes of a report block: the flow's identifier, the first
/// sequence number covered, and the number of entries less one.
pub proof fn lemma_block_head(flow: FlowState, now: u32)
    requires
        1 <= flow.reports <= 65536,
    ensures
        flow.block(now).len() >= 8,
        flow.block(now).subrange(0, 4) == be32(flow.ssrc),
        flow.block(now).subrange(4, 6) == be16(flow.begin_seq()),
        flow.block(now).subrange(6, 8) == be16((flow.reports - 1) as u16),
{
    lemma_block_len(flow, now);
    assert(flow.block(now).subrange(0, 4) =~= be32(flow.ssrc));
    assert(flow.block(now).subrange(4, 6) =~= be16(flow.begin_seq()));
    assert(flow.block(now).subrange(6, 8) =~= be16((flow.reports - 1) as u16));
}

/// The packet that has just arrived is the one the history holds for its
/// sequence number, whenever it arrived.
pub proof fn lemma_received_is_held(flow: FlowState, time_ntp: u32, seq_nr: u16, ce_bits: u8)
    requires
        flow.wf(),
    ensures
        flow.received(time_ntp, seq_nr, ce_bits).holds(seq_nr),
        flow.received(time_ntp, seq_nr, ce_bits).wf(),
        flow.received(time_ntp, seq_nr, ce_bits).initialized,
        flow.received(time_ntp, seq_nr, ce_bits).total_received >= 1,
{
}

} // verus!
