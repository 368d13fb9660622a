use gstscream::seqnum::{seq_add, seq_diff, seq_is_newer, seq_sub};
use gstscream::stream::Stream;
use gstscream::wire::{encode_received, push_be16, push_be32};

fn flow(reports: i32) -> Stream {
    Stream::new(7).with_reports(reports)
}

#[test]
fn new_stream_is_empty() {
    let s = Stream::new(42);
    assert_eq!(s.ssrc(), 42);
    assert_eq!(s.highest_seq_nr(), 0);
    assert_eq!(s.highest_seq_nr_tx(), 0);
    assert_eq!(s.pending(), 0);
    assert_eq!(s.total_received(), 0);
    assert_eq!(s.last_feedback_t(), 0);
    assert!(!s.checkIfFlushAck(1));
    assert!(s.checkIfFlushAck(0));
}

#[test]
fn in_order_arrivals_set_highest() {
    let mut s = flow(64);
    for n in 0u16..100 {
        s.receive(1000 + n as u32, n, 0);
        assert_eq!(s.highest_seq_nr(), n);
    }
    assert_eq!(s.total_received(), 100);
    assert_eq!(s.pending(), 100);
}

#[test]
fn needs_flush_once_backlog_reaches_threshold() {
    let mut s = flow(64);
    for n in 0u16..64 {
        s.receive(1000 + n as u32, n, 0);
        assert_eq!(s.checkIfFlushAck(16), n >= 16);
        assert_eq!(s.checkIfFlushAck(1), n >= 1);
        assert_eq!(s.checkIfFlushAck(63), n >= 63);
    }
}

#[test]
fn wraparound_keeps_highest() {
    let mut s = flow(64);
    for seq in [65534u16, 65535, 0, 1] {
        s.receive(500, seq, 0);
    }
    assert_eq!(s.highest_seq_nr(), 1);
}

#[test]
fn first_packet_becomes_highest() {
    for first in [0u16, 1, 100, 16384, 32768, 65535] {
        let mut s = flow(64);
        s.receive(9, first, 0);
        assert_eq!(s.highest_seq_nr(), first);
    }
}

#[test]
fn late_packet_does_not_lower_highest() {
    let mut s = flow(64);
    s.receive(10, 100, 0);
    s.receive(11, 101, 0);
    s.receive(12, 99, 0);
    assert_eq!(s.highest_seq_nr(), 101);
    s.receive(13, 101, 0);
    assert_eq!(s.highest_seq_nr(), 101);
    assert_eq!(s.total_received(), 4);
}

#[test]
fn far_ahead_packet_is_taken_as_old() {
    // More than 16384 ahead counts as having wrapped, so it is behind.
    let mut s = flow(64);
    s.receive(10, 100, 0);
    s.receive(11, 100 + 16384, 0);
    assert_eq!(s.highest_seq_nr(), 100 + 16384);
    let mut s = flow(64);
    s.receive(10, 100, 0);
    s.receive(11, 100 + 16385, 0);
    assert_eq!(s.highest_seq_nr(), 100);
}

#[test]
fn out_of_sequence_is_reported() {
    let mut s = flow(64);
    // The first packet follows the initial 0 only if it is numbered 1.
    assert!(s.receive(10, 5, 0));
    assert!(!s.receive(11, 6, 0));
    assert!(s.receive(12, 8, 0));
    assert!(s.receive(13, 7, 0));
    assert!(s.receive(14, 7, 0));
    let mut s = flow(64);
    assert!(!s.receive(10, 1, 0));
    let mut s = flow(64);
    s.receive(10, 65535, 0);
    assert!(!s.receive(11, 0, 0));
}

#[test]
fn mark_reported_clears_backlog() {
    let mut s = flow(64);
    for n in 0u16..20 {
        s.receive(100, n, 0);
    }
    assert!(s.checkIfFlushAck(16));
    s.mark_reported(777);
    assert_eq!(s.pending(), 0);
    assert_eq!(s.highest_seq_nr_tx(), 19);
    assert_eq!(s.last_feedback_t(), 777);
    assert!(!s.checkIfFlushAck(1));
    assert!(s.checkIfFlushAck(0));
    assert_eq!(s.total_received(), 20);
}

#[test]
fn backlog_is_signed_across_the_wrap() {
    let mut s = flow(64);
    for seq in [65530u16, 65531, 65532] {
        s.receive(5, seq, 0);
    }
    s.mark_reported(6);
    for seq in [65533u16, 65534, 65535, 0, 1, 2, 3] {
        s.receive(7, seq, 0);
    }
    assert!(s.checkIfFlushAck(7));
    assert!(!s.checkIfFlushAck(8));
}

fn be16(x: u16) -> Vec<u8> {
    vec![(x >> 8) as u8, (x & 0xff) as u8]
}

#[test]
fn block_layout_is_exact() {
    let mut s = flow(4);
    s.receive(64 * 100, 10, 0);
    s.receive(64 * 101, 11, 1);
    s.receive(64 * 103, 13, 3);
    let mut bytes: Vec<u8> = Vec::new();
    s.getStandardizedFeedback(64 * 110, &mut bytes);
    let expected: Vec<u8> = vec![
        0, 0, 0, 7, // flow identifier
        0, 10, // first sequence number
        0, 3, // entries less one
        0x80, 10, // 10: no ECN, ten units ago
        0xA0, 9, // 11: ECN 1, nine units ago
        0, 0, // 12: missing
        0xE0, 7, // 13: ECN 3, seven units ago
    ];
    assert_eq!(bytes, expected);
    // The flow is as before.
    assert_eq!(s.pending(), 3);
    assert_eq!(s.highest_seq_nr_tx(), 0);
}

#[test]
fn block_is_appended() {
    let mut s = flow(2);
    s.receive(640, 1, 0);
    let mut bytes: Vec<u8> = vec![9, 9, 9];
    s.getStandardizedFeedback(640, &mut bytes);
    assert_eq!(bytes, vec![9, 9, 9, 0, 0, 0, 7, 0, 0, 0, 1, 0, 0, 0x80, 0]);
}

#[test]
fn odd_block_is_padded() {
    let mut s = flow(3);
    s.receive(6400, 2, 0);
    let mut bytes: Vec<u8> = Vec::new();
    s.getStandardizedFeedback(6400, &mut bytes);
    assert_eq!(bytes.len(), 8 + 6 + 2);
    assert_eq!(&bytes[4..8], &[0, 0, 0, 2]);
    assert_eq!(&bytes[8..14], &[0, 0, 0, 0, 0x80, 0]);
    assert_eq!(&bytes[14..16], &[0, 0]);
    let mut s = flow(1);
    s.receive(6400, 2, 0);
    let mut bytes: Vec<u8> = Vec::new();
    s.getStandardizedFeedback(6400, &mut bytes);
    assert_eq!(bytes, vec![0, 0, 0, 7, 0, 2, 0, 0, 0x80, 0, 0, 0]);
}

#[test]
fn begin_seq_wraps() {
    let mut s = flow(64);
    for n in 0u16..=16 {
        s.receive(1000, n, 0);
    }
    let mut bytes: Vec<u8> = Vec::new();
    s.getStandardizedFeedback(1000, &mut bytes);
    assert_eq!(bytes.len(), 136);
    assert_eq!(&bytes[4..6], &be16(65489)[..]);
    assert_eq!(&bytes[6..8], &be16(63)[..]);
    for k in 0usize..64 {
        let received = k >= 47;
        assert_eq!(bytes[8 + 2 * k] >= 0x80, received, "entry {}", k);
        if !received {
            assert_eq!(bytes[8 + 2 * k], 0);
            assert_eq!(bytes[9 + 2 * k], 0);
        }
    }
}

#[test]
fn placeholder_slot_reads_as_missing() {
    // After a first packet 10, slot 11 holds the placeholder 11; when 12
    // arrives, 11 is in the block and must read as missing.
    let mut s = flow(3);
    s.receive(640, 10, 0);
    s.receive(641, 12, 0);
    let mut bytes: Vec<u8> = Vec::new();
    s.getStandardizedFeedback(641, &mut bytes);
    assert_eq!(&bytes[8..14], &[0x80, 0, 0, 0, 0x80, 0]);
}

#[test]
fn packet_at_time_zero_is_reported() {
    let mut s = flow(2);
    s.receive(0, 5, 0);
    s.receive(1, 6, 0);
    let mut bytes: Vec<u8> = Vec::new();
    s.getStandardizedFeedback(64, &mut bytes);
    assert_eq!(&bytes[8..12], &[0x80, 1, 0x80, 0]);
    let mut s = flow(1);
    s.receive(0, 5, 2);
    let mut bytes: Vec<u8> = Vec::new();
    s.getStandardizedFeedback(1000, &mut bytes);
    assert_eq!(&bytes[8..10], &[0xC0, 15]);
}

#[test]
fn block_size_counts_padding() {
    assert_eq!(flow(64).block_size(), 136);
    assert_eq!(flow(1).block_size(), 12);
    assert_eq!(flow(2).block_size(), 12);
    assert_eq!(flow(3).block_size(), 16);
    assert_eq!(flow(65536).block_size(), 131080);
    let mut s = flow(3);
    s.receive(5, 5, 0);
    let mut bytes: Vec<u8> = Vec::new();
    s.getStandardizedFeedback(5, &mut bytes);
    assert_eq!(bytes.len(), s.block_size());
}

#[test]
fn evicted_packet_reads_as_missing() {
    // With 200 reports per block, 0..199 are covered, but the history keeps
    // only the last packet of each of its 128 slots.
    let mut s = flow(200);
    for n in 0u16..200 {
        s.receive(64000, n, 0);
    }
    let mut bytes: Vec<u8> = Vec::new();
    s.getStandardizedFeedback(64000, &mut bytes);
    assert_eq!(bytes.len(), 8 + 400);
    assert_eq!(&bytes[4..6], &[0, 0]);
    for k in 0usize..200 {
        assert_eq!(bytes[8 + 2 * k] >= 0x80, k >= 72, "entry {}", k);
    }
}

#[test]
fn ack_bits_match_history_with_losses() {
    let mut s = flow(64);
    let mut got = [false; 64];
    for n in 0u16..64 {
        if n % 3 != 1 {
            s.receive(5000 + n as u32, n, 0);
            got[n as usize] = true;
        }
    }
    assert_eq!(s.highest_seq_nr(), 63);
    let mut bytes: Vec<u8> = Vec::new();
    s.getStandardizedFeedback(6000, &mut bytes);
    for k in 0usize..64 {
        assert_eq!(bytes[8 + 2 * k] & 0x80 != 0, got[k], "entry {}", k);
    }
}

#[test]
fn arrival_offset_saturates() {
    assert_eq!(encode_received(0, 0, 0), 0x8000);
    assert_eq!(encode_received(63, 0, 0), 0x8000);
    assert_eq!(encode_received(64, 0, 0), 0x8001);
    assert_eq!(encode_received(8189 * 64 + 63, 0, 0), 0x8000 + 8189);
    assert_eq!(encode_received(8190 * 64, 0, 0), 0x8000 + 0x1FFE);
    assert_eq!(encode_received(u32::MAX, 1, 0), 0x8000 + 0x1FFE);
    // The offset is taken across the wrap of the clock.
    assert_eq!(encode_received(64, u32::MAX - 63, 0), 0x8002);
    // A report time before the arrival reads as a very long time.
    assert_eq!(encode_received(10, 20, 0), 0x8000 + 0x1FFE);
}

#[test]
fn ecn_bits_are_echoed() {
    assert_eq!(encode_received(0, 0, 1), 0xA000);
    assert_eq!(encode_received(0, 0, 2), 0xC000);
    assert_eq!(encode_received(0, 0, 3), 0xE000);
    assert_eq!(encode_received(0, 0, 4), 0x8000);
    assert_eq!(encode_received(0, 0, 0xFF), 0xE000);
    assert_eq!(encode_received(128, 0, 2), 0xC002);
}

#[test]
fn big_endian_helpers() {
    let mut bytes: Vec<u8> = vec![1];
    push_be16(&mut bytes, 0xABCD);
    push_be32(&mut bytes, 0x0102_0304);
    push_be32(&mut bytes, 0xFFFF_FFFE);
    push_be16(&mut bytes, 0);
    assert_eq!(bytes, vec![1, 0xAB, 0xCD, 1, 2, 3, 4, 0xFF, 0xFF, 0xFF, 0xFE, 0, 0]);
    assert_eq!(&bytes[1..3], &0xABCDu16.to_be_bytes());
    assert_eq!(&bytes[3..7], &0x0102_0304u32.to_be_bytes());
}

#[test]
fn sequence_arithmetic() {
    assert_eq!(seq_add(65535, 1), 0);
    assert_eq!(seq_add(10, 5), 15);
    assert_eq!(seq_add(65530, 65535), 65529);
    assert_eq!(seq_sub(0, 1), 65535);
    assert_eq!(seq_sub(16, 63), 65489);
    assert_eq!(seq_sub(100, 63), 37);
    assert_eq!(seq_diff(5, 3), 2);
    assert_eq!(seq_diff(3, 5), -2);
    assert_eq!(seq_diff(2, 65530), 8);
    assert_eq!(seq_diff(65530, 2), -8);
    assert_eq!(seq_diff(32767, 0), 32767);
    assert_eq!(seq_diff(32768, 0), -32768);
    assert_eq!(seq_diff(0, 0), 0);
    assert!(seq_is_newer(5, 5));
    assert!(seq_is_newer(6, 5));
    assert!(!seq_is_newer(4, 5));
    assert!(seq_is_newer(0, 65535));
    assert!(!seq_is_newer(65535, 0));
    assert!(seq_is_newer(16384, 0));
    assert!(!seq_is_newer(16385, 0));
    assert!(!seq_is_newer(0, 16384));
    assert!(seq_is_newer(0, 16385));
}

#[test]
fn counters_keep_counting() {
    let mut s = flow(64);
    for _ in 0..1000 {
        s.receive(5, 9, 0);
    }
    assert_eq!(s.pending(), 1000);
    assert_eq!(s.total_received(), 1000);
    assert_eq!(s.highest_seq_nr(), 9);
}
