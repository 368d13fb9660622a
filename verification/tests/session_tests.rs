use gstscream::session::{Arrival, ScreamRx};

fn expected_block(ssrc: u32, begin: u16, entries: &[u16]) -> Vec<u8> {
    let mut bytes: Vec<u8> = Vec::new();
    bytes.extend_from_slice(&ssrc.to_be_bytes());
    bytes.extend_from_slice(&begin.to_be_bytes());
    bytes.extend_from_slice(&((entries.len() - 1) as u16).to_be_bytes());
    for e in entries {
        bytes.extend_from_slice(&e.to_be_bytes());
    }
    if entries.len() % 2 == 1 {
        bytes.extend_from_slice(&[0, 0]);
    }
    bytes
}

fn expected_packet(blocks: &[Vec<u8>], now: u32) -> Vec<u8> {
    let mut bytes: Vec<u8> = vec![0x80, 205, 0, 0, 0, 0, 0, 10];
    for b in blocks {
        bytes.extend_from_slice(b);
    }
    bytes.extend_from_slice(&now.to_be_bytes());
    let words = (bytes.len() / 4 - 1) as u16;
    bytes[2] = (words >> 8) as u8;
    bytes[3] = (words & 0xff) as u8;
    bytes
}

#[test]
fn default_session() {
    let rx = ScreamRx::default();
    assert_eq!(rx.getLastFeedbackT(), 0);
    assert_eq!(rx.getRtcpFbInterval(), 3276);
    assert_eq!(rx.average_received_rate(), 100_000);
    assert_eq!(rx.stream_count(), 0);
    assert!(!rx.checkIfFlushAck());
    assert!(!rx.isFeedback(0));
    assert!(rx.stream(1).is_none());
}

#[test]
fn session_takes_one_to_65536_reports() {
    assert!(ScreamRx::new(0, 16).is_none());
    assert!(ScreamRx::new(1, 16).is_some());
    assert!(ScreamRx::new(65536, 16).is_some());
    assert!(ScreamRx::new(65537, 16).is_none());
    // A backlog is at least one packet.
    assert!(ScreamRx::new(64, 0).is_none());
    assert!(ScreamRx::new(64, -1).is_none());
    assert!(ScreamRx::new(64, i32::MAX).is_some());
    assert!(ScreamRx::new(0, 0).is_none());
}

#[test]
fn threshold_of_one_needs_a_backlog() {
    let mut rx = ScreamRx::new(32, 1).unwrap();
    assert!(!rx.checkIfFlushAck());
    // The first packet of a flow leaves no backlog.
    let r = rx.receive_at(10_000, 10_000, 100, 0, 1, false, 0);
    assert!(!rx.checkIfFlushAck());
    assert!(r.feedback.is_none());
    // One pending packet, no backlog, last report (at 0) not older than the
    // interval: the timer makes no packet.
    assert!(!rx.periodic_due(3276));
    assert!(rx.periodic_flush_at(3276).is_none());
    // The second packet is a backlog of one.
    rx.receive_register(10_001, 1, 100, 1, 0);
    assert!(rx.checkIfFlushAck());
    assert!(rx.periodic_due(3276));
    assert!(rx.periodic_flush_at(3276).is_some());
    assert!(!rx.checkIfFlushAck());
}

#[test]
fn no_flows_no_packet() {
    let mut rx = ScreamRx::default();
    assert!(rx.createStandardizedFeedback(1000, false).is_none());
    assert!(rx.createStandardizedFeedback(1000, true).is_none());
    assert!(rx.periodic_flush_at(100_000).is_none());
    assert!(rx.periodic_flush().is_none());
    assert_eq!(rx.getLastFeedbackT(), 0);
}

#[test]
fn flows_are_created_on_first_packet() {
    let mut rx = ScreamRx::default();
    rx.receive_register(1000, 5, 100, 10, 0);
    rx.receive_register(1001, 6, 100, 20, 0);
    rx.receive_register(1002, 5, 100, 11, 0);
    assert_eq!(rx.stream_count(), 2);
    let a = rx.stream(5).unwrap();
    assert_eq!(a.ssrc(), 5);
    assert_eq!(a.highest_seq_nr(), 11);
    assert_eq!(a.total_received(), 2);
    let b = rx.stream(6).unwrap();
    assert_eq!(b.ssrc(), 6);
    assert_eq!(b.highest_seq_nr(), 20);
    assert_eq!(b.total_received(), 1);
    assert!(rx.stream(7).is_none());
    assert!(rx.isFeedback(0));
}

#[test]
fn many_flows_are_found_again() {
    let mut rx = ScreamRx::default();
    for round in 0u16..3 {
        for ssrc in 0u32..300 {
            rx.receive_register(1000, ssrc * 7919, 10, 100 + round, 0);
        }
    }
    assert_eq!(rx.stream_count(), 300);
    for ssrc in 0u32..300 {
        let s = rx.stream(ssrc * 7919).unwrap();
        assert_eq!(s.ssrc(), ssrc * 7919);
        assert_eq!(s.total_received(), 3);
        assert_eq!(s.highest_seq_nr(), 102);
    }
}

#[test]
fn receive_register_reports_gaps() {
    let mut rx = ScreamRx::default();
    assert!(rx.receive_register(1000, 1, 100, 0, 0));
    assert!(!rx.receive_register(1000, 1, 100, 1, 0));
    assert!(rx.receive_register(1000, 1, 100, 3, 0));
    // A new flow whose first packet is numbered 1 follows the initial 0.
    assert!(!rx.receive_register(1000, 2, 100, 1, 0));
}

#[test]
fn flush_after_packet_sixteen() {
    // Threshold 16, 64 reports per block, one flow, packets 0..63.
    let mut rx = ScreamRx::new(64, 16).unwrap();
    let mut flushed_at: Vec<u16> = Vec::new();
    for n in 0u16..64 {
        let rx_time = 10_000 + 64 * n as u32;
        let Arrival { out_of_sequence, feedback } =
            rx.receive_at(rx_time, rx_time + 64, 1200, n, 1, false, 0);
        assert_eq!(out_of_sequence, n == 0);
        if let Some(packet) = feedback {
            flushed_at.push(n);
            let highest = n;
            let begin = highest.wrapping_sub(63);
            assert_eq!(&packet[8..12], &[0, 0, 0, 1]);
            assert_eq!(&packet[12..14], &begin.to_be_bytes());
            assert_eq!(&packet[14..16], &[0, 63]);
            assert_eq!(packet.len(), 8 + 136 + 4);
            let mut entries: Vec<u16> = Vec::new();
            for k in 0u16..64 {
                let sn = begin.wrapping_add(k);
                if sn <= n {
                    // Packet sn arrived (n - sn + 1) units of 1/1024 s ago.
                    entries.push(0x8000 + (n - sn + 1));
                } else {
                    entries.push(0);
                }
            }
            let expected = expected_packet(&[expected_block(1, begin, &entries)], rx_time + 64);
            assert_eq!(packet, expected);
            assert_eq!(rx.getLastFeedbackT(), rx_time + 64);
        }
    }
    assert_eq!(flushed_at, vec![16, 32, 48]);
    assert_eq!(rx.stream(1).unwrap().highest_seq_nr_tx(), 48);
    assert_eq!(rx.stream(1).unwrap().pending(), 15);
}

#[test]
fn first_flush_begin_seq_wraps() {
    let mut rx = ScreamRx::default();
    let mut first: Option<Vec<u8>> = None;
    for n in 0u16..=16 {
        let r = rx.receive_at(5000, 5000, 100, n, 1, false, 0);
        if n < 16 {
            assert!(r.feedback.is_none());
        } else {
            first = r.feedback;
        }
    }
    let packet = first.unwrap();
    assert_eq!(&packet[0..4], &[0x80, 205, 0, 36]);
    assert_eq!(&packet[4..8], &[0, 0, 0, 10]);
    // 16 - 63 wraps to 65489.
    assert_eq!(&packet[12..14], &[0xFF, 0xD1]);
    assert_eq!(&packet[144..148], &5000u32.to_be_bytes());
}

#[test]
fn marker_forces_feedback() {
    let mut rx = ScreamRx::default();
    let r = rx.receive_at(1000, 1001, 100, 7, 3, false, 0);
    assert!(r.feedback.is_none());
    let r = rx.receive_at(1002, 1003, 100, 8, 3, true, 2);
    let packet = r.feedback.unwrap();
    let mut entries = vec![0u16; 64];
    entries[62] = 0x8000;
    entries[63] = 0xC000;
    assert_eq!(packet, expected_packet(&[expected_block(3, 8u16.wrapping_sub(63), &entries)], 1003));
    let s = rx.stream(3).unwrap();
    assert_eq!(s.pending(), 0);
    assert_eq!(s.last_feedback_t(), 1003);
    assert_eq!(s.highest_seq_nr_tx(), 8);
}

#[test]
fn feedback_twice_returns_nothing() {
    let mut rx = ScreamRx::default();
    for n in 0u16..20 {
        rx.receive_register(1000, 1, 100, n, 0);
    }
    assert!(rx.createStandardizedFeedback(1500, false).is_some());
    assert!(rx.createStandardizedFeedback(1500, false).is_none());
    assert!(rx.createStandardizedFeedback(1500, true).is_none());
    assert!(rx.createStandardizedFeedback(1500 + 655, true).is_none());
    assert_eq!(rx.getLastFeedbackT(), 1500);
    // A report older than 10 ms makes the flow due again.
    assert!(rx.createStandardizedFeedback(1500 + 656, false).is_some());
    assert_eq!(rx.getLastFeedbackT(), 1500 + 656);
}

#[test]
fn force_reports_a_single_pending_packet() {
    let mut rx = ScreamRx::default();
    rx.receive_register(100, 1, 100, 0, 0);
    // last report at 0, now 600: not older than 655 ticks
    assert!(rx.createStandardizedFeedback(600, false).is_none());
    assert_eq!(rx.stream(1).unwrap().pending(), 1);
    assert!(rx.createStandardizedFeedback(600, true).is_some());
    assert_eq!(rx.stream(1).unwrap().pending(), 0);
    assert!(rx.createStandardizedFeedback(600, true).is_none());
}

#[test]
fn eight_pending_packets_are_enough() {
    let mut rx = ScreamRx::default();
    for n in 0u16..7 {
        rx.receive_register(100, 1, 100, n, 0);
    }
    // Make the report time recent, so that only the count decides.
    assert!(rx.createStandardizedFeedback(100, true).is_some());
    for n in 7u16..14 {
        rx.receive_register(110, 1, 100, n, 0);
    }
    assert!(rx.createStandardizedFeedback(120, false).is_none());
    rx.receive_register(110, 1, 100, 14, 0);
    assert!(rx.createStandardizedFeedback(120, false).is_some());
}

#[test]
fn small_threshold_lowers_the_pending_limit() {
    let mut rx = ScreamRx::new(64, 3).unwrap();
    rx.receive_register(100, 1, 100, 0, 0);
    assert!(rx.createStandardizedFeedback(100, true).is_some());
    rx.receive_register(110, 1, 100, 1, 0);
    rx.receive_register(110, 1, 100, 2, 0);
    assert!(rx.createStandardizedFeedback(120, false).is_none());
    rx.receive_register(110, 1, 100, 3, 0);
    assert!(rx.createStandardizedFeedback(120, false).is_some());
}

#[test]
fn flows_go_by_age_of_their_last_report() {
    let mut rx = ScreamRx::new(2, 16).unwrap();
    rx.receive_register(6400, 1, 100, 5, 0);
    rx.receive_register(6400, 2, 100, 6, 0);
    rx.receive_register(6400, 3, 100, 7, 0);
    // Report flow 2 alone first: the others are not due at that time.
    let packet = rx.createStandardizedFeedback(6400, true).unwrap();
    // All three were last reported at 0, so they go in order of arrival.
    assert_eq!(
        packet,
        expected_packet(
            &[
                expected_block(1, 4, &[0, 0x8000]),
                expected_block(2, 5, &[0, 0x8000]),
                expected_block(3, 6, &[0, 0x8000]),
            ],
            6400
        )
    );
    rx.receive_register(6464, 3, 100, 8, 0);
    let packet = rx.createStandardizedFeedback(6464, true).unwrap();
    assert_eq!(packet, expected_packet(&[expected_block(3, 7, &[0x8001, 0x8000])], 6464));
    rx.receive_register(6528, 1, 100, 6, 0);
    rx.receive_register(6528, 3, 100, 9, 0);
    rx.receive_register(6528, 2, 100, 7, 0);
    let packet = rx.createStandardizedFeedback(6528, true).unwrap();
    // Flows 1 and 2 were reported at 6400, flow 3 at 6464.
    assert_eq!(
        packet,
        expected_packet(
            &[
                expected_block(1, 5, &[0x8002, 0x8000]),
                expected_block(2, 6, &[0x8002, 0x8000]),
                expected_block(3, 8, &[0x8001, 0x8000]),
            ],
            6528
        )
    );
}

#[test]
fn packet_stops_at_the_size_cap() {
    let mut rx = ScreamRx::default();
    for ssrc in 1u32..=9 {
        rx.receive_register(1000, ssrc, 100, 0, 0);
    }
    // 8 + 6 * 136 = 824 fits into 900 bytes, a seventh block would not.
    let packet = rx.createStandardizedFeedback(1000, true).unwrap();
    assert_eq!(packet.len(), 8 + 6 * 136 + 4);
    assert_eq!(&packet[2..4], &(((8 + 6 * 136 + 4) / 4 - 1) as u16).to_be_bytes());
    for k in 0usize..6 {
        assert_eq!(&packet[8 + 136 * k..12 + 136 * k], &((k + 1) as u32).to_be_bytes());
    }
    assert_eq!(rx.stream(6).unwrap().pending(), 0);
    assert_eq!(rx.stream(7).unwrap().pending(), 1);
    // The three flows left over go into the next packet.
    let packet = rx.createStandardizedFeedback(1000, true).unwrap();
    assert_eq!(packet.len(), 8 + 3 * 136 + 4);
    assert_eq!(&packet[8..12], &7u32.to_be_bytes());
    assert_eq!(&packet[144..148], &8u32.to_be_bytes());
    assert_eq!(&packet[280..284], &9u32.to_be_bytes());
    assert!(rx.createStandardizedFeedback(1000, true).is_none());
}

fn packet_len_with_three_due_flows(reports: usize) -> usize {
    let mut rx = ScreamRx::new(reports, 16).unwrap();
    for ssrc in 1u32..=3 {
        rx.receive_register(1000, ssrc, 100, 0, 0);
    }
    rx.createStandardizedFeedback(1000, true).unwrap().len()
}

#[test]
fn blocks_go_in_while_they_fit() {
    // 218 reports: 444 bytes a block; two make 896 bytes with the header.
    assert_eq!(packet_len_with_three_due_flows(218), 8 + 2 * 444 + 4);
    // 220 reports: 448 bytes a block; two would make 904 bytes.
    assert_eq!(packet_len_with_three_due_flows(220), 8 + 448 + 4);
    // 442 reports: one block fills the 900 bytes exactly.
    assert_eq!(packet_len_with_three_due_flows(442), 900 + 4);
    // 444 reports: one block makes 904 bytes, but the first block always goes in.
    assert_eq!(packet_len_with_three_due_flows(444), 904 + 4);
    // 2 reports: 12 bytes a block, all three go in.
    assert_eq!(packet_len_with_three_due_flows(2), 8 + 3 * 12 + 4);
}

#[test]
fn block_larger_than_the_cap_goes_alone() {
    let mut rx = ScreamRx::new(1000, 16).unwrap();
    for ssrc in 1u32..=3 {
        rx.receive_register(1000, ssrc, 100, 7, 0);
    }
    for ssrc in 1u32..=3 {
        let packet = rx.createStandardizedFeedback(1000, true).unwrap();
        assert_eq!(packet.len(), 8 + 2008 + 4);
        assert_eq!(&packet[2..4], &((2020 / 4 - 1) as u16).to_be_bytes());
        assert_eq!(&packet[8..12], &ssrc.to_be_bytes());
        assert_eq!(&packet[2016..2020], &1000u32.to_be_bytes());
    }
    assert!(rx.createStandardizedFeedback(1000, true).is_none());
}

#[test]
fn each_flow_has_one_block_in_a_packet() {
    let mut rx = ScreamRx::new(4, 1).unwrap();
    for n in 0u16..20 {
        rx.receive_register(1000, 1, 100, n, 0);
        rx.receive_register(1000, 2, 100, n, 0);
    }
    let packet = rx.createStandardizedFeedback(1000, false).unwrap();
    assert_eq!(packet.len(), 8 + 2 * 16 + 4);
    assert_eq!(&packet[8..12], &[0, 0, 0, 1]);
    assert_eq!(&packet[24..28], &[0, 0, 0, 2]);
}

#[test]
fn odd_report_count_keeps_words_whole() {
    let mut rx = ScreamRx::new(3, 16).unwrap();
    rx.receive_register(640, 1, 100, 2, 1);
    let packet = rx.createStandardizedFeedback(704, true).unwrap();
    assert_eq!(packet.len() % 4, 0);
    assert_eq!(
        packet,
        vec![
            0x80, 205, 0, 6, 0, 0, 0, 10, // header
            0, 0, 0, 1, 0, 0, 0, 2, // flow 1 from 0, three entries
            0, 0, 0, 0, 0xA0, 1, // 0 and 1 missing, 2 with ECN 1
            0, 0, // padding
            0, 0, 2, 0xC0, // report time 704
        ]
    );
}

#[test]
fn periodic_flush_waits_for_the_interval() {
    let mut rx = ScreamRx::default();
    assert_eq!(rx.getRtcpFbInterval(), 3276);
    rx.receive_register(10_000, 1, 100, 0, 0);
    assert!(rx.createStandardizedFeedback(10_000, true).is_some());
    // Nothing pending: no flush however late.
    assert!(!rx.periodic_due(20_000));
    assert!(rx.periodic_flush_at(20_000).is_none());
    rx.receive_register(10_100, 1, 100, 1, 0);
    assert!(!rx.periodic_due(10_000 + 3276));
    assert!(rx.periodic_flush_at(10_000 + 3276).is_none());
    assert!(rx.periodic_due(10_000 + 3277));
    let packet = rx.periodic_flush_at(10_000 + 3277).unwrap();
    assert_eq!(&packet[8..12], &[0, 0, 0, 1]);
    assert_eq!(rx.getLastFeedbackT(), 13_277);
    assert!(rx.periodic_flush_at(13_278).is_none());
}

#[test]
fn periodic_flush_goes_by_each_flow() {
    let mut rx = ScreamRx::default();
    rx.receive_register(10_000, 1, 100, 0, 0);
    assert!(rx.createStandardizedFeedback(10_000, true).is_some());
    // Flow 2 has never been reported, so its last report is at time 0.
    rx.receive_register(10_100, 2, 100, 0, 0);
    assert!(rx.periodic_due(10_200));
    let packet = rx.periodic_flush_at(10_200).unwrap();
    assert_eq!(packet.len(), 8 + 136 + 4);
    assert_eq!(&packet[8..12], &[0, 0, 0, 2]);
}

#[test]
fn periodic_flush_on_backlog() {
    let mut rx = ScreamRx::default();
    rx.receive_register(10_000, 1, 100, 0, 0);
    assert!(rx.createStandardizedFeedback(10_000, true).is_some());
    rx.receive_register(10_001, 1, 100, 100, 0);
    // A backlog of 100 forces the flush although no time has passed.
    assert!(rx.checkIfFlushAck());
    assert!(rx.periodic_flush_at(10_002).is_some());
    assert!(!rx.checkIfFlushAck());
}

#[test]
fn rate_window_sets_the_interval() {
    let mut rx = ScreamRx::default();
    // The first packet starts the window.
    rx.receive_register(1000, 1, 125_000, 0, 0);
    assert_eq!(rx.getRtcpFbInterval(), 3276);
    rx.receive_register(1000 + 6554, 1, 0, 1, 0);
    assert_eq!(rx.getRtcpFbInterval(), 3276);
    assert_eq!(rx.average_received_rate(), 100_000);
    // 250000 bytes in 6555 ticks
    rx.receive_register(1000 + 6555, 1, 125_000, 2, 0);
    assert_eq!(rx.average_received_rate(), 250_000 * 8 * 65536 / 6555);
    assert_eq!(rx.average_received_rate(), 19_995_728);
    assert_eq!(rx.getRtcpFbInterval(), 131);
    // An empty window lets the rate decay by 5 %.
    rx.receive_register(1000 + 2 * 6555, 1, 0, 3, 0);
    assert_eq!(rx.average_received_rate(), 18_995_942);
    assert_eq!(rx.getRtcpFbInterval(), 138);
}

#[test]
fn high_rate_drives_interval_to_floor() {
    let mut rx = ScreamRx::default();
    let mut t: u32 = 1;
    for n in 0u16..2000 {
        // 1500 bytes every 0.5 ms are 24 Mbit/s.
        rx.receive_register(t, 1, 1500, n, 0);
        let _ = rx.createStandardizedFeedback(t, true);
        t += 33;
        assert!((131..=6553).contains(&rx.getRtcpFbInterval()));
    }
    assert_eq!(rx.getRtcpFbInterval(), 131);
}

#[test]
fn low_rate_drives_interval_to_ceiling() {
    let mut rx = ScreamRx::default();
    rx.receive_register(1, 1, 300_000, 0, 0);
    rx.receive_register(1 + 6555, 1, 0, 1, 0);
    assert_eq!(rx.getRtcpFbInterval(), 131);
    let mut t: u32 = 1 + 6555;
    let mut last = rx.getRtcpFbInterval();
    for n in 2u16..200 {
        // 100 bytes every 100 ms are about 8 kbit/s.
        t += 6555;
        let before = rx.average_received_rate();
        rx.receive_register(t, 1, 100, n, 0);
        let _ = rx.createStandardizedFeedback(t, true);
        assert!(rx.getRtcpFbInterval() >= last);
        assert!(rx.average_received_rate() * 100 >= before * 95);
        last = rx.getRtcpFbInterval();
    }
    assert_eq!(rx.getRtcpFbInterval(), 6553);
}

#[test]
fn rate_window_survives_the_clock_wrap() {
    let mut rx = ScreamRx::default();
    rx.receive_register(u32::MAX - 3000, 1, 125_000, 0, 0);
    rx.receive_register(4000, 1, 125_000, 1, 0);
    // 7001 ticks passed across the wrap.
    assert_eq!(rx.average_received_rate(), 250_000 * 8 * 65536 / 7001);
}

#[test]
fn scream_receiver_reads_the_clock() {
    let mut rx = ScreamRx::default();
    let mut pushed: Vec<(u16, Vec<u8>)> = Vec::new();
    for n in 0u16..=63 {
        let r = rx.ScreamReceiver(100, n, 96, 0, 1, false, 0);
        assert_eq!(r.out_of_sequence, n == 0);
        if let Some(packet) = r.feedback {
            let mut stamp = [0u8; 4];
            stamp.copy_from_slice(&packet[144..148]);
            assert_eq!(u32::from_be_bytes(stamp), rx.getLastFeedbackT());
            pushed.push((n, packet));
        }
    }
    assert_eq!(pushed.len(), 3);
    let begins: [[u8; 2]; 3] = [[0xFF, 0xD1], [0xFF, 0xE1], [0xFF, 0xF1]];
    for (k, (n, packet)) in pushed.iter().enumerate() {
        assert_eq!(*n, 16 * (k as u16 + 1));
        assert_eq!(packet.len(), 148);
        assert_eq!(&packet[0..2], &[0x80, 205]);
        assert_eq!(&packet[8..12], &[0, 0, 0, 1]);
        assert_eq!(&packet[12..14], &begins[k]);
        assert_eq!(&packet[14..16], &[0, 63]);
        // The last entry is about the packet that has just arrived.
        assert_eq!(packet[16 + 2 * 63] & 0x80, 0x80);
        // Every number from 0 to the highest reads as received, the numbers
        // before 0 as missing.
        for j in 0usize..64 {
            let received = j + (*n as usize) >= 63;
            assert_eq!(packet[16 + 2 * j] & 0x80 != 0, received, "entry {}", j);
        }
    }
    assert_eq!(rx.stream(1).unwrap().highest_seq_nr(), 63);
    assert_eq!(rx.stream(1).unwrap().highest_seq_nr_tx(), 48);
    let r = rx.ScreamReceiver(100, 64, 96, 0, 1, true, 0);
    assert!(r.feedback.is_some());
}

#[test]
fn unreported_entries_of_a_new_flow_are_zero() {
    let mut rx = ScreamRx::default();
    rx.receive_register(1000, 1, 100, 500, 0);
    let packet = rx.createStandardizedFeedback(1000, true).unwrap();
    for k in 0usize..63 {
        assert_eq!(&packet[16 + 2 * k..18 + 2 * k], &[0, 0]);
    }
    assert_eq!(&packet[16 + 126..16 + 128], &[0x80, 0]);
}
