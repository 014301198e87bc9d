use go_back_n::packet::{encode_packet, Header, Packet, HEADER_LEN};
use go_back_n::seqnum::wrapping_lt;
use go_back_n::window::{RecvSequenceSpace, SendSequenceSpace, WINDOW_SIZE};

#[test]
fn header_encodes_big_endian() {
    let h = Header::new(0x0102_0304, 5, true);
    assert_eq!(h.to_bytes(), vec![1, 2, 3, 4, 0, 1, 0, 0, 0, 5]);
    let d = Header::new(7, 0x0A0B_0C0D, false);
    assert_eq!(d.to_bytes(), vec![0, 0, 0, 7, 0, 0, 0x0A, 0x0B, 0x0C, 0x0D]);
    assert!(h.is_ack());
    assert!(!d.is_ack());
}

#[test]
fn header_parse_round_trip() {
    let h = Header::new(0xFFFF_FFFE, 1024, false);
    let parsed = Header::parse(&h.to_bytes()).unwrap();
    assert_eq!(parsed, h);
    assert_eq!(Header::parse(&[0u8; 9]), None);
}

#[test]
fn packet_parse_rejects_short_buffers() {
    assert!(Packet::parse(&[]).is_none());
    assert!(Packet::parse(&[0u8; HEADER_LEN - 1]).is_none());
    assert!(Packet::parse(&[0u8; HEADER_LEN]).is_some());
}

#[test]
fn packet_parse_splits_header_and_body() {
    let h = Header::new(42, 3, false);
    let bytes = encode_packet(&h, &[9, 8, 7]);
    assert_eq!(bytes.len(), HEADER_LEN + 3);
    let p = Packet::parse(&bytes).unwrap();
    assert_eq!(p.get_seq_num(), 42);
    assert_eq!(p.get_body_len(), 3);
    assert!(!p.is_ack());
    assert_eq!(p.body, vec![9, 8, 7]);
    assert_eq!(p.payload(), vec![9, 8, 7]);
}

#[test]
fn payload_is_cut_to_body_len() {
    let h = Header::new(1, 2, false);
    let bytes = encode_packet(&h, &[1, 2, 3, 4]);
    assert_eq!(Packet::parse(&bytes).unwrap().payload(), vec![1, 2]);
    let long = Header::new(1, 100, false);
    let bytes = encode_packet(&long, &[5, 6]);
    assert_eq!(Packet::parse(&bytes).unwrap().payload(), vec![5, 6]);
}

#[test]
fn wrapping_lt_handles_wraparound() {
    assert!(wrapping_lt(1, 2));
    assert!(!wrapping_lt(2, 1));
    assert!(!wrapping_lt(5, 5));
    assert!(wrapping_lt(u32::MAX, 0));
    assert!(!wrapping_lt(0, u32::MAX));
    assert!(wrapping_lt(u32::MAX - 3, 2));
}

#[test]
fn window_allows_at_most_n_minus_one_in_flight() {
    let mut w = SendSequenceSpace::new(1);
    let mut sent = 0u32;
    while w.is_sendable() {
        assert_eq!(w.get_next_seq_num_then_inc(), 1 + sent);
        sent += 1;
    }
    assert_eq!(sent, WINDOW_SIZE - 1);
    assert_eq!(w.unacked_count(), 31);
    assert!(w.has_unacked());
    assert_eq!(w.ack(1), 1);
    assert!(w.is_sendable());
    assert_eq!(w.unacked_count(), 30);
}

#[test]
fn ack_counts_inclusively() {
    let mut w = SendSequenceSpace::new(10);
    for _ in 0..5 {
        w.get_next_seq_num_then_inc();
    }
    assert_eq!(w.ack(10), 1);
    assert_eq!(w.base, 11);
    assert_eq!(w.ack(13), 3);
    assert_eq!(w.base, 14);
    assert_eq!(w.unacked_count(), 1);
}

#[test]
fn stale_and_unknown_acks_are_ignored() {
    let mut w = SendSequenceSpace::new(10);
    for _ in 0..3 {
        w.get_next_seq_num_then_inc();
    }
    assert_eq!(w.ack(11), 2);
    assert_eq!(w.ack(10), 0);
    assert_eq!(w.ack(5), 0);
    assert_eq!(w.ack(13), 0);
    assert_eq!(w.ack(1000), 0);
    assert_eq!(w.base, 12);
    assert_eq!(w.next_seq_num, 13);
    let mut idle = SendSequenceSpace::new(7);
    assert_eq!(idle.ack(7), 0);
    assert!(!idle.has_unacked());
}

#[test]
fn window_near_top_of_sequence_space() {
    let mut w = SendSequenceSpace::new(u32::MAX - 1);
    assert_eq!(w.get_next_seq_num_then_inc(), u32::MAX - 1);
    assert_eq!(w.get_next_seq_num_then_inc(), u32::MAX);
    assert_eq!(w.get_next_seq_num_then_inc(), 0);
    assert_eq!(w.next_seq_num, 1);
    assert_eq!(w.unacked_count(), 3);
    assert!(w.is_sendable());
    assert_eq!(w.ack(0), 3);
    assert_eq!(w.base, 1);
    assert!(!w.has_unacked());
}

#[test]
fn window_near_top_fills_like_any_other() {
    let mut w = SendSequenceSpace::new(u32::MAX - 10);
    let mut sent = 0u32;
    while w.is_sendable() {
        w.get_next_seq_num_then_inc();
        sent += 1;
    }
    assert_eq!(sent, 31);
    assert_eq!(w.next_seq_num, 20);
    assert_eq!(w.ack(u32::MAX), 11);
    assert_eq!(w.ack(3), 4);
    assert_eq!(w.base, 4);
    assert_eq!(w.unacked_count(), 16);
}

#[test]
fn receiver_accepts_only_expected() {
    let mut r = RecvSequenceSpace::new(5);
    assert_eq!(r.rcv(6), None);
    assert_eq!(r.rcv(100), None);
    assert_eq!(r.expected_seq_num, 5);
    assert_eq!(r.rcv(4), Some(false));
    assert_eq!(r.expected_seq_num, 5);
    assert_eq!(r.rcv(5), Some(true));
    assert_eq!(r.expected_seq_num, 6);
    assert_eq!(r.rcv(5), Some(false));
    assert_eq!(r.expected_seq_num, 6);
}

#[test]
fn receiver_wraps_around() {
    let mut r = RecvSequenceSpace::new(u32::MAX);
    assert_eq!(r.rcv(0), None);
    assert_eq!(r.rcv(u32::MAX), Some(true));
    assert_eq!(r.expected_seq_num, 0);
    assert_eq!(r.rcv(u32::MAX), Some(false));
    assert_eq!(r.rcv(0), Some(true));
    assert_eq!(r.expected_seq_num, 1);
}
