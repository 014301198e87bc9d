use std::collections::VecDeque;

use go_back_n::connection::{Connection, PacketWrapper, MAX_BODY_SIZE, TIMEOUT_MS};
use go_back_n::packet::{Header, Packet, HEADER_LEN};
use go_back_n::router::{deliver, draw_loss, is_lost, loss_from_draw, service, tag_all, LossPolicy};

fn pattern(len: usize, seed: u8) -> Vec<u8> {
    (0..len).map(|i| (i as u8).wrapping_mul(31).wrapping_add(seed)).collect()
}

fn deliver_all(dest: &mut Connection, packets: &[Vec<u8>], now: u64) -> Vec<Vec<u8>> {
    let mut answers = Vec::new();
    for p in packets {
        answers.extend(dest.on_packet(p, now));
    }
    answers
}

#[test]
fn new_connection_is_idle() {
    let c = Connection::new(true);
    assert!(c.is_left_side());
    assert_eq!(c.incoming_len(), 0);
    assert_eq!(c.unsent_len(), 0);
    assert_eq!(c.unacked_len(), 0);
    assert_eq!(c.deadline(), None);
}

#[test]
fn write_accepts_every_byte() {
    let mut c = Connection::new(true);
    assert_eq!(c.enqueue_outbound(b"hello"), 5);
    assert_eq!(c.enqueue_outbound(b""), 0);
    assert_eq!(c.enqueue_outbound(b" world"), 6);
    assert_eq!(c.unsent_len(), 11);
}

#[test]
fn two_thousand_bytes_make_two_packets() {
    let mut a = Connection::new(true);
    let mut b = Connection::new(false);
    let data = pattern(2000, 3);
    assert_eq!(a.enqueue_outbound(&data), 2000);
    let sent = a.send_if_could(0);
    assert_eq!(sent.len(), 2);
    assert_eq!(sent[0].len(), HEADER_LEN + MAX_BODY_SIZE as usize);
    assert_eq!(sent[1].len(), HEADER_LEN + 976);
    let first = Packet::parse(&sent[0]).unwrap();
    let second = Packet::parse(&sent[1]).unwrap();
    assert_eq!((first.get_seq_num(), first.get_body_len()), (1, 1024));
    assert_eq!((second.get_seq_num(), second.get_body_len()), (2, 976));
    assert_eq!(a.unsent_len(), 0);
    assert_eq!(a.unacked_len(), 2);
    assert_eq!(a.deadline(), Some(TIMEOUT_MS));

    let acks = deliver_all(&mut b, &sent, 5);
    assert_eq!(acks.len(), 2);
    assert_eq!(b.incoming_len(), 2000);
    deliver_all(&mut a, &acks, 6);
    assert_eq!(a.unacked_len(), 0);
    assert_eq!(a.deadline(), None);
    assert_eq!(b.take_incoming(4096), data);
}

#[test]
fn duplicate_data_is_acked_but_not_delivered_again() {
    let mut a = Connection::new(true);
    let mut b = Connection::new(false);
    a.enqueue_outbound(b"abc");
    let sent = a.send_if_could(0);
    assert_eq!(sent.len(), 1);
    let k = Packet::parse(&sent[0]).unwrap().get_seq_num();

    let first = b.on_packet(&sent[0], 1);
    assert_eq!(b.incoming_len(), 3);
    let again = b.on_packet(&sent[0], 2);
    assert_eq!(again.len(), 1);
    let ack = Packet::parse(&again[0]).unwrap();
    assert!(ack.is_ack());
    assert_eq!(ack.get_seq_num(), k);
    assert_eq!(ack.get_body_len(), 0);
    assert_eq!(again, first);
    assert_eq!(b.incoming_len(), 3);
    assert_eq!(b.take_incoming(10), b"abc".to_vec());
}

#[test]
fn timeout_resends_the_whole_window() {
    let mut a = Connection::new(true);
    a.enqueue_outbound(&pattern(3000, 1));
    let sent = a.send_if_could(100);
    assert_eq!(sent.len(), 3);
    assert_eq!(a.on_tick(100 + TIMEOUT_MS - 1).len(), 0);
    let resent = a.on_tick(100 + TIMEOUT_MS);
    assert_eq!(resent.len(), 3);
    assert_eq!(resent, sent);
    assert_eq!(a.deadline(), Some(100 + 2 * TIMEOUT_MS));
    assert_eq!(a.unacked_len(), 3);
}

#[test]
fn partial_ack_rearms_and_full_ack_disarms() {
    let mut a = Connection::new(true);
    let mut b = Connection::new(false);
    a.enqueue_outbound(&pattern(3000, 2));
    let sent = a.send_if_could(0);
    let acks = deliver_all(&mut b, &sent, 10);
    assert_eq!(acks.len(), 3);
    a.on_packet(&acks[0], 50);
    assert_eq!(a.unacked_len(), 2);
    assert_eq!(a.deadline(), Some(50 + TIMEOUT_MS));
    a.on_packet(&acks[2], 60);
    assert_eq!(a.unacked_len(), 0);
    assert_eq!(a.deadline(), None);
    a.on_packet(&acks[1], 70);
    assert_eq!(a.unacked_len(), 0);
}

#[test]
fn out_of_order_data_is_dropped_silently() {
    let mut a = Connection::new(true);
    let mut b = Connection::new(false);
    a.enqueue_outbound(&pattern(2048, 4));
    let sent = a.send_if_could(0);
    assert_eq!(sent.len(), 2);
    assert_eq!(b.on_packet(&sent[1], 1).len(), 0);
    assert_eq!(b.incoming_len(), 0);
    assert_eq!(b.on_packet(&sent[0], 2).len(), 1);
    assert_eq!(b.incoming_len(), 1024);
}

#[test]
fn malformed_packets_are_ignored() {
    let mut b = Connection::new(false);
    assert_eq!(b.on_packet(&[1, 2, 3], 0).len(), 0);
    assert_eq!(b.on_packet(&[], 0).len(), 0);
    assert_eq!(b.incoming_len(), 0);
}

#[test]
fn read_takes_at_most_the_buffer() {
    let mut a = Connection::new(true);
    let mut b = Connection::new(false);
    a.enqueue_outbound(b"0123456789");
    let sent = a.send_if_could(0);
    deliver_all(&mut b, &sent, 0);
    assert_eq!(b.take_incoming(4), b"0123".to_vec());
    assert_eq!(b.take_incoming(0), Vec::<u8>::new());
    assert_eq!(b.take_incoming(100), b"456789".to_vec());
    assert_eq!(b.take_incoming(100), Vec::<u8>::new());
}

#[test]
fn window_limits_a_large_write() {
    let mut a = Connection::new(true);
    a.enqueue_outbound(&pattern(40 * 1024, 5));
    let sent = a.send_if_could(0);
    assert_eq!(sent.len(), 31);
    assert_eq!(a.unacked_len(), 31);
    assert_eq!(a.unsent_len(), 9 * 1024);
    assert_eq!(a.send_if_could(1).len(), 0);
}

#[test]
fn loss_roll_threshold() {
    assert!(!is_lost(0));
    assert!(!is_lost(200));
    assert!(is_lost(201));
    assert!(is_lost(255));
    for _ in 0..100 {
        assert!(!draw_loss(LossPolicy::Lossless));
    }
}

#[test]
fn tagged_packets_keep_their_side() {
    let tagged = tag_all(vec![vec![1], vec![2, 3]], false);
    assert_eq!(tagged.len(), 2);
    assert!(!tagged[0].is_left_side());
    let w = PacketWrapper::new(vec![7, 7], true);
    assert!(w.is_left_side());
    assert_eq!(w.unwrap(), vec![7, 7]);
}

/// Runs a link in one thread: packets in flight wait in one FIFO queue;
/// `lose(n)` says whether the `n`-th packet handed to the channel is lost.
fn run_link(
    writes: &[Vec<u8>],
    lose: &dyn Fn(usize) -> bool,
    max_rounds: usize,
) -> (Vec<u8>, Vec<u8>) {
    let mut left = Connection::new(true);
    let mut right = Connection::new(false);
    let mut channel: VecDeque<PacketWrapper> = VecDeque::new();
    let mut now: u64 = 0;
    let mut n: usize = 0;
    let mut read_right = Vec::new();
    let mut read_left = Vec::new();
    for w in writes {
        left.enqueue_outbound(w);
        right.enqueue_outbound(w);
    }
    let total: usize = writes.iter().map(|w| w.len()).sum();
    for _ in 0..max_rounds {
        if read_right.len() == total && read_left.len() == total {
            break;
        }
        match channel.pop_front() {
            Some(p) => {
                let lost = lose(n);
                n += 1;
                let answers = if p.is_left_side() {
                    deliver(&mut right, p, lost, now)
                } else {
                    deliver(&mut left, p, lost, now)
                };
                channel.extend(answers);
            }
            None => {
                now += 1000;
                channel.extend(service(&mut left, now));
                channel.extend(service(&mut right, now));
            }
        }
        read_right.extend(right.take_incoming(700));
        read_left.extend(left.take_incoming(700));
    }
    (read_right, read_left)
}

#[test]
fn lossless_link_delivers_every_write_in_order() {
    let writes = vec![pattern(10, 1), pattern(5000, 2), Vec::new(), pattern(1024, 3), pattern(40000, 4)];
    let expected: Vec<u8> = writes.concat();
    let (right, left) = run_link(&writes, &|_| false, 100_000);
    assert_eq!(right, expected);
    assert_eq!(left, expected);
}

#[test]
fn lossy_link_still_delivers_everything_in_order() {
    let writes = vec![pattern(3000, 9), pattern(20000, 8), pattern(77, 7)];
    let expected: Vec<u8> = writes.concat();
    let (right, left) = run_link(&writes, &|n| n % 5 == 3, 1_000_000);
    assert_eq!(right, expected);
    assert_eq!(left, expected);
}

#[test]
fn redelivered_packets_do_not_change_what_is_read() {
    let mut a = Connection::new(true);
    let mut b = Connection::new(false);
    a.enqueue_outbound(&pattern(5000, 6));
    let sent = a.send_if_could(0);
    let mut read = Vec::new();
    for p in &sent {
        b.on_packet(p, 1);
        b.on_packet(p, 2);
        read.extend(b.take_incoming(10_000));
        b.on_packet(p, 3);
    }
    for p in &sent {
        b.on_packet(p, 4);
    }
    read.extend(b.take_incoming(10_000));
    assert_eq!(read, pattern(5000, 6));
}

#[test]
fn ack_header_has_no_body() {
    let mut b = Connection::new(false);
    let data = go_back_n::packet::encode_packet(&Header::new(1, 2, false), &[1, 2]);
    let answers = b.on_packet(&data, 0);
    assert_eq!(answers, vec![Header::new(1, 0, true).to_bytes()]);
}

#[test]
fn body_size_boundaries() {
    let mut a = Connection::new(true);
    a.enqueue_outbound(&pattern(1024, 1));
    let one = a.send_if_could(0);
    assert_eq!(one.len(), 1);
    assert_eq!(Packet::parse(&one[0]).unwrap().get_body_len(), 1024);

    let mut b = Connection::new(true);
    b.enqueue_outbound(&pattern(1025, 1));
    let two = b.send_if_could(0);
    assert_eq!(two.len(), 2);
    assert_eq!(Packet::parse(&two[1]).unwrap().get_body_len(), 1);
    assert_eq!(Packet::parse(&two[1]).unwrap().get_seq_num(), 2);
}

#[test]
fn nothing_to_send_leaves_the_timer_alone() {
    let mut a = Connection::new(true);
    assert_eq!(a.send_if_could(10).len(), 0);
    assert_eq!(a.deadline(), None);
    assert_eq!(a.on_tick(1_000_000).len(), 0);
}

#[test]
fn deadline_saturates_at_the_end_of_time() {
    let mut a = Connection::new(true);
    a.enqueue_outbound(b"x");
    a.send_if_could(u64::MAX - 5);
    assert_eq!(a.deadline(), Some(u64::MAX));
    assert_eq!(a.on_tick(u64::MAX).len(), 1);
}

#[test]
fn loss_decision_from_a_draw() {
    assert!(!loss_from_draw(LossPolicy::Lossless, Some(255)));
    assert!(!loss_from_draw(LossPolicy::Lossless, None));
    assert!(loss_from_draw(LossPolicy::Random, Some(201)));
    assert!(!loss_from_draw(LossPolicy::Random, Some(200)));
    assert!(!loss_from_draw(LossPolicy::Random, None));
}

#[test]
fn random_losses_are_occasional() {
    let lost = (0..2000).filter(|_| draw_loss(LossPolicy::Random)).count();
    assert!(lost > 0);
    assert!(lost < 2000);
}

#[test]
fn receiver_appends_each_number_once_in_order() {
    let mut a = Connection::new(true);
    a.enqueue_outbound(&pattern(4000, 11));
    let sent = a.send_if_could(0);
    assert_eq!(sent.len(), 4);
    let ack = Header::new(9, 0, true).to_bytes();
    let mut b = Connection::new(false);
    let order = [2usize, 0, 0, 3, 1, 0, 2, 1, 3, 2];
    b.on_packet(&ack, 0);
    b.on_packet(&[0, 1], 0);
    for &i in &order {
        b.on_packet(&sent[i], 0);
    }
    assert_eq!(b.take_incoming(10_000), pattern(4000, 11));
}
