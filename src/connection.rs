//! One side of a link: its send window, receive sequencer and byte queues.
//!
//! Every protocol event is described by a spec transition on
//! [`ConnectionView`]; the methods of [`Connection`] are proved to perform
//! exactly that transition and to hand back the packets it transmits.
use std::collections::VecDeque;

use vstd::prelude::*;

use crate::packet::{encode_packet, packet_bytes, payload_of, Header, Packet, ACK_FLAG, HEADER_LEN};
use crate::packet::lemma_packet_round_trip;
use crate::seqnum::{lemma_seq_add_add, lemma_seq_add_dist, lemma_seq_dist_add, seq_add, seq_lt};
use crate::window::{
    ack_count, receive_next, receive_outcome, RecvSequenceSpace, SendSequenceSpace, WINDOW_SIZE,
};

verus! {

/// Largest body carried by one data packet.
pub const MAX_BODY_SIZE: u32 = 1024;

/// Retransmission timeout, in milliseconds.
pub const TIMEOUT_MS: u64 = 3000;

/// Sequence number both sides start from.
pub const INITIAL_SEQ_NUM: u32 = 1;

/// The deadline armed at time `now`.
pub open spec fn deadline_after(now: u64) -> u64 {
    if now + TIMEOUT_MS <= u64::MAX {
        (now + TIMEOUT_MS) as u64
    } else {
        u64::MAX
    }
}

/// The encoded data packet numbered `seq` that carries `body`.
pub open spec fn data_packet(seq: u32, body: Seq<u8>) -> Seq<u8> {
    packet_bytes(Header { seq_num: seq, flags: 0, body_len: body.len() as u32 }, body)
}

/// The encoded acknowledgment of sequence number `seq`.
pub open spec fn ack_packet(seq: u32) -> Seq<u8> {
    packet_bytes(Header { seq_num: seq, flags: ACK_FLAG, body_len: 0 }, seq![])
}

/// The `i`-th body cut from `unsent`: bytes `i * MAX_BODY_SIZE` up to the
/// next multiple of `MAX_BODY_SIZE` or the end.
pub open spec fn body_chunk(unsent: Seq<u8>, i: int) -> Seq<u8> {
    let end = if (i + 1) * MAX_BODY_SIZE <= unsent.len() {
        (i + 1) * MAX_BODY_SIZE
    } else {
        unsent.len() as int
    };
    unsent.subrange(i * MAX_BODY_SIZE, end)
}

/// How many data packets are sent from `len` unsent bytes when the window
/// has room for `room` more: one per started chunk of `MAX_BODY_SIZE` bytes,
/// at most `room`.
pub open spec fn packets_to_send(len: nat, room: nat) -> nat {
    let chunks = ((len + MAX_BODY_SIZE - 1) / (MAX_BODY_SIZE as int)) as nat;
    if chunks <= room {
        chunks
    } else {
        room
    }
}

/// How many bytes `k` data packets take from `len` unsent bytes.
pub open spec fn bytes_sent(len: nat, k: nat) -> nat {
    if len <= k * MAX_BODY_SIZE {
        len
    } else {
        (k * MAX_BODY_SIZE) as nat
    }
}

/// The abstract state of one side of a link.
pub struct ConnectionView {
    /// Oldest unacknowledged sequence number.
    pub base: u32,
    /// Next sequence number to hand out.
    pub next_seq_num: u32,
    /// Next sequence number the receiver accepts.
    pub expected_seq_num: u32,
    /// Application bytes waiting to be sent.
    pub unsent: Seq<u8>,
    /// Encoded data packets in flight, oldest first.
    pub unacked: Seq<Seq<u8>>,
    /// Delivered bytes waiting to be read.
    pub incoming: Seq<u8>,
    /// Retransmission deadline, if armed.
    pub timer: Option<u64>,
    pub is_left_side: bool,
}

impl ConnectionView {
    pub open spec fn window(self) -> SendSequenceSpace {
        SendSequenceSpace { base: self.base, next_seq_num: self.next_seq_num }
    }

    /// Fewer than N packets in flight, one queued data packet for each,
    /// numbered consecutively from `base`, and a deadline armed exactly while
    /// any is.
    pub open spec fn wf(self) -> bool {
        &&& self.window().wf()
        &&& self.unacked.len() == self.window().in_flight()
        &&& forall|i: int| 0 <= i < self.unacked.len() ==> self.is_data_in_flight(#[trigger] self.unacked[i], i)
        &&& (self.timer is Some <==> self.unacked.len() > 0)
    }

    /// `p` is the encoded data packet numbered `base + i`.
    pub open spec fn is_data_in_flight(self, p: Seq<u8>, i: int) -> bool {
        &&& p.len() >= HEADER_LEN
        &&& !Header::spec_decode(p).spec_is_ack()
        &&& Header::spec_decode(p).seq_num == seq_add(self.base, i)
    }

    /// Idle: nothing in flight and no deadline armed.
    pub open spec fn is_idle(self) -> bool {
        self.unacked.len() == 0 && self.timer is None
    }

    /// Room left in the send window.
    pub open spec fn room(self) -> nat {
        ((WINDOW_SIZE - 1) - self.window().in_flight()) as nat
    }

    /// The first `k` packets of [`Self::send_batch`].
    pub open spec fn send_batch_prefix(self, k: nat) -> Seq<Seq<u8>> {
        Seq::new(k, |i: int| data_packet(seq_add(self.next_seq_num, i), body_chunk(self.unsent, i)))
    }

    /// The packets that servicing the send queue transmits.
    pub open spec fn send_batch(self) -> Seq<Seq<u8>> {
        Seq::new(
            packets_to_send(self.unsent.len(), self.room()),
            |i: int| data_packet(seq_add(self.next_seq_num, i), body_chunk(self.unsent, i)),
        )
    }
}

/// The bytes of each packet in `v`.
pub open spec fn packets_view(v: Seq<Vec<u8>>) -> Seq<Seq<u8>> {
    v.map_values(|p: Vec<u8>| p@)
}

/// Appending application bytes to the send queue.
pub open spec fn write_step(s: ConnectionView, bytes: Seq<u8>) -> ConnectionView {
    ConnectionView { unsent: s.unsent + bytes, ..s }
}

/// Servicing the send queue at time `now`: while the window has room and
/// bytes wait, cut a body of up to `MAX_BODY_SIZE` bytes, number it, send
/// it, keep it in flight and rearm the deadline.
pub open spec fn send_step(s: ConnectionView, now: u64) -> ConnectionView {
    let k = packets_to_send(s.unsent.len(), s.room());
    ConnectionView {
        next_seq_num: seq_add(s.next_seq_num, k as int),
        unsent: s.unsent.skip(bytes_sent(s.unsent.len(), k) as int),
        unacked: s.unacked + s.send_batch(),
        timer: if k > 0 {
            Some(deadline_after(now))
        } else {
            s.timer
        },
        ..s
    }
}

/// The deadline is armed and has passed at time `now`.
pub open spec fn timed_out(s: ConnectionView, now: u64) -> bool {
    match s.timer {
        Some(t) => t <= now,
        None => false,
    }
}

/// A timer tick at time `now`: once the deadline has passed, every packet
/// in flight is sent again and the deadline rearmed.
pub open spec fn tick_step(s: ConnectionView, now: u64) -> (ConnectionView, Seq<Seq<u8>>) {
    if timed_out(s, now) {
        (ConnectionView { timer: Some(deadline_after(now)), ..s }, s.unacked)
    } else {
        (s, seq![])
    }
}

/// An arriving packet `bytes` at time `now`: the new state and the packets
/// sent in answer.
pub open spec fn packet_step(s: ConnectionView, bytes: Seq<u8>, now: u64) -> (
    ConnectionView,
    Seq<Seq<u8>>,
) {
    if bytes.len() < HEADER_LEN {
        (s, seq![])
    } else {
        let h = Header::spec_decode(bytes);
        if h.spec_is_ack() {
            let c = ack_count(s.base, s.next_seq_num, h.seq_num);
            let unacked = s.unacked.skip(c as int);
            let timer = if c == 0 {
                s.timer
            } else if unacked.len() == 0 {
                None
            } else {
                Some(deadline_after(now))
            };
            (ConnectionView { base: seq_add(s.base, c as int), unacked, timer, ..s }, seq![])
        } else {
            match receive_outcome(s.expected_seq_num, h.seq_num) {
                None => (s, seq![]),
                Some(fresh) => {
                    let incoming = if fresh {
                        s.incoming + payload_of(h, bytes.skip(HEADER_LEN as int))
                    } else {
                        s.incoming
                    };
                    (
                        ConnectionView {
                            expected_seq_num: receive_next(s.expected_seq_num, h.seq_num),
                            incoming,
                            ..s
                        },
                        seq![ack_packet(h.seq_num)],
                    )
                },
            }
        }
    }
}

/// Reading at most `max` delivered bytes: what is read, and the new state.
pub open spec fn read_step(s: ConnectionView, max: nat) -> (ConnectionView, Seq<u8>) {
    let n = if s.incoming.len() <= max {
        s.incoming.len()
    } else {
        max
    };
    (ConnectionView { incoming: s.incoming.skip(n as int), ..s }, s.incoming.take(n as int))
}

/// Which side of the link produced a raw packet.
pub enum PacketWrapper {
    Left(Vec<u8>),
    Right(Vec<u8>),
}

impl PacketWrapper {
    pub open spec fn spec_is_left_side(&self) -> bool {
        self is Left
    }

    pub open spec fn spec_data(&self) -> Seq<u8> {
        match self {
            PacketWrapper::Left(d) => d@,
            PacketWrapper::Right(d) => d@,
        }
    }

    pub fn new(data: Vec<u8>, is_left_side: bool) -> (r: Self)
        ensures
            r.spec_is_left_side() == is_left_side,
            r.spec_data() == data@,
    {
        if is_left_side {
            PacketWrapper::Left(data)
        } else {
            PacketWrapper::Right(data)
        }
    }

    pub fn is_left_side(&self) -> (r: bool)
        ensures
            r == self.spec_is_left_side(),
    {
        match self {
            PacketWrapper::Left(_) => true,
            PacketWrapper::Right(_) => false,
        }
    }

    pub fn unwrap(self) -> (r: Vec<u8>)
        ensures
            r@ == self.spec_data(),
    {
        match self {
            PacketWrapper::Left(data) => data,
            PacketWrapper::Right(data) => data,
        }
    }
}

/// One side of a link.
pub struct Connection {
    send: SendSequenceSpace,
    recv: RecvSequenceSpace,
    incoming: VecDeque<u8>,
    timer: Option<u64>,
    unacked: VecDeque<Vec<u8>>,
    unsent: VecDeque<u8>,
    is_left_side: bool,
}

impl View for Connection {
    type V = ConnectionView;

    closed spec fn view(&self) -> ConnectionView {
        ConnectionView {
            base: self.send.base,
            next_seq_num: self.send.next_seq_num,
            expected_seq_num: self.recv.expected_seq_num,
            unsent: self.unsent@,
            unacked: packets_view(self.unacked@),
            incoming: self.incoming@,
            timer: self.timer,
            is_left_side: self.is_left_side,
        }
    }
}

proof fn lemma_chunks_exact(len: nat, k: nat)
    requires
        len <= k * MAX_BODY_SIZE,
        k > 0 ==> (k - 1) * MAX_BODY_SIZE < len,
    ensures
        ((len + MAX_BODY_SIZE - 1) / (MAX_BODY_SIZE as int)) as nat == k,
{
    assert((len + 1023) / 1024 == k) by (nonlinear_arith)
        requires
            len <= k * 1024,
            k > 0 ==> (k - 1) * 1024 < len,
    ;
}

proof fn lemma_chunks_at_least(len: nat, k: nat)
    requires
        k > 0 ==> (k - 1) * MAX_BODY_SIZE < len,
    ensures
        ((len + MAX_BODY_SIZE - 1) / (MAX_BODY_SIZE as int)) as nat >= k,
{
    assert((len + 1023) / 1024 >= k) by (nonlinear_arith)
        requires
            k > 0 ==> (k - 1) * 1024 < len,
    ;
}

/// Servicing the send queue keeps a well-formed state well-formed.
proof fn lemma_send_step_wf(s: ConnectionView, now: u64)
    requires
        s.wf(),
    ensures
        send_step(s, now).wf(),
{
    let t = send_step(s, now);
    let k = packets_to_send(s.unsent.len(), s.room());
    let f = s.window().in_flight();
    lemma_seq_add_dist(s.base, s.next_seq_num);
    lemma_seq_add_add(s.base, f as int, k as int);
    lemma_seq_dist_add(s.base, f + k);
    assert forall|i: int| 0 <= i < t.unacked.len() implies t.is_data_in_flight(
        #[trigger] t.unacked[i],
        i,
    ) by {
        if i >= s.unacked.len() {
            let j = i - s.unacked.len();
            let body = body_chunk(s.unsent, j);
            lemma_packet_round_trip(
                Header { seq_num: seq_add(s.next_seq_num, j), flags: 0, body_len: body.len() as u32 },
                body,
            );
            lemma_seq_add_add(s.base, f as int, j);
            assert(0u16 & ACK_FLAG != ACK_FLAG) by (bit_vector);
        } else {
            assert(s.is_data_in_flight(s.unacked[i], i));
        }
    }
}

/// Acknowledging `seq` keeps a well-formed state well-formed.
proof fn lemma_ack_step_wf(s: ConnectionView, seq: u32, now: u64)
    requires
        s.wf(),
    ensures
        ({
            let c = ack_count(s.base, s.next_seq_num, seq);
            let t = ConnectionView {
                base: seq_add(s.base, c as int),
                unacked: s.unacked.skip(c as int),
                timer: if c == 0 {
                    s.timer
                } else if s.unacked.skip(c as int).len() == 0 {
                    None
                } else {
                    Some(deadline_after(now))
                },
                ..s
            };
            c <= s.unacked.len() && t.wf()
        }),
{
    let c = ack_count(s.base, s.next_seq_num, seq);
    let nb = seq_add(s.base, c as int);
    let f = s.window().in_flight();
    lemma_seq_add_dist(s.base, s.next_seq_num);
    lemma_seq_add_dist(nb, s.next_seq_num);
    lemma_seq_add_add(s.base, c as int, (f - c) as int);
    lemma_seq_dist_add(nb, (f - c) as nat);
    let t = ConnectionView { base: nb, unacked: s.unacked.skip(c as int), ..s };
    assert forall|i: int| 0 <= i < s.unacked.len() - c implies t.is_data_in_flight(
        #[trigger] s.unacked.skip(c as int)[i],
        i,
    ) by {
        assert(s.unacked.skip(c as int)[i] == s.unacked[i + c]);
        assert(s.is_data_in_flight(s.unacked[i + c], i + c));
        lemma_seq_add_add(s.base, c as int, i);
    }
}

/// Every event keeps the window well-formed, so at no point, whatever
/// writes, reads, ticks and packets arrive and in whatever order, are more
/// than N - 1 packets in flight.
pub proof fn lemma_window_never_overfills(s: ConnectionView, bytes: Seq<u8>, max: nat, now: u64)
    requires
        s.wf(),
    ensures
        s.unacked.len() <= WINDOW_SIZE - 1,
        write_step(s, bytes).wf(),
        read_step(s, max).0.wf(),
        send_step(s, now).wf(),
        tick_step(s, now).0.wf(),
        packet_step(s, bytes, now).0.wf(),
{
    lemma_send_step_wf(s, now);
    if bytes.len() >= HEADER_LEN {
        lemma_ack_step_wf(s, Header::spec_decode(bytes).seq_num, now);
    }
}

/// Delivering the same data packet a second time changes nothing: the
/// state after the repeat, and so every byte a reader can take, is the
/// state after the first delivery; the repeat is still acknowledged
/// whenever the first delivery was.
pub proof fn lemma_redelivery_changes_nothing(s: ConnectionView, bytes: Seq<u8>, now1: u64, now2: u64)
    requires
        bytes.len() >= HEADER_LEN,
        !Header::spec_decode(bytes).spec_is_ack(),
    ensures
        ({
            let (s1, out1) = packet_step(s, bytes, now1);
            let (s2, out2) = packet_step(s1, bytes, now2);
            s2 == s1 && out2 == out1
        }),
{
    let seq = Header::spec_decode(bytes).seq_num;
    let e = s.expected_seq_num;
    if seq == e {
        assert(seq_lt(seq, seq_add(e, 1))) by {
            if e == u32::MAX {
                assert(seq_add(e, 1) == 0);
            } else {
                assert(seq_add(e, 1) == e + 1);
            }
        }
    }
}

fn deadline(now: u64) -> (r: u64)
    ensures
        r == deadline_after(now),
{
    now.saturating_add(TIMEOUT_MS)
}

fn drain_front(q: &mut VecDeque<u8>, n: usize) -> (r: Vec<u8>)
    requires
        n <= old(q)@.len(),
    ensures
        r@ == old(q)@.take(n as int),
        final(q)@ == old(q)@.skip(n as int),
{
    let ghost q0 = q@;
    let mut r: Vec<u8> = Vec::with_capacity(n);
    let mut j: usize = 0;
    while j < n
        invariant
            n <= q0.len(),
            j <= n,
            r@ == q0.take(j as int),
            q@ == q0.skip(j as int),
        decreases n - j,
    {
        match q.pop_front() {
            Some(b) => r.push(b),
            None => {},
        }
        j += 1;
        assert(r@ =~= q0.take(j as int));
        assert(q@ =~= q0.skip(j as int));
    }
    r
}

fn copy_bytes(p: &Vec<u8>) -> (r: Vec<u8>)
    ensures
        r@ == p@,
{
    let mut r: Vec<u8> = Vec::with_capacity(p.len());
    let mut i: usize = 0;
    while i < p.len()
        invariant
            i <= p@.len(),
            r@ == p@.take(i as int),
        decreases p@.len() - i,
    {
        r.push(p[i]);
        i += 1;
        assert(r@ =~= p@.take(i as int));
    }
    assert(p@.take(p@.len() as int) =~= p@);
    r
}

impl Connection {
    /// A fresh side of a link: both directions start at sequence number 1,
    /// nothing queued, no deadline.
    pub fn new(is_left_side: bool) -> (r: Self)
        ensures
            r@.wf(),
            r@.is_idle(),
            r@.base == INITIAL_SEQ_NUM,
            r@.next_seq_num == INITIAL_SEQ_NUM,
            r@.expected_seq_num == INITIAL_SEQ_NUM,
            r@.unsent.len() == 0,
            r@.incoming.len() == 0,
            r@.is_left_side == is_left_side,
    {
        let r = Connection {
            send: SendSequenceSpace::new(INITIAL_SEQ_NUM),
            recv: RecvSequenceSpace::new(INITIAL_SEQ_NUM),
            incoming: VecDeque::new(),
            timer: None,
            unacked: VecDeque::new(),
            unsent: VecDeque::new(),
            is_left_side,
        };
        assert(r@.unacked =~= Seq::<Seq<u8>>::empty());
        r
    }

    pub fn is_left_side(&self) -> (r: bool)
        ensures
            r == self@.is_left_side,
    {
        self.is_left_side
    }

    pub fn incoming_len(&self) -> (r: usize)
        ensures
            r == self@.incoming.len(),
    {
        self.incoming.len()
    }

    pub fn unsent_len(&self) -> (r: usize)
        ensures
            r == self@.unsent.len(),
    {
        self.unsent.len()
    }

    /// Number of packets in flight.
    pub fn unacked_len(&self) -> (r: usize)
        ensures
            r == self@.unacked.len(),
    {
        self.unacked.len()
    }

    /// The retransmission deadline, if one is armed.
    pub fn deadline(&self) -> (r: Option<u64>)
        ensures
            r == self@.timer,
    {
        self.timer
    }

    /// Appends application bytes to the send queue; all of them, always.
    pub fn enqueue_outbound(&mut self, buf: &[u8]) -> (r: usize)
        ensures
            final(self)@ == write_step(old(self)@, buf@),
            r == buf@.len(),
            old(self)@.wf() ==> final(self)@.wf(),
    {
        let mut i: usize = 0;
        while i < buf.len()
            invariant
                i <= buf@.len(),
                self@ == write_step(old(self)@, buf@.take(i as int)),
            decreases buf@.len() - i,
        {
            self.unsent.push_back(buf[i]);
            i += 1;
            assert(self.unsent@ =~= old(self)@.unsent + buf@.take(i as int));
        }
        assert(buf@.take(buf@.len() as int) =~= buf@);
        buf.len()
    }

    /// Takes up to `max` delivered bytes from the front of the incoming queue.
    pub fn take_incoming(&mut self, max: usize) -> (r: Vec<u8>)
        ensures
            (final(self)@, r@) == read_step(old(self)@, max as nat),
            old(self)@.wf() ==> final(self)@.wf(),
    {
        let n: usize = if self.incoming.len() <= max {
            self.incoming.len()
        } else {
            max
        };
        drain_front(&mut self.incoming, n)
    }

    /// Sends from the queue while the window has room and bytes wait: each
    /// packet carries the next `MAX_BODY_SIZE` bytes (fewer at the end), takes
    /// the next sequence number, stays in flight, and rearms the deadline.
    /// Returns the packets sent, in order.
    pub fn send_if_could(&mut self, now: u64) -> (r: Vec<Vec<u8>>)
        requires
            old(self)@.wf(),
        ensures
            final(self)@ == send_step(old(self)@, now),
            packets_view(r@) == old(self)@.send_batch(),
            final(self)@.wf(),
    {
        let ghost s0 = self@;
        let ghost len0 = s0.unsent.len();
        let mut out: Vec<Vec<u8>> = Vec::new();
        proof {
            lemma_seq_add_dist(s0.base, s0.next_seq_num);
        }
        while self.send.is_sendable() && self.unsent.len() > 0
            invariant
                s0.wf(),
                len0 == s0.unsent.len(),
                out@.len() <= s0.room(),
                out@.len() > 0 ==> (out@.len() - 1) * MAX_BODY_SIZE < len0,
                self.send.wf(),
                self@.base == s0.base,
                self@.expected_seq_num == s0.expected_seq_num,
                self@.incoming == s0.incoming,
                self@.is_left_side == s0.is_left_side,
                self@.window().in_flight() == s0.window().in_flight() + out@.len(),
                self@.next_seq_num == seq_add(s0.next_seq_num, out@.len() as int),
                self@.unsent == s0.unsent.skip(bytes_sent(len0, out@.len() as nat) as int),
                packets_view(out@) == s0.send_batch_prefix(out@.len() as nat),
                self@.unacked == s0.unacked + packets_view(out@),
                self@.timer == (if out@.len() > 0 {
                    Some(deadline_after(now))
                } else {
                    s0.timer
                }),
            decreases s0.room() - out@.len(),
        {
            let ghost i = out@.len() as nat;
            let n: usize = if self.unsent.len() < MAX_BODY_SIZE as usize {
                self.unsent.len()
            } else {
                MAX_BODY_SIZE as usize
            };
            assert(bytes_sent(len0, i) == i * MAX_BODY_SIZE) by (nonlinear_arith)
                requires
                    self@.unsent.len() > 0,
                    self@.unsent == s0.unsent.skip(bytes_sent(len0, i) as int),
                    len0 == s0.unsent.len(),
            ;
            let body = drain_front(&mut self.unsent, n);
            assert(body@ =~= body_chunk(s0.unsent, i as int));
            let seq = self.send.get_next_seq_num_then_inc();
            let header = Header::new(seq, n as u32, false);
            let packet = encode_packet(&header, body.as_slice());
            let ghost out_before = out@;
            let ghost unacked_before = self.unacked@;
            assert(packet@ == data_packet(seq_add(s0.next_seq_num, i as int), body_chunk(s0.unsent, i as int)));
            out.push(copy_bytes(&packet));
            self.unacked.push_back(packet);
            assert(packets_view(out@) =~= packets_view(out_before).push(packet@));
            assert(packets_view(self.unacked@) =~= packets_view(unacked_before).push(packet@));
            self.timer = Some(deadline(now));
            proof {
                lemma_seq_add_add(s0.next_seq_num, i as int, 1);
                assert(self.unsent@ =~= s0.unsent.skip(bytes_sent(len0, i + 1) as int));
                assert(packets_view(out@) =~= s0.send_batch_prefix(i + 1));
                assert(self@.unacked =~= s0.unacked + packets_view(out@));
            }
        }
        proof {
            let k = out@.len() as nat;
            if self.unsent@.len() == 0 {
                assert(bytes_sent(len0, k) == len0);
                lemma_chunks_exact(len0, k);
            } else {
                lemma_chunks_at_least(len0, k);
                assert(k == s0.room());
            }
            assert(k == packets_to_send(len0, s0.room()));
            assert(packets_view(out@) =~= s0.send_batch());
            lemma_send_step_wf(s0, now);
        }
        out
    }

    /// A timer tick at time `now`: once the deadline has passed, sends every
    /// packet in flight again, oldest first, and rearms the deadline.
    /// Returns the packets sent.
    pub fn on_tick(&mut self, now: u64) -> (r: Vec<Vec<u8>>)
        requires
            old(self)@.wf(),
        ensures
            (final(self)@, packets_view(r@)) == tick_step(old(self)@, now),
            final(self)@.wf(),
    {
        let mut out: Vec<Vec<u8>> = Vec::new();
        let expired = match self.timer {
            Some(t) => t <= now,
            None => false,
        };
        if expired {
            self.timer = Some(deadline(now));
            let ghost s1 = self@;
            let mut i: usize = 0;
            while i < self.unacked.len()
                invariant
                    self@ == s1,
                    i <= s1.unacked.len(),
                    packets_view(out@) == s1.unacked.take(i as int),
                decreases s1.unacked.len() - i,
            {
                let ghost out_before = out@;
                out.push(copy_bytes(&self.unacked[i]));
                i += 1;
                assert(packets_view(out@) =~= packets_view(out_before).push(s1.unacked[i - 1]));
                assert(packets_view(out@) =~= s1.unacked.take(i as int));
            }
            assert(s1.unacked.take(s1.unacked.len() as int) =~= s1.unacked);
        } else {
            assert(packets_view(out@) =~= Seq::<Seq<u8>>::empty());
        }
        out
    }

    /// An arriving raw packet at time `now`. Bytes too short for a header
    /// are ignored. An acknowledgment retires the packets it covers and
    /// rearms the deadline, or disarms it once nothing is in flight. A data
    /// packet that is fresh or a duplicate is acknowledged, and only a fresh
    /// one delivers its body; any other is dropped unanswered. Returns the
    /// packets sent in answer.
    pub fn on_packet(&mut self, packet: &[u8], now: u64) -> (r: Vec<Vec<u8>>)
        requires
            old(self)@.wf(),
        ensures
            (final(self)@, packets_view(r@)) == packet_step(old(self)@, packet@, now),
            final(self)@.wf(),
    {
        let ghost s0 = self@;
        let mut out: Vec<Vec<u8>> = Vec::new();
        match Packet::parse(packet) {
            None => {},
            Some(p) => {
                if p.is_ack() {
                    let c = self.send.ack(p.get_seq_num());
                    let ghost s_mid = self@;
                    let mut j: usize = 0;
                    while j < c
                        invariant
                            self@ == (ConnectionView { unacked: packets_view(self.unacked@), ..s_mid }),
                            j <= c,
                            c <= s0.unacked.len(),
                            packets_view(self.unacked@) == s0.unacked.skip(j as int),
                        decreases c - j,
                    {
                        let ghost before = self.unacked@;
                        self.unacked.pop_front();
                        j += 1;
                        assert(packets_view(self.unacked@) =~= packets_view(before).skip(1));
                        assert(packets_view(self.unacked@) =~= s0.unacked.skip(j as int));
                    }
                    if c != 0 {
                        if self.unacked.len() == 0 {
                            self.timer = None;
                        } else {
                            self.timer = Some(deadline(now));
                        }
                    }
                    proof {
                        lemma_ack_step_wf(s0, Header::spec_decode(packet@).seq_num, now);
                    }
                    assert(self@ == packet_step(s0, packet@, now).0);
                } else {
                    match self.recv.rcv(p.get_seq_num()) {
                        None => {},
                        Some(fresh) => {
                            let ack = Header::new(p.get_seq_num(), 0, true);
                            let ack_bytes = ack.to_bytes();
                            assert(ack_bytes@ =~= ack_packet(p.header.seq_num));
                            out.push(ack_bytes);
                            if fresh {
                                let body = p.payload();
                                let ghost s_mid = self@;
                                let mut i: usize = 0;
                                while i < body.len()
                                    invariant
                                        self@ == (ConnectionView { incoming: self.incoming@, ..s_mid }),
                                        i <= body@.len(),
                                        self.incoming@ == s0.incoming + body@.take(i as int),
                                    decreases body@.len() - i,
                                {
                                    self.incoming.push_back(body[i]);
                                    i += 1;
                                    assert(self.incoming@ =~= s0.incoming + body@.take(i as int));
                                }
                                assert(body@.take(body@.len() as int) =~= body@);
                            }
                        },
                    }
                }
            },
        }
        assert(packets_view(out@) =~= packet_step(s0, packet@, now).1);
        out
    }
}

} // verus!
