//! What one direction of a link delivers when no packet is lost.
use vstd::prelude::*;

use crate::connection::{
    ack_packet, body_chunk, bytes_sent, data_packet, packet_step, packets_to_send, read_step,
    send_step, tick_step, write_step, ConnectionView, MAX_BODY_SIZE,
};
use crate::packet::{
    lemma_packet_round_trip, packet_bytes, payload_of, Header, ACK_FLAG, HEADER_LEN,
};
use crate::seqnum::{lemma_seq_add_add, lemma_seq_add_dist, seq_add, seq_lt};

verus! {

/// The state of a connection after `packets` arrive at it in order, all at
/// time `now`.
pub open spec fn deliver_all(r: ConnectionView, packets: Seq<Seq<u8>>, now: u64) -> ConnectionView
    decreases packets.len(),
{
    if packets.len() == 0 {
        r
    } else {
        packet_step(deliver_all(r, packets.drop_last(), now), packets.last(), now).0
    }
}

/// The peer of a sender whose every data packet arrived, in order: it
/// expects exactly the sender's next sequence number.
pub open spec fn in_step(s: ConnectionView, r: ConnectionView) -> bool {
    r.expected_seq_num == s.next_seq_num
}

/// Without loss, bytes move from the sender's queue to the receiver's in
/// order and exactly once: after the sender services its queue and the
/// packets it sent arrive in order, what waits at the receiver followed by
/// what the sender still holds is what it was before, and the two sides are
/// again in step.
pub proof fn lemma_lossless_transfer(s: ConnectionView, r: ConnectionView, now1: u64, now2: u64)
    requires
        s.wf(),
        in_step(s, r),
    ensures
        ({
            let s2 = send_step(s, now1);
            let r2 = deliver_all(r, s.send_batch(), now2);
            &&& r2.incoming + s2.unsent == r.incoming + s.unsent
            &&& in_step(s2, r2)
        }),
{
    let len = s.unsent.len();
    let k = packets_to_send(len, s.room());
    let batch = s.send_batch();
    lemma_deliver_prefix(s, r, now2, k);
    assert(batch.take(k as int) =~= batch);
    let b = bytes_sent(len, k);
    assert(s.unsent.take(b as int) + s.unsent.skip(b as int) =~= s.unsent);
}

#[verifier::spinoff_prover]
#[verifier::rlimit(50)]
proof fn lemma_deliver_prefix(s: ConnectionView, r: ConnectionView, now: u64, j: nat)
    requires
        in_step(s, r),
        j <= packets_to_send(s.unsent.len(), s.room()),
    ensures
        ({
            let rj = deliver_all(r, s.send_batch().take(j as int), now);
            &&& rj.incoming == r.incoming + s.unsent.take(bytes_sent(s.unsent.len(), j) as int)
            &&& rj.expected_seq_num == seq_add(s.next_seq_num, j as int)
        }),
    decreases j,
{
    let len = s.unsent.len();
    let batch = s.send_batch();
    if j == 0 {
        assert(batch.take(0) =~= Seq::<Seq<u8>>::empty());
        assert(s.unsent.take(0) =~= Seq::<u8>::empty());
        assert(r.incoming + Seq::<u8>::empty() =~= r.incoming);
        lemma_seq_add_zero(s.next_seq_num);
    } else {
        let i = (j - 1) as nat;
        lemma_deliver_prefix(s, r, now, i);
        assert(batch.take(j as int).drop_last() =~= batch.take(i as int));
        let ri = deliver_all(r, batch.take(i as int), now);
        let seq = seq_add(s.next_seq_num, i as int);
        let body = body_chunk(s.unsent, i as int);
        assert(batch.take(j as int).last() == data_packet(seq, body));
        lemma_chunk_facts(len, i);
        lemma_deliver_one(ri, seq, body, now);
        lemma_seq_add_add(s.next_seq_num, i as int, 1);
        let bi = bytes_sent(len, i);
        let bj = bytes_sent(len, j);
        assert(s.unsent.take(bi as int) + body =~= s.unsent.take(bj as int));
    }
}

/// A data packet that carries the number its receiver expects delivers its
/// whole body and moves the receiver on by one.
proof fn lemma_deliver_one(r: ConnectionView, seq: u32, body: Seq<u8>, now: u64)
    requires
        r.expected_seq_num == seq,
        body.len() <= MAX_BODY_SIZE,
    ensures
        packet_step(r, data_packet(seq, body), now).0 == (ConnectionView {
            expected_seq_num: seq_add(seq, 1),
            incoming: r.incoming + body,
            ..r
        }),
{
    let h = Header { seq_num: seq, flags: 0, body_len: body.len() as u32 };
    lemma_packet_round_trip(h, body);
    assert(0u16 & ACK_FLAG != ACK_FLAG) by (bit_vector);
    assert(payload_of(h, body) =~= body);
}

proof fn lemma_chunk_facts(len: nat, i: nat)
    requires
        i < ((len + MAX_BODY_SIZE - 1) / (MAX_BODY_SIZE as int)) as nat,
    ensures
        i * MAX_BODY_SIZE < len,
        bytes_sent(len, i) == i * MAX_BODY_SIZE,
        bytes_sent(len, i + 1) == (if (i + 1) * MAX_BODY_SIZE <= len {
            (i + 1) * MAX_BODY_SIZE
        } else {
            len as int
        }),
{
    assert(i * 1024 < len) by (nonlinear_arith)
        requires
            i < (len + 1023) / 1024,
    ;
    assert((i + 1) * 1024 == i * 1024 + 1024) by (nonlinear_arith);
}

proof fn lemma_seq_add_zero(a: u32)
    ensures
        seq_add(a, 0) == a,
{
}

/// Without loss, a packet sent again from the sender's window reaches a
/// peer that already accepted it: it is acknowledged again and delivers
/// nothing, so retransmission never repeats a byte.
pub proof fn lemma_retransmission_is_duplicate(
    s: ConnectionView,
    r: ConnectionView,
    i: int,
    now: u64,
)
    requires
        s.wf(),
        in_step(s, r),
        0 <= i < s.unacked.len(),
    ensures
        packet_step(r, s.unacked[i], now).0 == r,
        packet_step(r, s.unacked[i], now).1 == seq![
            ack_packet(Header::spec_decode(s.unacked[i]).seq_num),
        ],
{
    assert(s.is_data_in_flight(s.unacked[i], i));
    let seq = Header::spec_decode(s.unacked[i]).seq_num;
    let f = s.window().in_flight();
    lemma_seq_add_dist(s.base, s.next_seq_num);
    lemma_seq_add_add(s.base, i, f - i);
    assert(seq == seq_add(s.base, i));
    assert(s.next_seq_num == seq_add(seq, f - i));
    assert(seq_lt(seq, s.next_seq_num));
}

/// An event on one direction of a link, from a sender to a receiver.
pub enum LinkEvent {
    /// The application writes bytes at the sender.
    Write(Seq<u8>),
    /// The application reads up to this many bytes at the receiver.
    Read(nat),
    /// The sender services its queue at this time; what it sends arrives.
    Send(u64),
    /// The sender's timer ticks at this time; whatever it resends arrives.
    Tick(u64),
    /// A packet arrives at the sender at this time.
    AtSender(Seq<u8>, u64),
    /// An acknowledgment of this number, from the sender's side, arrives at
    /// the receiver at this time.
    AckAtReceiver(u32, u64),
}

/// One direction of a link whose channel loses nothing, with the bytes the
/// application has written at one end and read at the other.
pub struct LosslessRun {
    pub sender: ConnectionView,
    pub receiver: ConnectionView,
    pub written: Seq<u8>,
    pub read: Seq<u8>,
}

/// The run after one event.
pub open spec fn run_step(st: LosslessRun, e: LinkEvent) -> LosslessRun {
    match e {
        LinkEvent::Write(bytes) => LosslessRun {
            sender: write_step(st.sender, bytes),
            written: st.written + bytes,
            ..st
        },
        LinkEvent::Read(max) => LosslessRun {
            receiver: read_step(st.receiver, max).0,
            read: st.read + read_step(st.receiver, max).1,
            ..st
        },
        LinkEvent::Send(now) => LosslessRun {
            sender: send_step(st.sender, now),
            receiver: deliver_all(st.receiver, st.sender.send_batch(), now),
            ..st
        },
        LinkEvent::Tick(now) => LosslessRun {
            sender: tick_step(st.sender, now).0,
            receiver: deliver_all(st.receiver, tick_step(st.sender, now).1, now),
            ..st
        },
        LinkEvent::AtSender(bytes, now) => LosslessRun {
            sender: packet_step(st.sender, bytes, now).0,
            ..st
        },
        LinkEvent::AckAtReceiver(seq, now) => LosslessRun {
            receiver: packet_step(st.receiver, ack_packet(seq), now).0,
            ..st
        },
    }
}

/// The run after `events`, in order.
pub open spec fn run_all(st: LosslessRun, events: Seq<LinkEvent>) -> LosslessRun
    decreases events.len(),
{
    if events.len() == 0 {
        st
    } else {
        run_step(run_all(st, events.drop_last()), events.last())
    }
}

/// Every byte written is accounted for exactly once, in order: it has been
/// read, waits at the receiver, or waits at the sender.
pub open spec fn accounted(st: LosslessRun) -> bool {
    &&& st.sender.wf()
    &&& in_step(st.sender, st.receiver)
    &&& st.read + st.receiver.incoming + st.sender.unsent == st.written
}

/// Over a channel that loses nothing, whatever writes, reads, sends, timer
/// ticks and arrivals happen in whatever order, the bytes read are the bytes
/// written, in order and each once, followed by those still under way; so
/// once both queues are empty, what was read is exactly what was written.
pub proof fn lemma_lossless_stream(st: LosslessRun, events: Seq<LinkEvent>)
    requires
        accounted(st),
    ensures
        accounted(run_all(st, events)),
        run_all(st, events).read.is_prefix_of(run_all(st, events).written),
        run_all(st, events).receiver.incoming.len() == 0 && run_all(st, events).sender.unsent.len()
            == 0 ==> run_all(st, events).read == run_all(st, events).written,
    decreases events.len(),
{
    let fin = run_all(st, events);
    if events.len() > 0 {
        lemma_lossless_stream(st, events.drop_last());
        lemma_run_step_accounted(run_all(st, events.drop_last()), events.last());
    }
    assert(fin.read.is_prefix_of(fin.written)) by {
        assert(fin.written.take(fin.read.len() as int) =~= fin.read);
    }
    if fin.receiver.incoming.len() == 0 && fin.sender.unsent.len() == 0 {
        assert(fin.read + fin.receiver.incoming + fin.sender.unsent =~= fin.read);
    }
}

proof fn lemma_run_step_accounted(st: LosslessRun, e: LinkEvent)
    requires
        accounted(st),
    ensures
        accounted(run_step(st, e)),
{
    let s = st.sender;
    let r = st.receiver;
    match e {
        LinkEvent::Write(bytes) => {
            assert(st.read + r.incoming + (s.unsent + bytes) =~= st.written + bytes);
        },
        LinkEvent::Read(max) => {
            let (r2, out) = read_step(r, max);
            assert(st.read + out + r2.incoming =~= st.read + r.incoming);
            assert(st.read + out + r2.incoming + s.unsent =~= st.read + r.incoming + s.unsent);
        },
        LinkEvent::Send(now) => {
            lemma_send_accounted(st, now);
        },
        LinkEvent::Tick(now) => {
            lemma_tick_accounted(st, now);
        },
        LinkEvent::AtSender(bytes, now) => {
            crate::connection::lemma_window_never_overfills(s, bytes, 0, now);
        },
        LinkEvent::AckAtReceiver(seq, now) => {
            let h = Header { seq_num: seq, flags: ACK_FLAG, body_len: 0 };
            lemma_packet_round_trip(h, seq![]);
            assert(ACK_FLAG & ACK_FLAG == ACK_FLAG) by (bit_vector);
            assert(ack_packet(seq) == packet_bytes(h, seq![]));
        },
    }
}

proof fn lemma_send_accounted(st: LosslessRun, now: u64)
    requires
        accounted(st),
    ensures
        accounted(run_step(st, LinkEvent::Send(now))),
{
    let s = st.sender;
    let r = st.receiver;
    crate::connection::lemma_window_never_overfills(s, seq![], 0, now);
    lemma_lossless_transfer(s, r, now, now);
    let r2 = deliver_all(r, s.send_batch(), now);
    let s2 = send_step(s, now);
    assert(st.read + r2.incoming + s2.unsent =~= st.read + (r2.incoming + s2.unsent));
    assert(st.read + r.incoming + s.unsent =~= st.read + (r.incoming + s.unsent));
}

proof fn lemma_tick_accounted(st: LosslessRun, now: u64)
    requires
        accounted(st),
    ensures
        accounted(run_step(st, LinkEvent::Tick(now))),
{
    let s = st.sender;
    let r = st.receiver;
    crate::connection::lemma_window_never_overfills(s, seq![], 0, now);
    lemma_resent_changes_nothing(s, r, now, s.unacked.len() as nat);
    assert(s.unacked.take(s.unacked.len() as int) =~= s.unacked);
    assert(deliver_all(r, seq![], now) == r);
}

proof fn lemma_resent_changes_nothing(s: ConnectionView, r: ConnectionView, now: u64, j: nat)
    requires
        s.wf(),
        in_step(s, r),
        j <= s.unacked.len(),
    ensures
        deliver_all(r, s.unacked.take(j as int), now) == r,
    decreases j,
{
    if j > 0 {
        lemma_resent_changes_nothing(s, r, now, (j - 1) as nat);
        assert(s.unacked.take(j as int).drop_last() =~= s.unacked.take(j - 1));
        lemma_retransmission_is_duplicate(s, r, j - 1, now);
    }
}

/// `p` parses as a data packet.
pub open spec fn is_data(p: Seq<u8>) -> bool {
    p.len() >= HEADER_LEN && !Header::spec_decode(p).spec_is_ack()
}

/// The bytes data packet `p` delivers when accepted.
pub open spec fn data_payload(p: Seq<u8>) -> Seq<u8> {
    payload_of(Header::spec_decode(p), p.skip(HEADER_LEN as int))
}

/// How many of `packets`, arriving in order at a receiver that expects
/// `e0`, are accepted: each data packet that carries the number expected
/// at its arrival.
pub open spec fn accepted_count(e0: u32, packets: Seq<Seq<u8>>) -> nat
    decreases packets.len(),
{
    if packets.len() == 0 {
        0
    } else {
        let n = accepted_count(e0, packets.drop_last());
        let p = packets.last();
        if is_data(p) && Header::spec_decode(p).seq_num == seq_add(e0, n as int) {
            n + 1
        } else {
            n
        }
    }
}

/// The bodies numbered `e0`, `e0 + 1`, ..., `e0 + n - 1` (wrapping), in order.
pub open spec fn bodies_from(body_of: spec_fn(u32) -> Seq<u8>, e0: u32, n: nat) -> Seq<u8>
    decreases n,
{
    if n == 0 {
        Seq::empty()
    } else {
        bodies_from(body_of, e0, (n - 1) as nat) + body_of(seq_add(e0, n - 1))
    }
}

/// Whatever packets reach a receiver, in whatever mix of repeats, gaps,
/// acknowledgments and malformed bytes: if every data packet numbered `s`
/// carries the same body `body_of(s)`, then the receiver appends the bodies
/// numbered from the one it expected first, each exactly once and in order,
/// and nothing else.
pub proof fn lemma_receiver_delivers_in_order(
    r: ConnectionView,
    packets: Seq<Seq<u8>>,
    body_of: spec_fn(u32) -> Seq<u8>,
    now: u64,
)
    requires
        forall|i: int|
            0 <= i < packets.len() && is_data(#[trigger] packets[i]) ==> data_payload(packets[i])
                == body_of(Header::spec_decode(packets[i]).seq_num),
    ensures
        ({
            let n = accepted_count(r.expected_seq_num, packets);
            let fin = deliver_all(r, packets, now);
            &&& fin.expected_seq_num == seq_add(r.expected_seq_num, n as int)
            &&& fin.incoming == r.incoming + bodies_from(body_of, r.expected_seq_num, n)
        }),
    decreases packets.len(),
{
    let e0 = r.expected_seq_num;
    if packets.len() == 0 {
        lemma_seq_add_zero(e0);
        assert(r.incoming + Seq::<u8>::empty() =~= r.incoming);
    } else {
        let pre = packets.drop_last();
        assert forall|i: int|
            0 <= i < pre.len() && is_data(#[trigger] pre[i]) implies data_payload(pre[i])
                == body_of(Header::spec_decode(pre[i]).seq_num) by {
            assert(pre[i] == packets[i]);
        }
        lemma_receiver_delivers_in_order(r, pre, body_of, now);
        let m = accepted_count(e0, pre);
        let p = packets.last();
        assert(p == packets[packets.len() - 1]);
        if is_data(p) && Header::spec_decode(p).seq_num == seq_add(e0, m as int) {
            lemma_seq_add_add(e0, m as int, 1);
            assert(r.incoming + bodies_from(body_of, e0, m) + body_of(seq_add(e0, m as int))
                =~= r.incoming + bodies_from(body_of, e0, m + 1));
        }
    }
}

} // verus!
