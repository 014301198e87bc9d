//! The sender's sliding window and the receiver's in-order sequencer.
use vstd::prelude::*;

use crate::seqnum::{lemma_seq_add_add, lemma_seq_add_dist, seq_add, seq_dist, seq_lt, wrapping_lt};

verus! {

/// Window size N: at most N - 1 packets are ever in flight.
pub const WINDOW_SIZE: u32 = 32;

/// Tracks which sequence numbers a sender has in flight.
pub struct SendSequenceSpace {
    /// Sequence number of the oldest unacknowledged packet.
    pub base: u32,
    /// Smallest sequence number not yet handed out.
    pub next_seq_num: u32,
}

/// How many packets an acknowledgment of `seq` retires from a window that
/// has `[base, next)` in flight: every packet up to and including `seq`
/// when `seq` is in flight, none otherwise (a stale or unknown number).
pub open spec fn ack_count(base: u32, next: u32, seq: u32) -> nat {
    if seq_dist(base, seq) < seq_dist(base, next) {
        seq_dist(base, seq) + 1
    } else {
        0
    }
}

impl SendSequenceSpace {
    /// Number of packets in flight.
    pub open spec fn in_flight(&self) -> nat {
        seq_dist(self.base, self.next_seq_num)
    }

    /// The window holds fewer than N packets in flight.
    pub open spec fn wf(&self) -> bool {
        self.in_flight() < WINDOW_SIZE
    }

    /// Another packet may be sent: fewer than N - 1 are in flight.
    pub open spec fn spec_sendable(&self) -> bool {
        self.in_flight() < WINDOW_SIZE - 1
    }

    pub fn new(base: u32) -> (r: Self)
        ensures
            r.base == base,
            r.next_seq_num == base,
            r.in_flight() == 0,
            r.wf(),
    {
        SendSequenceSpace { base, next_seq_num: base }
    }

    /// Whether `next_seq_num` comes before `base + N - 1`.
    pub fn is_sendable(&self) -> (r: bool)
        ensures
            r == seq_lt(self.next_seq_num, seq_add(self.base, WINDOW_SIZE - 1)),
            self.wf() ==> (r == self.spec_sendable()),
    {
        wrapping_lt(self.next_seq_num, self.base.wrapping_add(WINDOW_SIZE - 1))
    }

    /// Cumulative acknowledgment of `seq_num`: retires the packets from
    /// `base` up to and including `seq_num` and returns how many.
    pub fn ack(&mut self, seq_num: u32) -> (r: usize)
        ensures
            r == ack_count(old(self).base, old(self).next_seq_num, seq_num),
            final(self).base == seq_add(old(self).base, r as int),
            final(self).next_seq_num == old(self).next_seq_num,
            final(self).in_flight() == old(self).in_flight() - r,
            old(self).wf() ==> final(self).wf(),
    {
        let d = seq_num.wrapping_sub(self.base);
        let u = self.next_seq_num.wrapping_sub(self.base);
        if d < u {
            self.base = seq_num.wrapping_add(1);
            proof {
                let b = old(self).base as int;
                let n = old(self).next_seq_num as int;
                let s = seq_num as int;
                assert(d == seq_dist(b as u32, s as u32));
                assert(final(self).base == seq_add(old(self).base, d + 1));
                assert(seq_dist(final(self).base, n as u32) == u - d - 1);
            }
            (d + 1) as usize
        } else {
            0
        }
    }

    /// Number of packets in flight.
    pub fn unacked_count(&self) -> (r: usize)
        ensures
            r == self.in_flight(),
    {
        self.next_seq_num.wrapping_sub(self.base) as usize
    }

    pub fn has_unacked(&self) -> (r: bool)
        ensures
            r == (self.in_flight() > 0),
    {
        self.unacked_count() > 0
    }

    /// Hands out the next sequence number and moves past it; only while
    /// [`Self::is_sendable`] holds.
    pub fn get_next_seq_num_then_inc(&mut self) -> (r: u32)
        requires
            seq_lt(old(self).next_seq_num, seq_add(old(self).base, WINDOW_SIZE - 1)),
        ensures
            r == old(self).next_seq_num,
            final(self).next_seq_num == seq_add(old(self).next_seq_num, 1),
            final(self).base == old(self).base,
            old(self).wf() ==> final(self).in_flight() == old(self).in_flight() + 1,
            old(self).wf() ==> final(self).wf(),
    {
        proof {
            if old(self).wf() {
                lemma_sendable_iff_room(*old(self));
            }
        }
        let old_next = self.next_seq_num;
        self.next_seq_num = old_next.wrapping_add(1);
        old_next
    }
}

proof fn lemma_sendable_iff_room(w: SendSequenceSpace)
    requires
        w.wf(),
    ensures
        seq_lt(w.next_seq_num, seq_add(w.base, WINDOW_SIZE - 1)) == w.spec_sendable(),
{
    let d = w.in_flight();
    lemma_seq_add_dist(w.base, w.next_seq_num);
    lemma_seq_add_add(w.base, d as int, (WINDOW_SIZE - 1 - d) as int);
}

/// What a receiver expecting `expected` makes of sequence number `seq`:
/// `Some(true)` accepts it (fresh), `Some(false)` marks it as already
/// delivered (duplicate), `None` drops it (not yet ready).
pub open spec fn receive_outcome(expected: u32, seq: u32) -> Option<bool> {
    if seq == expected {
        Some(true)
    } else if seq_lt(seq, expected) {
        Some(false)
    } else {
        None
    }
}

/// The number a receiver expecting `expected` waits for after `seq` arrives.
pub open spec fn receive_next(expected: u32, seq: u32) -> u32 {
    if seq == expected {
        seq_add(expected, 1)
    } else {
        expected
    }
}

/// Tracks the next sequence number a receiver will accept.
pub struct RecvSequenceSpace {
    pub expected_seq_num: u32,
}

impl RecvSequenceSpace {
    pub fn new(expected_seq_num: u32) -> (r: Self)
        ensures
            r.expected_seq_num == expected_seq_num,
    {
        RecvSequenceSpace { expected_seq_num }
    }

    /// Classifies an arriving sequence number: `Some(true)` fresh,
    /// `Some(false)` duplicate, `None` not yet ready.
    pub fn rcv(&mut self, seq_num: u32) -> (r: Option<bool>)
        ensures
            r == receive_outcome(old(self).expected_seq_num, seq_num),
            final(self).expected_seq_num == receive_next(old(self).expected_seq_num, seq_num),
    {
        if seq_num == self.expected_seq_num {
            self.expected_seq_num = self.expected_seq_num.wrapping_add(1);
            Some(true)
        } else if wrapping_lt(seq_num, self.expected_seq_num) {
            Some(false)
        } else {
            None
        }
    }
}

/// A sequence number other than the expected one is never accepted and
/// never moves the receiver; one that does not come before the expected
/// number is answered "not yet ready".
pub proof fn lemma_only_expected_accepted(expected: u32, seq: u32)
    requires
        seq != expected,
    ensures
        receive_next(expected, seq) == expected,
        receive_outcome(expected, seq) != Some(true),
        !seq_lt(seq, expected) ==> receive_outcome(expected, seq) is None,
{
}

/// Sequence numbers are compared by distance from `base`, so a window that
/// straddles 2^32 behaves as any other: with `k` packets in flight it may
/// send iff `k < N - 1` (also by the modular comparison that
/// [`SendSequenceSpace::is_sendable`] makes), every in-flight number after `base` counts as
/// after it even once it has wrapped to a small value, and acknowledging
/// the `i`-th in-flight number retires `i + 1` packets.
pub proof fn lemma_wraparound_window(base: u32, k: nat, i: nat)
    requires
        k < WINDOW_SIZE,
        i < k,
    ensures
        ({
            let w = SendSequenceSpace { base, next_seq_num: seq_add(base, k as int) };
            &&& w.wf()
            &&& w.in_flight() == k
            &&& w.spec_sendable() == (k < WINDOW_SIZE - 1)
            &&& seq_lt(w.next_seq_num, seq_add(base, WINDOW_SIZE - 1)) == (k < WINDOW_SIZE - 1)
            &&& (i > 0 ==> seq_lt(base, seq_add(base, i as int)))
            &&& ack_count(base, w.next_seq_num, seq_add(base, i as int)) == i + 1
        }),
{
    let w = SendSequenceSpace { base, next_seq_num: seq_add(base, k as int) };
    assert(seq_dist(base, seq_add(base, k as int)) == k);
    assert(seq_dist(base, seq_add(base, i as int)) == i);
    assert(i > 0 ==> seq_dist(seq_add(base, i as int), base) == 0x1_0000_0000 - i);
    lemma_sendable_iff_room(w);
}

} // verus!
