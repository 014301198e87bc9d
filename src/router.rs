//! Decisions of the loop that carries packets between the two sides of a
//! link: where a packet goes, whether it is lost, and what each side sends.
use vstd::prelude::*;

use crate::connection::{
    packet_step, packets_view, send_step, tick_step, Connection, PacketWrapper,
};

verus! {

/// Of the 256 equally likely values of a random byte, those above this one
/// lose the packet: about one packet in five.
pub const LOSS_THRESHOLD: u8 = 200;

/// Whether, and how, the channel loses packets.
#[derive(Clone, Copy, Debug, PartialEq, Eq, Structural)]
pub enum LossPolicy {
    /// Every packet arrives.
    Lossless,
    /// Each packet is lost when a fresh random byte exceeds [`LOSS_THRESHOLD`].
    Random,
}

/// Whether a random byte `roll` loses the packet.
pub open spec fn roll_loses(roll: u8) -> bool {
    roll > LOSS_THRESHOLD
}

/// Relies on `rand::RngCore::try_fill_bytes` for `rand::rngs::OsRng`, which
/// fills a one-byte buffer from the operating system's random source and
/// reports a failure of that source as an error instead of panicking:
/// `Some(byte)` on success, `None` on failure. Nothing is promised of the
/// byte's value.
#[verifier::external_body]
fn random_byte() -> (r: Option<u8>) {
    let mut buf = [0u8; 1];
    match rand::RngCore::try_fill_bytes(&mut rand::rngs::OsRng, &mut buf) {
        Ok(()) => Some(buf[0]),
        Err(_) => None,
    }
}

/// Whether a random byte loses the packet.
pub fn is_lost(roll: u8) -> (r: bool)
    ensures
        r == roll_loses(roll),
{
    roll > LOSS_THRESHOLD
}

/// Whether a packet is lost under `policy`, given the outcome of drawing a
/// random byte: never on a lossless channel; on a random one, as the byte
/// falls, and never when the draw failed.
pub open spec fn loses(policy: LossPolicy, draw: Option<u8>) -> bool {
    match policy {
        LossPolicy::Lossless => false,
        LossPolicy::Random => match draw {
            Some(roll) => roll_loses(roll),
            None => false,
        },
    }
}

/// Decides whether a packet is lost under `policy`, given the outcome of a
/// random draw (`None` when the random source failed).
pub fn loss_from_draw(policy: LossPolicy, draw: Option<u8>) -> (r: bool)
    ensures
        r == loses(policy, draw),
{
    match policy {
        LossPolicy::Lossless => false,
        LossPolicy::Random => match draw {
            Some(roll) => is_lost(roll),
            None => false,
        },
    }
}

/// Decides whether the next packet is lost under `policy`: never when the
/// channel is lossless (no draw is made), otherwise as a fresh random byte
/// falls; a failed draw loses nothing.
pub fn draw_loss(policy: LossPolicy) -> (r: bool)
    ensures
        policy == LossPolicy::Lossless ==> !r,
{
    match policy {
        LossPolicy::Lossless => false,
        LossPolicy::Random => {
            let draw = random_byte();
            loss_from_draw(policy, draw)
        },
    }
}

/// The packets a side transmits, tagged with that side.
pub open spec fn tagged(r: Seq<PacketWrapper>, is_left_side: bool, packets: Seq<Seq<u8>>) -> bool {
    &&& r.len() == packets.len()
    &&& forall|i: int|
        0 <= i < r.len() ==> (#[trigger] r[i]).spec_is_left_side() == is_left_side && r[i].spec_data()
            == packets[i]
}

/// Tags each packet with the side that sends it.
pub fn tag_all(packets: Vec<Vec<u8>>, is_left_side: bool) -> (r: Vec<PacketWrapper>)
    ensures
        tagged(r@, is_left_side, packets_view(packets@)),
{
    let ghost all = packets@;
    let n = packets.len();
    let mut packets = packets;
    let mut r: Vec<PacketWrapper> = Vec::with_capacity(n);
    let mut i: usize = 0;
    while i < n
        invariant
            n == all.len(),
            i <= n,
            packets@ == all.subrange(i as int, n as int),
            r@.len() == i,
            forall|j: int|
                0 <= j < i ==> (#[trigger] r@[j]).spec_is_left_side() == is_left_side
                    && r@[j].spec_data() == all[j]@,
        decreases n - i,
    {
        let p = packets.remove(0);
        r.push(PacketWrapper::new(p, is_left_side));
        i += 1;
        assert(packets@ =~= all.subrange(i as int, n as int));
    }
    r
}

/// A packet that left one side reaches the other: `dest` must be the side
/// opposite the packet's origin. A lost packet changes nothing; otherwise
/// `dest` handles it at time `now` and its answers come back tagged with
/// `dest`'s side.
pub fn deliver(dest: &mut Connection, packet: PacketWrapper, lost: bool, now: u64) -> (r: Vec<PacketWrapper>)
    requires
        old(dest)@.wf(),
        old(dest)@.is_left_side != packet.spec_is_left_side(),
    ensures
        final(dest)@.wf(),
        lost ==> final(dest)@ == old(dest)@ && r@.len() == 0,
        !lost ==> final(dest)@ == packet_step(old(dest)@, packet.spec_data(), now).0 && tagged(
            r@,
            old(dest)@.is_left_side,
            packet_step(old(dest)@, packet.spec_data(), now).1,
        ),
{
    if lost {
        return Vec::new();
    }
    let side = dest.is_left_side();
    let data = packet.unwrap();
    let answers = dest.on_packet(data.as_slice(), now);
    tag_all(answers, side)
}

/// What a side does when no packet arrived within the poll interval: it
/// first resends its window if the deadline passed, then services its send
/// queue. Returns everything it transmits, tagged with its side, in order.
pub fn service(c: &mut Connection, now: u64) -> (r: Vec<PacketWrapper>)
    requires
        old(c)@.wf(),
    ensures
        final(c)@.wf(),
        final(c)@ == send_step(tick_step(old(c)@, now).0, now),
        tagged(
            r@,
            old(c)@.is_left_side,
            tick_step(old(c)@, now).1 + tick_step(old(c)@, now).0.send_batch(),
        ),
{
    let side = c.is_left_side();
    let mut resent = c.on_tick(now);
    let mut fresh = c.send_if_could(now);
    let ghost a = resent@;
    let ghost b = fresh@;
    resent.append(&mut fresh);
    assert(packets_view(resent@) =~= packets_view(a) + packets_view(b));
    tag_all(resent, side)
}

} // verus!
