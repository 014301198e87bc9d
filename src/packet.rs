//! Wire format: a fixed 10-byte big-endian header followed by the body.
//!
//! | field      | width   |
//! |------------|---------|
//! | seq_num    | 32 bits |
//! | flags      | 16 bits (bit 0: ACK) |
//! | body_len   | 32 bits |
use vstd::prelude::*;

verus! {

/// Size in bytes of an encoded header.
pub const HEADER_LEN: usize = 10;

/// Flag bit that marks an acknowledgment.
pub const ACK_FLAG: u16 = 1;

/// Big-endian bytes of a 32-bit integer.
pub open spec fn u32_be(x: u32) -> Seq<u8> {
    seq![(x >> 24u32) as u8, (x >> 16u32) as u8, (x >> 8u32) as u8, x as u8]
}

/// Big-endian bytes of a 16-bit integer.
pub open spec fn u16_be(x: u16) -> Seq<u8> {
    seq![(x >> 8u16) as u8, x as u8]
}

/// The 32-bit integer stored big-endian in `b[i..i + 4]`.
pub open spec fn read_u32_be(b: Seq<u8>, i: int) -> u32 {
    ((b[i] as u32) << 24u32) | ((b[i + 1] as u32) << 16u32) | ((b[i + 2] as u32) << 8u32) | (
    b[i + 3] as u32)
}

/// The 16-bit integer stored big-endian in `b[i..i + 2]`.
pub open spec fn read_u16_be(b: Seq<u8>, i: int) -> u16 {
    ((b[i] as u16) << 8u16) | (b[i + 1] as u16)
}

#[derive(Clone, Copy, Debug, PartialEq, Eq, Structural)]
pub struct Header {
    pub seq_num: u32,
    pub flags: u16,
    pub body_len: u32,
}

impl Header {
    /// The encoded form of this header.
    pub open spec fn spec_bytes(self) -> Seq<u8> {
        u32_be(self.seq_num) + u16_be(self.flags) + u32_be(self.body_len)
    }

    /// The header stored at the front of `b`.
    pub open spec fn spec_decode(b: Seq<u8>) -> Header {
        Header { seq_num: read_u32_be(b, 0), flags: read_u16_be(b, 4), body_len: read_u32_be(b, 6) }
    }

    pub open spec fn spec_is_ack(self) -> bool {
        self.flags & ACK_FLAG == ACK_FLAG
    }

    pub fn new(seq_num: u32, body_len: u32, is_ack: bool) -> (r: Self)
        ensures
            r.seq_num == seq_num,
            r.body_len == body_len,
            r.flags == (if is_ack { ACK_FLAG } else { 0u16 }),
            r.spec_is_ack() == is_ack,
    {
        let flags: u16 = if is_ack { ACK_FLAG } else { 0 };
        assert(ACK_FLAG & ACK_FLAG == ACK_FLAG && 0u16 & ACK_FLAG != ACK_FLAG) by (bit_vector);
        Header { seq_num, flags, body_len }
    }

    pub fn is_ack(&self) -> (r: bool)
        ensures
            r == self.spec_is_ack(),
    {
        self.flags & ACK_FLAG == ACK_FLAG
    }

    /// Encodes the header in its 10-byte wire form.
    pub fn to_bytes(&self) -> (r: Vec<u8>)
        ensures
            r@ == self.spec_bytes(),
            r@.len() == HEADER_LEN,
    {
        let mut r: Vec<u8> = Vec::with_capacity(HEADER_LEN);
        push_u32_be(&mut r, self.seq_num);
        r.push((self.flags >> 8u16) as u8);
        r.push(self.flags as u8);
        push_u32_be(&mut r, self.body_len);
        assert(r@ =~= self.spec_bytes());
        r
    }

    /// Decodes the header at the front of `bytes`; `None` when fewer than
    /// 10 bytes are given.
    pub fn parse(bytes: &[u8]) -> (r: Option<Header>)
        ensures
            r.is_some() <==> bytes@.len() >= HEADER_LEN,
            r.is_some() ==> r.unwrap() == Header::spec_decode(bytes@),
    {
        if bytes.len() < HEADER_LEN {
            return None;
        }
        let seq_num = get_u32_be(bytes, 0);
        let flags: u16 = ((bytes[4] as u16) << 8u16) | (bytes[5] as u16);
        let body_len = get_u32_be(bytes, 6);
        Some(Header { seq_num, flags, body_len })
    }
}

/// A parsed packet: the header and every byte that followed it.
pub struct Packet {
    pub header: Header,
    pub body: Vec<u8>,
}

/// The bytes that a packet with header `h` carries, given the bytes `rest`
/// that followed the header: `body_len` of them, or all if fewer came.
pub open spec fn payload_of(h: Header, rest: Seq<u8>) -> Seq<u8> {
    if rest.len() <= h.body_len {
        rest
    } else {
        rest.take(h.body_len as int)
    }
}

/// The bytes of a packet with header `h` and body `body`.
pub open spec fn packet_bytes(h: Header, body: Seq<u8>) -> Seq<u8> {
    h.spec_bytes() + body
}

impl Packet {
    /// Splits `bytes` into header and body; `None` when they cannot hold a header.
    pub fn parse(bytes: &[u8]) -> (r: Option<Packet>)
        ensures
            r.is_some() <==> bytes@.len() >= HEADER_LEN,
            r.is_some() ==> r.unwrap().header == Header::spec_decode(bytes@) && r.unwrap().body@
                == bytes@.skip(HEADER_LEN as int),
    {
        let header = match Header::parse(bytes) {
            Some(h) => h,
            None => return None,
        };
        let mut body: Vec<u8> = Vec::with_capacity(bytes.len() - HEADER_LEN);
        let mut i: usize = HEADER_LEN;
        while i < bytes.len()
            invariant
                HEADER_LEN <= i <= bytes@.len(),
                body@ == bytes@.subrange(HEADER_LEN as int, i as int),
            decreases bytes@.len() - i,
        {
            body.push(bytes[i]);
            i += 1;
            assert(body@ =~= bytes@.subrange(HEADER_LEN as int, i as int));
        }
        assert(body@ =~= bytes@.skip(HEADER_LEN as int));
        Some(Packet { header, body })
    }

    pub fn get_seq_num(&self) -> (r: u32)
        ensures
            r == self.header.seq_num,
    {
        self.header.seq_num
    }

    pub fn is_ack(&self) -> (r: bool)
        ensures
            r == self.header.spec_is_ack(),
    {
        self.header.is_ack()
    }

    pub fn get_body_len(&self) -> (r: u32)
        ensures
            r == self.header.body_len,
    {
        self.header.body_len
    }

    /// The bytes this packet delivers: its first `body_len` body bytes.
    pub fn payload(&self) -> (r: Vec<u8>)
        ensures
            r@ == payload_of(self.header, self.body@),
    {
        let n: usize = if (self.header.body_len as u64) < (self.body.len() as u64) {
            self.header.body_len as usize
        } else {
            self.body.len()
        };
        let mut r: Vec<u8> = Vec::with_capacity(n);
        let mut i: usize = 0;
        while i < n
            invariant
                n <= self.body@.len(),
                n == payload_of(self.header, self.body@).len(),
                i <= n,
                r@ == self.body@.take(i as int),
            decreases n - i,
        {
            r.push(self.body[i]);
            i += 1;
            assert(r@ =~= self.body@.take(i as int));
        }
        assert(r@ =~= payload_of(self.header, self.body@));
        r
    }
}

/// Encodes a packet: the header's 10 bytes, then the body.
pub fn encode_packet(header: &Header, body: &[u8]) -> (r: Vec<u8>)
    ensures
        r@ == packet_bytes(*header, body@),
{
    let mut r = header.to_bytes();
    let mut i: usize = 0;
    while i < body.len()
        invariant
            i <= body@.len(),
            r@ == header.spec_bytes() + body@.take(i as int),
        decreases body@.len() - i,
    {
        r.push(body[i]);
        i += 1;
        assert(r@ =~= header.spec_bytes() + body@.take(i as int));
    }
    assert(body@.take(body@.len() as int) =~= body@);
    r
}

/// Parsing an encoded packet gives back its header and body.
pub proof fn lemma_packet_round_trip(h: Header, body: Seq<u8>)
    ensures
        packet_bytes(h, body).len() >= HEADER_LEN,
        Header::spec_decode(packet_bytes(h, body)) == h,
        packet_bytes(h, body).skip(HEADER_LEN as int) == body,
{
    lemma_header_round_trip(h, body);
    assert(packet_bytes(h, body).skip(HEADER_LEN as int) =~= body);
}

fn push_u32_be(v: &mut Vec<u8>, x: u32)
    ensures
        final(v)@ == old(v)@ + u32_be(x),
{
    v.push((x >> 24u32) as u8);
    v.push((x >> 16u32) as u8);
    v.push((x >> 8u32) as u8);
    v.push(x as u8);
    assert(final(v)@ =~= old(v)@ + u32_be(x));
}

fn get_u32_be(b: &[u8], i: usize) -> (r: u32)
    requires
        i + 4 <= b@.len(),
    ensures
        r == read_u32_be(b@, i as int),
{
    ((b[i] as u32) << 24u32) | ((b[i + 1] as u32) << 16u32) | ((b[i + 2] as u32) << 8u32) | (b[i
        + 3] as u32)
}

/// Decoding the big-endian bytes of `x` gives back `x`.
pub proof fn lemma_u32_be_round_trip(x: u32)
    ensures
        read_u32_be(u32_be(x), 0) == x,
{
    let b = u32_be(x);
    let (b0, b1, b2, b3) = (b[0], b[1], b[2], b[3]);
    assert(b0 == (x >> 24u32) as u8 && b1 == (x >> 16u32) as u8 && b2 == (x >> 8u32) as u8 && b3
        == x as u8);
    assert(b0 == (x >> 24u32) as u8 && b1 == (x >> 16u32) as u8 && b2 == (x >> 8u32) as u8 && b3
        == x as u8 ==> ((b0 as u32) << 24u32) | ((b1 as u32) << 16u32) | ((b2 as u32) << 8u32) | (
    b3 as u32) == x) by (bit_vector);
}

/// Decoding the big-endian bytes of `x` gives back `x`.
pub proof fn lemma_u16_be_round_trip(x: u16)
    ensures
        read_u16_be(u16_be(x), 0) == x,
{
    let b = u16_be(x);
    let (b0, b1) = (b[0], b[1]);
    assert(b0 == (x >> 8u16) as u8 && b1 == x as u8);
    assert(b0 == (x >> 8u16) as u8 && b1 == x as u8 ==> ((b0 as u16) << 8u16) | (b1 as u16) == x)
        by (bit_vector);
}

/// Decoding an encoded header, whatever bytes follow it, gives back the header.
pub proof fn lemma_header_round_trip(h: Header, rest: Seq<u8>)
    ensures
        Header::spec_decode(h.spec_bytes() + rest) == h,
        (h.spec_bytes() + rest).len() == HEADER_LEN + rest.len(),
{
    let b = h.spec_bytes() + rest;
    lemma_u32_be_round_trip(h.seq_num);
    lemma_u16_be_round_trip(h.flags);
    lemma_u32_be_round_trip(h.body_len);
    assert(b.subrange(0, 4) =~= u32_be(h.seq_num));
    assert(b.subrange(4, 6) =~= u16_be(h.flags));
    assert(b.subrange(6, 10) =~= u32_be(h.body_len));
    assert(read_u32_be(b, 0) == read_u32_be(b.subrange(0, 4), 0));
    assert(read_u16_be(b, 4) == read_u16_be(b.subrange(4, 6), 0));
    assert(read_u32_be(b, 6) == read_u32_be(b.subrange(6, 10), 0));
}

} // verus!
