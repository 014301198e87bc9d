//! A Go-Back-N reliable byte stream over a lossy packet channel.
//!
//! - [`packet`]: the wire format, a 10-byte big-endian header and a body.
//! - [`seqnum`]: wraparound-safe arithmetic on 32-bit sequence numbers.
//! - [`window`]: the sender's sliding window and the receiver's sequencer.
//! - [`connection`]: one side of a link, as a state machine over its events.
//! - [`transfer`]: what a direction delivers when no packet is lost.
//! - [`router`]: the decisions of the loop that carries packets between sides.
pub mod connection;
pub mod packet;
pub mod router;
pub mod seqnum;
pub mod transfer;
pub mod window;
