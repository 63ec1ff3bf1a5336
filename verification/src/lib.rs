//! Framing of MySQL wire packets, without the I/O.
//!
//! A payload goes onto the wire as a run of packets, each with a four-byte
//! header: three bytes of length, least significant first, and one sequence
//! byte. A packet whose payload has exactly [`wire::U24_MAX`] bytes says that
//! the message goes on in the next packet; a shorter one ends the message.
//!
//! [`writer::PacketWriter`] frames payloads and hands out the byte slices to
//! send, [`vectored::VectoredWrite`] follows a vectored write that a sink may
//! complete only in part, and [`reader::PacketReader`] buffers received bytes
//! and puts messages together again. None of them touches a stream: the
//! caller moves the bytes.
//!
//! [`wire`] says what the bytes of a payload are, [`packet`] holds the
//! parsers, and [`laws`] proves what writing and reading have to do with
//! each other: above all, that what was framed parses back to what it was.

pub mod laws;
pub mod metrics;
pub mod packet;
pub mod reader;
pub mod slices;
pub mod vectored;
pub mod wire;
pub mod writer;

pub use packet::{fullpacket, onepacket, packet, Packet, ParseError};
pub use reader::{PacketReader, ReadError};
pub use vectored::VectoredWrite;
pub use wire::U24_MAX;
pub use writer::{
    queued_packet_slices, PacketWriter, QueuedPacket, MAX_POOL_ROWS, MAX_POOL_ROW_CAPACITY,
};
