//! Plain-value models of the IPv4/TCP header fields the state machine reads
//! and writes, the connection identity key, and the library's error type.

use vstd::prelude::*;

verus! {

/// Protocol number that IPv4 uses for TCP.
pub const IP_PROTO_TCP: u8 = 6;

/// Payload budget of one outgoing frame: 1500 bytes less the two 20-byte
/// headers.
pub const MAX_PAYLOAD: usize = 1460;

/// Identity of one connection: source and destination address/port pairs as
/// they appear on incoming segments (source = peer, destination = local).
/// Two connections with swapped source/destination are distinct.
#[derive(Clone, Copy, PartialEq, Eq, Structural, Debug)]
pub struct Quad {
    pub src_addr: u32,
    pub src_port: u16,
    pub dst_addr: u32,
    pub dst_port: u16,
}

/// The IPv4 header fields the dispatcher reads, decoded from a frame.
/// Addresses are big-endian byte order packed into a `u32`.
#[derive(Clone, Copy, PartialEq, Eq, Structural, Debug)]
pub struct Ipv4Fields {
    pub source: u32,
    pub destination: u32,
    pub protocol: u8,
    pub header_len: usize,
}

/// The TCP header fields the state machine reads, decoded from a frame.
#[derive(Clone, Copy, PartialEq, Eq, Structural, Debug)]
pub struct TcpFields {
    pub source_port: u16,
    pub destination_port: u16,
    pub sequence_number: u32,
    pub acknowledgment_number: u32,
    pub window_size: u16,
    pub syn: bool,
    pub ack: bool,
    pub fin: bool,
    pub rst: bool,
    pub header_len: usize,
}

/// One outgoing segment, fully determined as plain values: the encoder turns
/// it into an IPv4/TCP frame without further decisions.
pub struct Segment {
    pub source: u32,
    pub destination: u32,
    pub source_port: u16,
    pub destination_port: u16,
    pub sequence_number: u32,
    pub acknowledgment_number: u32,
    pub window_size: u16,
    pub syn: bool,
    pub ack: bool,
    pub fin: bool,
    pub rst: bool,
    pub payload: Vec<u8>,
}

/// Mathematical view of a `Segment`.
#[verifier::ext_equal]
pub struct SegmentView {
    pub source: u32,
    pub destination: u32,
    pub source_port: u16,
    pub destination_port: u16,
    pub sequence_number: u32,
    pub acknowledgment_number: u32,
    pub window_size: u16,
    pub syn: bool,
    pub ack: bool,
    pub fin: bool,
    pub rst: bool,
    pub payload: Seq<u8>,
}

impl View for Segment {
    type V = SegmentView;

    open spec fn view(&self) -> SegmentView {
        SegmentView {
            source: self.source,
            destination: self.destination,
            source_port: self.source_port,
            destination_port: self.destination_port,
            sequence_number: self.sequence_number,
            acknowledgment_number: self.acknowledgment_number,
            window_size: self.window_size,
            syn: self.syn,
            ack: self.ack,
            fin: self.fin,
            rst: self.rst,
            payload: self.payload@,
        }
    }
}

/// The failures the manager surfaces to application-side callers.
#[derive(Clone, Copy, PartialEq, Eq, Structural, Debug)]
pub enum TcpError {
    /// The port already has a listener bound to it.
    AddrInUse,
    /// The connection behind a stream handle is gone from the table.
    ConnectionAborted,
    /// The operation cannot complete without waiting.
    WouldBlock,
    /// The manager has been told to shut down.
    Terminated,
}

} // verus!
