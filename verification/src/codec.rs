//! The header codec: decoding raw frames into plain header fields and
//! encoding outgoing segments back into frames, through etherparse.
//!
//! Decoding and encoding are pure functions of the bytes alone; their exact
//! results are named rather than spelled out, and everything the state
//! machine decides from them is verified against those names.

use vstd::prelude::*;

use crate::wire::{Ipv4Fields, Segment, SegmentView, TcpFields, MAX_PAYLOAD};

verus! {

/// What etherparse's IPv4 decoder yields on the given bytes: the header
/// fields and the header length, or nothing when the bytes do not parse.
pub uninterp spec fn ipv4_decoded(b: Seq<u8>) -> Option<Ipv4Fields>;

/// What etherparse's TCP decoder yields on the given bytes.
pub uninterp spec fn tcp_decoded(b: Seq<u8>) -> Option<TcpFields>;

/// The IPv4/TCP frame that etherparse serializes for the given segment:
/// both headers with their checksums, then the payload.
pub uninterp spec fn frame_of(s: SegmentView) -> Seq<u8>;

/// Relies on `etherparse::Ipv4HeaderSlice::from_slice` and its accessors
/// `source`, `destination`, `protocol` and `slice`: parsing either fails or
/// yields the header fields, whose addresses are converted to big-endian
/// `u32`, with a header length of at least 20 bytes and no longer than the
/// input.
#[verifier::external_body]
pub fn parse_ipv4(buf: &[u8]) -> (r: Option<Ipv4Fields>)
    ensures
        r == ipv4_decoded(buf@),
        r matches Some(h) ==> 20 <= h.header_len <= buf@.len(),
{
    match etherparse::Ipv4HeaderSlice::from_slice(buf) {
        Ok(h) => Some(Ipv4Fields {
            source: u32::from_be_bytes(h.source()),
            destination: u32::from_be_bytes(h.destination()),
            protocol: h.protocol().0,
            header_len: h.slice().len(),
        }),
        Err(_) => None,
    }
}

/// Relies on `etherparse::TcpHeaderSlice::from_slice` and its accessors for
/// the ports, sequence and acknowledgment numbers, window size, flags and
/// `slice`: parsing either fails or yields the header fields, with a header
/// length of at least 20 bytes and no longer than the input.
#[verifier::external_body]
pub fn parse_tcp(buf: &[u8]) -> (r: Option<TcpFields>)
    ensures
        r == tcp_decoded(buf@),
        r matches Some(h) ==> 20 <= h.header_len <= buf@.len(),
{
    match etherparse::TcpHeaderSlice::from_slice(buf) {
        Ok(h) => Some(TcpFields {
            source_port: h.source_port(),
            destination_port: h.destination_port(),
            sequence_number: h.sequence_number(),
            acknowledgment_number: h.acknowledgment_number(),
            window_size: h.window_size(),
            syn: h.syn(),
            ack: h.ack(),
            fin: h.fin(),
            rst: h.rst(),
            header_len: h.slice().len(),
        }),
        Err(_) => None,
    }
}

/// Relies on `etherparse::Ipv4Header::new`, `etherparse::TcpHeader::new`,
/// `TcpHeader::calc_checksum_ipv4`, and the two headers' `write` methods:
/// serializes a 20-byte IPv4 header (time-to-live 64, protocol TCP, header
/// checksum computed on write), then a 20-byte TCP header carrying the
/// segment's fields and the TCP checksum over the IPv4 pseudo-header, then
/// the payload. `ip_payload_len` must be the TCP header plus payload
/// length, and the payload must fit the frame budget, so that neither
/// constructor nor the checksum can fail.
#[verifier::external_body]
fn encode_frame(s: &Segment, ip_payload_len: u16) -> (r: Vec<u8>)
    requires
        s.payload@.len() <= MAX_PAYLOAD,
        ip_payload_len == 20 + s.payload@.len(),
    ensures
        r@ == frame_of(s@),
        r@.len() == 40 + s.payload@.len(),
{
    let ip = etherparse::Ipv4Header::new(ip_payload_len, 64, etherparse::IpNumber::TCP,
        s.source.to_be_bytes(), s.destination.to_be_bytes()).unwrap();
    let mut tcp = etherparse::TcpHeader::new(s.source_port, s.destination_port,
        s.sequence_number, s.window_size);
    tcp.acknowledgment_number = s.acknowledgment_number;
    tcp.syn = s.syn; tcp.ack = s.ack; tcp.fin = s.fin; tcp.rst = s.rst;
    tcp.checksum = tcp.calc_checksum_ipv4(&ip, &s.payload).unwrap();
    let mut buf: Vec<u8> = Vec::new();
    ip.write(&mut buf).unwrap();
    tcp.write(&mut buf).unwrap();
    buf.extend_from_slice(&s.payload);
    buf
}

impl Segment {
    /// Serialize this segment into one IPv4/TCP frame, ready for the device.
    pub fn to_bytes(&self) -> (r: Vec<u8>)
        requires
            self.payload@.len() <= MAX_PAYLOAD,
        ensures
            r@ == frame_of(self@),
            r@.len() == 40 + self.payload@.len(),
    {
        let n: u16 = 20 + (self.payload.len() as u16);
        encode_frame(self, n)
    }
}

} // verus!
