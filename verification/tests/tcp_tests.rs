use tcp_rust::conn::{Connection, State, INITIAL_SEQ, LOCAL_WINDOW};
use tcp_rust::manager::{ConnectionManager, SENDQUEUE_SIZE};
use tcp_rust::seqspace::{is_between_wrapped, seq_in_window, segment_valid};
use tcp_rust::wire::{Ipv4Fields, Quad, TcpError, TcpFields};

const SRC_ADDR: [u8; 4] = [10, 0, 0, 2];
const DST_ADDR: [u8; 4] = [10, 0, 0, 1];

fn addr(a: [u8; 4]) -> u32 {
    u32::from_be_bytes(a)
}

fn iph() -> Ipv4Fields {
    Ipv4Fields {
        source: addr(SRC_ADDR),
        destination: addr(DST_ADDR),
        protocol: 6,
        header_len: 20,
    }
}

fn tcph(seq: u32, ack_no: u32, syn: bool, ack: bool, fin: bool, wnd: u16) -> TcpFields {
    TcpFields {
        source_port: 4000,
        destination_port: 7000,
        sequence_number: seq,
        acknowledgment_number: ack_no,
        window_size: wnd,
        syn,
        ack,
        fin,
        rst: false,
        header_len: 20,
    }
}

fn quad() -> Quad {
    Quad {
        src_addr: addr(SRC_ADDR),
        src_port: 4000,
        dst_addr: addr(DST_ADDR),
        dst_port: 7000,
    }
}

/// An encoded TCP/IPv4 frame built with etherparse, as a peer would send.
fn frame(seq: u32, ack_no: u32, syn: bool, ack: bool, fin: bool, wnd: u16, dport: u16) -> Vec<u8> {
    let ip = etherparse::Ipv4Header::new(20, 64, etherparse::IpNumber::TCP, SRC_ADDR, DST_ADDR)
        .unwrap();
    let mut tcp = etherparse::TcpHeader::new(4000, dport, seq, wnd);
    tcp.acknowledgment_number = ack_no;
    tcp.syn = syn;
    tcp.ack = ack;
    tcp.fin = fin;
    tcp.checksum = tcp.calc_checksum_ipv4(&ip, &[]).unwrap();
    let mut buf = Vec::new();
    ip.write(&mut buf).unwrap();
    tcp.write(&mut buf).unwrap();
    buf
}

#[test]
fn between_wrapped_rotation() {
    for start in [0u32, 1, 17, u32::MAX - 1, u32::MAX, 0x8000_0000] {
        assert!(!is_between_wrapped(start, start.wrapping_add(1), start));
        assert!(!is_between_wrapped(
            start,
            start.wrapping_add(1),
            start.wrapping_add(1)
        ));
        for k in [2u32, 3, 100, 0x7fff_ffff] {
            assert!(is_between_wrapped(
                start,
                start.wrapping_add(1),
                start.wrapping_add(k)
            ));
        }
    }
}

#[test]
fn between_wrapped_excludes_start() {
    assert!(!is_between_wrapped(5, 5, 10));
    assert!(is_between_wrapped(5, 6, 10));
    assert!(!is_between_wrapped(5, 10, 10));
    assert!(is_between_wrapped(u32::MAX, 0, 1));
}

#[test]
fn seq_in_window_includes_start() {
    assert!(seq_in_window(5, 10, 5));
    assert!(seq_in_window(5, 10, 9));
    assert!(!seq_in_window(5, 10, 10));
    assert!(!seq_in_window(5, 10, 4));
}

#[test]
fn segment_valid_table() {
    for n in [0u32, 7, 1000, u32::MAX - 10, u32::MAX] {
        assert!(segment_valid(n, 0, n, 0));
        assert!(!segment_valid(n, 0, n.wrapping_add(1), 0));
        assert!(segment_valid(n, 100, n.wrapping_add(50), 0));
        assert!(!segment_valid(n, 100, n.wrapping_add(150), 0));
        assert!(!segment_valid(n, 0, n, 5));
    }
}

#[test]
fn accept_requires_syn() {
    let h = tcph(900, 0, false, true, false, 512);
    assert!(Connection::accept(&iph(), &h, &[]).is_none());
}

#[test]
fn accept_handshake_syn_ack() {
    let s: u32 = 12345;
    let h = tcph(s, 0, true, false, false, 512);
    let (c, seg) = Connection::accept(&iph(), &h, &[]).unwrap();
    assert_eq!(c.state, State::SynRcvd);
    assert_eq!(c.recv.irs, s);
    assert_eq!(c.recv.nxt, s + 1);
    assert_eq!(c.recv.wnd, 512);
    assert_eq!(c.send.iss, INITIAL_SEQ);
    assert_eq!(c.send.una, INITIAL_SEQ);
    assert_eq!(c.send.nxt, INITIAL_SEQ.wrapping_add(1));
    assert!(seg.syn && seg.ack && !seg.fin && !seg.rst);
    assert_eq!(seg.sequence_number, INITIAL_SEQ);
    assert_eq!(seg.acknowledgment_number, s + 1);
    assert_eq!(seg.window_size, LOCAL_WINDOW);
    assert_eq!(seg.source, addr(DST_ADDR));
    assert_eq!(seg.destination, addr(SRC_ADDR));
    assert_eq!(seg.source_port, 7000);
    assert_eq!(seg.destination_port, 4000);
    assert!(seg.payload.is_empty());
}

#[test]
fn accept_wraps_sequence_number() {
    let h = tcph(u32::MAX, 0, true, false, false, 512);
    let (c, seg) = Connection::accept(&iph(), &h, &[]).unwrap();
    assert_eq!(c.recv.nxt, 0);
    assert_eq!(seg.acknowledgment_number, 0);
}

#[test]
fn establish_close_round_trip() {
    let s: u32 = 1000;
    let syn = tcph(s, 0, true, false, false, 512);
    let (mut c, syn_ack) = Connection::accept(&iph(), &syn, &[]).unwrap();
    assert!(syn_ack.syn && syn_ack.ack);

    // handshake ACK: the connection establishes and immediately begins its
    // close, emitting exactly one FIN and resting in FinWait2
    let ack = tcph(s + 1, 1, false, true, false, 512);
    let r = c.on_packet(&ack, &[]);
    assert_eq!(c.state, State::FinWait2);
    assert_eq!(c.send.una, 1);
    assert_eq!(c.send.nxt, 2);
    assert_eq!(r.segments.len(), 1);
    assert!(r.segments[0].fin && r.segments[0].ack && !r.segments[0].syn);
    assert_eq!(r.segments[0].sequence_number, 1);
    assert_eq!(r.segments[0].acknowledgment_number, s + 1);
    assert!(!r.closed);

    // peer FIN: exactly one final ACK, then TimeWait
    let fin = tcph(s + 1, 2, false, true, true, 512);
    let r = c.on_packet(&fin, &[]);
    assert_eq!(c.state, State::TimeWait);
    assert_eq!(c.recv.nxt, s + 2);
    assert_eq!(r.segments.len(), 1);
    assert!(!r.segments[0].fin && r.segments[0].ack && !r.segments[0].syn);
    assert_eq!(r.segments[0].acknowledgment_number, s + 2);
    assert!(!r.closed);
}

#[test]
fn duplicate_ack_does_not_resend_fin() {
    let s: u32 = 1000;
    let syn = tcph(s, 0, true, false, false, 512);
    let (mut c, _) = Connection::accept(&iph(), &syn, &[]).unwrap();
    let ack = tcph(s + 1, 1, false, true, false, 512);
    let _ = c.on_packet(&ack, &[]);
    assert_eq!(c.state, State::FinWait2);
    let send_before = (c.send.una, c.send.nxt);

    // the same ACK again: ackn == send.una is dropped, nothing re-sent
    let dup = tcph(s + 1, 1, false, true, false, 512);
    let r = c.on_packet(&dup, &[]);
    assert_eq!(c.state, State::FinWait2);
    assert_eq!((c.send.una, c.send.nxt), send_before);
    for seg in &r.segments {
        assert!(!seg.fin && !seg.syn);
    }
    assert!(!r.closed);
}

#[test]
fn duplicate_ack_in_estab_keeps_state() {
    // a connection held in Estab: a duplicate ACK must not trigger the
    // FIN-send transition
    let s: u32 = 50;
    let syn = tcph(s, 0, true, false, false, 512);
    let (mut c, _) = Connection::accept(&iph(), &syn, &[]).unwrap();
    c.state = State::Estab;
    let dup = tcph(s + 1, 0, false, true, false, 512);
    let r = c.on_packet(&dup, &[]);
    assert_eq!(c.state, State::Estab);
    assert_eq!(c.send.nxt, 1);
    for seg in &r.segments {
        assert!(!seg.fin && !seg.syn);
    }
    assert!(!r.closed);
}

#[test]
fn invalid_segment_draws_bare_ack() {
    let s: u32 = 600;
    let syn = tcph(s, 0, true, false, false, 512);
    let (mut c, _) = Connection::accept(&iph(), &syn, &[]).unwrap();
    // far outside the window of 512
    let stray = tcph(s + 40000, 1, false, true, false, 512);
    let r = c.on_packet(&stray, &[]);
    assert_eq!(c.state, State::SynRcvd);
    assert_eq!(c.recv.nxt, s + 1);
    assert_eq!(r.segments.len(), 1);
    let seg = &r.segments[0];
    assert!(seg.ack && !seg.syn && !seg.fin && !seg.rst);
    assert_eq!(seg.sequence_number, 1);
    assert_eq!(seg.acknowledgment_number, s + 1);
    assert!(!r.closed);
}

#[test]
fn bad_handshake_ack_draws_reset() {
    let s: u32 = 600;
    let syn = tcph(s, 0, true, false, false, 512);
    let (mut c, _) = Connection::accept(&iph(), &syn, &[]).unwrap();
    // acknowledges data never sent: outside (una - 1, nxt + 1)
    let bad = tcph(s + 1, 700, false, true, false, 512);
    let r = c.on_packet(&bad, &[]);
    assert_eq!(r.segments.len(), 1);
    assert!(r.segments[0].rst && !r.segments[0].ack);
    assert_eq!(r.segments[0].sequence_number, 700);
    assert!(r.closed);
}

#[test]
fn fin_outside_fin_wait_2_draws_reset() {
    let s: u32 = 600;
    let syn = tcph(s, 0, true, false, false, 512);
    let (mut c, _) = Connection::accept(&iph(), &syn, &[]).unwrap();
    c.state = State::TimeWait;
    let fin = tcph(s + 1, 1, false, true, true, 512);
    let r = c.on_packet(&fin, &[]);
    assert_eq!(r.segments.len(), 1);
    assert!(r.segments[0].rst);
    assert!(r.closed);
}

#[test]
fn bind_twice_addr_in_use() {
    let mut m = ConnectionManager::new();
    assert!(m.bind(7000).is_ok());
    assert_eq!(m.bind(7000), Err(TcpError::AddrInUse));
    assert!(m.bind(7001).is_ok());
}

#[test]
fn syn_to_bound_port_surfaces_in_accept() {
    let mut m = ConnectionManager::new();
    m.bind(7000).unwrap();
    let acts = m.on_frame(&frame(42, 0, true, false, false, 512, 7000));
    assert!(acts.notify);
    assert_eq!(acts.frames.len(), 1);
    assert!(m.has_connection(&quad()));
    assert_eq!(m.accept_pending(7000), Ok(Some(quad())));
    assert_eq!(m.accept_pending(7000), Ok(None));
}

#[test]
fn syn_to_unbound_port_is_dropped() {
    let mut m = ConnectionManager::new();
    m.bind(7000).unwrap();
    let acts = m.on_frame(&frame(42, 0, true, false, false, 512, 9999));
    assert!(!acts.notify);
    assert!(acts.frames.is_empty());
    let mut q = quad();
    q.dst_port = 9999;
    assert!(!m.has_connection(&q));
    assert_eq!(m.accept_pending(7000), Ok(None));
}

#[test]
fn syn_ack_reply_parses_back() {
    let mut m = ConnectionManager::new();
    m.bind(7000).unwrap();
    let acts = m.on_frame(&frame(42, 0, true, false, false, 512, 7000));
    let reply = &acts.frames[0];
    // decode the emitted frame with etherparse itself
    let ip = etherparse::Ipv4HeaderSlice::from_slice(reply).unwrap();
    assert_eq!(ip.source(), DST_ADDR);
    assert_eq!(ip.destination(), SRC_ADDR);
    assert_eq!(ip.protocol(), etherparse::IpNumber::TCP);
    let tcp = etherparse::TcpHeaderSlice::from_slice(&reply[ip.slice().len()..]).unwrap();
    assert!(tcp.syn() && tcp.ack() && !tcp.fin());
    assert_eq!(tcp.source_port(), 7000);
    assert_eq!(tcp.destination_port(), 4000);
    assert_eq!(tcp.sequence_number(), INITIAL_SEQ);
    assert_eq!(tcp.acknowledgment_number(), 43);
    assert_eq!(tcp.window_size(), LOCAL_WINDOW);
    // and the checksum etherparse computes matches the one in the frame
    let expected = tcp
        .to_header()
        .calc_checksum_ipv4(&ip.to_header(), &[])
        .unwrap();
    assert_eq!(tcp.checksum(), expected);
}

#[test]
fn malformed_frame_is_dropped() {
    let mut m = ConnectionManager::new();
    m.bind(7000).unwrap();
    let acts = m.on_frame(&[0u8; 7]);
    assert!(acts.frames.is_empty() && !acts.notify);
    // non-TCP protocol is dropped too
    let ip = etherparse::Ipv4Header::new(0, 64, etherparse::IpNumber::UDP, SRC_ADDR, DST_ADDR)
        .unwrap();
    let mut buf = Vec::new();
    ip.write(&mut buf).unwrap();
    let acts = m.on_frame(&buf);
    assert!(acts.frames.is_empty() && !acts.notify);
}

#[test]
fn full_round_trip_through_manager() {
    let mut m = ConnectionManager::new();
    m.bind(7000).unwrap();
    let s: u32 = 42;
    assert_eq!(m.on_frame(&frame(s, 0, true, false, false, 512, 7000)).frames.len(), 1);
    // handshake ACK: the connection answers with its FIN
    let acts = m.on_frame(&frame(s + 1, 1, false, true, false, 512, 7000));
    assert_eq!(acts.frames.len(), 1);
    // peer FIN: final ACK, connection rests in TimeWait (still in table)
    let acts = m.on_frame(&frame(s + 1, 2, false, true, true, 512, 7000));
    assert_eq!(acts.frames.len(), 1);
    assert!(m.has_connection(&quad()));
}

#[test]
fn write_returns_short_count_at_capacity() {
    let mut m = ConnectionManager::new();
    m.bind(7000).unwrap();
    m.on_frame(&frame(42, 0, true, false, false, 512, 7000));
    let q = quad();
    let big = vec![7u8; SENDQUEUE_SIZE + 600];
    // more bytes than the remaining capacity: a short count, not an error
    assert_eq!(m.stream_write(&q, &big), Ok(SENDQUEUE_SIZE));
    // queue full now: would-block
    assert_eq!(m.stream_write(&q, &[1, 2, 3]), Err(TcpError::WouldBlock));
    assert_eq!(m.stream_flush(&q), Err(TcpError::WouldBlock));
}

#[test]
fn write_within_capacity_takes_all() {
    let mut m = ConnectionManager::new();
    m.bind(7000).unwrap();
    m.on_frame(&frame(42, 0, true, false, false, 512, 7000));
    let q = quad();
    assert_eq!(m.stream_flush(&q), Ok(()));
    assert_eq!(m.stream_write(&q, &[9u8; 100]), Ok(100));
    assert_eq!(m.stream_write(&q, &[9u8; 100]), Ok(100));
    assert_eq!(m.stream_flush(&q), Err(TcpError::WouldBlock));
}

#[test]
fn read_empty_would_block_never_zero() {
    let mut m = ConnectionManager::new();
    m.bind(7000).unwrap();
    m.on_frame(&frame(42, 0, true, false, false, 512, 7000));
    let q = quad();
    assert_eq!(m.stream_read(&q, 64), Err(TcpError::WouldBlock));
}

#[test]
fn stream_calls_on_missing_connection_abort() {
    let mut m = ConnectionManager::new();
    let q = quad();
    assert_eq!(m.stream_read(&q, 16), Err(TcpError::ConnectionAborted));
    assert_eq!(m.stream_write(&q, &[1]), Err(TcpError::ConnectionAborted));
    assert_eq!(m.stream_flush(&q), Err(TcpError::ConnectionAborted));
    assert!(matches!(
        m.shutdown_stream(&q),
        Err(TcpError::ConnectionAborted)
    ));
}

#[test]
fn terminate_stops_accept() {
    let mut m = ConnectionManager::new();
    m.bind(7000).unwrap();
    assert!(!m.is_terminated());
    m.set_terminate();
    assert!(m.is_terminated());
    assert_eq!(m.accept_pending(7000), Err(TcpError::Terminated));
}

#[test]
fn shutdown_estab_emits_fin() {
    let mut m = ConnectionManager::new();
    m.bind(7000).unwrap();
    // SYN only: the connection stays in SynRcvd, shutdown does nothing
    m.on_frame(&frame(42, 0, true, false, false, 512, 7000));
    let q = quad();
    assert!(matches!(m.shutdown_stream(&q), Ok(None)));
    // an ACK whose number equals the ISS passes the widened handshake
    // window but not the steady-state one: the connection rests in Estab
    m.on_frame(&frame(43, 0, false, true, false, 512, 7000));
    let seg = m.shutdown_stream(&q).unwrap().unwrap();
    assert!(seg.fin && seg.ack && !seg.syn);
    assert_eq!(seg.sequence_number, 1);
    // a second shutdown finds FinWait1 and does nothing
    assert!(matches!(m.shutdown_stream(&q), Ok(None)));
}

#[test]
fn close_listener_clears_pending_connections() {
    let mut m = ConnectionManager::new();
    m.bind(7000).unwrap();
    m.on_frame(&frame(42, 0, true, false, false, 512, 7000));
    assert!(m.has_connection(&quad()));
    assert!(m.is_bound(7000));
    m.close_listener(7000);
    assert!(!m.is_bound(7000));
    assert!(!m.has_connection(&quad()));
    // the port can be bound again afterwards
    assert!(m.bind(7000).is_ok());
}

#[test]
fn accepted_quad_no_longer_pending_after_pop() {
    let mut m = ConnectionManager::new();
    m.bind(7000).unwrap();
    m.on_frame(&frame(42, 0, true, false, false, 512, 7000));
    assert_eq!(m.accept_pending(7000), Ok(Some(quad())));
    // popped exactly once: the connection stays, the queue entry is gone
    assert_eq!(m.accept_pending(7000), Ok(None));
    assert!(m.has_connection(&quad()));
    m.close_listener(7000);
    // the accepted connection was no longer pending, so it survives
    assert!(m.has_connection(&quad()));
}

#[test]
fn write_truncates_payload_to_frame_budget() {
    let s: u32 = 10;
    let syn = tcph(s, 0, true, false, false, 512);
    let (mut c, _) = Connection::accept(&iph(), &syn, &[]).unwrap();
    let payload = vec![5u8; 2000];
    let seg = c.write(false, false, &payload);
    // 1500-byte frames less two 20-byte headers leave 1460 payload bytes
    assert_eq!(seg.payload.len(), 1460);
    assert_eq!(seg.payload[0], 5);
    assert_eq!(seg.payload[1459], 5);
    assert_eq!(c.send.nxt, 1 + 1460);
}

#[test]
fn payload_consumes_sequence_space() {
    let s: u32 = 100;
    let syn = tcph(s, 0, true, false, false, 512);
    let (mut c, _) = Connection::accept(&iph(), &syn, &[]).unwrap();
    // an in-window segment without ACK: the receive window advances by the
    // payload length, nothing else happens
    let seg = tcph(s + 1, 0, false, false, false, 512);
    let r = c.on_packet(&seg, &[1, 2, 3, 4, 5]);
    assert!(r.segments.is_empty());
    assert!(!r.closed);
    assert_eq!(c.recv.nxt, s + 6);
    assert_eq!(c.state, State::SynRcvd);
}

#[test]
fn encoded_frame_is_two_bare_headers_long() {
    let s: u32 = 10;
    let syn = tcph(s, 0, true, false, false, 512);
    let (_, seg) = Connection::accept(&iph(), &syn, &[]).unwrap();
    assert_eq!(seg.to_bytes().len(), 40);
}

#[test]
fn accept_queue_is_first_in_first_out() {
    let mut m = ConnectionManager::new();
    m.bind(7000).unwrap();
    // two peers connect from different source ports
    let ip = etherparse::Ipv4Header::new(20, 64, etherparse::IpNumber::TCP, SRC_ADDR, DST_ADDR)
        .unwrap();
    for sport in [4000u16, 4001] {
        let mut tcp = etherparse::TcpHeader::new(sport, 7000, 5, 512);
        tcp.syn = true;
        tcp.checksum = tcp.calc_checksum_ipv4(&ip, &[]).unwrap();
        let mut buf = Vec::new();
        ip.write(&mut buf).unwrap();
        tcp.write(&mut buf).unwrap();
        assert!(m.on_frame(&buf).notify);
    }
    let first = m.accept_pending(7000).unwrap().unwrap();
    let second = m.accept_pending(7000).unwrap().unwrap();
    assert_eq!(first.src_port, 4000);
    assert_eq!(second.src_port, 4001);
    assert_eq!(m.accept_pending(7000), Ok(None));
}

#[test]
fn bad_handshake_ack_tears_connection_down() {
    let mut m = ConnectionManager::new();
    m.bind(7000).unwrap();
    let s: u32 = 42;
    m.on_frame(&frame(s, 0, true, false, false, 512, 7000));
    assert!(m.has_connection(&quad()));
    // an in-window segment acknowledging data never sent
    let acts = m.on_frame(&frame(s + 1, 700, false, true, false, 512, 7000));
    assert_eq!(acts.frames.len(), 1);
    assert!(!m.has_connection(&quad()));
    // the reply is a reset carrying the offending acknowledgment number
    let reply = &acts.frames[0];
    let ip = etherparse::Ipv4HeaderSlice::from_slice(reply).unwrap();
    let tcp = etherparse::TcpHeaderSlice::from_slice(&reply[ip.slice().len()..]).unwrap();
    assert!(tcp.rst() && !tcp.ack() && !tcp.syn());
    assert_eq!(tcp.sequence_number(), 700);
}
