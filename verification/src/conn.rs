//! The per-connection TCP state machine: connection creation from a SYN,
//! segment synthesis, and the per-segment transition function.
//!
//! Every transition is stated first as a specification function over the
//! connection's mathematical view; the executable methods are proved to
//! implement those functions exactly.

use vstd::prelude::*;

use crate::seqspace::{is_between_wrapped, is_between_wrapped_spec, segment_valid, segment_valid_spec};
use crate::wire::{Ipv4Fields, Quad, Segment, SegmentView, TcpFields, MAX_PAYLOAD};

verus! {

/// Fixed initial send sequence number. Deterministic by design for a closed
/// test environment; a production stack would randomize it.
pub const INITIAL_SEQ: u32 = 0;

/// The receive window this side advertises on every segment it sends.
pub const LOCAL_WINDOW: u16 = 1024;

/// The implemented subset of connection states. `Closed` and `Listen` are
/// represented implicitly: no table entry, and a bound pending queue.
#[derive(Clone, Copy, PartialEq, Eq, Structural, Debug)]
pub enum State {
    SynRcvd,
    Estab,
    FinWait1,
    FinWait2,
    TimeWait,
}

/// Send sequence space: `una <= nxt` in wrapping order; `nxt` advances only
/// by the sequence-consuming length of transmitted segments.
#[derive(Clone, Copy, PartialEq, Eq, Structural, Debug)]
pub struct SendSequenceSpace {
    /// oldest unacknowledged sequence number
    pub una: u32,
    /// next sequence number this side will send
    pub nxt: u32,
    /// window carried on outgoing segments
    pub wnd: u16,
    /// urgent-pointer flag
    pub up: bool,
    /// segment sequence number of the last window update (tracked, unused)
    pub wl1: usize,
    /// segment acknowledgment number of the last window update (tracked, unused)
    pub wl2: usize,
    /// initial send sequence number
    pub iss: u32,
}

/// Receive sequence space: `nxt` advances only when a segment passes the
/// acceptability test, by exactly that segment's sequence-consuming length.
#[derive(Clone, Copy, PartialEq, Eq, Structural, Debug)]
pub struct RecvSequenceSpace {
    /// next expected peer sequence number
    pub nxt: u32,
    /// window this side advertises
    pub wnd: u16,
    /// urgent-pointer flag
    pub up: bool,
    /// initial sequence number observed from the peer
    pub irs: u32,
}

/// One live connection: current state, both sequence spaces, the identity
/// the dispatcher keys it by, and the two application-facing byte queues.
pub struct Connection {
    pub state: State,
    pub send: SendSequenceSpace,
    pub recv: RecvSequenceSpace,
    pub quad: Quad,
    /// bytes delivered to the application, front first
    pub incoming: Vec<u8>,
    /// bytes submitted by the application, awaiting transmission
    pub unacked: Vec<u8>,
}

/// Mathematical view of a `Connection`.
#[verifier::ext_equal]
pub struct ConnectionView {
    pub state: State,
    pub send: SendSequenceSpace,
    pub recv: RecvSequenceSpace,
    pub quad: Quad,
    pub incoming: Seq<u8>,
    pub unacked: Seq<u8>,
}

impl View for Connection {
    type V = ConnectionView;

    open spec fn view(&self) -> ConnectionView {
        ConnectionView {
            state: self.state,
            send: self.send,
            recv: self.recv,
            quad: self.quad,
            incoming: self.incoming@,
            unacked: self.unacked@,
        }
    }
}

/// Sequence-consuming length of a segment: payload bytes, plus one for SYN
/// and one for FIN.
pub open spec fn seg_len_of(tcph: TcpFields, data_len: nat) -> int {
    data_len + (if tcph.syn { 1int } else { 0int }) + (if tcph.fin { 1int } else { 0int })
}

/// The connection identity carried by a decoded segment.
pub open spec fn quad_of(iph: Ipv4Fields, tcph: TcpFields) -> Quad {
    Quad {
        src_addr: iph.source,
        src_port: tcph.source_port,
        dst_addr: iph.destination,
        dst_port: tcph.destination_port,
    }
}

/// A reply segment stamped from the connection's current state: addressed
/// back to the peer, sequence number `send.nxt`, acknowledging `recv.nxt`,
/// always carrying ACK, with the given one-shot SYN/FIN flags and payload.
pub open spec fn stamped_segment(c: ConnectionView, syn: bool, fin: bool, payload: Seq<u8>) -> SegmentView {
    SegmentView {
        source: c.quad.dst_addr,
        destination: c.quad.src_addr,
        source_port: c.quad.dst_port,
        destination_port: c.quad.src_port,
        sequence_number: c.send.nxt,
        acknowledgment_number: c.recv.nxt,
        window_size: c.send.wnd,
        syn,
        ack: true,
        fin,
        rst: false,
        payload,
    }
}

/// A reset segment: sequence number taken from the offending segment's
/// acknowledgment number, no ACK, empty window and payload.
pub open spec fn rst_segment(c: ConnectionView, seqn: u32) -> SegmentView {
    SegmentView {
        source: c.quad.dst_addr,
        destination: c.quad.src_addr,
        source_port: c.quad.dst_port,
        destination_port: c.quad.src_port,
        sequence_number: seqn,
        acknowledgment_number: 0,
        window_size: 0,
        syn: false,
        ack: false,
        fin: false,
        rst: true,
        payload: Seq::empty(),
    }
}

/// Segment synthesis: truncate the payload to the frame budget, stamp the
/// header from the current state, and advance `send.nxt` by the number of
/// sequence-consuming units actually sent (payload, plus one per SYN/FIN).
pub open spec fn write_result(c: ConnectionView, syn: bool, fin: bool, payload: Seq<u8>) -> (ConnectionView, SegmentView) {
    let sent = if payload.len() > MAX_PAYLOAD { MAX_PAYLOAD as int } else { payload.len() as int };
    let seg = stamped_segment(c, syn, fin, payload.take(sent));
    let advance = (sent + (if syn { 1int } else { 0int }) + (if fin { 1int } else { 0int })) as u32;
    let c2 = ConnectionView {
        send: SendSequenceSpace { nxt: c.send.nxt.wrapping_add(advance), ..c.send },
        ..c
    };
    (c2, seg)
}

/// Connection creation from a SYN: record the peer's sequence space, choose
/// the fixed initial send sequence number, and synthesize one SYN/ACK.
/// Anything that is not a SYN is refused without side effect.
pub open spec fn accept_spec(iph: Ipv4Fields, tcph: TcpFields) -> Option<(ConnectionView, SegmentView)> {
    if !tcph.syn {
        None
    } else {
        let c = ConnectionView {
            state: State::SynRcvd,
            send: SendSequenceSpace {
                iss: INITIAL_SEQ,
                una: INITIAL_SEQ,
                nxt: INITIAL_SEQ,
                wnd: LOCAL_WINDOW,
                up: false,
                wl1: 0,
                wl2: 0,
            },
            recv: RecvSequenceSpace {
                irs: tcph.sequence_number,
                nxt: tcph.sequence_number.wrapping_add(1),
                wnd: tcph.window_size,
                up: false,
            },
            quad: quad_of(iph, tcph),
            incoming: Seq::empty(),
            unacked: Seq::empty(),
        };
        Some(write_result(c, true, false, Seq::empty()))
    }
}

/// Outcome of one transition: the connection afterwards, the segments it
/// emitted in order, and whether it must be torn down (removed from the
/// table after a reset).
#[verifier::ext_equal]
pub struct StepResult {
    pub conn: ConnectionView,
    pub segs: Seq<SegmentView>,
    pub closed: bool,
}

/// The per-segment transition function.
///
/// An unacceptable segment changes nothing and is answered with a bare ACK.
/// An acceptable one advances `recv.nxt` by its sequence-consuming length;
/// without an ACK flag nothing further happens. A handshake ACK within the
/// widened window `(una - 1, nxt + 1)` establishes the connection and falls
/// through to the established steps; one outside it is answered with a
/// reset and tears the connection down.
pub open spec fn on_packet_spec(c: ConnectionView, tcph: TcpFields, data_len: nat) -> StepResult {
    let slen = seg_len_of(tcph, data_len) as u32;
    let seqn = tcph.sequence_number;
    if !segment_valid_spec(c.recv.nxt, c.recv.wnd, seqn, slen) {
        StepResult { conn: c, segs: seq![stamped_segment(c, false, false, Seq::empty())], closed: false }
    } else {
        let c1 = ConnectionView {
            recv: RecvSequenceSpace { nxt: seqn.wrapping_add(slen), ..c.recv },
            ..c
        };
        if !tcph.ack {
            StepResult { conn: c1, segs: seq![], closed: false }
        } else {
            let ackn = tcph.acknowledgment_number;
            if c1.state is SynRcvd {
                if is_between_wrapped_spec(c1.send.una.wrapping_sub(1), ackn, c1.send.nxt.wrapping_add(1)) {
                    established_step(ConnectionView { state: State::Estab, ..c1 }, tcph)
                } else {
                    StepResult { conn: c1, segs: seq![rst_segment(c1, ackn)], closed: true }
                }
            } else {
                established_step(c1, tcph)
            }
        }
    }
}

/// Steady-state ACK processing. In `Estab` or `FinWait1`, an acknowledgment
/// outside `(una, nxt + 1)` drops the segment; a valid one advances `una`,
/// and from `Estab` the connection begins its close: it emits a FIN and
/// moves through `FinWait1` to `FinWait2` (any valid ACK in `FinWait1`
/// moves to `FinWait2` unconditionally). Other states pass through to FIN
/// handling.
pub open spec fn established_step(c: ConnectionView, tcph: TcpFields) -> StepResult {
    let ackn = tcph.acknowledgment_number;
    if c.state is Estab || c.state is FinWait1 {
        if !is_between_wrapped_spec(c.send.una, ackn, c.send.nxt.wrapping_add(1)) {
            StepResult { conn: c, segs: seq![], closed: false }
        } else {
            let c2 = ConnectionView {
                send: SendSequenceSpace { una: ackn, ..c.send },
                ..c
            };
            if c2.state is Estab {
                let (c3, fin_seg) = write_result(c2, false, true, Seq::empty());
                fin_step(ConnectionView { state: State::FinWait2, ..c3 }, tcph, seq![fin_seg])
            } else {
                fin_step(ConnectionView { state: State::FinWait2, ..c2 }, tcph, seq![])
            }
        }
    } else {
        fin_step(c, tcph, seq![])
    }
}

/// FIN handling: in `FinWait2` a peer FIN is answered with a final ACK and
/// the connection rests in `TimeWait`; in any other state it is a protocol
/// violation answered with a reset and teardown.
pub open spec fn fin_step(c: ConnectionView, tcph: TcpFields, segs: Seq<SegmentView>) -> StepResult {
    if tcph.fin {
        if c.state is FinWait2 {
            StepResult {
                conn: ConnectionView { state: State::TimeWait, ..c },
                segs: segs.push(stamped_segment(c, false, false, Seq::empty())),
                closed: false,
            }
        } else {
            StepResult {
                conn: c,
                segs: segs.push(rst_segment(c, tcph.acknowledgment_number)),
                closed: true,
            }
        }
    } else {
        StepResult { conn: c, segs, closed: false }
    }
}

/// Every segment the transition function emits carries an empty payload:
/// this subset never places data on the wire.
pub proof fn lemma_on_packet_segments_empty(c: ConnectionView, tcph: TcpFields, data_len: nat)
    ensures
        forall|i: int| 0 <= i < on_packet_spec(c, tcph, data_len).segs.len()
            ==> #[trigger] on_packet_spec(c, tcph, data_len).segs[i].payload.len() == 0,
{
}

/// The segment `accept` emits carries an empty payload.
pub proof fn lemma_accept_segment_empty(iph: Ipv4Fields, tcph: TcpFields)
    ensures
        accept_spec(iph, tcph) matches Some(cs) ==> cs.1.payload.len() == 0,
{
}

/// The views of a sequence of segments.
pub open spec fn seg_views(s: Seq<Segment>) -> Seq<SegmentView> {
    s.map_values(|x: Segment| x@)
}

/// What `Connection::on_packet` hands back to the dispatcher.
pub struct PacketActions {
    pub segments: Vec<Segment>,
    pub closed: bool,
}

impl Connection {
    /// Synthesize and account for one outgoing segment, as `write_result`
    /// says: the payload is truncated to the frame budget and `send.nxt`
    /// advances by what was actually sent.
    pub fn write(&mut self, syn: bool, fin: bool, payload: &[u8]) -> (s: Segment)
        ensures
            (final(self)@, s@) == write_result(old(self)@, syn, fin, payload@),
    {
        let sent: usize = if payload.len() > MAX_PAYLOAD { MAX_PAYLOAD } else { payload.len() };
        let mut data: Vec<u8> = Vec::new();
        let mut i: usize = 0;
        while i < sent
            invariant
                i <= sent,
                sent <= payload@.len(),
                data@ == payload@.take(i as int),
            decreases sent - i,
        {
            data.push(payload[i]);
            proof {
                assert(payload@.take(i + 1) =~= payload@.take(i as int).push(payload@[i as int]));
            }
            i = i + 1;
        }
        let seg = Segment {
            source: self.quad.dst_addr,
            destination: self.quad.src_addr,
            source_port: self.quad.dst_port,
            destination_port: self.quad.src_port,
            sequence_number: self.send.nxt,
            acknowledgment_number: self.recv.nxt,
            window_size: self.send.wnd,
            syn,
            ack: true,
            fin,
            rst: false,
            payload: data,
        };
        let mut advance: u32 = sent as u32;
        if syn {
            advance = advance + 1;
        }
        if fin {
            advance = advance + 1;
        }
        self.send.nxt = self.send.nxt.wrapping_add(advance);
        seg
    }

    /// A reset segment aimed at the peer, carrying the offending
    /// acknowledgment number as its sequence number.
    fn make_rst(&self, seqn: u32) -> (s: Segment)
        ensures
            s@ == rst_segment(self@, seqn),
    {
        Segment {
            source: self.quad.dst_addr,
            destination: self.quad.src_addr,
            source_port: self.quad.dst_port,
            destination_port: self.quad.src_port,
            sequence_number: seqn,
            acknowledgment_number: 0,
            window_size: 0,
            syn: false,
            ack: false,
            fin: false,
            rst: true,
            payload: Vec::new(),
        }
    }

    /// Create a connection from a SYN addressed to a listened port, per
    /// `accept_spec`: this is the only path that creates a connection, and
    /// it emits exactly one SYN/ACK.
    pub fn accept(iph: &Ipv4Fields, tcph: &TcpFields, _data: &[u8]) -> (r: Option<(Connection, Segment)>)
        ensures
            r is Some <==> tcph.syn,
            r matches Some(p) ==> accept_spec(*iph, *tcph) == Some((p.0@, p.1@)),
    {
        if !tcph.syn {
            return None;
        }
        let mut c = Connection {
            state: State::SynRcvd,
            send: SendSequenceSpace {
                iss: INITIAL_SEQ,
                una: INITIAL_SEQ,
                nxt: INITIAL_SEQ,
                wnd: LOCAL_WINDOW,
                up: false,
                wl1: 0,
                wl2: 0,
            },
            recv: RecvSequenceSpace {
                irs: tcph.sequence_number,
                nxt: tcph.sequence_number.wrapping_add(1),
                wnd: tcph.window_size,
                up: false,
            },
            quad: Quad {
                src_addr: iph.source,
                src_port: tcph.source_port,
                dst_addr: iph.destination,
                dst_port: tcph.destination_port,
            },
            incoming: Vec::new(),
            unacked: Vec::new(),
        };
        let seg = c.write(true, false, &[]);
        Some((c, seg))
    }

    /// Advance this connection by one inbound segment, per `on_packet_spec`.
    pub fn on_packet(&mut self, tcph: &TcpFields, data: &[u8]) -> (r: PacketActions)
        requires
            data@.len() + 2 <= u32::MAX,
        ensures
            ({
                let sr = on_packet_spec(old(self)@, *tcph, data@.len());
                &&& final(self)@ == sr.conn
                &&& seg_views(r.segments@) == sr.segs
                &&& r.closed == sr.closed
            }),
    {
        let ghost sr = on_packet_spec(old(self)@, *tcph, data@.len());
        let mut slen: u32 = data.len() as u32;
        if tcph.fin {
            slen = slen + 1;
        }
        if tcph.syn {
            slen = slen + 1;
        }
        let seqn = tcph.sequence_number;
        let mut segs: Vec<Segment> = Vec::new();

        if !segment_valid(self.recv.nxt, self.recv.wnd, seqn, slen) {
            let seg = self.write(false, false, &[]);
            segs.push(seg);
            proof {
                assert(seg_views(segs@) =~~= sr.segs);
            }
            return PacketActions { segments: segs, closed: false };
        }

        self.recv.nxt = seqn.wrapping_add(slen);

        if !tcph.ack {
            proof {
                assert(seg_views(segs@) =~~= sr.segs);
            }
            return PacketActions { segments: segs, closed: false };
        }
        let ackn = tcph.acknowledgment_number;

        if self.state == State::SynRcvd {
            if is_between_wrapped(self.send.una.wrapping_sub(1), ackn, self.send.nxt.wrapping_add(1)) {
                self.state = State::Estab;
            } else {
                let seg = self.make_rst(ackn);
                segs.push(seg);
                proof {
                    assert(seg_views(segs@) =~~= sr.segs);
                }
                return PacketActions { segments: segs, closed: true };
            }
        }

        if self.state == State::Estab || self.state == State::FinWait1 {
            if !is_between_wrapped(self.send.una, ackn, self.send.nxt.wrapping_add(1)) {
                proof {
                    assert(seg_views(segs@) =~~= sr.segs);
                }
                return PacketActions { segments: segs, closed: false };
            }
            self.send.una = ackn;
            if self.state == State::Estab {
                let seg = self.write(false, true, &[]);
                segs.push(seg);
                self.state = State::FinWait1;
            }
        }

        if self.state == State::FinWait1 {
            self.state = State::FinWait2;
        }

        if tcph.fin {
            if self.state == State::FinWait2 {
                let seg = self.write(false, false, &[]);
                segs.push(seg);
                self.state = State::TimeWait;
                proof {
                    assert(seg_views(segs@) =~~= sr.segs);
                }
                return PacketActions { segments: segs, closed: false };
            } else {
                let seg = self.make_rst(ackn);
                segs.push(seg);
                proof {
                    assert(seg_views(segs@) =~~= sr.segs);
                }
                return PacketActions { segments: segs, closed: true };
            }
        }

        proof {
            assert(seg_views(segs@) =~~= sr.segs);
        }
        PacketActions { segments: segs, closed: false }
    }
}

/// Wraparound-aware well-formedness of the send space, `una <= nxt`: the
/// span of unacknowledged sequence numbers, `nxt - una` in wrapping
/// arithmetic, stays below half the sequence space.
pub open spec fn send_space_wf(s: SendSequenceSpace) -> bool {
    s.nxt.wrapping_sub(s.una) < 0x8000_0000
}

/// `accept` establishes the send-space invariant: only the SYN has been
/// sent and nothing is acknowledged yet.
pub proof fn lemma_accept_send_space_wf(iph: Ipv4Fields, tcph: TcpFields)
    ensures
        accept_spec(iph, tcph) matches Some(cs) ==> send_space_wf(cs.0.send),
{
}

/// `on_packet` preserves the send-space invariant: `una` advances only to
/// an acknowledgment inside `(una, nxt + 1)`, and `nxt` advances only by
/// the one unit a FIN consumes.
pub proof fn lemma_on_packet_send_space_wf(c: ConnectionView, tcph: TcpFields, data_len: nat)
    requires
        send_space_wf(c.send),
    ensures
        send_space_wf(on_packet_spec(c, tcph, data_len).conn.send),
{
}

/// Handshake: accepting a SYN whose sequence number is `S` yields a
/// connection in `SynRcvd` whose `recv.nxt` is `S + 1`, together with
/// exactly one emitted segment: a SYN/ACK acknowledging `S + 1`.
pub proof fn lemma_accept_handshake(iph: Ipv4Fields, tcph: TcpFields)
    requires
        tcph.syn,
    ensures
        accept_spec(iph, tcph) matches Some(cs) && ({
            let (c, seg) = cs;
            &&& c.state is SynRcvd
            &&& c.recv.irs == tcph.sequence_number
            &&& c.recv.nxt == tcph.sequence_number.wrapping_add(1)
            &&& c.recv.wnd == tcph.window_size
            &&& c.send.iss == INITIAL_SEQ
            &&& seg.syn && seg.ack && !seg.fin && !seg.rst
            &&& seg.sequence_number == INITIAL_SEQ
            &&& seg.acknowledgment_number == tcph.sequence_number.wrapping_add(1)
            &&& seg.payload.len() == 0
        }),
{
}

/// Full establish-then-close round trip. After the SYN is accepted (one
/// SYN/ACK emitted), the peer's handshake ACK establishes the connection,
/// which then begins its close within the same step: it passes through
/// `Estab` and `FinWait1`, emits exactly one FIN, and rests in `FinWait2`.
/// The peer's FIN then draws exactly one final ACK and leaves the
/// connection in `TimeWait`. One segment is thus emitted at each of the
/// three connection-driven steps.
pub proof fn lemma_establish_close_round_trip(iph: Ipv4Fields, syn_h: TcpFields, ack_h: TcpFields, fin_h: TcpFields)
    requires
        syn_h.syn,
        syn_h.window_size >= 1,
        // the peer's handshake ACK: a bare ACK of the SYN/ACK
        ack_h.ack && !ack_h.syn && !ack_h.fin,
        ack_h.sequence_number == syn_h.sequence_number.wrapping_add(1),
        ack_h.acknowledgment_number == INITIAL_SEQ.wrapping_add(1),
        // the peer's FIN, acknowledging this side's FIN
        fin_h.ack && fin_h.fin && !fin_h.syn,
        fin_h.sequence_number == syn_h.sequence_number.wrapping_add(1),
        fin_h.acknowledgment_number == INITIAL_SEQ.wrapping_add(2),
    ensures
        accept_spec(iph, syn_h) is Some,
        ({
            let (c1, syn_ack) = accept_spec(iph, syn_h).unwrap();
            let r2 = on_packet_spec(c1, ack_h, 0);
            let r3 = on_packet_spec(r2.conn, fin_h, 0);
            &&& syn_ack.syn && syn_ack.ack
            &&& r2.conn.state is FinWait2
            &&& r2.segs.len() == 1
            &&& r2.segs[0].fin && r2.segs[0].ack && !r2.segs[0].syn && !r2.segs[0].rst
            &&& !r2.closed
            &&& r3.conn.state is TimeWait
            &&& r3.segs.len() == 1
            &&& !r3.segs[0].fin && r3.segs[0].ack && !r3.segs[0].syn && !r3.segs[0].rst
            &&& r3.segs[0].acknowledgment_number == syn_h.sequence_number.wrapping_add(2)
            &&& !r3.closed
        }),
{
    let srv = syn_h.sequence_number;
    let (c1, syn_ack) = accept_spec(iph, syn_h).unwrap();
    assert(c1.send.una == 0 && c1.send.nxt == 1 && c1.send.iss == 0);
    assert(c1.recv.nxt == srv.wrapping_add(1));
    assert(c1.recv.wnd == syn_h.window_size);

    // the handshake ACK is acceptable: an empty segment inside the window
    let wend = c1.recv.nxt.wrapping_add(c1.recv.wnd as u32);
    assert(segment_valid_spec(c1.recv.nxt, c1.recv.wnd, ack_h.sequence_number, 0)) by {
        assert(c1.recv.nxt.wrapping_sub(1).wrapping_sub(c1.recv.nxt.wrapping_sub(1)) == 0);
        assert(wend.wrapping_sub(c1.recv.nxt.wrapping_sub(1)) == c1.recv.wnd + 1);
        assert(c1.recv.nxt.wrapping_sub(c1.recv.nxt.wrapping_sub(1)) == 1);
        assert(c1.recv.nxt != c1.recv.nxt.wrapping_sub(1));
    }
    // it acknowledges the SYN: inside the widened handshake window
    assert(is_between_wrapped_spec(c1.send.una.wrapping_sub(1), ack_h.acknowledgment_number, c1.send.nxt.wrapping_add(1))) by {
        assert(c1.send.una.wrapping_sub(1) == 0xffff_ffffu32);
        assert(c1.send.nxt.wrapping_add(1).wrapping_sub(0xffff_ffffu32) == 3);
        assert((1u32).wrapping_sub(0xffff_ffffu32) == 2);
    }
    // and it is inside the steady-state window too
    assert(is_between_wrapped_spec(c1.send.una, ack_h.acknowledgment_number, c1.send.nxt.wrapping_add(1))) by {
        assert(c1.send.nxt.wrapping_add(1).wrapping_sub(0) == 2);
    }
    let r2 = on_packet_spec(c1, ack_h, 0);
    assert(r2.conn.recv.nxt == srv.wrapping_add(1));
    assert(r2.conn.send.nxt == 2);

    // the peer FIN is acceptable: length one, inside the window
    assert(segment_valid_spec(r2.conn.recv.nxt, r2.conn.recv.wnd, fin_h.sequence_number, 1)) by {
        let start = r2.conn.recv.nxt.wrapping_sub(1);
        assert(r2.conn.recv.nxt.wrapping_add(r2.conn.recv.wnd as u32).wrapping_sub(start)
            == r2.conn.recv.wnd + 1);
        assert(r2.conn.recv.nxt.wrapping_sub(start) == 1);
        assert(r2.conn.recv.nxt != start);
    }
    let r3 = on_packet_spec(r2.conn, fin_h, 0);
    assert(r3.conn.state is TimeWait);
}

/// The closing step in isolation: in `FinWait2`, an acceptable peer FIN
/// (it must carry ACK — a segment without one is dropped before FIN
/// handling) consumes exactly one sequence number, draws exactly one final
/// ACK — acknowledging it, stamped with the unchanged `send.nxt` — and
/// rests the connection in `TimeWait`.
pub proof fn lemma_fin_in_fin_wait_2(c: ConnectionView, tcph: TcpFields)
    requires
        c.state is FinWait2,
        tcph.fin && tcph.ack && !tcph.syn,
        tcph.sequence_number == c.recv.nxt,
        c.recv.wnd > 0,
    ensures
        ({
            let sr = on_packet_spec(c, tcph, 0);
            &&& sr.conn.state is TimeWait
            &&& sr.conn.recv.nxt == c.recv.nxt.wrapping_add(1)
            &&& sr.conn.send == c.send
            &&& sr.segs.len() == 1
            &&& sr.segs[0].ack && !sr.segs[0].fin && !sr.segs[0].syn && !sr.segs[0].rst
            &&& sr.segs[0].acknowledgment_number == c.recv.nxt.wrapping_add(1)
            &&& sr.segs[0].sequence_number == sr.conn.send.nxt
            &&& !sr.closed
        }),
{
    assert(segment_valid_spec(c.recv.nxt, c.recv.wnd, tcph.sequence_number, 1)) by {
        let start = c.recv.nxt.wrapping_sub(1);
        assert(c.recv.nxt.wrapping_add(c.recv.wnd as u32).wrapping_sub(start) == c.recv.wnd + 1);
        assert(c.recv.nxt.wrapping_sub(start) == 1);
        assert(c.recv.nxt != start);
    }
}

/// Idempotence of acknowledgment processing: a duplicate bare ACK whose
/// acknowledgment number equals `send.una`, arriving in `Estab` or
/// `FinWait1`, never re-triggers the FIN-send transition: the state, the
/// whole send space and the queues are unchanged, nothing closes, and no
/// SYN or FIN is emitted (at most a bare ACK when the duplicate falls
/// outside the receive window).
pub proof fn lemma_duplicate_ack_idempotent(c: ConnectionView, tcph: TcpFields)
    requires
        c.state is Estab || c.state is FinWait1,
        tcph.ack && !tcph.syn && !tcph.fin,
        tcph.acknowledgment_number == c.send.una,
    ensures
        ({
            let sr = on_packet_spec(c, tcph, 0);
            &&& sr.conn.state == c.state
            &&& sr.conn.send == c.send
            &&& sr.conn.incoming == c.incoming
            &&& sr.conn.unacked == c.unacked
            &&& !sr.closed
            &&& forall|i: int| 0 <= i < sr.segs.len()
                ==> !(#[trigger] sr.segs[i]).fin && !sr.segs[i].syn
        }),
{
}

} // verus!
