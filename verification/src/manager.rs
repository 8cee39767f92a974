//! The connection manager: the table of live connections keyed by `Quad`,
//! the per-port pending-accept queues, and the dispatcher that routes one
//! decoded segment to the right connection or to a listener.
//!
//! Both tables are association lists with unique keys, viewed as maps.

use vstd::prelude::*;

use vstd::slice::slice_subrange;

use crate::codec::{frame_of, ipv4_decoded, parse_ipv4, parse_tcp, tcp_decoded};
use crate::wire::{Ipv4Fields, Quad, Segment, SegmentView, TcpError, TcpFields, IP_PROTO_TCP};
use crate::conn::{
    accept_spec, lemma_accept_segment_empty, lemma_on_packet_segments_empty, on_packet_spec,
    quad_of, seg_views, write_result, Connection, ConnectionView, State,
};

verus! {

/// The map an association list denotes: later entries shadow earlier ones,
/// though the manager keeps keys unique so no shadowing ever happens.
pub open spec fn assoc_map<K, V>(s: Seq<(K, V)>) -> Map<K, V>
    decreases s.len(),
{
    if s.len() == 0 {
        Map::empty()
    } else {
        assoc_map(s.drop_last()).insert(s.last().0, s.last().1)
    }
}

/// No two entries share a key.
pub open spec fn keys_unique<K, V>(s: Seq<(K, V)>) -> bool {
    forall|i: int, j: int| 0 <= i < j < s.len() ==> s[i].0 != s[j].0
}

/// A key is in the denoted map exactly when some entry carries it.
pub proof fn lemma_assoc_map_contains<K, V>(s: Seq<(K, V)>, k: K)
    ensures
        assoc_map(s).contains_key(k) <==> exists|i: int| 0 <= i < s.len() && s[i].0 == k,
    decreases s.len(),
{
    if s.len() > 0 {
        lemma_assoc_map_contains(s.drop_last(), k);
        if s.last().0 == k {
            assert(s[s.len() - 1].0 == k);
        } else {
            if assoc_map(s).contains_key(k) {
                let i = choose|i: int| 0 <= i < s.drop_last().len() && s.drop_last()[i].0 == k;
                assert(s[i].0 == k);
            }
            if exists|i: int| 0 <= i < s.len() && s[i].0 == k {
                let i = choose|i: int| 0 <= i < s.len() && s[i].0 == k;
                assert(s.drop_last()[i].0 == k);
            }
        }
    }
}

/// With unique keys, the denoted map sends each entry's key to its value.
pub proof fn lemma_assoc_map_index<K, V>(s: Seq<(K, V)>, i: int)
    requires
        keys_unique(s),
        0 <= i < s.len(),
    ensures
        assoc_map(s).contains_key(s[i].0),
        assoc_map(s)[s[i].0] == s[i].1,
    decreases s.len(),
{
    if i < s.len() - 1 {
        assert(keys_unique(s.drop_last()));
        lemma_assoc_map_index(s.drop_last(), i);
        assert(s.drop_last()[i] == s[i]);
    }
}

/// Appending a fresh entry denotes inserting it.
pub proof fn lemma_assoc_map_push<K, V>(s: Seq<(K, V)>, k: K, v: V)
    ensures
        assoc_map(s.push((k, v))) == assoc_map(s).insert(k, v),
{
    assert(s.push((k, v)).drop_last() =~= s);
    assert(s.push((k, v)).last() == (k, v));
}

/// Removing the entry at `i` denotes removing its key, and keeps the
/// remaining keys unique.
pub proof fn lemma_assoc_map_remove<K, V>(s: Seq<(K, V)>, i: int)
    requires
        keys_unique(s),
        0 <= i < s.len(),
    ensures
        assoc_map(s.remove(i)) =~= assoc_map(s).remove(s[i].0),
        keys_unique(s.remove(i)),
    decreases s.len(),
{
    assert(keys_unique(s.remove(i))) by {
        assert(forall|a: int, b: int| 0 <= a < b < s.remove(i).len() ==> s.remove(i)[a].0 != s.remove(i)[b].0) by {
            assert forall|a: int, b: int| 0 <= a < b < s.remove(i).len() implies s.remove(i)[a].0 != s.remove(i)[b].0 by {
                let a0 = if a < i { a } else { a + 1 };
                let b0 = if b < i { b } else { b + 1 };
                assert(s.remove(i)[a] == s[a0]);
                assert(s.remove(i)[b] == s[b0]);
            }
        }
    }
    if i == s.len() - 1 {
        assert(s.remove(i) =~= s.drop_last());
        lemma_assoc_map_contains(s.drop_last(), s[i].0);
        assert(forall|j: int| 0 <= j < s.drop_last().len() ==> s[j] == s.drop_last()[j]);
        assert(!assoc_map(s.drop_last()).contains_key(s[i].0));
    } else {
        assert(keys_unique(s.drop_last()));
        lemma_assoc_map_remove(s.drop_last(), i);
        assert(s.remove(i).drop_last() =~= s.drop_last().remove(i));
        assert(s.remove(i).last() == s.last());
        assert(s.drop_last()[i] == s[i]);
    }
}

/// The connection table after dropping every quad of a closed listener's
/// pending queue, front first.
pub open spec fn remove_each(m: Map<Quad, ConnectionView>, qs: Seq<Quad>) -> Map<Quad, ConnectionView>
    decreases qs.len(),
{
    if qs.len() == 0 {
        m
    } else {
        remove_each(m.remove(qs[0]), qs.skip(1))
    }
}

/// Bound on the outbound unacknowledged byte queue of each connection.
pub const SENDQUEUE_SIZE: usize = 1024;

/// The manager: the connection table, the per-port pending-accept queues
/// (a port key is present exactly when a listener is bound to it), and the
/// shutdown flag.
pub struct ConnectionManager {
    terminate: bool,
    connections: Vec<(Quad, Connection)>,
    pending: Vec<(u16, Vec<Quad>)>,
}

/// Mathematical view of the manager.
#[verifier::ext_equal]
pub struct ManagerView {
    pub terminate: bool,
    pub connections: Map<Quad, ConnectionView>,
    pub pending: Map<u16, Seq<Quad>>,
}

/// The connection table's entries with connections replaced by their views.
pub open spec fn conn_pairs(s: Seq<(Quad, Connection)>) -> Seq<(Quad, ConnectionView)> {
    s.map_values(|p: (Quad, Connection)| (p.0, p.1@))
}

/// The pending queues' entries with queues replaced by their views.
pub open spec fn pending_pairs(s: Seq<(u16, Vec<Quad>)>) -> Seq<(u16, Seq<Quad>)> {
    s.map_values(|p: (u16, Vec<Quad>)| (p.0, p.1@))
}

/// Entry-by-entry shape of `conn_pairs`: same length, same keys, viewed
/// values.
pub proof fn lemma_conn_pairs_shape(s: Seq<(Quad, Connection)>)
    ensures
        conn_pairs(s).len() == s.len(),
        forall|i: int| 0 <= i < s.len() ==> #[trigger] conn_pairs(s)[i] == (s[i].0, s[i].1@),
{
}

/// Entry-by-entry shape of `pending_pairs`.
pub proof fn lemma_pending_pairs_shape(s: Seq<(u16, Vec<Quad>)>)
    ensures
        pending_pairs(s).len() == s.len(),
        forall|i: int| 0 <= i < s.len() ==> #[trigger] pending_pairs(s)[i] == (s[i].0, s[i].1@),
{
}

/// Removing an entry commutes with taking views entry by entry.
pub proof fn lemma_conn_pairs_remove(s: Seq<(Quad, Connection)>, i: int)
    requires
        0 <= i < s.len(),
    ensures
        conn_pairs(s.remove(i)) =~= conn_pairs(s).remove(i),
{
    lemma_conn_pairs_shape(s);
    lemma_conn_pairs_shape(s.remove(i));
    assert forall|k: int| 0 <= k < s.remove(i).len()
        implies conn_pairs(s.remove(i))[k] == conn_pairs(s).remove(i)[k] by {
        let k0 = if k < i { k } else { k + 1 };
        assert(s.remove(i)[k] == s[k0]);
    }
}

/// Removing a pending entry commutes with taking views entry by entry.
pub proof fn lemma_pending_pairs_remove(s: Seq<(u16, Vec<Quad>)>, i: int)
    requires
        0 <= i < s.len(),
    ensures
        pending_pairs(s.remove(i)) =~= pending_pairs(s).remove(i),
{
    lemma_pending_pairs_shape(s);
    lemma_pending_pairs_shape(s.remove(i));
    assert forall|k: int| 0 <= k < s.remove(i).len()
        implies pending_pairs(s.remove(i))[k] == pending_pairs(s).remove(i)[k] by {
        let k0 = if k < i { k } else { k + 1 };
        assert(s.remove(i)[k] == s[k0]);
    }
}

impl View for ConnectionManager {
    type V = ManagerView;

    closed spec fn view(&self) -> ManagerView {
        ManagerView {
            terminate: self.terminate,
            connections: assoc_map(conn_pairs(self.connections@)),
            pending: assoc_map(pending_pairs(self.pending@)),
        }
    }
}

impl ConnectionManager {
    /// Well-formedness: both tables carry each key at most once.
    pub closed spec fn inv(&self) -> bool {
        keys_unique(conn_pairs(self.connections@)) && keys_unique(pending_pairs(self.pending@))
    }

    /// An empty manager: no connections, no bound ports, not terminated.
    pub fn new() -> (m: ConnectionManager)
        ensures
            m.inv(),
            m@ == (ManagerView {
                terminate: false,
                connections: Map::<Quad, ConnectionView>::empty(),
                pending: Map::<u16, Seq<Quad>>::empty(),
            }),
    {
        let m = ConnectionManager { terminate: false, connections: Vec::new(), pending: Vec::new() };
        proof {
            assert(conn_pairs(m.connections@) =~= Seq::<(Quad, ConnectionView)>::empty());
            assert(pending_pairs(m.pending@) =~= Seq::<(u16, Seq<Quad>)>::empty());
        }
        m
    }

    /// Index of the table entry for `q`, if any, tied to the map view.
    fn find_conn(&self, q: &Quad) -> (r: Option<usize>)
        requires
            self.inv(),
        ensures
            r matches Some(i) ==> i < self.connections@.len()
                && self.connections@[i as int].0 == *q
                && self@.connections.contains_key(*q)
                && self@.connections[*q] == self.connections@[i as int].1@,
            r is None ==> !self@.connections.contains_key(*q)
                && (forall|k: int| 0 <= k < self.connections@.len() ==> self.connections@[k].0 != *q),
    {
        let n = self.connections.len();
        let mut i: usize = 0;
        while i < n
            invariant
                self.inv(),
                i <= n,
                n == self.connections@.len(),
                forall|k: int| 0 <= k < i ==> self.connections@[k].0 != *q,
            decreases n - i,
        {
            if self.connections[i].0 == *q {
                proof {
                    lemma_conn_pairs_shape(self.connections@);
                    assert(conn_pairs(self.connections@)[i as int].0 == *q);
                    lemma_assoc_map_index(conn_pairs(self.connections@), i as int);
                }
                return Some(i);
            }
            i = i + 1;
        }
        proof {
            lemma_conn_pairs_shape(self.connections@);
            lemma_assoc_map_contains(conn_pairs(self.connections@), *q);
            assert forall|k: int| 0 <= k < conn_pairs(self.connections@).len()
                implies conn_pairs(self.connections@)[k].0 != *q by {
                assert(self.connections@[k].0 != *q);
            }
        }
        None
    }

    /// Index of the pending-queue entry for `port`, if any, tied to the
    /// map view.
    fn find_pending(&self, port: u16) -> (r: Option<usize>)
        requires
            self.inv(),
        ensures
            r matches Some(i) ==> i < self.pending@.len()
                && self.pending@[i as int].0 == port
                && self@.pending.contains_key(port)
                && self@.pending[port] == self.pending@[i as int].1@,
            r is None ==> !self@.pending.contains_key(port)
                && (forall|k: int| 0 <= k < self.pending@.len() ==> self.pending@[k].0 != port),
    {
        let n = self.pending.len();
        let mut i: usize = 0;
        while i < n
            invariant
                self.inv(),
                i <= n,
                n == self.pending@.len(),
                forall|k: int| 0 <= k < i ==> self.pending@[k].0 != port,
            decreases n - i,
        {
            if self.pending[i].0 == port {
                proof {
                    lemma_pending_pairs_shape(self.pending@);
                    assert(pending_pairs(self.pending@)[i as int].0 == port);
                    lemma_assoc_map_index(pending_pairs(self.pending@), i as int);
                }
                return Some(i);
            }
            i = i + 1;
        }
        proof {
            lemma_pending_pairs_shape(self.pending@);
            lemma_assoc_map_contains(pending_pairs(self.pending@), port);
            assert forall|k: int| 0 <= k < pending_pairs(self.pending@).len()
                implies pending_pairs(self.pending@)[k].0 != port by {
                assert(self.pending@[k].0 != port);
            }
        }
        None
    }

    /// Whether a listener is bound to `port`.
    pub fn is_bound(&self, port: u16) -> (r: bool)
        requires
            self.inv(),
        ensures
            r == self@.pending.contains_key(port),
    {
        match self.find_pending(port) {
            Some(_) => true,
            None => false,
        }
    }

    /// Whether the table holds a connection for `q`.
    pub fn has_connection(&self, q: &Quad) -> (r: bool)
        requires
            self.inv(),
        ensures
            r == self@.connections.contains_key(*q),
    {
        match self.find_conn(q) {
            Some(_) => true,
            None => false,
        }
    }

    /// Whether the manager has been told to shut down.
    pub fn is_terminated(&self) -> (r: bool)
        ensures
            r == self@.terminate,
    {
        self.terminate
    }

    /// Tell the manager to shut down: blocked accepts must give up.
    pub fn set_terminate(&mut self)
        requires
            old(self).inv(),
        ensures
            final(self).inv(),
            final(self)@ == (ManagerView { terminate: true, ..old(self)@ }),
    {
        self.terminate = true;
    }

    /// Bind a listener to `port`: refused with `AddrInUse` when a pending
    /// queue already exists for it, otherwise an empty queue is installed.
    pub fn bind(&mut self, port: u16) -> (r: Result<(), TcpError>)
        requires
            old(self).inv(),
        ensures
            final(self).inv(),
            old(self)@.pending.contains_key(port) ==> r == Err::<(), TcpError>(TcpError::AddrInUse)
                && final(self)@ == old(self)@,
            !old(self)@.pending.contains_key(port) ==> r == Ok::<(), TcpError>(())
                && final(self)@ == (ManagerView {
                    pending: old(self)@.pending.insert(port, Seq::empty()),
                    ..old(self)@
                }),
    {
        match self.find_pending(port) {
            Some(_) => Err(TcpError::AddrInUse),
            None => {
                let ghost old_raw = self.pending@;
                let ghost old_pairs = pending_pairs(self.pending@);
                self.pending.push((port, Vec::new()));
                proof {
                    assert(pending_pairs(self.pending@) =~= old_pairs.push((port, Seq::empty())));
                    lemma_assoc_map_push(old_pairs, port, Seq::<Quad>::empty());
                    lemma_pending_pairs_shape(old_raw);
                    assert forall|a: int, b: int|
                        0 <= a < b < old_pairs.push((port, Seq::<Quad>::empty())).len()
                        implies old_pairs.push((port, Seq::<Quad>::empty()))[a].0
                            != old_pairs.push((port, Seq::<Quad>::empty()))[b].0 by {
                        if b == old_pairs.len() {
                            assert(old_pairs[a].0 == old_raw[a].0);
                            assert(old_raw[a].0 != port);
                        }
                    }
                    assert(keys_unique(pending_pairs(self.pending@)));
                }
                Ok(())
            }
        }
    }

    /// After the entry at `i` (whose key is `q`) has been removed and
    /// pushed back with connection view `cv`, the table denotes inserting
    /// `cv` at `q` and its keys stay unique.
    proof fn lemma_conn_put_back(&self, raw0: Seq<(Quad, Connection)>, i: int, q: Quad, cv: ConnectionView)
        requires
            keys_unique(conn_pairs(raw0)),
            0 <= i < raw0.len(),
            conn_pairs(raw0)[i].0 == q,
            self.connections@.len() == raw0.len(),
            self.connections@.drop_last() == raw0.remove(i),
            self.connections@.last().0 == q,
            self.connections@.last().1@ == cv,
        ensures
            keys_unique(conn_pairs(self.connections@)),
            assoc_map(conn_pairs(self.connections@)) =~= assoc_map(conn_pairs(raw0)).insert(q, cv),
    {
        let pairs0 = conn_pairs(raw0);
        let pairs2 = conn_pairs(self.connections@);
        lemma_conn_pairs_shape(raw0);
        lemma_conn_pairs_remove(raw0, i);
        lemma_assoc_map_remove(pairs0, i);
        lemma_conn_pairs_shape(self.connections@);
        assert(pairs2.drop_last() =~= conn_pairs(raw0.remove(i)));
        assert(pairs2.last() == (q, cv));
        assert(assoc_map(pairs2) == assoc_map(conn_pairs(raw0.remove(i))).insert(q, cv));
        assert forall|a: int, b: int| 0 <= a < b < pairs2.len()
            implies pairs2[a].0 != pairs2[b].0 by {
            let a0 = if a < i { a } else { a + 1 };
            assert(self.connections@[a] == raw0.remove(i)[a]);
            assert(raw0.remove(i)[a] == raw0[a0]);
            assert(pairs2[a] == pairs0[a0]);
            if b < pairs2.len() - 1 {
                let b0 = if b < i { b } else { b + 1 };
                assert(self.connections@[b] == raw0.remove(i)[b]);
                assert(raw0.remove(i)[b] == raw0[b0]);
                assert(pairs2[b] == pairs0[b0]);
            }
        }
    }

    /// After the pending entry at `j` (whose key is `port`) has been
    /// removed and pushed back with queue view `pqv`, the pending table
    /// denotes inserting `pqv` at `port` and its keys stay unique.
    proof fn lemma_pending_put_back(&self, praw0: Seq<(u16, Vec<Quad>)>, j: int, port: u16, pqv: Seq<Quad>)
        requires
            keys_unique(pending_pairs(praw0)),
            0 <= j < praw0.len(),
            pending_pairs(praw0)[j].0 == port,
            self.pending@.len() == praw0.len(),
            self.pending@.drop_last() == praw0.remove(j),
            self.pending@.last().0 == port,
            self.pending@.last().1@ == pqv,
        ensures
            keys_unique(pending_pairs(self.pending@)),
            assoc_map(pending_pairs(self.pending@)) =~= assoc_map(pending_pairs(praw0)).insert(port, pqv),
    {
        let ppairs0 = pending_pairs(praw0);
        let ppairs2 = pending_pairs(self.pending@);
        lemma_pending_pairs_shape(praw0);
        lemma_pending_pairs_remove(praw0, j);
        lemma_assoc_map_remove(ppairs0, j);
        lemma_pending_pairs_shape(self.pending@);
        assert(ppairs2.drop_last() =~= pending_pairs(praw0.remove(j)));
        assert(ppairs2.last() == (port, pqv));
        assert(assoc_map(ppairs2) == assoc_map(pending_pairs(praw0.remove(j))).insert(port, pqv));
        assert forall|a: int, b: int| 0 <= a < b < ppairs2.len()
            implies ppairs2[a].0 != ppairs2[b].0 by {
            let a0 = if a < j { a } else { a + 1 };
            assert(self.pending@[a] == praw0.remove(j)[a]);
            assert(praw0.remove(j)[a] == praw0[a0]);
            assert(ppairs2[a] == ppairs0[a0]);
            if b < ppairs2.len() - 1 {
                let b0 = if b < j { b } else { b + 1 };
                assert(self.pending@[b] == praw0.remove(j)[b]);
                assert(praw0.remove(j)[b] == praw0[b0]);
                assert(ppairs2[b] == ppairs0[b0]);
            }
        }
    }

    /// Route one decoded segment, per `dispatch_spec`: to its connection if
    /// the quad is known (removing the connection when the transition tears
    /// it down), else through `accept` when a listener is bound to the
    /// destination port; a successful accept also queues the quad for
    /// `accept_pending` and asks the caller to wake blocked accepts.
    pub fn on_segment(&mut self, iph: &Ipv4Fields, tcph: &TcpFields, data: &[u8]) -> (r: SegmentActions)
        requires
            old(self).inv(),
            data@.len() + 2 <= u32::MAX,
        ensures
            final(self).inv(),
            ({
                let d = dispatch_spec(old(self)@, *iph, *tcph, data@.len());
                &&& final(self)@ == d.manager
                &&& seg_views(r.segments@) == d.segs
                &&& r.notify == d.notify
            }),
    {
        let ghost d = dispatch_spec(old(self)@, *iph, *tcph, data@.len());
        let q = Quad {
            src_addr: iph.source,
            src_port: tcph.source_port,
            dst_addr: iph.destination,
            dst_port: tcph.destination_port,
        };
        match self.find_conn(&q) {
            Some(i) => {
                let ghost raw0 = self.connections@;
                let ghost pairs0 = conn_pairs(raw0);
                let mut pair = self.connections.remove(i);
                let acts = pair.1.on_packet(tcph, data);
                proof {
                    lemma_conn_pairs_shape(raw0);
                    assert(pairs0[i as int] == (q, old(self)@.connections[q]));
                    lemma_conn_pairs_remove(raw0, i as int);
                    lemma_assoc_map_remove(pairs0, i as int);
                    assert(keys_unique(conn_pairs(self.connections@)));
                    assert forall|k: int| 0 <= k < conn_pairs(self.connections@).len()
                        implies conn_pairs(self.connections@)[k].0 != q by {
                        let k0 = if k < i as int { k } else { k + 1 };
                        assert(conn_pairs(self.connections@)[k] == pairs0[k0]);
                    }
                }
                if acts.closed {
                    proof {
                        assert(self@.connections =~= old(self)@.connections.remove(q));
                    }
                    SegmentActions { segments: acts.segments, notify: false }
                } else {
                    let ghost cv = pair.1@;
                    self.connections.push(pair);
                    proof {
                        assert(self.connections@.drop_last() =~= raw0.remove(i as int));
                        self.lemma_conn_put_back(raw0, i as int, q, cv);
                        assert(self@.connections =~= old(self)@.connections.insert(q, cv));
                    }
                    SegmentActions { segments: acts.segments, notify: false }
                }
            }
            None => {
                match self.find_pending(tcph.destination_port) {
                    Some(j) => {
                        match Connection::accept(iph, tcph, data) {
                            Some(cs) => {
                                let (c, seg) = cs;
                                let ghost cv = c@;
                                let ghost sv = seg@;
                                let ghost craw0 = self.connections@;
                                let ghost cpairs0 = conn_pairs(craw0);
                                self.connections.push((q, c));
                                proof {
                                    lemma_conn_pairs_shape(craw0);
                                    lemma_conn_pairs_shape(self.connections@);
                                    let cpairs1 = conn_pairs(self.connections@);
                                    assert(cpairs1.drop_last() =~= cpairs0);
                                    assert(cpairs1.last() == (q, cv));
                                    assert(assoc_map(cpairs1) == assoc_map(cpairs0).insert(q, cv));
                                    assert forall|a: int, b: int| 0 <= a < b < cpairs1.len()
                                        implies cpairs1[a].0 != cpairs1[b].0 by {
                                        if b == cpairs1.len() - 1 {
                                            assert(cpairs1[a] == cpairs0[a]);
                                            assert(craw0[a].0 != q);
                                        } else {
                                            assert(cpairs1[a] == cpairs0[a]);
                                            assert(cpairs1[b] == cpairs0[b]);
                                        }
                                    }
                                    assert(keys_unique(cpairs1));
                                }
                                let ghost praw0 = self.pending@;
                                let ghost ppairs0 = pending_pairs(praw0);
                                let ghost port = tcph.destination_port;
                                let mut ppair = self.pending.remove(j);
                                ppair.1.push(q);
                                let ghost pqv = ppair.1@;
                                self.pending.push(ppair);
                                proof {
                                    lemma_pending_pairs_shape(praw0);
                                    assert(ppairs0[j as int] == (port, old(self)@.pending[port]));
                                    assert(self.pending@.drop_last() =~= praw0.remove(j as int));
                                    self.lemma_pending_put_back(praw0, j as int, port, pqv);
                                    assert(pqv =~= old(self)@.pending[port].push(q));
                                    assert(self@.pending =~= old(self)@.pending.insert(port, pqv));
                                }
                                let mut segs: Vec<Segment> = Vec::new();
                                segs.push(seg);
                                proof {
                                    assert(seg_views(segs@) =~= seq![sv]);
                                }
                                SegmentActions { segments: segs, notify: true }
                            }
                            None => {
                                proof {
                                    assert(seg_views(Seq::<Segment>::empty()) =~= d.segs);
                                }
                                SegmentActions { segments: Vec::new(), notify: false }
                            }
                        }
                    }
                    None => {
                        proof {
                            assert(seg_views(Seq::<Segment>::empty()) =~= d.segs);
                        }
                        SegmentActions { segments: Vec::new(), notify: false }
                    }
                }
            }
        }
    }

    /// One non-blocking accept attempt on `port`'s pending queue: an error
    /// once the manager is terminated, the front quad when one is queued,
    /// or nothing yet, in which case the caller waits for a wakeup and
    /// retries.
    pub fn accept_pending(&mut self, port: u16) -> (r: Result<Option<Quad>, TcpError>)
        requires
            old(self).inv(),
            old(self)@.pending.contains_key(port),
        ensures
            final(self).inv(),
            old(self)@.terminate ==> r == Err::<Option<Quad>, TcpError>(TcpError::Terminated)
                && final(self)@ == old(self)@,
            !old(self)@.terminate && old(self)@.pending[port].len() == 0 ==>
                r == Ok::<Option<Quad>, TcpError>(None) && final(self)@ == old(self)@,
            !old(self)@.terminate && old(self)@.pending[port].len() > 0 ==>
                r == Ok::<Option<Quad>, TcpError>(Some(old(self)@.pending[port][0]))
                && final(self)@ == (ManagerView {
                    pending: old(self)@.pending.insert(port, old(self)@.pending[port].skip(1)),
                    ..old(self)@
                }),
    {
        if self.terminate {
            return Err(TcpError::Terminated);
        }
        let j = match self.find_pending(port) {
            Some(j) => j,
            None => {
            proof {
                assert(false);
            }
                return Err(TcpError::Terminated);
            },
        };
        let ghost praw0 = self.pending@;
        let ghost ppairs0 = pending_pairs(praw0);
        let mut ppair = self.pending.remove(j);
        if ppair.1.len() == 0 {
            let ghost pqv = ppair.1@;
            self.pending.push(ppair);
            proof {
                lemma_pending_pairs_shape(praw0);
                assert(ppairs0[j as int] == (port, old(self)@.pending[port]));
                assert(self.pending@.drop_last() =~= praw0.remove(j as int));
                self.lemma_pending_put_back(praw0, j as int, port, pqv);
                assert(old(self)@.pending.insert(port, pqv) =~= old(self)@.pending);
                assert(self@ =~= old(self)@);
            }
            Ok(None)
        } else {
            let quad = ppair.1.remove(0);
            let ghost pqv = ppair.1@;
            self.pending.push(ppair);
            proof {
                lemma_pending_pairs_shape(praw0);
                assert(ppairs0[j as int] == (port, old(self)@.pending[port]));
                assert(self.pending@.drop_last() =~= praw0.remove(j as int));
                self.lemma_pending_put_back(praw0, j as int, port, pqv);
                assert(self@.pending =~= old(self)@.pending.insert(port, pqv));
                assert(pqv =~= old(self)@.pending[port].skip(1));
            }
            Ok(Some(quad))
        }
    }

    /// Read up to `max` bytes from the front of `q`'s inbound queue:
    /// `ConnectionAborted` when the connection is gone, `WouldBlock` when
    /// the queue is empty (never a zero-length success), otherwise the
    /// bytes removed from the queue's front.
    pub fn stream_read(&mut self, q: &Quad, max: usize) -> (r: Result<Vec<u8>, TcpError>)
        requires
            old(self).inv(),
        ensures
            final(self).inv(),
            !old(self)@.connections.contains_key(*q) ==>
                r == Err::<Vec<u8>, TcpError>(TcpError::ConnectionAborted) && final(self)@ == old(self)@,
            old(self)@.connections.contains_key(*q)
                && old(self)@.connections[*q].incoming.len() == 0 ==>
                r == Err::<Vec<u8>, TcpError>(TcpError::WouldBlock) && final(self)@ == old(self)@,
            old(self)@.connections.contains_key(*q)
                && old(self)@.connections[*q].incoming.len() > 0 ==> ({
                let c = old(self)@.connections[*q];
                let n = if max < c.incoming.len() { max as int } else { c.incoming.len() as int };
                &&& r matches Ok(v) && v@ == c.incoming.take(n)
                &&& final(self)@ == (ManagerView {
                    connections: old(self)@.connections.insert(
                        *q,
                        ConnectionView { incoming: c.incoming.skip(n), ..c },
                    ),
                    ..old(self)@
                })
            }),
    {
        let i = match self.find_conn(q) {
            Some(i) => i,
            None => {
                return Err(TcpError::ConnectionAborted);
            },
        };
        if self.connections[i].1.incoming.len() == 0 {
            return Err(TcpError::WouldBlock);
        }
        let ghost raw0 = self.connections@;
        let ghost pairs0 = conn_pairs(raw0);
        let mut pair = self.connections.remove(i);
        let ghost inc0 = pair.1.incoming@;
        let len = pair.1.incoming.len();
        let n = if max < len { max } else { len };
        let mut out: Vec<u8> = Vec::new();
        let mut k: usize = 0;
        while k < n
            invariant
                k <= n,
                n <= len,
                len == pair.1.incoming@.len(),
                pair.1.incoming@ == inc0,
                out@ == inc0.take(k as int),
            decreases n - k,
        {
            out.push(pair.1.incoming[k]);
            proof {
                assert(inc0.take(k + 1) =~= inc0.take(k as int).push(inc0[k as int]));
            }
            k = k + 1;
        }
        let mut rest: Vec<u8> = Vec::new();
        let mut k2: usize = n;
        while k2 < len
            invariant
                n <= k2 <= len,
                len == pair.1.incoming@.len(),
                pair.1.incoming@ == inc0,
                rest@ == inc0.subrange(n as int, k2 as int),
            decreases len - k2,
        {
            rest.push(pair.1.incoming[k2]);
            proof {
                assert(inc0.subrange(n as int, k2 + 1)
                    =~= inc0.subrange(n as int, k2 as int).push(inc0[k2 as int]));
            }
            k2 = k2 + 1;
        }
        pair.1.incoming = rest;
        let ghost cv = pair.1@;
        self.connections.push(pair);
        proof {
            lemma_conn_pairs_shape(raw0);
            assert(self.connections@.drop_last() =~= raw0.remove(i as int));
            self.lemma_conn_put_back(raw0, i as int, *q, cv);
            assert(self@.connections =~= old(self)@.connections.insert(*q, cv));
        }
        Ok(out)
    }

    /// Append up to the remaining outbound capacity from `data` to `q`'s
    /// outbound queue: `ConnectionAborted` when the connection is gone,
    /// `WouldBlock` when the queue is already full, otherwise the number
    /// of bytes actually accepted (a short count when `data` exceeds the
    /// remaining capacity, never a failure).
    pub fn stream_write(&mut self, q: &Quad, data: &[u8]) -> (r: Result<usize, TcpError>)
        requires
            old(self).inv(),
        ensures
            final(self).inv(),
            !old(self)@.connections.contains_key(*q) ==>
                r == Err::<usize, TcpError>(TcpError::ConnectionAborted) && final(self)@ == old(self)@,
            old(self)@.connections.contains_key(*q)
                && old(self)@.connections[*q].unacked.len() >= SENDQUEUE_SIZE ==>
                r == Err::<usize, TcpError>(TcpError::WouldBlock) && final(self)@ == old(self)@,
            old(self)@.connections.contains_key(*q)
                && old(self)@.connections[*q].unacked.len() < SENDQUEUE_SIZE ==> ({
                let c = old(self)@.connections[*q];
                let cap = SENDQUEUE_SIZE - c.unacked.len();
                let n = if data@.len() < cap { data@.len() as int } else { cap as int };
                &&& r == Ok::<usize, TcpError>(n as usize)
                &&& final(self)@ == (ManagerView {
                    connections: old(self)@.connections.insert(
                        *q,
                        ConnectionView { unacked: c.unacked + data@.take(n), ..c },
                    ),
                    ..old(self)@
                })
            }),
    {
        let i = match self.find_conn(q) {
            Some(i) => i,
            None => {
                return Err(TcpError::ConnectionAborted);
            },
        };
        if self.connections[i].1.unacked.len() >= SENDQUEUE_SIZE {
            return Err(TcpError::WouldBlock);
        }
        let ghost raw0 = self.connections@;
        let ghost pairs0 = conn_pairs(raw0);
        let mut pair = self.connections.remove(i);
        let ghost un0 = pair.1.unacked@;
        let ghost cv0 = pair.1@;
        let ghost q0 = pair.0;
        let cap = SENDQUEUE_SIZE - pair.1.unacked.len();
        let n = if data.len() < cap { data.len() } else { cap };
        let mut k: usize = 0;
        while k < n
            invariant
                k <= n,
                n <= data@.len(),
                pair.0 == q0,
                pair.1@ == (ConnectionView { unacked: un0 + data@.take(k as int), ..cv0 }),
            decreases n - k,
        {
            pair.1.unacked.push(data[k]);
            proof {
                assert(un0 + data@.take(k + 1) =~= (un0 + data@.take(k as int)).push(data@[k as int]));
            }
            k = k + 1;
        }
        let ghost cv = pair.1@;
        self.connections.push(pair);
        proof {
            lemma_conn_pairs_shape(raw0);
            assert(self.connections@.drop_last() =~= raw0.remove(i as int));
            self.lemma_conn_put_back(raw0, i as int, *q, cv);
            assert(self@.connections =~= old(self)@.connections.insert(*q, cv));
        }
        Ok(n)
    }

    /// Whether `q`'s outbound queue has fully drained: `ConnectionAborted`
    /// when the connection is gone, success when the queue is empty, and
    /// `WouldBlock` while bytes are still buffered.
    pub fn stream_flush(&self, q: &Quad) -> (r: Result<(), TcpError>)
        requires
            self.inv(),
        ensures
            !self@.connections.contains_key(*q) ==>
                r == Err::<(), TcpError>(TcpError::ConnectionAborted),
            self@.connections.contains_key(*q) ==> ({
                if self@.connections[*q].unacked.len() == 0 {
                    r == Ok::<(), TcpError>(())
                } else {
                    r == Err::<(), TcpError>(TcpError::WouldBlock)
                }
            }),
    {
        let i = match self.find_conn(q) {
            Some(i) => i,
            None => {
                return Err(TcpError::ConnectionAborted);
            },
        };
        if self.connections[i].1.unacked.len() == 0 {
            Ok(())
        } else {
            Err(TcpError::WouldBlock)
        }
    }

    /// Begin an application-driven close of `q`: in `Estab` the connection
    /// emits a FIN (which the caller must transmit) and enters `FinWait1`;
    /// in any other state nothing is emitted and nothing changes.
    /// `ConnectionAborted` when the connection is gone.
    pub fn shutdown_stream(&mut self, q: &Quad) -> (r: Result<Option<Segment>, TcpError>)
        requires
            old(self).inv(),
        ensures
            final(self).inv(),
            !old(self)@.connections.contains_key(*q) ==>
                r == Err::<Option<Segment>, TcpError>(TcpError::ConnectionAborted)
                && final(self)@ == old(self)@,
            old(self)@.connections.contains_key(*q)
                && !(old(self)@.connections[*q].state is Estab) ==>
                r == Ok::<Option<Segment>, TcpError>(None) && final(self)@ == old(self)@,
            old(self)@.connections.contains_key(*q)
                && old(self)@.connections[*q].state is Estab ==> ({
                let wr = write_result(old(self)@.connections[*q], false, true, Seq::empty());
                &&& r matches Ok(os) && os matches Some(seg) && seg@ == wr.1
                &&& final(self)@ == (ManagerView {
                    connections: old(self)@.connections.insert(
                        *q,
                        ConnectionView { state: State::FinWait1, ..wr.0 },
                    ),
                    ..old(self)@
                })
            }),
    {
        let i = match self.find_conn(q) {
            Some(i) => i,
            None => {
                return Err(TcpError::ConnectionAborted);
            },
        };
        if !(self.connections[i].1.state == State::Estab) {
            return Ok(None);
        }
        let ghost raw0 = self.connections@;
        let ghost pairs0 = conn_pairs(raw0);
        let mut pair = self.connections.remove(i);
        let seg = pair.1.write(false, true, &[]);
        pair.1.state = State::FinWait1;
        let ghost cv = pair.1@;
        self.connections.push(pair);
        proof {
            lemma_conn_pairs_shape(raw0);
            assert(self.connections@.drop_last() =~= raw0.remove(i as int));
            self.lemma_conn_put_back(raw0, i as int, *q, cv);
            assert(self@.connections =~= old(self)@.connections.insert(*q, cv));
        }
        Ok(Some(seg))
    }

    /// Close the listener on `port`: drop its pending queue, and tear the
    /// connections still waiting in it out of the table (they were never
    /// handed to the application).
    pub fn close_listener(&mut self, port: u16)
        requires
            old(self).inv(),
            old(self)@.pending.contains_key(port),
        ensures
            final(self).inv(),
            final(self)@ == (ManagerView {
                connections: remove_each(old(self)@.connections, old(self)@.pending[port]),
                pending: old(self)@.pending.remove(port),
                ..old(self)@
            }),
    {
        let j = match self.find_pending(port) {
            Some(j) => j,
            None => {
                proof {
                    assert(false);
                }
                return;
            },
        };
        let ghost praw0 = self.pending@;
        let ghost ppairs0 = pending_pairs(praw0);
        let ppair = self.pending.remove(j);
        proof {
            lemma_pending_pairs_shape(praw0);
            assert(ppairs0[j as int] == (port, old(self)@.pending[port]));
            lemma_pending_pairs_remove(praw0, j as int);
            lemma_assoc_map_remove(ppairs0, j as int);
            assert(self@.pending =~= old(self)@.pending.remove(port));
        }
        let qs = ppair.1;
        let ghost conns0 = self@.connections;
        let ghost pend1 = self@.pending;
        proof {
            assert(qs@.skip(0) =~= qs@);
        }
        let mut k: usize = 0;
        while k < qs.len()
            invariant
                k <= qs@.len(),
                self.inv(),
                self@.pending == pend1,
                self@.terminate == old(self)@.terminate,
                remove_each(self@.connections, qs@.skip(k as int))
                    == remove_each(conns0, qs@),
            decreases qs@.len() - k,
        {
            let ghost prev = self@.connections;
            match self.find_conn(&qs[k]) {
                Some(i) => {
                    let ghost raw0 = self.connections@;
                    let ghost pairs0 = conn_pairs(raw0);
                    let _ = self.connections.remove(i);
                    proof {
                        lemma_conn_pairs_shape(raw0);
                        assert(pairs0[i as int].0 == qs@[k as int]);
                        lemma_conn_pairs_remove(raw0, i as int);
                        lemma_assoc_map_remove(pairs0, i as int);
                        assert(self@.connections =~= prev.remove(qs@[k as int]));
                    }
                },
                None => {
                    proof {
                        assert(prev.remove(qs@[k as int]) =~= prev);
                    }
                },
            }
            proof {
                assert(qs@.skip(k as int)[0] == qs@[k as int]);
                assert(qs@.skip(k as int).skip(1) =~= qs@.skip(k + 1));
            }
            k = k + 1;
        }
        proof {
            assert(qs@.skip(qs@.len() as int) =~= Seq::<Quad>::empty());
        }
    }
}

/// What the dispatcher asks of its caller for one segment: frames to send,
/// and whether to wake threads blocked in accept.
pub struct SegmentActions {
    pub segments: Vec<Segment>,
    pub notify: bool,
}

/// Outcome of dispatching one decoded segment at the manager level.
#[verifier::ext_equal]
pub struct DispatchResult {
    pub manager: ManagerView,
    pub segs: Seq<crate::wire::SegmentView>,
    pub notify: bool,
}

/// The dispatch function: a segment for a known quad drives that
/// connection's transition (and removes it on teardown); one for an unknown
/// quad is offered to the listener bound to its destination port, a
/// successful accept entering the new connection into the table and its
/// quad into the port's pending queue; anything else is dropped.
pub open spec fn dispatch_spec(m: ManagerView, iph: Ipv4Fields, tcph: TcpFields, data_len: nat) -> DispatchResult {
    let q = quad_of(iph, tcph);
    if m.connections.contains_key(q) {
        let sr = on_packet_spec(m.connections[q], tcph, data_len);
        let conns = if sr.closed {
            m.connections.remove(q)
        } else {
            m.connections.insert(q, sr.conn)
        };
        DispatchResult {
            manager: ManagerView { connections: conns, ..m },
            segs: sr.segs,
            notify: false,
        }
    } else if m.pending.contains_key(tcph.destination_port) {
        match accept_spec(iph, tcph) {
            Some(cs) => DispatchResult {
                manager: ManagerView {
                    connections: m.connections.insert(q, cs.0),
                    pending: m.pending.insert(
                        tcph.destination_port,
                        m.pending[tcph.destination_port].push(q),
                    ),
                    ..m
                },
                segs: seq![cs.1],
                notify: true,
            },
            None => DispatchResult { manager: m, segs: seq![], notify: false },
        }
    } else {
        DispatchResult { manager: m, segs: seq![], notify: false }
    }
}

/// What the ingestion loop asks of its caller for one raw frame: encoded
/// reply frames to transmit, and whether to wake threads blocked in accept.
pub struct FrameActions {
    pub frames: Vec<Vec<u8>>,
    pub notify: bool,
}

/// Outcome of ingesting one raw frame at the manager level.
#[verifier::ext_equal]
pub struct FrameStepResult {
    pub manager: ManagerView,
    pub frames: Seq<Seq<u8>>,
    pub notify: bool,
}

/// The views of a sequence of encoded frames.
pub open spec fn frame_views(s: Seq<Vec<u8>>) -> Seq<Seq<u8>> {
    s.map_values(|v: Vec<u8>| v@)
}

/// One raw frame: decode the IPv4 header, drop anything that fails to
/// parse or is not TCP, decode the TCP header from the rest, dispatch the
/// decoded segment, and encode each reply segment into a frame.
pub open spec fn frame_step(m: ManagerView, buf: Seq<u8>) -> FrameStepResult {
    match ipv4_decoded(buf) {
        Option::None => FrameStepResult { manager: m, frames: seq![], notify: false },
        Option::Some(iph) => {
            if iph.protocol != IP_PROTO_TCP {
                FrameStepResult { manager: m, frames: seq![], notify: false }
            } else {
                match tcp_decoded(buf.skip(iph.header_len as int)) {
                    Option::None => FrameStepResult { manager: m, frames: seq![], notify: false },
                    Option::Some(tcph) => {
                        let d = dispatch_spec(
                            m,
                            iph,
                            tcph,
                            (buf.len() - iph.header_len - tcph.header_len) as nat,
                        );
                        FrameStepResult {
                            manager: d.manager,
                            frames: d.segs.map_values(|sv: SegmentView| frame_of(sv)),
                            notify: d.notify,
                        }
                    },
                }
            }
        },
    }
}

/// Every segment the dispatcher emits carries an empty payload.
pub proof fn lemma_dispatch_segments_empty(m: ManagerView, iph: Ipv4Fields, tcph: TcpFields, data_len: nat)
    ensures
        forall|i: int| 0 <= i < dispatch_spec(m, iph, tcph, data_len).segs.len()
            ==> #[trigger] dispatch_spec(m, iph, tcph, data_len).segs[i].payload.len() == 0,
{
    let q = quad_of(iph, tcph);
    if m.connections.contains_key(q) {
        lemma_on_packet_segments_empty(m.connections[q], tcph, data_len);
    } else {
        lemma_accept_segment_empty(iph, tcph);
    }
}

impl ConnectionManager {
    /// Ingest one raw frame from the device, per `frame_step`: the caller
    /// transmits the returned frames in order and, when asked, wakes the
    /// threads blocked in accept.
    pub fn on_frame(&mut self, buf: &[u8]) -> (r: FrameActions)
        requires
            old(self).inv(),
            buf@.len() + 2 <= u32::MAX,
        ensures
            final(self).inv(),
            ({
                let f = frame_step(old(self)@, buf@);
                &&& final(self)@ == f.manager
                &&& frame_views(r.frames@) == f.frames
                &&& r.notify == f.notify
            }),
    {
        let ghost f = frame_step(old(self)@, buf@);
        let iph = match parse_ipv4(buf) {
            Some(h) => h,
            None => {
                proof {
                    assert(frame_views(Seq::<Vec<u8>>::empty()) =~= f.frames);
                }
                return FrameActions { frames: Vec::new(), notify: false };
            },
        };
        if iph.protocol != IP_PROTO_TCP {
            proof {
                assert(frame_views(Seq::<Vec<u8>>::empty()) =~= f.frames);
            }
            return FrameActions { frames: Vec::new(), notify: false };
        }
        let rest = slice_subrange(buf, iph.header_len, buf.len());
        proof {
            assert(rest@ =~= buf@.skip(iph.header_len as int));
        }
        let tcph = match parse_tcp(rest) {
            Some(h) => h,
            None => {
                proof {
                    assert(frame_views(Seq::<Vec<u8>>::empty()) =~= f.frames);
                }
                return FrameActions { frames: Vec::new(), notify: false };
            },
        };
        let datai = iph.header_len + tcph.header_len;
        let data = slice_subrange(buf, datai, buf.len());
        let ghost d = dispatch_spec(old(self)@, iph, tcph, data@.len());
        let acts = self.on_segment(&iph, &tcph, data);
        proof {
            lemma_dispatch_segments_empty(old(self)@, iph, tcph, data@.len());
        }
        let mut frames: Vec<Vec<u8>> = Vec::new();
        let n = acts.segments.len();
        let mut k: usize = 0;
        while k < n
            invariant
                k <= n,
                n == acts.segments@.len(),
                seg_views(acts.segments@) == d.segs,
                forall|i: int| 0 <= i < d.segs.len() ==> #[trigger] d.segs[i].payload.len() == 0,
                frame_views(frames@) == d.segs.take(k as int).map_values(|sv: SegmentView| frame_of(sv)),
            decreases n - k,
        {
            proof {
                assert(seg_views(acts.segments@)[k as int] == acts.segments@[k as int]@);
                assert(acts.segments@[k as int]@ == d.segs[k as int]);
                assert(d.segs[k as int].payload.len() == 0);
            }
            let ghost frames0 = frames@;
            let fbytes = acts.segments[k].to_bytes();
            frames.push(fbytes);
            proof {
                let m0 = d.segs.take(k as int).map_values(|sv: SegmentView| frame_of(sv));
                let m1 = d.segs.take(k + 1).map_values(|sv: SegmentView| frame_of(sv));
                assert(d.segs.len() == seg_views(acts.segments@).len());
                assert(frame_views(frames0).len() == frames0.len());
                assert(frames0.len() == m0.len());
                assert(frames@.len() == k + 1);
                assert forall|i: int| 0 <= i < k + 1 implies frame_views(frames@)[i] == m1[i] by {
                    assert(d.segs.take(k + 1)[i] == d.segs[i]);
                    assert(frame_views(frames@)[i] == frames@[i]@);
                    if i < k {
                        assert(frames@[i] == frames0[i]);
                        assert(frame_views(frames0)[i] == m0[i]);
                        assert(d.segs.take(k as int)[i] == d.segs[i]);
                    } else {
                        assert(frames@[i] == fbytes);
                    }
                }
                assert(frame_views(frames@) =~= m1);
            }
            k = k + 1;
        }
        proof {
            assert(d.segs.take(d.segs.len() as int) =~= d.segs);
            assert(frame_views(frames@) =~= f.frames);
        }
        FrameActions { frames, notify: acts.notify }
    }
}

/// A SYN for an unknown quad: with a listener bound to its destination
/// port, dispatch creates exactly one `SynRcvd` connection under that
/// quad, queues the quad on the port's pending queue (whence `accept`
/// returns it), wakes the accept waiters, and emits exactly one SYN/ACK;
/// with no listener bound, nothing changes, nothing is emitted, and no
/// table entry appears.
pub proof fn lemma_syn_dispatch(m: ManagerView, iph: Ipv4Fields, tcph: TcpFields, data_len: nat)
    requires
        tcph.syn,
        !m.connections.contains_key(quad_of(iph, tcph)),
    ensures
        ({
            let q = quad_of(iph, tcph);
            let d = dispatch_spec(m, iph, tcph, data_len);
            &&& m.pending.contains_key(tcph.destination_port) ==> ({
                &&& d.manager.connections.contains_key(q)
                &&& d.manager.connections[q].state is SynRcvd
                &&& d.manager.pending[tcph.destination_port]
                    == m.pending[tcph.destination_port].push(q)
                &&& d.segs.len() == 1
                &&& d.segs[0].syn && d.segs[0].ack
                &&& d.notify
            })
            &&& !m.pending.contains_key(tcph.destination_port) ==> ({
                &&& d.manager == m
                &&& d.segs.len() == 0
                &&& !d.notify
                &&& !d.manager.connections.contains_key(q)
            })
        }),
{
}

/// Each queued quad is handed out exactly once: a SYN arriving at a bound
/// port with an empty pending queue leaves that queue holding the new quad
/// alone, so the next (and only the next) accept on the port pops exactly
/// it, leaving the queue empty again — as `accept_pending`'s contract then
/// guarantees.
pub proof fn lemma_syn_queued_then_popped_once(m: ManagerView, iph: Ipv4Fields, tcph: TcpFields, data_len: nat)
    requires
        tcph.syn,
        !m.connections.contains_key(quad_of(iph, tcph)),
        m.pending.contains_key(tcph.destination_port),
        m.pending[tcph.destination_port].len() == 0,
    ensures
        ({
            let queue = dispatch_spec(m, iph, tcph, data_len).manager.pending[tcph.destination_port];
            &&& queue.len() == 1
            &&& queue[0] == quad_of(iph, tcph)
            &&& queue.skip(1) =~= Seq::<Quad>::empty()
        }),
{
}

/// A write beyond the remaining outbound capacity is cut short, never
/// refused: `stream_write`'s contract accepts exactly the remaining
/// capacity in that case, and the queue it leaves behind is exactly full.
pub proof fn lemma_write_short_count(m: ManagerView, q: Quad, data: Seq<u8>)
    requires
        m.connections.contains_key(q),
        m.connections[q].unacked.len() < SENDQUEUE_SIZE,
        data.len() > SENDQUEUE_SIZE - m.connections[q].unacked.len(),
    ensures
        ({
            let c = m.connections[q];
            let cap = SENDQUEUE_SIZE - c.unacked.len();
            (c.unacked + data.take(cap as int)).len() == SENDQUEUE_SIZE
        }),
{
}

} // verus!
