//! The client's state and behaviour: neighbor channels, learned kinds and
//! topology, per-edge reliability records, the three session stores, and the
//! handlers that the surrounding event loop drives.
//!
//! Times come in as milliseconds chosen by the caller; the client never
//! reads a clock itself. Node identifiers are bytes, so the kind table has
//! 256 slots and the edge-record table 65536 (one per ordered pair).

use crate::channels::{send_event_on, send_packet_on};
use crate::codec::assembled;
use crate::edge_stats::{updated, weight_of, EdgeStats, ALPHA_DEFAULT, BASE_WEIGHT};
use crate::topology::{edges_of, Topology};
use crate::types::{
    Event, FloodRequest, FloodResponse, Fragment, NackKind, NodeId, NodeKind, Packet,
    PacketHeader, PacketKind, PacketKindTag, ReassemblyError, RoutingHeader, Stats, UiError,
    FRAGMENT_DSIZE,
};
use vstd::prelude::*;

verus! {

/// A fragment that was shipped and not yet acknowledged.
#[derive(Clone, Debug)]
pub struct SentEntry {
    pub session: u64,
    pub fragment: u64,
    pub packet: Packet,
}

/// The reassembly buffer of one inbound session.
#[derive(Clone, Debug)]
pub struct RecvEntry {
    pub session: u64,
    pub slots: Vec<Option<Fragment>>,
    pub received: u64,
}

/// What is remembered about one outbound session until it is fully
/// acknowledged.
#[derive(Clone, Debug)]
pub struct SessionInfo {
    pub session: u64,
    pub destination: NodeId,
    pub message: Vec<u8>,
    pub started_ms: u64,
}

/// How many reassembly slots are filled.
pub open spec fn count_some(s: Seq<Option<Fragment>>) -> nat
    decreases s.len(),
{
    if s.len() == 0 {
        0
    } else {
        count_some(s.drop_last()) + if s.last() is Some {
            1nat
        } else {
            0nat
        }
    }
}

pub proof fn lemma_count_some_le(s: Seq<Option<Fragment>>)
    ensures
        count_some(s) <= s.len(),
    decreases s.len(),
{
    if s.len() > 0 {
        lemma_count_some_le(s.drop_last());
    }
}

pub proof fn lemma_count_some_update(s: Seq<Option<Fragment>>, i: int, f: Fragment)
    requires
        0 <= i < s.len(),
        s[i] is None,
    ensures
        count_some(s.update(i, Some(f))) == count_some(s) + 1,
    decreases s.len(),
{
    if i == s.len() - 1 {
        assert(s.update(i, Some(f)).drop_last() =~= s.drop_last());
    } else {
        assert(s.update(i, Some(f)).drop_last() =~= s.drop_last().update(i, Some(f)));
        lemma_count_some_update(s.drop_last(), i, f);
    }
}

/// A buffer with as many filled slots as slots is completely filled.
pub proof fn lemma_count_some_full(s: Seq<Option<Fragment>>)
    requires
        count_some(s) == s.len(),
    ensures
        forall|i: int| 0 <= i < s.len() ==> (#[trigger] s[i]) is Some,
    decreases s.len(),
{
    if s.len() > 0 {
        lemma_count_some_le(s.drop_last());
        lemma_count_some_full(s.drop_last());
        assert forall|i: int| 0 <= i < s.len() implies (#[trigger] s[i]) is Some by {
            if i < s.len() - 1 {
                assert(s.drop_last()[i] is Some);
            }
        }
    }
}

/// The shape every stored fragment must have: a payload of exactly the
/// fixed size, a consistent meaningful length, and a position inside its
/// session.
pub open spec fn fragment_shape_ok(f: Fragment) -> bool {
    &&& f.data@.len() == FRAGMENT_DSIZE
    &&& f.length <= FRAGMENT_DSIZE
    &&& f.fragment_index < f.total_n_fragments
}

/// How one reassembly buffer changes when a fragment arrives for it: an
/// empty in-range slot takes the fragment and the count advances; anything
/// else (a duplicate, or a position outside the buffer) leaves it alone.
pub open spec fn stored_slot(e_old: RecvEntry, e_new: RecvEntry, f: Fragment) -> bool {
    &&& e_new.session == e_old.session
    &&& if f.fragment_index < e_old.slots@.len() && e_old.slots@[f.fragment_index as int]
        is None {
        e_new.slots@ == e_old.slots@.update(f.fragment_index as int, Some(f)) && e_new.received
            == e_old.received + 1
    } else {
        e_new.slots@ == e_old.slots@ && e_new.received == e_old.received
    }
}

/// How many identifiers have a recorded kind.
pub open spec fn count_known(kinds: Seq<Option<NodeKind>>) -> nat
    decreases kinds.len(),
{
    if kinds.len() == 0 {
        0
    } else {
        count_known(kinds.drop_last()) + if kinds.last() is Some {
            1nat
        } else {
            0nat
        }
    }
}

/// A completely filled buffer has as many filled slots as slots.
pub proof fn lemma_count_some_all(s: Seq<Option<Fragment>>)
    requires
        forall|i: int| 0 <= i < s.len() ==> !((#[trigger] s[i]) is None),
    ensures
        count_some(s) == s.len(),
    decreases s.len(),
{
    if s.len() > 0 {
        lemma_count_some_all(s.drop_last());
    }
}

/// The data view of the session's reassembly buffer after this fragment is
/// taken in: the existing buffer (there is at most one, the store being
/// keyed once per session) with the fragment's payload dropped into its
/// empty in-range slot, or a fresh buffer of the advertised size holding
/// just this payload.
pub open spec fn buffer_data_after(c: RustbustersClient, session: u64, f: Fragment) -> Seq<
    Option<Seq<u8>>,
> {
    if recv_has(c, session) {
        let i = choose|i: int|
            0 <= i < c.pending_received@.len() && (#[trigger] c.pending_received@[i]).session
                == session;
        let d = crate::codec::slots_data(c.pending_received@[i].slots@);
        if f.fragment_index < d.len() && d[f.fragment_index as int] is None {
            d.update(f.fragment_index as int, Some(f.data@))
        } else {
            d
        }
    } else {
        Seq::new(
            f.total_n_fragments as nat,
            |j: int| Option::<Seq<u8>>::None,
        ).update(f.fragment_index as int, Some(f.data@))
    }
}

/// Every slot of a buffer's data view is filled.
pub open spec fn all_filled(d: Seq<Option<Seq<u8>>>) -> bool {
    forall|j: int| 0 <= j < d.len() ==> !((#[trigger] d[j]) is None)
}

/// Whether this arrival completes its session: the fragment is well shaped
/// and, once it is taken in, no slot of the session's buffer is empty.
pub open spec fn arrival_completes(c: RustbustersClient, session: u64, f: Fragment) -> bool {
    fragment_shape_ok(f) && all_filled(buffer_data_after(c, session, f))
}

impl RecvEntry {
    pub open spec fn wf(self) -> bool {
        &&& self.received == count_some(self.slots@)
        &&& forall|i: int|
            0 <= i < self.slots@.len() ==> ((#[trigger] self.slots@[i]) matches Some(f) ==> f.wf())
    }
}

/// Slot of the ordered pair `(from, to)` in the edge-record table.
pub open spec fn ek(from: NodeId, to: NodeId) -> int {
    from as int * 256 + to as int
}

/// The record a pair starts from when its first outcome arrives.
pub open spec fn fresh_stats() -> EdgeStats {
    EdgeStats {
        packets_sent: 0,
        current_pdr: 0,
        confidence: 0,
        alpha: ALPHA_DEFAULT,
        consecutive_nacks: 0,
        consecutive_acks: 0,
        last_was_nack: false,
    }
}

/// The weight actually installed on a topology edge: the record's weight,
/// capped so that no route's weight sum can overflow the search arithmetic.
pub open spec fn sat_weight(s: EdgeStats) -> u64 {
    if weight_of(s) > crate::path::WEIGHT_LIMIT as int {
        crate::path::WEIGHT_LIMIT
    } else {
        weight_of(s) as u64
    }
}

/// One observed outcome on the directed edge `(u, v)`: the record is updated
/// (created first if the pair has none) and, unless the pair is degenerate,
/// the undirected topology edge takes the record's new weight.
pub open spec fn one_outcome(
    stats: Seq<Option<EdgeStats>>,
    edges: Map<(NodeId, NodeId), u64>,
    u: NodeId,
    v: NodeId,
    dropped: bool,
) -> (Seq<Option<EdgeStats>>, Map<(NodeId, NodeId), u64>) {
    let prior = match stats[ek(u, v)] {
        Some(s) => s,
        None => fresh_stats(),
    };
    let s2 = updated(prior, dropped);
    let w = sat_weight(s2);
    let e2 = if u != v {
        edges.insert((u, v), w).insert((v, u), w)
    } else {
        edges
    };
    (stats.update(ek(u, v), Some(s2)), e2)
}

/// Successful outcomes registered along `path[from] .. path[k]`, one per
/// consecutive pair, in order.
pub open spec fn path_successes(
    stats: Seq<Option<EdgeStats>>,
    edges: Map<(NodeId, NodeId), u64>,
    path: Seq<NodeId>,
    from: int,
    k: int,
) -> (Seq<Option<EdgeStats>>, Map<(NodeId, NodeId), u64>)
    decreases k - from,
{
    if k <= from {
        (stats, edges)
    } else {
        let p = path_successes(stats, edges, path, from, k - 1);
        one_outcome(p.0, p.1, path[k - 1], path[k], false)
    }
}

/// What one pending-sent entry created by the send path holds: the session,
/// a fragment position inside the message, and a packet that carries exactly
/// that fragment of the message along the given route.
pub open spec fn sent_entry_for(e: SentEntry, sid: u64, msg: Seq<u8>, route: Seq<NodeId>) -> bool {
    &&& e.session == sid
    &&& e.fragment < crate::codec::n_fragments(msg.len())
    &&& e.packet.session_id == sid
    &&& e.packet.routing_header.hop_index == 1
    &&& e.packet.routing_header.hops@ == route
    &&& (e.packet.pack_type matches PacketKind::MsgFragment(f) && f.fragment_index == e.fragment
        && f.total_n_fragments == crate::codec::n_fragments(msg.len()) && f.length as int
        == crate::codec::chunk_len(msg.len() as int, e.fragment as int) && f.data@
        == crate::codec::chunk_padded(msg, e.fragment as int))
}

/// The client node: all of its mutable state, owned by the worker that runs
/// the event loop.
pub struct RustbustersClient {
    pub id: NodeId,
    pub controller_send: crossbeam_channel::Sender<Event>,
    pub packet_send: Vec<(NodeId, crossbeam_channel::Sender<Packet>)>,
    pub known_nodes: Vec<Option<NodeKind>>,
    pub topology: Topology,
    pub flood_id_counter: u64,
    pub session_id_counter: u64,
    pub pending_sent: Vec<SentEntry>,
    pub pending_received: Vec<RecvEntry>,
    pub pending_session_info: Vec<SessionInfo>,
    pub edge_stats: Vec<Option<EdgeStats>>,
    pub last_discovery_ms: u64,
    pub discovery_interval_ms: u64,
}

/// Whether some channel is installed toward `id`.
pub open spec fn has_channel(c: RustbustersClient, id: NodeId) -> bool {
    exists|i: int| 0 <= i < c.packet_send@.len() && (#[trigger] c.packet_send@[i]).0 == id
}

/// Whether a fragment of the given session is awaiting acknowledgment.
pub open spec fn sent_has(c: RustbustersClient, session: u64, fragment: u64) -> bool {
    exists|i: int|
        0 <= i < c.pending_sent@.len() && (#[trigger] c.pending_sent@[i]).session == session
            && c.pending_sent@[i].fragment == fragment
}

/// Whether any fragment of the given session is awaiting acknowledgment.
pub open spec fn sent_session_live(c: RustbustersClient, session: u64) -> bool {
    exists|i: int| 0 <= i < c.pending_sent@.len() && (#[trigger] c.pending_sent@[i]).session
        == session
}

/// Whether a reassembly buffer exists for the session.
pub open spec fn recv_has(c: RustbustersClient, session: u64) -> bool {
    exists|i: int| 0 <= i < c.pending_received@.len() && (#[trigger] c.pending_received@[i]).session
        == session
}

/// Whether metadata is held for the session.
pub open spec fn info_has(c: RustbustersClient, session: u64) -> bool {
    exists|i: int|
        0 <= i < c.pending_session_info@.len() && (#[trigger] c.pending_session_info@[i]).session
            == session
}

impl RustbustersClient {
    /// Well-formedness: tables sized by the identifier space, every held
    /// record well formed, and every store keyed at most once.
    pub open spec fn wf(self) -> bool {
        &&& self.known_nodes@.len() == 256
        &&& self.edge_stats@.len() == 65536
        &&& crate::path::bounded_weights(edges_of(self.topology))
        &&& forall|k: int|
            0 <= k < 65536 ==> ((#[trigger] self.edge_stats@[k]) matches Some(s) ==> s.wf())
        &&& forall|i: int, j: int|
            #![trigger self.packet_send@[i], self.packet_send@[j]]
            0 <= i < j < self.packet_send@.len() ==> self.packet_send@[i].0
                != self.packet_send@[j].0
        &&& forall|i: int, j: int|
            #![trigger self.pending_sent@[i], self.pending_sent@[j]]
            0 <= i < j < self.pending_sent@.len() ==> !(self.pending_sent@[i].session
                == self.pending_sent@[j].session && self.pending_sent@[i].fragment
                == self.pending_sent@[j].fragment)
        &&& forall|i: int, j: int|
            #![trigger self.pending_received@[i], self.pending_received@[j]]
            0 <= i < j < self.pending_received@.len() ==> self.pending_received@[i].session
                != self.pending_received@[j].session
        &&& forall|i: int, j: int|
            #![trigger self.pending_session_info@[i], self.pending_session_info@[j]]
            0 <= i < j < self.pending_session_info@.len() ==> self.pending_session_info@[i].session
                != self.pending_session_info@[j].session
        &&& forall|e: int|
            0 <= e < self.pending_received@.len() ==> (#[trigger] self.pending_received@[e]).wf()
    }

    /// A fresh client: empty stores, counters at their arbitrary non-zero
    /// start, and the given neighbor channels installed.
    pub fn new(
        id: NodeId,
        controller_send: crossbeam_channel::Sender<Event>,
        packet_send: Vec<(NodeId, crossbeam_channel::Sender<Packet>)>,
        discovery_interval_ms: Option<u64>,
        now_ms: u64,
    ) -> (r: RustbustersClient)
        requires
            forall|i: int, j: int|
                #![trigger packet_send@[i], packet_send@[j]]
                0 <= i < j < packet_send@.len() ==> packet_send@[i].0 != packet_send@[j].0,
        ensures
            r.wf(),
            r.id == id,
            r.controller_send == controller_send,
            r.packet_send == packet_send,
            r.flood_id_counter == 73,
            r.session_id_counter == 73,
            r.pending_sent@.len() == 0,
            r.pending_received@.len() == 0,
            r.pending_session_info@.len() == 0,
            forall|k: int| 0 <= k < 256 ==> (#[trigger] r.known_nodes@[k]) is None,
            forall|k: int| 0 <= k < 65536 ==> (#[trigger] r.edge_stats@[k]) is None,
            forall|k: (NodeId, NodeId)| !edges_of(r.topology).dom().contains(k),
            r.last_discovery_ms == now_ms,
            r.discovery_interval_ms == match discovery_interval_ms {
                Some(ms) => ms,
                None => 20000u64,
            },
    {
        let mut known_nodes: Vec<Option<NodeKind>> = Vec::new();
        let mut fill: usize = 0;
        while fill < 256
            invariant
                fill <= 256,
                known_nodes@.len() == fill,
                forall|k: int| 0 <= k < fill ==> (#[trigger] known_nodes@[k]) is None,
            decreases 256 - fill,
        {
            known_nodes.push(None);
            fill = fill + 1;
        }
        let mut edge_stats: Vec<Option<EdgeStats>> = Vec::new();
        let mut fill2: usize = 0;
        while fill2 < 65536
            invariant
                fill2 <= 65536,
                edge_stats@.len() == fill2,
                forall|k: int| 0 <= k < fill2 ==> (#[trigger] edge_stats@[k]) is None,
            decreases 65536 - fill2,
        {
            edge_stats.push(None);
            fill2 = fill2 + 1;
        }
        let interval: u64 = match discovery_interval_ms {
            Some(ms) => ms,
            None => 20000,
        };
        RustbustersClient {
            id,
            controller_send,
            packet_send,
            known_nodes,
            topology: Topology::new(),
            flood_id_counter: 73,
            session_id_counter: 73,
            pending_sent: Vec::new(),
            pending_received: Vec::new(),
            pending_session_info: Vec::new(),
            edge_stats,
            last_discovery_ms: now_ms,
            discovery_interval_ms: interval,
        }
    }

    /// Whether the periodic rediscovery is due.
    pub fn should_perform_discovery(&self, now_ms: u64) -> (r: bool)
        ensures
            r == (now_ms >= self.last_discovery_ms && now_ms - self.last_discovery_ms
                >= self.discovery_interval_ms),
    {
        now_ms >= self.last_discovery_ms && now_ms - self.last_discovery_ms
            >= self.discovery_interval_ms
    }

    /// Records that a discovery round ran now; the periodic check measures
    /// from this instant.
    pub fn mark_discovery(&mut self, now_ms: u64)
        requires
            old(self).wf(),
        ensures
            final(self).wf(),
            *final(self) == (RustbustersClient { last_discovery_ms: now_ms, ..*old(self) }),
    {
        self.last_discovery_ms = now_ms;
    }

    /// Hands an event to the simulation controller; the outcome depends on
    /// the controller side and is not recorded.
    pub(crate) fn send_to_sc(&self, event: Event) {
        let _ = send_event_on(&self.controller_send, event);
    }

    /// The channel installed toward `id`, if any.
    pub(crate) fn channel_for(&self, id: NodeId) -> (r: Option<
        &crossbeam_channel::Sender<Packet>,
    >)
        ensures
            r is Some <==> has_channel(*self, id),
    {
        let mut i: usize = 0;
        while i < self.packet_send.len()
            invariant
                i <= self.packet_send@.len(),
                forall|j: int| 0 <= j < i ==> (#[trigger] self.packet_send@[j]).0 != id,
            decreases self.packet_send@.len() - i,
        {
            if self.packet_send[i].0 == id {
                return Some(&self.packet_send[i].1);
            }
            i = i + 1;
        }
        None
    }

    /// The reliability record of the ordered pair, if one exists.
    pub fn edge_stats_at(&self, from: NodeId, to: NodeId) -> (r: Option<EdgeStats>)
        requires
            self.wf(),
        ensures
            r == self.edge_stats@[ek(from, to)],
    {
        let idx: usize = from as usize * 256 + to as usize;
        self.edge_stats[idx]
    }

    /// The record of the ordered pair, created with the default smoothing
    /// factor if the pair had none yet. Returns a copy of the record.
    pub fn get_or_create_edge_stats(&mut self, from: NodeId, to: NodeId) -> (r: EdgeStats)
        requires
            old(self).wf(),
        ensures
            final(self).wf(),
            final(self).edge_stats@ == old(self).edge_stats@.update(
                ek(from, to),
                Some(
                    match old(self).edge_stats@[ek(from, to)] {
                        Some(s) => s,
                        None => fresh_stats(),
                    },
                ),
            ),
            Some(r) == final(self).edge_stats@[ek(from, to)],
            r.wf(),
            *final(self) == (RustbustersClient { edge_stats: final(self).edge_stats, ..*old(self) }),
    {
        let idx: usize = from as usize * 256 + to as usize;
        match self.edge_stats[idx] {
            Some(s) => {
                proof {
                    assert(self.edge_stats@.update(idx as int, Some(s)) =~= self.edge_stats@);
                }
                s
            },
            None => {
                let s = EdgeStats::new(ALPHA_DEFAULT);
                self.edge_stats[idx] = Some(s);
                s
            },
        }
    }

    /// Registers one outcome on the directed edge `(from, to)`: updates the
    /// pair's record and installs the record's new weight on the undirected
    /// topology edge.
    pub fn update_edge_stats(&mut self, from: NodeId, to: NodeId, dropped: bool)
        requires
            old(self).wf(),
        ensures
            final(self).wf(),
            (final(self).edge_stats@, edges_of(final(self).topology)) == one_outcome(
                old(self).edge_stats@,
                edges_of(old(self).topology),
                from,
                to,
                dropped,
            ),
            *final(self) == (RustbustersClient {
                edge_stats: final(self).edge_stats,
                topology: final(self).topology,
                ..*old(self)
            }),
    {
        let idx: usize = from as usize * 256 + to as usize;
        let mut s = match self.edge_stats[idx] {
            Some(s) => s,
            None => EdgeStats::new(ALPHA_DEFAULT),
        };
        s.update(dropped);
        let w = s.get_edge_weight();
        let w = if w > crate::path::WEIGHT_LIMIT {
            crate::path::WEIGHT_LIMIT
        } else {
            w
        };
        self.edge_stats[idx] = Some(s);
        if from != to {
            self.topology.add_edge(from, to, w);
        }
    }

    /// Registers a successful transmission along every consecutive pair of
    /// `path`, starting at position `from`.
    pub fn register_successful_transmission_from(&mut self, path: &Vec<NodeId>, from: usize)
        requires
            old(self).wf(),
        ensures
            final(self).wf(),
            (final(self).edge_stats@, edges_of(final(self).topology)) == path_successes(
                old(self).edge_stats@,
                edges_of(old(self).topology),
                path@,
                from as int,
                path@.len() - 1,
            ),
            *final(self) == (RustbustersClient {
                edge_stats: final(self).edge_stats,
                topology: final(self).topology,
                ..*old(self)
            }),
    {
        let ghost stats0 = self.edge_stats@;
        let ghost edges0 = edges_of(self.topology);
        if path.len() == 0 {
            return;
        }
        let mut k: usize = from;
        while k < path.len() - 1
            invariant
                old(self).wf(),
                self.wf(),
                from <= k,
                path@.len() >= 1,
                k + 1 <= path@.len() || k == from,
                (self.edge_stats@, edges_of(self.topology)) == path_successes(
                    stats0,
                    edges0,
                    path@,
                    from as int,
                    k as int,
                ),
                *self == (RustbustersClient {
                    edge_stats: self.edge_stats,
                    topology: self.topology,
                    ..*old(self)
                }),
            decreases path@.len() - k,
        {
            let u = path[k];
            let v = path[k + 1];
            self.update_edge_stats(u, v, false);
            k = k + 1;
        }
        proof {
            if (path@.len() - 1) < from as int {
                assert(path_successes(stats0, edges0, path@, from as int, path@.len() - 1) == (
                stats0,
                edges0,
                ));
                assert(path_successes(stats0, edges0, path@, from as int, from as int) == (
                stats0,
                edges0,
                ));
            }
        }
    }

    /// Registers a successful transmission along the whole path.
    pub fn register_successful_transmission(&mut self, path: &Vec<NodeId>)
        requires
            old(self).wf(),
        ensures
            final(self).wf(),
            (final(self).edge_stats@, edges_of(final(self).topology)) == path_successes(
                old(self).edge_stats@,
                edges_of(old(self).topology),
                path@,
                0,
                path@.len() - 1,
            ),
            *final(self) == (RustbustersClient {
                edge_stats: final(self).edge_stats,
                topology: final(self).topology,
                ..*old(self)
            }),
    {
        self.register_successful_transmission_from(path, 0);
    }

    /// Penalizes the edge a drop was reported on — the first pair of the
    /// backward trace — and registers the rest of the trace as delivered.
    pub fn update_edge_stats_on_nack(&mut self, nack_path: &Vec<NodeId>)
        requires
            old(self).wf(),
        ensures
            final(self).wf(),
            nack_path@.len() >= 2 ==> {
                let penalized = one_outcome(
                    old(self).edge_stats@,
                    edges_of(old(self).topology),
                    nack_path@[0],
                    nack_path@[1],
                    true,
                );
                (final(self).edge_stats@, edges_of(final(self).topology)) == path_successes(
                    penalized.0,
                    penalized.1,
                    nack_path@,
                    1,
                    nack_path@.len() - 1,
                )
            },
            nack_path@.len() < 2 ==> *final(self) == *old(self),
            *final(self) == (RustbustersClient {
                edge_stats: final(self).edge_stats,
                topology: final(self).topology,
                ..*old(self)
            }),
    {
        if nack_path.len() < 2 {
            return;
        }
        let dropped_from = nack_path[0];
        let dropped_to = nack_path[1];
        self.update_edge_stats(dropped_from, dropped_to, true);
        self.register_successful_transmission_from(nack_path, 1);
    }

    /// The route to `dst`, when one admissible route exists and `dst` is a
    /// recorded server.
    pub fn find_weighted_path(&self, dst: NodeId) -> (r: Option<Vec<NodeId>>)
        requires
            self.wf(),
        ensures
            (r matches Some(p) ==> {
                &&& p@.len() >= 1
                &&& p@[0] == self.id
                &&& p@[p@.len() - 1] == dst
                &&& crate::path::kind_at(self.known_nodes@, dst) == Some(NodeKind::Server)
                &&& crate::path::valid_chain(self.known_nodes@, edges_of(self.topology), p@)
                &&& forall|i: int, j: int|
                    #![trigger p@[i], p@[j]]
                    0 <= i < j < p@.len() ==> p@[i] != p@[j]
            }),
            r is Some <==> (crate::path::reaches(self.known_nodes@, edges_of(self.topology), self.id, dst)
                && crate::path::kind_at(self.known_nodes@, dst) == Some(NodeKind::Server)),
            (r matches Some(p) ==> forall|c: Seq<NodeId>|
                (c.len() >= 1 && c[0] == self.id && c[c.len() - 1] == dst
                    && crate::path::valid_chain(self.known_nodes@, edges_of(self.topology), c))
                    ==> crate::path::chain_weight(edges_of(self.topology), p@)
                    <= #[trigger] crate::path::chain_weight(edges_of(self.topology), c)),
    {
        crate::path::find_weighted_path(self.id, &self.known_nodes, &self.topology, dst)
    }

    /// The kind recorded for a node, if any.
    pub fn get_node_type(&self, node_id: NodeId) -> (r: Option<NodeKind>)
        requires
            self.wf(),
        ensures
            r == crate::path::kind_at(self.known_nodes@, node_id),
    {
        self.known_nodes[node_id as usize]
    }

    /// Every node whose kind is known, with its kind, in identifier order.
    /// The surrounding process mirrors this for the user interface.
    pub fn known_nodes_snapshot(&self) -> (r: Vec<(NodeId, NodeKind)>)
        requires
            self.wf(),
        ensures
            forall|i: int|
                0 <= i < r@.len() ==> self.known_nodes@[(#[trigger] r@[i]).0 as int] == Some(
                    r@[i].1,
                ),
            forall|n: int|
                0 <= n < 256 && self.known_nodes@[n] is Some ==> exists|i: int|
                    0 <= i < r@.len() && (#[trigger] r@[i]).0 == n as NodeId,
    {
        let mut out: Vec<(NodeId, NodeKind)> = Vec::new();
        let mut n: usize = 0;
        while n < 256
            invariant
                n <= 256,
                self.known_nodes@.len() == 256,
                forall|i: int|
                    0 <= i < out@.len() ==> self.known_nodes@[(#[trigger] out@[i]).0 as int] == Some(
                        out@[i].1,
                    ),
                forall|m: int|
                    0 <= m < n && self.known_nodes@[m] is Some ==> exists|i: int|
                        0 <= i < out@.len() && (#[trigger] out@[i]).0 == m as NodeId,
            decreases 256 - n,
        {
            let ghost old_out = out@;
            match self.known_nodes[n] {
                Some(kind) => {
                    out.push((n as NodeId, kind));
                },
                None => {},
            }
            proof {
                assert forall|m: int|
                    0 <= m < n + 1 && self.known_nodes@[m] is Some implies exists|i: int|
                    0 <= i < out@.len() && (#[trigger] out@[i]).0 == m as NodeId by {
                    if m == n && self.known_nodes@[n as int] is Some {
                        assert(out@[out@.len() - 1].0 == n as NodeId);
                    } else {
                        let w = choose|i: int|
                            0 <= i < old_out.len() && (#[trigger] old_out[i]).0 == m as NodeId;
                        assert(out@[w].0 == m as NodeId);
                    }
                }
            }
            n = n + 1;
        }
        out
    }

    /// Counters reported to the controller on request.
    pub fn stats_snapshot(&self) -> (r: Stats)
        requires
            self.wf(),
        ensures
            r.floods_started == self.flood_id_counter,
            r.sessions_started == self.session_id_counter,
            r.known_node_count == count_known(self.known_nodes@),
    {
        let mut known: u64 = 0;
        let mut n: usize = 0;
        while n < 256
            invariant
                self.known_nodes@.len() == 256,
                n <= 256,
                known <= n,
                known == count_known(self.known_nodes@.take(n as int)),
            decreases 256 - n,
        {
            proof {
                assert(self.known_nodes@.take(n + 1).drop_last() =~= self.known_nodes@.take(
                    n as int,
                ));
            }
            match self.known_nodes[n] {
                Some(_) => {
                    known = known + 1;
                },
                None => {},
            }
            n = n + 1;
        }
        proof {
            assert(self.known_nodes@.take(256) =~= self.known_nodes@);
        }
        Stats {
            floods_started: self.flood_id_counter,
            sessions_started: self.session_id_counter,
            known_node_count: known,
        }
    }
}

/// What one consecutive pair of a flood trace teaches: both nodes' kinds,
/// and the undirected edge between them at the base weight.
pub open spec fn absorb_step(
    kinds: Seq<Option<NodeKind>>,
    edges: Map<(NodeId, NodeId), u64>,
    a: (NodeId, NodeKind),
    b: (NodeId, NodeKind),
) -> (Seq<Option<NodeKind>>, Map<(NodeId, NodeId), u64>) {
    let k2 = kinds.update(a.0 as int, Some(a.1)).update(b.0 as int, Some(b.1));
    let e2 = if a.0 != b.0 {
        edges.insert((a.0, b.0), BASE_WEIGHT).insert((b.0, a.0), BASE_WEIGHT)
    } else {
        edges
    };
    (k2, e2)
}

/// A flood trace absorbed pair by pair, up to `trace[k]`.
pub open spec fn absorb_fold(
    kinds: Seq<Option<NodeKind>>,
    edges: Map<(NodeId, NodeId), u64>,
    trace: Seq<(NodeId, NodeKind)>,
    k: int,
) -> (Seq<Option<NodeKind>>, Map<(NodeId, NodeId), u64>)
    decreases k,
{
    if k <= 0 {
        (kinds, edges)
    } else {
        let p = absorb_fold(kinds, edges, trace, k - 1);
        absorb_step(p.0, p.1, trace[k - 1], trace[k])
    }
}

/// A trace that does not contradict itself: every occurrence of a node
/// carries the same kind.
pub open spec fn trace_consistent(trace: Seq<(NodeId, NodeKind)>) -> bool {
    forall|i: int, j: int|
        #![trigger trace[i], trace[j]]
        0 <= i < trace.len() && 0 <= j < trace.len() && trace[i].0 == trace[j].0 ==> trace[i].1
            == trace[j].1
}

/// A state that already holds everything the first `k` pairs of a trace
/// teach: both nodes' kinds, and both orientations of each distinct pair's
/// edge at the base weight.
pub open spec fn holds_teachings(
    kinds: Seq<Option<NodeKind>>,
    edges: Map<(NodeId, NodeId), u64>,
    trace: Seq<(NodeId, NodeKind)>,
    k: int,
) -> bool {
    &&& forall|i: int|
        1 <= i <= k < trace.len() ==> kinds[(#[trigger] trace[i]).0 as int] == Some(trace[i].1)
            && kinds[trace[i - 1].0 as int] == Some(trace[i - 1].1)
    &&& forall|i: int|
        1 <= i <= k < trace.len() && (#[trigger] trace[i]).0 != trace[i - 1].0 ==> {
            &&& edges.dom().contains((trace[i - 1].0, trace[i].0))
            &&& edges[(trace[i - 1].0, trace[i].0)] == BASE_WEIGHT
            &&& edges.dom().contains((trace[i].0, trace[i - 1].0))
            &&& edges[(trace[i].0, trace[i - 1].0)] == BASE_WEIGHT
        }
}

/// Absorbing a consistent trace leaves a state that holds everything the
/// trace teaches.
#[verifier::rlimit(60)]
proof fn lemma_absorb_teaches(
    kinds: Seq<Option<NodeKind>>,
    edges: Map<(NodeId, NodeId), u64>,
    trace: Seq<(NodeId, NodeKind)>,
    k: int,
)
    requires
        kinds.len() == 256,
        trace_consistent(trace),
        k < trace.len(),
    ensures
        absorb_fold(kinds, edges, trace, k).0.len() == 256,
        holds_teachings(
            absorb_fold(kinds, edges, trace, k).0,
            absorb_fold(kinds, edges, trace, k).1,
            trace,
            k,
        ),
    decreases k + 1,
{
    if k > 0 {
        lemma_absorb_teaches(kinds, edges, trace, k - 1);
        let p = absorb_fold(kinds, edges, trace, k - 1);
        let a = trace[k - 1];
        let b = trace[k];
        let nk = p.0.update(a.0 as int, Some(a.1)).update(b.0 as int, Some(b.1));
        let q = absorb_fold(kinds, edges, trace, k);
        assert(q.0 == nk);
        assert forall|i: int|
            1 <= i <= k < trace.len() implies nk[(#[trigger] trace[i]).0 as int] == Some(
            trace[i].1,
        ) && nk[trace[i - 1].0 as int] == Some(trace[i - 1].1) by {
            if i < k {
                assert(p.0[trace[i].0 as int] == Some(trace[i].1));
                assert(p.0[trace[i - 1].0 as int] == Some(trace[i - 1].1));
                if trace[i].0 == a.0 {
                    assert(trace[i].1 == a.1);
                }
                if trace[i].0 == b.0 {
                    assert(trace[i].1 == b.1);
                }
                if trace[i - 1].0 == a.0 {
                    assert(trace[i - 1].1 == a.1);
                }
                if trace[i - 1].0 == b.0 {
                    assert(trace[i - 1].1 == b.1);
                }
            } else {
                if a.0 == b.0 {
                    assert(a.1 == b.1);
                }
            }
        }
        assert forall|i: int|
            1 <= i <= k < trace.len() && (#[trigger] trace[i]).0 != trace[i - 1].0 implies {
            &&& q.1.dom().contains((trace[i - 1].0, trace[i].0))
            &&& q.1[(trace[i - 1].0, trace[i].0)] == BASE_WEIGHT
            &&& q.1.dom().contains((trace[i].0, trace[i - 1].0))
            &&& q.1[(trace[i].0, trace[i - 1].0)] == BASE_WEIGHT
        } by {
            if i < k {
                assert(p.1.dom().contains((trace[i - 1].0, trace[i].0)));
                assert(p.1.dom().contains((trace[i].0, trace[i - 1].0)));
            }
        }
    }
}

/// A state that already holds everything a trace teaches is a fixed point
/// of absorbing it.
proof fn lemma_absorb_stable(
    kinds: Seq<Option<NodeKind>>,
    edges: Map<(NodeId, NodeId), u64>,
    trace: Seq<(NodeId, NodeKind)>,
    k: int,
)
    requires
        kinds.len() == 256,
        holds_teachings(kinds, edges, trace, k),
        k < trace.len(),
    ensures
        absorb_fold(kinds, edges, trace, k) == (kinds, edges),
    decreases k + 1,
{
    if k > 0 {
        lemma_absorb_stable(kinds, edges, trace, k - 1);
        let a = trace[k - 1];
        let b = trace[k];
        assert(kinds.update(a.0 as int, Some(a.1)) =~= kinds);
        assert(kinds.update(a.0 as int, Some(a.1)).update(b.0 as int, Some(b.1)) =~= kinds);
        if a.0 != b.0 {
            assert(edges.insert((a.0, b.0), BASE_WEIGHT).insert((b.0, a.0), BASE_WEIGHT) =~= edges);
        }
    }
}

/// Discovery is idempotent: absorbing a flood trace a second time changes
/// nothing, as long as the trace does not contradict itself about a node's
/// kind. The topology reaches its fixed point after the first absorption.
pub proof fn lemma_absorb_idempotent(
    kinds: Seq<Option<NodeKind>>,
    edges: Map<(NodeId, NodeId), u64>,
    trace: Seq<(NodeId, NodeKind)>,
)
    requires
        kinds.len() == 256,
        trace_consistent(trace),
    ensures
        ({
            let once = absorb_fold(kinds, edges, trace, trace.len() - 1);
            absorb_fold(once.0, once.1, trace, trace.len() - 1) == once
        }),
{
    let k = trace.len() - 1;
    lemma_absorb_teaches(kinds, edges, trace, k);
    let once = absorb_fold(kinds, edges, trace, k);
    lemma_absorb_stable(once.0, once.1, trace, k);
}

/// A byte-for-byte copy.
pub(crate) fn clone_bytes(v: &Vec<u8>) -> (r: Vec<u8>)
    ensures
        r@ == v@,
{
    let mut out: Vec<u8> = Vec::new();
    let mut i: usize = 0;
    while i < v.len()
        invariant
            i <= v@.len(),
            out@ == v@.subrange(0, i as int),
        decreases v@.len() - i,
    {
        out.push(v[i]);
        proof {
            assert(out@ =~= v@.subrange(0, i + 1));
        }
        i = i + 1;
    }
    proof {
        assert(out@ =~= v@);
    }
    out
}

/// An element-for-element copy of a hop list.
pub(crate) fn clone_ids(v: &Vec<NodeId>) -> (r: Vec<NodeId>)
    ensures
        r@ == v@,
{
    let mut out: Vec<NodeId> = Vec::new();
    let mut i: usize = 0;
    while i < v.len()
        invariant
            i <= v@.len(),
            out@ == v@.subrange(0, i as int),
        decreases v@.len() - i,
    {
        out.push(v[i]);
        proof {
            assert(out@ =~= v@.subrange(0, i + 1));
        }
        i = i + 1;
    }
    proof {
        assert(out@ =~= v@);
    }
    out
}

/// An element-for-element copy of a flood trace.
pub(crate) fn clone_trace(v: &Vec<(NodeId, NodeKind)>) -> (r: Vec<(NodeId, NodeKind)>)
    ensures
        r@ == v@,
{
    let mut out: Vec<(NodeId, NodeKind)> = Vec::new();
    let mut i: usize = 0;
    while i < v.len()
        invariant
            i <= v@.len(),
            out@ == v@.subrange(0, i as int),
        decreases v@.len() - i,
    {
        out.push(v[i]);
        proof {
            assert(out@ =~= v@.subrange(0, i + 1));
        }
        i = i + 1;
    }
    proof {
        assert(out@ =~= v@);
    }
    out
}

/// A field-for-field copy of a fragment.
pub(crate) fn clone_fragment(f: &Fragment) -> (r: Fragment)
    ensures
        r.fragment_index == f.fragment_index,
        r.total_n_fragments == f.total_n_fragments,
        r.length == f.length,
        r.data@ == f.data@,
{
    Fragment {
        fragment_index: f.fragment_index,
        total_n_fragments: f.total_n_fragments,
        length: f.length,
        data: clone_bytes(&f.data),
    }
}

/// Whether two hop lists are the same route.
pub(crate) fn routes_equal(a: &Vec<NodeId>, b: &Vec<NodeId>) -> (r: bool)
    ensures
        r == (a@ =~= b@),
{
    if a.len() != b.len() {
        return false;
    }
    let mut i: usize = 0;
    while i < a.len()
        invariant
            a@.len() == b@.len(),
            i <= a@.len(),
            forall|j: int| 0 <= j < i ==> a@[j] == b@[j],
        decreases a@.len() - i,
    {
        if a[i] != b[i] {
            return false;
        }
        i = i + 1;
    }
    proof {
        assert(a@ =~= b@);
    }
    true
}

impl RustbustersClient {
    /// Position of the session's reassembly buffer in the store, if any.
    pub(crate) fn find_recv_index(&self, session: u64) -> (r: Option<usize>)
        ensures
            (r matches Some(i) ==> i < self.pending_received@.len()
                && self.pending_received@[i as int].session == session),
            r is None ==> !recv_has(*self, session),
    {
        let n = self.pending_received.len();
        let mut idx: usize = 0;
        while idx < n
            invariant
                n == self.pending_received@.len(),
                idx <= n,
                forall|j: int| 0 <= j < idx ==> (#[trigger] self.pending_received@[j]).session
                    != session,
            decreases n - idx,
        {
            if self.pending_received[idx].session == session {
                return Some(idx);
            }
            idx = idx + 1;
        }
        None
    }

    /// The discovery packet this client broadcasts: a flood request carrying
    /// the given flood identifier, this client as initiator, and a trace
    /// holding just itself. The routing header is empty; flood requests do
    /// not use it.
    fn make_flood_request(&self, flood_id: u64) -> (p: Packet)
        ensures
            p.session_id == 0,
            p.routing_header.hop_index == 0,
            p.routing_header.hops@.len() == 0,
            (p.pack_type matches PacketKind::FloodRequest(fr) && fr.flood_id == flood_id
                && fr.initiator_id == self.id && fr.path_trace@.len() == 1 && fr.path_trace@[0]
                == (self.id, NodeKind::Client)),
    {
        let mut trace: Vec<(NodeId, NodeKind)> = Vec::new();
        trace.push((self.id, NodeKind::Client));
        Packet {
            pack_type: PacketKind::FloodRequest(
                FloodRequest { flood_id, initiator_id: self.id, path_trace: trace },
            ),
            routing_header: RoutingHeader { hop_index: 0, hops: Vec::new() },
            session_id: 0,
        }
    }

    /// Originates a discovery flood: takes the next flood identifier and
    /// hands the flood request built by `make_flood_request` to every
    /// installed neighbor channel. A refused channel is skipped; the
    /// broadcast goes on.
    pub fn discover_network(&mut self)
        requires
            old(self).wf(),
        ensures
            final(self).wf(),
            final(self).flood_id_counter == crate::edge_stats::sat_inc(old(self).flood_id_counter),
            *final(self) == (RustbustersClient {
                flood_id_counter: final(self).flood_id_counter,
                ..*old(self)
            }),
    {
        self.flood_id_counter = self.flood_id_counter.saturating_add(1);
        let flood_id = self.flood_id_counter;
        let mut i: usize = 0;
        while i < self.packet_send.len()
            invariant
                self.wf(),
                i <= self.packet_send@.len(),
                *self == (RustbustersClient {
                    flood_id_counter: self.flood_id_counter,
                    ..*old(self)
                }),
                self.flood_id_counter == crate::edge_stats::sat_inc(old(self).flood_id_counter),
            decreases self.packet_send@.len() - i,
        {
            let packet = self.make_flood_request(flood_id);
            let _ = send_packet_on(&self.packet_send[i].1, packet);
            i = i + 1;
        }
    }

    /// Absorbs a flood response: walks the trace pair by pair, records both
    /// nodes' kinds and installs each undirected edge at the base weight.
    pub fn handle_flood_response(&mut self, flood_response: &FloodResponse)
        requires
            old(self).wf(),
        ensures
            final(self).wf(),
            (final(self).known_nodes@, edges_of(final(self).topology)) == absorb_fold(
                old(self).known_nodes@,
                edges_of(old(self).topology),
                flood_response.path_trace@,
                flood_response.path_trace@.len() - 1,
            ),
            *final(self) == (RustbustersClient {
                known_nodes: final(self).known_nodes,
                topology: final(self).topology,
                ..*old(self)
            }),
    {
        let ghost kinds0 = self.known_nodes@;
        let ghost edges0 = edges_of(self.topology);
        let n = flood_response.path_trace.len();
        if n == 0 {
            return;
        }
        let mut k: usize = 1;
        while k < n
            invariant
                self.wf(),
                1 <= k <= n || n == 0,
                n == flood_response.path_trace@.len(),
                (self.known_nodes@, edges_of(self.topology)) == absorb_fold(
                    kinds0,
                    edges0,
                    flood_response.path_trace@,
                    k - 1,
                ),
                *self == (RustbustersClient {
                    known_nodes: self.known_nodes,
                    topology: self.topology,
                    ..*old(self)
                }),
            decreases n - k,
        {
            let a = flood_response.path_trace[k - 1];
            let b = flood_response.path_trace[k];
            self.known_nodes[a.0 as usize] = Some(a.1);
            self.known_nodes[b.0 as usize] = Some(b.1);
            if a.0 != b.0 {
                self.topology.add_edge(a.0, b.0, BASE_WEIGHT);
            }
            k = k + 1;
        }
    }

    /// The answer to a flood request: a flood response carrying the given
    /// trace, routed back along the trace's node identifiers in reverse, so
    /// that this client stands first and the next hop second.
    fn build_flood_response(
        &self,
        flood_id: u64,
        session_id: u64,
        trace: Vec<(NodeId, NodeKind)>,
    ) -> (p: Packet)
        ensures
            p.session_id == session_id,
            p.routing_header.hop_index == 1,
            p.routing_header.hops@.len() == trace@.len(),
            forall|q: int|
                0 <= q < p.routing_header.hops@.len() ==> #[trigger] p.routing_header.hops@[q]
                    == trace@[trace@.len() - 1 - q].0,
            (p.pack_type matches PacketKind::FloodResponse(resp) && resp.flood_id == flood_id
                && resp.path_trace@ == trace@),
    {
        let mut hops: Vec<NodeId> = Vec::new();
        let mut t: usize = trace.len();
        while t > 0
            invariant
                t <= trace@.len(),
                hops@.len() == trace@.len() - t,
                forall|q: int|
                    0 <= q < hops@.len() ==> #[trigger] hops@[q] == trace@[trace@.len() - 1 - q].0,
            decreases t,
        {
            t = t - 1;
            hops.push(trace[t].0);
        }
        Packet {
            pack_type: PacketKind::FloodResponse(
                FloodResponse { flood_id, path_trace: trace },
            ),
            routing_header: RoutingHeader { hop_index: 1, hops },
            session_id,
        }
    }

    /// Answers a flood request: appends this client to the trace and sends
    /// the response built by `build_flood_response` back along the reversed
    /// trace. A request that this
    /// client itself originated is absorbed locally instead, and nothing is
    /// sent. When the next hop's channel is missing or refuses the packet,
    /// the response goes to the controller as a shortcut.
    pub fn handle_flood_request(&mut self, flood_request: &FloodRequest, session_id: u64)
        requires
            old(self).wf(),
        ensures
            final(self).wf(),
            flood_request.initiator_id == old(self).id ==> {
                let ext = flood_request.path_trace@.push((old(self).id, NodeKind::Client));
                (final(self).known_nodes@, edges_of(final(self).topology)) == absorb_fold(
                    old(self).known_nodes@,
                    edges_of(old(self).topology),
                    ext,
                    ext.len() - 1,
                )
            },
            flood_request.initiator_id != old(self).id ==> *final(self) == *old(self),
            *final(self) == (RustbustersClient {
                known_nodes: final(self).known_nodes,
                topology: final(self).topology,
                ..*old(self)
            }),
    {
        let mut new_trace = clone_trace(&flood_request.path_trace);
        new_trace.push((self.id, NodeKind::Client));

        if flood_request.initiator_id == self.id {
            let response = FloodResponse { flood_id: flood_request.flood_id, path_trace: new_trace };
            self.handle_flood_response(&response);
            return;
        }

        let response_packet = self.build_flood_response(
            flood_request.flood_id,
            session_id,
            new_trace,
        );
        if response_packet.routing_header.hops.len() >= 2 {
            let next = response_packet.routing_header.hops[1];
            match self.channel_for(next) {
                Some(ch) => {
                    if !send_packet_on(ch, response_packet.clone()) {
                        self.send_to_sc(Event::ControllerShortcut(response_packet));
                    }
                },
                None => {
                    self.send_to_sc(Event::ControllerShortcut(response_packet));
                },
            }
        } else {
            self.send_to_sc(Event::ControllerShortcut(response_packet));
        }
    }

    /// Stores an arriving fragment in its session's reassembly buffer,
    /// allocating the buffer on the first fragment. A slot that is already
    /// filled is left alone, so duplicates are not counted twice; a
    /// fragment whose shape is wrong (payload not exactly the fixed size,
    /// or position out of range) is ignored. Returns whether the session is
    /// now complete.
    pub fn set_pending(&mut self, session_id: u64, fragment: Fragment) -> (complete: bool)
        requires
            old(self).wf(),
        ensures
            final(self).wf(),
            *final(self) == (RustbustersClient {
                pending_received: final(self).pending_received,
                ..*old(self)
            }),
            !fragment_shape_ok(fragment) ==> *final(self) == *old(self) && !complete,
            fragment_shape_ok(fragment) && !recv_has(*old(self), session_id) ==> {
                &&& final(self).pending_received@.len() == old(self).pending_received@.len() + 1
                &&& final(self).pending_received@.subrange(
                    0,
                    old(self).pending_received@.len() as int,
                ) == old(self).pending_received@
                &&& final(self).pending_received@.last().session == session_id
                &&& final(self).pending_received@.last().slots@.len()
                    == fragment.total_n_fragments
                &&& final(self).pending_received@.last().slots@[fragment.fragment_index as int]
                    == Some(fragment)
                &&& final(self).pending_received@.last().received == 1
                &&& forall|j: int|
                    0 <= j < final(self).pending_received@.last().slots@.len() && j
                        != fragment.fragment_index as int ==> (#[trigger] final(self).pending_received@.last().slots@[j]) is None
            },
            fragment_shape_ok(fragment) && recv_has(*old(self), session_id) ==> exists|i: int|
                0 <= i < old(self).pending_received@.len() && (#[trigger] old(self).pending_received@[i]).session == session_id && final(self).pending_received@.len() == old(self).pending_received@.len() && final(self).pending_received@.subrange(0, old(self).pending_received@.len() - 1) == old(self).pending_received@.remove(i) && stored_slot(
                    old(self).pending_received@[i],
                    final(self).pending_received@.last(),
                    fragment,
                ),
            complete <==> (fragment_shape_ok(fragment) && final(self).pending_received@.len() >= 1
                && final(self).pending_received@.last().session == session_id && final(self).pending_received@.last().received == final(self).pending_received@.last().slots@.len()),
    {
        if fragment.data.len() != FRAGMENT_DSIZE || fragment.length as usize > FRAGMENT_DSIZE {
            return false;
        }
        if fragment.fragment_index >= fragment.total_n_fragments {
            return false;
        }

        let found = self.find_recv_index(session_id);

        let mut entry: RecvEntry = if let Some(idx) = found {
            let ghost fidx = idx as int;
            let e = self.pending_received.remove(idx);
            proof {
                assert forall|a: int, b: int|
                    #![trigger self.pending_received@[a], self.pending_received@[b]]
                    0 <= a < b < self.pending_received@.len() implies self.pending_received@[a].session
                    != self.pending_received@[b].session by {
                    if a < fidx {
                        assert(self.pending_received@[a] == old(self).pending_received@[a]);
                    } else {
                        assert(self.pending_received@[a] == old(self).pending_received@[a + 1]);
                    }
                    if b < fidx {
                        assert(self.pending_received@[b] == old(self).pending_received@[b]);
                    } else {
                        assert(self.pending_received@[b] == old(self).pending_received@[b + 1]);
                    }
                }
            }
            e
        } else {
            let mut slots: Vec<Option<Fragment>> = Vec::new();
            let total = fragment.total_n_fragments;
            let mut m: u64 = 0;
            while m < total
                invariant
                    m <= total,
                    slots@.len() == m,
                    forall|j: int| 0 <= j < m ==> (#[trigger] slots@[j]) is None,
                decreases total - m,
            {
                slots.push(None);
                m = m + 1;
            }
            proof {
                lemma_count_some_none(slots@);
            }
            RecvEntry { session: session_id, slots, received: 0 }
        };

        if fragment.fragment_index < entry.slots.len() as u64 {
            let fi = fragment.fragment_index as usize;
            let is_empty = match &entry.slots[fi] {
                None => true,
                Some(_) => false,
            };
            if is_empty {
                proof {
                    lemma_count_some_le(entry.slots@);
                    if entry.received == entry.slots@.len() {
                        lemma_count_some_full(entry.slots@);
                        assert(entry.slots@[fi as int] is Some);
                    }
                    lemma_count_some_update(
                        entry.slots@,
                        fi as int,
                        Fragment {
                            fragment_index: fragment.fragment_index,
                            total_n_fragments: fragment.total_n_fragments,
                            length: fragment.length,
                            data: fragment.data,
                        },
                    );
                }
                let received = entry.received;
                entry.slots[fi] = Some(fragment);
                entry.received = received + 1;
            }
        }
        let complete = entry.received == entry.slots.len() as u64;
        let ghost mid = self.pending_received@;
        self.pending_received.push(entry);
        proof {
            assert(self.pending_received@.last().session == session_id);
            assert(self.pending_received@.subrange(0, mid.len() as int) =~= mid);
        }
        complete
    }

    /// Takes the session's reassembly buffer out of the store and rebuilds
    /// the message bytes from it. Fails when no buffer exists for the
    /// session or when a fragment is still missing; either way the buffer,
    /// if it existed, is discarded.
    pub fn reassemble_fragments(&mut self, session_id: u64) -> (r: Result<Vec<u8>, ReassemblyError>)
        requires
            old(self).wf(),
        ensures
            final(self).wf(),
            *final(self) == (RustbustersClient {
                pending_received: final(self).pending_received,
                ..*old(self)
            }),
            !recv_has(*final(self), session_id),
            (r matches Err(e) && e == ReassemblyError::UnknownSession) <==> !recv_has(
                *old(self),
                session_id,
            ),
            !recv_has(*old(self), session_id) ==> *final(self) == *old(self),
            recv_has(*old(self), session_id) ==> exists|i: int|
                0 <= i < old(self).pending_received@.len() && (#[trigger] old(self).pending_received@[i]).session == session_id && final(self).pending_received@ == old(self).pending_received@.remove(i) && (r matches Ok(v)
                    ==> v@ == assembled(old(self).pending_received@[i].slots@)) && ((r is Ok)
                    <==> (forall|j: int|
                    0 <= j < old(self).pending_received@[i].slots@.len() ==> !((#[trigger] old(self).pending_received@[i].slots@[j]) is None))) && (r matches Err(e) ==> e
                    == ReassemblyError::MissingFragment || !recv_has(*old(self), session_id)),
    {
        let idx = match self.find_recv_index(session_id) {
            Some(i) => i,
            None => {
                return Err(ReassemblyError::UnknownSession);
            },
        };
        let ghost found = idx as int;
        let entry = self.pending_received.remove(idx);
        proof {
            assert(entry == old(self).pending_received@[found]);
            assert forall|a: int, b: int|
                #![trigger self.pending_received@[a], self.pending_received@[b]]
                0 <= a < b < self.pending_received@.len() implies self.pending_received@[a].session
                != self.pending_received@[b].session by {
                if a < found {
                    assert(self.pending_received@[a] == old(self).pending_received@[a]);
                } else {
                    assert(self.pending_received@[a] == old(self).pending_received@[a + 1]);
                }
                if b < found {
                    assert(self.pending_received@[b] == old(self).pending_received@[b]);
                } else {
                    assert(self.pending_received@[b] == old(self).pending_received@[b + 1]);
                }
            }
            assert forall|j: int| 0 <= j < self.pending_received@.len() implies (#[trigger]
            self.pending_received@[j]).session != session_id by {
                if j < found {
                    assert(self.pending_received@[j] == old(self).pending_received@[j]);
                } else {
                    assert(self.pending_received@[j] == old(self).pending_received@[j + 1]);
                }
            }
        }
        match crate::codec::assemble_payload(&entry.slots) {
            Some(bytes) => Ok(bytes),
            None => Err(ReassemblyError::MissingFragment),
        }
    }
}

/// An all-empty buffer has no filled slot.
pub proof fn lemma_count_some_none(s: Seq<Option<Fragment>>)
    requires
        forall|j: int| 0 <= j < s.len() ==> (#[trigger] s[j]) is None,
    ensures
        count_some(s) == 0,
    decreases s.len(),
{
    if s.len() > 0 {
        lemma_count_some_none(s.drop_last());
    }
}

/// Commands the simulation controller can issue. A command that asks for a
/// synthesized message is turned into a plain `send_message` call by the
/// surrounding process, which owns the randomness and the clock.
pub enum Command {
    DiscoverNetwork,
    AddSender(NodeId, crossbeam_channel::Sender<Packet>),
    RemoveSender(NodeId),
    StatsRequest,
}

impl RustbustersClient {
    /// Position of the pending-sent entry for the fragment, if any.
    pub(crate) fn find_sent_index(&self, session: u64, fragment: u64) -> (r: Option<usize>)
        ensures
            (r matches Some(i) ==> i < self.pending_sent@.len()
                && self.pending_sent@[i as int].session == session
                && self.pending_sent@[i as int].fragment == fragment),
            r is None ==> !sent_has(*self, session, fragment),
    {
        let n = self.pending_sent.len();
        let mut idx: usize = 0;
        while idx < n
            invariant
                n == self.pending_sent@.len(),
                idx <= n,
                forall|j: int|
                    0 <= j < idx ==> !((#[trigger] self.pending_sent@[j]).session == session
                        && self.pending_sent@[j].fragment == fragment),
            decreases n - idx,
        {
            if self.pending_sent[idx].session == session && self.pending_sent[idx].fragment
                == fragment {
                return Some(idx);
            }
            idx = idx + 1;
        }
        None
    }

    /// Whether any fragment of the session still awaits acknowledgment.
    pub(crate) fn sent_session_live_exec(&self, session: u64) -> (r: bool)
        ensures
            r == sent_session_live(*self, session),
    {
        let n = self.pending_sent.len();
        let mut idx: usize = 0;
        while idx < n
            invariant
                n == self.pending_sent@.len(),
                idx <= n,
                forall|j: int| 0 <= j < idx ==> (#[trigger] self.pending_sent@[j]).session
                    != session,
            decreases n - idx,
        {
            if self.pending_sent[idx].session == session {
                return true;
            }
            idx = idx + 1;
        }
        false
    }

    /// Position of the session's metadata, if any.
    pub(crate) fn find_info_index(&self, session: u64) -> (r: Option<usize>)
        ensures
            (r matches Some(i) ==> i < self.pending_session_info@.len()
                && self.pending_session_info@[i as int].session == session),
            r is None ==> !info_has(*self, session),
    {
        let n = self.pending_session_info.len();
        let mut idx: usize = 0;
        while idx < n
            invariant
                n == self.pending_session_info@.len(),
                idx <= n,
                forall|j: int| 0 <= j < idx ==> (#[trigger] self.pending_session_info@[j]).session
                    != session,
            decreases n - idx,
        {
            if self.pending_session_info[idx].session == session {
                return Some(idx);
            }
            idx = idx + 1;
        }
        None
    }

    /// Position of the channel entry toward `id`, if any.
    pub(crate) fn find_channel_index(&self, id: NodeId) -> (r: Option<usize>)
        ensures
            (r matches Some(i) ==> i < self.packet_send@.len() && self.packet_send@[i as int].0
                == id),
            r is None ==> !has_channel(*self, id),
    {
        let n = self.packet_send.len();
        let mut idx: usize = 0;
        while idx < n
            invariant
                n == self.packet_send@.len(),
                idx <= n,
                forall|j: int| 0 <= j < idx ==> (#[trigger] self.packet_send@[j]).0 != id,
            decreases n - idx,
        {
            if self.packet_send[idx].0 == id {
                return Some(idx);
            }
            idx = idx + 1;
        }
        None
    }

    /// Remembers an outbound fragment for acknowledgment tracking. A key
    /// that is already tracked is left as it is.
    pub(crate) fn record_pending_sent(&mut self, session: u64, fragment: u64, packet: Packet)
        requires
            old(self).wf(),
        ensures
            final(self).wf(),
            *final(self) == (RustbustersClient {
                pending_sent: final(self).pending_sent,
                ..*old(self)
            }),
            sent_has(*final(self), session, fragment),
            final(self).pending_sent@ == old(self).pending_sent@ || (
            final(self).pending_sent@.len() == old(self).pending_sent@.len() + 1
                && final(self).pending_sent@.subrange(0, old(self).pending_sent@.len() as int)
                == old(self).pending_sent@ && final(self).pending_sent@[old(self).pending_sent@.len() as int].session == session && final(self).pending_sent@[old(self).pending_sent@.len() as int].fragment == fragment && final(self).pending_sent@[old(self).pending_sent@.len() as int].packet == packet),
    {
        match self.find_sent_index(session, fragment) {
            Some(_) => {},
            None => {
                self.pending_sent.push(SentEntry { session, fragment, packet });
                proof {
                    assert(self.pending_sent@.subrange(0, old(self).pending_sent@.len() as int)
                        =~= old(self).pending_sent@);
                    assert forall|a: int, b: int|
                        #![trigger self.pending_sent@[a], self.pending_sent@[b]]
                        0 <= a < b < self.pending_sent@.len() implies !(self.pending_sent@[a].session
                        == self.pending_sent@[b].session && self.pending_sent@[a].fragment
                        == self.pending_sent@[b].fragment) by {
                        if b == self.pending_sent@.len() - 1 {
                            assert(self.pending_sent@[a] == old(self).pending_sent@[a]);
                        } else {
                            assert(self.pending_sent@[a] == old(self).pending_sent@[a]);
                            assert(self.pending_sent@[b] == old(self).pending_sent@[b]);
                        }
                    }
                }
            },
        }
    }

    /// Sets or replaces the session's metadata.
    pub(crate) fn upsert_session_info(
        &mut self,
        session: u64,
        destination: NodeId,
        message: Vec<u8>,
        now_ms: u64,
    )
        requires
            old(self).wf(),
        ensures
            final(self).wf(),
            *final(self) == (RustbustersClient {
                pending_session_info: final(self).pending_session_info,
                ..*old(self)
            }),
            info_has(*final(self), session),
            final(self).pending_session_info@.len() >= 1,
            final(self).pending_session_info@.last() == (SessionInfo {
                session,
                destination,
                message,
                started_ms: now_ms,
            }),
    {
        match self.find_info_index(session) {
            Some(i) => {
                let ghost found = i as int;
                let _ = self.pending_session_info.remove(i);
                proof {
                    assert forall|a: int, b: int|
                        #![trigger self.pending_session_info@[a], self.pending_session_info@[b]]
                        0 <= a < b < self.pending_session_info@.len() implies self.pending_session_info@[a].session
                        != self.pending_session_info@[b].session by {
                        if a < found {
                            assert(self.pending_session_info@[a] == old(self).pending_session_info@[a]);
                        } else {
                            assert(self.pending_session_info@[a] == old(self).pending_session_info@[a + 1]);
                        }
                        if b < found {
                            assert(self.pending_session_info@[b] == old(self).pending_session_info@[b]);
                        } else {
                            assert(self.pending_session_info@[b] == old(self).pending_session_info@[b + 1]);
                        }
                    }
                    assert forall|j: int|
                        0 <= j < self.pending_session_info@.len() implies (#[trigger]
                    self.pending_session_info@[j]).session != session by {
                        if j < found {
                            assert(self.pending_session_info@[j] == old(self).pending_session_info@[j]);
                        } else {
                            assert(self.pending_session_info@[j] == old(self).pending_session_info@[j + 1]);
                        }
                    }
                }
                let ghost mid = self.pending_session_info@;
                self.pending_session_info.push(
                    SessionInfo { session, destination, message, started_ms: now_ms },
                );
                proof {
                    assert forall|a: int, b: int|
                        #![trigger self.pending_session_info@[a], self.pending_session_info@[b]]
                        0 <= a < b < self.pending_session_info@.len() implies self.pending_session_info@[a].session
                        != self.pending_session_info@[b].session by {
                        if b < self.pending_session_info@.len() - 1 {
                            assert(self.pending_session_info@[a] == mid[a]);
                            assert(self.pending_session_info@[b] == mid[b]);
                        } else {
                            assert(self.pending_session_info@[a] == mid[a]);
                        }
                    }
                    assert(self.pending_session_info@[self.pending_session_info@.len() - 1].session
                        == session);
                }
            },
            None => {
                self.pending_session_info.push(
                    SessionInfo { session, destination, message, started_ms: now_ms },
                );
                proof {
                    assert forall|a: int, b: int|
                        #![trigger self.pending_session_info@[a], self.pending_session_info@[b]]
                        0 <= a < b < self.pending_session_info@.len() implies self.pending_session_info@[a].session
                        != self.pending_session_info@[b].session by {
                        if b == self.pending_session_info@.len() - 1 {
                            assert(self.pending_session_info@[a] == old(self).pending_session_info@[a]);
                        } else {
                            assert(self.pending_session_info@[a] == old(self).pending_session_info@[a]);
                            assert(self.pending_session_info@[b] == old(self).pending_session_info@[b]);
                        }
                    }
                    assert(self.pending_session_info@[self.pending_session_info@.len() - 1].session
                        == session);
                }
            },
        }
    }

    /// Processes an acknowledgment: forgets the acknowledged fragment,
    /// credits every edge of the stored route with a delivery, and, when
    /// the session has no outstanding fragment left, reports the completed
    /// message to the controller and clears the session's metadata. A
    /// spurious acknowledgment (unknown fragment) changes nothing. Returns
    /// whether the session completed with this acknowledgment.
    pub fn handle_ack(&mut self, session_id: u64, fragment_index: u64, now_ms: u64) -> (completed:
        bool)
        requires
            old(self).wf(),
        ensures
            final(self).wf(),
            *final(self) == (RustbustersClient {
                pending_sent: final(self).pending_sent,
                pending_session_info: final(self).pending_session_info,
                edge_stats: final(self).edge_stats,
                topology: final(self).topology,
                ..*old(self)
            }),
            !sent_has(*old(self), session_id, fragment_index) ==> *final(self) == *old(self)
                && !completed,
            !sent_has(*final(self), session_id, fragment_index),
            completed ==> !sent_session_live(*final(self), session_id) && !info_has(
                *final(self),
                session_id,
            ) && info_has(*old(self), session_id),
            completed ==> exists|j: int|
                0 <= j < old(self).pending_session_info@.len() && (#[trigger] old(self).pending_session_info@[j]).session == session_id && final(self).pending_session_info@ == old(self).pending_session_info@.remove(j),
            !completed ==> final(self).pending_session_info == old(self).pending_session_info,
            sent_has(*old(self), session_id, fragment_index) ==> exists|i: int|
                0 <= i < old(self).pending_sent@.len() && (#[trigger] old(self).pending_sent@[i]).session == session_id && old(self).pending_sent@[i].fragment
                    == fragment_index && final(self).pending_sent@ == old(self).pending_sent@.remove(i) && (final(self).edge_stats@, edges_of(
                    final(self).topology,
                )) == path_successes(
                    old(self).edge_stats@,
                    edges_of(old(self).topology),
                    old(self).pending_sent@[i].packet.routing_header.hops@,
                    0,
                    old(self).pending_sent@[i].packet.routing_header.hops@.len() - 1,
                ),
    {
        let idx = match self.find_sent_index(session_id, fragment_index) {
            Some(i) => i,
            None => {
                return false;
            },
        };
        let ghost found = idx as int;
        let entry = self.pending_sent.remove(idx);
        proof {
            assert(entry == old(self).pending_sent@[found]);
            assert forall|a: int, b: int|
                #![trigger self.pending_sent@[a], self.pending_sent@[b]]
                0 <= a < b < self.pending_sent@.len() implies !(self.pending_sent@[a].session
                == self.pending_sent@[b].session && self.pending_sent@[a].fragment
                == self.pending_sent@[b].fragment) by {
                if a < found {
                    assert(self.pending_sent@[a] == old(self).pending_sent@[a]);
                } else {
                    assert(self.pending_sent@[a] == old(self).pending_sent@[a + 1]);
                }
                if b < found {
                    assert(self.pending_sent@[b] == old(self).pending_sent@[b]);
                } else {
                    assert(self.pending_sent@[b] == old(self).pending_sent@[b + 1]);
                }
            }
            assert forall|j: int|
                0 <= j < self.pending_sent@.len() implies !((#[trigger]
            self.pending_sent@[j]).session == session_id && self.pending_sent@[j].fragment
                == fragment_index) by {
                if j < found {
                    assert(self.pending_sent@[j] == old(self).pending_sent@[j]);
                } else {
                    assert(self.pending_sent@[j] == old(self).pending_sent@[j + 1]);
                }
            }
        }
        self.register_successful_transmission(&entry.packet.routing_header.hops);
        if self.sent_session_live_exec(session_id) {
            return false;
        }
        let info_idx = match self.find_info_index(session_id) {
            Some(i) => i,
            None => {
                return false;
            },
        };
        let ghost ifound = info_idx as int;
        let ghost pre_info = self.pending_session_info@;
        let info = self.pending_session_info.remove(info_idx);
        proof {
            assert forall|a: int, b: int|
                #![trigger self.pending_session_info@[a], self.pending_session_info@[b]]
                0 <= a < b < self.pending_session_info@.len() implies self.pending_session_info@[a].session
                != self.pending_session_info@[b].session by {
                if a < ifound {
                    assert(self.pending_session_info@[a] == pre_info[a]);
                } else {
                    assert(self.pending_session_info@[a] == pre_info[a + 1]);
                }
                if b < ifound {
                    assert(self.pending_session_info@[b] == pre_info[b]);
                } else {
                    assert(self.pending_session_info@[b] == pre_info[b + 1]);
                }
            }
            assert forall|j: int|
                0 <= j < self.pending_session_info@.len() implies (#[trigger]
            self.pending_session_info@[j]).session != session_id by {
                if j < ifound {
                    assert(self.pending_session_info@[j] == pre_info[j]);
                } else {
                    assert(self.pending_session_info@[j] == pre_info[j + 1]);
                }
            }
        }
        let latency = now_ms.saturating_sub(info.started_ms);
        self.send_to_sc(
            Event::MessageSent {
                destination: info.destination,
                message: info.message,
                latency_ms: latency,
            },
        );
        true
    }

    /// Reroutes (when asked to and a different route exists) and resends a
    /// stored fragment packet. Shipping happens on the neighbor channels
    /// only; the client's own state does not change.
    pub(crate) fn reroute_and_resend(&self, packet: Packet, force_reroute: bool)
        requires
            self.wf(),
    {
        let mut packet = packet;
        if packet.routing_header.hops.len() == 0 {
            return;
        }
        let destination = packet.routing_header.hops[packet.routing_header.hops.len() - 1];
        if force_reroute {
            match self.find_weighted_path(destination) {
                Some(new_path) => {
                    if !routes_equal(&new_path, &packet.routing_header.hops) {
                        packet.routing_header.hops = new_path;
                        packet.routing_header.hop_index = 1;
                    }
                },
                None => {},
            }
        }
        if packet.routing_header.hops.len() >= 2 {
            let next = packet.routing_header.hops[1];
            match self.channel_for(next) {
                Some(ch) => {
                    let header = PacketHeader {
                        session_id: packet.session_id,
                        pack_type: PacketKindTag::MsgFragment,
                        routing_header: RoutingHeader {
                            hop_index: packet.routing_header.hop_index,
                            hops: clone_ids(&packet.routing_header.hops),
                        },
                    };
                    if send_packet_on(ch, packet) {
                        self.send_to_sc(Event::PacketSent(header));
                    }
                },
                None => {},
            }
        }
    }

    /// Processes a negative acknowledgment for a stored fragment. A drop
    /// report penalizes the edge the drop was observed on, credits the rest
    /// of the backward trace, and resends the fragment, rerouting when the
    /// edge looks unreliable; a routing-error report excises the offending
    /// drone from every local table, reroutes and resends; the structural
    /// errors change nothing and nothing is resent. A report for an unknown
    /// fragment changes nothing.
    pub fn handle_nack(
        &mut self,
        session_id: u64,
        fragment_index: u64,
        nack_kind: NackKind,
        nack_header: &RoutingHeader,
    )
        requires
            old(self).wf(),
        ensures
            final(self).wf(),
            *final(self) == (RustbustersClient {
                known_nodes: final(self).known_nodes,
                edge_stats: final(self).edge_stats,
                topology: final(self).topology,
                ..*old(self)
            }),
            !sent_has(*old(self), session_id, fragment_index) ==> *final(self) == *old(self),
            sent_has(*old(self), session_id, fragment_index) && nack_kind == NackKind::Dropped
                ==> {
                &&& final(self).known_nodes == old(self).known_nodes
                &&& nack_header.hops@.len() >= 2 ==> {
                    let penalized = one_outcome(
                        old(self).edge_stats@,
                        edges_of(old(self).topology),
                        nack_header.hops@[0],
                        nack_header.hops@[1],
                        true,
                    );
                    (final(self).edge_stats@, edges_of(final(self).topology)) == path_successes(
                        penalized.0,
                        penalized.1,
                        nack_header.hops@,
                        1,
                        nack_header.hops@.len() - 1,
                    )
                }
                &&& nack_header.hops@.len() < 2 ==> *final(self) == *old(self)
            },
            (nack_kind matches NackKind::ErrorInRouting(drone) ==> sent_has(
                *old(self),
                session_id,
                fragment_index,
            ) ==> {
                &&& final(self).known_nodes@ == old(self).known_nodes@.update(
                    drone as int,
                    None,
                )
                &&& edges_of(final(self).topology) == edges_of(old(self).topology).restrict(
                    Set::new(|k: (NodeId, NodeId)| k.0 != drone && k.1 != drone),
                )
                &&& forall|k: int|
                    0 <= k < 65536 ==> #[trigger] final(self).edge_stats@[k] == (if k / 256
                        == drone as int || k % 256 == drone as int {
                        None
                    } else {
                        old(self).edge_stats@[k]
                    })
            }),
            (nack_kind == NackKind::DestinationIsDrone || (nack_kind matches
                NackKind::UnexpectedRecipient(_))) ==> *final(self) == *old(self),
    {
        let idx = match self.find_sent_index(session_id, fragment_index) {
            Some(i) => i,
            None => {
                return;
            },
        };
        let packet = self.pending_sent[idx].packet.clone();
        match nack_kind {
            NackKind::Dropped => {
                self.update_edge_stats_on_nack(&nack_header.hops);
                let should_reroute = if nack_header.hops.len() >= 2 {
                    match self.edge_stats_at(nack_header.hops[0], nack_header.hops[1]) {
                        Some(st) => st.current_pdr > 300 || st.consecutive_nacks >= 3,
                        None => false,
                    }
                } else {
                    false
                };
                self.reroute_and_resend(packet, should_reroute);
            },
            NackKind::ErrorInRouting(drone) => {
                self.topology.remove_node(drone);
                let ghost stats0 = self.edge_stats@;
                let dr: usize = drone as usize;
                let mut j: usize = 0;
                while j < 256
                    invariant
                        old(self).wf(),
                        self.edge_stats@.len() == 65536,
                        dr == drone as usize,
                        dr < 256,
                        j <= 256,
                        forall|k: int|
                            0 <= k < 65536 ==> #[trigger] self.edge_stats@[k] == (if (k / 256
                                == dr as int && k % 256 < j) || (k % 256 == dr as int && k / 256
                                < j) {
                                None
                            } else {
                                stats0[k]
                            }),
                        *self == (RustbustersClient {
                            edge_stats: self.edge_stats,
                            topology: self.topology,
                            ..*old(self)
                        }),
                        edges_of(self.topology) == edges_of(old(self).topology).restrict(
                            Set::new(|k: (NodeId, NodeId)| k.0 != drone && k.1 != drone),
                        ),
                    decreases 256 - j,
                {
                    proof {
                        assert((dr as int * 256 + j as int) / 256 == dr as int && (dr as int * 256
                            + j as int) % 256 == j as int) by (nonlinear_arith)
                            requires
                                0 <= j < 256,
                                0 <= dr < 256,
                        ;
                        assert((j as int * 256 + dr as int) / 256 == j as int && (j as int * 256
                            + dr as int) % 256 == dr as int) by (nonlinear_arith)
                            requires
                                0 <= j < 256,
                                0 <= dr < 256,
                        ;
                    }
                    self.edge_stats[dr * 256 + j] = None;
                    self.edge_stats[j * 256 + dr] = None;
                    j = j + 1;
                }
                self.known_nodes[dr] = None;
                self.reroute_and_resend(packet, true);
            },
            NackKind::DestinationIsDrone | NackKind::UnexpectedRecipient(_) => {},
        }
    }

    /// Fragments a serialized message and ships every fragment along the
    /// best route to the destination. The session's metadata is stored and
    /// each fragment that a channel accepts is remembered, packet and all,
    /// for acknowledgment tracking and later resends. Returns the notices
    /// owed to the user interface: the unreachable-destination notice when
    /// no admissible route exists (or the destination is this client
    /// itself), and one failed-send notice per fragment a channel refused.
    pub fn send_message(&mut self, destination_id: NodeId, message: &Vec<u8>, now_ms: u64) -> (r:
        Vec<UiError>)
        requires
            old(self).wf(),
            1 <= message@.len() <= usize::MAX - 127,
        ensures
            final(self).wf(),
            *final(self) == (RustbustersClient {
                session_id_counter: final(self).session_id_counter,
                pending_sent: final(self).pending_sent,
                pending_session_info: final(self).pending_session_info,
                ..*old(self)
            }),
            !(crate::path::reaches(
                old(self).known_nodes@,
                edges_of(old(self).topology),
                old(self).id,
                destination_id,
            ) && crate::path::kind_at(old(self).known_nodes@, destination_id) == Some(
                NodeKind::Server,
            )) ==> *final(self) == *old(self) && r@ =~= seq![UiError::DestinationUnreachable],
            (crate::path::reaches(
                old(self).known_nodes@,
                edges_of(old(self).topology),
                old(self).id,
                destination_id,
            ) && crate::path::kind_at(old(self).known_nodes@, destination_id) == Some(
                NodeKind::Server,
            ) && destination_id != old(self).id) ==> {
                &&& final(self).session_id_counter == crate::edge_stats::sat_inc(
                    old(self).session_id_counter,
                )
                &&& info_has(*final(self), crate::edge_stats::sat_inc(old(self).session_id_counter))
                &&& exists|j: int|
                    0 <= j < final(self).pending_session_info@.len() && (#[trigger] final(self).pending_session_info@[j]).session
                        == crate::edge_stats::sat_inc(old(self).session_id_counter) && final(self).pending_session_info@[j].destination
                        == destination_id && final(self).pending_session_info@[j].message@
                        == message@ && final(self).pending_session_info@[j].started_ms == now_ms
                &&& final(self).pending_sent@.len() >= old(self).pending_sent@.len()
                &&& final(self).pending_sent@.len() <= old(self).pending_sent@.len()
                    + crate::codec::n_fragments(message@.len())
                &&& final(self).pending_sent@.subrange(0, old(self).pending_sent@.len() as int)
                    == old(self).pending_sent@
                &&& forall|t: int| 0 <= t < r@.len() ==> #[trigger] r@[t] == UiError::SendFailed
                &&& r@.len() <= crate::codec::n_fragments(message@.len())
                &&& exists|route: Seq<NodeId>|
                    {
                        &&& route.len() >= 2
                        &&& route[0] == old(self).id
                        &&& route[route.len() - 1] == destination_id
                        &&& #[trigger] crate::path::valid_chain(
                            old(self).known_nodes@,
                            edges_of(old(self).topology),
                            route,
                        )
                        &&& forall|c: Seq<NodeId>|
                            (c.len() >= 1 && c[0] == old(self).id && c[c.len() - 1]
                                == destination_id && crate::path::valid_chain(
                                old(self).known_nodes@,
                                edges_of(old(self).topology),
                                c,
                            )) ==> crate::path::chain_weight(edges_of(old(self).topology), route)
                                <= #[trigger] crate::path::chain_weight(
                                edges_of(old(self).topology),
                                c,
                            )
                        &&& (forall|t: int|
                            old(self).pending_sent@.len() <= t < final(self).pending_sent@.len()
                                ==> sent_entry_for(
                                #[trigger] final(self).pending_sent@[t],
                                crate::edge_stats::sat_inc(old(self).session_id_counter),
                                message@,
                                route,
                            ))
                        &&& (((forall|fi: u64|
                            !sent_has(
                                *old(self),
                                crate::edge_stats::sat_inc(old(self).session_id_counter),
                                fi,
                            )) && has_channel(*old(self), route[1])) ==> final(self).pending_sent@.len() - old(self).pending_sent@.len() + r@.len()
                            == crate::codec::n_fragments(message@.len()))
                        &&& (!has_channel(*old(self), route[1]) ==> final(self).pending_sent@.len() == old(self).pending_sent@.len() && r@.len() == 0)
                    }
            },
    {
        let route = match self.find_weighted_path(destination_id) {
            Some(p) => p,
            None => {
                let mut errs: Vec<UiError> = Vec::new();
                errs.push(UiError::DestinationUnreachable);
                proof {
                    assert(errs@ =~= seq![UiError::DestinationUnreachable]);
                }
                return errs;
            },
        };
        if route.len() < 2 {
            let mut errs: Vec<UiError> = Vec::new();
            errs.push(UiError::DestinationUnreachable);
            proof {
                assert(errs@ =~= seq![UiError::DestinationUnreachable]);
                if destination_id != self.id {
                    assert(route@[0] == self.id && route@[route@.len() - 1] == destination_id);
                }
            }
            return errs;
        }
        self.session_id_counter = self.session_id_counter.saturating_add(1);
        let session_id = self.session_id_counter;
        let fragments = crate::codec::disassemble_message(message);
        self.upsert_session_info(session_id, destination_id, clone_bytes(message), now_ms);
        let mut errors: Vec<UiError> = Vec::new();
        let mut i: usize = 0;
        while i < fragments.len()
            invariant
                self.wf(),
                route@.len() >= 2,
                i <= fragments@.len(),
                fragments@.len() == crate::codec::n_fragments(message@.len()),
                1 <= message@.len() <= usize::MAX - 127,
                forall|j: int|
                    0 <= j < fragments@.len() ==> {
                        &&& (#[trigger] fragments@[j]).fragment_index == j as u64
                        &&& fragments@[j].total_n_fragments == fragments@.len() as u64
                        &&& fragments@[j].length as int == crate::codec::chunk_len(
                            message@.len() as int,
                            j,
                        )
                        &&& fragments@[j].data@ == crate::codec::chunk_padded(message@, j)
                    },
                *self == (RustbustersClient {
                    session_id_counter: self.session_id_counter,
                    pending_sent: self.pending_sent,
                    pending_session_info: self.pending_session_info,
                    ..*old(self)
                }),
                self.session_id_counter == crate::edge_stats::sat_inc(
                    old(self).session_id_counter,
                ),
                session_id == self.session_id_counter,
                info_has(*self, session_id),
                self.pending_session_info@.len() >= 1,
                self.pending_session_info@.last().session == session_id,
                self.pending_session_info@.last().destination == destination_id,
                self.pending_session_info@.last().message@ == message@,
                self.pending_session_info@.last().started_ms == now_ms,
                self.pending_sent@.len() >= old(self).pending_sent@.len(),
                self.pending_sent@.len() <= old(self).pending_sent@.len() + i,
                self.pending_sent@.subrange(0, old(self).pending_sent@.len() as int) == old(self).pending_sent@,
                forall|t: int|
                    old(self).pending_sent@.len() <= t < self.pending_sent@.len() ==> sent_entry_for(
                        #[trigger] self.pending_sent@[t],
                        session_id,
                        message@,
                        route@,
                    ) && self.pending_sent@[t].fragment < i,
                forall|t: int| 0 <= t < errors@.len() ==> #[trigger] errors@[t]
                    == UiError::SendFailed,
                errors@.len() <= i,
                ((forall|fi: u64| !sent_has(*old(self), session_id, fi)) && has_channel(
                    *old(self),
                    route@[1],
                )) ==> self.pending_sent@.len() - old(self).pending_sent@.len() + errors@.len()
                    == i,
                !has_channel(*old(self), route@[1]) ==> self.pending_sent@.len() == old(self).pending_sent@.len() && errors@.len() == 0,
            decreases fragments@.len() - i,
        {
            let fragment_index = fragments[i].fragment_index;
            let packet = Packet {
                pack_type: PacketKind::MsgFragment(clone_fragment(&fragments[i])),
                routing_header: RoutingHeader { hop_index: 1, hops: clone_ids(&route) },
                session_id,
            };
            let next = route[1];
            let ghost pre = self.pending_sent@;
            let mut accepted = false;
            match self.channel_for(next) {
                Some(ch) => {
                    proof {
                        assert(has_channel(*self, next));
                        let w = choose|w: int|
                            0 <= w < self.packet_send@.len() && (#[trigger] self.packet_send@[w]).0
                                == next;
                        assert(old(self).packet_send@[w].0 == route@[1]);
                        assert(has_channel(*old(self), route@[1]));
                    }
                    if send_packet_on(ch, packet.clone()) {
                        accepted = true;
                    } else {
                        errors.push(UiError::SendFailed);
                    }
                },
                None => {
                    proof {
                        assert(!has_channel(*self, next));
                        if has_channel(*old(self), route@[1]) {
                            let w = choose|w: int|
                                0 <= w < old(self).packet_send@.len() && (#[trigger] old(
                                    self,
                                ).packet_send@[w]).0 == route@[1];
                            assert(self.packet_send@[w].0 == next);
                        }
                        assert(!has_channel(*old(self), route@[1]));
                    }
                },
            }
            if accepted {
                let header = PacketHeader {
                    session_id,
                    pack_type: PacketKindTag::MsgFragment,
                    routing_header: RoutingHeader { hop_index: 1, hops: clone_ids(&route) },
                };
                self.send_to_sc(Event::PacketSent(header));
                let ghost sent_packet = packet;
                self.record_pending_sent(session_id, fragment_index, packet);
                proof {
                    assert(self.pending_sent@.subrange(0, old(self).pending_sent@.len() as int)
                        =~= old(self).pending_sent@);
                    assert(fragment_index == i as u64);
                    assert(sent_entry_for(
                        SentEntry { session: session_id, fragment: fragment_index, packet: sent_packet },
                        session_id,
                        message@,
                        route@,
                    ));
                    assert forall|t: int|
                        old(self).pending_sent@.len() <= t < self.pending_sent@.len() implies sent_entry_for(
                        #[trigger] self.pending_sent@[t],
                        session_id,
                        message@,
                        route@,
                    ) && self.pending_sent@[t].fragment < i + 1 by {
                        if t < pre.len() {
                            assert(self.pending_sent@.subrange(0, pre.len() as int)[t] == pre[t]);
                        } else {
                            if self.pending_sent@ == pre {
                                assert(false);
                            }
                            assert(self.pending_sent@.len() == pre.len() + 1);
                            assert(t == pre.len());
                            assert(self.pending_sent@[t].session == session_id);
                            assert(self.pending_sent@[t].fragment == fragment_index);
                            assert(self.pending_sent@[t].packet == sent_packet);
                        }
                    }
                    if (forall|fi: u64| !sent_has(*old(self), session_id, fi)) && has_channel(
                        *old(self),
                        route@[1],
                    ) {
                        // The key is fresh, so the entry was really appended.
                        if self.pending_sent@ == pre {
                            assert(sent_has(*self, session_id, fragment_index));
                            let w = choose|w: int|
                                0 <= w < pre.len() && (#[trigger] pre[w]).session == session_id
                                    && pre[w].fragment == fragment_index;
                            if w < old(self).pending_sent@.len() {
                                assert(pre.subrange(0, old(self).pending_sent@.len() as int)[w]
                                    == pre[w]);
                                assert(sent_has(*old(self), session_id, fragment_index));
                            } else {
                                assert(pre[w].fragment < i);
                            }
                            assert(false);
                        }
                    }
                }
            }
            i = i + 1;
        }
        proof {
            if destination_id != self.id {
                assert(route@[0] == old(self).id && route@[route@.len() - 1] == destination_id);
                assert(crate::path::valid_chain(
                    old(self).known_nodes@,
                    edges_of(old(self).topology),
                    route@,
                ));
            }
        }
        errors
    }

    /// Sends a message that the user interface handed over.
    pub fn handle_ui_message(&mut self, server_id: NodeId, message: &Vec<u8>, now_ms: u64) -> (r:
        Vec<UiError>)
        requires
            old(self).wf(),
            1 <= message@.len() <= usize::MAX - 127,
        ensures
            final(self).wf(),
            *final(self) == (RustbustersClient {
                session_id_counter: final(self).session_id_counter,
                pending_sent: final(self).pending_sent,
                pending_session_info: final(self).pending_session_info,
                ..*old(self)
            }),
            !(crate::path::reaches(
                old(self).known_nodes@,
                edges_of(old(self).topology),
                old(self).id,
                server_id,
            ) && crate::path::kind_at(old(self).known_nodes@, server_id) == Some(
                NodeKind::Server,
            )) ==> *final(self) == *old(self) && r@ =~= seq![UiError::DestinationUnreachable],
    {
        self.send_message(server_id, message, now_ms)
    }

    /// Stores an arriving message fragment, acknowledges it toward its
    /// source along the reversed header, and, exactly when this arrival
    /// completes its session, hands back the source and the reassembled
    /// message bytes for the surrounding process to decode and forward.
    /// A fragment whose header carries no hops is ignored (there is nobody
    /// to acknowledge); one whose shape is wrong is acknowledged but not
    /// stored.
    pub fn handle_message_fragment(
        &mut self,
        fragment: &Fragment,
        session_id: u64,
        source_routing_header: &RoutingHeader,
    ) -> (r: Option<(NodeId, Vec<u8>)>)
        requires
            old(self).wf(),
        ensures
            final(self).wf(),
            *final(self) == (RustbustersClient {
                pending_received: final(self).pending_received,
                ..*old(self)
            }),
            r is Some <==> (source_routing_header.hops@.len() >= 1 && arrival_completes(
                *old(self),
                session_id,
                *fragment,
            )),
            r matches Some(d) ==> source_routing_header.hops@.len() >= 1 && d.0
                == source_routing_header.hops@[0] && d.1@ == crate::codec::assembled_data(
                buffer_data_after(*old(self), session_id, *fragment),
            ),
            r is Some ==> !recv_has(*final(self), session_id),
            (source_routing_header.hops@.len() >= 1 && fragment_shape_ok(*fragment)
                && !arrival_completes(*old(self), session_id, *fragment)) ==> exists|i: int|
                0 <= i < final(self).pending_received@.len() && (#[trigger] final(self).pending_received@[i]).session == session_id && crate::codec::slots_data(
                    final(self).pending_received@[i].slots@,
                ) == buffer_data_after(*old(self), session_id, *fragment),
            source_routing_header.hops@.len() == 0 ==> *final(self) == *old(self) && r is None,
    {
        if source_routing_header.hops.len() == 0 {
            return None;
        }
        let source = source_routing_header.hops[0];

        let stored = clone_fragment(fragment);
        let ghost pre = *self;
        let ghost target = buffer_data_after(pre, session_id, *fragment);
        proof {
            // The copy shares every field the buffer model reads.
            assert(fragment_shape_ok(stored) == fragment_shape_ok(*fragment));
            if recv_has(pre, session_id) {
                assert(buffer_data_after(pre, session_id, stored) =~= target);
            } else {
                assert(buffer_data_after(pre, session_id, stored) =~= target);
            }
        }
        let complete = self.set_pending(session_id, stored);
        proof {
            if fragment_shape_ok(stored) {
                let e_new = self.pending_received@.last();
                assert(e_new.wf());
                if recv_has(pre, session_id) {
                    let iw = choose|i: int|
                        0 <= i < pre.pending_received@.len() && (#[trigger] pre.pending_received@[i]).session
                            == session_id && self.pending_received@.len()
                            == pre.pending_received@.len() && self.pending_received@.subrange(
                            0,
                            pre.pending_received@.len() - 1,
                        ) == pre.pending_received@.remove(i) && stored_slot(
                            pre.pending_received@[i],
                            e_new,
                            stored,
                        );
                    let ic = choose|i: int|
                        0 <= i < pre.pending_received@.len() && (#[trigger] pre.pending_received@[i]).session
                            == session_id;
                    if ic != iw {
                        let a = if ic < iw {
                            ic
                        } else {
                            iw
                        };
                        let b = if ic < iw {
                            iw
                        } else {
                            ic
                        };
                        assert(pre.pending_received@[a].session
                            != pre.pending_received@[b].session);
                    }
                    assert(crate::codec::slots_data(e_new.slots@) =~= target);
                } else {
                    assert(crate::codec::slots_data(e_new.slots@) =~= target);
                }
                if complete {
                    lemma_count_some_full(e_new.slots@);
                    assert(all_filled(target));
                } else if all_filled(target) {
                    assert forall|j: int|
                        0 <= j < e_new.slots@.len() implies !((#[trigger] e_new.slots@[j])
                        is None) by {
                        assert(!(crate::codec::slots_data(e_new.slots@)[j] is None));
                    }
                    lemma_count_some_all(e_new.slots@);
                    assert(false);
                }
            } else {
                assert(!complete);
                assert(!arrival_completes(pre, session_id, *fragment));
            }
        }
        let mut delivered: Option<(NodeId, Vec<u8>)> = None;
        if complete {
            let ghost mid = *self;
            let ghost e_new = mid.pending_received@.last();
            match self.reassemble_fragments(session_id) {
                Ok(bytes) => {
                    proof {
                        let j = choose|i: int|
                            0 <= i < mid.pending_received@.len() && (#[trigger] mid.pending_received@[i]).session
                                == session_id && self.pending_received@
                                == mid.pending_received@.remove(i) && (bytes@ == assembled(
                                mid.pending_received@[i].slots@,
                            ));
                        let last = mid.pending_received@.len() - 1;
                        if j != last {
                            let a = if j < last {
                                j
                            } else {
                                last
                            };
                            let b = if j < last {
                                last
                            } else {
                                j
                            };
                            assert(mid.pending_received@[a].session
                                != mid.pending_received@[b].session);
                        }
                        crate::codec::lemma_assembled_is_data(e_new.slots@);
                        assert(bytes@ == crate::codec::assembled_data(target));
                    }
                    delivered = Some((source, bytes));
                },
                Err(_) => {
                    proof {
                        let j = choose|i: int|
                            0 <= i < mid.pending_received@.len() && (#[trigger] mid.pending_received@[i]).session
                                == session_id;
                        let last = mid.pending_received@.len() - 1;
                        if j != last {
                            let a = if j < last {
                                j
                            } else {
                                last
                            };
                            let b = if j < last {
                                last
                            } else {
                                j
                            };
                            assert(mid.pending_received@[a].session
                                != mid.pending_received@[b].session);
                        }
                        assert(false);
                    }
                },
            }
        }
        let ghost after_store = *self;
        let ghost stored_len = self.pending_received@.len();

        let mut hops: Vec<NodeId> = Vec::new();
        let mut t: usize = source_routing_header.hops.len();
        while t > 0
            invariant
                t <= source_routing_header.hops@.len(),
                hops@.len() == source_routing_header.hops@.len() - t,
                forall|q: int|
                    0 <= q < hops@.len() ==> #[trigger] hops@[q]
                        == source_routing_header.hops@[source_routing_header.hops@.len() - 1 - q],
                *self == after_store,
            decreases t,
        {
            t = t - 1;
            hops.push(source_routing_header.hops[t]);
        }
        let ack_packet = Packet {
            pack_type: PacketKind::Ack { fragment_index: fragment.fragment_index },
            routing_header: RoutingHeader { hop_index: 1, hops },
            session_id,
        };
        let event_header = PacketHeader {
            session_id,
            pack_type: PacketKindTag::Ack,
            routing_header: RoutingHeader {
                hop_index: 1,
                hops: clone_ids(&ack_packet.routing_header.hops),
            },
        };
        if ack_packet.routing_header.hops.len() >= 2 {
            let next = ack_packet.routing_header.hops[1];
            match self.channel_for(next) {
                Some(ch) => {
                    if !send_packet_on(ch, ack_packet.clone()) {
                        self.send_to_sc(Event::ControllerShortcut(ack_packet));
                    }
                },
                None => {
                    self.send_to_sc(Event::ControllerShortcut(ack_packet));
                },
            }
        } else {
            self.send_to_sc(Event::ControllerShortcut(ack_packet));
        }
        self.send_to_sc(Event::PacketSent(event_header));
        proof {
            if fragment_shape_ok(*fragment) && !arrival_completes(pre, session_id, *fragment) {
                assert(self.pending_received@[stored_len - 1].session == session_id);
                assert(crate::codec::slots_data(self.pending_received@[stored_len - 1].slots@)
                    == target);
            }
        }
        delivered
    }

    /// Dispatches an inbound packet to the matching handler. Returns the
    /// source and bytes of a message that this packet completed, if any.
    pub fn handle_packet(&mut self, packet: Packet, now_ms: u64) -> (r: Option<(NodeId, Vec<u8>)>)
        requires
            old(self).wf(),
        ensures
            final(self).wf(),
            (packet.pack_type matches PacketKind::FloodResponse(fr) ==> {
                &&& *final(self) == (RustbustersClient {
                    known_nodes: final(self).known_nodes,
                    topology: final(self).topology,
                    ..*old(self)
                })
                &&& (final(self).known_nodes@, edges_of(final(self).topology)) == absorb_fold(
                    old(self).known_nodes@,
                    edges_of(old(self).topology),
                    fr.path_trace@,
                    fr.path_trace@.len() - 1,
                )
            }),
            (packet.pack_type matches PacketKind::Ack { fragment_index } ==> {
                &&& *final(self) == (RustbustersClient {
                    pending_sent: final(self).pending_sent,
                    pending_session_info: final(self).pending_session_info,
                    edge_stats: final(self).edge_stats,
                    topology: final(self).topology,
                    ..*old(self)
                })
                &&& !sent_has(*final(self), packet.session_id, fragment_index)
                &&& (!sent_has(*old(self), packet.session_id, fragment_index) ==> *final(self)
                    == *old(self))
                &&& (sent_has(*old(self), packet.session_id, fragment_index) ==> exists|i: int|
                    0 <= i < old(self).pending_sent@.len() && (#[trigger] old(self).pending_sent@[i]).session == packet.session_id && old(self).pending_sent@[i].fragment == fragment_index && final(self).pending_sent@
                        == old(self).pending_sent@.remove(i) && (
                    final(self).edge_stats@,
                    edges_of(final(self).topology),
                    ) == path_successes(
                        old(self).edge_stats@,
                        edges_of(old(self).topology),
                        old(self).pending_sent@[i].packet.routing_header.hops@,
                        0,
                        old(self).pending_sent@[i].packet.routing_header.hops@.len() - 1,
                    ))
            }),
            (packet.pack_type matches PacketKind::Nack { fragment_index, nack_kind } ==> {
                &&& *final(self) == (RustbustersClient {
                    known_nodes: final(self).known_nodes,
                    edge_stats: final(self).edge_stats,
                    topology: final(self).topology,
                    ..*old(self)
                })
                &&& final(self).pending_sent == old(self).pending_sent
                &&& (!sent_has(*old(self), packet.session_id, fragment_index) ==> *final(self)
                    == *old(self))
                &&& (sent_has(*old(self), packet.session_id, fragment_index) && nack_kind
                    == NackKind::Dropped ==> {
                    &&& final(self).known_nodes == old(self).known_nodes
                    &&& packet.routing_header.hops@.len() >= 2 ==> {
                        let penalized = one_outcome(
                            old(self).edge_stats@,
                            edges_of(old(self).topology),
                            packet.routing_header.hops@[0],
                            packet.routing_header.hops@[1],
                            true,
                        );
                        (final(self).edge_stats@, edges_of(final(self).topology))
                            == path_successes(
                            penalized.0,
                            penalized.1,
                            packet.routing_header.hops@,
                            1,
                            packet.routing_header.hops@.len() - 1,
                        )
                    }
                    &&& packet.routing_header.hops@.len() < 2 ==> *final(self) == *old(self)
                })
                &&& (nack_kind matches NackKind::ErrorInRouting(drone) ==> sent_has(
                    *old(self),
                    packet.session_id,
                    fragment_index,
                ) ==> {
                    &&& final(self).known_nodes@ == old(self).known_nodes@.update(
                        drone as int,
                        None,
                    )
                    &&& edges_of(final(self).topology) == edges_of(old(self).topology).restrict(
                        Set::new(|k: (NodeId, NodeId)| k.0 != drone && k.1 != drone),
                    )
                    &&& forall|k: int|
                        0 <= k < 65536 ==> #[trigger] final(self).edge_stats@[k] == (if k / 256
                            == drone as int || k % 256 == drone as int {
                            None
                        } else {
                            old(self).edge_stats@[k]
                        })
                })
                &&& ((nack_kind == NackKind::DestinationIsDrone || (nack_kind matches
                    NackKind::UnexpectedRecipient(_))) ==> *final(self) == *old(self))
            }),
            (packet.pack_type matches PacketKind::MsgFragment(f) ==> {
                &&& *final(self) == (RustbustersClient {
                    pending_received: final(self).pending_received,
                    ..*old(self)
                })
                &&& (r is Some <==> (packet.routing_header.hops@.len() >= 1 && arrival_completes(
                    *old(self),
                    packet.session_id,
                    f,
                )))
                &&& (r matches Some(d) ==> d.0 == packet.routing_header.hops@[0] && d.1@
                    == crate::codec::assembled_data(
                    buffer_data_after(*old(self), packet.session_id, f),
                ))
            }),
            (packet.pack_type matches PacketKind::FloodRequest(fr) ==> {
                &&& *final(self) == (RustbustersClient {
                    known_nodes: final(self).known_nodes,
                    topology: final(self).topology,
                    ..*old(self)
                })
                &&& (fr.initiator_id == old(self).id ==> {
                    let ext = fr.path_trace@.push((old(self).id, NodeKind::Client));
                    (final(self).known_nodes@, edges_of(final(self).topology)) == absorb_fold(
                        old(self).known_nodes@,
                        edges_of(old(self).topology),
                        ext,
                        ext.len() - 1,
                    )
                })
                &&& (fr.initiator_id != old(self).id ==> *final(self) == *old(self))
            }),
            r is Some ==> (packet.pack_type matches PacketKind::MsgFragment(f)),
    {
        match packet.pack_type {
            PacketKind::FloodRequest(flood_request) => {
                self.handle_flood_request(&flood_request, packet.session_id);
                None
            },
            PacketKind::FloodResponse(flood_response) => {
                self.handle_flood_response(&flood_response);
                None
            },
            PacketKind::MsgFragment(fragment) => {
                self.handle_message_fragment(&fragment, packet.session_id, &packet.routing_header)
            },
            PacketKind::Ack { fragment_index } => {
                let _ = self.handle_ack(packet.session_id, fragment_index, now_ms);
                None
            },
            PacketKind::Nack { fragment_index, nack_kind } => {
                self.handle_nack(
                    packet.session_id,
                    fragment_index,
                    nack_kind,
                    &packet.routing_header,
                );
                None
            },
        }
    }

    /// Installs (or replaces) the channel toward a neighbor.
    pub fn add_sender(&mut self, id: NodeId, ch: crossbeam_channel::Sender<Packet>)
        requires
            old(self).wf(),
        ensures
            final(self).wf(),
            *final(self) == (RustbustersClient {
                packet_send: final(self).packet_send,
                ..*old(self)
            }),
            has_channel(*final(self), id),
            !has_channel(*old(self), id) ==> final(self).packet_send@ == old(self).packet_send@.push((id, ch)),
            has_channel(*old(self), id) ==> exists|i: int|
                0 <= i < old(self).packet_send@.len() && (#[trigger] old(self).packet_send@[i]).0 == id && final(self).packet_send@ == old(self).packet_send@.remove(i).push((id, ch)),
    {
        match self.find_channel_index(id) {
            Some(i) => {
                let ghost found = i as int;
                let _ = self.packet_send.remove(i);
                proof {
                    assert forall|a: int, b: int|
                        #![trigger self.packet_send@[a], self.packet_send@[b]]
                        0 <= a < b < self.packet_send@.len() implies self.packet_send@[a].0
                        != self.packet_send@[b].0 by {
                        if a < found {
                            assert(self.packet_send@[a] == old(self).packet_send@[a]);
                        } else {
                            assert(self.packet_send@[a] == old(self).packet_send@[a + 1]);
                        }
                        if b < found {
                            assert(self.packet_send@[b] == old(self).packet_send@[b]);
                        } else {
                            assert(self.packet_send@[b] == old(self).packet_send@[b + 1]);
                        }
                    }
                    assert forall|j: int|
                        0 <= j < self.packet_send@.len() implies (#[trigger]
                    self.packet_send@[j]).0 != id by {
                        if j < found {
                            assert(self.packet_send@[j] == old(self).packet_send@[j]);
                        } else {
                            assert(self.packet_send@[j] == old(self).packet_send@[j + 1]);
                        }
                    }
                }
                let ghost mid = self.packet_send@;
                self.packet_send.push((id, ch));
                proof {
                    assert forall|a: int, b: int|
                        #![trigger self.packet_send@[a], self.packet_send@[b]]
                        0 <= a < b < self.packet_send@.len() implies self.packet_send@[a].0
                        != self.packet_send@[b].0 by {
                        if b < self.packet_send@.len() - 1 {
                            assert(self.packet_send@[a] == mid[a]);
                            assert(self.packet_send@[b] == mid[b]);
                        } else {
                            assert(self.packet_send@[a] == mid[a]);
                        }
                    }
                    assert(self.packet_send@[self.packet_send@.len() - 1].0 == id);
                }
            },
            None => {
                self.packet_send.push((id, ch));
                proof {
                    assert forall|a: int, b: int|
                        #![trigger self.packet_send@[a], self.packet_send@[b]]
                        0 <= a < b < self.packet_send@.len() implies self.packet_send@[a].0
                        != self.packet_send@[b].0 by {
                        if b == self.packet_send@.len() - 1 {
                            assert(self.packet_send@[a] == old(self).packet_send@[a]);
                        } else {
                            assert(self.packet_send@[a] == old(self).packet_send@[a]);
                            assert(self.packet_send@[b] == old(self).packet_send@[b]);
                        }
                    }
                    assert(self.packet_send@[self.packet_send@.len() - 1].0 == id);
                }
            },
        }
    }

    /// Severs the link toward a neighbor: the channel goes, the local
    /// undirected edge goes, and both directed reliability records on the
    /// pair go.
    pub fn remove_sender(&mut self, id: NodeId)
        requires
            old(self).wf(),
        ensures
            final(self).wf(),
            *final(self) == (RustbustersClient {
                packet_send: final(self).packet_send,
                edge_stats: final(self).edge_stats,
                topology: final(self).topology,
                ..*old(self)
            }),
            !has_channel(*final(self), id),
            edges_of(final(self).topology) == edges_of(old(self).topology).remove(
                (old(self).id, id),
            ).remove((id, old(self).id)),
            final(self).edge_stats@ == old(self).edge_stats@.update(
                ek(old(self).id, id),
                None,
            ).update(ek(id, old(self).id), None),
    {
        match self.find_channel_index(id) {
            Some(i) => {
                let ghost found = i as int;
                let _ = self.packet_send.remove(i);
                proof {
                    assert forall|a: int, b: int|
                        #![trigger self.packet_send@[a], self.packet_send@[b]]
                        0 <= a < b < self.packet_send@.len() implies self.packet_send@[a].0
                        != self.packet_send@[b].0 by {
                        if a < found {
                            assert(self.packet_send@[a] == old(self).packet_send@[a]);
                        } else {
                            assert(self.packet_send@[a] == old(self).packet_send@[a + 1]);
                        }
                        if b < found {
                            assert(self.packet_send@[b] == old(self).packet_send@[b]);
                        } else {
                            assert(self.packet_send@[b] == old(self).packet_send@[b + 1]);
                        }
                    }
                    assert forall|j: int|
                        0 <= j < self.packet_send@.len() implies (#[trigger]
                    self.packet_send@[j]).0 != id by {
                        if j < found {
                            assert(self.packet_send@[j] == old(self).packet_send@[j]);
                        } else {
                            assert(self.packet_send@[j] == old(self).packet_send@[j + 1]);
                        }
                    }
                }
            },
            None => {},
        }
        let own = self.id;
        self.topology.remove_edge(own, id);
        self.edge_stats[own as usize * 256 + id as usize] = None;
        self.edge_stats[id as usize * 256 + own as usize] = None;
    }

    /// Executes one controller command. A statistics request returns the
    /// snapshot that was also reported on the controller channel.
    pub fn handle_command(&mut self, command: Command) -> (r: Option<Stats>)
        requires
            old(self).wf(),
        ensures
            final(self).wf(),
            (command matches Command::DiscoverNetwork ==> *final(self) == (RustbustersClient {
                flood_id_counter: final(self).flood_id_counter,
                ..*old(self)
            }) && final(self).flood_id_counter == crate::edge_stats::sat_inc(
                old(self).flood_id_counter,
            )),
            (command matches Command::AddSender(id, ch) ==> has_channel(*final(self), id)
                && final(self).flood_id_counter == crate::edge_stats::sat_inc(
                old(self).flood_id_counter,
            )),
            (command matches Command::RemoveSender(id) ==> {
                &&& !has_channel(*final(self), id)
                &&& edges_of(final(self).topology) == edges_of(old(self).topology).remove(
                    (old(self).id, id),
                ).remove((id, old(self).id))
                &&& final(self).edge_stats@[ek(old(self).id, id)] is None
                &&& final(self).edge_stats@[ek(id, old(self).id)] is None
                &&& final(self).flood_id_counter == crate::edge_stats::sat_inc(
                    old(self).flood_id_counter,
                )
            }),
            (command matches Command::StatsRequest ==> *final(self) == *old(self) && (r matches
                Some(s) && s.floods_started == old(self).flood_id_counter && s.sessions_started
                == old(self).session_id_counter && s.known_node_count == count_known(
                old(self).known_nodes@,
            ))),
    {
        match command {
            Command::DiscoverNetwork => {
                self.discover_network();
                None
            },
            Command::AddSender(id, ch) => {
                self.add_sender(id, ch);
                let ghost mid = *self;
                self.discover_network();
                proof {
                    let i = choose|i: int|
                        0 <= i < mid.packet_send@.len() && (#[trigger] mid.packet_send@[i]).0
                            == id;
                    assert((self.packet_send@[i]).0 == id);
                }
                None
            },
            Command::RemoveSender(id) => {
                self.remove_sender(id);
                self.discover_network();
                None
            },
            Command::StatsRequest => {
                let s = self.stats_snapshot();
                self.send_to_sc(Event::StatsResponse(s));
                Some(s)
            },
        }
    }
}

} // verus!
