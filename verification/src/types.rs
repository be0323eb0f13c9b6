//! Wire-level and controller-level data carried through the client: packets,
//! fragments, routing headers, controller commands and events. Application
//! message bodies travel through the client as their serialized bytes; the
//! surrounding process turns them into values.

use vstd::prelude::*;

verus! {

/// Identifier of a node of the overlay network; equality defines identity.
pub type NodeId = u8;

/// What role a node plays in the overlay.
#[derive(Clone, Copy, Debug, PartialEq, Eq, Structural)]
pub enum NodeKind {
    Client,
    Drone,
    Server,
}

/// Number of payload bytes carried by every fragment.
pub const FRAGMENT_DSIZE: usize = 128;

/// One fixed-size piece of a fragmented application message. The payload is
/// zero-padded to exactly `FRAGMENT_DSIZE` bytes; `length` says how many of
/// them are meaningful.
#[derive(Clone, Debug)]
pub struct Fragment {
    pub fragment_index: u64,
    pub total_n_fragments: u64,
    pub length: u8,
    pub data: Vec<u8>,
}

impl Fragment {
    pub open spec fn wf(self) -> bool {
        &&& self.data@.len() == FRAGMENT_DSIZE
        &&& self.length <= FRAGMENT_DSIZE
    }
}

/// Source route of a packet: `hops[hop_index]` is the node currently
/// processing the packet.
#[derive(Clone, Debug)]
pub struct RoutingHeader {
    pub hop_index: usize,
    pub hops: Vec<NodeId>,
}

/// Why a negative acknowledgment was raised.
#[derive(Clone, Copy, Debug, PartialEq, Eq, Structural)]
pub enum NackKind {
    Dropped,
    ErrorInRouting(NodeId),
    DestinationIsDrone,
    UnexpectedRecipient(NodeId),
}

/// Topology-discovery request, flooded through the network. Every node that
/// forwards it appends itself to `path_trace`.
#[derive(Clone, Debug)]
pub struct FloodRequest {
    pub flood_id: u64,
    pub initiator_id: NodeId,
    pub path_trace: Vec<(NodeId, NodeKind)>,
}

/// Answer to a flood request: the accumulated trace back to the initiator.
#[derive(Clone, Debug)]
pub struct FloodResponse {
    pub flood_id: u64,
    pub path_trace: Vec<(NodeId, NodeKind)>,
}

/// The payload of a packet.
#[derive(Clone, Debug)]
pub enum PacketKind {
    FloodRequest(FloodRequest),
    FloodResponse(FloodResponse),
    MsgFragment(Fragment),
    Ack { fragment_index: u64 },
    Nack { fragment_index: u64, nack_kind: NackKind },
}

/// A source-routed packet, the unit exchanged with neighbors.
#[derive(Clone, Debug)]
pub struct Packet {
    pub pack_type: PacketKind,
    pub routing_header: RoutingHeader,
    pub session_id: u64,
}

/// Tag of a packet kind, used in header-only event summaries.
#[derive(Clone, Copy, Debug, PartialEq, Eq, Structural)]
pub enum PacketKindTag {
    FloodRequest,
    FloodResponse,
    MsgFragment,
    Ack,
    Nack,
}

/// Header-only summary of a packet, reported to the controller when a packet
/// has been handed to a neighbor channel.
#[derive(Clone, Debug)]
pub struct PacketHeader {
    pub session_id: u64,
    pub pack_type: PacketKindTag,
    pub routing_header: RoutingHeader,
}

/// Snapshot of the client's counters, reported on request.
#[derive(Clone, Copy, Debug, PartialEq, Eq, Structural)]
pub struct Stats {
    pub floods_started: u64,
    pub sessions_started: u64,
    pub known_node_count: u64,
}

/// Events the client reports to the simulation controller.
#[derive(Clone, Debug)]
pub enum Event {
    /// A packet was handed to a neighbor channel.
    PacketSent(PacketHeader),
    /// A packet could not be shipped locally; the controller should deliver it.
    ControllerShortcut(Packet),
    /// Every fragment of a session was acknowledged. Carries the destination,
    /// the serialized message and the elapsed time since the send began.
    MessageSent { destination: NodeId, message: Vec<u8>, latency_ms: u64 },
    /// Reply to a statistics request.
    StatsResponse(Stats),
}

/// Why reassembling a session failed.
#[derive(Clone, Copy, Debug, PartialEq, Eq, Structural)]
pub enum ReassemblyError {
    /// No reassembly buffer exists for the session.
    UnknownSession,
    /// A fragment of the session has not arrived.
    MissingFragment,
}

/// Notices the client hands back for the user interface.
#[derive(Clone, Copy, Debug, PartialEq, Eq, Structural)]
pub enum UiError {
    /// No route to the destination was found.
    DestinationUnreachable,
    /// A neighbor channel refused the packet.
    SendFailed,
}

} // verus!
