//! The peer messages, and the plain model that contracts speak of.
use vstd::prelude::*;

verus! {

/// A cluster member: its node identifier and its network address.
pub struct PeerInfo {
    pub node_id: String,
    pub address: String,
}

/// The endpoints at which a node can be reached from outside the cluster.
pub struct PublicEndpoints {
    pub address: String,
    pub tcp_port: u16,
    pub ws_port: u16,
}

/// Announces the sender's presence to a peer.
pub struct HeartbeatRequest {
    pub peer_info: PeerInfo,
    pub public_endpoints: PublicEndpoints,
}

/// Answers a heartbeat request.
pub struct HeartbeatResponse {
    pub node_id: String,
}

/// A candidate asking for support.
pub struct VoteRequest {
    pub node_id: String,
}

/// A peer granting a candidate its support.
pub struct VoteResponse {
    pub node_id: String,
}

pub enum Heartbeat {
    Request(HeartbeatRequest),
    Response(HeartbeatResponse),
}

pub enum Vote {
    Request(VoteRequest),
    Response(VoteResponse),
}

/// The unit of transmission between peers.
pub enum PeerMessage {
    Heartbeat(Heartbeat),
    Vote(Vote),
}

/// What a peer message holds, as plain values.
pub enum WireMessage {
    HeartbeatRequest {
        node_id: Seq<char>,
        address: Seq<char>,
        public_address: Seq<char>,
        tcp_port: u16,
        ws_port: u16,
    },
    HeartbeatResponse { node_id: Seq<char> },
    VoteRequest { node_id: Seq<char> },
    VoteResponse { node_id: Seq<char> },
}

impl View for PeerMessage {
    type V = WireMessage;

    open spec fn view(&self) -> WireMessage {
        match self {
            PeerMessage::Heartbeat(Heartbeat::Request(r)) => WireMessage::HeartbeatRequest {
                node_id: r.peer_info.node_id@,
                address: r.peer_info.address@,
                public_address: r.public_endpoints.address@,
                tcp_port: r.public_endpoints.tcp_port,
                ws_port: r.public_endpoints.ws_port,
            },
            PeerMessage::Heartbeat(Heartbeat::Response(r)) => WireMessage::HeartbeatResponse {
                node_id: r.node_id@,
            },
            PeerMessage::Vote(Vote::Request(r)) => WireMessage::VoteRequest { node_id: r.node_id@ },
            PeerMessage::Vote(Vote::Response(r)) => WireMessage::VoteResponse {
                node_id: r.node_id@,
            },
        }
    }
}

} // verus!
