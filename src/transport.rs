//! The decisions of the peer transport. The task that owns the socket sends
//! and receives; these functions say what to send, to whom, and what a
//! received datagram is.
use vstd::prelude::*;
use vstd::utf8::{decode_utf8, valid_utf8};
use crate::codec::{decode, encode, is_message_text, message_text, DecodeError};
use crate::message::{
    Heartbeat, HeartbeatRequest, HeartbeatResponse, PeerInfo, PeerMessage, PublicEndpoints, Vote,
    VoteRequest, VoteResponse, WireMessage,
};

verus! {

/// The TCP port advertised in heartbeats until real public endpoints are known.
pub const PROVISIONAL_TCP_PORT: u16 = 8081;

/// The websocket port advertised in heartbeats until real public endpoints are known.
pub const PROVISIONAL_WS_PORT: u16 = 8080;

/// What this node knows of itself and of its peers.
pub struct Config {
    /// This node's identifier.
    pub node_id: String,
    /// This node's socket address.
    pub address: String,
    /// The host part of this node's socket address.
    pub host: String,
    /// The cluster members, in order. They also serve as the lookup from a
    /// node identifier to its address: see [`Config::get_node_addr`].
    pub peer_nodes: Vec<PeerInfo>,
}

/// The index of the first peer with this identifier, if any.
pub open spec fn peer_index(peers: Seq<PeerInfo>, id: Seq<char>) -> Option<int>
    decreases peers.len(),
{
    if peers.len() == 0 {
        None
    } else if peers[0].node_id@ == id {
        Some(0)
    } else {
        match peer_index(peers.skip(1), id) {
            Some(i) => Some(i + 1),
            None => None,
        }
    }
}

/// The address configured for a node identifier, if any.
pub open spec fn node_addr(peers: Seq<PeerInfo>, id: Seq<char>) -> Option<Seq<char>> {
    match peer_index(peers, id) {
        Some(i) => Some(peers[i].address@),
        None => None,
    }
}

proof fn lemma_peer_index_bounds(peers: Seq<PeerInfo>, id: Seq<char>)
    ensures
        peer_index(peers, id) matches Some(i) ==> 0 <= i < peers.len() && peers[i].node_id@ == id,
        peer_index(peers, id) is None ==> forall|j: int|
            0 <= j < peers.len() ==> #[trigger] peers[j].node_id@ != id,
    decreases peers.len(),
{
    if peers.len() > 0 {
        lemma_peer_index_bounds(peers.skip(1), id);
        if peers[0].node_id@ != id {
            assert forall|j: int| 0 <= j < peers.len() && peer_index(peers, id) is None implies
                #[trigger] peers[j].node_id@ != id by {
                if j > 0 {
                    assert(peers[j] == peers.skip(1)[j - 1]);
                }
            }
            if let Some(i) = peer_index(peers.skip(1), id) {
                assert(peers[i + 1] == peers.skip(1)[i]);
            }
        }
    }
}

fn copy_string(s: &String) -> (r: String)
    ensures
        r@ == s@,
{
    s.clone()
}

impl Config {
    /// Looks up the address of the first peer with this identifier.
    pub fn get_node_addr(&self, id: &String) -> (r: Option<String>)
        ensures
            r is None <==> node_addr(self.peer_nodes@, id@) is None,
            r matches Some(a) ==> node_addr(self.peer_nodes@, id@) == Some(a@),
    {
        let mut i: usize = 0;
        while i < self.peer_nodes.len()
            invariant
                0 <= i <= self.peer_nodes@.len(),
                forall|j: int| 0 <= j < i ==> #[trigger] self.peer_nodes@[j].node_id@ != id@,
            decreases self.peer_nodes@.len() - i,
        {
            if self.peer_nodes[i].node_id == *id {
                proof {
                    lemma_first_match(self.peer_nodes@, id@, i as int);
                }
                return Some(copy_string(&self.peer_nodes[i].address));
            }
            i = i + 1;
        }
        proof {
            lemma_peer_index_bounds(self.peer_nodes@, id@);
            if let Some(k) = peer_index(self.peer_nodes@, id@) {
                assert(self.peer_nodes@[k].node_id@ != id@);
            }
        }
        None
    }
}

proof fn lemma_first_match(peers: Seq<PeerInfo>, id: Seq<char>, i: int)
    requires
        0 <= i < peers.len(),
        peers[i].node_id@ == id,
        forall|j: int| 0 <= j < i ==> #[trigger] peers[j].node_id@ != id,
    ensures
        peer_index(peers, id) == Some(i),
    decreases i,
{
    if i > 0 {
        assert forall|j: int| 0 <= j < i - 1 implies #[trigger] peers.skip(1)[j].node_id@ != id by {
            assert(peers.skip(1)[j] == peers[j + 1]);
        }
        lemma_first_match(peers.skip(1), id, i - 1);
        assert(peers[0].node_id@ != id);
    }
}

/// The heartbeat request a node sends about itself.
pub open spec fn heartbeat_of(node_id: Seq<char>, address: Seq<char>, host: Seq<char>) -> WireMessage {
    WireMessage::HeartbeatRequest {
        node_id,
        address,
        public_address: host,
        tcp_port: PROVISIONAL_TCP_PORT,
        ws_port: PROVISIONAL_WS_PORT,
    }
}

/// Builds this node's heartbeat request.
pub fn heartbeat_request(config: &Config) -> (m: PeerMessage)
    ensures
        m@ == heartbeat_of(config.node_id@, config.address@, config.host@),
{
    let peer_info = PeerInfo { node_id: copy_string(&config.node_id), address: copy_string(&config.address) };
    let public_endpoints = PublicEndpoints {
        address: copy_string(&config.host),
        tcp_port: PROVISIONAL_TCP_PORT,
        ws_port: PROVISIONAL_WS_PORT,
    };
    PeerMessage::Heartbeat(Heartbeat::Request(HeartbeatRequest { peer_info, public_endpoints }))
}

/// One datagram to send: the encoded message, and the node and address it goes to.
pub struct Outgoing {
    pub payload: String,
    pub node_id: String,
    pub address: String,
}

/// A send that failed, with the node and address it was meant for.
pub struct SendError {
    pub node_id: String,
    pub address: String,
}

impl SendError {
    /// The error's text.
    pub fn to_string(&self) -> (r: String)
        ensures
            r@ == "error sending peer message to "@ + self.node_id@ + "@"@ + self.address@,
    {
        let mut r = String::from_str("error sending peer message to ");
        r.append(self.node_id.as_str());
        r.append("@");
        r.append(self.address.as_str());
        r
    }
}

/// A heartbeat fan-out in progress.
///
/// The fan-out is all-or-nothing: peers are sent to in the configured order,
/// and the first failed send ends it with that failure; the peers after it
/// are not sent to.
pub struct HeartbeatFanOut {
    /// The encoded heartbeat request.
    pub payload: String,
    /// The peers, in the order they are sent to.
    pub targets: Vec<PeerInfo>,
    /// How many peers the heartbeat was delivered to.
    pub delivered: usize,
    /// The index of the peer whose send failed, if one did.
    pub failed: Option<usize>,
}

impl HeartbeatFanOut {
    /// Whether the value is one that the fan-out can reach.
    pub open spec fn wf(&self) -> bool {
        &&& self.delivered <= self.targets@.len()
        &&& self.failed matches Some(i) ==> i == self.delivered && i < self.targets@.len()
    }

    /// Whether the fan-out is over.
    pub open spec fn is_done(&self) -> bool {
        self.failed is Some || self.delivered == self.targets@.len()
    }

    /// The peer to send to next, until the fan-out is over.
    pub fn next_target(&self) -> (r: Option<Outgoing>)
        requires
            self.wf(),
        ensures
            r is None <==> self.is_done(),
            r matches Some(o) ==> {
                &&& o.payload@ == self.payload@
                &&& o.node_id@ == self.targets@[self.delivered as int].node_id@
                &&& o.address@ == self.targets@[self.delivered as int].address@
            },
    {
        if self.failed.is_some() || self.delivered >= self.targets.len() {
            None
        } else {
            let peer = &self.targets[self.delivered];
            Some(Outgoing {
                payload: copy_string(&self.payload),
                node_id: copy_string(&peer.node_id),
                address: copy_string(&peer.address),
            })
        }
    }

    /// Records whether the send to the peer of [`Self::next_target`] succeeded.
    pub fn record(&mut self, sent: bool)
        requires
            old(self).wf(),
            !old(self).is_done(),
        ensures
            final(self).wf(),
            final(self).payload == old(self).payload,
            final(self).targets == old(self).targets,
            sent ==> final(self).delivered == old(self).delivered + 1 && final(self).failed is None,
            !sent ==> final(self).delivered == old(self).delivered && final(self).failed == Some(
                old(self).delivered,
            ),
    {
        let n = self.targets.len();
        if sent {
            assert(self.delivered < n);
            self.delivered = self.delivered + 1;
        } else {
            self.failed = Some(self.delivered);
        }
    }

    /// The result of a finished fan-out: the failure that ended it, if any.
    pub fn outcome(&self) -> (r: Result<(), SendError>)
        requires
            self.wf(),
        ensures
            r is Ok <==> self.failed is None,
            r matches Err(e) ==> {
                &&& e.node_id@ == self.targets@[self.failed->Some_0 as int].node_id@
                &&& e.address@ == self.targets@[self.failed->Some_0 as int].address@
            },
    {
        match self.failed {
            None => Ok(()),
            Some(i) => Err(SendError {
                node_id: copy_string(&self.targets[i].node_id),
                address: copy_string(&self.targets[i].address),
            }),
        }
    }
}

fn copy_peers(peers: &Vec<PeerInfo>) -> (r: Vec<PeerInfo>)
    ensures
        r@.len() == peers@.len(),
        forall|i: int| 0 <= i < r@.len() ==> {
            &&& (#[trigger] r@[i]).node_id@ == peers@[i].node_id@
            &&& r@[i].address@ == peers@[i].address@
        },
{
    let mut r: Vec<PeerInfo> = Vec::new();
    let mut i: usize = 0;
    while i < peers.len()
        invariant
            i <= peers@.len(),
            r@.len() == i,
            forall|k: int| 0 <= k < i ==> {
                &&& (#[trigger] r@[k]).node_id@ == peers@[k].node_id@
                &&& r@[k].address@ == peers@[k].address@
            },
        decreases peers@.len() - i,
    {
        r.push(PeerInfo {
            node_id: copy_string(&peers[i].node_id),
            address: copy_string(&peers[i].address),
        });
        i = i + 1;
    }
    r
}

/// Starts the heartbeat fan-out: this node's heartbeat request, encoded once,
/// goes to every configured peer in order.
pub fn send_heartbeat_requests(config: &Config) -> (f: HeartbeatFanOut)
    ensures
        f.wf(),
        f.delivered == 0,
        f.failed is None,
        f.payload@ == message_text(heartbeat_of(config.node_id@, config.address@, config.host@)),
        f.targets@.len() == config.peer_nodes@.len(),
        forall|i: int| 0 <= i < f.targets@.len() ==> {
            &&& (#[trigger] f.targets@[i]).node_id@ == config.peer_nodes@[i].node_id@
            &&& f.targets@[i].address@ == config.peer_nodes@[i].address@
        },
{
    let msg = heartbeat_request(config);
    HeartbeatFanOut {
        payload: encode(&msg),
        targets: copy_peers(&config.peer_nodes),
        delivered: 0,
        failed: None,
    }
}

/// The answer to a heartbeat request: this node's identifier, sent back to the
/// address that the request declares.
pub fn send_heartbeat_response(heartbeat: &HeartbeatRequest, config: &Config) -> (o: Outgoing)
    ensures
        o.payload@ == message_text(WireMessage::HeartbeatResponse { node_id: config.node_id@ }),
        o.node_id@ == heartbeat.peer_info.node_id@,
        o.address@ == heartbeat.peer_info.address@,
{
    let msg = PeerMessage::Heartbeat(
        Heartbeat::Response(HeartbeatResponse { node_id: copy_string(&config.node_id) }),
    );
    Outgoing {
        payload: encode(&msg),
        node_id: copy_string(&heartbeat.peer_info.node_id),
        address: copy_string(&heartbeat.peer_info.address),
    }
}

/// The answer to a vote request: support, sent to the address configured for
/// the candidate; nothing where no address is configured for it.
pub fn support_vote(vote: &VoteRequest, config: &Config) -> (o: Option<Outgoing>)
    ensures
        o is None <==> node_addr(config.peer_nodes@, vote.node_id@) is None,
        o matches Some(out) ==> {
            &&& out.payload@ == message_text(WireMessage::VoteResponse { node_id: config.node_id@ })
            &&& out.node_id@ == vote.node_id@
            &&& Some(out.address@) == node_addr(config.peer_nodes@, vote.node_id@)
        },
{
    match config.get_node_addr(&vote.node_id) {
        Some(addr) => {
            let resp = PeerMessage::Vote(
                Vote::Response(VoteResponse { node_id: copy_string(&config.node_id) }),
            );
            Some(Outgoing { payload: encode(&resp), node_id: copy_string(&vote.node_id), address: addr })
        },
        None => None,
    }
}

/// What a received datagram is.
pub enum Inbound {
    /// A zero-length read: nothing to do.
    Empty,
    /// Bytes that are no peer message; the loop goes on.
    Malformed(DecodeError),
    /// A peer message, for the handler.
    Message(PeerMessage),
}

/// Classifies the bytes of one received datagram.
pub fn listen(datagram: &[u8]) -> (r: Inbound)
    ensures
        datagram@.len() == 0 <==> r is Empty,
        datagram@.len() != 0 && !valid_utf8(datagram@) ==> r matches Inbound::Malformed(
            DecodeError::InvalidUtf8,
        ),
        r matches Inbound::Malformed(e) ==> e == (if valid_utf8(datagram@) {
            DecodeError::Malformed
        } else {
            DecodeError::InvalidUtf8
        }),
        r is Message <==> valid_utf8(datagram@) && is_message_text(decode_utf8(datagram@)),
        r matches Inbound::Message(m) ==> message_text(m@) == decode_utf8(datagram@),
        forall|w: WireMessage|
            valid_utf8(datagram@) && message_text(w) == decode_utf8(datagram@) ==> (r matches Inbound::Message(m)
                && m@ == w),
{
    if datagram.len() == 0 {
        Inbound::Empty
    } else {
        match decode(datagram) {
            Ok(m) => Inbound::Message(m),
            Err(e) => Inbound::Malformed(e),
        }
    }
}

} // verus!
