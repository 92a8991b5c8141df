use peer_election::codec::{decode, encode, DecodeError};
use peer_election::message::{Heartbeat, HeartbeatRequest, PeerInfo, PeerMessage, PublicEndpoints, Vote, VoteRequest};
use peer_election::transport::{
    listen, send_heartbeat_requests, send_heartbeat_response, support_vote, Config, Inbound,
};

fn peer(id: &str, addr: &str) -> PeerInfo {
    PeerInfo { node_id: id.to_string(), address: addr.to_string() }
}

fn config() -> Config {
    Config {
        node_id: "me".to_string(),
        address: "10.0.0.9:7000".to_string(),
        host: "10.0.0.9".to_string(),
        peer_nodes: vec![peer("p1", "10.0.0.1:7000"), peer("p2", "10.0.0.2:7000"), peer("p3", "10.0.0.3:7000")],
    }
}

#[test]
fn fan_out_stops_at_the_first_failure() {
    let mut f = send_heartbeat_requests(&config());
    let mut sent_to = Vec::new();
    let mut attempt = 0;
    while let Some(out) = f.next_target() {
        attempt += 1;
        sent_to.push(out.address.clone());
        f.record(attempt != 2);
    }
    assert_eq!(sent_to, vec!["10.0.0.1:7000".to_string(), "10.0.0.2:7000".to_string()]);
    let err = f.outcome().unwrap_err();
    assert_eq!(err.node_id, "p2");
    assert_eq!(err.to_string(), "error sending peer message to p2@10.0.0.2:7000");
}

#[test]
fn fan_out_reaches_every_peer() {
    let mut f = send_heartbeat_requests(&config());
    let mut n = 0;
    while let Some(out) = f.next_target() {
        n += 1;
        match decode(out.payload.as_bytes()).unwrap() {
            PeerMessage::Heartbeat(Heartbeat::Request(r)) => {
                assert_eq!(r.peer_info.node_id, "me");
                assert_eq!(r.peer_info.address, "10.0.0.9:7000");
                assert_eq!(r.public_endpoints.address, "10.0.0.9");
                assert_eq!(r.public_endpoints.tcp_port, 8081);
                assert_eq!(r.public_endpoints.ws_port, 8080);
            }
            _ => panic!("not a heartbeat request"),
        }
        f.record(true);
    }
    assert_eq!(n, 3);
    assert!(f.outcome().is_ok());
}

#[test]
fn heartbeat_is_answered_at_the_declared_address() {
    let req = HeartbeatRequest {
        peer_info: peer("p7", "192.168.1.7:9000"),
        public_endpoints: PublicEndpoints { address: "192.168.1.7".to_string(), tcp_port: 1, ws_port: 2 },
    };
    let out = send_heartbeat_response(&req, &config());
    assert_eq!(out.address, "192.168.1.7:9000");
    assert_eq!(out.payload, "{\"Heartbeat\":{\"Response\":{\"node_id\":\"me\"}}}");
}

#[test]
fn vote_is_supported_at_the_configured_address() {
    let out = support_vote(&VoteRequest { node_id: "p3".to_string() }, &config()).unwrap();
    assert_eq!(out.address, "10.0.0.3:7000");
    assert_eq!(out.payload, "{\"Vote\":{\"Response\":{\"node_id\":\"me\"}}}");
}

#[test]
fn vote_from_an_unknown_node_sends_nothing() {
    assert!(support_vote(&VoteRequest { node_id: "stranger".to_string() }, &config()).is_none());
}

#[test]
fn node_address_lookup() {
    let c = config();
    assert_eq!(c.get_node_addr(&"p2".to_string()), Some("10.0.0.2:7000".to_string()));
    assert_eq!(c.get_node_addr(&"p4".to_string()), None);
}

#[test]
fn datagrams_are_classified() {
    assert!(matches!(listen(&[]), Inbound::Empty));
    assert!(matches!(listen(b"{\"Vote\":"), Inbound::Malformed(DecodeError::Malformed)));
    assert!(matches!(listen(&[0xc3]), Inbound::Malformed(DecodeError::InvalidUtf8)));
    let m = PeerMessage::Vote(Vote::Request(VoteRequest { node_id: "c".to_string() }));
    match listen(encode(&m).as_bytes()) {
        Inbound::Message(PeerMessage::Vote(Vote::Request(r))) => assert_eq!(r.node_id, "c"),
        _ => panic!("not decoded"),
    }
    assert!(matches!(listen(b"garbage"), Inbound::Malformed(DecodeError::Malformed)));
}
