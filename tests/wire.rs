use peer_election::codec::{decode, decode_text, encode, DecodeError};
use peer_election::message::{
    Heartbeat, HeartbeatRequest, HeartbeatResponse, PeerInfo, PeerMessage, PublicEndpoints, Vote,
    VoteRequest, VoteResponse,
};

fn heartbeat_request(id: &str, addr: &str, host: &str, tcp: u16, ws: u16) -> PeerMessage {
    PeerMessage::Heartbeat(Heartbeat::Request(HeartbeatRequest {
        peer_info: PeerInfo { node_id: id.to_string(), address: addr.to_string() },
        public_endpoints: PublicEndpoints { address: host.to_string(), tcp_port: tcp, ws_port: ws },
    }))
}

fn fields(m: &PeerMessage) -> (u8, Vec<String>, Vec<u16>) {
    match m {
        PeerMessage::Heartbeat(Heartbeat::Request(r)) => (
            0,
            vec![
                r.peer_info.node_id.clone(),
                r.peer_info.address.clone(),
                r.public_endpoints.address.clone(),
            ],
            vec![r.public_endpoints.tcp_port, r.public_endpoints.ws_port],
        ),
        PeerMessage::Heartbeat(Heartbeat::Response(r)) => (1, vec![r.node_id.clone()], vec![]),
        PeerMessage::Vote(Vote::Request(r)) => (2, vec![r.node_id.clone()], vec![]),
        PeerMessage::Vote(Vote::Response(r)) => (3, vec![r.node_id.clone()], vec![]),
    }
}

fn round_trip(m: PeerMessage) {
    let text = encode(&m);
    let back = decode(text.as_bytes()).expect("an encoding decodes");
    assert_eq!(fields(&back), fields(&m));
}

#[test]
fn heartbeat_request_encoding() {
    let m = heartbeat_request("n1", "10.0.0.1:7000", "10.0.0.1", 8081, 8080);
    assert_eq!(
        encode(&m),
        "{\"Heartbeat\":{\"Request\":{\"peer_info\":{\"node_id\":\"n1\",\"address\":\"10.0.0.1:7000\"},\"public_endpoints\":{\"address\":\"10.0.0.1\",\"tcp_port\":8081,\"ws_port\":8080}}}}"
    );
}

#[test]
fn vote_and_heartbeat_response_encoding() {
    let vote = PeerMessage::Vote(Vote::Request(VoteRequest { node_id: "a".to_string() }));
    assert_eq!(encode(&vote), "{\"Vote\":{\"Request\":{\"node_id\":\"a\"}}}");
    let resp = PeerMessage::Vote(Vote::Response(VoteResponse { node_id: "b".to_string() }));
    assert_eq!(encode(&resp), "{\"Vote\":{\"Response\":{\"node_id\":\"b\"}}}");
    let hb = PeerMessage::Heartbeat(Heartbeat::Response(HeartbeatResponse { node_id: "c".to_string() }));
    assert_eq!(encode(&hb), "{\"Heartbeat\":{\"Response\":{\"node_id\":\"c\"}}}");
}

#[test]
fn escapes_follow_json() {
    let vote = PeerMessage::Vote(Vote::Request(VoteRequest { node_id: "q\"b\\n\nt\u{1}".to_string() }));
    assert_eq!(encode(&vote), "{\"Vote\":{\"Request\":{\"node_id\":\"q\\\"b\\\\n\\nt\\u0001\"}}}");
}

#[test]
fn encoding_is_json_that_a_json_parser_reads() {
    let m = heartbeat_request("n\"1\u{7}", "[::1]:9", "ü", 0, 65535);
    let v: serde_json::Value = serde_json::from_str(&encode(&m)).expect("valid JSON");
    let req = &v["Heartbeat"]["Request"];
    assert_eq!(req["peer_info"]["node_id"], "n\"1\u{7}");
    assert_eq!(req["peer_info"]["address"], "[::1]:9");
    assert_eq!(req["public_endpoints"]["address"], "ü");
    assert_eq!(req["public_endpoints"]["tcp_port"], 0);
    assert_eq!(req["public_endpoints"]["ws_port"], 65535);
}

#[test]
fn round_trip_of_each_variant() {
    round_trip(heartbeat_request("node-1", "127.0.0.1:4000", "127.0.0.1", 8081, 8080));
    round_trip(PeerMessage::Heartbeat(Heartbeat::Response(HeartbeatResponse { node_id: "x".to_string() })));
    round_trip(PeerMessage::Vote(Vote::Request(VoteRequest { node_id: "cand".to_string() })));
    round_trip(PeerMessage::Vote(Vote::Response(VoteResponse { node_id: "sup".to_string() })));
}

#[test]
fn round_trip_with_empty_and_unusual_strings() {
    round_trip(heartbeat_request("", "", "", 0, 0));
    round_trip(heartbeat_request("\"\\\u{8}\u{c}\n\r\t\u{1f}", "ß:1", "日本", 9, 10));
    round_trip(PeerMessage::Heartbeat(Heartbeat::Response(HeartbeatResponse { node_id: String::new() })));
    round_trip(PeerMessage::Vote(Vote::Request(VoteRequest { node_id: String::new() })));
    round_trip(PeerMessage::Vote(Vote::Response(VoteResponse { node_id: "\u{0}".to_string() })));
}

#[test]
fn malformed_text_is_a_decode_error() {
    let full = "{\"Vote\":{\"Request\":{\"node_id\":\"a\"}}}";
    assert!(decode_text(full).is_ok());
    assert_eq!(decode_text(&full[..full.len() - 1]).err(), Some(DecodeError::Malformed));
    assert_eq!(decode_text("{\"Vote\":{\"Ballot\":{\"node_id\":\"a\"}}}").err(), Some(DecodeError::Malformed));
    assert_eq!(decode_text("{\"Vote\":{\"Request\":{\"node_id\":\"a\"}}}x").err(), Some(DecodeError::Malformed));
    assert_eq!(decode_text("").err(), Some(DecodeError::Malformed));
    assert_eq!(decode_text("{\"Vote\":{\"Request\":{\"node_id\":\"\\q\"}}}").err(), Some(DecodeError::Malformed));
    assert_eq!(
        decode_text("{\"Heartbeat\":{\"Request\":{\"peer_info\":{\"node_id\":\"n\",\"address\":\"a\"},\"public_endpoints\":{\"address\":\"h\",\"tcp_port\":65536,\"ws_port\":1}}}}").err(),
        Some(DecodeError::Malformed)
    );
    assert_eq!(
        decode_text("{\"Heartbeat\":{\"Request\":{\"peer_info\":{\"node_id\":\"n\",\"address\":\"a\"},\"public_endpoints\":{\"address\":\"h\",\"tcp_port\":08,\"ws_port\":1}}}}").err(),
        Some(DecodeError::Malformed)
    );
}

#[test]
fn invalid_utf8_is_a_decode_error() {
    assert_eq!(decode(&[0xff, 0xfe, 0x7b]).err(), Some(DecodeError::InvalidUtf8));
}

#[test]
fn string_escapes_match_a_json_serializer() {
    let id = "a\"b\\c\u{0}\u{8}\u{9}\u{a}\u{c}\u{d}\u{1f}\u{7f}é";
    let vote = PeerMessage::Vote(Vote::Response(VoteResponse { node_id: id.to_string() }));
    let expected = format!("{{\"Vote\":{{\"Response\":{{\"node_id\":{}}}}}}}", serde_json::to_string(id).unwrap());
    assert_eq!(encode(&vote), expected);
}

#[test]
fn only_the_canonical_form_decodes() {
    assert_eq!(decode_text("{ \"Vote\":{\"Request\":{\"node_id\":\"a\"}}}").err(), Some(DecodeError::Malformed));
    assert_eq!(decode_text("{\"Vote\":{\"Request\":{\"node_id\":\"\\u0041\"}}}").err(), Some(DecodeError::Malformed));
    assert!(decode_text("{\"Vote\":{\"Request\":{\"node_id\":\"\\u001f\"}}}").is_ok());
}
