use peer_election::election::ElectionState;
use peer_election::readiness::{ready, require_profiling_activated};

#[test]
fn leader_is_ready() {
    let r = ready(Some(ElectionState::Leader));
    assert_eq!(r.status, 200);
    assert_eq!(r.body, "\"leader\"");
}

#[test]
fn follower_is_not_ready() {
    let r = ready(Some(ElectionState::Follower));
    assert_eq!(r.status, 503);
    assert_eq!(r.body, "\"follower\"");
}

#[test]
fn candidate_is_ready() {
    let r = ready(Some(ElectionState::Candidate));
    assert_eq!(r.status, 200);
    assert_eq!(r.body, "\"candidate\"");
}

#[test]
fn unreachable_actor_reads_as_candidate() {
    let r = ready(None);
    assert_eq!(r.status, 200);
    assert_eq!(r.body, "\"candidate\"");
}

#[test]
fn heap_dump_refusals() {
    assert_eq!(require_profiling_activated(false, false).unwrap_err(), (500, "jemalloc profiling is not enabled".to_string()));
    assert_eq!(require_profiling_activated(false, true).unwrap_err(), (500, "jemalloc profiling is not enabled".to_string()));
    assert_eq!(require_profiling_activated(true, false).unwrap_err(), (403, "heap profiling not activated".to_string()));
    assert!(require_profiling_activated(true, true).is_ok());
}
