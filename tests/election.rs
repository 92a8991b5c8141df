use peer_election::election::{ActorAction, ActorInput, ElectionState, StatsActor, StatsEvent};

#[test]
fn actor_starts_as_candidate() {
    let actor = StatsActor::new();
    assert_eq!(actor.api_request(), ElectionState::Candidate);
}

#[test]
fn query_sees_the_latest_update() {
    let mut actor = StatsActor::new();
    let updates = [ElectionState::Leader, ElectionState::Follower, ElectionState::Follower, ElectionState::Candidate, ElectionState::Leader];
    for u in updates {
        assert_eq!(actor.step(ActorInput::Event(StatsEvent::Election(u))), ActorAction::Continue);
        assert_eq!(actor.step(ActorInput::Query), ActorAction::Reply(u));
        assert_eq!(actor.step(ActorInput::Query), ActorAction::Reply(u));
    }
}

#[test]
fn closed_channels_and_shutdown_stop_the_loop() {
    let mut actor = StatsActor::new();
    actor.stats_event(StatsEvent::Election(ElectionState::Follower));
    assert_eq!(actor.step(ActorInput::EventsClosed), ActorAction::Stop);
    assert_eq!(actor.step(ActorInput::QueriesClosed), ActorAction::Stop);
    assert_eq!(actor.step(ActorInput::Shutdown), ActorAction::Stop);
    assert_eq!(actor.api_request(), ElectionState::Follower);
}
