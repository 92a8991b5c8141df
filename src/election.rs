//! The election state actor: the single owner of the node's current role.
//!
//! The actor's task feeds every message of its two channels, and the end of
//! either channel or a shutdown request, to [`StatsActor::step`], which decides
//! what the task does next.
use vstd::prelude::*;

verus! {

/// A node's current belief about its position in the leadership protocol.
#[derive(Debug, Clone, Copy, PartialEq, Eq, Structural)]
pub enum ElectionState {
    Candidate,
    Leader,
    Follower,
}

/// A role transition reported to the actor.
#[derive(Debug, Clone, Copy, PartialEq, Eq, Structural)]
pub enum StatsEvent {
    Election(ElectionState),
}

/// One thing the actor's event loop observed.
#[derive(Debug, Clone, Copy, PartialEq, Eq, Structural)]
pub enum ActorInput {
    /// A message of the event channel.
    Event(StatsEvent),
    /// A role query of the query channel.
    Query,
    /// The producer side of the event channel is gone.
    EventsClosed,
    /// The producer side of the query channel is gone.
    QueriesClosed,
    /// Shutdown was requested.
    Shutdown,
}

/// What the actor's task does after one input.
#[derive(Debug, Clone, Copy, PartialEq, Eq, Structural)]
pub enum ActorAction {
    /// Keep waiting for the next input.
    Continue,
    /// Send this role to the querier, then keep waiting.
    Reply(ElectionState),
    /// Leave the event loop.
    Stop,
}

/// The role the actor holds before any update arrives.
pub open spec fn initial_role() -> ElectionState {
    ElectionState::Candidate
}

/// The held role and the action after one input: an update overwrites the
/// role unconditionally, a query is answered with the held role, and the end
/// of a channel or a shutdown stops the loop.
pub open spec fn step_spec(role: ElectionState, input: ActorInput) -> (ElectionState, ActorAction) {
    match input {
        ActorInput::Event(StatsEvent::Election(r)) => (r, ActorAction::Continue),
        ActorInput::Query => (role, ActorAction::Reply(role)),
        _ => (role, ActorAction::Stop),
    }
}

/// The role held after the actor has taken `inputs` in order, from `role`.
pub open spec fn role_after(role: ElectionState, inputs: Seq<ActorInput>) -> ElectionState
    decreases inputs.len(),
{
    if inputs.len() == 0 {
        role
    } else {
        role_after(step_spec(role, inputs[0]).0, inputs.skip(1))
    }
}

/// The value of the last update among `inputs`, or `role` if there is none.
pub open spec fn last_update(role: ElectionState, inputs: Seq<ActorInput>) -> ElectionState
    decreases inputs.len(),
{
    if inputs.len() == 0 {
        role
    } else {
        match inputs.last() {
            ActorInput::Event(StatsEvent::Election(r)) => r,
            _ => last_update(role, inputs.drop_last()),
        }
    }
}

/// Whether an input keeps the actor's loop running.
pub open spec fn is_update_or_query(input: ActorInput) -> bool {
    input is Event || input is Query
}

/// The actor's state.
pub struct StatsActor {
    pub election_state: ElectionState,
}

impl StatsActor {
    /// An actor that holds the initial role.
    pub fn new() -> (r: StatsActor)
        ensures
            r.election_state == initial_role(),
    {
        StatsActor { election_state: ElectionState::Candidate }
    }

    /// Applies a role update: the last write wins.
    pub fn stats_event(&mut self, e: StatsEvent)
        ensures
            final(self).election_state == step_spec(
                old(self).election_state,
                ActorInput::Event(e),
            ).0,
    {
        match e {
            StatsEvent::Election(state) => self.election_state = state,
        }
    }

    /// Answers a role query with a copy of the held role.
    pub fn api_request(&self) -> (r: ElectionState)
        ensures
            r == self.election_state,
    {
        self.election_state
    }

    /// Takes one input of the event loop.
    pub fn step(&mut self, input: ActorInput) -> (a: ActorAction)
        ensures
            (final(self).election_state, a) == step_spec(old(self).election_state, input),
    {
        match input {
            ActorInput::Event(e) => {
                self.stats_event(e);
                ActorAction::Continue
            },
            ActorInput::Query => ActorAction::Reply(self.api_request()),
            _ => ActorAction::Stop,
        }
    }
}

proof fn lemma_role_after_push(role: ElectionState, inputs: Seq<ActorInput>, x: ActorInput)
    ensures
        role_after(role, inputs.push(x)) == step_spec(role_after(role, inputs), x).0,
    decreases inputs.len(),
{
    if inputs.len() > 0 {
        assert(inputs.push(x).skip(1) =~= inputs.skip(1).push(x));
        assert(inputs.push(x)[0] == inputs[0]);
        lemma_role_after_push(step_spec(role, inputs[0]).0, inputs.skip(1), x);
    } else {
        assert(inputs.push(x).skip(1) =~= Seq::<ActorInput>::empty());
        assert(inputs.push(x)[0] == x);
        assert(role_after(step_spec(role, x).0, Seq::<ActorInput>::empty()) == step_spec(role, x).0);
    }
}

/// Updates and queries are applied one at a time in arrival order: from any
/// held role, a query taken after any sequence of updates and queries is
/// answered with the value of the most recent update, or with the role held
/// at the start if no update came yet.
pub proof fn lemma_query_observes_latest_update(role: ElectionState, inputs: Seq<ActorInput>)
    requires
        forall|i: int| 0 <= i < inputs.len() ==> is_update_or_query(#[trigger] inputs[i]),
    ensures
        step_spec(role_after(role, inputs), ActorInput::Query).1
            == ActorAction::Reply(last_update(role, inputs)),
{
    lemma_role_is_last_update(role, inputs);
}

/// From any held role, the role after a sequence of updates and queries is the
/// value of the most recent update, or the starting role if none came.
pub proof fn lemma_role_is_last_update(role: ElectionState, inputs: Seq<ActorInput>)
    requires
        forall|i: int| 0 <= i < inputs.len() ==> is_update_or_query(#[trigger] inputs[i]),
    ensures
        role_after(role, inputs) == last_update(role, inputs),
    decreases inputs.len(),
{
    if inputs.len() > 0 {
        let init = inputs.drop_last();
        assert(init.push(inputs.last()) =~= inputs);
        assert forall|i: int| 0 <= i < init.len() implies is_update_or_query(#[trigger] init[i]) by {
            assert(init[i] == inputs[i]);
        }
        lemma_role_is_last_update(role, init);
        lemma_role_after_push(role, init, inputs.last());
        assert(is_update_or_query(inputs[inputs.len() - 1]));
    }
}

} // verus!
