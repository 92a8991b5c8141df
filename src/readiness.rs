//! The readiness probe: how the held role becomes an HTTP answer.
use vstd::prelude::*;
use crate::election::ElectionState;

verus! {

/// HTTP status 200.
pub const STATUS_OK: u16 = 200;

/// HTTP status 403.
pub const STATUS_FORBIDDEN: u16 = 403;

/// HTTP status 500.
pub const STATUS_INTERNAL_SERVER_ERROR: u16 = 500;

/// HTTP status 503.
pub const STATUS_SERVICE_UNAVAILABLE: u16 = 503;

/// A status code and a JSON body.
pub struct ReadyResponse {
    pub status: u16,
    pub body: String,
}

/// The role the probe reports: the actor's answer, or, where the actor could
/// not be reached, the role of a node that has just started.
pub open spec fn reported_role(answer: Option<ElectionState>) -> ElectionState {
    match answer {
        Some(r) => r,
        None => ElectionState::Candidate,
    }
}

/// A leader or a candidate is ready; a follower is not.
pub open spec fn ready_status(role: ElectionState) -> u16 {
    match role {
        ElectionState::Follower => STATUS_SERVICE_UNAVAILABLE,
        _ => STATUS_OK,
    }
}

/// The role's name as a JSON string.
pub open spec fn ready_body(role: ElectionState) -> Seq<char> {
    match role {
        ElectionState::Candidate => "\"candidate\""@,
        ElectionState::Leader => "\"leader\""@,
        ElectionState::Follower => "\"follower\""@,
    }
}

/// Maps the actor's answer to a role query (`None` where the query failed) to
/// the answer of `GET /ready`.
pub fn ready(answer: Option<ElectionState>) -> (r: ReadyResponse)
    ensures
        r.status == ready_status(reported_role(answer)),
        r.body@ == ready_body(reported_role(answer)),
{
    let state = match answer {
        Some(it) => it,
        None => ElectionState::Candidate,
    };
    match state {
        ElectionState::Candidate => ReadyResponse {
            status: STATUS_OK,
            body: String::from_str("\"candidate\""),
        },
        ElectionState::Leader => ReadyResponse {
            status: STATUS_OK,
            body: String::from_str("\"leader\""),
        },
        ElectionState::Follower => ReadyResponse {
            status: STATUS_SERVICE_UNAVAILABLE,
            body: String::from_str("\"follower\""),
        },
    }
}

/// Why the heap dump route turns a request away: a status and a message.
pub open spec fn heap_dump_refusal(profiling_available: bool, activated: bool) -> Option<
    (u16, Seq<char>),
> {
    if !profiling_available {
        Some((STATUS_INTERNAL_SERVER_ERROR, "jemalloc profiling is not enabled"@))
    } else if !activated {
        Some((STATUS_FORBIDDEN, "heap profiling not activated"@))
    } else {
        None
    }
}

/// Decides whether a heap dump may be taken: 500 where profiling
/// instrumentation is missing, 403 where it exists but was never activated.
pub fn require_profiling_activated(profiling_available: bool, activated: bool) -> (r: Result<
    (),
    (u16, String),
>)
    ensures
        r is Ok <==> heap_dump_refusal(profiling_available, activated) is None,
        r matches Err((status, msg)) ==> heap_dump_refusal(profiling_available, activated) == Some(
            (status, msg@),
        ),
{
    if !profiling_available {
        Err((STATUS_INTERNAL_SERVER_ERROR, String::from_str("jemalloc profiling is not enabled")))
    } else if !activated {
        Err((STATUS_FORBIDDEN, String::from_str("heap profiling not activated")))
    } else {
        Ok(())
    }
}

} // verus!
