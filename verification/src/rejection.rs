//! Why a request is turned away, and how it is answered.
use vstd::prelude::*;

verus! {

#[derive(Clone, Copy, Debug, PartialEq, Eq, Structural)]
pub enum Rejection {
    Full,
    Limited,
    Expired,
    Cancelled,
    Duplicate,
    Unavailable,
    TooLarge,
    Conflict,
    Completed,
    OutcomeUnknown,
    BindingLost,
    ContinuationConflict,
    IdentityUnavailable,
    Paused,
    Cooldown(u64),
}

impl Rejection {
    /// The status of the answer.
    pub open spec fn status(self) -> u16 {
        match self {
            Rejection::Conflict | Rejection::Completed | Rejection::OutcomeUnknown => 409,
            Rejection::BindingLost | Rejection::ContinuationConflict => 409,
            Rejection::Cancelled | Rejection::Duplicate => 409,
            Rejection::IdentityUnavailable | Rejection::Paused | Rejection::Full => 503,
            Rejection::Expired | Rejection::Unavailable => 503,
            Rejection::Cooldown(_) | Rejection::Limited => 429,
            Rejection::TooLarge => 413,
        }
    }

    /// The code in the answer.
    pub open spec fn code(self) -> Seq<char> {
        match self {
            Rejection::Conflict => "idempotency_conflict"@,
            Rejection::Completed => "request_already_completed"@,
            Rejection::OutcomeUnknown => "request_outcome_unknown"@,
            Rejection::IdentityUnavailable => "worker_identity_unavailable"@,
            Rejection::BindingLost => "conversation_binding_lost"@,
            Rejection::ContinuationConflict => "continuation_conflict"@,
            Rejection::Paused => "worker_unavailable"@,
            Rejection::Cooldown(_) => "account_cooldown"@,
            Rejection::Full => "worker_overloaded"@,
            Rejection::Limited => "queue_limit_exceeded"@,
            Rejection::Expired => "queue_deadline_exceeded"@,
            Rejection::Cancelled => "request_cancelled"@,
            Rejection::Duplicate => "request_in_progress"@,
            Rejection::Unavailable => "worker_outcome_unknown"@,
            Rejection::TooLarge => "request_too_large"@,
        }
    }

    /// The status and the code of the answer.
    pub fn response(self) -> (r: (u16, &'static str))
        ensures
            r.0 == self.status(),
            r.1@ == self.code(),
    {
        match self {
            Rejection::Conflict => (409, "idempotency_conflict"),
            Rejection::Completed => (409, "request_already_completed"),
            Rejection::OutcomeUnknown => (409, "request_outcome_unknown"),
            Rejection::IdentityUnavailable => (503, "worker_identity_unavailable"),
            Rejection::BindingLost => (409, "conversation_binding_lost"),
            Rejection::ContinuationConflict => (409, "continuation_conflict"),
            Rejection::Paused => (503, "worker_unavailable"),
            Rejection::Cooldown(_) => (429, "account_cooldown"),
            Rejection::Full => (503, "worker_overloaded"),
            Rejection::Limited => (429, "queue_limit_exceeded"),
            Rejection::Expired => (503, "queue_deadline_exceeded"),
            Rejection::Cancelled => (409, "request_cancelled"),
            Rejection::Duplicate => (409, "request_in_progress"),
            Rejection::Unavailable => (503, "worker_outcome_unknown"),
            Rejection::TooLarge => (413, "request_too_large"),
        }
    }
}

/// A refusal is answered with 413 where the request is too large, with 429 where its own tenant or
/// the service set a bound, with 503 where nothing can be served now, and with 409 where the
/// request itself stands in the way.
pub proof fn law_statuses_tell_who_can_help(r: Rejection)
    ensures
        r.status() == 413 <==> r is TooLarge,
        r.status() == 429 <==> r is Limited || r is Cooldown,
        r.status() == 503 <==> r is Full || r is Expired || r is Unavailable || r is Paused || r
            is IdentityUnavailable,
        r.status() == 409 <==> r is Conflict || r is Completed || r is OutcomeUnknown || r
            is BindingLost || r is ContinuationConflict || r is Cancelled || r is Duplicate,
{
}

/// No two refusals have the same code, but for the length of a delay.
pub proof fn law_codes_are_different(a: Rejection, b: Rejection)
    ensures
        a.code() == b.code() <==> a == b || (a is Cooldown && b is Cooldown),
        a is Conflict ==> a.code() == "idempotency_conflict"@,
        a is Completed ==> a.code() == "request_already_completed"@,
        a is OutcomeUnknown ==> a.code() == "request_outcome_unknown"@,
        a is IdentityUnavailable ==> a.code() == "worker_identity_unavailable"@,
        a is BindingLost ==> a.code() == "conversation_binding_lost"@,
        a is ContinuationConflict ==> a.code() == "continuation_conflict"@,
        a is Paused ==> a.code() == "worker_unavailable"@,
        a is Cooldown ==> a.code() == "account_cooldown"@,
        a is Full ==> a.code() == "worker_overloaded"@,
        a is Limited ==> a.code() == "queue_limit_exceeded"@,
        a is Expired ==> a.code() == "queue_deadline_exceeded"@,
        a is Cancelled ==> a.code() == "request_cancelled"@,
        a is Duplicate ==> a.code() == "request_in_progress"@,
        a is Unavailable ==> a.code() == "worker_outcome_unknown"@,
        a is TooLarge ==> a.code() == "request_too_large"@,
{
    reveal_strlit("idempotency_conflict");
    reveal_strlit("request_already_completed");
    reveal_strlit("request_outcome_unknown");
    reveal_strlit("worker_identity_unavailable");
    reveal_strlit("conversation_binding_lost");
    reveal_strlit("continuation_conflict");
    reveal_strlit("worker_unavailable");
    reveal_strlit("account_cooldown");
    reveal_strlit("worker_overloaded");
    reveal_strlit("queue_limit_exceeded");
    reveal_strlit("queue_deadline_exceeded");
    reveal_strlit("request_cancelled");
    reveal_strlit("request_in_progress");
    reveal_strlit("worker_outcome_unknown");
    reveal_strlit("request_too_large");
    assert("idempotency_conflict"@.len() == 20 && "idempotency_conflict"@[0] == 'i');
    assert("request_already_completed"@.len() == 25 && "request_already_completed"@[0] == 'r');
    assert("request_outcome_unknown"@.len() == 23);
    assert("worker_identity_unavailable"@.len() == 27);
    assert("conversation_binding_lost"@.len() == 25 && "conversation_binding_lost"@[0] == 'c');
    assert("continuation_conflict"@.len() == 21);
    assert("worker_unavailable"@.len() == 18);
    assert("account_cooldown"@.len() == 16);
    assert("worker_overloaded"@.len() == 17 && "worker_overloaded"@[0] == 'w');
    assert("queue_limit_exceeded"@.len() == 20 && "queue_limit_exceeded"@[0] == 'q');
    assert("queue_deadline_exceeded"@.len() == 23 && "queue_deadline_exceeded"@[0] == 'q');
    assert("request_outcome_unknown"@[0] == 'r');
    assert("request_cancelled"@.len() == 17 && "request_cancelled"@[0] == 'r'
        && "request_cancelled"@[8] == 'c');
    assert("request_in_progress"@.len() == 19);
    assert("worker_outcome_unknown"@.len() == 22);
    assert("request_too_large"@.len() == 17 && "request_too_large"@[8] == 't');
}

} // verus!
