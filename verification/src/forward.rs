//! A model request on its way: which conversation it continues, and how its answer goes back.
use crate::continuation;
use crate::continuation::Continuation;
use crate::continuation_index;
use crate::continuation_index::Index;
use crate::conversations::Failure;
use crate::header;
use crate::header::first;
use crate::header::Header;
use crate::json::Json;
use crate::json::Tree;
use crate::rejection::Rejection;
use crate::rpc;
use crate::rpc::rejection_of;
use crate::scheduler::Pending;
use crate::scheduler::Waiting;
use crate::table::Table;
use crate::text;
use crate::text::alphanumeric;
use crate::text::chars_of;
use crate::text::join2;
use crate::text::join3;
use crate::text::number_text;
use crate::text::same;
use crate::text::wide_text;
use vstd::prelude::*;

verus! {

broadcast use {vstd::seq_lib::group_seq_properties, vstd::map::group_map_axioms};

/// The identifier of a request that came without one.
pub open spec fn fallback_of(process: u64, nanos: u128, sequence: u64) -> Seq<char> {
    text::decimal(process as nat) + "-"@ + text::decimal(nanos as nat) + "-"@ + text::decimal(
        sequence as nat,
    )
}

/// The identifier of a request that came without one.
pub fn fallback_id(process: u64, nanos: u128, sequence: u64) -> (r: String)
    ensures
        r@ == fallback_of(process, nanos, sequence),
{
    let head = join3(&number_text(process), "-", &wide_text(nanos));
    let r = join3(&head, "-", &number_text(sequence));
    assert(r@ =~= fallback_of(process, nanos, sequence));
    r
}

/// A request whose conversation was told by its references, if any; whatever its key, its
/// conversation's timing is kept.
pub open spec fn bound(p: Waiting, conversation: Option<Seq<char>>) -> Waiting {
    Waiting {
        key: (
            p.key.0,
            match conversation {
                Some(c) => c,
                None => p.key.1,
            },
        ),
        sticky: true,
        ..p
    }
}

/// A request after its references were looked up, and whether they told its conversation. One
/// that names its conversation itself is left alone, and so is any other where references are
/// not kept.
pub open spec fn matched(
    p: Waiting,
    references: Option<Result<Option<Seq<char>>, Rejection>>,
) -> Result<(Waiting, bool), Rejection> {
    if p.sticky {
        Ok((p, false))
    } else {
        match references {
            None => Ok((p, false)),
            Some(Err(e)) => Err(e),
            Some(Ok(conversation)) => Ok((bound(p, conversation), conversation is Some)),
        }
    }
}

/// Looks up a request's references; whether they told its conversation.
pub fn match_continuation(
    pending: &mut Pending,
    index: Option<&Index>,
    account: &str,
    body: &Json,
    now: u64,
) -> (r: Result<bool, Rejection>)
    requires
        index matches Some(i) ==> i.wf(),
    ensures
        ({
            let p = old(pending)@;
            let found = match index {
                Some(i) => Some(
                    continuation_index::resolution(
                        i@.records,
                        p.key.0,
                        account@,
                        body@,
                        now,
                    ),
                ),
                None => None,
            };
            match matched(p, found) {
                Ok((after, told)) => r == Ok::<bool, Rejection>(told) && final(pending)@ == after,
                Err(e) => r == Err::<bool, Rejection>(e) && final(pending)@ == p,
            }
        }),
{
    if pending.sticky {
        return Ok(false);
    }
    let index = match index {
        Some(index) => index,
        None => return Ok(false),
    };
    match index.resolve(&pending.key.0, account, body, now) {
        Err(e) => Err(e),
        Ok(Some(conversation)) => {
            pending.key.1 = conversation;
            pending.sticky = true;
            Ok(true)
        },
        Ok(None) => {
            pending.sticky = true;
            Ok(false)
        },
    }
}

/// What a request needs of earlier turns.
pub open spec fn needed(
    told: bool,
    body: Tree,
    headers: Seq<(Seq<char>, Seq<char>)>,
) -> Continuation {
    if told {
        Continuation::RequiresIdentity
    } else {
        continuation::continuation_of(body, header::first_of(headers, "x-codex-turn-state"@))
    }
}

/// Why a request is turned away after it waited.
pub open spec fn account_fault(
    told: bool,
    before: Seq<char>,
    after: Seq<char>,
) -> Option<Rejection> {
    if told && before != after {
        Some(Rejection::BindingLost)
    } else {
        None
    }
}

/// What a request needs of earlier turns: one whose references told its conversation needs its
/// identity.
pub fn continuation_for(told: bool, body: &Json, headers: &Vec<Header>) -> (r: Continuation)
    ensures
        r == needed(told, body@, header::header_views(headers@)),
{
    if told {
        return Continuation::RequiresIdentity;
    }
    match first(headers, "x-codex-turn-state") {
        Some(routing) => Continuation::from_request(body, Some(&routing)),
        None => Continuation::from_request(body, None),
    }
}

/// Why a request is turned away whose body is longer than what was reserved for it.
pub fn check_body(length: usize, reserved: usize) -> (r: Option<Rejection>)
    ensures
        r == (if length > reserved {
            Some(Rejection::TooLarge)
        } else {
            None
        }),
{
    if length > reserved {
        Some(Rejection::TooLarge)
    } else {
        None
    }
}

/// Why a request is turned away after it waited: its references told its conversation, and the
/// account in use is no longer the one to which they belong.
pub fn check_account(told: bool, before: &str, after: &str) -> (r: Option<Rejection>)
    ensures
        r == account_fault(told, before@, after@),
{
    if told && !same(before, after) {
        Some(Rejection::BindingLost)
    } else {
        None
    }
}

/// How a request is answered whose identity cannot be had.
pub fn identity_rejection(failure: Failure) -> (r: Rejection)
    ensures
        r == (match rpc::failure_rejection(failure) {
            Some(e) => e,
            None => Rejection::IdentityUnavailable,
        }),
{
    match rejection_of(failure) {
        Some(e) => e,
        None => Rejection::IdentityUnavailable,
    }
}

/// Whether what was sent upstream for a thread can be looked up.
pub open spec fn is_traceable(thread: Seq<char>) -> bool {
    thread.len() <= 64 && forall|i: int|
        0 <= i < thread.len() ==> text::is_alphanumeric(#[trigger] thread[i]) || thread[i] == '-'
}

/// The name of the file with what was sent upstream for a thread, where there can be one.
pub fn capture_name(thread: &str) -> (r: Option<String>)
    ensures
        r is Some <==> is_traceable(thread@),
        r matches Some(name) ==> name@ == thread@ + ".json"@,
{
    let chars = chars_of(thread);
    if chars.len() > 64 {
        return None;
    }
    let mut i: usize = 0;
    while i < chars.len()
        invariant
            i <= chars@.len(),
            chars@ == thread@,
            forall|k: int|
                0 <= k < i ==> text::is_alphanumeric(#[trigger] thread@[k]) || thread@[k] == '-',
        decreases chars@.len() - i,
    {
        let c = chars[i];
        if !(alphanumeric(c) || c == '-') {
            assert(!(text::is_alphanumeric(thread@[i as int]) || thread@[i as int] == '-'));
            return None;
        }
        i += 1;
    }
    Some(join2(thread, ".json"))
}

pub open spec fn header_or(
    headers: Map<Seq<char>, String>,
    name: Seq<char>,
    other: Seq<char>,
) -> Seq<char> {
    if headers.contains_key(name) {
        headers[name]@
    } else {
        other
    }
}

pub open spec fn listed(headers: Map<Seq<char>, String>, name: Seq<char>) -> Seq<
    (Seq<char>, Seq<char>),
> {
    if headers.contains_key(name) {
        seq![(name, headers[name]@)]
    } else {
        Seq::empty()
    }
}

/// The headers of the answer: its content type, by default that of a stream or of an error,
/// and what the caller needs to route and to time its next request.
pub open spec fn answer_of(status: u16, headers: Map<Seq<char>, String>) -> Seq<
    (Seq<char>, Seq<char>),
> {
    seq![
        (
            "content-type"@,
            header_or(
                headers,
                "content-type"@,
                if status < 400 {
                    "text/event-stream"@
                } else {
                    "application/json"@
                },
            ),
        ),
    ] + listed(headers, "x-codex-turn-state"@) + listed(headers, "retry-after"@)
}

fn push_header(out: &mut Vec<Header>, headers: &Table<String, String>, name: &str)
    requires
        headers.wf(),
    ensures
        header::header_views(final(out)@) == header::header_views(old(out)@) + listed(
            headers@,
            name@,
        ),
{
    let key = name.to_owned();
    if let Some(value) = headers.get(&key) {
        let h = Header { field: key, value: value.clone() };
        out.push(h);
        assert(header::header_views(out@) =~= header::header_views(old(out)@).push(h@));
    }
}

/// The headers of the answer.
pub fn answer_headers(status: u16, headers: &Table<String, String>) -> (r: Vec<Header>)
    requires
        headers.wf(),
    ensures
        header::header_views(r@) == answer_of(status, headers@),
{
    let key = "content-type".to_owned();
    let value = match headers.get(&key) {
        Some(value) => value.clone(),
        None => if status < 400 {
            "text/event-stream".to_owned()
        } else {
            "application/json".to_owned()
        },
    };
    let mut out: Vec<Header> = Vec::new();
    out.push(Header { field: key, value });
    assert(header::header_views(out@) =~= seq![("content-type"@, value@)]);
    push_header(&mut out, headers, "x-codex-turn-state");
    push_header(&mut out, headers, "retry-after");
    out
}

/// The answer to a request that the service would not understand.
pub fn invalid_request(message: String) -> (r: Json)
    ensures
        r@ == Tree::Object(
            Map::empty().insert(
                "error"@,
                Tree::Object(
                    Map::empty().insert("type"@, Tree::Text("invalid_request_error"@)).insert(
                        "message"@,
                        Tree::Text(message@),
                    ),
                ),
            ),
        ),
{
    let mut error = Json::object();
    error.set("type".to_owned(), Json::Text("invalid_request_error".to_owned()));
    error.set("message".to_owned(), Json::Text(message));
    let mut r = Json::object();
    r.set("error".to_owned(), error);
    r
}

/// A request that names its conversation keeps it, whatever it refers to.
pub proof fn law_named_conversation_is_kept(
    p: Waiting,
    references: Option<Result<Option<Seq<char>>, Rejection>>,
)
    requires
        p.sticky,
    ensures
        matched(p, references) == Ok::<(Waiting, bool), Rejection>((p, false)),
{
}

/// The identifier of a request that came without one is made of the process, the time and a
/// count, as numerals with hyphens between them.
pub proof fn law_identifiers_of_requests(process: u64, nanos: u128, sequence: u64)
    ensures
        ({
            let id = fallback_of(process, nanos, sequence);
            let a = text::decimal(process as nat);
            let b = text::decimal(nanos as nat);
            let c = text::decimal(sequence as nat);
            &&& id.len() == a.len() + b.len() + c.len() + 2
            &&& id.take(a.len() as int) == a
            &&& id[a.len() as int] == '-'
            &&& id.subrange((a.len() + 1) as int, (a.len() + 1 + b.len()) as int) == b
            &&& id[(a.len() + 1 + b.len()) as int] == '-'
            &&& id.skip((a.len() + 2 + b.len()) as int) == c
        }),
{
    reveal_strlit("-");
    assert("-"@.len() == 1 && "-"@[0] == '-');
    let id = fallback_of(process, nanos, sequence);
    let a = text::decimal(process as nat);
    let b = text::decimal(nanos as nat);
    let c = text::decimal(sequence as nat);
    assert(id.take(a.len() as int) =~= a);
    assert(id.subrange((a.len() + 1) as int, (a.len() + 1 + b.len()) as int) =~= b);
    assert(id.skip((a.len() + 2 + b.len()) as int) =~= c);
}

/// A request that does not name its conversation gets the one that its references lead to, where
/// they lead to one; an error of theirs is its own. Either way its conversation's timing is kept
/// from then on. Where no references are kept it stays as it is.
pub proof fn law_how_references_are_used(
    p: Waiting,
    references: Option<Result<Option<Seq<char>>, Rejection>>,
)
    requires
        !p.sticky,
    ensures
        references is None ==> matched(p, references) == Ok::<(Waiting, bool), Rejection>(
            (p, false),
        ),
        references matches Some(Err(e)) ==> matched(p, references) == Err::<
            (Waiting, bool),
            Rejection,
        >(e),
        references matches Some(Ok(found)) ==> (matched(p, references) matches Ok((q, told)) && {
            &&& told == (found is Some)
            &&& q.sticky
            &&& q.key.0 == p.key.0
            &&& found matches Some(conversation) ==> q.key.1 == conversation
            &&& found is None ==> q.key.1 == p.key.1
            &&& q == (Waiting { key: q.key, sticky: true, ..p })
        }),
{
}

/// What was sent for a thread can be looked up where its name has 64 letters, digits and hyphens
/// at most.
pub proof fn law_which_threads_can_be_looked_up(thread: Seq<char>)
    ensures
        is_traceable(thread) <==> thread.len() <= 64 && forall|i: int|
            0 <= i < thread.len() ==> ('a' <= #[trigger] thread[i] <= 'z' || 'A' <= thread[i]
                <= 'Z' || '0' <= thread[i] <= '9' || thread[i] == '-'),
{
    assert(forall|i: int|
        0 <= i < thread.len() ==> (text::is_alphanumeric(#[trigger] thread[i]) <==> 'a' <= thread[i]
            <= 'z' || 'A' <= thread[i] <= 'Z' || '0' <= thread[i] <= '9'));
}

/// An answer has the content type that the response had or, where it had none, that of a stream
/// below a status of 400 and that of a document from there on; then the turn state and when to try
/// again, where the response had them; and no other header.
pub proof fn law_headers_of_an_answer(
    status: u16,
    headers: Map<Seq<char>, String>,
    name: Seq<char>,
    value: Seq<char>,
)
    ensures
        ({
            let list = answer_of(status, headers);
            let state = headers.contains_key("x-codex-turn-state"@);
            let retry = headers.contains_key("retry-after"@);
            &&& list.len() == 1 + (if state {
                1int
            } else {
                0int
            }) + (if retry {
                1int
            } else {
                0int
            })
            &&& list[0].0 == "content-type"@
            &&& headers.contains_key("content-type"@) ==> list[0].1 == headers["content-type"@]@
            &&& !headers.contains_key("content-type"@) && status < 400 ==> list[0].1
                == "text/event-stream"@
            &&& !headers.contains_key("content-type"@) && status >= 400 ==> list[0].1
                == "application/json"@
            &&& state ==> list[1] == ("x-codex-turn-state"@, headers["x-codex-turn-state"@]@)
            &&& retry ==> list[list.len() - 1] == ("retry-after"@, headers["retry-after"@]@)
        }),
{
}

/// A request whose references told its conversation needs its identity, and so does one with a
/// turn state; any other needs it only for what its body says.
pub proof fn law_what_a_request_needs(
    told: bool,
    body: Tree,
    headers: Seq<(Seq<char>, Seq<char>)>,
)
    ensures
        ({
            let state = header::values_of(headers, "x-codex-turn-state"@);
            let r = needed(told, body, headers);
            &&& told ==> r == Continuation::RequiresIdentity
            &&& state.len() > 0 && state[0].len() > 0 ==> r == Continuation::RequiresIdentity
            &&& !told && (state.len() == 0 || state[0].len() == 0) ==> r
                == continuation::continuation_of(body, None)
        }),
{
}

/// A request whose references told its conversation is lost where the account changed while it
/// waited; no other is.
pub proof fn law_when_a_change_of_accounts_matters(
    told: bool,
    before: Seq<char>,
    after: Seq<char>,
)
    ensures
        account_fault(told, before, after) is Some <==> told && before != after,
        account_fault(told, before, after) matches Some(e) ==> e == Rejection::BindingLost,
{
}

} // verus!
