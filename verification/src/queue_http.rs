//! The control plane of the queue, and what a model request asks of the queue. Neither enters
//! the model request or its response.
use crate::affinity;
use crate::affinity::key_for_request;
use crate::clock::LAST_INSTANT;
use crate::clock::MILLISECOND;
use crate::digest;
use crate::digest::digest;
use crate::header;
use crate::header::first;
use crate::header::values;
use crate::header::Header;
use crate::json;
use crate::json::object_fault;
use crate::json::read_object;
use crate::json::Json;
use crate::json::Tree;
use crate::rejection::Rejection;
use crate::scheduler::Key;
use crate::scheduler::Pending;
use crate::scheduler::Waiting;
use crate::scheduler::MAX_QUEUE_WAIT;
use crate::signals;
use crate::signals::Evidence;
use crate::text;
use crate::text::after_prefix;
use crate::text::alphanumeric;
use crate::text::begins_with;
use crate::text::byte_len;
use crate::text::chars_of;
use crate::text::number_fault;
use crate::text::parse_number;
use crate::text::same;
use vstd::prelude::*;
use vstd::utf8::*;

verus! {

broadcast use {vstd::seq_lib::group_seq_properties, vstd::map::group_map_axioms};

/// The longest value of a queue header, in bytes.
pub const MAX_VALUE: usize = 128;

/// Whether a text can stand in a queue header: letters, digits, hyphens, underscores and
/// colons, but not too many.
pub open spec fn is_queue_text(s: Seq<char>) -> bool {
    0 < s.len() <= MAX_VALUE && forall|i: int|
        0 <= i < s.len() ==> text::is_alphanumeric(#[trigger] s[i]) || s[i] == '-' || s[i] == '_'
            || s[i] == ':'
}

fn queue_text(s: &str) -> (r: bool)
    ensures
        r == is_queue_text(s@),
{
    let chars = chars_of(s);
    if chars.len() == 0 || chars.len() > MAX_VALUE {
        return false;
    }
    let mut i: usize = 0;
    while i < chars.len()
        invariant
            i <= chars@.len(),
            chars@ == s@,
            forall|k: int|
                0 <= k < i ==> text::is_alphanumeric(#[trigger] s@[k]) || s@[k] == '-' || s@[k]
                    == '_' || s@[k] == ':',
        decreases chars@.len() - i,
    {
        let c = chars[i];
        if !(alphanumeric(c) || c == '-' || c == '_' || c == ':') {
            assert(!(text::is_alphanumeric(s@[i as int]) || s@[i as int] == '-' || s@[i as int]
                == '_' || s@[i as int] == ':'));
            return false;
        }
        i += 1;
    }
    true
}

/// Why a request cannot be queued.
/// The words of another are a `String`, and in contracts its characters.
#[derive(Debug, PartialEq, Eq)]
pub enum QueueError<S> {
    DuplicateHeader,
    InvalidHeader,
    Body(S),
    Background,
    NoModel,
    ClientMetadata,
    TurnMetadata,
    NestedMetadata(S),
    Budget(S),
    KeyTooLong,
}

impl View for QueueError<String> {
    type V = QueueError<Seq<char>>;

    open spec fn view(&self) -> QueueError<Seq<char>> {
        match *self {
            QueueError::DuplicateHeader => QueueError::DuplicateHeader,
            QueueError::InvalidHeader => QueueError::InvalidHeader,
            QueueError::Body(s) => QueueError::Body(s@),
            QueueError::Background => QueueError::Background,
            QueueError::NoModel => QueueError::NoModel,
            QueueError::ClientMetadata => QueueError::ClientMetadata,
            QueueError::TurnMetadata => QueueError::TurnMetadata,
            QueueError::NestedMetadata(s) => QueueError::NestedMetadata(s@),
            QueueError::Budget(s) => QueueError::Budget(s@),
            QueueError::KeyTooLong => QueueError::KeyTooLong,
        }
    }
}

impl QueueError<Seq<char>> {
    pub open spec fn words(self) -> Seq<char> {
        match self {
            QueueError::DuplicateHeader => "duplicate queue header"@,
            QueueError::InvalidHeader => "invalid queue header"@,
            QueueError::Body(s) => s,
            QueueError::Background => "background responses are not supported by the queue"@,
            QueueError::NoModel => "missing model"@,
            QueueError::ClientMetadata => "invalid client_metadata"@,
            QueueError::TurnMetadata => "invalid turn metadata"@,
            QueueError::NestedMetadata(s) => s,
            QueueError::Budget(s) => s,
            QueueError::KeyTooLong => "conversation key too long"@,
        }
    }
}

impl QueueError<String> {
    pub fn message(&self) -> (r: String)
        ensures
            r@ == self@.words(),
    {
        match self {
            QueueError::DuplicateHeader => "duplicate queue header".to_owned(),
            QueueError::InvalidHeader => "invalid queue header".to_owned(),
            QueueError::Body(s) => s.clone(),
            QueueError::Background => "background responses are not supported by the queue".to_owned(),
            QueueError::NoModel => "missing model".to_owned(),
            QueueError::ClientMetadata => "invalid client_metadata".to_owned(),
            QueueError::TurnMetadata => "invalid turn metadata".to_owned(),
            QueueError::NestedMetadata(s) => s.clone(),
            QueueError::Budget(s) => s.clone(),
            QueueError::KeyTooLong => "conversation key too long".to_owned(),
        }
    }
}

/// The value of a queue header.
pub open spec fn queue_header(headers: Seq<(Seq<char>, Seq<char>)>, name: Seq<char>) -> Result<
    Option<Seq<char>>,
    QueueError<Seq<char>>,
> {
    let list = header::values_of(headers, name);
    if list.len() > 1 {
        Err(QueueError::DuplicateHeader)
    } else if list.len() == 0 {
        Ok(None)
    } else if is_queue_text(list[0]) {
        Ok(Some(list[0]))
    } else {
        Err(QueueError::InvalidHeader)
    }
}

pub open spec fn header_view(r: Result<Option<String>, QueueError<String>>) -> Result<
    Option<Seq<char>>,
    QueueError<Seq<char>>,
> {
    match r {
        Ok(s) => Ok(text::text_option(s)),
        Err(e) => Err(e@),
    }
}

/// The value of a queue header.
pub fn header(headers: &Vec<Header>, name: &str) -> (r: Result<Option<String>, QueueError<String>>)
    ensures
        header_view(r) == queue_header(header::header_views(headers@), name@),
{
    let list = values(headers, name);
    assert(text::texts(list@).len() == list@.len());
    if list.len() > 1 {
        return Err(QueueError::DuplicateHeader);
    }
    if list.len() == 0 {
        return Ok(None);
    }
    assert(text::texts(list@)[0] == list@[0]@);
    if !queue_text(&list[0]) {
        return Err(QueueError::InvalidHeader);
    }
    Ok(Some(list[0].clone()))
}

/// The methods that the control plane tells apart.
#[derive(Clone, Copy, Debug, PartialEq, Eq, Structural)]
pub enum Method {
    Get,
    Post,
    Other,
}

/// What a request asks of the control plane.
#[derive(Debug)]
pub enum Control {
    /// The administration is asked.
    Admin,
    Ready,
    Pause,
    Resume,
    /// Everything that may still run is to be taken as ended; whether the operator confirms
    /// that it has.
    Recover(bool),
    Status,
    /// A request of a principal is to be cancelled.
    Cancel(String, String),
    BadCancel,
    /// It is no matter of the control plane.
    Pass,
}

/// The model of a `Control`.
pub enum Request {
    Admin,
    Ready,
    Pause,
    Resume,
    Recover(bool),
    Status,
    Cancel(Seq<char>, Seq<char>),
    BadCancel,
    Pass,
}

impl View for Control {
    type V = Request;

    open spec fn view(&self) -> Request {
        match *self {
            Control::Admin => Request::Admin,
            Control::Ready => Request::Ready,
            Control::Pause => Request::Pause,
            Control::Resume => Request::Resume,
            Control::Recover(b) => Request::Recover(b),
            Control::Status => Request::Status,
            Control::Cancel(p, id) => Request::Cancel(p@, id@),
            Control::BadCancel => Request::BadCancel,
            Control::Pass => Request::Pass,
        }
    }
}

pub open spec fn principal_of(h: Option<Seq<char>>) -> Seq<char> {
    match h {
        Some(p) => p,
        None => "direct"@,
    }
}

pub open spec fn cancel_prefix() -> Seq<char> {
    "/internal/queue/cancel/"@
}

/// The cancellation that a URL and its headers ask for.
pub open spec fn cancel_of(id: Seq<char>, headers: Seq<(Seq<char>, Seq<char>)>) -> Request {
    match queue_header(headers, "x-codex-queue-principal"@) {
        Ok(p) => if is_queue_text(id) {
            Request::Cancel(principal_of(p), id)
        } else {
            Request::BadCancel
        },
        Err(_) => Request::BadCancel,
    }
}

/// What a request asks of the control plane.
pub open spec fn control_of(
    method: Method,
    url: Seq<char>,
    headers: Seq<(Seq<char>, Seq<char>)>,
) -> Request {
    if "/admin/"@.is_prefix_of(url) {
        Request::Admin
    } else if method == Method::Get && url == "/readyz"@ {
        Request::Ready
    } else if method == Method::Post && url == "/internal/queue/pause"@ {
        Request::Pause
    } else if method == Method::Post && url == "/internal/queue/resume"@ {
        Request::Resume
    } else if method == Method::Post && url == "/internal/queue/recover"@ {
        Request::Recover(
            queue_header(headers, "x-codex-queue-confirm-stopped"@) matches Ok(Some(v)) && v
                == "true"@,
        )
    } else if method == Method::Get && url == "/internal/queue/status"@ {
        Request::Status
    } else if method == Method::Post && cancel_prefix().is_prefix_of(url) {
        cancel_of(url.skip(cancel_prefix().len() as int), headers)
    } else {
        Request::Pass
    }
}

/// What a request asks of the control plane.
pub fn control(method: Method, url: &str, headers: &Vec<Header>) -> (r: Control)
    ensures
        r@ == control_of(method, url@, header::header_views(headers@)),
{
    if begins_with(url, "/admin/") {
        return Control::Admin;
    }
    if method == Method::Get && same(url, "/readyz") {
        return Control::Ready;
    }
    if method == Method::Post && same(url, "/internal/queue/pause") {
        return Control::Pause;
    }
    if method == Method::Post && same(url, "/internal/queue/resume") {
        return Control::Resume;
    }
    if method == Method::Post && same(url, "/internal/queue/recover") {
        let confirmed = match header(headers, "x-codex-queue-confirm-stopped") {
            Ok(Some(value)) => same(&value, "true"),
            _ => false,
        };
        return Control::Recover(confirmed);
    }
    if method == Method::Get && same(url, "/internal/queue/status") {
        return Control::Status;
    }
    if method == Method::Post {
        if let Some(id) = after_prefix(url, "/internal/queue/cancel/") {
            assert(id@ =~= url@.skip(cancel_prefix().len() as int));
            return match header(headers, "x-codex-queue-principal") {
                Ok(principal) => if queue_text(&id) {
                    let principal = match principal {
                        Some(p) => p,
                        None => "direct".to_owned(),
                    };
                    Control::Cancel(principal, id)
                } else {
                    Control::BadCancel
                },
                Err(_) => Control::BadCancel,
            };
        }
    }
    Control::Pass
}

/// Whether one number is less than another; a missing one is less than any.
pub open spec fn less(a: Option<u64>, b: Option<u64>) -> bool {
    match (a, b) {
        (Some(x), Some(y)) => x < y,
        (None, Some(_)) => true,
        _ => false,
    }
}

/// Whether requests can be taken, by the queue's summary.
pub open spec fn is_ready(status: Tree) -> bool {
    &&& status.is("paused"@, false)
    &&& status.is("worker_fault"@, false)
    &&& less(status.at("quarantined"@).number(), status.at("effective_max_running"@).number())
    &&& status.is("account_unavailable"@, false)
    &&& status.at("cooldown_seconds"@).number() == Some(0u64)
}

/// Whether requests can be taken, by the queue's summary.
pub fn ready(status: &Json) -> (r: bool)
    ensures
        r == is_ready(status@),
{
    let room = match (status.number_at("quarantined"), status.number_at("effective_max_running")) {
        (Some(x), Some(y)) => x < y,
        (None, Some(_)) => true,
        _ => false,
    };
    let warm = match status.number_at("cooldown_seconds") {
        Some(n) => n == 0,
        None => false,
    };
    status.is("paused", false) && status.is("worker_fault", false) && room && status.is(
        "account_unavailable",
        false,
    ) && warm
}

/// The body of the answer to a request that is turned away.
pub open spec fn rejection_tree(e: Rejection) -> Tree {
    Tree::Object(
        Map::empty().insert(
            "error"@,
            Tree::Object(
                Map::empty().insert("type"@, Tree::Text(e.code())).insert(
                    "message"@,
                    Tree::Text(e.code()),
                ),
            ),
        ),
    )
}

/// The answer to a request that is turned away: its status, its body, and after how many
/// seconds to try again.
pub fn error(rejection: Rejection) -> (r: (u16, Json, Option<u64>))
    ensures
        r.0 == rejection.status(),
        r.1@ == rejection_tree(rejection),
        r.2 == (match rejection {
            Rejection::Cooldown(seconds) => Some(seconds),
            _ => None,
        }),
{
    let (status, code) = rejection.response();
    let mut inner = Json::object();
    inner.set("type".to_owned(), Json::Text(code.to_owned()));
    inner.set("message".to_owned(), Json::Text(code.to_owned()));
    let mut body = Json::object();
    body.set("error".to_owned(), inner);
    let retry: Option<u64> = match rejection {
        Rejection::Cooldown(seconds) => Some(seconds),
        _ => None,
    };
    (status, body, retry)
}

/// What is wrong with a model request that is an object.
pub open spec fn body_fault(t: Tree) -> Option<QueueError<Seq<char>>> {
    let metadata = t.field("client_metadata"@);
    if t.is("background"@, true) {
        Some(QueueError::Background)
    } else if !(t.text_at("model"@) matches Some(m) && m.len() > 0) {
        Some(QueueError::NoModel)
    } else if metadata is None {
        None
    } else if !(metadata->0 is Object) {
        Some(QueueError::ClientMetadata)
    } else {
        match metadata->0.field("x-codex-turn-metadata"@) {
            None => None,
            Some(nested) => match nested.text() {
                None => Some(QueueError::TurnMetadata),
                Some(s) => if json::holds_object(encode_utf8(s)) {
                    None
                } else {
                    Some(QueueError::NestedMetadata(json::object_fault_text(encode_utf8(s))))
                },
            },
        }
    }
}

pub open spec fn fault_view(e: Option<QueueError<String>>) -> Option<QueueError<Seq<char>>> {
    match e {
        Some(e) => Some(e@),
        None => None,
    }
}

fn check_body(t: &Json) -> (r: Option<QueueError<String>>)
    ensures
        fault_view(r) == body_fault(t@),
{
    if t.is("background", true) {
        return Some(QueueError::Background);
    }
    let named = match t.text_at("model") {
        Some(model) => !model.as_str().is_empty(),
        None => false,
    };
    if !named {
        return Some(QueueError::NoModel);
    }
    let metadata = match t.get("client_metadata") {
        None => return None,
        Some(metadata) => metadata,
    };
    if !metadata.is_object() {
        return Some(QueueError::ClientMetadata);
    }
    let nested = match metadata.get("x-codex-turn-metadata") {
        None => return None,
        Some(nested) => nested,
    };
    match nested.as_text() {
        Some(s) => match object_fault(s.as_str().as_bytes()) {
            Some(words) => Some(QueueError::NestedMetadata(words)),
            None => None,
        },
        None => Some(QueueError::TurnMetadata),
    }
}

/// How long a request may wait, in nanoseconds.
pub open spec fn budget_of(h: Option<Seq<char>>) -> Option<u128> {
    match h {
        None => Some(MAX_QUEUE_WAIT),
        Some(s) => match text::number_of(s) {
            Some(ms) => Some(
                if ms * MILLISECOND < MAX_QUEUE_WAIT {
                    (ms * MILLISECOND) as u128
                } else {
                    MAX_QUEUE_WAIT
                },
            ),
            None => None,
        },
    }
}

/// The digest that ties a request's identifier to its exact bytes and to where it is routed.
pub open spec fn fingerprint_of(body: Seq<u8>, routing: Seq<char>, key: Seq<char>) -> Seq<char> {
    digest::digest_of(seq![body, encode_utf8(routing), encode_utf8(key)])
}

pub open spec fn or_empty(s: Option<Seq<char>>) -> Seq<char> {
    match s {
        Some(s) => s,
        None => Seq::empty(),
    }
}

/// The request as it is to be queued.
pub open spec fn pending_of(
    body: Seq<u8>,
    t: Tree,
    id: Seq<char>,
    principal: Seq<char>,
    budget: u128,
    routing: Option<Seq<char>>,
    received: u128,
) -> Waiting {
    let key = affinity::body_key(body);
    Waiting {
        id,
        key: (
            principal,
            match key {
                Some(k) => k,
                None => id,
            },
        ),
        sticky: key is Some,
        fingerprint: fingerprint_of(body, or_empty(routing), or_empty(key)),
        evidence: signals::evidence_of(t),
        bytes: body.len() as usize,
        deadline: (received + budget) as u128,
    }
}

/// The request as it is to be queued, or why it cannot be.
pub open spec fn queued(
    headers: Seq<(Seq<char>, Seq<char>)>,
    body: Seq<u8>,
    received: u128,
    fallback: Seq<char>,
) -> Result<Waiting, QueueError<Seq<char>>> {
    let id = queue_header(headers, "x-codex-queue-request-id"@);
    let principal = queue_header(headers, "x-codex-queue-principal"@);
    let budget = queue_header(headers, "x-codex-queue-budget-ms"@);
    if !json::holds_object(body) {
        Err(QueueError::Body(json::object_fault_text(body)))
    } else {
        let t = json::json_document(body)->0;
        if body_fault(t) is Some {
            Err(body_fault(t)->0)
        } else {
            match (id, principal, budget) {
                (Err(e), _, _) => Err(e),
                (Ok(_), Err(e), _) => Err(e),
                (Ok(_), Ok(_), Err(e)) => Err(e),
                (Ok(i), Ok(p), Ok(b)) => if budget_of(b) is None {
                    Err(QueueError::Budget(text::number_fault_text(b->0)))
                } else if affinity::body_key(body) matches Some(k) && text::byte_length(k)
                    > affinity::MAX_KEY {
                    Err(QueueError::KeyTooLong)
                } else {
                    Ok(
                        pending_of(
                            body,
                            t,
                            match i {
                                Some(i) => i,
                                None => fallback,
                            },
                            principal_of(p),
                            budget_of(b)->0,
                            header::first_of(headers, "x-codex-turn-state"@),
                            received,
                        ),
                    )
                },
            }
        }
    }
}

pub open spec fn pending_view(r: Result<Pending, QueueError<String>>) -> Result<Waiting, QueueError<Seq<char>>> {
    match r {
        Ok(p) => Ok(p@),
        Err(e) => Err(e@),
    }
}

fn budget_from(value: Option<String>) -> (r: Result<u128, String>)
    ensures
        match budget_of(text::text_option(value)) {
            Some(budget) => r == Ok::<u128, String>(budget),
            None => r matches Err(words) && value matches Some(s) && words@
                == text::number_fault_text(s@),
        },
{
    match value {
        None => Ok(MAX_QUEUE_WAIT),
        Some(s) => match parse_number(&s) {
            Some(ms) => {
                let time: u128 = ms as u128 * MILLISECOND;
                Ok(
                    if time < MAX_QUEUE_WAIT {
                        time
                    } else {
                        MAX_QUEUE_WAIT
                    },
                )
            },
            None => Err(number_fault(&s)),
        },
    }
}

fn fingerprint(body: &[u8], routing: &Option<String>, key: &Option<String>) -> (r: String)
    ensures
        r@ == fingerprint_of(
            body@,
            or_empty(text::text_option(*routing)),
            or_empty(text::text_option(*key)),
        ),
{
    let a = match routing {
        Some(s) => s.clone(),
        None => String::new(),
    };
    let b = match key {
        Some(s) => s.clone(),
        None => String::new(),
    };
    assert(a@ =~= or_empty(text::text_option(*routing)));
    assert(b@ =~= or_empty(text::text_option(*key)));
    let parts = [body, a.as_str().as_bytes(), b.as_str().as_bytes()];
    let r = digest(&parts);
    assert(parts@.map_values(|p: &[u8]| p@) =~= seq![body@, encode_utf8(a@), encode_utf8(b@)]);
    r
}

/// The request as it is to be queued, or why it cannot be; `received` is the instant at which
/// it came and `fallback` its identifier where it has none.
pub fn pending(headers: &Vec<Header>, body: &[u8], received: u128, fallback: String) -> (r: Result<
    Pending,
    QueueError<String>,
>)
    requires
        received <= LAST_INSTANT,
    ensures
        pending_view(r) == queued(header::header_views(headers@), body@, received, fallback@),
{
    let t = match read_object(body) {
        Err(words) => return Err(QueueError::Body(words)),
        Ok(t) => t,
    };
    if let Some(e) = check_body(&t) {
        return Err(e);
    }
    let id = match header(headers, "x-codex-queue-request-id") {
        Ok(Some(id)) => id,
        Ok(None) => fallback,
        Err(e) => return Err(e),
    };
    let principal = match header(headers, "x-codex-queue-principal") {
        Ok(Some(p)) => p,
        Ok(None) => "direct".to_owned(),
        Err(e) => return Err(e),
    };
    let budget = match header(headers, "x-codex-queue-budget-ms") {
        Ok(value) => match budget_from(value) {
            Ok(budget) => budget,
            Err(words) => return Err(QueueError::Budget(words)),
        },
        Err(e) => return Err(e),
    };
    let key = key_for_request(body);
    if let Some(k) = &key {
        if byte_len(k) > affinity::MAX_KEY {
            return Err(QueueError::KeyTooLong);
        }
    }
    let evidence = Evidence::read(&t);
    let routing = first(headers, "x-codex-turn-state");
    let fingerprint = fingerprint(body, &routing, &key);
    let sticky = key.is_some();
    let name = match key {
        Some(k) => k,
        None => id.clone(),
    };
    Ok(
        Pending {
            id,
            key: Key(principal, name),
            sticky,
            fingerprint,
            evidence,
            bytes: body.len(),
            deadline: received + budget,
        },
    )
}

/// A fingerprint tells requests apart: what is digested differs where the bytes, the routing
/// or the conversation do.
pub proof fn law_fingerprints_tell_apart(
    body: Seq<u8>,
    routing: Seq<char>,
    key: Seq<char>,
    body2: Seq<u8>,
    routing2: Seq<char>,
    key2: Seq<char>,
)
    requires
        digest::framable(seq![body, encode_utf8(routing), encode_utf8(key)]),
        digest::framable(seq![body2, encode_utf8(routing2), encode_utf8(key2)]),
        digest::framed(seq![body, encode_utf8(routing), encode_utf8(key)]) == digest::framed(
            seq![body2, encode_utf8(routing2), encode_utf8(key2)],
        ),
    ensures
        body == body2,
        routing == routing2,
        key == key2,
{
    let a = seq![body, encode_utf8(routing), encode_utf8(key)];
    let b = seq![body2, encode_utf8(routing2), encode_utf8(key2)];
    digest::law_framing_injective(a, b);
    assert(a[0] == b[0] && a[1] == b[1] && a[2] == b[2]);
    digest::lemma_encoding_injective(routing, routing2);
    digest::lemma_encoding_injective(key, key2);
}

/// No request waits longer than the longest wait.
pub proof fn law_waits_are_bounded(
    headers: Seq<(Seq<char>, Seq<char>)>,
    body: Seq<u8>,
    received: u128,
    fallback: Seq<char>,
)
    requires
        received <= LAST_INSTANT,
        queued(headers, body, received, fallback) is Ok,
    ensures
        queued(headers, body, received, fallback)->Ok_0.deadline <= received + MAX_QUEUE_WAIT,
{
}

/// A queue header is a text of 1 to 128 letters, digits, hyphens, underscores and colons, and
/// comes once at most.
pub proof fn law_what_a_queue_header_is(
    headers: Seq<(Seq<char>, Seq<char>)>,
    name: Seq<char>,
    s: Seq<char>,
)
    ensures
        is_queue_text(s) <==> 1 <= s.len() <= 128 && forall|i: int|
            0 <= i < s.len() ==> ('a' <= #[trigger] s[i] <= 'z' || 'A' <= s[i] <= 'Z' || '0' <= s[i]
                <= '9' || s[i] == '-' || s[i] == '_' || s[i] == ':'),
        ({
            let list = header::values_of(headers, name);
            let r = queue_header(headers, name);
            &&& list.len() == 0 ==> r == Ok::<Option<Seq<char>>, QueueError<Seq<char>>>(None)
            &&& list.len() == 1 && is_queue_text(list[0]) ==> r == Ok::<_, QueueError<Seq<char>>>(
                Some(list[0]),
            )
            &&& list.len() == 1 && !is_queue_text(list[0]) ==> r == Err::<Option<Seq<char>>, _>(
                QueueError::<Seq<char>>::InvalidHeader,
            )
            &&& list.len() > 1 ==> r == Err::<Option<Seq<char>>, _>(
                QueueError::<Seq<char>>::DuplicateHeader,
            )
        }),
{
    assert(forall|i: int|
        0 <= i < s.len() ==> (text::is_alphanumeric(#[trigger] s[i]) <==> 'a' <= s[i] <= 'z'
            || 'A' <= s[i] <= 'Z' || '0' <= s[i] <= '9'));
}

/// What is below `/admin/` goes to the administration whatever the method. The control plane takes
/// `GET` for whether it is ready and for its status, and `POST` to pause, to resume, to recover and
/// to cancel; everything else is none of its business.
pub proof fn law_what_is_asked_of_the_control_plane(
    method: Method,
    url: Seq<char>,
    headers: Seq<(Seq<char>, Seq<char>)>,
)
    ensures
        ({
            let r = control_of(method, url, headers);
            let admin = "/admin/"@.is_prefix_of(url);
            let get = method == Method::Get && !admin;
            let post = method == Method::Post && !admin;
            let cancel = "/internal/queue/cancel/"@.is_prefix_of(url);
            &&& r is Admin <==> admin
            &&& r is Ready <==> get && url == "/readyz"@
            &&& r is Status <==> get && url == "/internal/queue/status"@
            &&& r is Pause <==> post && url == "/internal/queue/pause"@
            &&& r is Resume <==> post && url == "/internal/queue/resume"@
            &&& r is Recover <==> post && url == "/internal/queue/recover"@
            &&& r is Cancel || r is BadCancel <==> post && cancel
            &&& r is Pass <==> !admin && !(get && (url == "/readyz"@ || url
                == "/internal/queue/status"@)) && !(post && (url == "/internal/queue/pause"@ || url
                == "/internal/queue/resume"@ || url == "/internal/queue/recover"@ || cancel))
        }),
{
    reveal_strlit("/internal/queue/pause");
    reveal_strlit("/internal/queue/resume");
    reveal_strlit("/internal/queue/recover");
    reveal_strlit("/internal/queue/cancel/");
    reveal_strlit("/readyz");
    reveal_strlit("/internal/queue/status");
    reveal_strlit("/admin/");
    assert("/internal/queue/pause"@.len() == 21);
    assert("/internal/queue/resume"@.len() == 22);
    assert("/internal/queue/recover"@.len() == 23);
    assert("/internal/queue/cancel/"@.len() == 23 && "/internal/queue/cancel/"@[16] == 'c');
    assert("/internal/queue/recover"@[16] == 'r');
    assert("/readyz"@.len() == 7 && "/internal/queue/status"@.len() == 22);
    let prefix = "/internal/queue/cancel/"@;
    assert(!prefix.is_prefix_of("/internal/queue/recover"@)) by {
        if prefix.is_prefix_of("/internal/queue/recover"@) {
            assert("/internal/queue/recover"@[16] == prefix[16]);
        }
    }
}

/// Recovery counts as confirmed exactly where its header says `true`. A cancellation is of the
/// principal that its header names, or the direct one, and of the identifier behind the path;
/// both have to be texts of a queue header.
pub proof fn law_recovery_and_cancellation(
    url: Seq<char>,
    headers: Seq<(Seq<char>, Seq<char>)>,
    id: Seq<char>,
)
    requires
        !"/admin/"@.is_prefix_of(url),
    ensures
        url == "/internal/queue/recover"@ ==> control_of(Method::Post, url, headers)
            == Request::Recover(
            queue_header(headers, "x-codex-queue-confirm-stopped"@) == Ok::<
                _,
                QueueError<Seq<char>>,
            >(Some("true"@)),
        ),
        url == "/internal/queue/cancel/"@ + id ==> {
            let r = control_of(Method::Post, url, headers);
            let principal = queue_header(headers, "x-codex-queue-principal"@);
            &&& r is Cancel <==> is_queue_text(id) && principal is Ok
            &&& r matches Request::Cancel(who, what) ==> what == id && who == (
            match principal->Ok_0 {
                Some(p) => p,
                None => "direct"@,
            })
        },
{
    law_what_is_asked_of_the_control_plane(Method::Post, url, headers);
    if url == "/internal/queue/cancel/"@ + id {
        assert(url.skip("/internal/queue/cancel/"@.len() as int) =~= id);
        assert("/internal/queue/cancel/"@.is_prefix_of(url)) by {
            assert("/internal/queue/cancel/"@ =~= url.subrange(
                0,
                "/internal/queue/cancel/"@.len() as int,
            ));
        }
        reveal_strlit("/internal/queue/pause");
        reveal_strlit("/internal/queue/resume");
        reveal_strlit("/internal/queue/recover");
        reveal_strlit("/internal/queue/cancel/");
        assert("/internal/queue/pause"@.len() == 21 && "/internal/queue/resume"@.len() == 22
            && "/internal/queue/recover"@.len() == 23 && "/internal/queue/cancel/"@.len() == 23);
        assert("/internal/queue/recover"@[16] == 'r' && "/internal/queue/cancel/"@[16] == 'c');
        assert(url[16] == "/internal/queue/cancel/"@[16]);
    }
}

/// Requests can be taken exactly where the summary says that the queue is not paused, has no fault
/// and an account, that no delay is on, and that fewer requests may still run upstream than may
/// run.
pub proof fn law_when_requests_can_be_taken(status: Tree)
    ensures
        is_ready(status) <==> {
            let lost = status.at("quarantined"@).number();
            let most = status.at("effective_max_running"@).number();
            &&& status.at("paused"@) == Tree::Bool(false)
            &&& status.at("worker_fault"@) == Tree::Bool(false)
            &&& status.at("account_unavailable"@) == Tree::Bool(false)
            &&& status.at("cooldown_seconds"@).number() == Some(0u64)
            &&& most is Some && (lost is None || lost->0 < most->0)
        },
{
}

/// The answer to a request that is turned away says its code as its type and as its message.
pub proof fn law_answer_to_a_refusal(e: Rejection)
    ensures
        rejection_tree(e).at("error"@).at("type"@) == Tree::Text(e.code()),
        rejection_tree(e).at("error"@).at("message"@) == Tree::Text(e.code()),
{
    reveal_strlit("type");
    reveal_strlit("message");
    assert("type"@.len() == 4 && "message"@.len() == 7);
}

/// A model request is refused where it is to run in the background, names no model, or has client
/// metadata that is no object or turn metadata that is not the text of one; the first of these is
/// told.
pub proof fn law_which_model_requests_are_refused(m: Map<Seq<char>, Tree>)
    ensures
        ({
            let t = Tree::Object(m);
            let r = body_fault(t);
            let background = t.at("background"@) == Tree::Bool(true);
            let named = t.at("model"@) is Text && t.at("model"@)->Text_0.len() > 0;
            let has_client = m.contains_key("client_metadata"@);
            let client = m["client_metadata"@];
            let has_turn = has_client && client is Object && client->Object_0.contains_key(
                "x-codex-turn-metadata"@,
            );
            let turn = client->Object_0["x-codex-turn-metadata"@];
            let good_turn = turn is Text && json::json_document(encode_utf8(turn->Text_0)) is Some
                && json::json_document(encode_utf8(turn->Text_0))->0 is Object;
            &&& r == Some(QueueError::<Seq<char>>::Background) <==> background
            &&& r == Some(QueueError::<Seq<char>>::NoModel) <==> !background && !named
            &&& r == Some(QueueError::<Seq<char>>::ClientMetadata) <==> !background && named
                && has_client && !(client is Object)
            &&& r == Some(QueueError::<Seq<char>>::TurnMetadata) <==> !background && named
                && has_turn && !(turn is Text)
            &&& r is Some && r->0 is NestedMetadata <==> !background && named && has_turn && turn
                is Text && !good_turn
            &&& r is None <==> !background && named && (has_client ==> client is Object) && (
            has_turn ==> good_turn)
        }),
{
}

/// A request waits for as many milliseconds as it asks for, and two minutes at most or where it
/// asks for none.
pub proof fn law_how_long_a_request_may_wait(h: Option<Seq<char>>)
    ensures
        ({
            let r = budget_of(h);
            &&& h is None ==> r == Some(120_000_000_000u128)
            &&& h matches Some(s) ==> {
                &&& text::number_of(s) is None ==> r is None
                &&& text::number_of(s) matches Some(ms) ==> {
                    &&& ms <= 120_000 ==> r == Some((ms * 1_000_000) as u128)
                    &&& ms > 120_000 ==> r == Some(120_000_000_000u128)
                }
            }
        }),
{
}

/// A request is queued under the identifier and the principal that its headers name, or the one at
/// hand and the direct one; with its conversation's key where its body has one, and by itself where
/// not; with the time that it asks for; and with a fingerprint of its bytes, its routing and its
/// key.
pub proof fn law_how_a_request_is_queued(
    headers: Seq<(Seq<char>, Seq<char>)>,
    body: Seq<u8>,
    received: u128,
    fallback: Seq<char>,
)
    requires
        queued(headers, body, received, fallback) is Ok,
        received <= LAST_INSTANT,
        body.len() <= usize::MAX,
    ensures
        ({
            let w = queued(headers, body, received, fallback)->Ok_0;
            let id = queue_header(headers, "x-codex-queue-request-id"@);
            let principal = queue_header(headers, "x-codex-queue-principal"@);
            let wait = queue_header(headers, "x-codex-queue-budget-ms"@);
            let key = affinity::body_key(body);
            let state = header::values_of(headers, "x-codex-turn-state"@);
            let routing = if state.len() > 0 {
                state[0]
            } else {
                Seq::empty()
            };
            &&& id is Ok && principal is Ok && wait is Ok
            &&& id->Ok_0 is Some ==> w.id == id->Ok_0->0
            &&& id->Ok_0 is None ==> w.id == fallback
            &&& principal->Ok_0 is Some ==> w.key.0 == principal->Ok_0->0
            &&& principal->Ok_0 is None ==> w.key.0 == "direct"@
            &&& key is Some ==> w.key.1 == key->0 && w.sticky && encode_utf8(key->0).len() <= 512
            &&& key is None ==> w.key.1 == w.id && !w.sticky
            &&& w.bytes == body.len()
            &&& budget_of(wait->Ok_0) is Some && w.deadline == received + budget_of(
                wait->Ok_0,
            )->0
            &&& w.fingerprint == digest::digest_of(
                seq![
                    body,
                    encode_utf8(routing),
                    encode_utf8(
                        if key is Some {
                            key->0
                        } else {
                            Seq::empty()
                        },
                    ),
                ],
            )
            &&& json::json_document(body) is Some && json::json_document(body)->0 is Object
                && body_fault(json::json_document(body)->0) is None
            &&& w.evidence == signals::evidence_of(json::json_document(body)->0)
        }),
{
}

/// A request that can be queued is: only a body that is no object or is refused, headers that are,
/// a time that is no number, and a key of more than 512 bytes are in its way.
pub proof fn law_which_requests_are_queued(
    headers: Seq<(Seq<char>, Seq<char>)>,
    body: Seq<u8>,
    received: u128,
    fallback: Seq<char>,
)
    ensures
        queued(headers, body, received, fallback) is Ok <==> {
            let wait = queue_header(headers, "x-codex-queue-budget-ms"@);
            &&& json::json_document(body) is Some && json::json_document(body)->0 is Object
            &&& body_fault(json::json_document(body)->0) is None
            &&& queue_header(headers, "x-codex-queue-request-id"@) is Ok
            &&& queue_header(headers, "x-codex-queue-principal"@) is Ok
            &&& wait is Ok && (wait->Ok_0 matches Some(s) ==> text::number_of(s) is Some)
            &&& affinity::body_key(body) matches Some(key) ==> encode_utf8(key).len() <= 512
        },
{
}

} // verus!
