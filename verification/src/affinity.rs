//! The stable key of a client's conversation, before any identity is rewritten.
use crate::header;
use crate::header::values;
use crate::header::Header;
use crate::json;
use crate::json::parse_json;
use crate::json::parse_text;
use crate::json::read_object;
use crate::json::Json;
use crate::json::Tree;
use crate::text;
use crate::text::begins_with;
use crate::text::byte_len;
use crate::text::join3;
use crate::text::same;
use crate::text::trim;
use vstd::prelude::*;
use vstd::utf8::*;

verus! {

broadcast use {vstd::seq_lib::group_seq_properties, vstd::map::group_map_axioms};

/// The longest turn metadata header, in bytes.
pub const MAX_METADATA: usize = 8192;

/// The longest key, in bytes.
pub const MAX_KEY: usize = 512;

/// Why no key can be told.
/// The words of another are a `String`, and in contracts its characters.
#[derive(Debug, PartialEq, Eq)]
pub enum AffinityError<S> {
    DuplicateMetadata,
    MetadataTooLarge,
    MetadataMalformed(S),
    RecursiveMetadata,
    DuplicateSession,
    DuplicateThread,
    InvalidSession,
    InvalidThread,
    Conflict,
    KeyTooLong,
}

impl View for AffinityError<String> {
    type V = AffinityError<Seq<char>>;

    open spec fn view(&self) -> AffinityError<Seq<char>> {
        match *self {
            AffinityError::DuplicateMetadata => AffinityError::DuplicateMetadata,
            AffinityError::MetadataTooLarge => AffinityError::MetadataTooLarge,
            AffinityError::MetadataMalformed(s) => AffinityError::MetadataMalformed(s@),
            AffinityError::RecursiveMetadata => AffinityError::RecursiveMetadata,
            AffinityError::DuplicateSession => AffinityError::DuplicateSession,
            AffinityError::DuplicateThread => AffinityError::DuplicateThread,
            AffinityError::InvalidSession => AffinityError::InvalidSession,
            AffinityError::InvalidThread => AffinityError::InvalidThread,
            AffinityError::Conflict => AffinityError::Conflict,
            AffinityError::KeyTooLong => AffinityError::KeyTooLong,
        }
    }
}

impl AffinityError<Seq<char>> {
    pub open spec fn words(self) -> Seq<char> {
        match self {
            AffinityError::DuplicateMetadata => "duplicate turn metadata header"@,
            AffinityError::MetadataTooLarge => "turn metadata header too large"@,
            AffinityError::MetadataMalformed(s) => s,
            AffinityError::RecursiveMetadata => "recursive turn metadata"@,
            AffinityError::DuplicateSession => "duplicate session_id header"@,
            AffinityError::DuplicateThread => "duplicate thread_id header"@,
            AffinityError::InvalidSession => "invalid session_id header"@,
            AffinityError::InvalidThread => "invalid thread_id header"@,
            AffinityError::Conflict => "conflicting session_id values"@,
            AffinityError::KeyTooLong => "conversation key too long"@,
        }
    }
}

impl AffinityError<String> {
    pub fn message(&self) -> (r: String)
        ensures
            r@ == self@.words(),
    {
        match self {
            AffinityError::DuplicateMetadata => "duplicate turn metadata header".to_owned(),
            AffinityError::MetadataTooLarge => "turn metadata header too large".to_owned(),
            AffinityError::MetadataMalformed(s) => s.clone(),
            AffinityError::RecursiveMetadata => "recursive turn metadata".to_owned(),
            AffinityError::DuplicateSession => "duplicate session_id header".to_owned(),
            AffinityError::DuplicateThread => "duplicate thread_id header".to_owned(),
            AffinityError::InvalidSession => "invalid session_id header".to_owned(),
            AffinityError::InvalidThread => "invalid thread_id header".to_owned(),
            AffinityError::Conflict => "conflicting session_id values".to_owned(),
            AffinityError::KeyTooLong => "conversation key too long".to_owned(),
        }
    }
}

/// A key in the namespace that a name stands for.
pub open spec fn named(name: Seq<char>, value: Seq<char>) -> Seq<char> {
    name + ":"@ + value
}

/// The key that a member of an object is, if it is a text of more than white space.
pub open spec fn member_key(t: Tree, name: Seq<char>) -> Option<Seq<char>> {
    match t.text_at(name) {
        Some(s) => if text::trimmed(s).len() > 0 {
            Some(named(name, text::trimmed(s)))
        } else {
            None
        },
        None => None,
    }
}

/// The key in an object's own members.
pub open spec fn own_key(t: Tree) -> Option<Seq<char>> {
    if member_key(t, "session_id"@) is Some {
        member_key(t, "session_id"@)
    } else if member_key(t, "thread_id"@) is Some {
        member_key(t, "thread_id"@)
    } else {
        member_key(t, "conversation_id"@)
    }
}

/// The key in an object, or in the object that its turn metadata spells out, and so on down to
/// a depth.
pub open spec fn metadata_key(t: Tree, depth: nat) -> Option<Seq<char>>
    decreases depth,
{
    if own_key(t) is Some {
        own_key(t)
    } else if depth == 0 {
        None
    } else {
        match t.text_at("x-codex-turn-metadata"@) {
            Some(s) => match json::text_document(s) {
                Some(nested) => if nested is Object {
                    metadata_key(nested, (depth - 1) as nat)
                } else {
                    None
                },
                None => None,
            },
            None => None,
        }
    }
}

/// The key at a member that is an object.
pub open spec fn key_at(t: Tree, name: Seq<char>, depth: nat) -> Option<Seq<char>> {
    if t.at(name) is Object {
        metadata_key(t.at(name), depth)
    } else {
        None
    }
}

/// The key in a request body. What is spelled out in a text is shorter than what holds the
/// text, so that the body's length bounds the depth.
pub open spec fn body_key(body: Seq<u8>) -> Option<Seq<char>> {
    match json::json_document(body) {
        None => None,
        Some(t) => match key_at(t, "client_metadata"@, body.len()) {
            Some(key) => Some(key),
            None => key_at(t, "metadata"@, body.len()),
        },
    }
}

/// The key in the turn metadata header.
pub open spec fn header_key(list: Seq<Seq<char>>) -> Result<Option<Seq<char>>, AffinityError<Seq<char>>> {
    if list.len() > 1 {
        Err(AffinityError::DuplicateMetadata)
    } else if list.len() == 0 {
        Ok(None)
    } else if text::byte_length(list[0]) > MAX_METADATA {
        Err(AffinityError::MetadataTooLarge)
    } else {
        let bytes = encode_utf8(list[0]);
        if !json::holds_object(bytes) {
            Err(AffinityError::MetadataMalformed(json::object_fault_text(bytes)))
        } else {
            let t = json::json_document(bytes)->0;
            if t.field("x-codex-turn-metadata"@) is Some {
                Err(AffinityError::RecursiveMetadata)
            } else {
                Ok(own_key(t))
            }
        }
    }
}

/// The key that a header is.
pub open spec fn direct_key(
    list: Seq<Seq<char>>,
    name: Seq<char>,
    duplicate: AffinityError<Seq<char>>,
    invalid: AffinityError<Seq<char>>,
) -> Result<Option<Seq<char>>, AffinityError<Seq<char>>> {
    if list.len() == 0 {
        Ok(None)
    } else if list.len() > 1 {
        Err(duplicate)
    } else {
        let value = text::trimmed(list[0]);
        if value.len() == 0 || text::byte_length(value) > MAX_KEY {
            Err(invalid)
        } else {
            Ok(Some(named(name, value)))
        }
    }
}

/// Whether a key is one of a session and another than the one given.
pub open spec fn contradicts(key: Option<Seq<char>>, session: Seq<char>) -> bool {
    key matches Some(k) && "session_id:"@.is_prefix_of(k) && k != session
}

/// The key of a request, from what its headers and its body say.
pub open spec fn agreed(
    session: Option<Seq<char>>,
    thread: Option<Seq<char>>,
    in_body: Option<Seq<char>>,
    in_header: Option<Seq<char>>,
) -> Result<Option<Seq<char>>, AffinityError<Seq<char>>> {
    let key = match session {
        Some(s) => Some(s),
        None => if in_body is Some {
            in_body
        } else if in_header is Some {
            in_header
        } else {
            thread
        },
    };
    if session matches Some(s) && (contradicts(in_body, s) || contradicts(in_header, s)) {
        Err(AffinityError::Conflict)
    } else if key matches Some(k) && text::byte_length(k) > MAX_KEY {
        Err(AffinityError::KeyTooLong)
    } else {
        Ok(key)
    }
}

/// The key of a request.
pub open spec fn request_key(body: Seq<u8>, headers: Seq<(Seq<char>, Seq<char>)>) -> Result<
    Option<Seq<char>>,
    AffinityError<Seq<char>>,
> {
    let metadata = header_key(header::values_of(headers, "x-codex-turn-metadata"@));
    let session = direct_key(
        header::values_of(headers, "session_id"@),
        "session_id"@,
        AffinityError::DuplicateSession,
        AffinityError::InvalidSession,
    );
    let thread = direct_key(
        header::values_of(headers, "thread_id"@),
        "thread_id"@,
        AffinityError::DuplicateThread,
        AffinityError::InvalidThread,
    );
    match (metadata, session, thread) {
        (Err(e), _, _) => Err(e),
        (Ok(_), Err(e), _) => Err(e),
        (Ok(_), Ok(_), Err(e)) => Err(e),
        (Ok(m), Ok(s), Ok(t)) => agreed(s, t, body_key(body), m),
    }
}

pub open spec fn key_result(r: Result<Option<String>, AffinityError<String>>) -> Result<
    Option<Seq<char>>,
    AffinityError<Seq<char>>,
> {
    match r {
        Ok(s) => Ok(text::text_option(s)),
        Err(e) => Err(e@),
    }
}

fn member(t: &Json, name: &str) -> (r: Option<String>)
    ensures
        text::text_option(r) == member_key(t@, name@),
{
    match t.text_at(name) {
        Some(s) => {
            let value = trim(s);
            if value.as_str().is_empty() {
                None
            } else {
                Some(join3(name, ":", &value))
            }
        },
        None => None,
    }
}

fn own(t: &Json) -> (r: Option<String>)
    ensures
        text::text_option(r) == own_key(t@),
{
    if let Some(key) = member(t, "session_id") {
        return Some(key);
    }
    if let Some(key) = member(t, "thread_id") {
        return Some(key);
    }
    member(t, "conversation_id")
}

/// The key in an object, or in the object that its turn metadata spells out, and so on down to
/// a depth.
pub fn metadata_value(metadata: &Json, depth: usize) -> (r: Option<String>)
    ensures
        text::text_option(r) == metadata_key(metadata@, depth as nat),
    decreases depth,
{
    if let Some(key) = own(metadata) {
        return Some(key);
    }
    if depth == 0 {
        return None;
    }
    match metadata.text_at("x-codex-turn-metadata") {
        Some(s) => match parse_text(s) {
            Some(nested) => if nested.is_object() {
                metadata_value(&nested, depth - 1)
            } else {
                None
            },
            None => None,
        },
        None => None,
    }
}

fn value_at(t: &Json, name: &str, depth: usize) -> (r: Option<String>)
    ensures
        text::text_option(r) == key_at(t@, name@, depth as nat),
{
    match t.get(name) {
        Some(metadata) => if metadata.is_object() {
            metadata_value(metadata, depth)
        } else {
            None
        },
        None => None,
    }
}

/// The key in a request body.
pub fn key_for_request(body: &[u8]) -> (r: Option<String>)
    ensures
        text::text_option(r) == body_key(body@),
{
    match parse_json(body) {
        None => None,
        Some(t) => match value_at(&t, "client_metadata", body.len()) {
            Some(key) => Some(key),
            None => value_at(&t, "metadata", body.len()),
        },
    }
}

fn key_of_header(list: &Vec<String>) -> (r: Result<Option<String>, AffinityError<String>>)
    ensures
        key_result(r) == header_key(text::texts(list@)),
{
    assert(text::texts(list@).len() == list@.len());
    if list.len() > 1 {
        return Err(AffinityError::DuplicateMetadata);
    }
    if list.len() == 0 {
        return Ok(None);
    }
    assert(text::texts(list@)[0] == list@[0]@);
    if byte_len(&list[0]) > MAX_METADATA {
        return Err(AffinityError::MetadataTooLarge);
    }
    match read_object(list[0].as_str().as_bytes()) {
        Ok(t) => if t.get("x-codex-turn-metadata").is_some() {
            Err(AffinityError::RecursiveMetadata)
        } else {
            Ok(own(&t))
        },
        Err(words) => Err(AffinityError::MetadataMalformed(words)),
    }
}

fn direct(
    list: &Vec<String>,
    name: &str,
    duplicate: AffinityError<String>,
    invalid: AffinityError<String>,
) -> (r: Result<Option<String>, AffinityError<String>>)
    ensures
        key_result(r) == direct_key(text::texts(list@), name@, duplicate@, invalid@),
{
    assert(text::texts(list@).len() == list@.len());
    if list.len() == 0 {
        return Ok(None);
    }
    if list.len() > 1 {
        return Err(duplicate);
    }
    assert(text::texts(list@)[0] == list@[0]@);
    let value = trim(&list[0]);
    if value.as_str().is_empty() || byte_len(&value) > MAX_KEY {
        return Err(invalid);
    }
    Ok(Some(join3(name, ":", &value)))
}

fn is_contradiction(key: &Option<String>, session: &str) -> (r: bool)
    ensures
        r == contradicts(text::text_option(*key), session@),
{
    match key {
        Some(key) => begins_with(key, "session_id:") && !same(key, session),
        None => false,
    }
}

/// The key of a request. A session that a header names counts before what the body says, and
/// is refused where the body or the turn metadata names another.
pub fn key_for_http_request(body: &[u8], headers: &Vec<Header>) -> (r: Result<
    Option<String>,
    AffinityError<String>,
>)
    ensures
        key_result(r) == request_key(body@, header::header_views(headers@)),
{
    let in_header = match key_of_header(&values(headers, "x-codex-turn-metadata")) {
        Ok(key) => key,
        Err(e) => return Err(e),
    };
    let session = match direct(
        &values(headers, "session_id"),
        "session_id",
        AffinityError::DuplicateSession,
        AffinityError::InvalidSession,
    ) {
        Ok(key) => key,
        Err(e) => return Err(e),
    };
    let thread = match direct(
        &values(headers, "thread_id"),
        "thread_id",
        AffinityError::DuplicateThread,
        AffinityError::InvalidThread,
    ) {
        Ok(key) => key,
        Err(e) => return Err(e),
    };
    let in_body = key_for_request(body);
    let key = match session {
        Some(session) => {
            if is_contradiction(&in_body, &session) || is_contradiction(&in_header, &session) {
                return Err(AffinityError::Conflict);
            }
            Some(session)
        },
        None => if in_body.is_some() {
            in_body
        } else if in_header.is_some() {
            in_header
        } else {
            thread
        },
    };
    if let Some(key) = &key {
        if byte_len(key) > MAX_KEY {
            return Err(AffinityError::KeyTooLong);
        }
    }
    Ok(key)
}

/// A session that a header names is the conversation, whatever threads and other identifiers
/// the request carries, unless the request names another session as well: then it is refused.
pub proof fn law_session_header_decides(
    session: Seq<char>,
    thread: Option<Seq<char>>,
    in_body: Option<Seq<char>>,
    in_header: Option<Seq<char>>,
)
    requires
        text::byte_length(session) <= MAX_KEY,
    ensures
        contradicts(in_body, session) || contradicts(in_header, session) ==> agreed(
            Some(session),
            thread,
            in_body,
            in_header,
        ) == Err::<Option<Seq<char>>, AffinityError<Seq<char>>>(AffinityError::Conflict),
        !contradicts(in_body, session) && !contradicts(in_header, session) ==> agreed(
            Some(session),
            thread,
            in_body,
            in_header,
        ) == Ok::<Option<Seq<char>>, AffinityError<Seq<char>>>(Some(session)),
{
}

/// A session is the same conversation wherever it is named: in a header, in the body's
/// metadata, or in turn metadata.
pub proof fn law_session_namespace_is_shared(t: Tree, value: Seq<char>, list: Seq<Seq<char>>)
    requires
        t.text_at("session_id"@) == Some(value),
        text::trimmed(value).len() > 0,
        text::byte_length(text::trimmed(value)) <= MAX_KEY,
        list == seq![value],
    ensures
        metadata_key(t, 0) == Some(named("session_id"@, text::trimmed(value))),
        direct_key(
            list,
            "session_id"@,
            AffinityError::DuplicateSession,
            AffinityError::InvalidSession,
        ) == Ok::<Option<Seq<char>>, AffinityError<Seq<char>>>(
            Some(named("session_id"@, text::trimmed(value))),
        ),
{
}

/// A member of an object is a key where it is a text that is not blank: under its name, without
/// white space around it.
pub open spec fn is_key_of(t: Tree, name: Seq<char>, key: Seq<char>) -> bool {
    t.at(name) is Text && text::trimmed(t.at(name)->Text_0).len() > 0 && key == name + ":"@
        + text::trimmed(t.at(name)->Text_0)
}

/// A member of an object is no key.
pub open spec fn is_no_key(t: Tree, name: Seq<char>) -> bool {
    !(t.at(name) is Text) || text::trimmed(t.at(name)->Text_0).len() == 0
}

/// The key in an object is its session or, where it has none, its thread or, where it has neither,
/// its conversation. Turn metadata that it spells out counts only where it has none of them.
pub proof fn law_order_of_keys(t: Tree, nested: Tree, depth: nat, key: Seq<char>)
    ensures
        own_key(t) == Some(key) <==> {
            ||| is_key_of(t, "session_id"@, key)
            ||| is_no_key(t, "session_id"@) && is_key_of(t, "thread_id"@, key)
            ||| is_no_key(t, "session_id"@) && is_no_key(t, "thread_id"@) && is_key_of(
                t,
                "conversation_id"@,
                key,
            )
        },
        own_key(t) is None <==> is_no_key(t, "session_id"@) && is_no_key(t, "thread_id"@)
            && is_no_key(t, "conversation_id"@),
        own_key(t) is Some ==> metadata_key(t, depth) == own_key(t),
        own_key(t) is None && depth > 0 && t.at("x-codex-turn-metadata"@) is Text
            && json::text_document(t.at("x-codex-turn-metadata"@)->Text_0) == Some(nested) && nested
            is Object ==> metadata_key(t, depth) == metadata_key(nested, (depth - 1) as nat),
        own_key(t) is None && !(t.at("x-codex-turn-metadata"@) is Text) ==> metadata_key(t, depth)
            is None,
{
}

/// The key in a body is the one in its client metadata or, where there is none, the one in its
/// metadata; a body that is no document has none.
pub proof fn law_key_in_a_body(body: Seq<u8>, t: Tree)
    ensures
        json::json_document(body) is None ==> body_key(body) is None,
        json::json_document(body) == Some(t) ==> {
            let first = t.at("client_metadata"@);
            let second = t.at("metadata"@);
            let found = if first is Object {
                metadata_key(first, body.len())
            } else {
                None
            };
            &&& found is Some ==> body_key(body) == found
            &&& found is None && second is Object ==> body_key(body) == metadata_key(
                second,
                body.len(),
            )
            &&& found is None && !(second is Object) ==> body_key(body) is None
        },
{
}

/// Turn metadata comes in one header at most, of 8 kibibytes at most, that holds an object without
/// turn metadata of its own; the key in it is that object's.
pub proof fn law_key_in_turn_metadata(list: Seq<Seq<char>>)
    ensures
        ({
            let r = header_key(list);
            let document = json::json_document(encode_utf8(list[0]));
            let is_object = document is Some && document->0 is Object;
            let recursive = is_object && document->0->Object_0.contains_key(
                "x-codex-turn-metadata"@,
            );
            let large = encode_utf8(list[0]).len() > 8192;
            &&& list.len() == 0 ==> r == Ok::<Option<Seq<char>>, AffinityError<Seq<char>>>(None)
            &&& list.len() > 1 <==> r == Err::<Option<Seq<char>>, _>(
                AffinityError::<Seq<char>>::DuplicateMetadata,
            )
            &&& list.len() == 1 && large <==> r == Err::<Option<Seq<char>>, _>(
                AffinityError::<Seq<char>>::MetadataTooLarge,
            )
            &&& list.len() == 1 && !large && !is_object ==> r is Err && r->Err_0 is MetadataMalformed
            &&& list.len() == 1 && !large && recursive <==> r == Err::<Option<Seq<char>>, _>(
                AffinityError::<Seq<char>>::RecursiveMetadata,
            )
            &&& list.len() == 1 && !large && is_object && !recursive ==> r == Ok::<
                _,
                AffinityError<Seq<char>>,
            >(own_key(document->0))
        }),
{
}

/// A header is a key where there is one of it, of 1 to 512 bytes without the white space around
/// it.
pub proof fn law_key_in_a_header(
    list: Seq<Seq<char>>,
    name: Seq<char>,
    duplicate: AffinityError<Seq<char>>,
    invalid: AffinityError<Seq<char>>,
)
    ensures
        ({
            let r = direct_key(list, name, duplicate, invalid);
            let value = text::trimmed(list[0]);
            let good = value.len() > 0 && encode_utf8(value).len() <= 512;
            &&& list.len() == 0 ==> r == Ok::<Option<Seq<char>>, AffinityError<Seq<char>>>(None)
            &&& list.len() > 1 ==> r == Err::<Option<Seq<char>>, _>(duplicate)
            &&& list.len() == 1 && good ==> r == Ok::<_, AffinityError<Seq<char>>>(
                Some(name + ":"@ + value),
            )
            &&& list.len() == 1 && !good ==> r == Err::<Option<Seq<char>>, _>(invalid)
        }),
{
}

/// The key of a request is the session that a header names or, without one, the key in its body,
/// in its turn metadata, or the thread that a header names, in this order. A session header is
/// refused where either of the two names another session, and so is a key of more than 512 bytes.
pub proof fn law_which_key_counts(
    session: Option<Seq<char>>,
    thread: Option<Seq<char>>,
    in_body: Option<Seq<char>>,
    in_header: Option<Seq<char>>,
)
    ensures
        ({
            let r = agreed(session, thread, in_body, in_header);
            let other = session is Some && ((in_body is Some && "session_id:"@.is_prefix_of(
                in_body->0,
            ) && in_body->0 != session->0) || (in_header is Some && "session_id:"@.is_prefix_of(
                in_header->0,
            ) && in_header->0 != session->0));
            &&& r == Err::<Option<Seq<char>>, _>(AffinityError::<Seq<char>>::Conflict) <==> other
            &&& r matches Ok(Some(key)) ==> encode_utf8(key).len() <= 512
            &&& r matches Err(e) ==> e == AffinityError::<Seq<char>>::Conflict || e
                == AffinityError::<Seq<char>>::KeyTooLong
            &&& r matches Ok(key) ==> {
                &&& session is Some ==> key == session
                &&& session is None && in_body is Some ==> key == in_body
                &&& session is None && in_body is None && in_header is Some ==> key == in_header
                &&& session is None && in_body is None && in_header is None ==> key == thread
            }
            &&& r == Err::<Option<Seq<char>>, _>(AffinityError::<Seq<char>>::KeyTooLong) ==> {
                ||| session is Some && encode_utf8(session->0).len() > 512
                ||| session is None && in_body is Some && encode_utf8(in_body->0).len() > 512
                ||| session is None && in_body is None && in_header is Some && encode_utf8(
                    in_header->0,
                ).len() > 512
                ||| session is None && in_body is None && in_header is None && thread is Some
                    && encode_utf8(thread->0).len() > 512
            }
        }),
{
}

/// The key of a request comes from the headers `x-codex-turn-metadata`, `session_id` and
/// `thread_id`, whose faults are told in this order, and from its body.
pub proof fn law_where_keys_come_from(body: Seq<u8>, headers: Seq<(Seq<char>, Seq<char>)>)
    ensures
        ({
            let metadata = header_key(header::values_of(headers, "x-codex-turn-metadata"@));
            let session = direct_key(
                header::values_of(headers, "session_id"@),
                "session_id"@,
                AffinityError::DuplicateSession,
                AffinityError::InvalidSession,
            );
            let thread = direct_key(
                header::values_of(headers, "thread_id"@),
                "thread_id"@,
                AffinityError::DuplicateThread,
                AffinityError::InvalidThread,
            );
            let r = request_key(body, headers);
            &&& metadata is Err ==> r == Err::<Option<Seq<char>>, _>(metadata->Err_0)
            &&& metadata is Ok && session is Err ==> r == Err::<Option<Seq<char>>, _>(
                session->Err_0,
            )
            &&& metadata is Ok && session is Ok && thread is Err ==> r == Err::<
                Option<Seq<char>>,
                _,
            >(thread->Err_0)
            &&& metadata is Ok && session is Ok && thread is Ok ==> r == agreed(
                session->Ok_0,
                thread->Ok_0,
                body_key(body),
                metadata->Ok_0,
            )
        }),
{
}

} // verus!
