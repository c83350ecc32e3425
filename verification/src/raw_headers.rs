//! The header boundary between callers and the upstream service.
use crate::header_map;
use crate::header_map::has_header;
use crate::header_map::header_count;
use crate::header_map::header_name;
use crate::header_map::header_names;
use crate::header_map::header_value;
use crate::header_map::header_values;
use crate::header_map::insert_header;
use crate::header_map::name_string;
use crate::header_map::new_headers;
use crate::header_map::remove_header;
use crate::header_map::value_text;
use crate::table;
use crate::table::Table;
use crate::text;
use crate::text::begins_with;
use crate::text::byte_len;
use crate::text::equal_folded;
use crate::text::same;
use crate::text::split;
use crate::text::trim;
use vstd::prelude::*;
use vstd::utf8::*;

verus! {

broadcast use {
    vstd::seq_lib::group_seq_properties,
    vstd::map::group_map_axioms,
    vstd::set::group_set_axioms,
};

pub const MAX_HEADERS: usize = 128;

pub const MAX_BYTES: usize = 65536;

pub const MAX_NAME: usize = 256;

pub const MAX_VALUE: usize = 8192;

/// Why headers are refused.
#[derive(Clone, Copy, Debug, PartialEq, Eq, Structural)]
pub enum HeaderError {
    TooLarge,
    Name,
    Value,
    Text,
    Duplicate,
    ConnectionToken,
    /// A caller's credentials.
    Credentials,
    /// An identifier of the library's own that is no header value.
    CallId,
}

impl HeaderError {
    pub open spec fn words(self) -> Seq<char> {
        match self {
            HeaderError::TooLarge => "raw Responses headers exceed size limits"@,
            HeaderError::Name => "invalid raw Responses header name"@,
            HeaderError::Value => "invalid raw Responses header value"@,
            HeaderError::Text => "invalid raw Responses header text"@,
            HeaderError::Duplicate => "duplicate raw Responses header"@,
            HeaderError::ConnectionToken => "invalid Connection header token"@,
            HeaderError::Credentials => "authorization header is not accepted"@,
            HeaderError::CallId => "failed to encode inference call ID"@,
        }
    }

    pub fn message(self) -> (r: &'static str)
        ensures
            r@ == self.words(),
    {
        match self {
            HeaderError::TooLarge => "raw Responses headers exceed size limits",
            HeaderError::Name => "invalid raw Responses header name",
            HeaderError::Value => "invalid raw Responses header value",
            HeaderError::Text => "invalid raw Responses header text",
            HeaderError::Duplicate => "duplicate raw Responses header",
            HeaderError::ConnectionToken => "invalid Connection header token",
            HeaderError::Credentials => "authorization header is not accepted",
            HeaderError::CallId => "failed to encode inference call ID",
        }
    }
}

pub open spec fn pair_views(list: Seq<(String, String)>) -> Seq<(Seq<char>, Seq<char>)> {
    list.map_values(|p: (String, String)| (p.0@, p.1@))
}

/// The bytes of all names and values.
pub open spec fn total(list: Seq<(Seq<char>, Seq<char>)>) -> nat
    decreases list.len(),
{
    if list.len() == 0 {
        0
    } else {
        total(list.drop_last()) + text::byte_length(list.last().0) + text::byte_length(
            list.last().1,
        )
    }
}

/// The headers that a caller supplies, by name in lower case, or why they are refused.
pub open spec fn intake(list: Seq<(Seq<char>, Seq<char>)>) -> Result<
    Map<Seq<char>, Seq<char>>,
    HeaderError,
>
    decreases list.len(),
{
    if list.len() == 0 {
        Ok(Map::empty())
    } else {
        match intake(list.drop_last()) {
            Err(e) => Err(e),
            Ok(m) => {
                let name = list.last().0;
                let value = list.last().1;
                if m.dom().len() >= MAX_HEADERS || total(list) > MAX_BYTES || text::byte_length(
                    name,
                ) > MAX_NAME || text::byte_length(value) > MAX_VALUE {
                    Err(HeaderError::TooLarge)
                } else if !header_map::is_name(name) {
                    Err(HeaderError::Name)
                } else if !header_map::is_value(encode_utf8(value)) {
                    Err(HeaderError::Value)
                } else if !header_map::is_visible(encode_utf8(value)) {
                    Err(HeaderError::Text)
                } else if m.contains_key(text::lower(name)) {
                    Err(HeaderError::Duplicate)
                } else {
                    Ok(m.insert(text::lower(name), value))
                }
            },
        }
    }
}

/// The names that a connection header nominates as its own.
pub open spec fn nominated(m: Map<Seq<char>, Seq<char>>) -> Seq<Seq<char>> {
    if m.contains_key("connection"@) {
        text::pieces(m["connection"@], ',')
    } else {
        Seq::empty()
    }
}

/// Whether a list of nominated names is well formed: what is between two commas is a header
/// name or nothing.
pub open spec fn are_tokens(list: Seq<Seq<char>>) -> bool {
    forall|i: int|
        0 <= i < list.len() ==> text::trimmed(#[trigger] list[i]).len() == 0
            || header_map::is_name(text::trimmed(list[i]))
}

/// Whether a list nominates a name.
pub open spec fn nominates(list: Seq<Seq<char>>, name: Seq<char>) -> bool {
    exists|i: int|
        0 <= i < list.len() && text::trimmed(#[trigger] list[i]).len() > 0 && text::lower(
            text::trimmed(list[i]),
        ) == name
}

/// Credentials of the caller and identities that the upstream transport owns.
pub open spec fn is_private(name: Seq<char>) -> bool {
    ||| name == "authorization"@ || name == "proxy-authorization"@ || name == "api-key"@
    ||| name == "x-api-key"@ || name == "cookie"@ || name == "cookie2"@ || name == "set-cookie"@
    ||| name == "chatgpt-account-id"@ || name == "openai-organization"@ || name
        == "openai-project"@
    ||| name == "x-oai-attestation"@ || name == "user-agent"@ || name == "originator"@
    ||| name == "session-id"@ || name == "thread-id"@ || name == "x-client-request-id"@
}

/// Framing that belongs to one connection.
pub open spec fn is_framing(name: Seq<char>) -> bool {
    ||| name == "host"@ || name == "content-length"@ || name == "content-encoding"@
    ||| name == "accept-encoding"@ || name == "connection"@ || name == "keep-alive"@
    ||| name == "proxy-connection"@ || name == "proxy-authenticate"@ || name == "te"@
    ||| name == "trailer"@ || name == "transfer-encoding"@ || name == "upgrade"@ || name
        == "expect"@
}

/// What proxies and browsers on the way add.
pub open spec fn is_ingress(name: Seq<char>) -> bool {
    ||| name == "forwarded"@ || name == "via"@ || name == "x-real-ip"@ || name == "cdn-loop"@
    ||| name == "true-client-ip"@ || name == "fastly-client-ip"@ || name
        == "x-envoy-external-address"@
    ||| name == "origin"@ || name == "referer"@ || name == "sec-fetch-site"@
    ||| name == "sec-ch-ua"@ || name == "sec-ch-ua-platform"@
    ||| name == "cf-ray"@ || name == "cf-ew-via"@ || name == "cf-worker"@
    ||| name == "cf-connecting-ipv6"@ || name == "cf-pseudo-ipv4"@
    ||| name == "cf-access-jwt-assertion"@ || name == "cf-access-client-id"@ || name
        == "cf-access-client-secret"@
    ||| "x-forwarded-"@.is_prefix_of(name) || "x-codex-queue-"@.is_prefix_of(name)
}

/// Whether a header never goes upstream.
pub open spec fn is_excluded(name: Seq<char>) -> bool {
    is_private(name) || is_framing(name) || is_ingress(name)
}

/// The headers that go upstream.
pub open spec fn passed(m: Map<Seq<char>, Seq<char>>) -> Map<Seq<char>, Seq<char>> {
    table::kept(
        m,
        |name: Seq<char>, value: Seq<char>|
            !nominates(nominated(m), name) && !is_excluded(name),
    )
}

/// The headers that go upstream for what a caller supplies, or why they are refused.
pub open spec fn forwarded(list: Seq<(Seq<char>, Seq<char>)>) -> Result<
    Map<Seq<char>, Seq<char>>,
    HeaderError,
> {
    match intake(list) {
        Err(e) => Err(e),
        Ok(m) => if are_tokens(nominated(m)) {
            Ok(passed(m))
        } else {
            Err(HeaderError::ConnectionToken)
        },
    }
}

/// One value under each name.
pub open spec fn single(m: Map<Seq<char>, Seq<char>>) -> Map<Seq<char>, Seq<Seq<u8>>> {
    m.map_values(|s: Seq<char>| seq![encode_utf8(s)])
}

pub open spec fn header_result(r: Result<http::HeaderMap, HeaderError>) -> Result<
    Map<Seq<char>, Seq<Seq<u8>>>,
    HeaderError,
> {
    match r {
        Ok(h) => Ok(header_map::headers_of(h)),
        Err(e) => Err(e),
    }
}

pub open spec fn single_result(r: Result<Map<Seq<char>, Seq<char>>, HeaderError>) -> Result<
    Map<Seq<char>, Seq<Seq<u8>>>,
    HeaderError,
> {
    match r {
        Ok(m) => Ok(single(m)),
        Err(e) => Err(e),
    }
}

proof fn lemma_single(m: Map<Seq<char>, Seq<char>>)
    requires
        m.dom().finite(),
    ensures
        header_map::is_single(single(m)),
        single(m).dom() == m.dom(),
{
    assert(single(m).dom() =~= m.dom());
}

/// An error stays the result for more headers.
proof fn lemma_intake_stops(list: Seq<(Seq<char>, Seq<char>)>, n: int)
    requires
        0 <= n <= list.len(),
    ensures
        intake(list.take(n)) is Err ==> intake(list) == intake(list.take(n)),
        total(list.take(n)) <= total(list),
    decreases list.len(),
{
    if n < list.len() {
        lemma_intake_stops(list.drop_last(), n);
        assert(list.drop_last().take(n) == list.take(n));
    } else {
        assert(list.take(n) == list);
    }
}

fn private(name: &str) -> (r: bool)
    ensures
        r == is_private(name@),
{
    same(name, "authorization") || same(name, "proxy-authorization") || same(name, "api-key")
        || same(name, "x-api-key") || same(name, "cookie") || same(name, "cookie2") || same(
        name,
        "set-cookie",
    ) || same(name, "chatgpt-account-id") || same(name, "openai-organization") || same(
        name,
        "openai-project",
    ) || same(name, "x-oai-attestation") || same(name, "user-agent") || same(name, "originator")
        || same(name, "session-id") || same(name, "thread-id") || same(name, "x-client-request-id")
}

fn framing(name: &str) -> (r: bool)
    ensures
        r == is_framing(name@),
{
    same(name, "host") || same(name, "content-length") || same(name, "content-encoding") || same(
        name,
        "accept-encoding",
    ) || same(name, "connection") || same(name, "keep-alive") || same(name, "proxy-connection")
        || same(name, "proxy-authenticate") || same(name, "te") || same(name, "trailer") || same(
        name,
        "transfer-encoding",
    ) || same(name, "upgrade") || same(name, "expect")
}

fn ingress(name: &str) -> (r: bool)
    ensures
        r == is_ingress(name@),
{
    same(name, "forwarded") || same(name, "via") || same(name, "x-real-ip") || same(
        name,
        "cdn-loop",
    ) || same(name, "true-client-ip") || same(name, "fastly-client-ip") || same(
        name,
        "x-envoy-external-address",
    ) || same(name, "origin") || same(name, "referer") || same(name, "sec-fetch-site") || same(
        name,
        "sec-ch-ua",
    ) || same(name, "sec-ch-ua-platform") || same(name, "cf-ray") || same(name, "cf-ew-via")
        || same(name, "cf-worker") || same(name, "cf-connecting-ipv6") || same(
        name,
        "cf-pseudo-ipv4",
    ) || same(name, "cf-access-jwt-assertion") || same(name, "cf-access-client-id") || same(
        name,
        "cf-access-client-secret",
    ) || begins_with(name, "x-forwarded-") || begins_with(name, "x-codex-queue-")
}

/// Reads the headers that a caller supplies.
fn take_in(supplied: &Vec<(String, String)>) -> (r: Result<http::HeaderMap, HeaderError>)
    ensures
        header_result(r) == single_result(intake(pair_views(supplied@))),
        intake(pair_views(supplied@)) matches Ok(m) ==> m.dom().finite() && m.dom().len()
            <= MAX_HEADERS,
{
    let ghost all = pair_views(supplied@);
    let ghost mut m: Map<Seq<char>, Seq<char>> = Map::empty();
    let mut headers = new_headers();
    let mut bytes: u128 = 0;
    let mut i: usize = 0;
    assert(all.take(0) =~= Seq::empty());
    assert(single(m) =~= Map::empty());
    while i < supplied.len()
        invariant
            i <= supplied@.len(),
            all == pair_views(supplied@),
            intake(all.take(i as int)) == Ok::<Map<Seq<char>, Seq<char>>, HeaderError>(m),
            header_map::headers_of(headers) == single(m),
            m.dom().finite(),
            m.dom().len() <= MAX_HEADERS,
            bytes == total(all.take(i as int)),
            bytes <= MAX_BYTES,
        decreases supplied@.len() - i,
    {
        let ghost more = all.take(i + 1);
        proof {
            assert(more.drop_last() == all.take(i as int));
            lemma_intake_stops(all, i + 1);
            lemma_single(m);
        }
        let (name, value) = (&supplied[i].0, &supplied[i].1);
        assert(more.last() == (name@, value@));
        bytes += byte_len(name) as u128 + byte_len(value) as u128;
        if header_count(&headers) >= MAX_HEADERS || bytes > MAX_BYTES as u128 || byte_len(name)
            > MAX_NAME || byte_len(value) > MAX_VALUE {
            return Err(HeaderError::TooLarge);
        }
        let header = match header_name(name) {
            Some(header) => header,
            None => return Err(HeaderError::Name),
        };
        let content = match header_value(value) {
            Some(content) => content,
            None => return Err(HeaderError::Value),
        };
        if value_text(&content).is_none() {
            return Err(HeaderError::Text);
        }
        let ghost key = header_map::name_text(header);
        if insert_header(&mut headers, header, content) {
            return Err(HeaderError::Duplicate);
        }
        proof {
            table::lemma_mapped_insert(
                m,
                |s: Seq<char>| seq![encode_utf8(s)],
                key,
                value@,
            );
            m = m.insert(key, value@);
        }
        i += 1;
    }
    assert(all.take(all.len() as int) == all);
    Ok(headers)
}

fn text_bytes(value: &http::HeaderValue, Ghost(s): Ghost<Seq<char>>) -> (r: String)
    requires
        header_map::value_bytes(*value) == encode_utf8(s),
        header_map::is_visible(encode_utf8(s)),
    ensures
        r@ == s,
{
    match value_text(value) {
        Some(text) => {
            proof {
                crate::digest::lemma_encoding_injective(text@, s);
            }
            text
        },
        None => String::new(),
    }
}

/// Preserves application headers while removing the caller's credentials, transport framing,
/// queue metadata and identities that the upstream transport owns. Identity metadata that is
/// left has to be rewritten by the caller. Names are compared without regard to case;
/// duplicates and invalid or unbounded input are refused.
pub fn raw_responses_headers(supplied: &Vec<(String, String)>) -> (r: Result<
    http::HeaderMap,
    HeaderError,
>)
    ensures
        header_result(r) == single_result(forwarded(pair_views(supplied@))),
{
    let ghost all = pair_views(supplied@);
    let mut headers = match take_in(supplied) {
        Ok(headers) => headers,
        Err(e) => return Err(e),
    };
    let ghost m = intake(all)->Ok_0;
    // A connection header can nominate further names, wherever it stands.
    let connection = match header_name("connection") {
        Some(name) => name,
        None => {
            proof {
                lemma_connection_name();
            }
            return Err(HeaderError::Name);
        },
    };
    proof {
        lemma_connection_name();
        assert(header_map::name_text(connection) == "connection"@);
    }
    let values = header_values(&headers, &connection);
    let ghost views = values@.map_values(|v: http::HeaderValue| header_map::value_bytes(v));
    let tokens: Vec<String> = if values.len() > 0 {
        proof {
            assert(views.len() > 0);
            assert(m.contains_key("connection"@));
            lemma_intake_entry(all, "connection"@);
            assert(views[0] == encode_utf8(m["connection"@]));
        }
        let text = text_bytes(&values[0], Ghost(m["connection"@]));
        split(&text, ',')
    } else {
        proof {
            if m.contains_key("connection"@) {
                assert(single(m)["connection"@].len() == 1);
                assert(views.len() == 1);
            }
        }
        Vec::new()
    };
    let ghost list = text::texts(tokens@);
    assert(list =~= nominated(m));
    let mut i: usize = 0;
    assert(list.take(0) =~= Seq::empty());
    assert(unnominated(m, list.take(0)) =~= m);
    while i < tokens.len()
        invariant
            i <= tokens@.len(),
            intake(all) == Ok::<Map<Seq<char>, Seq<char>>, HeaderError>(m),
            all == pair_views(supplied@),
            list == text::texts(tokens@),
            list == nominated(m),
            are_tokens(list.take(i as int)),
            header_map::headers_of(headers) == single(unnominated(m, list.take(i as int))),
        decreases tokens@.len() - i,
    {
        let token = trim(&tokens[i]);
        assert(list[i as int] == tokens@[i as int]@);
        assert(token@ == text::trimmed(list[i as int]));
        proof {
            lemma_unnominated_one_more(m, list, i as int);
        }
        if !token.as_str().is_empty() {
            let name = match header_name(&token) {
                Some(name) => name,
                None => {
                    assert(!are_tokens(list));
                    return Err(HeaderError::ConnectionToken);
                },
            };
            proof {
                table::lemma_mapped_remove(
                    unnominated(m, list.take(i as int)),
                    |s: Seq<char>| seq![encode_utf8(s)],
                    header_map::name_text(name),
                );
            }
            remove_header(&mut headers, &name);
        }
        i += 1;
    }
    assert(list.take(list.len() as int) == list);
    remove_excluded(&mut headers, Ghost(unnominated(m, list)));
    proof {
        let a = table::kept(
            unnominated(m, list),
            |name: Seq<char>, value: Seq<char>| !is_excluded(name),
        );
        assert(a =~= passed(m));
    }
    Ok(headers)
}

proof fn lemma_connection_name()
    ensures
        header_map::is_name("connection"@),
        text::lower("connection"@) == "connection"@,
{
    reveal_strlit("connection");
    assert(text::lower("connection"@) =~= "connection"@);
}

/// The headers without those that a list nominates.
pub open spec fn unnominated(m: Map<Seq<char>, Seq<char>>, list: Seq<Seq<char>>) -> Map<
    Seq<char>,
    Seq<char>,
> {
    table::kept(m, |name: Seq<char>, value: Seq<char>| !nominates(list, name))
}

proof fn lemma_unnominated_one_more(m: Map<Seq<char>, Seq<char>>, list: Seq<Seq<char>>, i: int)
    requires
        0 <= i < list.len(),
    ensures
        unnominated(m, list.take(i + 1)) == (if text::trimmed(list[i]).len() > 0 {
            unnominated(m, list.take(i)).remove(text::lower(text::trimmed(list[i])))
        } else {
            unnominated(m, list.take(i))
        }),
        are_tokens(list.take(i)) && (text::trimmed(list[i]).len() == 0 || header_map::is_name(
            text::trimmed(list[i]),
        )) ==> are_tokens(list.take(i + 1)),
{
    let a = list.take(i);
    let b = list.take(i + 1);
    let own = text::trimmed(list[i]);
    assert(b[i] == list[i]);
    assert forall|name: Seq<char>| #[trigger] nominates(b, name) <==> nominates(a, name) || (
    own.len() > 0 && text::lower(own) == name) by {
        if nominates(b, name) {
            let k = choose|k: int|
                0 <= k < b.len() && text::trimmed(#[trigger] b[k]).len() > 0 && text::lower(
                    text::trimmed(b[k]),
                ) == name;
            if k < i {
                assert(a[k] == b[k]);
            }
        }
        if nominates(a, name) {
            let k = choose|k: int|
                0 <= k < a.len() && text::trimmed(#[trigger] a[k]).len() > 0 && text::lower(
                    text::trimmed(a[k]),
                ) == name;
            assert(b[k] == a[k]);
        }
    }
    let target = if own.len() > 0 {
        unnominated(m, a).remove(text::lower(own))
    } else {
        unnominated(m, a)
    };
    assert(unnominated(m, b) =~= target);
    if are_tokens(a) && (own.len() == 0 || header_map::is_name(own)) {
        assert forall|k: int| 0 <= k < b.len() implies text::trimmed(#[trigger] b[k]).len() == 0
            || header_map::is_name(text::trimmed(b[k])) by {
            if k < i {
                assert(a[k] == b[k]);
            }
        }
    }
}

/// Removes the headers that never go upstream.
fn remove_excluded(headers: &mut http::HeaderMap, Ghost(m): Ghost<Map<Seq<char>, Seq<char>>>)
    requires
        header_map::headers_of(*old(headers)) == single(m),
    ensures
        header_map::headers_of(*final(headers)) == single(
            table::kept(m, |name: Seq<char>, value: Seq<char>| !is_excluded(name)),
        ),
{
    let names = header_names(headers);
    let ghost start = single(m);
    let mut i: usize = 0;
    while i < names.len()
        invariant
            i <= names@.len(),
            start == single(m),
            header_map::lists_names(names@, start),
            forall|k: Seq<char>| #[trigger]
                header_map::headers_of(*headers).contains_key(k) ==> start.contains_key(k)
                    && header_map::headers_of(*headers)[k] == start[k],
            forall|k: Seq<char>|
                start.contains_key(k) && !is_excluded(k) ==> #[trigger] header_map::headers_of(
                    *headers,
                ).contains_key(k),
            forall|j: int|
                0 <= j < i && is_excluded(header_map::name_text(#[trigger] names@[j]))
                    ==> !header_map::headers_of(*headers).contains_key(
                    header_map::name_text(names@[j]),
                ),
        decreases names@.len() - i,
    {
        let name = name_string(&names[i]);
        if private(&name) || framing(&name) || ingress(&name) {
            remove_header(headers, &names[i]);
        }
        i += 1;
    }
    proof {
        let target = single(
            table::kept(m, |name: Seq<char>, value: Seq<char>| !is_excluded(name)),
        );
        let now = header_map::headers_of(*headers);
        assert forall|k: Seq<char>| #[trigger] now.contains_key(k) implies target.contains_key(k)
            && now[k] == target[k] by {
            assert(start.contains_key(k));
            let j = choose|j: int|
                0 <= j < names@.len() && header_map::name_text(#[trigger] names@[j]) == k;
            assert(header_map::name_text(names@[j]) == k);
        }
        assert forall|k: Seq<char>| #[trigger] target.contains_key(k) implies now.contains_key(
            k,
        ) by {
            assert(start.contains_key(k));
        }
        table::lemma_same_map(now, target);
    }
}

/// The name under which a request carries its identifier.
pub open spec fn call_id_name() -> Seq<char> {
    "x-codex-inference-call-id"@
}

/// Whether a text is a random identifier: hexadecimal digits and hyphens, 36 in all.
pub open spec fn is_call_id(s: Seq<char>) -> bool {
    s.len() == 36 && forall|i: int|
        0 <= i < s.len() ==> crate::digest::is_hex(#[trigger] s[i]) || s[i] == '-'
}

/// `uuid::Uuid::new_v4`, printed with hyphens: 36 characters, hexadecimal digits in lower case
/// and hyphens. Which one it is depends on chance.
#[verifier::external_body]
fn new_call_id() -> (r: String)
    ensures
        is_call_id(r@),
{
    uuid::Uuid::new_v4().to_string()
}

/// Whether a caller supplies its credentials.
pub open spec fn has_credentials(list: Seq<(Seq<char>, Seq<char>)>) -> bool {
    exists|i: int|
        0 <= i < list.len() && text::same_folded((#[trigger] list[i]).0, "authorization"@)
}

/// The headers of a request, before it has its identifier, or why they are refused.
pub open spec fn requested(list: Seq<(Seq<char>, Seq<char>)>) -> Result<
    Map<Seq<char>, Seq<char>>,
    HeaderError,
> {
    if has_credentials(list) {
        Err(HeaderError::Credentials)
    } else {
        forwarded(list)
    }
}

/// The headers with an identifier, where they have none.
pub open spec fn identified(m: Map<Seq<char>, Seq<char>>, id: Seq<char>) -> Result<
    Map<Seq<char>, Seq<char>>,
    HeaderError,
> {
    if m.contains_key(call_id_name()) {
        Ok(m)
    } else if header_map::is_value(encode_utf8(id)) {
        Ok(m.insert(call_id_name(), id))
    } else {
        Err(HeaderError::CallId)
    }
}

fn supplies_credentials(supplied: &Vec<(String, String)>) -> (r: bool)
    ensures
        r == has_credentials(pair_views(supplied@)),
{
    let ghost all = pair_views(supplied@);
    let mut i: usize = 0;
    while i < supplied.len()
        invariant
            i <= supplied@.len(),
            all == pair_views(supplied@),
            forall|k: int|
                0 <= k < i ==> !text::same_folded((#[trigger] all[k]).0, "authorization"@),
        decreases supplied@.len() - i,
    {
        assert(all[i as int] == (supplied@[i as int].0@, supplied@[i as int].1@));
        if equal_folded(&supplied[i].0, "authorization") {
            return true;
        }
        i += 1;
    }
    false
}

proof fn lemma_intake_small(list: Seq<(Seq<char>, Seq<char>)>)
    ensures
        intake(list) matches Ok(m) ==> m.dom().finite() && m.dom().len() <= MAX_HEADERS,
        forwarded(list) matches Ok(m) ==> m.dom().finite() && m.dom().len() <= MAX_HEADERS,
    decreases list.len(),
{
    if list.len() > 0 {
        lemma_intake_small(list.drop_last());
    }
    if let Ok(m) = intake(list) {
        assert(passed(m).dom().subset_of(m.dom()));
        vstd::set_lib::lemma_len_subset(passed(m).dom(), m.dom());
    }
}

proof fn lemma_call_id_name()
    ensures
        header_map::is_name(call_id_name()),
        text::lower(call_id_name()) == call_id_name(),
{
    reveal_strlit("x-codex-inference-call-id");
    assert(text::lower(call_id_name()) =~= call_id_name());
}

/// The headers of a request under an identifier that is used where the caller gives none.
pub fn request_headers_as(supplied: &Vec<(String, String)>, id: &str) -> (r: Result<
    http::HeaderMap,
    HeaderError,
>)
    ensures
        header_result(r) == single_result(
            match requested(pair_views(supplied@)) {
                Ok(m) => identified(m, id@),
                Err(e) => Err(e),
            },
        ),
{
    if supplies_credentials(supplied) {
        return Err(HeaderError::Credentials);
    }
    let mut headers = match raw_responses_headers(supplied) {
        Ok(headers) => headers,
        Err(e) => return Err(e),
    };
    let ghost m = forwarded(pair_views(supplied@))->Ok_0;
    proof {
        lemma_intake_small(pair_views(supplied@));
        lemma_single(m);
        lemma_call_id_name();
    }
    let name = match header_name("x-codex-inference-call-id") {
        Some(name) => name,
        None => return Err(HeaderError::Name),
    };
    if !has_header(&headers, &name) {
        let value = match header_value(id) {
            Some(value) => value,
            None => return Err(HeaderError::CallId),
        };
        proof {
            table::lemma_mapped_insert(
                m,
                |s: Seq<char>| seq![encode_utf8(s)],
                call_id_name(),
                id@,
            );
        }
        let _ = insert_header(&mut headers, name, value);
    }
    Ok(headers)
}

/// The headers of a request; one without an identifier gets a random one.
pub fn request_headers(supplied: &Vec<(String, String)>) -> (r: Result<
    http::HeaderMap,
    HeaderError,
>)
    ensures
        match requested(pair_views(supplied@)) {
            Err(e) => r == Err::<http::HeaderMap, HeaderError>(e),
            Ok(m) => r matches Ok(h) && exists|id: Seq<char>| #[trigger]
                is_call_id(id) && header_map::headers_of(h) == single(
                    if m.contains_key(call_id_name()) {
                        m
                    } else {
                        m.insert(call_id_name(), id)
                    },
                ),
        },
{
    let id = new_call_id();
    proof {
        assert(is_ascii_chars(id@));
        is_ascii_chars_encode_utf8(id@);
        let bytes = encode_utf8(id@);
        assert forall|i: int| 0 <= i < bytes.len() implies header_map::is_value_byte(
            #[trigger] bytes[i],
        ) by {
            assert(crate::digest::is_hex(id@[i]) || id@[i] == '-');
            assert(bytes[i] == id@[i] as u8);
        }
    }
    request_headers_as(supplied, &id)
}

/// The largest value of a response header that goes back to the caller.
pub open spec fn response_limit(name: Seq<char>) -> usize {
    if name == "x-codex-turn-state"@ {
        8192
    } else {
        1024
    }
}

/// Whether a response header goes back to the caller: there is one of it, and it is bounded
/// text.
pub open spec fn goes_back(m: Map<Seq<char>, Seq<Seq<u8>>>, name: Seq<char>) -> bool {
    let values = header_map::values_of(m, name);
    values.len() == 1 && header_map::is_visible(values[0]) && values[0].len() <= response_limit(
        name,
    )
}

/// Whether a response header is one of those that may go back to the caller.
pub open spec fn is_routing(name: Seq<char>) -> bool {
    name == "x-codex-turn-state"@ || name == "retry-after"@ || name == "content-type"@
}

fn push_routing(out: &mut Table<String, String>, headers: &http::HeaderMap, name: &str)
    requires
        old(out).wf(),
        header_map::is_name(name@),
        text::lower(name@) == name@,
    ensures
        final(out).wf(),
        ({
            let m = header_map::headers_of(*headers);
            if goes_back(m, name@) {
                &&& final(out)@.contains_key(name@)
                &&& final(out)@ == old(out)@.insert(name@, final(out)@[name@])
                &&& encode_utf8(final(out)@[name@]@) == m[name@][0]
            } else {
                final(out)@ == old(out)@
            }
        }),
{
    let header = match header_name(name) {
        Some(header) => header,
        None => return,
    };
    let values = header_values(headers, &header);
    let ghost views = values@.map_values(|v: http::HeaderValue| header_map::value_bytes(v));
    assert(views.len() == values@.len());
    if values.len() != 1 {
        return;
    }
    assert(views[0] == header_map::value_bytes(values@[0]));
    let limit: usize = if same(name, "x-codex-turn-state") {
        8192
    } else {
        1024
    };
    if let Some(value) = value_text(&values[0]) {
        if byte_len(&value) <= limit {
            out.insert(name.to_owned(), value);
        }
    }
}

proof fn lemma_routing_names()
    ensures
        header_map::is_name("x-codex-turn-state"@),
        header_map::is_name("retry-after"@),
        header_map::is_name("content-type"@),
        text::lower("x-codex-turn-state"@) == "x-codex-turn-state"@,
        text::lower("retry-after"@) == "retry-after"@,
        text::lower("content-type"@) == "content-type"@,
        "x-codex-turn-state"@ != "retry-after"@,
        "x-codex-turn-state"@ != "content-type"@,
        "retry-after"@ != "content-type"@,
{
    reveal_strlit("x-codex-turn-state");
    reveal_strlit("retry-after");
    reveal_strlit("content-type");
    assert(text::lower("x-codex-turn-state"@) =~= "x-codex-turn-state"@);
    assert(text::lower("retry-after"@) =~= "retry-after"@);
    assert(text::lower("content-type"@) =~= "content-type"@);
    assert("retry-after"@.len() == 11);
    assert("content-type"@.len() == 12);
    assert("x-codex-turn-state"@.len() == 18);
}

/// The response headers that go back to the caller.
pub fn response_headers(headers: &http::HeaderMap) -> (r: Table<String, String>)
    ensures
        r.wf(),
        forall|name: Seq<char>| #[trigger]
            r@.contains_key(name) <==> is_routing(name) && goes_back(
                header_map::headers_of(*headers),
                name,
            ),
        forall|name: Seq<char>| #[trigger]
            r@.contains_key(name) ==> encode_utf8(r@[name]@) == header_map::headers_of(
                *headers,
            )[name][0],
{
    proof {
        lemma_routing_names();
    }
    let mut out: Table<String, String> = Table::new();
    push_routing(&mut out, headers, "x-codex-turn-state");
    let ghost a = out@;
    push_routing(&mut out, headers, "retry-after");
    let ghost b = out@;
    push_routing(&mut out, headers, "content-type");
    proof {
        let m = header_map::headers_of(*headers);
        assert(goes_back(m, "x-codex-turn-state"@) <==> a.contains_key("x-codex-turn-state"@));
        assert(goes_back(m, "retry-after"@) <==> b.contains_key("retry-after"@));
    }
    out
}

/// Nothing that is the caller's own, that belongs to one connection or that proxies added goes
/// upstream, whatever its spelling, nor does what a connection header nominates. What does go
/// was supplied: its name up to case, its value as it is.
pub proof fn law_nothing_excluded_passes(list: Seq<(Seq<char>, Seq<char>)>, name: Seq<char>)
    requires
        forwarded(list) matches Ok(m) && m.contains_key(name),
    ensures
        !is_excluded(name),
        !nominates(nominated(intake(list)->Ok_0), name),
        intake(list)->Ok_0.contains_key(name),
        forwarded(list)->Ok_0[name] == intake(list)->Ok_0[name],
        exists|i: int|
            0 <= i < list.len() && text::lower((#[trigger] list[i]).0) == name && list[i].1
                == forwarded(list)->Ok_0[name],
{
    lemma_intake_entry(list, name);
}

/// Where a header that was read came from, and that it is as it should be.
proof fn lemma_intake_entry(list: Seq<(Seq<char>, Seq<char>)>, name: Seq<char>)
    requires
        intake(list) matches Ok(m) && m.contains_key(name),
    ensures
        exists|i: int|
            0 <= i < list.len() && text::lower((#[trigger] list[i]).0) == name && list[i].1
                == intake(list)->Ok_0[name],
        is_sendable(name, intake(list)->Ok_0[name]),
        text::lower(name) == name,
    decreases list.len(),
{
    let front = list.drop_last();
    let own = text::lower(list.last().0);
    if name == own {
        assert(list[list.len() - 1] == list.last());
        lemma_lower_name(list.last().0);
    } else {
        lemma_intake_entry(front, name);
        let i = choose|i: int|
            0 <= i < front.len() && text::lower((#[trigger] front[i]).0) == name && front[i].1
                == intake(front)->Ok_0[name];
        assert(list[i] == front[i]);
    }
}

/// Whether a header by itself is within bounds and well formed.
pub open spec fn is_sendable(name: Seq<char>, value: Seq<char>) -> bool {
    &&& text::byte_length(name) <= MAX_NAME
    &&& text::byte_length(value) <= MAX_VALUE
    &&& header_map::is_name(name)
    &&& header_map::is_value(encode_utf8(value))
    &&& header_map::is_visible(encode_utf8(value))
}

/// A name in lower case is a name of the same length, and in lower case.
proof fn lemma_lower_name(name: Seq<char>)
    requires
        header_map::is_name(name),
    ensures
        header_map::is_name(text::lower(name)),
        text::lower(text::lower(name)) == text::lower(name),
        text::byte_length(text::lower(name)) == text::byte_length(name),
{
    let low = text::lower(name);
    assert forall|i: int| 0 <= i < low.len() implies header_map::is_token_char(#[trigger] low[i])
        && text::lower_char(low[i]) == low[i] by {
        assert(header_map::is_token_char(name[i]));
        assert(low[i] == text::lower_char(name[i]));
    }
    assert(text::lower(low) =~= low);
    lemma_token_bytes(name);
    lemma_token_bytes(low);
}

/// A name has one byte for each character.
proof fn lemma_token_bytes(name: Seq<char>)
    requires
        forall|i: int| 0 <= i < name.len() ==> header_map::is_token_char(#[trigger] name[i]),
    ensures
        text::byte_length(name) == name.len(),
{
    assert forall|i: int| 0 <= i < name.len() implies (#[trigger] name[i]) as u32 <= 127 by {
        assert(header_map::is_token_char(name[i]));
    }
    is_ascii_chars_encode_utf8(name);
}

/// What was read is within the bounds.
proof fn lemma_intake_bounds(list: Seq<(Seq<char>, Seq<char>)>)
    requires
        intake(list) is Ok,
    ensures
        intake(list)->Ok_0.dom().finite(),
        intake(list)->Ok_0.dom().len() <= MAX_HEADERS,
        total(list) <= MAX_BYTES,
    decreases list.len(),
{
    if list.len() > 0 {
        lemma_intake_bounds(list.drop_last());
    }
}

/// Whether a list holds headers out of a map, each of them once.
pub open spec fn lists_some(
    list: Seq<(Seq<char>, Seq<char>)>,
    m: Map<Seq<char>, Seq<char>>,
) -> bool {
    &&& forall|i: int|
        0 <= i < list.len() ==> m.contains_key((#[trigger] list[i]).0) && m[list[i].0] == list[i].1
    &&& forall|i: int, j: int|
        0 <= i < j < list.len() ==> (#[trigger] list[i]).0 != (#[trigger] list[j]).0
}

/// Whether a list holds exactly the headers of a map, each of them once.
pub open spec fn lists_all(
    list: Seq<(Seq<char>, Seq<char>)>,
    m: Map<Seq<char>, Seq<char>>,
) -> bool {
    &&& lists_some(list, m)
    &&& forall|name: Seq<char>| #[trigger]
        m.contains_key(name) ==> exists|i: int| 0 <= i < list.len() && (#[trigger] list[i]).0 == name
}

proof fn lemma_total_without(list: Seq<(Seq<char>, Seq<char>)>, i: int)
    requires
        0 <= i < list.len(),
    ensures
        total(list) == total(list.remove(i)) + text::byte_length(list[i].0) + text::byte_length(
            list[i].1,
        ),
    decreases list.len(),
{
    let front = list.drop_last();
    if i == list.len() - 1 {
        assert(list.remove(i) =~= front);
    } else {
        lemma_total_without(front, i);
        assert(list.remove(i).drop_last() =~= front.remove(i));
        assert(list.remove(i).last() == list.last());
        assert(front[i] == list[i]);
    }
}

/// Headers out of those that were read are no more, and no longer, than what was supplied.
proof fn lemma_no_longer(list: Seq<(Seq<char>, Seq<char>)>, some: Seq<(Seq<char>, Seq<char>)>)
    requires
        intake(list) is Ok,
        lists_some(some, intake(list)->Ok_0),
    ensures
        total(some) <= total(list),
        some.len() <= intake(list)->Ok_0.dom().len(),
    decreases list.len(),
{
    if list.len() == 0 {
        if some.len() > 0 {
            assert(intake(list)->Ok_0.contains_key(some[0].0));
        }
    } else {
        let front = list.drop_last();
        let m = intake(front)->Ok_0;
        let own = text::lower(list.last().0);
        lemma_intake_bounds(front);
        lemma_lower_name(list.last().0);
        if exists|i: int| 0 <= i < some.len() && (#[trigger] some[i]).0 == own {
            let i = choose|i: int| 0 <= i < some.len() && (#[trigger] some[i]).0 == own;
            let rest = some.remove(i);
            assert forall|k: int| 0 <= k < rest.len() implies m.contains_key((#[trigger] rest[k]).0)
                && m[rest[k].0] == rest[k].1 by {
                let at = if k < i {
                    k
                } else {
                    k + 1
                };
                assert(rest[k] == some[at]);
                assert(some[at].0 != some[i].0);
            }
            assert forall|k: int, j: int| 0 <= k < j < rest.len() implies (#[trigger] rest[k]).0
                != (#[trigger] rest[j]).0 by {
                let a = if k < i {
                    k
                } else {
                    k + 1
                };
                let b = if j < i {
                    j
                } else {
                    j + 1
                };
                assert(rest[k] == some[a] && rest[j] == some[b]);
            }
            lemma_no_longer(front, rest);
            lemma_total_without(some, i);
            assert(some[i].1 == list.last().1);
        } else {
            assert forall|k: int| 0 <= k < some.len() implies m.contains_key((#[trigger] some[k]).0)
                && m[some[k].0] == some[k].1 by {
                assert(some[k].0 != own);
            }
            lemma_no_longer(front, some);
        }
    }
}

/// Headers out of those that were read are read again as they are.
proof fn lemma_read_again(list: Seq<(Seq<char>, Seq<char>)>, some: Seq<(Seq<char>, Seq<char>)>)
    requires
        intake(list) is Ok,
        lists_some(some, intake(list)->Ok_0),
    ensures
        intake(some) matches Ok(m) && m.dom().finite() && m.dom().len() == some.len() && (forall|
            name: Seq<char>,
        | #[trigger]
            m.contains_key(name) <==> exists|i: int|
                0 <= i < some.len() && (#[trigger] some[i]).0 == name) && (forall|name: Seq<char>|
         #[trigger]
            m.contains_key(name) ==> m[name] == intake(list)->Ok_0[name]),
    decreases some.len(),
{
    let all = intake(list)->Ok_0;
    if some.len() > 0 {
        let front = some.drop_last();
        let last = some.last();
        assert(some[some.len() - 1] == last);
        assert forall|k: int| 0 <= k < front.len() implies all.contains_key((#[trigger] front[k]).0)
            && all[front[k].0] == front[k].1 by {
            assert(front[k] == some[k]);
        }
        assert forall|k: int, j: int| 0 <= k < j < front.len() implies (#[trigger] front[k]).0 != (
        #[trigger] front[j]).0 by {
            assert(front[k] == some[k] && front[j] == some[j]);
        }
        lemma_read_again(list, front);
        lemma_no_longer(list, some);
        lemma_intake_bounds(list);
        lemma_intake_entry(list, last.0);
        let m = intake(front)->Ok_0;
        if m.contains_key(last.0) {
            let i = choose|i: int| 0 <= i < front.len() && (#[trigger] front[i]).0 == last.0;
            assert(some[i] == front[i]);
        }
        let next = m.insert(last.0, last.1);
        assert(intake(some) == Ok::<Map<Seq<char>, Seq<char>>, HeaderError>(next));
        assert forall|name: Seq<char>| #[trigger] next.contains_key(name) <==> exists|i: int|
            0 <= i < some.len() && (#[trigger] some[i]).0 == name by {
            if m.contains_key(name) {
                let i = choose|i: int| 0 <= i < front.len() && (#[trigger] front[i]).0 == name;
                assert(some[i].0 == name);
            }
            if exists|i: int| 0 <= i < some.len() && (#[trigger] some[i]).0 == name {
                let i = choose|i: int| 0 <= i < some.len() && (#[trigger] some[i]).0 == name;
                if i < front.len() {
                    assert(front[i].0 == name);
                }
            }
        }
    }
}

/// Filtering headers that were filtered before changes nothing: in whatever order they are
/// supplied again, all of them pass as they are.
pub proof fn law_filtering_again_changes_nothing(
    list: Seq<(Seq<char>, Seq<char>)>,
    again: Seq<(Seq<char>, Seq<char>)>,
)
    requires
        forwarded(list) matches Ok(m) && lists_all(again, m),
    ensures
        forwarded(again) == forwarded(list),
{
    let all = intake(list)->Ok_0;
    let m = forwarded(list)->Ok_0;
    assert forall|i: int| 0 <= i < again.len() implies all.contains_key((#[trigger] again[i]).0)
        && all[again[i].0] == again[i].1 by {
        assert(m.contains_key(again[i].0));
    }
    lemma_read_again(list, again);
    let read = intake(again)->Ok_0;
    assert forall|name: Seq<char>| #[trigger] read.contains_key(name) implies m.contains_key(name)
        && read[name] == m[name] by {
        let i = choose|i: int| 0 <= i < again.len() && (#[trigger] again[i]).0 == name;
        assert(m.contains_key(again[i].0));
    }
    table::lemma_same_map(read, m);
    assert(is_framing("connection"@));
    assert(!m.contains_key("connection"@));
    assert(nominated(read) =~= Seq::empty());
    assert(passed(read) =~= m);
}

proof fn lemma_intake_keeps(list: Seq<(Seq<char>, Seq<char>)>, i: int)
    requires
        0 <= i < list.len(),
        intake(list) is Ok,
    ensures
        intake(list)->Ok_0.contains_key(text::lower(list[i].0)),
        intake(list)->Ok_0[text::lower(list[i].0)] == list[i].1,
    decreases list.len(),
{
    if i < list.len() - 1 {
        lemma_intake_keeps(list.drop_last(), i);
        assert(list.drop_last()[i] == list[i]);
    }
}

/// Every header that is none of those goes upstream with its value as it is.
pub proof fn law_application_headers_pass(list: Seq<(Seq<char>, Seq<char>)>, i: int)
    requires
        0 <= i < list.len(),
        forwarded(list) is Ok,
        !is_excluded(text::lower(list[i].0)),
        !nominates(nominated(intake(list)->Ok_0), text::lower(list[i].0)),
    ensures
        forwarded(list)->Ok_0.contains_key(text::lower(list[i].0)),
        forwarded(list)->Ok_0[text::lower(list[i].0)] == list[i].1,
{
    lemma_intake_keeps(list, i);
}

/// Two headers whose names differ only in case are refused, even where neither goes upstream.
pub proof fn law_duplicates_are_refused(list: Seq<(Seq<char>, Seq<char>)>, i: int, j: int)
    requires
        0 <= i < j < list.len(),
        text::same_folded(list[i].0, list[j].0),
    ensures
        forwarded(list) is Err,
{
    lemma_duplicate_intake(list, i, j);
}

proof fn lemma_duplicate_intake(list: Seq<(Seq<char>, Seq<char>)>, i: int, j: int)
    requires
        0 <= i < j < list.len(),
        text::same_folded(list[i].0, list[j].0),
    ensures
        intake(list) is Err,
    decreases list.len(),
{
    let front = list.drop_last();
    if j < list.len() - 1 {
        assert(front[i] == list[i] && front[j] == list[j]);
        lemma_duplicate_intake(front, i, j);
    } else if intake(front) is Ok {
        lemma_intake_keeps(front, i);
        assert(front[i] == list[i]);
    }
}

/// A header goes upstream exactly where it was supplied, no connection header nominates it, and it
/// is none of the caller's credentials and identities, of a connection's framing and of what
/// proxies and browsers on the way add; it goes with its value as it is.
pub proof fn law_which_headers_go_upstream(list: Seq<(Seq<char>, Seq<char>)>, name: Seq<char>)
    requires
        forwarded(list) is Ok,
    ensures
        forwarded(list)->Ok_0.contains_key(name) <==> {
            &&& exists|i: int| 0 <= i < list.len() && text::lower((#[trigger] list[i]).0) == name
            &&& forall|i: int, k: int|
                #![trigger list[i], text::pieces(list[i].1, ',')[k]]
                0 <= i < list.len() && text::lower(list[i].0) == "connection"@ && 0 <= k
                    < text::pieces(list[i].1, ',').len() && text::trimmed(
                    text::pieces(list[i].1, ',')[k],
                ).len() > 0 ==> text::lower(text::trimmed(text::pieces(list[i].1, ',')[k]))
                    != name
            &&& name != "authorization"@
            &&& name != "proxy-authorization"@
            &&& name != "api-key"@
            &&& name != "x-api-key"@
            &&& name != "cookie"@
            &&& name != "cookie2"@
            &&& name != "set-cookie"@
            &&& name != "chatgpt-account-id"@
            &&& name != "openai-organization"@
            &&& name != "openai-project"@
            &&& name != "x-oai-attestation"@
            &&& name != "user-agent"@
            &&& name != "originator"@
            &&& name != "session-id"@
            &&& name != "thread-id"@
            &&& name != "x-client-request-id"@
            &&& name != "host"@
            &&& name != "content-length"@
            &&& name != "content-encoding"@
            &&& name != "accept-encoding"@
            &&& name != "connection"@
            &&& name != "keep-alive"@
            &&& name != "proxy-connection"@
            &&& name != "proxy-authenticate"@
            &&& name != "te"@
            &&& name != "trailer"@
            &&& name != "transfer-encoding"@
            &&& name != "upgrade"@
            &&& name != "expect"@
            &&& name != "forwarded"@
            &&& name != "via"@
            &&& name != "x-real-ip"@
            &&& name != "cdn-loop"@
            &&& name != "true-client-ip"@
            &&& name != "fastly-client-ip"@
            &&& name != "x-envoy-external-address"@
            &&& name != "origin"@
            &&& name != "referer"@
            &&& name != "sec-fetch-site"@
            &&& name != "sec-ch-ua"@
            &&& name != "sec-ch-ua-platform"@
            &&& name != "cf-ray"@
            &&& name != "cf-ew-via"@
            &&& name != "cf-worker"@
            &&& name != "cf-connecting-ipv6"@
            &&& name != "cf-pseudo-ipv4"@
            &&& name != "cf-access-jwt-assertion"@
            &&& name != "cf-access-client-id"@
            &&& name != "cf-access-client-secret"@
            &&& !"x-forwarded-"@.is_prefix_of(name)
            &&& !"x-codex-queue-"@.is_prefix_of(name)
        },
        forall|i: int|
            0 <= i < list.len() && text::lower((#[trigger] list[i]).0) == name
                && forwarded(list)->Ok_0.contains_key(name) ==> forwarded(list)->Ok_0[name]
                == list[i].1,
{
    let m = intake(list)->Ok_0;
    lemma_supplied(list, name);
    lemma_supplied(list, "connection"@);
    assert forall|i: int|
        0 <= i < list.len() && text::lower((#[trigger] list[i]).0) == name implies m.contains_key(
        name,
    ) && m[name] == list[i].1 by {
        lemma_intake_keeps(list, i);
    }
    assert forall|i: int|
        0 <= i < list.len() && text::lower((#[trigger] list[i]).0) == "connection"@ implies m.contains_key(
        "connection"@,
    ) && m["connection"@] == list[i].1 by {
        lemma_intake_keeps(list, i);
    }
    let tokens = nominated(m);
    if nominates(tokens, name) {
        let k = choose|k: int|
            0 <= k < tokens.len() && text::trimmed(#[trigger] tokens[k]).len() > 0 && text::lower(
                text::trimmed(tokens[k]),
            ) == name;
        let i = choose|i: int|
            0 <= i < list.len() && text::lower((#[trigger] list[i]).0) == "connection"@;
        assert(tokens == text::pieces(list[i].1, ','));
        assert(text::pieces(list[i].1, ',')[k] == tokens[k]);
    } else {
        assert forall|i: int, k: int|
            #![trigger list[i], text::pieces(list[i].1, ',')[k]]
            0 <= i < list.len() && text::lower(list[i].0) == "connection"@ && 0 <= k < text::pieces(
                list[i].1,
                ',',
            ).len() && text::trimmed(text::pieces(list[i].1, ',')[k]).len() > 0 implies text::lower(
            text::trimmed(text::pieces(list[i].1, ',')[k]),
        ) != name by {
            assert(tokens == text::pieces(list[i].1, ','));
            assert(tokens[k] == text::pieces(list[i].1, ',')[k]);
        }
    }
}

proof fn lemma_supplied(list: Seq<(Seq<char>, Seq<char>)>, name: Seq<char>)
    requires
        intake(list) is Ok,
    ensures
        intake(list)->Ok_0.contains_key(name) <==> exists|i: int|
            0 <= i < list.len() && text::lower((#[trigger] list[i]).0) == name,
{
    if intake(list)->Ok_0.contains_key(name) {
        lemma_intake_entry(list, name);
        let i = choose|i: int|
            0 <= i < list.len() && text::lower((#[trigger] list[i]).0) == name && list[i].1
                == intake(list)->Ok_0[name];
        assert(text::lower(list[i].0) == name);
    }
    if exists|i: int| 0 <= i < list.len() && text::lower((#[trigger] list[i]).0) == name {
        let i = choose|i: int| 0 <= i < list.len() && text::lower((#[trigger] list[i]).0) == name;
        lemma_intake_keeps(list, i);
    }
}

/// Headers are taken exactly where they are 128 at most of 64 kibibytes at most, each with a name
/// of 256 bytes and a value of 8 kibibytes at most that are well formed, and no two under one
/// name up to case.
pub proof fn law_which_headers_are_taken(list: Seq<(Seq<char>, Seq<char>)>)
    ensures
        intake(list) is Ok <==> {
            &&& list.len() <= 128
            &&& total(list) <= 65_536
            &&& forall|i: int|
                0 <= i < list.len() ==> {
                    &&& text::byte_length((#[trigger] list[i]).0) <= 256
                    &&& text::byte_length(list[i].1) <= 8192
                    &&& header_map::is_name(list[i].0)
                    &&& header_map::is_value(encode_utf8(list[i].1))
                    &&& header_map::is_visible(encode_utf8(list[i].1))
                }
            &&& forall|i: int, j: int|
                0 <= i < j < list.len() ==> text::lower((#[trigger] list[i]).0) != text::lower(
                    (#[trigger] list[j]).0,
                )
        },
        intake(list) matches Ok(m) ==> m.dom().finite() && m.dom().len() == list.len(),
    decreases list.len(),
{
    if list.len() > 0 {
        let front = list.drop_last();
        let end = list.len() - 1;
        let last = list.last();
        law_which_headers_are_taken(front);
        assert(list[end] == last);
        assert(forall|i: int| 0 <= i < end ==> #[trigger] list[i] == front[i]);
        if intake(list) is Ok {
            let m = intake(front)->Ok_0;
            assert forall|i: int, j: int| 0 <= i < j < list.len() implies text::lower(
                (#[trigger] list[i]).0,
            ) != text::lower((#[trigger] list[j]).0) by {
                if j < end {
                    assert(text::lower(front[i].0) != text::lower(front[j].0));
                } else {
                    lemma_intake_keeps(front, i);
                }
            }
        }
        if {
            &&& list.len() <= 128
            &&& total(list) <= 65_536
            &&& forall|i: int|
                0 <= i < list.len() ==> {
                    &&& text::byte_length((#[trigger] list[i]).0) <= 256
                    &&& text::byte_length(list[i].1) <= 8192
                    &&& header_map::is_name(list[i].0)
                    &&& header_map::is_value(encode_utf8(list[i].1))
                    &&& header_map::is_visible(encode_utf8(list[i].1))
                }
            &&& forall|i: int, j: int|
                0 <= i < j < list.len() ==> text::lower((#[trigger] list[i]).0) != text::lower(
                    (#[trigger] list[j]).0,
                )
        } {
            assert forall|i: int| 0 <= i < front.len() implies {
                &&& text::byte_length((#[trigger] front[i]).0) <= 256
                &&& text::byte_length(front[i].1) <= 8192
                &&& header_map::is_name(front[i].0)
                &&& header_map::is_value(encode_utf8(front[i].1))
                &&& header_map::is_visible(encode_utf8(front[i].1))
            } by {
                assert(front[i] == list[i]);
            }
            assert forall|i: int, j: int| 0 <= i < j < front.len() implies text::lower(
                (#[trigger] front[i]).0,
            ) != text::lower((#[trigger] front[j]).0) by {
                assert(front[i] == list[i] && front[j] == list[j]);
            }
            assert(intake(front) is Ok);
            let m = intake(front)->Ok_0;
            lemma_supplied(front, text::lower(last.0));
            if m.contains_key(text::lower(last.0)) {
                let i = choose|i: int|
                    0 <= i < front.len() && text::lower((#[trigger] front[i]).0) == text::lower(
                        last.0,
                    );
                assert(list[i] == front[i]);
            }
            assert(text::byte_length(list[end].0) <= 256);
        }
    }
}

/// The bytes of headers are those of each name and value.
pub proof fn law_header_bytes_add_up(
    list: Seq<(Seq<char>, Seq<char>)>,
    header: (Seq<char>, Seq<char>),
)
    ensures
        total(Seq::<(Seq<char>, Seq<char>)>::empty()) == 0,
        total(list.push(header)) == total(list) + encode_utf8(header.0).len() + encode_utf8(
            header.1,
        ).len(),
{
    assert(list.push(header).drop_last() =~= list);
}

/// A connection header is refused where something between its commas is neither blank nor a
/// header name; other headers that are taken are not refused for that.
pub proof fn law_connection_headers_are_names(list: Seq<(Seq<char>, Seq<char>)>, i: int, k: int)
    requires
        intake(list) is Ok,
        0 <= i < list.len(),
        text::lower(list[i].0) == "connection"@,
        0 <= k < text::pieces(list[i].1, ',').len(),
    ensures
        ({
            let token = text::trimmed(text::pieces(list[i].1, ',')[k]);
            token.len() > 0 && !header_map::is_name(token) ==> forwarded(list) == Err::<
                Map<Seq<char>, Seq<char>>,
                HeaderError,
            >(HeaderError::ConnectionToken)
        }),
{
    lemma_intake_keeps(list, i);
    let tokens = nominated(intake(list)->Ok_0);
    assert(tokens == text::pieces(list[i].1, ','));
    assert(tokens[k] == text::pieces(list[i].1, ',')[k]);
}

/// Headers without a connection header are refused only where they are not taken.
pub proof fn law_other_headers_are_not_refused(list: Seq<(Seq<char>, Seq<char>)>)
    requires
        forall|i: int|
            0 <= i < list.len() ==> text::lower((#[trigger] list[i]).0) != "connection"@,
    ensures
        forwarded(list) is Ok <==> intake(list) is Ok,
{
    if intake(list) is Ok {
        lemma_supplied(list, "connection"@);
        assert(nominated(intake(list)->Ok_0) =~= Seq::empty());
    }
}

/// A request with the caller's credentials, in whatever case their name is, is refused; any other
/// has the headers that go upstream.
pub proof fn law_callers_credentials_are_refused(list: Seq<(Seq<char>, Seq<char>)>, i: int)
    ensures
        0 <= i < list.len() && text::lower(list[i].0) == "authorization"@ ==> requested(list)
            == Err::<Map<Seq<char>, Seq<char>>, HeaderError>(HeaderError::Credentials),
        (forall|k: int|
            0 <= k < list.len() ==> text::lower((#[trigger] list[k]).0) != "authorization"@)
            ==> requested(list) == forwarded(list),
{
    reveal_strlit("authorization");
    assert(text::lower("authorization"@) =~= "authorization"@);
    if 0 <= i < list.len() && text::lower(list[i].0) == "authorization"@ {
        assert(text::same_folded(list[i].0, "authorization"@));
    }
    if forall|k: int|
        0 <= k < list.len() ==> text::lower((#[trigger] list[k]).0) != "authorization"@ {
        assert forall|k: int| 0 <= k < list.len() implies !text::same_folded(
            (#[trigger] list[k]).0,
            "authorization"@,
        ) by {
            assert(text::lower(list[k].0) != "authorization"@);
        }
    }
}

/// A request keeps the identifier that it has and otherwise gets the one that is at hand, where
/// that can be a header; no other header changes.
pub proof fn law_requests_have_an_identifier(
    m: Map<Seq<char>, Seq<char>>,
    id: Seq<char>,
    other: Seq<char>,
)
    ensures
        m.contains_key("x-codex-inference-call-id"@) ==> identified(m, id) == Ok::<_, HeaderError>(m),
        !m.contains_key("x-codex-inference-call-id"@) && header_map::is_value(encode_utf8(id)) ==> (
        identified(m, id) matches Ok(after) && after.contains_key("x-codex-inference-call-id"@)
            && after["x-codex-inference-call-id"@] == id && (other != "x-codex-inference-call-id"@
            ==> (after.contains_key(other) <==> m.contains_key(other)) && (m.contains_key(other)
            ==> after[other] == m[other]))),
        !m.contains_key("x-codex-inference-call-id"@) && !header_map::is_value(encode_utf8(id))
            ==> identified(m, id) is Err,
{
}

/// Of a response the turn state goes back, up to 8 kibibytes, and up to 1024 bytes when to try
/// again and the type of the content, each where there is exactly one and it is text.
pub proof fn law_what_goes_back(m: Map<Seq<char>, Seq<Seq<u8>>>, name: Seq<char>)
    ensures
        (is_routing(name) && goes_back(m, name)) <==> {
            &&& m.contains_key(name) && m[name].len() == 1
            &&& header_map::is_visible(m[name][0])
            &&& {
                ||| name == "x-codex-turn-state"@ && m[name][0].len() <= 8192
                ||| name == "retry-after"@ && m[name][0].len() <= 1024
                ||| name == "content-type"@ && m[name][0].len() <= 1024
            }
        },
{
    lemma_routing_names();
}

} // verus!
