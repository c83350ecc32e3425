//! Bounded snapshots of requests, with credentials blotted out.
use crate::json;
use crate::json::push_json;
use crate::json::Json;
use crate::json::Tree;
use crate::metrics;
use crate::metrics::lossy;
use crate::text;
use crate::text::alphanumeric;
use crate::text::chars_of;
use crate::text::contains_text;
use crate::text::first_chars;
use crate::text::same;
use crate::text::to_lower;
use crate::header;
use crate::header::Header;
use vstd::prelude::*;

verus! {

broadcast use {vstd::seq_lib::group_seq_properties, vstd::map::group_map_axioms};

/// How many headers are kept.
pub const MAX_HEADERS: usize = 128;

/// How much of a header's value is kept, in characters.
pub const MAX_VALUE: usize = 2048;

/// The longest identifier of a request, in bytes.
pub const MAX_ID: usize = 64;

/// How many snapshots are kept besides the one that is written.
pub const MAX_FILES: usize = 99;

/// The text up to the first slash, question mark or number sign.
pub open spec fn up_to_path(s: Seq<char>) -> Seq<char>
    decreases s.len(),
{
    if s.len() == 0 || s[0] == '/' || s[0] == '?' || s[0] == '#' {
        Seq::empty()
    } else {
        seq![s[0]] + up_to_path(s.skip(1))
    }
}

/// The text after the first colon, the colon included.
pub open spec fn after_scheme(s: Seq<char>) -> Seq<char>
    decreases s.len(),
{
    if s.len() == 0 || s[0] == ':' {
        s
    } else {
        after_scheme(s.skip(1))
    }
}

/// The part of a URL that names a user and a password, if any, and a host.
pub open spec fn authority(url: Seq<char>) -> Seq<char> {
    if "://"@.is_prefix_of(after_scheme(url)) {
        up_to_path(after_scheme(url).skip(3))
    } else {
        Seq::empty()
    }
}

/// Whether a URL names neither a user nor a password.
pub open spec fn is_anonymous(url: Seq<char>) -> bool {
    !authority(url).contains('@')
}

/// The text up to the first number sign, with which a fragment starts.
pub open spec fn before_fragment(s: Seq<char>) -> Seq<char>
    decreases s.len(),
{
    if s.len() == 0 || s[0] == '#' {
        Seq::empty()
    } else {
        seq![s[0]] + before_fragment(s.skip(1))
    }
}

/// Whether a URL has no query.
pub open spec fn lacks_query(url: Seq<char>) -> bool {
    !before_fragment(url).contains('?')
}

/// The text of a URL after `reqwest::Url::set_username` with nothing, if it is a URL.
pub uninterp spec fn without_user(url: Seq<char>) -> Option<Seq<char>>;

/// The text of a URL after `reqwest::Url::set_password` with none, if it is a URL.
pub uninterp spec fn without_password(url: Seq<char>) -> Option<Seq<char>>;

/// The text of a URL after `reqwest::Url::set_query` with none, if it is a URL.
pub uninterp spec fn without_query(url: Seq<char>) -> Option<Seq<char>>;

/// The text of a URL after `reqwest::Url::set_fragment` with none, if it is a URL.
pub uninterp spec fn without_fragment(url: Seq<char>) -> Option<Seq<char>>;

/// Whether a text is that of a URL whose user was taken out.
pub open spec fn had_user_dropped(url: Seq<char>) -> bool {
    exists|u: Seq<char>| #[trigger] without_user(u) == Some(url)
}

/// Whether a text is that of a URL whose password was taken out.
pub open spec fn had_password_dropped(url: Seq<char>) -> bool {
    exists|u: Seq<char>| #[trigger] without_password(u) == Some(url)
}

/// Whether a text is that of a URL whose query was taken out.
pub open spec fn had_query_dropped(url: Seq<char>) -> bool {
    exists|u: Seq<char>| #[trigger] without_query(u) == Some(url)
}

/// `reqwest::Url::set_username` with nothing on the URL that `reqwest::Url::parse` reads: the
/// text of what comes of it depends on the URL's text alone. A user name is taken out, and the
/// at sign with it where no password follows; a URL without a host has neither.
#[verifier::external_body]
fn drop_user(url: &str) -> (r: Option<String>)
    ensures
        text::text_option(r) == without_user(url@),
        r matches Some(s) ==> is_anonymous(s@) || authority(s@)[0] == ':',
{
    let mut url = reqwest::Url::parse(url).ok()?;
    let _ = url.set_username("");
    Some(url.as_str().to_owned())
}

/// `reqwest::Url::set_password` with none on the URL that `reqwest::Url::parse` reads: the text
/// of what comes of it depends on the URL's text alone. A password is taken out, and the at
/// sign with it where there is no user name, as in a text that `drop_user` gave.
#[verifier::external_body]
fn drop_password(url: &str) -> (r: Option<String>)
    ensures
        text::text_option(r) == without_password(url@),
        r matches Some(s) ==> (had_user_dropped(url@) ==> is_anonymous(s@)),
{
    let mut url = reqwest::Url::parse(url).ok()?;
    let _ = url.set_password(None);
    Some(url.as_str().to_owned())
}

/// `reqwest::Url::set_query` with none on the URL that `reqwest::Url::parse` reads: the text of
/// what comes of it depends on the URL's text alone. There is no question mark before the
/// fragment then; a text that `drop_password` gave gets no user or password.
#[verifier::external_body]
fn drop_query(url: &str) -> (r: Option<String>)
    ensures
        text::text_option(r) == without_query(url@),
        r matches Some(s) ==> lacks_query(s@),
        r matches Some(s) ==> (had_password_dropped(url@) && is_anonymous(url@) ==> is_anonymous(
            s@,
        )),
{
    let mut url = reqwest::Url::parse(url).ok()?;
    url.set_query(None);
    Some(url.as_str().to_owned())
}

/// `reqwest::Url::set_fragment` with none on the URL that `reqwest::Url::parse` reads: the text
/// of what comes of it depends on the URL's text alone. There is no number sign then, nor a
/// question mark where there was no query; a text that `drop_query` gave gets no user or
/// password.
#[verifier::external_body]
fn drop_fragment(url: &str) -> (r: Option<String>)
    ensures
        text::text_option(r) == without_fragment(url@),
        r matches Some(s) ==> !s@.contains('#'),
        r matches Some(s) ==> (lacks_query(url@) ==> !s@.contains('?')),
        r matches Some(s) ==> (had_query_dropped(url@) && is_anonymous(url@) ==> is_anonymous(s@)),
{
    let mut url = reqwest::Url::parse(url).ok()?;
    url.set_fragment(None);
    Some(url.as_str().to_owned())
}

/// What is kept of a URL: no user, no password, no query and no fragment.
pub open spec fn public_part(url: Seq<char>) -> Option<Seq<char>> {
    match without_user(url) {
        None => None,
        Some(a) => match without_password(a) {
            None => None,
            Some(b) => match without_query(b) {
                None => None,
                Some(c) => without_fragment(c),
            },
        },
    }
}

/// Whether a URL can be kept: it names no user, holds no password, and has neither a query nor
/// a fragment.
pub open spec fn is_public(url: Seq<char>) -> bool {
    is_anonymous(url) && !url.contains('?') && !url.contains('#')
}

/// What is kept of a URL.
fn public_url(url: &str) -> (r: Option<String>)
    ensures
        text::text_option(r) == public_part(url@),
        r matches Some(s) ==> is_public(s@),
{
    let a = match drop_user(url) {
        Some(a) => a,
        None => return None,
    };
    let b = match drop_password(&a) {
        Some(b) => b,
        None => return None,
    };
    let c = match drop_query(&b) {
        Some(c) => c,
        None => return None,
    };
    drop_fragment(&c)
}

/// The path of a URL, as `reqwest::Url` writes it, if it is a URL.
pub uninterp spec fn path_part(url: Seq<char>) -> Option<Seq<char>>;

/// `reqwest::Url::path` of a URL: it depends on the text alone.
#[verifier::external_body]
fn url_path(url: &str) -> (r: Option<String>)
    ensures
        text::text_option(r) == path_part(url@),
{
    reqwest::Url::parse(url).ok().map(|url| url.path().to_owned())
}

/// Whether a header's name, in lower case, says that it carries credentials.
pub open spec fn is_secret(name: Seq<char>) -> bool {
    text::occurs(name, "authorization"@) || text::occurs(name, "cookie"@) || text::occurs(
        name,
        "token"@,
    ) || text::occurs(name, "api-key"@)
}

fn secret(name: &str) -> (r: bool)
    ensures
        r == is_secret(name@),
{
    contains_text(name, "authorization") || contains_text(name, "cookie") || contains_text(
        name,
        "token",
    ) || contains_text(name, "api-key")
}

pub open spec fn shortened(s: Seq<char>) -> Seq<char> {
    if s.len() > MAX_VALUE {
        s.take(MAX_VALUE as int)
    } else {
        s
    }
}

pub open spec fn header_tree(name: Seq<char>, value: Seq<char>) -> Tree {
    Tree::Object(
        Map::empty().insert("name"@, Tree::Text(name)).insert("value"@, Tree::Text(value)),
    )
}

fn header_json(name: String, value: String) -> (r: Json)
    ensures
        r@ == header_tree(name@, value@),
{
    let mut r = Json::object();
    r.set("name".to_owned(), Json::Text(name));
    r.set("value".to_owned(), Json::Text(value));
    r
}

/// A caller's header as it is kept.
pub open spec fn client_header(h: (Seq<char>, Seq<char>)) -> Tree {
    let name = text::lower(h.0);
    header_tree(
        name,
        if is_secret(name) {
            "[REDACTED]"@
        } else {
            shortened(h.1)
        },
    )
}

pub open spec fn first_headers<A>(list: Seq<A>) -> Seq<A> {
    if list.len() > MAX_HEADERS {
        list.take(MAX_HEADERS as int)
    } else {
        list
    }
}

/// A caller's headers as they are kept.
pub open spec fn client_trees(list: Seq<(Seq<char>, Seq<char>)>) -> Seq<Tree> {
    first_headers(list).map_values(|h: (Seq<char>, Seq<char>)| client_header(h))
}

/// A caller's headers as they are kept.
pub fn client_headers(headers: &Vec<Header>) -> (r: Vec<Json>)
    ensures
        json::trees_of(r@) == client_trees(header::header_views(headers@)),
{
    let ghost all = header::header_views(headers@);
    let ghost target = client_trees(all);
    let count: usize = if headers.len() > MAX_HEADERS {
        MAX_HEADERS
    } else {
        headers.len()
    };
    let mut out: Vec<Json> = Vec::new();
    let mut i: usize = 0;
    assert(json::trees_of(out@) =~= target.take(0));
    while i < count
        invariant
            i <= count <= headers@.len(),
            count == target.len(),
            all == header::header_views(headers@),
            target == client_trees(all),
            json::trees_of(out@) == target.take(i as int),
        decreases count - i,
    {
        assert(first_headers(all)[i as int] == headers@[i as int]@);
        let name = to_lower(&headers[i].field);
        let value = if secret(&name) {
            "[REDACTED]".to_owned()
        } else {
            first_chars(&headers[i].value, MAX_VALUE)
        };
        push_json(&mut out, header_json(name, value));
        assert(target.take(i + 1) =~= target.take(i as int).push(target[i as int]));
        i += 1;
    }
    assert(target.take(target.len() as int) =~= target);
    out
}

/// Whether a request's lifetime is measured.
pub open spec fn is_measured(url: Seq<char>) -> bool {
    (match text::cut(url, '?') {
        Some((path, _)) => path,
        None => url,
    }) == "/v1/responses"@
}

/// Whether a request's lifetime is measured.
pub fn measured(url: &str) -> (r: bool)
    ensures
        r == is_measured(url@),
{
    match text::cut_at(url, '?') {
        Some((path, _)) => same(&path, "/v1/responses"),
        None => same(url, "/v1/responses"),
    }
}

/// A header of a request that is about to be sent.
#[derive(Debug)]
pub struct SentHeader {
    /// In lower case.
    pub name: String,
    /// The value where it is text.
    pub value: Option<String>,
    /// Whether it was marked as sensitive.
    pub sensitive: bool,
    /// The length of the value, in bytes.
    pub length: usize,
}

/// The model of a `SentHeader`.
pub struct Sent {
    pub name: Seq<char>,
    pub value: Option<Seq<char>>,
    pub sensitive: bool,
    pub length: usize,
}

impl View for SentHeader {
    type V = Sent;

    open spec fn view(&self) -> Sent {
        Sent {
            name: self.name@,
            value: text::text_option(self.value),
            sensitive: self.sensitive,
            length: self.length,
        }
    }
}

pub open spec fn sent_views(list: Seq<SentHeader>) -> Seq<Sent> {
    list.map_values(|h: SentHeader| h@)
}

/// A header that is about to be sent, as it is kept.
pub open spec fn sent_header(h: Sent) -> Tree {
    header_tree(
        h.name,
        if h.sensitive || is_secret(h.name) {
            "[REDACTED]"@
        } else {
            match h.value {
                Some(s) => shortened(s),
                None => shortened("[binary]"@),
            }
        },
    )
}

pub open spec fn sent_trees(list: Seq<Sent>) -> Seq<Tree> {
    first_headers(list).map_values(|h: Sent| sent_header(h))
}

fn sent_headers(headers: &Vec<SentHeader>) -> (r: Vec<Json>)
    ensures
        json::trees_of(r@) == sent_trees(sent_views(headers@)),
{
    let ghost all = sent_views(headers@);
    let ghost target = sent_trees(all);
    let count: usize = if headers.len() > MAX_HEADERS {
        MAX_HEADERS
    } else {
        headers.len()
    };
    let mut out: Vec<Json> = Vec::new();
    let mut i: usize = 0;
    assert(json::trees_of(out@) =~= target.take(0));
    while i < count
        invariant
            i <= count <= headers@.len(),
            count == target.len(),
            all == sent_views(headers@),
            target == sent_trees(all),
            json::trees_of(out@) == target.take(i as int),
        decreases count - i,
    {
        assert(first_headers(all)[i as int] == headers@[i as int]@);
        let h = &headers[i];
        let value = if h.sensitive || secret(&h.name) {
            "[REDACTED]".to_owned()
        } else {
            match &h.value {
                Some(s) => first_chars(s, MAX_VALUE),
                None => first_chars("[binary]", MAX_VALUE),
            }
        };
        push_json(&mut out, header_json(h.name.clone(), value));
        assert(target.take(i + 1) =~= target.take(i as int).push(target[i as int]));
        i += 1;
    }
    assert(target.take(target.len() as int) =~= target);
    out
}

/// Whether a text can name a snapshot.
pub open spec fn is_snapshot_id(s: Seq<char>) -> bool {
    0 < s.len() <= MAX_ID && forall|i: int|
        0 <= i < s.len() ==> text::is_alphanumeric(#[trigger] s[i]) || s[i] == '-'
}

fn snapshot_id(s: &str) -> (r: bool)
    ensures
        r == is_snapshot_id(s@),
{
    let chars = chars_of(s);
    if chars.len() == 0 || chars.len() > MAX_ID {
        return false;
    }
    let mut i: usize = 0;
    while i < chars.len()
        invariant
            i <= chars@.len(),
            chars@ == s@,
            forall|k: int| 0 <= k < i ==> text::is_alphanumeric(#[trigger] s@[k]) || s@[k] == '-',
        decreases chars@.len() - i,
    {
        let c = chars[i];
        if !(alphanumeric(c) || c == '-') {
            assert(!(text::is_alphanumeric(s@[i as int]) || s@[i as int] == '-'));
            return false;
        }
        i += 1;
    }
    true
}

/// The first value of a header that is about to be sent.
pub open spec fn first_sent(list: Seq<Sent>, name: Seq<char>) -> Option<Sent>
    decreases list.len(),
{
    if list.len() == 0 {
        None
    } else {
        match first_sent(list.drop_last(), name) {
            Some(h) => Some(h),
            None => if list.last().name == name {
                Some(list.last())
            } else {
                None
            },
        }
    }
}

fn find_sent(headers: &Vec<SentHeader>, name: &str) -> (r: Option<usize>)
    ensures
        r is Some <==> first_sent(sent_views(headers@), name@) is Some,
        r matches Some(i) ==> i < headers@.len() && first_sent(sent_views(headers@), name@) == Some(
            headers@[i as int]@,
        ),
{
    let ghost all = sent_views(headers@);
    let mut found: Option<usize> = None;
    let mut i: usize = 0;
    assert(all.take(0) =~= Seq::empty());
    while i < headers.len()
        invariant
            i <= headers@.len(),
            all == sent_views(headers@),
            found is Some <==> first_sent(all.take(i as int), name@) is Some,
            found matches Some(k) ==> k < headers@.len() && first_sent(all.take(i as int), name@)
                == Some(headers@[k as int]@),
        decreases headers@.len() - i,
    {
        assert(all.take(i + 1).drop_last() == all.take(i as int));
        assert(all.take(i + 1).last() == headers@[i as int]@);
        if found.is_none() && same(&headers[i].name, name) {
            found = Some(i);
        }
        i += 1;
    }
    assert(all.take(all.len() as int) == all);
    found
}

/// The identifier under which a request is kept, if it is kept: only one that the raw adapter
/// sends and can be told again is.
pub open spec fn kept_as(path: Seq<char>, headers: Seq<Sent>, body: Option<Seq<u8>>) -> Option<
    Seq<char>,
> {
    if !ends_with(path, "/responses"@) || body is None {
        None
    } else {
        match first_sent(headers, "x-client-request-id"@) {
            Some(h) => match h.value {
                Some(id) => if is_snapshot_id(id) {
                    Some(id)
                } else {
                    None
                },
                None => None,
            },
            None => None,
        }
    }
}

pub open spec fn ends_with(s: Seq<char>, suffix: Seq<char>) -> bool {
    s.len() >= suffix.len() && s.skip(s.len() - suffix.len()) == suffix
}

fn has_suffix(s: &str, suffix: &str) -> (r: bool)
    ensures
        r == ends_with(s@, suffix@),
{
    let a = chars_of(s);
    let b = chars_of(suffix);
    if a.len() < b.len() {
        return false;
    }
    let from: usize = a.len() - b.len();
    let tail = text::text_of(&a, from, a.len());
    assert(tail@ =~= s@.skip(from as int));
    same(&tail, suffix)
}

/// Whether a header's value is too long to be kept whole.
pub open spec fn any_long(list: Seq<Sent>) -> bool {
    exists|i: int| 0 <= i < list.len() && (#[trigger] list[i]).length > MAX_VALUE
}

fn has_long(headers: &Vec<SentHeader>) -> (r: bool)
    ensures
        r == any_long(sent_views(headers@)),
{
    let ghost all = sent_views(headers@);
    let mut i: usize = 0;
    while i < headers.len()
        invariant
            i <= headers@.len(),
            all == sent_views(headers@),
            forall|k: int| 0 <= k < i ==> (#[trigger] all[k]).length <= MAX_VALUE,
        decreases headers@.len() - i,
    {
        assert(all[i as int] == headers@[i as int]@);
        if headers[i].length > MAX_VALUE {
            return true;
        }
        i += 1;
    }
    false
}

/// The snapshot of a request.
pub open spec fn snapshot_tree(
    method: Seq<char>,
    url: Seq<char>,
    headers: Seq<Sent>,
    body: Seq<u8>,
) -> Tree {
    Tree::Object(
        Map::empty().insert("method"@, Tree::Text(method)).insert("url"@, Tree::Text(url)).insert(
            "headers"@,
            Tree::Array(sent_trees(headers)),
        ).insert("body"@, Tree::Text(metrics::lossy_text(metrics::cut_body(body)))).insert(
            "body_truncated"@,
            Tree::Bool(body.len() > metrics::BODY_LIMIT),
        ).insert(
            "headers_truncated"@,
            Tree::Bool(headers.len() > MAX_HEADERS || any_long(headers)),
        ).insert("boundary"@, Tree::Text("application_http_send"@)),
    )
}

/// The snapshot of a request whose URL has this path and this public part.
pub fn snapshot(
    method: &str,
    path: &str,
    public: &str,
    headers: &Vec<SentHeader>,
    body: Option<&[u8]>,
) -> (r: Option<(String, Json)>)
    ensures
        match kept_as(
            path@,
            sent_views(headers@),
            match body {
                Some(b) => Some(b@),
                None => None,
            },
        ) {
            Some(id) => r matches Some((name, j)) && name@ == id && j@ == snapshot_tree(
                method@,
                public@,
                sent_views(headers@),
                body->0@,
            ),
            None => r is None,
        },
{
    if !has_suffix(path, "/responses") {
        return None;
    }
    let body = match body {
        Some(body) => body,
        None => return None,
    };
    let id = match find_sent(headers, "x-client-request-id") {
        Some(i) => match &headers[i].value {
            Some(id) => id.clone(),
            None => return None,
        },
        None => return None,
    };
    if !snapshot_id(&id) {
        return None;
    }
    let kept: &[u8] = if body.len() > metrics::BODY_LIMIT {
        vstd::slice::slice_subrange(body, 0, metrics::BODY_LIMIT)
    } else {
        body
    };
    assert(kept@ =~= metrics::cut_body(body@));
    let mut r = Json::object();
    r.set("method".to_owned(), Json::Text(method.to_owned()));
    r.set("url".to_owned(), Json::Text(public.to_owned()));
    r.set("headers".to_owned(), Json::Array(sent_headers(headers)));
    r.set("body".to_owned(), Json::Text(lossy(kept)));
    r.set("body_truncated".to_owned(), Json::Bool(body.len() > metrics::BODY_LIMIT));
    r.set(
        "headers_truncated".to_owned(),
        Json::Bool(headers.len() > MAX_HEADERS || has_long(headers)),
    );
    r.set("boundary".to_owned(), Json::Text("application_http_send".to_owned()));
    Some((id, r))
}

/// The snapshot of a request that is about to be sent, and the identifier under which it is
/// kept; nothing where it is not kept.
pub fn capture(method: &str, url: &str, headers: &Vec<SentHeader>, body: Option<&[u8]>) -> (r:
    Option<(String, Json)>)
    ensures
        match (path_part(url@), public_part(url@)) {
            (Some(path), Some(public)) => match kept_as(
                path,
                sent_views(headers@),
                match body {
                    Some(b) => Some(b@),
                    None => None,
                },
            ) {
                Some(id) => r matches Some((name, j)) && name@ == id && j@ == snapshot_tree(
                    method@,
                    public,
                    sent_views(headers@),
                    body->0@,
                ),
                None => r is None,
            },
            _ => r is None,
        },
        r matches Some((name, j)) ==> (j@.text_at("url"@) matches Some(kept) && is_public(kept)),
{
    let path = match url_path(url) {
        Some(path) => path,
        None => return None,
    };
    let public = match public_url(url) {
        Some(public) => public,
        None => return None,
    };
    proof {
        lemma_snapshot_url();
    }
    snapshot(method, &path, &public, headers, body)
}

proof fn lemma_snapshot_url()
    ensures
        forall|method: Seq<char>, url: Seq<char>, headers: Seq<Sent>, body: Seq<u8>|
            (#[trigger] snapshot_tree(method, url, headers, body)).text_at("url"@) == Some(url),
{
    reveal_strlit("url");
    reveal_strlit("headers");
    reveal_strlit("body");
    reveal_strlit("body_truncated");
    reveal_strlit("headers_truncated");
    reveal_strlit("boundary");
    assert("url"@.len() == 3 && "headers"@.len() == 7 && "body"@.len() == 4);
    assert("body_truncated"@.len() == 14 && "headers_truncated"@.len() == 17);
    assert("boundary"@.len() == 8);
}

/// Whether one time is no later than another; an unknown one is earliest.
pub open spec fn no_later(a: Option<u128>, b: Option<u128>) -> bool {
    match (a, b) {
        (None, _) => true,
        (Some(_), None) => false,
        (Some(x), Some(y)) => x <= y,
    }
}

fn is_no_later(a: Option<u128>, b: Option<u128>) -> (r: bool)
    ensures
        r == no_later(a, b),
{
    match (a, b) {
        (None, _) => true,
        (Some(_), None) => false,
        (Some(x), Some(y)) => x <= y,
    }
}

/// How many of some files are too many.
pub open spec fn surplus(files: nat) -> nat {
    if files > MAX_FILES {
        (files - MAX_FILES) as nat
    } else {
        0
    }
}

/// The files to be removed, by the times at which they were written, so that few enough are
/// left: none that is kept is older than one that is removed.
pub fn prune(times: &Vec<Option<u128>>) -> (r: Vec<usize>)
    ensures
        r@.len() == surplus(times@.len()),
        r@.no_duplicates(),
        forall|i: int| 0 <= i < r@.len() ==> (#[trigger] r@[i]) < times@.len(),
        forall|i: int, k: int|
            0 <= i < r@.len() && 0 <= k < times@.len() && !r@.contains(k as usize) ==> no_later(
                times@[(#[trigger] r@[i]) as int],
                #[trigger] times@[k],
            ),
{
    let mut out: Vec<usize> = Vec::new();
    let count: usize = if times.len() > MAX_FILES {
        times.len() - MAX_FILES
    } else {
        0
    };
    while out.len() < count
        invariant
            out@.len() <= count <= times@.len(),
            count <= times@.len(),
            out@.no_duplicates(),
            forall|i: int| 0 <= i < out@.len() ==> (#[trigger] out@[i]) < times@.len(),
            forall|i: int, k: int|
                0 <= i < out@.len() && 0 <= k < times@.len() && !out@.contains(k as usize)
                    ==> no_later(times@[(#[trigger] out@[i]) as int], #[trigger] times@[k]),
        decreases count - out@.len(),
    {
        let mut best: Option<usize> = None;
        let mut j: usize = 0;
        while j < times.len()
            invariant
                j <= times@.len(),
                best matches Some(b) ==> b < j && !out@.contains(b) && forall|k: int|
                    0 <= k < j && !out@.contains(k as usize) ==> no_later(
                        times@[b as int],
                        #[trigger] times@[k],
                    ),
                best is None ==> forall|k: int|
                    0 <= k < j ==> out@.contains(#[trigger] (k as usize)),
            decreases times@.len() - j,
        {
            if !list_has(&out, j) {
                let better = match best {
                    Some(b) => !is_no_later(times[b], times[j]),
                    None => true,
                };
                if better {
                    best = Some(j);
                }
            }
            j += 1;
        }
        match best {
            Some(b) => {
                let ghost before = out@;
                out.push(b);
                proof {
                    assert forall|i: int, k: int|
                        0 <= i < out@.len() && 0 <= k < times@.len() && !out@.contains(
                            k as usize,
                        ) implies no_later(
                        times@[(#[trigger] out@[i]) as int],
                        #[trigger] times@[k],
                    ) by {
                        if before.contains(k as usize) {
                            let n = choose|n: int| 0 <= n < before.len() && before[n] == k as usize;
                            assert(out@[n] == k as usize);
                        }
                        if i < before.len() {
                            assert(before[i] == out@[i]);
                        }
                    }
                }
            },
            None => {
                proof {
                    lemma_all_listed(out@, times@.len());
                }
                return out;
            },
        }
    }
    out
}

fn list_has(list: &Vec<usize>, n: usize) -> (r: bool)
    ensures
        r == list@.contains(n),
{
    let mut i: usize = 0;
    while i < list.len()
        invariant
            i <= list@.len(),
            forall|k: int| 0 <= k < i ==> #[trigger] list@[k] != n,
        decreases list@.len() - i,
    {
        if list[i] == n {
            return true;
        }
        i += 1;
    }
    false
}

/// A list of positions that holds every one is not shorter than there are positions.
proof fn lemma_all_listed(list: Seq<usize>, n: nat)
    requires
        n <= usize::MAX,
        forall|k: int| 0 <= k < n ==> list.contains(#[trigger] (k as usize)),
    ensures
        list.len() >= n,
{
    let all = Set::new(|k: usize| k < n);
    lemma_below(n);
    assert forall|k: usize| all.contains(k) implies list.to_set().contains(k) by {
        let i = k as int;
        assert(list.contains(i as usize));
    }
    list.lemma_cardinality_of_set();
    vstd::set_lib::lemma_len_subset(all, list.to_set());
}

proof fn lemma_below(n: nat)
    requires
        n <= usize::MAX,
    ensures
        Set::new(|k: usize| k < n).finite(),
        Set::new(|k: usize| k < n).len() == n,
    decreases n,
{
    let all = Set::new(|k: usize| k < n);
    if n == 0 {
        assert(all =~= Set::empty());
    } else {
        lemma_below((n - 1) as nat);
        let rest = Set::new(|k: usize| k < (n - 1) as nat);
        assert(all =~= rest.insert((n - 1) as usize));
    }
}

/// No value of a header that carries credentials is kept, whatever else is in the request.
pub proof fn law_credentials_are_blotted_out(h: Sent)
    requires
        h.sensitive || is_secret(h.name),
    ensures
        sent_header(h) == header_tree(h.name, "[REDACTED]"@),
{
}

proof fn lemma_header_parts()
    ensures
        "name"@.len() == 4,
        "value"@.len() == 5,
{
    reveal_strlit("name");
    reveal_strlit("value");
}

/// A caller's header is kept under its name in lower case. Where that holds `authorization`,
/// `cookie`, `token` or `api-key` its value is blotted out; the value of any other is kept up to
/// its 2048th character.
pub proof fn law_how_a_callers_header_is_kept(name: Seq<char>, value: Seq<char>)
    ensures
        ({
            let t = client_header((name, value));
            let low = text::lower(name);
            let secret = text::occurs(low, "authorization"@) || text::occurs(low, "cookie"@)
                || text::occurs(low, "token"@) || text::occurs(low, "api-key"@);
            let shown = t.at("value"@)->Text_0;
            &&& t.at("name"@) == Tree::Text(low)
            &&& t.at("value"@) is Text
            &&& secret ==> shown == "[REDACTED]"@
            &&& !secret && value.len() <= 2048 ==> shown == value
            &&& !secret && value.len() > 2048 ==> shown.len() == 2048 && shown.is_prefix_of(value)
        }),
{
    lemma_header_parts();
}

/// A header that is sent is kept under its name. Where that holds `authorization`, `cookie`,
/// `token` or `api-key`, or it is marked as sensitive, its value is blotted out; any other is kept
/// up to its 2048th character, and one that is no text is only told to be none.
pub proof fn law_how_a_sent_header_is_kept(h: Sent)
    ensures
        ({
            let t = sent_header(h);
            let secret = h.sensitive || text::occurs(h.name, "authorization"@) || text::occurs(
                h.name,
                "cookie"@,
            ) || text::occurs(h.name, "token"@) || text::occurs(h.name, "api-key"@);
            let shown = t.at("value"@)->Text_0;
            &&& t.at("name"@) == Tree::Text(h.name)
            &&& t.at("value"@) is Text
            &&& secret ==> shown == "[REDACTED]"@
            &&& !secret && h.value is None ==> shown == "[binary]"@
            &&& !secret && h.value is Some && h.value->0.len() <= 2048 ==> shown == h.value->0
            &&& !secret && h.value is Some && h.value->0.len() > 2048 ==> shown.len() == 2048
                && shown.is_prefix_of(h.value->0)
        }),
{
    lemma_header_parts();
    reveal_strlit("[binary]");
    assert("[binary]"@.len() == 8);
}

/// The first 128 headers are kept, each in its place.
pub proof fn law_how_many_headers_are_kept(
    list: Seq<(Seq<char>, Seq<char>)>,
    sent: Seq<Sent>,
    i: int,
)
    ensures
        client_trees(list).len() == (if list.len() < 128 {
            list.len()
        } else {
            128
        }),
        sent_trees(sent).len() == (if sent.len() < 128 {
            sent.len()
        } else {
            128
        }),
        0 <= i < client_trees(list).len() ==> client_trees(list)[i] == client_header(list[i]),
        0 <= i < sent_trees(sent).len() ==> sent_trees(sent)[i] == sent_header(sent[i]),
{
}

/// A request is measured where its path, up to the first question mark, is `/v1/responses`.
pub proof fn law_which_requests_are_measured(path: Seq<char>, query: Seq<char>)
    requires
        !path.contains('?'),
    ensures
        is_measured(path) <==> path == "/v1/responses"@,
        is_measured(path + seq!['?'] + query) <==> path == "/v1/responses"@,
{
    text::lemma_no_cut(path, '?');
    text::lemma_cut(path + seq!['?'] + query, '?', path, query);
}

/// A header that is looked for is the first of its name.
pub proof fn law_first_header_counts(list: Seq<Sent>, name: Seq<char>, i: int)
    ensures
        (forall|k: int| 0 <= k < list.len() ==> (#[trigger] list[k]).name != name) <==> first_sent(
            list,
            name,
        ) is None,
        0 <= i < list.len() && list[i].name == name && (forall|k: int|
            0 <= k < i ==> (#[trigger] list[k]).name != name) ==> first_sent(list, name) == Some(
            list[i],
        ),
    decreases list.len(),
{
    if list.len() > 0 {
        let front = list.drop_last();
        let end = list.len() - 1;
        law_first_header_counts(front, name, i);
        assert(list[end] == list.last());
        assert(forall|k: int| 0 <= k < end ==> #[trigger] list[k] == front[k]);
        if first_sent(list, name) is None {
            assert forall|k: int| 0 <= k < list.len() implies (#[trigger] list[k]).name != name by {
                if k < end {
                    assert(front[k].name != name);
                }
            }
        }
        if forall|k: int| 0 <= k < list.len() ==> (#[trigger] list[k]).name != name {
            assert forall|k: int| 0 <= k < front.len() implies (#[trigger] front[k]).name != name by {
                assert(list[k].name != name);
            }
            assert(list[end].name != name);
        }
        if 0 <= i < list.len() && list[i].name == name && (forall|k: int|
            0 <= k < i ==> (#[trigger] list[k]).name != name) {
            if i < end {
                assert(front[i] == list[i]);
                assert forall|k: int| 0 <= k < i implies (#[trigger] front[k]).name != name by {
                    assert(list[k].name != name);
                }
            } else {
                assert forall|k: int| 0 <= k < front.len() implies (#[trigger] front[k]).name
                    != name by {
                    assert(list[k].name != name);
                }
            }
        }
    }
}

/// A request is kept where its path ends in `/responses`, it has a body, and the first
/// `x-client-request-id` it has is made of 1 to 64 letters, digits and hyphens; it is kept under
/// that.
pub proof fn law_which_requests_are_kept(
    path: Seq<char>,
    headers: Seq<Sent>,
    body: Option<Seq<u8>>,
)
    ensures
        ({
            let h = first_sent(headers, "x-client-request-id"@);
            let suffix = "/responses"@;
            let ends = path.len() >= suffix.len() && path.subrange(
                path.len() - suffix.len(),
                path.len() as int,
            ) == suffix;
            let id = h->0.value->0;
            let good = h is Some && h->0.value is Some && 1 <= id.len() <= 64 && forall|i: int|
                0 <= i < id.len() ==> ('a' <= #[trigger] id[i] <= 'z' || 'A' <= id[i] <= 'Z' || '0'
                    <= id[i] <= '9' || id[i] == '-');
            &&& kept_as(path, headers, body) is Some <==> ends && body is Some && good
            &&& kept_as(path, headers, body) matches Some(name) ==> name == id
        }),
{
    let suffix = "/responses"@;
    if path.len() >= suffix.len() {
        assert(path.skip(path.len() - suffix.len()) =~= path.subrange(
            path.len() - suffix.len(),
            path.len() as int,
        ));
    }
    let h = first_sent(headers, "x-client-request-id"@);
    if h is Some && h->0.value is Some {
        let id = h->0.value->0;
        assert(forall|i: int|
            0 <= i < id.len() ==> (text::is_alphanumeric(#[trigger] id[i]) <==> 'a' <= id[i] <= 'z'
                || 'A' <= id[i] <= 'Z' || '0' <= id[i] <= '9'));
    }
}

/// A snapshot tells the method, the URL, the headers that are kept, the text of the body's first
/// 64 kibibytes, and whether anything was left out: of the body, or headers beyond the 128th or
/// longer than 2048 bytes.
pub proof fn law_what_a_snapshot_tells(
    method: Seq<char>,
    url: Seq<char>,
    headers: Seq<Sent>,
    body: Seq<u8>,
)
    ensures
        ({
            let t = snapshot_tree(method, url, headers, body);
            &&& t.at("method"@) == Tree::Text(method)
            &&& t.at("url"@) == Tree::Text(url)
            &&& t.at("headers"@) == Tree::Array(sent_trees(headers))
            &&& t.at("body"@) == Tree::Text(metrics::lossy_text(metrics::cut_body(body)))
            &&& t.at("body_truncated"@) == Tree::Bool(body.len() > 65_536)
            &&& t.at("headers_truncated"@) == Tree::Bool(
                headers.len() > 128 || exists|i: int|
                    0 <= i < headers.len() && (#[trigger] headers[i]).length > 2048,
            )
            &&& t.at("boundary"@) == Tree::Text("application_http_send"@)
        }),
{
    reveal_strlit("method");
    reveal_strlit("url");
    reveal_strlit("headers");
    reveal_strlit("body");
    reveal_strlit("body_truncated");
    reveal_strlit("headers_truncated");
    reveal_strlit("boundary");
    assert("method"@.len() == 6 && "url"@.len() == 3 && "headers"@.len() == 7 && "body"@.len() == 4);
    assert("body_truncated"@.len() == 14 && "headers_truncated"@.len() == 17);
    assert("boundary"@.len() == 8);
}

/// Times are ordered as they are, and one that is not known comes before all others.
pub proof fn law_order_of_times(a: Option<u128>, b: Option<u128>)
    ensures
        a is None ==> no_later(a, b),
        a is Some && b is None ==> !no_later(a, b),
        a is Some && b is Some ==> (no_later(a, b) <==> a->0 <= b->0),
{
}

/// The part of a URL that names a host, and perhaps a user, stands between the two slashes after
/// the scheme and the next slash, question mark or number sign.
pub proof fn law_where_a_host_is_named(scheme: Seq<char>, host: Seq<char>, rest: Seq<char>)
    requires
        !scheme.contains(':'),
        !host.contains('/'),
        !host.contains('?'),
        !host.contains('#'),
        rest.len() > 0 ==> rest[0] == '/' || rest[0] == '?' || rest[0] == '#',
    ensures
        authority(scheme + "://"@ + host + rest) == host,
        is_anonymous(scheme + "://"@ + host + rest) <==> !host.contains('@'),
{
    reveal_strlit("://");
    let mark = "://"@;
    assert(mark.len() == 3 && mark[0] == ':' && mark[1] == '/' && mark[2] == '/');
    let url = scheme + mark + host + rest;
    let tail = mark + host + rest;
    assert(url =~= scheme + tail);
    lemma_after_scheme(scheme, tail);
    assert(mark.is_prefix_of(tail)) by {
        assert(mark =~= tail.subrange(0, 3));
    }
    assert(tail.skip(3) =~= host + rest);
    lemma_up_to_path(host, rest);
}

proof fn lemma_after_scheme(scheme: Seq<char>, tail: Seq<char>)
    requires
        !scheme.contains(':'),
        tail.len() > 0,
        tail[0] == ':',
    ensures
        after_scheme(scheme + tail) == tail,
    decreases scheme.len(),
{
    let all = scheme + tail;
    if scheme.len() > 0 {
        assert(scheme.contains(scheme[0]));
        assert(all[0] == scheme[0]);
        let less = scheme.skip(1);
        assert(all.skip(1) =~= less + tail);
        assert(!less.contains(':')) by {
            if less.contains(':') {
                let i = choose|i: int| 0 <= i < less.len() && less[i] == ':';
                assert(scheme[i + 1] == ':');
            }
        }
        lemma_after_scheme(less, tail);
    } else {
        assert(all =~= tail);
    }
}

proof fn lemma_up_to_path(host: Seq<char>, rest: Seq<char>)
    requires
        !host.contains('/'),
        !host.contains('?'),
        !host.contains('#'),
        rest.len() > 0 ==> rest[0] == '/' || rest[0] == '?' || rest[0] == '#',
    ensures
        up_to_path(host + rest) == host,
    decreases host.len(),
{
    let all = host + rest;
    if host.len() > 0 {
        assert(host.contains(host[0]));
        assert(all[0] == host[0]);
        let less = host.skip(1);
        assert(all.skip(1) =~= less + rest);
        assert forall|c: char| #[trigger] less.contains(c) implies host.contains(c) by {
            let i = choose|i: int| 0 <= i < less.len() && less[i] == c;
            assert(host[i + 1] == c);
        }
        lemma_up_to_path(less, rest);
        assert(seq![host[0]] + less =~= host);
    } else {
        assert(all =~= rest);
        assert(up_to_path(all) =~= host);
    }
}

/// What is kept of a URL is what is left when its user, its password, its query and its fragment
/// are taken out one after the other; what is no URL leaves nothing.
pub proof fn law_what_is_kept_of_a_url(
    url: Seq<char>,
    a: Seq<char>,
    b: Seq<char>,
    c: Seq<char>,
)
    ensures
        without_user(url) == Some(a) && without_password(a) == Some(b) && without_query(b) == Some(c)
            ==> public_part(url) == without_fragment(c),
        without_user(url) is None ==> public_part(url) is None,
        is_public(url) ==> !authority(url).contains('@') && !url.contains('?') && !url.contains(
            '#',
        ),
{
}

/// Of the snapshots that are there 99 are left, so that with the one that is written there are a
/// hundred at most.
pub proof fn law_how_many_snapshots_are_left(files: nat)
    ensures
        files <= 99 ==> surplus(files) == 0,
        files > 99 ==> files - surplus(files) == 99,
{
}

} // verus!
