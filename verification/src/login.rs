//! Browser login for hosts without a port that a browser can call back: the operator opens the
//! authorize URL anywhere and pastes back the URL that the browser was sent to.
use crate::accounts;
use crate::accounts::valid_name;
use crate::digest;
use crate::digest::sha256;
use crate::json::Json;
use crate::json::Tree;
use crate::text;
use crate::text::begins_with;
use crate::text::byte_len;
use crate::text::cut_at;
use crate::text::join2;
use crate::text::join3;
use crate::text::number_text;
use crate::text::same;
use crate::text::split;
use vstd::prelude::*;
use vstd::utf8::*;

verus! {

broadcast use {vstd::seq_lib::group_seq_properties, vstd::map::group_map_axioms};

/// The longest URL that can be pasted back, in bytes.
pub const MAX_CALLBACK: usize = 2048;

/// The bytes that stand for themselves in an encoded value.
pub open spec fn is_unreserved(b: u8) -> bool {
    ||| 48 <= b <= 57
    ||| 65 <= b <= 90
    ||| 97 <= b <= 122
    ||| b == 45 || b == 46 || b == 95 || b == 126
}

/// A hexadecimal digit in upper case.
pub open spec fn hex_digit(n: u8) -> char {
    if n < 10 {
        (48 + n) as u8 as char
    } else {
        (55 + n) as u8 as char
    }
}

/// Bytes with every one that does not stand for itself as a percent sign and two digits.
pub open spec fn percent_encoded(bytes: Seq<u8>) -> Seq<char>
    decreases bytes.len(),
{
    if bytes.len() == 0 {
        Seq::empty()
    } else {
        let b = bytes.last();
        percent_encoded(bytes.drop_last()) + escaped(b)
    }
}

/// The value of a hexadecimal digit in either case.
pub open spec fn digit_value(b: u8) -> Option<u8> {
    if 48 <= b <= 57 {
        Some((b - 48) as u8)
    } else if 65 <= b <= 70 {
        Some((b - 55) as u8)
    } else if 97 <= b <= 102 {
        Some((b - 87) as u8)
    } else {
        None
    }
}

/// Bytes with every percent sign that two digits follow, and these, as the byte that they stand
/// for; any other percent sign stands for itself.
pub open spec fn unescaped(bytes: Seq<u8>) -> Seq<u8>
    decreases bytes.len(),
{
    if bytes.len() == 0 {
        Seq::empty()
    } else if bytes.len() >= 3 && bytes[0] == 37 && digit_value(bytes[1]) is Some && digit_value(
        bytes[2],
    ) is Some {
        seq![(digit_value(bytes[1])->0 * 16 + digit_value(bytes[2])->0) as u8] + unescaped(
            bytes.skip(3),
        )
    } else {
        seq![bytes[0]] + unescaped(bytes.skip(1))
    }
}

/// The text that an encoded value stands for, if it stands for a text.
pub open spec fn percent_decoded(s: Seq<char>) -> Option<Seq<char>> {
    text::utf8_of(unescaped(encode_utf8(s)))
}

/// `urlencoding::encode`: every byte but letters, digits and `-`, `_`, `.`, `~` as a percent
/// sign and two digits in upper case.
#[verifier::external_body]
fn encode(s: &str) -> (r: String)
    ensures
        r@ == percent_encoded(encode_utf8(s@)),
{
    urlencoding::encode(s).into_owned()
}

/// `urlencoding::decode`: every percent sign that two digits in either case follow, and these, as
/// the byte that they stand for, and all else as it is; nothing where the bytes are no text
/// then.
#[verifier::external_body]
fn decode(s: &str) -> (r: Option<String>)
    ensures
        text::text_option(r) == percent_decoded(s@),
{
    urlencoding::decode(s).ok().map(std::borrow::Cow::into_owned)
}

/// One byte of an encoded value.
pub open spec fn escaped(b: u8) -> Seq<char> {
    if is_unreserved(b) {
        seq![b as char]
    } else {
        seq!['%', hex_digit(b / 16), hex_digit(b % 16)]
    }
}

proof fn lemma_encoded_from_front(b: u8, rest: Seq<u8>)
    ensures
        percent_encoded(seq![b] + rest) == escaped(b) + percent_encoded(rest),
    decreases rest.len(),
{
    let all = seq![b] + rest;
    if rest.len() == 0 {
        assert(all.drop_last() =~= Seq::empty());
        assert(percent_encoded(all.drop_last()) =~= Seq::empty());
        assert(percent_encoded(all) =~= escaped(b) + percent_encoded(rest));
    } else {
        lemma_encoded_from_front(b, rest.drop_last());
        assert(all.drop_last() =~= seq![b] + rest.drop_last());
        assert(all.last() == rest.last());
        assert(percent_encoded(all) =~= escaped(b) + percent_encoded(rest));
    }
}

/// The bytes of a text of ASCII characters.
pub open spec fn ascii_bytes(s: Seq<char>) -> Seq<u8> {
    s.map_values(|c: char| c as u8)
}

proof fn lemma_escaped(b: u8)
    ensures
        is_ascii_chars(escaped(b)),
        is_unreserved(b) ==> ascii_bytes(escaped(b)) == seq![b] && b != 37,
        !is_unreserved(b) ==> ({
            let e = ascii_bytes(escaped(b));
            &&& e.len() == 3 && e[0] == 37
            &&& digit_value(e[1]) == Some((b / 16) as u8)
            &&& digit_value(e[2]) == Some((b % 16) as u8)
        }),
{
    if is_unreserved(b) {
        assert(ascii_bytes(escaped(b)) =~= seq![b]);
    } else {
        let e = ascii_bytes(escaped(b));
        assert(e[0] == 37u8);
        assert(e[1] == hex_digit(b / 16) as u8);
        assert(e[2] == hex_digit(b % 16) as u8);
    }
}

proof fn lemma_unescaped(bytes: Seq<u8>)
    ensures
        is_ascii_chars(percent_encoded(bytes)),
        unescaped(ascii_bytes(percent_encoded(bytes))) == bytes,
    decreases bytes.len(),
{
    if bytes.len() == 0 {
        assert(ascii_bytes(percent_encoded(bytes)) =~= Seq::empty());
        assert(bytes =~= Seq::empty());
    } else {
        let b = bytes[0];
        let rest = bytes.skip(1);
        lemma_unescaped(rest);
        lemma_encoded_from_front(b, rest);
        lemma_escaped(b);
        assert(seq![b] + rest =~= bytes);
        let e = ascii_bytes(escaped(b));
        let tail = ascii_bytes(percent_encoded(rest));
        let whole = ascii_bytes(percent_encoded(bytes));
        assert(whole =~= e + tail);
        assert(is_ascii_chars(percent_encoded(bytes)));
        if is_unreserved(b) {
            assert(whole.skip(1) =~= tail);
            assert(whole[0] == b);
        } else {
            assert(whole.skip(3) =~= tail);
            assert(whole[0] == e[0] && whole[1] == e[1] && whole[2] == e[2]);
        }
    }
}

/// Whatever is encoded reads back as it was.
pub proof fn law_encoded_values_read_back(s: Seq<char>)
    ensures
        percent_decoded(percent_encoded(encode_utf8(s))) == Some(s),
{
    let e = percent_encoded(encode_utf8(s));
    lemma_unescaped(encode_utf8(s));
    is_ascii_chars_encode_utf8(e);
    assert(encode_utf8(e) =~= ascii_bytes(e));
    encode_utf8_valid_utf8(s);
    encode_utf8_decode_utf8(s);
}

/// The text that `URL_SAFE_NO_PAD` of the `base64` crate encodes bytes as.
pub uninterp spec fn base64url_text(bytes: Seq<u8>) -> Seq<char>;

/// `base64::engine::general_purpose::URL_SAFE_NO_PAD.encode`: the text depends on the bytes
/// alone. Three bytes make four characters; two that are left make three, and one makes two. It
/// panics only on far more bytes than are allowed here.
#[verifier::external_body]
fn encode_base64url(bytes: &[u8]) -> (r: String)
    requires
        bytes@.len() <= MAX_CALLBACK,
    ensures
        r@ == base64url_text(bytes@),
        r@.len() == (4 * bytes@.len() + 2) / 3,
{
    base64::Engine::encode(&base64::engine::general_purpose::URL_SAFE_NO_PAD, bytes)
}

/// The challenge of a verifier: the unpadded URL-safe base64 text of its SHA-256 digest.
pub open spec fn pkce_challenge(verifier: Seq<char>) -> Seq<char> {
    base64url_text(digest::sha256_of(encode_utf8(verifier)))
}

/// The codes that tie an authorization to the one who asked for it.
#[derive(Debug)]
pub struct PkceCodes {
    pub code_verifier: String,
    pub code_challenge: String,
}

impl PkceCodes {
    /// The codes of a random verifier.
    pub fn new(code_verifier: String) -> (r: PkceCodes)
        ensures
            r.code_verifier@ == code_verifier@,
            r.code_challenge@ == pkce_challenge(code_verifier@),
            r.code_challenge@.len() == 43,
    {
        let hash = sha256(code_verifier.as_str().as_bytes());
        let code_challenge = encode_base64url(&hash);
        PkceCodes { code_verifier, code_challenge }
    }
}

/// Where and for whom a login is asked for.
#[derive(Debug)]
pub struct ServerOptions {
    pub issuer: String,
    pub client_id: String,
    pub originator: String,
    pub forced_chatgpt_workspace_id: Option<String>,
}

/// A login that waits for the URL to be pasted back.
#[derive(Debug)]
pub struct CallbackLogin {
    pub authorize_url: String,
    pub redirect_uri: String,
    pub state: String,
    pub pkce: PkceCodes,
}

/// What is handed to the issuer in exchange for tokens.
#[derive(Debug)]
pub struct Exchange {
    pub code: String,
    pub redirect_uri: String,
    pub code_verifier: String,
}

/// Why a URL that was pasted back is refused.
#[derive(Clone, Copy, Debug, PartialEq, Eq, Structural)]
pub enum CallbackError {
    NoQuery,
    NoCode,
    NoState,
    StateMismatch,
}

impl CallbackError {
    pub open spec fn words(self) -> Seq<char> {
        match self {
            CallbackError::NoQuery => "回调链接中没有查询参数"@,
            CallbackError::NoCode => "回调链接中没有授权码"@,
            CallbackError::NoState => "回调链接中没有 state"@,
            CallbackError::StateMismatch => "回调链接的 state 校验失败，请重新发起登录"@,
        }
    }

    pub fn message(self) -> (r: &'static str)
        ensures
            r@ == self.words(),
    {
        match self {
            CallbackError::NoQuery => "回调链接中没有查询参数",
            CallbackError::NoCode => "回调链接中没有授权码",
            CallbackError::NoState => "回调链接中没有 state",
            CallbackError::StateMismatch => "回调链接的 state 校验失败，请重新发起登录",
        }
    }
}

/// The URL that the browser is sent to.
pub open spec fn redirect() -> Seq<char> {
    "http://localhost:1455/auth/callback"@
}

/// A parameter of a query.
pub open spec fn pair(name: Seq<char>, value: Seq<char>) -> Seq<char> {
    name + "="@ + percent_encoded(encode_utf8(value))
}

/// The parameters of the authorize URL.
pub open spec fn authorize_pairs(
    client_id: Seq<char>,
    challenge: Seq<char>,
    state: Seq<char>,
    originator: Seq<char>,
    workspace: Option<Seq<char>>,
) -> Seq<Seq<char>> {
    let pairs = seq![
        pair("response_type"@, "code"@),
        pair("client_id"@, client_id),
        pair("redirect_uri"@, redirect()),
        pair("scope"@, "openid profile email offline_access"@),
        pair("code_challenge"@, challenge),
        pair("code_challenge_method"@, "S256"@),
        pair("id_token_add_organizations"@, "true"@),
        pair("codex_cli_simplified_flow"@, "true"@),
        pair("state"@, state),
        pair("originator"@, originator),
    ];
    match workspace {
        Some(w) => pairs.push(pair("allowed_workspace_id"@, w)),
        None => pairs,
    }
}

/// Parameters with a separator between them.
pub open spec fn joined(pairs: Seq<Seq<char>>) -> Seq<char>
    decreases pairs.len(),
{
    if pairs.len() == 0 {
        Seq::empty()
    } else if pairs.len() == 1 {
        pairs[0]
    } else {
        joined(pairs.drop_last()) + "&"@ + pairs.last()
    }
}

/// The value of one parameter, if it is the one asked for and can be decoded.
pub open spec fn value_of(pair: Seq<char>, key: Seq<char>) -> Option<Seq<char>> {
    match text::cut(pair, '=') {
        Some((name, value)) => if name == key {
            percent_decoded(value)
        } else {
            None
        },
        None => None,
    }
}

/// The first value of a parameter.
pub open spec fn first_value(pairs: Seq<Seq<char>>, key: Seq<char>) -> Option<Seq<char>>
    decreases pairs.len(),
{
    if pairs.len() == 0 {
        None
    } else {
        match first_value(pairs.drop_last(), key) {
            Some(value) => Some(value),
            None => value_of(pairs.last(), key),
        }
    }
}

/// The value of a parameter of a query.
pub open spec fn param_of(query: Seq<char>, key: Seq<char>) -> Option<Seq<char>> {
    first_value(text::pieces(query, '&'), key)
}

/// The value of a parameter of a query.
pub fn query_param(query: &str, key: &str) -> (r: Option<String>)
    ensures
        text::text_option(r) == param_of(query@, key@),
{
    let pairs = split(query, '&');
    let ghost all = text::texts(pairs@);
    let mut found: Option<String> = None;
    let mut i: usize = 0;
    assert(all.take(0) =~= Seq::empty());
    while i < pairs.len()
        invariant
            i <= pairs@.len(),
            all == text::texts(pairs@),
            text::text_option(found) == first_value(all.take(i as int), key@),
        decreases pairs@.len() - i,
    {
        assert(all.take(i + 1).drop_last() == all.take(i as int));
        assert(all.take(i + 1).last() == pairs@[i as int]@);
        if found.is_none() {
            if let Some((name, value)) = cut_at(&pairs[i], '=') {
                if same(&name, key) {
                    found = decode(&value);
                }
            }
        }
        i += 1;
    }
    assert(all.take(all.len() as int) == all);
    found
}

/// What a URL that was pasted back says.
pub open spec fn callback_of(url: Seq<char>, state: Seq<char>) -> Result<Seq<char>, CallbackError> {
    match text::cut(url, '?') {
        None => Err(CallbackError::NoQuery),
        Some((_, query)) => match (param_of(query, "code"@), param_of(query, "state"@)) {
            (None, _) => Err(CallbackError::NoCode),
            (Some(_), None) => Err(CallbackError::NoState),
            (Some(code), Some(given)) => if given == state {
                Ok(code)
            } else {
                Err(CallbackError::StateMismatch)
            },
        },
    }
}

fn push_pair(query: &mut String, name: &str, value: &str, Ghost(pairs): Ghost<Seq<Seq<char>>>)
    requires
        old(query)@ == joined(pairs),
        pairs.len() > 0,
    ensures
        final(query)@ == joined(pairs.push(pair(name@, value@))),
{
    let encoded = encode(value);
    query.append("&");
    query.append(name);
    query.append("=");
    query.append(&encoded);
    proof {
        let more = pairs.push(pair(name@, value@));
        assert(more.drop_last() =~= pairs);
        assert(query@ =~= joined(pairs) + "&"@ + pair(name@, value@));
    }
}

/// The query of the authorize URL.
fn authorize_query(opts: &ServerOptions, challenge: &str, state: &str) -> (r: String)
    ensures
        r@ == joined(
            authorize_pairs(
                opts.client_id@,
                challenge@,
                state@,
                opts.originator@,
                text::text_option(opts.forced_chatgpt_workspace_id),
            ),
        ),
        param_of(r@, "state"@) == Some(state@),
{
    let mut query = join3("response_type", "=", &encode("code"));
    let ghost mut pairs = seq![pair("response_type"@, "code"@)];
    assert(query@ =~= joined(pairs));
    push_pair(&mut query, "client_id", &opts.client_id, Ghost(pairs));
    proof {
        pairs = pairs.push(pair("client_id"@, opts.client_id@));
    }
    push_pair(
        &mut query,
        "redirect_uri",
        "http://localhost:1455/auth/callback",
        Ghost(pairs),
    );
    proof {
        pairs = pairs.push(pair("redirect_uri"@, redirect()));
    }
    push_pair(&mut query, "scope", "openid profile email offline_access", Ghost(pairs));
    proof {
        pairs = pairs.push(pair("scope"@, "openid profile email offline_access"@));
    }
    push_pair(&mut query, "code_challenge", challenge, Ghost(pairs));
    proof {
        pairs = pairs.push(pair("code_challenge"@, challenge@));
    }
    push_pair(&mut query, "code_challenge_method", "S256", Ghost(pairs));
    proof {
        pairs = pairs.push(pair("code_challenge_method"@, "S256"@));
    }
    push_pair(&mut query, "id_token_add_organizations", "true", Ghost(pairs));
    proof {
        pairs = pairs.push(pair("id_token_add_organizations"@, "true"@));
    }
    push_pair(&mut query, "codex_cli_simplified_flow", "true", Ghost(pairs));
    proof {
        pairs = pairs.push(pair("codex_cli_simplified_flow"@, "true"@));
    }
    push_pair(&mut query, "state", state, Ghost(pairs));
    proof {
        pairs = pairs.push(pair("state"@, state@));
    }
    push_pair(&mut query, "originator", &opts.originator, Ghost(pairs));
    proof {
        pairs = pairs.push(pair("originator"@, opts.originator@));
        assert(pairs =~= authorize_pairs(
            opts.client_id@,
            challenge@,
            state@,
            opts.originator@,
            None,
        ));
    }
    if let Some(workspace) = &opts.forced_chatgpt_workspace_id {
        push_pair(&mut query, "allowed_workspace_id", workspace, Ghost(pairs));
    }
    proof {
        lemma_state_param(
            opts.client_id@,
            challenge@,
            state@,
            opts.originator@,
            text::text_option(opts.forced_chatgpt_workspace_id),
        );
    }
    query
}

/// The authorize URL.
pub open spec fn authorize_text(
    issuer: Seq<char>,
    client_id: Seq<char>,
    challenge: Seq<char>,
    state: Seq<char>,
    originator: Seq<char>,
    workspace: Option<Seq<char>>,
) -> Seq<char> {
    issuer + "/oauth/authorize?"@ + joined(
        authorize_pairs(client_id, challenge, state, originator, workspace),
    )
}

impl CallbackLogin {
    /// Builds the authorize URL; no network or local port is involved. The codes and the state
    /// are random.
    pub fn begin(opts: &ServerOptions, pkce: PkceCodes, state: String) -> (r: CallbackLogin)
        ensures
            r.authorize_url@ == authorize_text(
                opts.issuer@,
                opts.client_id@,
                pkce.code_challenge@,
                state@,
                opts.originator@,
                text::text_option(opts.forced_chatgpt_workspace_id),
            ),
            r.redirect_uri@ == redirect(),
            r.state == state,
            r.pkce == pkce,
            // The state reads back from the URL's query.
            param_of(
                joined(
                    authorize_pairs(
                        opts.client_id@,
                        pkce.code_challenge@,
                        state@,
                        opts.originator@,
                        text::text_option(opts.forced_chatgpt_workspace_id),
                    ),
                ),
                "state"@,
            ) == Some(state@),
    {
        let query = authorize_query(opts, &pkce.code_challenge, &state);
        let authorize_url = join3(&opts.issuer, "/oauth/authorize?", &query);
        CallbackLogin {
            authorize_url,
            redirect_uri: "http://localhost:1455/auth/callback".to_owned(),
            state,
            pkce,
        }
    }

    /// The URL that the operator opens in a browser.
    pub fn authorize_url(&self) -> (r: &str)
        ensures
            r@ == self.authorize_url@,
    {
        self.authorize_url.as_str()
    }

    /// Validates the URL that was pasted back; what is to be exchanged for tokens.
    pub fn complete(&self, callback_url: &str) -> (r: Result<Exchange, CallbackError>)
        ensures
            match callback_of(callback_url@, self.state@) {
                Ok(code) => r matches Ok(e) && e.code@ == code && e.redirect_uri@
                    == self.redirect_uri@ && e.code_verifier@ == self.pkce.code_verifier@,
                Err(e) => r == Err::<Exchange, CallbackError>(e),
            },
    {
        let query = match cut_at(callback_url, '?') {
            Some((_, query)) => query,
            None => return Err(CallbackError::NoQuery),
        };
        let code = match query_param(&query, "code") {
            Some(code) => code,
            None => return Err(CallbackError::NoCode),
        };
        let state = match query_param(&query, "state") {
            Some(state) => state,
            None => return Err(CallbackError::NoState),
        };
        if !same(&state, &self.state) {
            return Err(CallbackError::StateMismatch);
        }
        Ok(
            Exchange {
                code,
                redirect_uri: self.redirect_uri.clone(),
                code_verifier: self.pkce.code_verifier.clone(),
            },
        )
    }
}

/// A login for an account that is to be saved under a name.
#[derive(Debug)]
pub struct Session {
    pub id: u64,
    pub profile: String,
    pub login: CallbackLogin,
}

/// Why a login cannot be completed.
#[derive(Debug)]
pub enum SessionError {
    BadUrl,
    NoLogin,
    /// The login is for the account of this name.
    Other(String),
}

/// The directory in which a login's credentials are kept until they are saved; its name is
/// that of no account, and each login has its own.
pub fn staging_dir(id: u64) -> (r: String)
    ensures
        r@ == ".login-"@ + text::decimal(id as nat),
{
    join2(".login-", &number_text(id))
}

/// Whether a directory was left by a login.
pub fn is_staging(name: &str) -> (r: bool)
    ensures
        r == ".login-"@.is_prefix_of(name@),
{
    begins_with(name, ".login-")
}

/// What is shown of the login that is under way.
pub open spec fn session_tree(s: Option<Session>) -> Tree {
    match s {
        Some(s) => Tree::Object(
            Map::empty().insert("active"@, Tree::Bool(true)).insert(
                "profile"@,
                Tree::Text(s.profile@),
            ).insert("url"@, Tree::Text(s.login.authorize_url@)),
        ),
        None => Tree::Object(Map::empty().insert("active"@, Tree::Bool(false))),
    }
}

/// What is shown of the login that is under way.
pub fn status(session: &Option<Session>) -> (r: Json)
    ensures
        r@ == session_tree(*session),
{
    let mut r = Json::object();
    match session {
        Some(session) => {
            r.set("active".to_owned(), Json::Bool(true));
            r.set("profile".to_owned(), Json::Text(session.profile.clone()));
            r.set("url".to_owned(), Json::Text(session.login.authorize_url.clone()));
        },
        None => {
            r.set("active".to_owned(), Json::Bool(false));
        },
    }
    r
}

/// Starts a login in place of any other.
pub fn start(
    session: &mut Option<Session>,
    id: u64,
    profile: &str,
    opts: &ServerOptions,
    pkce: PkceCodes,
    state: String,
) -> (r: bool)
    ensures
        r == accounts::is_profile_name(profile@),
        !r ==> *final(session) == *old(session),
        r ==> (*final(session) matches Some(s) && s.id == id && s.profile@ == profile@
            && s.login.authorize_url@ == authorize_text(
            opts.issuer@,
            opts.client_id@,
            pkce.code_challenge@,
            state@,
            opts.originator@,
            text::text_option(opts.forced_chatgpt_workspace_id),
        ) && s.login.state == state && s.login.pkce == pkce && s.login.redirect_uri@
            == redirect()),
{
    if !valid_name(profile) {
        return false;
    }
    let login = CallbackLogin::begin(opts, pkce, state);
    *session = Some(Session { id, profile: profile.to_owned(), login });
    true
}

/// Why a login cannot be completed for an account.
pub open spec fn session_fault(s: Option<Session>, profile: Seq<char>, url: Seq<char>) -> Option<
    SessionError,
> {
    if url.len() == 0 || text::byte_length(url) > MAX_CALLBACK {
        Some(SessionError::BadUrl)
    } else {
        match s {
            None => Some(SessionError::NoLogin),
            Some(s) => if s.profile@ != profile {
                Some(SessionError::Other(s.profile))
            } else {
                None
            },
        }
    }
}

/// Whether a login can be completed for an account with a URL that was pasted back.
pub fn check_session(session: &Option<Session>, profile: &str, callback_url: &str) -> (r: Option<
    SessionError,
>)
    ensures
        r == session_fault(*session, profile@, callback_url@),
{
    if callback_url.is_empty() || byte_len(callback_url) > MAX_CALLBACK {
        return Some(SessionError::BadUrl);
    }
    match session {
        None => Some(SessionError::NoLogin),
        Some(session) => if same(&session.profile, profile) {
            None
        } else {
            Some(SessionError::Other(session.profile.clone()))
        },
    }
}

/// No login's directory has the name of an account.
pub proof fn law_staging_is_no_account(id: u64)
    ensures
        !accounts::is_profile_name(".login-"@ + text::decimal(id as nat)),
{
    reveal_strlit(".login-");
    let name = ".login-"@ + text::decimal(id as nat);
    assert(name[0] == '.');
}

proof fn lemma_pieces_join(a: Seq<char>, b: Seq<char>, c: char)
    requires
        !b.contains(c),
    ensures
        text::pieces(a + seq![c] + b, c) == text::pieces(a, c).push(b),
    decreases b.len(),
{
    let whole = a + seq![c] + b;
    if b.len() == 0 {
        assert(whole.drop_last() =~= a);
        assert(whole.last() == c);
        assert(b =~= Seq::empty());
    } else {
        let rest = b.drop_last();
        assert(b.last() != c);
        assert(whole.drop_last() =~= a + seq![c] + rest);
        assert forall|i: int| 0 <= i < rest.len() implies rest[i] != c by {
            assert(rest[i] == b[i]);
        }
        lemma_pieces_join(a, rest, c);
        let p = text::pieces(a, c).push(rest);
        assert(p.drop_last() =~= text::pieces(a, c));
        assert(p.last() == rest);
        assert(rest.push(b.last()) =~= b);
    }
}

proof fn lemma_one_piece(b: Seq<char>, c: char)
    requires
        !b.contains(c),
    ensures
        text::pieces(b, c) == seq![b],
    decreases b.len(),
{
    if b.len() == 0 {
        assert(b =~= Seq::empty());
    } else {
        let rest = b.drop_last();
        assert(b.last() != c);
        assert forall|i: int| 0 <= i < rest.len() implies rest[i] != c by {
            assert(rest[i] == b[i]);
        }
        lemma_one_piece(rest, c);
        assert(seq![rest].drop_last() =~= Seq::empty());
        assert(rest.push(b.last()) =~= b);
        assert(text::pieces(b, c) =~= seq![b]);
    }
}

/// Joined parameters come apart again.
pub proof fn law_joined_pairs_come_apart(pairs: Seq<Seq<char>>)
    requires
        pairs.len() > 0,
        forall|i: int| 0 <= i < pairs.len() ==> !(#[trigger] pairs[i]).contains('&'),
    ensures
        text::pieces(joined(pairs), '&') == pairs,
    decreases pairs.len(),
{
    if pairs.len() == 1 {
        lemma_one_piece(pairs[0], '&');
        assert(seq![pairs[0]] =~= pairs);
    } else {
        let front = pairs.drop_last();
        assert forall|i: int| 0 <= i < front.len() implies !(#[trigger] front[i]).contains('&') by {
            assert(front[i] == pairs[i]);
        }
        law_joined_pairs_come_apart(front);
        reveal_strlit("&");
        assert("&"@ =~= seq!['&']);
        assert(!pairs[pairs.len() - 1].contains('&'));
        lemma_pieces_join(joined(front), pairs.last(), '&');
        assert(front.push(pairs.last()) =~= pairs);
    }
}

/// An encoded value holds neither of the characters that part a query.
proof fn lemma_encoded_is_plain(bytes: Seq<u8>)
    ensures
        !percent_encoded(bytes).contains('&'),
        !percent_encoded(bytes).contains('='),
    decreases bytes.len(),
{
    if bytes.len() > 0 {
        lemma_encoded_is_plain(bytes.drop_last());
        let front = percent_encoded(bytes.drop_last());
        let whole = percent_encoded(bytes);
        assert forall|i: int| 0 <= i < whole.len() implies whole[i] != '&' && whole[i] != '=' by {
            if i < front.len() {
                assert(whole[i] == front[i]);
                assert(front.contains(front[i]));
            }
        }
    }
}

proof fn lemma_pair(name: Seq<char>, value: Seq<char>)
    requires
        !name.contains('&'),
        !name.contains('='),
    ensures
        !pair(name, value).contains('&'),
        text::cut(pair(name, value), '=') == Some((name, percent_encoded(encode_utf8(value)))),
{
    lemma_encoded_is_plain(encode_utf8(value));
    let encoded = percent_encoded(encode_utf8(value));
    reveal_strlit("=");
    assert("="@ =~= seq!['=']);
    let whole = pair(name, value);
    assert forall|i: int| 0 <= i < whole.len() implies whole[i] != '&' by {
        if i < name.len() {
            assert(name.contains(name[i]));
        } else if i > name.len() {
            assert(whole[i] == encoded[i - name.len() - 1]);
            assert(encoded.contains(encoded[i - name.len() - 1]));
        }
    }
    text::lemma_cut(whole, '=', name, encoded);
}

/// The parameters before the state are others.
proof fn lemma_other_params(pairs: Seq<Seq<char>>, key: Seq<char>, n: int)
    requires
        0 <= n < pairs.len(),
        forall|i: int| 0 <= i < n ==> (text::cut(#[trigger] pairs[i], '=') matches Some((name, _)) && name != key),
        value_of(pairs[n], key) is Some,
    ensures
        first_value(pairs, key) == value_of(pairs[n], key),
    decreases pairs.len(),
{
    let front = pairs.drop_last();
    if n < pairs.len() - 1 {
        assert forall|i: int| 0 <= i < n implies (text::cut(#[trigger] front[i], '=') matches Some((name, _)) && name
            != key) by {
            assert(front[i] == pairs[i]);
        }
        lemma_other_params(front, key, n);
    } else {
        lemma_no_param(front, key);
    }
}

proof fn lemma_no_param(pairs: Seq<Seq<char>>, key: Seq<char>)
    requires
        forall|i: int|
            0 <= i < pairs.len() ==> (text::cut(#[trigger] pairs[i], '=') matches Some((name, _)) && name != key),
    ensures
        first_value(pairs, key) is None,
    decreases pairs.len(),
{
    if pairs.len() > 0 {
        let front = pairs.drop_last();
        assert forall|i: int| 0 <= i < front.len() implies (text::cut(#[trigger] front[i], '=') matches Some((name, _)) && name
            != key) by {
            assert(front[i] == pairs[i]);
        }
        lemma_no_param(front, key);
        assert(text::cut(pairs[pairs.len() - 1], '=') is Some);
    }
}

/// The names of the parameters hold neither of the characters that part a query.
proof fn lemma_names()
    ensures
        forall|i: int|
            0 <= i < 11 ==> !(#[trigger] param_names()[i]).contains('&') && !param_names()[i].contains(
                '=',
            ),
        forall|i: int| 0 <= i < 8 ==> (#[trigger] param_names()[i]) != "state"@,
{
    reveal_strlit("response_type");
    reveal_strlit("client_id");
    reveal_strlit("redirect_uri");
    reveal_strlit("scope");
    reveal_strlit("code_challenge");
    reveal_strlit("code_challenge_method");
    reveal_strlit("id_token_add_organizations");
    reveal_strlit("codex_cli_simplified_flow");
    reveal_strlit("state");
    reveal_strlit("originator");
    reveal_strlit("allowed_workspace_id");
    assert("scope"@[1] != "state"@[1]);
}

pub open spec fn param_names() -> Seq<Seq<char>> {
    seq![
        "response_type"@,
        "client_id"@,
        "redirect_uri"@,
        "scope"@,
        "code_challenge"@,
        "code_challenge_method"@,
        "id_token_add_organizations"@,
        "codex_cli_simplified_flow"@,
        "state"@,
        "originator"@,
        "allowed_workspace_id"@,
    ]
}

proof fn lemma_state_param(
    client_id: Seq<char>,
    challenge: Seq<char>,
    state: Seq<char>,
    originator: Seq<char>,
    workspace: Option<Seq<char>>,
)
    ensures
        param_of(
            joined(authorize_pairs(client_id, challenge, state, originator, workspace)),
            "state"@,
        ) == Some(state),
{
    let pairs = authorize_pairs(client_id, challenge, state, originator, workspace);
    let values = seq![
        "code"@,
        client_id,
        redirect(),
        "openid profile email offline_access"@,
        challenge,
        "S256"@,
        "true"@,
        "true"@,
        state,
        originator,
        match workspace {
            Some(w) => w,
            None => Seq::empty(),
        },
    ];
    lemma_names();
    law_encoded_values_read_back(state);
    assert forall|i: int| 0 <= i < pairs.len() implies !(#[trigger] pairs[i]).contains('&') && text::cut(
        pairs[i],
        '=',
    ) == Some((param_names()[i], percent_encoded(encode_utf8(values[i])))) by {
        assert(pairs[i] == pair(param_names()[i], values[i]));
        assert(!param_names()[i].contains('&'));
        lemma_pair(param_names()[i], values[i]);
    }
    law_joined_pairs_come_apart(pairs);
    assert(param_names()[8] == "state"@);
    assert(values[8] == state);
    assert(value_of(pairs[8], "state"@) == Some(state));
    assert forall|i: int| 0 <= i < 8 implies (text::cut(#[trigger] pairs[i], '=') matches Some((name, _)) && name
        != "state"@) by {
        assert(param_names()[i] != "state"@);
    }
    lemma_other_params(pairs, "state"@, 8);
}

proof fn lemma_distinct_names()
    ensures
        forall|i: int, j: int|
            0 <= i < j < 11 ==> (#[trigger] param_names()[i]) != (#[trigger] param_names()[j]),
{
    reveal_strlit("response_type");
    reveal_strlit("client_id");
    reveal_strlit("redirect_uri");
    reveal_strlit("scope");
    reveal_strlit("code_challenge");
    reveal_strlit("code_challenge_method");
    reveal_strlit("id_token_add_organizations");
    reveal_strlit("codex_cli_simplified_flow");
    reveal_strlit("state");
    reveal_strlit("originator");
    reveal_strlit("allowed_workspace_id");
    assert("response_type"@.len() == 13 && "client_id"@.len() == 9 && "redirect_uri"@.len() == 12
        && "scope"@.len() == 5 && "code_challenge"@.len() == 14 && "code_challenge_method"@.len()
        == 21 && "id_token_add_organizations"@.len() == 26 && "codex_cli_simplified_flow"@.len()
        == 25 && "state"@.len() == 5 && "originator"@.len() == 10 && "allowed_workspace_id"@.len()
        == 20);
    assert("scope"@[1] == 'c' && "state"@[1] == 't');
}

proof fn lemma_authorize_param(
    client_id: Seq<char>,
    challenge: Seq<char>,
    state: Seq<char>,
    originator: Seq<char>,
    workspace: Option<Seq<char>>,
    n: int,
    value: Seq<char>,
)
    requires
        ({
            let pairs = authorize_pairs(client_id, challenge, state, originator, workspace);
            &&& 0 <= n < pairs.len()
            &&& pairs[n] == pair(param_names()[n], value)
        }),
    ensures
        param_of(
            joined(authorize_pairs(client_id, challenge, state, originator, workspace)),
            param_names()[n],
        ) == Some(value),
{
    let pairs = authorize_pairs(client_id, challenge, state, originator, workspace);
    let values = seq![
        "code"@,
        client_id,
        redirect(),
        "openid profile email offline_access"@,
        challenge,
        "S256"@,
        "true"@,
        "true"@,
        state,
        originator,
        match workspace {
            Some(w) => w,
            None => Seq::empty(),
        },
    ];
    lemma_names();
    lemma_distinct_names();
    law_encoded_values_read_back(value);
    assert forall|i: int| 0 <= i < pairs.len() implies !(#[trigger] pairs[i]).contains('&')
        && text::cut(pairs[i], '=') == Some(
        (param_names()[i], percent_encoded(encode_utf8(values[i]))),
    ) by {
        assert(pairs[i] == pair(param_names()[i], values[i]));
        assert(!param_names()[i].contains('&'));
        lemma_pair(param_names()[i], values[i]);
    }
    law_joined_pairs_come_apart(pairs);
    assert(!param_names()[n].contains('&'));
    lemma_pair(param_names()[n], value);
    assert(value_of(pairs[n], param_names()[n]) == Some(value));
    assert forall|i: int| 0 <= i < n implies (text::cut(#[trigger] pairs[i], '=') matches Some(
        (name, _),
    ) && name != param_names()[n]) by {
        assert(param_names()[i] != param_names()[n]);
    }
    lemma_other_params(pairs, param_names()[n], n);
}

/// The authorize URL asks the issuer for a code: for the client, with the redirect, the scope, the
/// challenge, the state and the originator, and for a workspace where one is set. Each of them
/// reads back from its query as it is.
pub proof fn law_what_the_authorize_url_asks_for(
    issuer: Seq<char>,
    client_id: Seq<char>,
    challenge: Seq<char>,
    state: Seq<char>,
    originator: Seq<char>,
    workspace: Option<Seq<char>>,
)
    ensures
        ({
            let url = authorize_text(issuer, client_id, challenge, state, originator, workspace);
            let head = issuer + "/oauth/authorize?"@;
            let query = url.skip(head.len() as int);
            &&& url.take(head.len() as int) == head
            &&& param_of(query, "response_type"@) == Some("code"@)
            &&& param_of(query, "client_id"@) == Some(client_id)
            &&& param_of(query, "redirect_uri"@) == Some("http://localhost:1455/auth/callback"@)
            &&& param_of(query, "scope"@) == Some("openid profile email offline_access"@)
            &&& param_of(query, "code_challenge"@) == Some(challenge)
            &&& param_of(query, "code_challenge_method"@) == Some("S256"@)
            &&& param_of(query, "id_token_add_organizations"@) == Some("true"@)
            &&& param_of(query, "codex_cli_simplified_flow"@) == Some("true"@)
            &&& param_of(query, "state"@) == Some(state)
            &&& param_of(query, "originator"@) == Some(originator)
            &&& workspace matches Some(w) ==> param_of(query, "allowed_workspace_id"@) == Some(w)
        }),
{
    let url = authorize_text(issuer, client_id, challenge, state, originator, workspace);
    let head = issuer + "/oauth/authorize?"@;
    let pairs = authorize_pairs(client_id, challenge, state, originator, workspace);
    assert(url.take(head.len() as int) =~= head);
    assert(url.skip(head.len() as int) =~= joined(pairs));
    lemma_authorize_param(client_id, challenge, state, originator, workspace, 0, "code"@);
    lemma_authorize_param(client_id, challenge, state, originator, workspace, 1, client_id);
    lemma_authorize_param(client_id, challenge, state, originator, workspace, 2, redirect());
    lemma_authorize_param(
        client_id,
        challenge,
        state,
        originator,
        workspace,
        3,
        "openid profile email offline_access"@,
    );
    lemma_authorize_param(client_id, challenge, state, originator, workspace, 4, challenge);
    lemma_authorize_param(client_id, challenge, state, originator, workspace, 5, "S256"@);
    lemma_authorize_param(client_id, challenge, state, originator, workspace, 6, "true"@);
    lemma_authorize_param(client_id, challenge, state, originator, workspace, 7, "true"@);
    lemma_authorize_param(client_id, challenge, state, originator, workspace, 8, state);
    lemma_authorize_param(client_id, challenge, state, originator, workspace, 9, originator);
    if let Some(w) = workspace {
        lemma_authorize_param(client_id, challenge, state, originator, workspace, 10, w);
    }
}

/// The value of a parameter is what follows the first equals sign of the first pair of its name
/// that can be decoded; pairs of other names, and what is no pair, say nothing of it.
pub proof fn law_values_of_parameters(
    pairs: Seq<Seq<char>>,
    name: Seq<char>,
    value: Seq<char>,
    key: Seq<char>,
    other: Seq<char>,
)
    requires
        !name.contains('='),
        !other.contains('='),
    ensures
        value_of(name + seq!['='] + value, key) == (if name == key {
            percent_decoded(value)
        } else {
            None
        }),
        value_of(other, key) is None,
        first_value(Seq::<Seq<char>>::empty(), key) is None,
        first_value(pairs, key) is Some ==> first_value(pairs.push(other), key) == first_value(
            pairs,
            key,
        ) && first_value(pairs.push(name + seq!['='] + value), key) == first_value(pairs, key),
        first_value(pairs, key) is None && name == key ==> first_value(
            pairs.push(name + seq!['='] + value),
            key,
        ) == percent_decoded(value),
        first_value(pairs, key) is None && name != key ==> first_value(
            pairs.push(name + seq!['='] + value),
            key,
        ) is None,
{
    text::lemma_cut(name + seq!['='] + value, '=', name, value);
    text::lemma_no_cut(other, '=');
    assert(pairs.push(other).drop_last() =~= pairs);
    assert(pairs.push(name + seq!['='] + value).drop_last() =~= pairs);
}

/// A URL that is pasted back gives a code exactly where its query has one, and a state that is the
/// one of the login.
pub proof fn law_when_a_callback_is_taken(base: Seq<char>, query: Seq<char>, state: Seq<char>)
    requires
        !base.contains('?'),
    ensures
        callback_of(base, state) == Err::<Seq<char>, _>(CallbackError::NoQuery),
        ({
            let r = callback_of(base + seq!['?'] + query, state);
            let code = param_of(query, "code"@);
            let given = param_of(query, "state"@);
            &&& r == Err::<Seq<char>, _>(CallbackError::NoCode) <==> code is None
            &&& r == Err::<Seq<char>, _>(CallbackError::NoState) <==> code is Some && given is None
            &&& r == Err::<Seq<char>, _>(CallbackError::StateMismatch) <==> code is Some && given
                is Some && given->0 != state
            &&& r is Ok <==> code is Some && given == Some(state)
            &&& r matches Ok(c) ==> code == Some(c)
        }),
{
    text::lemma_no_cut(base, '?');
    text::lemma_cut(base + seq!['?'] + query, '?', base, query);
}

/// Letters, digits, the hyphen, the dot, the underscore and the tilde stand for themselves in an
/// encoded value; any other byte is a percent sign and its two hexadecimal digits, in upper case.
pub proof fn law_how_bytes_are_encoded(bytes: Seq<u8>, b: u8)
    ensures
        ({
            let plain = 'a' as u8 <= b <= 'z' as u8 || 'A' as u8 <= b <= 'Z' as u8 || '0' as u8 <= b
                <= '9' as u8 || b == '-' as u8 || b == '.' as u8 || b == '_' as u8 || b
                == '~' as u8;
            let e = escaped(b);
            &&& percent_encoded(Seq::<u8>::empty()) == Seq::<char>::empty()
            &&& percent_encoded(bytes.push(b)) == percent_encoded(bytes) + e
            &&& plain ==> e == seq![b as char]
            &&& !plain ==> {
                &&& e.len() == 3 && e[0] == '%'
                &&& '0' <= e[1] <= '9' || 'A' <= e[1] <= 'F'
                &&& '0' <= e[2] <= '9' || 'A' <= e[2] <= 'F'
                &&& 16 * upper_value(e[1]) + upper_value(e[2]) == b
            }
        }),
{
    assert(bytes.push(b).drop_last() =~= bytes);
    assert(b / 16 < 16 && b % 16 < 16);
}

/// The value of a hexadecimal digit in upper case.
pub open spec fn upper_value(c: char) -> int {
    if c <= '9' {
        c as int - 48
    } else {
        c as int - 55
    }
}

/// What is shown of a login is its account and its URL while one is under way, and otherwise only
/// that none is.
pub proof fn law_what_is_shown_of_a_login(s: Option<Session>)
    ensures
        s matches Some(l) ==> {
            &&& session_tree(s).at("active"@) == Tree::Bool(true)
            &&& session_tree(s).at("profile"@) == Tree::Text(l.profile@)
            &&& session_tree(s).at("url"@) == Tree::Text(l.login.authorize_url@)
        },
        s is None ==> session_tree(s).at("active"@) == Tree::Bool(false) && session_tree(s).field(
            "url"@,
        ) is None,
{
    reveal_strlit("active");
    reveal_strlit("profile");
    reveal_strlit("url");
    assert("active"@.len() == 6 && "profile"@.len() == 7 && "url"@.len() == 3);
}

/// A login is completed with a URL of 1 to 2048 bytes, while one is under way, and only for its own
/// account.
pub proof fn law_when_a_login_can_be_completed(
    s: Option<Session>,
    profile: Seq<char>,
    url: Seq<char>,
)
    ensures
        ({
            let f = session_fault(s, profile, url);
            let good = url.len() > 0 && encode_utf8(url).len() <= 2048;
            &&& f == Some(SessionError::BadUrl) <==> !good
            &&& f == Some(SessionError::NoLogin) <==> good && s is None
            &&& f is Some && f->0 is Other <==> good && s is Some && s->0.profile@ != profile
            &&& f is None <==> good && s is Some && s->0.profile@ == profile
        }),
{
}

/// The challenge of a login is the text of the hash of its verifier.
pub proof fn law_challenges_hide_the_verifier(verifier: Seq<char>)
    ensures
        pkce_challenge(verifier) == base64url_text(digest::sha256_of(encode_utf8(verifier))),
{
}

} // verus!
