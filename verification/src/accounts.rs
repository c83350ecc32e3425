//! Saved accounts and their administration. Credentials never leave the server.
use crate::digest;
use crate::digest::digest;
use crate::json;
use crate::json::parse_json;
use crate::json::push_json;
use crate::json::Json;
use crate::json::Tree;
use crate::text;
use crate::text::alphanumeric;
use crate::text::byte_len;
use crate::text::chars_of;
use crate::text::join2;
use crate::text::join3;
use crate::text::same;
use crate::text::sort;
use crate::text::split;
use crate::text::split_once;
use crate::text::text_of;
use crate::text::trim;
use vstd::prelude::*;
use vstd::utf8::*;

verus! {

broadcast use {vstd::seq_lib::group_seq_properties, vstd::map::group_map_axioms};

/// The largest file with credentials, in bytes.
pub const MAX_AUTH: usize = 65536;

/// How many accounts are saved.
pub const MAX_PROFILES: usize = 64;

/// The most requests that may ever run at once.
pub const MAX_CAPACITY: usize = 32;

/// The bytes that `URL_SAFE_NO_PAD` of the `base64` crate decodes from a text, if it is valid.
pub uninterp spec fn base64url(s: Seq<char>) -> Option<Seq<u8>>;

pub open spec fn bytes_option(v: Option<Vec<u8>>) -> Option<Seq<u8>> {
    match v {
        Some(v) => Some(v@),
        None => None,
    }
}

/// `base64::engine::general_purpose::URL_SAFE_NO_PAD.decode`: what it decodes depends on the
/// text alone.
#[verifier::external_body]
fn decode_base64url(s: &str) -> (r: Option<Vec<u8>>)
    ensures
        bytes_option(r) == base64url(s@),
{
    base64::Engine::decode(&base64::engine::general_purpose::URL_SAFE_NO_PAD, s).ok()
}

/// Whether a text can name an account: 1 to 64 letters, digits, hyphens and underscores.
pub open spec fn is_profile_name(s: Seq<char>) -> bool {
    0 < s.len() <= 64 && forall|i: int|
        0 <= i < s.len() ==> text::is_alphanumeric(#[trigger] s[i]) || s[i] == '-' || s[i] == '_'
}

/// Whether a text can name an account.
pub fn valid_name(name: &str) -> (r: bool)
    ensures
        r == is_profile_name(name@),
{
    let chars = chars_of(name);
    if chars.len() == 0 || chars.len() > 64 {
        return false;
    }
    let mut i: usize = 0;
    while i < chars.len()
        invariant
            i <= chars@.len(),
            chars@ == name@,
            forall|k: int|
                0 <= k < i ==> text::is_alphanumeric(#[trigger] name@[k]) || name@[k] == '-'
                    || name@[k] == '_',
        decreases chars@.len() - i,
    {
        let c = chars[i];
        if !(alphanumeric(c) || c == '-' || c == '_') {
            assert(!(text::is_alphanumeric(name@[i as int]) || name@[i as int] == '-'
                || name@[i as int] == '_'));
            return false;
        }
        i += 1;
    }
    true
}

pub open spec fn or_empty(s: Option<Seq<char>>) -> Seq<char> {
    match s {
        Some(s) => s,
        None => Seq::empty(),
    }
}

/// What tells one account from another.
pub open spec fn identity_of(auth: Tree) -> Seq<char> {
    match auth.at("tokens"@).field("account_id"@) {
        Some(id) => or_empty(id.text()),
        None => or_empty(auth.text_at("OPENAI_API_KEY"@)),
    }
}

/// What tells one account from another.
pub fn identity(value: &Json) -> (r: String)
    ensures
        r@ == identity_of(value@),
{
    let id = match value.get("tokens") {
        Some(tokens) => tokens.get("account_id"),
        None => None,
    };
    let found = match id {
        Some(id) => id.as_text(),
        None => value.text_at("OPENAI_API_KEY"),
    };
    match found {
        Some(s) => s.clone(),
        None => String::new(),
    }
}

pub open spec fn same_account(a: Tree, b: Tree) -> bool {
    identity_of(a) == identity_of(b)
}

fn are_same(a: &Json, b: &Json) -> (r: bool)
    ensures
        r == same_account(a@, b@),
{
    same(&identity(a), &identity(b))
}

/// A text without equals signs at its end.
pub open spec fn unpadded(s: Seq<char>) -> Seq<char>
    decreases s.len(),
{
    if s.len() > 0 && s.last() == '=' {
        unpadded(s.drop_last())
    } else {
        s
    }
}

/// The payload of a token in three parts.
pub open spec fn token_payload(token: Seq<char>) -> Option<Seq<char>> {
    let parts = text::pieces(token, '.');
    if parts.len() > 1 {
        Some(unpadded(parts[1]))
    } else {
        None
    }
}

/// The address in a token's claims.
pub open spec fn claimed_email(claims: Tree) -> Option<Seq<char>> {
    match claims.text_at("email"@) {
        Some(email) => if email.contains('@') {
            Some(email)
        } else {
            None
        },
        None => None,
    }
}

/// The address that an identity token tells.
pub open spec fn email_in(auth: Tree) -> Option<Seq<char>> {
    match auth.at("tokens"@).text_at("id_token"@) {
        None => None,
        Some(token) => match token_payload(token) {
            None => None,
            Some(payload) => match base64url(payload) {
                None => None,
                Some(bytes) => match json::json_document(bytes) {
                    None => None,
                    Some(claims) => claimed_email(claims),
                },
            },
        },
    }
}

fn trim_padding(s: &str) -> (r: String)
    ensures
        r@ == unpadded(s@),
{
    let chars = chars_of(s);
    let mut n: usize = chars.len();
    assert(s@.take(s@.len() as int) == s@);
    while n > 0 && chars[n - 1] == '='
        invariant
            n <= chars@.len(),
            chars@ == s@,
            unpadded(s@) == unpadded(s@.take(n as int)),
        decreases n,
    {
        assert(s@.take(n as int).drop_last() == s@.take(n - 1));
        n -= 1;
    }
    assert(s@.take(n as int) == s@.subrange(0, n as int));
    text_of(&chars, 0, n)
}

/// The address in a token's claims.
pub fn email_of_claims(claims: &Json) -> (r: Option<String>)
    ensures
        text::text_option(r) == claimed_email(claims@),
{
    match claims.text_at("email") {
        Some(email) => match split_once(email, '@') {
            Some(_) => Some(email.clone()),
            None => None,
        },
        None => None,
    }
}

/// The address that an identity token tells. The token is read for display only and its
/// signature is not verified.
pub fn id_token_email(value: &Json) -> (r: Option<String>)
    ensures
        text::text_option(r) == email_in(value@),
{
    let token = match value.get("tokens") {
        Some(tokens) => match tokens.text_at("id_token") {
            Some(token) => token,
            None => return None,
        },
        None => return None,
    };
    let parts = split(token, '.');
    assert(text::texts(parts@).len() == parts@.len());
    if parts.len() < 2 {
        return None;
    }
    assert(text::texts(parts@)[1] == parts@[1]@);
    let payload = trim_padding(&parts[1]);
    match decode_base64url(&payload) {
        None => None,
        Some(bytes) => match parse_json(&bytes) {
            None => None,
            Some(claims) => email_of_claims(&claims),
        },
    }
}

/// The last four characters of an identifier that is long enough not to be told by them.
pub open spec fn shown_suffix(account: Seq<char>) -> Seq<char> {
    if text::byte_length(account) < 8 {
        Seq::empty()
    } else if account.len() > 4 {
        account.skip(account.len() - 4)
    } else {
        account
    }
}

/// An account's identifier with most of it hidden: an address keeps its first character and
/// its domain, any other identifier at most its last four characters.
pub open spec fn is_mask(account: Seq<char>, mask: Seq<char>) -> bool {
    if account.contains('@') {
        exists|local: Seq<char>, domain: Seq<char>|
            {
                &&& account == #[trigger] (local + seq!['@'] + domain)
                &&& !local.contains('@')
                &&& mask == seq![
                    if local.len() > 0 {
                        local[0]
                    } else {
                        '*'
                    },
                ] + "***@"@ + domain
            }
    } else {
        mask == "account-***"@ + shown_suffix(account)
    }
}

/// Masks an account's identifier for display.
pub fn masked_account(account: &str) -> (r: String)
    ensures
        is_mask(account@, r@),
{
    if let Some((local, domain)) = split_once(account, '@') {
        let chars = chars_of(&local);
        let prefix: char = if chars.len() > 0 {
            chars[0]
        } else {
            '*'
        };
        let mut first = String::new();
        first.push(prefix);
        let r = join3(&first, "***@", &domain);
        proof {
            assert(first@ =~= seq![prefix]);
            let whole = local@ + seq!['@'] + domain@;
            assert(whole[local@.len() as int] == '@');
            assert(account@.contains('@'));
        }
        return r;
    }
    let chars = chars_of(account);
    let suffix = if byte_len(account) < 8 {
        String::new()
    } else if chars.len() > 4 {
        text_of(&chars, chars.len() - 4, chars.len())
    } else {
        account.to_owned()
    };
    assert(suffix@ =~= shown_suffix(account@));
    join2("account-***", &suffix)
}

/// The text that is masked in an account's label: the address of its token, or else its
/// identifier.
pub open spec fn labelled(auth: Tree) -> Seq<char> {
    match email_in(auth) {
        Some(email) => email,
        None => identity_of(auth),
    }
}

/// How an account is shown.
pub fn login_label(value: &Json) -> (r: String)
    ensures
        is_mask(labelled(value@), r@),
{
    match id_token_email(value) {
        Some(email) => masked_account(&email),
        None => masked_account(&identity(value)),
    }
}

/// Why credentials, or what is to be done with them, are refused.
/// The words of another are a `String`, and in contracts its characters.
#[derive(Debug, PartialEq, Eq)]
pub enum StoreError<S> {
    BadName,
    BadProfileName,
    Incomplete,
    TooLarge,
    Malformed,
    TooMany,
    AlreadySaved,
    NameTaken,
    Missing,
    InUse,
    Unreadable(S),
    LimitRange,
}

impl View for StoreError<String> {
    type V = StoreError<Seq<char>>;

    open spec fn view(&self) -> StoreError<Seq<char>> {
        match *self {
            StoreError::BadName => StoreError::BadName,
            StoreError::BadProfileName => StoreError::BadProfileName,
            StoreError::Incomplete => StoreError::Incomplete,
            StoreError::TooLarge => StoreError::TooLarge,
            StoreError::Malformed => StoreError::Malformed,
            StoreError::TooMany => StoreError::TooMany,
            StoreError::AlreadySaved => StoreError::AlreadySaved,
            StoreError::NameTaken => StoreError::NameTaken,
            StoreError::Missing => StoreError::Missing,
            StoreError::InUse => StoreError::InUse,
            StoreError::Unreadable(s) => StoreError::Unreadable(s@),
            StoreError::LimitRange => StoreError::LimitRange,
        }
    }
}

impl StoreError<Seq<char>> {
    pub open spec fn words(self) -> Seq<char> {
        match self {
            StoreError::BadName => "账号名称格式无效"@,
            StoreError::BadProfileName => "名称必须为 1–64 个英文字母、数字、短横线或下划线"@,
            StoreError::Incomplete => "请选择完整的 Codex auth.json（文件格式有效不代表登录仍有效）"@,
            StoreError::TooLarge => "认证文件超过 64 KiB"@,
            StoreError::Malformed => "认证文件无效"@,
            StoreError::TooMany => "最多保存 64 个账号"@,
            StoreError::AlreadySaved => "该账号已保存"@,
            StoreError::NameTaken => "该名称已存在，或目录不可写"@,
            StoreError::Missing => "账号不存在或路径无效"@,
            StoreError::InUse => "当前使用的账号不能删除，请先切换账号"@,
            StoreError::Unreadable(s) => s,
            StoreError::LimitRange => "保存的并发上限超过当前会话容量"@,
        }
    }
}

impl StoreError<String> {
    pub fn message(&self) -> (r: String)
        ensures
            r@ == self@.words(),
    {
        match self {
            StoreError::BadName => "账号名称格式无效".to_owned(),
            StoreError::BadProfileName => "名称必须为 1–64 个英文字母、数字、短横线或下划线".to_owned(),
            StoreError::Incomplete => "请选择完整的 Codex auth.json（文件格式有效不代表登录仍有效）".to_owned(),
            StoreError::TooLarge => "认证文件超过 64 KiB".to_owned(),
            StoreError::Malformed => "认证文件无效".to_owned(),
            StoreError::TooMany => "最多保存 64 个账号".to_owned(),
            StoreError::AlreadySaved => "该账号已保存".to_owned(),
            StoreError::NameTaken => "该名称已存在，或目录不可写".to_owned(),
            StoreError::Missing => "账号不存在或路径无效".to_owned(),
            StoreError::InUse => "当前使用的账号不能删除，请先切换账号".to_owned(),
            StoreError::Unreadable(s) => s.clone(),
            StoreError::LimitRange => "保存的并发上限超过当前会话容量".to_owned(),
        }
    }
}

/// Whether a text holds more than white space.
pub open spec fn is_filled(t: Option<Seq<char>>) -> bool {
    t matches Some(s) && text::trimmed(s).len() > 0
}

/// Whether credentials are complete.
pub open spec fn is_complete(auth: Tree) -> bool {
    let tokens = auth.at("tokens"@);
    auth is Object && (is_filled(auth.text_at("OPENAI_API_KEY"@)) || (is_filled(
        tokens.text_at("account_id"@),
    ) && is_filled(tokens.text_at("access_token"@)) && is_filled(tokens.text_at("refresh_token"@))
        && is_filled(tokens.text_at("id_token"@))))
}

pub open spec fn auth_verdict(auth: Tree) -> Result<(), StoreError<Seq<char>>> {
    if !is_complete(auth) {
        Err(StoreError::Incomplete)
    } else if json::json_text(auth).len() > MAX_AUTH {
        Err(StoreError::TooLarge)
    } else {
        Ok(())
    }
}

fn filled(value: Option<&String>) -> (r: bool)
    ensures
        r == is_filled(
            match value {
                Some(s) => Some(s@),
                None => None,
            },
        ),
{
    match value {
        Some(s) => !trim(s).as_str().is_empty(),
        None => false,
    }
}

pub open spec fn verdict_view(r: Result<(), StoreError<String>>) -> Result<
    (),
    StoreError<Seq<char>>,
> {
    match r {
        Ok(()) => Ok(()),
        Err(e) => Err(e@),
    }
}

/// Whether credentials are complete and not too large.
pub fn validate_auth(value: &Json) -> (r: Result<(), StoreError<String>>)
    ensures
        verdict_view(r) == auth_verdict(value@),
{
    let tokens = match value.get("tokens") {
        Some(tokens) => filled(tokens.text_at("account_id")) && filled(
            tokens.text_at("access_token"),
        ) && filled(tokens.text_at("refresh_token")) && filled(tokens.text_at("id_token")),
        None => false,
    };
    if !value.is_object() || !(filled(value.text_at("OPENAI_API_KEY")) || tokens) {
        return Err(StoreError::Incomplete);
    }
    if value.to_bytes().len() > MAX_AUTH {
        return Err(StoreError::TooLarge);
    }
    Ok(())
}

/// The credentials that a file holds.
pub open spec fn auth_in(bytes: Seq<u8>) -> Result<Tree, StoreError<Seq<char>>> {
    if bytes.len() > MAX_AUTH {
        Err(StoreError::Malformed)
    } else {
        match json::json_document(bytes) {
            None => Err(StoreError::Unreadable(reader_fault_text(bytes))),
            Some(auth) => match auth_verdict(auth) {
                Ok(()) => Ok(auth),
                Err(e) => Err(e),
            },
        }
    }
}

pub open spec fn tree_result(r: Result<Json, StoreError<String>>) -> Result<
    Tree,
    StoreError<Seq<char>>,
> {
    match r {
        Ok(j) => Ok(j@),
        Err(e) => Err(e@),
    }
}

/// What `serde_json::from_reader` says of bytes that are no JSON document.
pub uninterp spec fn reader_fault_text(bytes: Seq<u8>) -> Seq<char>;

/// `serde_json::from_reader::<_, serde_json::Value>` on bytes that are no JSON document: the
/// words of its error, which depend on the bytes alone.
#[verifier::external_body]
fn reader_fault(bytes: &[u8]) -> (r: String)
    requires
        json::json_document(bytes@) is None,
    ensures
        r@ == reader_fault_text(bytes@),
{
    let read = serde_json::from_reader::<_, serde_json::Value>(bytes);
    read.err().map(|e| e.to_string()).unwrap_or_default()
}

/// The credentials that a file holds.
pub fn read_auth(bytes: &[u8]) -> (r: Result<Json, StoreError<String>>)
    ensures
        tree_result(r) == auth_in(bytes@),
{
    if bytes.len() > MAX_AUTH {
        return Err(StoreError::Malformed);
    }
    match parse_json(bytes) {
        None => Err(StoreError::Unreadable(reader_fault(bytes))),
        Some(auth) => match validate_auth(&auth) {
            Ok(()) => Ok(auth),
            Err(e) => Err(e),
        },
    }
}

/// A saved account; its credentials, or in words why they cannot be read.
#[derive(Debug)]
pub struct Profile {
    pub name: String,
    pub auth: Result<Json, String>,
}

/// The model of a `Profile`: the credentials where they can be read, and else why they cannot.
pub struct Saved {
    pub name: Seq<char>,
    pub auth: Option<Tree>,
    pub fault: Seq<char>,
}

impl View for Profile {
    type V = Saved;

    open spec fn view(&self) -> Saved {
        match self.auth {
            Ok(j) => Saved { name: self.name@, auth: Some(j@), fault: Seq::empty() },
            Err(words) => Saved { name: self.name@, auth: None, fault: words@ },
        }
    }
}

pub open spec fn saved_views(list: Seq<Profile>) -> Seq<Saved> {
    list.map_values(|p: Profile| p@)
}

/// The credentials in use.
#[derive(Debug)]
pub enum Active {
    Missing,
    /// They cannot be read; why, in words.
    Unreadable(String),
    Known(Json),
}

pub open spec fn known(a: Active) -> Option<Tree> {
    match a {
        Active::Known(j) => Some(j@),
        _ => None,
    }
}

/// What is saved, and what is in use.
#[derive(Debug)]
pub struct Store {
    /// In the order of their names.
    pub profiles: Vec<Profile>,
    pub active: Active,
    pub capacity: usize,
}

/// Whether an account is that of some credentials.
pub open spec fn holds(p: Saved, auth: Tree) -> bool {
    p.auth matches Some(a) && same_account(a, auth)
}

/// The position of the first account that is that of some credentials.
pub open spec fn account_position(list: Seq<Saved>, auth: Tree) -> Option<int>
    decreases list.len(),
{
    if list.len() == 0 {
        None
    } else {
        match account_position(list.drop_last(), auth) {
            Some(i) => Some(i),
            None => if holds(list.last(), auth) {
                Some(list.len() - 1)
            } else {
                None
            },
        }
    }
}

/// The position of an account by its name.
pub open spec fn name_position(list: Seq<Saved>, name: Seq<char>) -> Option<int>
    decreases list.len(),
{
    if list.len() == 0 {
        None
    } else {
        match name_position(list.drop_last(), name) {
            Some(i) => Some(i),
            None => if list.last().name == name {
                Some(list.len() - 1)
            } else {
                None
            },
        }
    }
}

/// Why an account cannot be added.
pub open spec fn add_refusal(list: Seq<Saved>, name: Seq<char>, auth: Tree) -> Option<
    StoreError<Seq<char>>,
> {
    if !is_profile_name(name) {
        Some(StoreError::BadName)
    } else if auth_verdict(auth) is Err {
        Some(auth_verdict(auth)->Err_0)
    } else if list.len() >= MAX_PROFILES {
        Some(StoreError::TooMany)
    } else if account_position(list, auth) is Some {
        Some(StoreError::AlreadySaved)
    } else if name_position(list, name) is Some {
        Some(StoreError::NameTaken)
    } else {
        None
    }
}

pub open spec fn store_verdict(e: Option<StoreError<Seq<char>>>) -> Result<
    (),
    StoreError<Seq<char>>,
> {
    match e {
        Some(e) => Err(e),
        None => Ok(()),
    }
}

/// What is done with fresh credentials.
#[derive(Debug)]
pub struct LoginPlan {
    /// The name under which they are saved.
    pub profile: String,
    /// Whether they take the place of others of the same account.
    pub updated: bool,
    /// Whether they are those of the account in use, which has to be updated too.
    pub active: bool,
}

pub open spec fn is_in_use(active: Active, auth: Tree) -> bool {
    known(active) matches Some(a) && same_account(a, auth)
}

/// Why fresh credentials are refused.
pub open spec fn login_refusal(list: Seq<Saved>, name: Seq<char>, auth: Tree) -> Option<
    StoreError<Seq<char>>,
> {
    if !is_profile_name(name) {
        Some(StoreError::BadName)
    } else if auth_verdict(auth) is Err {
        Some(auth_verdict(auth)->Err_0)
    } else if account_position(list, auth) is Some {
        None
    } else {
        add_refusal(list, name, auth)
    }
}

/// Whether this is what is done with fresh credentials: those of a saved account keep its name.
pub open spec fn is_login_plan(
    plan: LoginPlan,
    list: Seq<Saved>,
    active: Active,
    name: Seq<char>,
    auth: Tree,
) -> bool {
    let at = account_position(list, auth);
    &&& plan.updated == (at is Some)
    &&& plan.profile@ == (match at {
        Some(i) => list[i].name,
        None => name,
    })
    &&& plan.active == is_in_use(active, auth)
}

/// Why an account cannot be deleted.
pub open spec fn delete_refusal(list: Seq<Saved>, active: Active, name: Seq<char>) -> Option<
    StoreError<Seq<char>>,
> {
    if !is_profile_name(name) {
        Some(StoreError::BadProfileName)
    } else if name_position(list, name) is None {
        Some(StoreError::Missing)
    } else if list[name_position(list, name)->0].auth matches Some(auth) && is_in_use(
        active,
        auth,
    ) {
        Some(StoreError::InUse)
    } else {
        None
    }
}

/// How an account is put to use.
#[derive(Debug)]
pub enum Switch {
    /// It is in use already.
    Nothing,
    /// Its credentials are written.
    Write(Json),
    /// The credentials in use are kept with the account of this name, then the new ones are
    /// written.
    KeepAndWrite(String, Json, Json),
    /// The credentials in use are saved as a new account of this name, then the new ones are
    /// written.
    AddAndWrite(String, Json, Json),
}

/// The model of a `Switch`.
pub enum Move {
    Nothing,
    Write(Tree),
    KeepAndWrite(Seq<char>, Tree, Tree),
    AddAndWrite(Seq<char>, Tree, Tree),
}

impl View for Switch {
    type V = Move;

    open spec fn view(&self) -> Move {
        match *self {
            Switch::Nothing => Move::Nothing,
            Switch::Write(j) => Move::Write(j@),
            Switch::KeepAndWrite(name, old, next) => Move::KeepAndWrite(name@, old@, next@),
            Switch::AddAndWrite(name, old, next) => Move::AddAndWrite(name@, old@, next@),
        }
    }
}

/// The name under which credentials that were never saved are kept.
pub open spec fn backup_name(auth: Tree) -> Seq<char> {
    "saved-"@ + digest::digest_of(seq![encode_utf8(identity_of(auth))]).take(12)
}

/// How an account is put to use, or why it cannot be. Credentials in use are kept, with any
/// tokens that were refreshed, before others take their place.
pub open spec fn switch_to(list: Seq<Saved>, active: Active, name: Seq<char>) -> Result<
    Move,
    StoreError<Seq<char>>,
> {
    if !is_profile_name(name) {
        Err(StoreError::BadProfileName)
    } else {
        match name_position(list, name) {
            None => Err(StoreError::Missing),
            Some(i) => match list[i].auth {
                None => Err(StoreError::Unreadable(list[i].fault)),
                Some(next) => match active {
                    Active::Missing => Ok(Move::Write(next)),
                    Active::Unreadable(words) => Err(StoreError::Unreadable(words@)),
                    Active::Known(old) => if same_account(next, old@) {
                        Ok(Move::Nothing)
                    } else {
                        match account_position(list, old@) {
                            Some(k) => Ok(Move::KeepAndWrite(list[k].name, old@, next)),
                            None => match add_refusal(list, backup_name(old@), old@) {
                                Some(e) => Err(e),
                                None => Ok(Move::AddAndWrite(backup_name(old@), old@, next)),
                            },
                        }
                    },
                },
            },
        }
    }
}

pub open spec fn switch_view(r: Result<Switch, StoreError<String>>) -> Result<
    Move,
    StoreError<Seq<char>>,
> {
    match r {
        Ok(s) => Ok(s@),
        Err(e) => Err(e@),
    }
}

/// Whether a tree describes an account.
pub open spec fn describes(t: Tree, p: Saved, active: Option<Tree>) -> bool {
    exists|account: Tree|
        {
            &&& #[trigger] is_label(account, p.auth)
            &&& t == Tree::Object(
                Map::empty().insert("name"@, Tree::Text(p.name)).insert("account"@, account).insert(
                    "active"@,
                    Tree::Bool(active matches Some(a) && holds(p, a)),
                ).insert("valid"@, Tree::Bool(p.auth is Some)),
            )
        }
}

/// Whether a tree is the label of some credentials, or null where there are none.
pub open spec fn is_label(t: Tree, auth: Option<Tree>) -> bool {
    match auth {
        Some(auth) => t matches Tree::Text(mask) && is_mask(labelled(auth), mask),
        None => t is Null,
    }
}

/// Whether a tree lists the accounts.
pub open spec fn lists(t: Tree, list: Seq<Saved>, active: Option<Tree>) -> bool {
    exists|rows: Seq<Tree>, current: Tree|
        {
            &&& rows.len() == list.len()
            &&& forall|i: int| 0 <= i < list.len() ==> describes(#[trigger] rows[i], list[i], active)
            &&& is_label(current, active)
            &&& #[trigger] listing(rows, current) == t
        }
}

pub open spec fn listing(rows: Seq<Tree>, current: Tree) -> Tree {
    Tree::Object(
        Map::empty().insert("profiles"@, Tree::Array(rows)).insert("current"@, current),
    )
}

/// The number that bytes hold, if they hold one of the machine's size.
pub open spec fn count_in(bytes: Seq<u8>) -> Option<usize> {
    match json::json_document(bytes) {
        Some(tree) => match tree.number() {
            Some(n) => if n <= usize::MAX {
                Some(n as usize)
            } else {
                None
            },
            None => None,
        },
        None => None,
    }
}

/// What `serde_json::from_slice::<usize>` says of bytes that hold no such number.
pub uninterp spec fn count_fault_text(bytes: Seq<u8>) -> Seq<char>;

/// `serde_json::from_slice::<usize>`: the number, or the words of the error where the bytes hold
/// none of the machine's size. What is read, or said, depends on the bytes alone.
#[verifier::external_body]
fn read_count(bytes: &[u8]) -> (r: Result<usize, String>)
    ensures
        r is Ok <==> count_in(bytes@) is Some,
        r matches Ok(n) ==> count_in(bytes@) == Some(n),
        r matches Err(words) ==> words@ == count_fault_text(bytes@),
{
    serde_json::from_slice::<usize>(bytes).map_err(|e| e.to_string())
}

pub open spec fn limit_view(r: Result<usize, StoreError<String>>) -> Result<
    usize,
    StoreError<Seq<char>>,
> {
    match r {
        Ok(n) => Ok(n),
        Err(e) => Err(e@),
    }
}

/// The saved limit, where there is one, or another.
pub open spec fn limit_of(bytes: Option<Seq<u8>>, fallback: usize, capacity: usize) -> Result<
    usize,
    StoreError<Seq<char>>,
> {
    match bytes {
        None => Ok(fallback),
        Some(bytes) => match count_in(bytes) {
            Some(n) => if 1 <= n <= capacity {
                Ok(n)
            } else {
                Err(StoreError::LimitRange)
            },
            None => Err(StoreError::Unreadable(count_fault_text(bytes))),
        },
    }
}

impl Store {
    pub open spec fn list_view(&self) -> Seq<Saved> {
        saved_views(self.profiles@)
    }

    pub fn new(profiles: Vec<Profile>, active: Active, capacity: usize) -> (r: Store)
        ensures
            r.profiles == profiles,
            r.active == active,
            r.capacity == (if capacity < MAX_CAPACITY {
                capacity
            } else {
                MAX_CAPACITY
            }),
    {
        Store {
            profiles,
            active,
            capacity: if capacity < MAX_CAPACITY {
                capacity
            } else {
                MAX_CAPACITY
            },
        }
    }

    fn find_account(&self, auth: &Json) -> (r: Option<usize>)
        ensures
            r is Some <==> account_position(self.list_view(), auth@) is Some,
            r matches Some(i) ==> i < self.profiles@.len() && account_position(
                self.list_view(),
                auth@,
            ) == Some(i as int),
    {
        let ghost all = self.list_view();
        let mut found: Option<usize> = None;
        let mut i: usize = 0;
        assert(all.take(0) =~= Seq::empty());
        while i < self.profiles.len()
            invariant
                i <= self.profiles@.len(),
                all == self.list_view(),
                found is Some <==> account_position(all.take(i as int), auth@) is Some,
                found matches Some(k) ==> k < i && account_position(all.take(i as int), auth@)
                    == Some(k as int),
            decreases self.profiles@.len() - i,
        {
            assert(all.take(i + 1).drop_last() == all.take(i as int));
            assert(all.take(i + 1).last() == self.profiles@[i as int]@);
            if found.is_none() {
                if let Ok(saved) = &self.profiles[i].auth {
                    if are_same(saved, auth) {
                        found = Some(i);
                    }
                }
            }
            i += 1;
        }
        assert(all.take(all.len() as int) == all);
        found
    }

    fn find_name(&self, name: &str) -> (r: Option<usize>)
        ensures
            r is Some <==> name_position(self.list_view(), name@) is Some,
            r matches Some(i) ==> i < self.profiles@.len() && name_position(
                self.list_view(),
                name@,
            ) == Some(i as int),
    {
        let ghost all = self.list_view();
        let mut found: Option<usize> = None;
        let mut i: usize = 0;
        assert(all.take(0) =~= Seq::empty());
        while i < self.profiles.len()
            invariant
                i <= self.profiles@.len(),
                all == self.list_view(),
                found is Some <==> name_position(all.take(i as int), name@) is Some,
                found matches Some(k) ==> k < i && name_position(all.take(i as int), name@) == Some(
                    k as int,
                ),
            decreases self.profiles@.len() - i,
        {
            assert(all.take(i + 1).drop_last() == all.take(i as int));
            assert(all.take(i + 1).last() == self.profiles@[i as int]@);
            if found.is_none() && same(&self.profiles[i].name, name) {
                found = Some(i);
            }
            i += 1;
        }
        assert(all.take(all.len() as int) == all);
        found
    }

    /// Whether an account may be added.
    pub fn add(&self, name: &str, value: &Json) -> (r: Result<(), StoreError<String>>)
        ensures
            verdict_view(r) == store_verdict(add_refusal(self.list_view(), name@, value@)),
    {
        if !valid_name(name) {
            return Err(StoreError::BadName);
        }
        if let Err(e) = validate_auth(value) {
            return Err(e);
        }
        if self.profiles.len() >= MAX_PROFILES {
            return Err(StoreError::TooMany);
        }
        if self.find_account(value).is_some() {
            return Err(StoreError::AlreadySaved);
        }
        if self.find_name(name).is_some() {
            return Err(StoreError::NameTaken);
        }
        Ok(())
    }

    fn in_use(&self, auth: &Json) -> (r: bool)
        ensures
            r == is_in_use(self.active, auth@),
    {
        match &self.active {
            Active::Known(active) => are_same(active, auth),
            _ => false,
        }
    }

    /// What is done with fresh credentials: those of a saved account keep its name.
    pub fn save_login(&self, name: &str, value: &Json) -> (r: Result<LoginPlan, StoreError<String>>)
        ensures
            match login_refusal(self.list_view(), name@, value@) {
                Some(e) => r matches Err(f) && f@ == e,
                None => r matches Ok(plan) && is_login_plan(
                    plan,
                    self.list_view(),
                    self.active,
                    name@,
                    value@,
                ),
            },
    {
        if !valid_name(name) {
            return Err(StoreError::BadName);
        }
        if let Err(e) = validate_auth(value) {
            return Err(e);
        }
        let active = self.in_use(value);
        match self.find_account(value) {
            Some(i) => {
                assert(self.list_view()[i as int] == self.profiles@[i as int]@);
                Ok(LoginPlan { profile: self.profiles[i].name.clone(), updated: true, active })
            },
            None => match self.add(name, value) {
                Err(e) => Err(e),
                Ok(()) => Ok(LoginPlan { profile: name.to_owned(), updated: false, active }),
            },
        }
    }

    /// Whether an account may be deleted.
    pub fn delete(&self, name: &str) -> (r: Result<(), StoreError<String>>)
        ensures
            verdict_view(r) == store_verdict(delete_refusal(self.list_view(), self.active, name@)),
    {
        if !valid_name(name) {
            return Err(StoreError::BadProfileName);
        }
        match self.find_name(name) {
            None => Err(StoreError::Missing),
            Some(i) => {
                assert(self.list_view()[i as int] == self.profiles@[i as int]@);
                if let Ok(auth) = &self.profiles[i].auth {
                    if self.in_use(auth) {
                        return Err(StoreError::InUse);
                    }
                }
                Ok(())
            },
        }
    }

    /// How an account is put to use.
    pub fn activate(&self, name: &str) -> (r: Result<Switch, StoreError<String>>)
        ensures
            switch_view(r) == switch_to(self.list_view(), self.active, name@),
    {
        if !valid_name(name) {
            return Err(StoreError::BadProfileName);
        }
        let at: usize = match self.find_name(name) {
            None => return Err(StoreError::Missing),
            Some(i) => i,
        };
        assert(self.list_view()[at as int] == self.profiles@[at as int]@);
        let next = match &self.profiles[at].auth {
            Err(words) => return Err(StoreError::Unreadable(words.clone())),
            Ok(next) => next,
        };
        let old = match &self.active {
            Active::Missing => return Ok(Switch::Write(next.copy())),
            Active::Unreadable(words) => return Err(StoreError::Unreadable(words.clone())),
            Active::Known(old) => old,
        };
        if are_same(next, old) {
            return Ok(Switch::Nothing);
        }
        match self.find_account(old) {
            Some(k) => {
                assert(self.list_view()[k as int] == self.profiles@[k as int]@);
                Ok(
                    Switch::KeepAndWrite(self.profiles[k].name.clone(), old.copy(), next.copy()),
                )
            },
            None => {
                let name = backup(old);
                match self.add(&name, old) {
                    Err(e) => Err(e),
                    Ok(()) => Ok(Switch::AddAndWrite(name, old.copy(), next.copy())),
                }
            },
        }
    }

    /// The list of accounts as it is shown.
    pub fn list(&self) -> (r: Json)
        ensures
            lists(r@, self.list_view(), known(self.active)),
    {
        let ghost all = self.list_view();
        let ghost active = known(self.active);
        let mut rows: Vec<Json> = Vec::new();
        let mut i: usize = 0;
        while i < self.profiles.len()
            invariant
                i <= self.profiles@.len(),
                all == self.list_view(),
                active == known(self.active),
                json::trees_of(rows@).len() == i,
                forall|k: int|
                    0 <= k < i ==> describes(#[trigger] json::trees_of(rows@)[k], all[k], active),
            decreases self.profiles@.len() - i,
        {
            let profile = &self.profiles[i];
            assert(all[i as int] == profile@);
            let (account, used) = match &profile.auth {
                Ok(auth) => (Json::Text(login_label(auth)), self.in_use(auth)),
                Err(_) => (Json::Null, false),
            };
            proof {
                assert(is_label(account@, profile@.auth));
                if let Some(a) = active {
                    if let Some(b) = profile@.auth {
                        assert(same_account(a, b) == same_account(b, a));
                    }
                }
            }
            let mut row = Json::object();
            row.set("name".to_owned(), Json::Text(profile.name.clone()));
            row.set("account".to_owned(), account);
            row.set("active".to_owned(), Json::Bool(used));
            row.set("valid".to_owned(), Json::Bool(profile.auth.is_ok()));
            assert(describes(row@, all[i as int], active));
            push_json(&mut rows, row);
            i += 1;
        }
        let current = match &self.active {
            Active::Known(auth) => Json::Text(login_label(auth)),
            _ => Json::Null,
        };
        let mut r = Json::object();
        r.set("profiles".to_owned(), Json::Array(rows));
        r.set("current".to_owned(), current);
        assert(listing(json::trees_of(rows@), current@) == r@);
        r
    }

    /// The saved limit of requests that run at once, or another where none is saved.
    pub fn limit(&self, saved: Option<&[u8]>, fallback: usize) -> (r: Result<
        usize,
        StoreError<String>,
    >)
        ensures
            limit_view(r) == limit_of(
                match saved {
                    Some(bytes) => Some(bytes@),
                    None => None,
                },
                fallback,
                self.capacity,
            ),
    {
        match saved {
            None => Ok(fallback),
            Some(bytes) => match read_count(bytes) {
                Ok(n) => if 1 <= n && n <= self.capacity {
                    Ok(n)
                } else {
                    Err(StoreError::LimitRange)
                },
                Err(words) => Err(StoreError::Unreadable(words)),
            },
        }
    }
}

pub open spec fn entry_views(list: Seq<(String, bool)>) -> Seq<(Seq<char>, bool)> {
    list.map_values(|e: (String, bool)| (e.0@, e.1))
}

/// The names of the directories, among the entries of one, that can hold an account.
pub open spec fn profile_names(entries: Seq<(Seq<char>, bool)>) -> Seq<Seq<char>>
    decreases entries.len(),
{
    if entries.len() == 0 {
        Seq::empty()
    } else {
        let rest = profile_names(entries.drop_last());
        if entries.last().1 && is_profile_name(entries.last().0) {
            rest.push(entries.last().0)
        } else {
            rest
        }
    }
}

proof fn lemma_profile_names_grow(entries: Seq<(Seq<char>, bool)>, n: int)
    requires
        0 <= n <= entries.len(),
    ensures
        profile_names(entries.take(n)).len() <= profile_names(entries).len(),
    decreases entries.len(),
{
    if n < entries.len() {
        lemma_profile_names_grow(entries.drop_last(), n);
        assert(entries.drop_last().take(n) == entries.take(n));
    } else {
        assert(entries.take(n) == entries);
    }
}

/// The names of the saved accounts, in order, from the entries of their directory and whether
/// each is a directory itself.
pub fn names(entries: &Vec<(String, bool)>) -> (r: Result<Vec<String>, StoreError<String>>)
    ensures
        profile_names(entry_views(entries@)).len() > MAX_PROFILES ==> r == Err::<
            Vec<String>,
            StoreError<String>,
        >(StoreError::TooMany),
        profile_names(entry_views(entries@)).len() <= MAX_PROFILES ==> (r matches Ok(list)
            && text::is_sorted(text::texts(list@)) && text::texts(list@).to_multiset()
            == profile_names(entry_views(entries@)).to_multiset()),
{
    let ghost all = entry_views(entries@);
    let mut out: Vec<String> = Vec::new();
    let mut i: usize = 0;
    assert(all.take(0) =~= Seq::empty());
    assert(text::texts(out@) =~= Seq::empty());
    while i < entries.len()
        invariant
            i <= entries@.len(),
            all == entry_views(entries@),
            out@.len() <= MAX_PROFILES,
            text::texts(out@) == profile_names(all.take(i as int)),
        decreases entries@.len() - i,
    {
        assert(all.take(i + 1).drop_last() == all.take(i as int));
        assert(all.take(i + 1).last() == (entries@[i as int].0@, entries@[i as int].1));
        if entries[i].1 && valid_name(&entries[i].0) {
            let ghost before = text::texts(out@);
            out.push(entries[i].0.clone());
            assert(text::texts(out@) =~= before.push(all[i as int].0));
            if out.len() > MAX_PROFILES {
                proof {
                    lemma_profile_names_grow(all, i + 1);
                }
                return Err(StoreError::TooMany);
            }
        }
        i += 1;
    }
    assert(all.take(all.len() as int) == all);
    Ok(sort(out))
}

/// The name under which credentials that were never saved are kept.
fn backup(auth: &Json) -> (r: String)
    ensures
        r@ == backup_name(auth@),
{
    let id = identity(auth);
    let parts = [id.as_str().as_bytes()];
    let hash = digest(&parts);
    assert(parts@.map_values(|p: &[u8]| p@) =~= seq![encode_utf8(identity_of(auth@))]);
    let chars = chars_of(&hash);
    let short = text_of(&chars, 0, 12);
    assert(short@ =~= hash@.take(12));
    join2("saved-", &short)
}

/// A change of accounts loses no credentials: those in use are kept with an account first,
/// unless that very account is in use already or nothing was.
pub proof fn law_switch_keeps_credentials(list: Seq<Saved>, active: Active, name: Seq<char>)
    requires
        switch_to(list, active, name) is Ok,
        known(active) is Some,
    ensures
        match switch_to(list, active, name)->Ok_0 {
            Move::Nothing => is_in_use(active, list[name_position(list, name)->0].auth->0),
            Move::Write(_) => false,
            Move::KeepAndWrite(kept, old, _) => old == known(active)->0 && exists|k: int|
                0 <= k < list.len() && (#[trigger] list[k]).name == kept && holds(list[k], old),
            Move::AddAndWrite(added, old, _) => old == known(active)->0 && add_refusal(
                list,
                added,
                old,
            ) is None,
        },
{
    let old = known(active)->0;
    lemma_account_position(list, old);
    lemma_name_position(list, name);
}

proof fn lemma_account_position(list: Seq<Saved>, auth: Tree)
    ensures
        account_position(list, auth) matches Some(i) ==> 0 <= i < list.len() && holds(
            list[i],
            auth,
        ),
        account_position(list, auth) is None ==> forall|i: int|
            0 <= i < list.len() ==> !holds(#[trigger] list[i], auth),
    decreases list.len(),
{
    if list.len() > 0 {
        let front = list.drop_last();
        lemma_account_position(front, auth);
        if account_position(list, auth) is None {
            assert forall|i: int| 0 <= i < list.len() implies !holds(#[trigger] list[i], auth) by {
                if i < front.len() {
                    assert(front[i] == list[i]);
                }
            }
        }
    }
}

proof fn lemma_name_position(list: Seq<Saved>, name: Seq<char>)
    ensures
        name_position(list, name) matches Some(i) ==> 0 <= i < list.len() && list[i].name == name,
        name_position(list, name) is None ==> forall|i: int|
            0 <= i < list.len() ==> (#[trigger] list[i]).name != name,
    decreases list.len(),
{
    if list.len() > 0 {
        let front = list.drop_last();
        lemma_name_position(front, name);
        if name_position(list, name) is None {
            assert forall|i: int| 0 <= i < list.len() implies (#[trigger] list[i]).name != name by {
                if i < front.len() {
                    assert(front[i] == list[i]);
                }
            }
        }
    }
}

/// The account in use is never deleted.
pub proof fn law_account_in_use_is_kept(list: Seq<Saved>, active: Active, name: Seq<char>)
    requires
        delete_refusal(list, active, name) is None,
    ensures
        name_position(list, name) matches Some(i) && (list[i].auth matches Some(auth) ==> !is_in_use(
            active,
            auth,
        )),
{
}

/// No account is saved twice, no name is given twice, and no more are saved than may.
pub proof fn law_accounts_are_distinct(list: Seq<Saved>, name: Seq<char>, auth: Tree)
    requires
        add_refusal(list, name, auth) is None,
        list.len() <= MAX_PROFILES,
    ensures
        list.push(Saved { name, auth: Some(auth), fault: Seq::empty() }).len() <= MAX_PROFILES,
        forall|i: int|
            0 <= i < list.len() ==> !holds(#[trigger] list[i], auth) && list[i].name != name,
{
    lemma_account_position(list, auth);
    lemma_name_position(list, name);
}

/// Only a short tail of an identifier that is no address is ever shown, and nothing of a short
/// one.
pub proof fn law_identifiers_are_hidden(account: Seq<char>, mask: Seq<char>)
    requires
        is_mask(account, mask),
        !account.contains('@'),
    ensures
        mask.len() <= "account-***"@.len() + 4,
        text::byte_length(account) < 8 ==> mask == "account-***"@,
{
    if text::byte_length(account) >= 8 {
        assert(shown_suffix(account).len() <= 4);
    } else {
        assert("account-***"@ + Seq::<char>::empty() =~= "account-***"@);
    }
}

/// An account is named by 1 to 64 of the letters from a to z in either case, the digits, the
/// hyphen and the underscore.
pub proof fn law_what_names_an_account(s: Seq<char>)
    ensures
        is_profile_name(s) <==> 1 <= s.len() <= 64 && forall|i: int|
            0 <= i < s.len() ==> {
                let c = #[trigger] s[i];
                'a' <= c <= 'z' || 'A' <= c <= 'Z' || '0' <= c <= '9' || c == '-' || c == '_'
            },
{
    assert(forall|i: int|
        0 <= i < s.len() ==> (text::is_alphanumeric(#[trigger] s[i]) <==> 'a' <= s[i] <= 'z'
            || 'A' <= s[i] <= 'Z' || '0' <= s[i] <= '9'));
}

/// Accounts are told apart by the identifier in their tokens or, where there is none, by their
/// key; nothing else in the credentials counts.
pub proof fn law_what_tells_accounts_apart(auth: Tree, other: Tree)
    ensures
        ({
            let id = auth.at("tokens"@).at("account_id"@);
            let key = auth.at("OPENAI_API_KEY"@);
            let has_id = auth.at("tokens"@) matches Tree::Object(m) && m.contains_key(
                "account_id"@,
            );
            &&& has_id && id is Text ==> identity_of(auth) == id->Text_0
            &&& has_id && !(id is Text) ==> identity_of(auth).len() == 0
            &&& !has_id && key is Text ==> identity_of(auth) == key->Text_0
            &&& !has_id && !(key is Text) ==> identity_of(auth).len() == 0
        }),
        auth.at("tokens"@).field("account_id"@) == other.at("tokens"@).field("account_id"@)
            && auth.at("OPENAI_API_KEY"@) == other.at("OPENAI_API_KEY"@) ==> same_account(
            auth,
            other,
        ),
        same_account(auth, other) <==> identity_of(auth) == identity_of(other),
{
}

/// Taking off the padding leaves what stands before it, up to the last character that is no
/// equals sign.
pub proof fn law_padding_is_taken_off(s: Seq<char>, n: nat)
    requires
        s.len() > 0 ==> s.last() != '=',
    ensures
        unpadded(s + Seq::new(n, |i: int| '=')) == s,
    decreases n,
{
    let padded = s + Seq::new(n, |i: int| '=');
    if n == 0 {
        assert(padded =~= s);
    } else {
        let less = s + Seq::new((n - 1) as nat, |i: int| '=');
        law_padding_is_taken_off(s, (n - 1) as nat);
        assert(padded.drop_last() =~= less);
        assert(padded.last() == '=');
    }
}

/// The payload of a token is the part after its first dot and before its second, without padding;
/// a token without a dot has none.
pub proof fn law_payload_of_a_token(a: Seq<char>, b: Seq<char>, c: Seq<char>)
    requires
        !a.contains('.'),
        !b.contains('.'),
    ensures
        token_payload(a) is None,
        token_payload(a + seq!['.'] + b) == Some(unpadded(b)),
        token_payload(a + seq!['.'] + (b + seq!['.'] + c)) == Some(unpadded(b)),
{
    let dot = '.';
    text::law_pieces(a, dot, b);
    text::law_pieces(a, dot, b + seq![dot] + c);
    text::law_pieces(b, dot, c);
    let two = text::pieces(a + seq![dot] + b, dot);
    assert(two[1] == b);
    let three = text::pieces(a + seq![dot] + (b + seq![dot] + c), dot);
    assert(three[1] == b);
}

/// An account is shown by the address in its identity token, where that is one, and otherwise by
/// what tells it apart.
pub proof fn law_what_an_account_is_shown_by(auth: Tree, claims: Tree, payload: Seq<char>)
    ensures
        email_in(auth) is None ==> labelled(auth) == identity_of(auth),
        email_in(auth) matches Some(email) ==> labelled(auth) == email,
        claimed_email(claims) matches Some(email) ==> claims.at("email"@) == Tree::Text(email)
            && exists|i: int| 0 <= i < email.len() && email[i] == '@',
        claims.at("email"@) is Text && claims.at("email"@)->Text_0.contains('@') ==> claimed_email(
            claims,
        ) == Some(claims.at("email"@)->Text_0),
        auth.at("tokens"@).at("id_token"@) is Text && token_payload(
            auth.at("tokens"@).at("id_token"@)->Text_0,
        ) == Some(payload) && base64url(payload) is Some && json::json_document(
            base64url(payload)->0,
        ) == Some(claims) ==> email_in(auth) == claimed_email(claims),
        !(auth.at("tokens"@).at("id_token"@) is Text) ==> email_in(auth) is None,
{
}

/// An address is shown with its first character and what follows its first at sign; of any other
/// identifier of 8 bytes or more the last four characters are shown, and of a shorter one none.
pub proof fn law_what_a_mask_shows(
    account: Seq<char>,
    mask: Seq<char>,
    local: Seq<char>,
    domain: Seq<char>,
)
    requires
        is_mask(account, mask),
    ensures
        account == local + seq!['@'] + domain && !local.contains('@') && local.len() > 0 ==> mask
            == seq![local[0]] + "***@"@ + domain,
        account == local + seq!['@'] + domain && local.len() == 0 ==> mask == seq!['*'] + "***@"@
            + domain,
        !account.contains('@') && text::byte_length(account) >= 8 && account.len() >= 4 ==> mask
            == "account-***"@ + account.subrange(account.len() - 4, account.len() as int),
        !account.contains('@') && text::byte_length(account) < 8 ==> mask == "account-***"@,
{
    if account == local + seq!['@'] + domain && !local.contains('@') {
        assert(account[local.len() as int] == '@');
        assert(account.contains('@'));
        let (l, d) = choose|l: Seq<char>, d: Seq<char>|
            {
                &&& account == #[trigger] (l + seq!['@'] + d)
                &&& !l.contains('@')
                &&& mask == seq![
                    if l.len() > 0 {
                        l[0]
                    } else {
                        '*'
                    },
                ] + "***@"@ + d
            };
        text::lemma_cut(account, '@', local, domain);
        text::lemma_cut(account, '@', l, d);
    } else if !account.contains('@') {
        if text::byte_length(account) < 8 {
            assert("account-***"@ + Seq::<char>::empty() =~= "account-***"@);
        } else if account.len() == 4 {
            assert(account.subrange(0, 4) =~= account);
        } else if account.len() > 4 {
            assert(account.skip(account.len() - 4) =~= account.subrange(
                account.len() - 4,
                account.len() as int,
            ));
        }
    }
}

/// A text with a character that is no white space.
pub open spec fn says_something(t: Tree) -> bool {
    t matches Tree::Text(s) && exists|i: int| 0 <= i < s.len() && !text::is_white(#[trigger] s[i])
}

proof fn lemma_says_something(t: Tree)
    ensures
        says_something(t) <==> is_filled(t.text()),
{
    if let Tree::Text(s) = t {
        let cuts = text::law_trimming(s);
        if text::trimmed(s).len() > 0 {
            assert(text::trimmed(s)[0] == s[cuts.0]);
            assert(!text::is_white(s[cuts.0]));
        }
    }
}

/// Credentials are complete with a key, or with an account and all three tokens, none of them
/// blank; and they are taken up to 64 kibibytes.
pub proof fn law_when_credentials_are_taken(auth: Tree)
    ensures
        ({
            let tokens = auth.at("tokens"@);
            let complete = auth is Object && (says_something(auth.at("OPENAI_API_KEY"@)) || (
            says_something(tokens.at("account_id"@)) && says_something(tokens.at("access_token"@))
                && says_something(tokens.at("refresh_token"@)) && says_something(
                tokens.at("id_token"@),
            )));
            let small = json::json_text(auth).len() <= 65_536;
            &&& auth_verdict(auth) is Ok <==> complete && small
            &&& auth_verdict(auth) == Err::<(), _>(StoreError::<Seq<char>>::Incomplete)
                <==> !complete
            &&& auth_verdict(auth) == Err::<(), _>(StoreError::<Seq<char>>::TooLarge)
                <==> complete && !small
        }),
{
    let tokens = auth.at("tokens"@);
    lemma_says_something(auth.at("OPENAI_API_KEY"@));
    lemma_says_something(tokens.at("account_id"@));
    lemma_says_something(tokens.at("access_token"@));
    lemma_says_something(tokens.at("refresh_token"@));
    lemma_says_something(tokens.at("id_token"@));
}

/// What a file holds is taken as credentials exactly where it is not too large, a document, and
/// such credentials; they are then what the document says.
pub proof fn law_when_a_file_is_taken(bytes: Seq<u8>)
    ensures
        auth_in(bytes) is Ok <==> bytes.len() <= 65_536 && json::json_document(bytes) is Some
            && auth_verdict(json::json_document(bytes)->0) is Ok,
        auth_in(bytes) matches Ok(auth) ==> json::json_document(bytes) == Some(auth),
        bytes.len() > 65_536 ==> auth_in(bytes) == Err::<Tree, _>(
            StoreError::<Seq<char>>::Malformed,
        ),
{
}

/// An account of some credentials is in a list.
pub open spec fn is_saved(list: Seq<Saved>, auth: Tree) -> bool {
    exists|i: int|
        0 <= i < list.len() && (#[trigger] list[i]).auth is Some && identity_of(list[i].auth->0)
            == identity_of(auth)
}

/// An account of some name is in a list.
pub open spec fn is_taken(list: Seq<Saved>, name: Seq<char>) -> bool {
    exists|i: int| 0 <= i < list.len() && (#[trigger] list[i]).name == name
}

proof fn lemma_saved_and_taken(list: Seq<Saved>, name: Seq<char>, auth: Tree)
    ensures
        is_saved(list, auth) <==> account_position(list, auth) is Some,
        is_taken(list, name) <==> name_position(list, name) is Some,
{
    lemma_account_position(list, auth);
    lemma_name_position(list, name);
    if let Some(i) = account_position(list, auth) {
        assert(list[i].auth is Some);
    } else if is_saved(list, auth) {
        let i = choose|i: int|
            0 <= i < list.len() && (#[trigger] list[i]).auth is Some && identity_of(
                list[i].auth->0,
            ) == identity_of(auth);
        assert(holds(list[i], auth));
    }
    if let Some(i) = name_position(list, name) {
        assert(list[i].name == name);
    }
}

/// An account is added where its name can be one, its credentials are taken, fewer than 64 are
/// saved, and neither the account nor the name is there already; the first of these that fails is
/// what is said.
pub proof fn law_when_an_account_is_added(list: Seq<Saved>, name: Seq<char>, auth: Tree)
    ensures
        ({
            let r = add_refusal(list, name, auth);
            let named = is_profile_name(name);
            let good = auth_verdict(auth) is Ok;
            let room = list.len() < 64;
            &&& r == Some(StoreError::<Seq<char>>::BadName) <==> !named
            &&& named && !good ==> r == Some(auth_verdict(auth)->Err_0)
            &&& r == Some(StoreError::<Seq<char>>::TooMany) <==> named && good && !room
            &&& r == Some(StoreError::<Seq<char>>::AlreadySaved) <==> named && good && room
                && is_saved(list, auth)
            &&& r == Some(StoreError::<Seq<char>>::NameTaken) <==> named && good && room
                && !is_saved(list, auth) && is_taken(list, name)
            &&& r is None <==> named && good && room && !is_saved(list, auth) && !is_taken(
                list,
                name,
            )
        }),
{
    lemma_saved_and_taken(list, name, auth);
    law_when_credentials_are_taken(auth);
}

/// Fresh credentials of an account that is saved are taken whatever the name; those of another
/// are taken where the account can be added.
pub proof fn law_when_a_login_is_saved(list: Seq<Saved>, name: Seq<char>, auth: Tree)
    ensures
        is_saved(list, auth) ==> (login_refusal(list, name, auth) is None <==> is_profile_name(name)
            && auth_verdict(auth) is Ok),
        !is_saved(list, auth) ==> login_refusal(list, name, auth) == add_refusal(list, name, auth),
{
    lemma_saved_and_taken(list, name, auth);
}

/// The account at a place is the first of its name.
pub open spec fn is_named_first(list: Seq<Saved>, i: int, name: Seq<char>) -> bool {
    0 <= i < list.len() && list[i].name == name && forall|e: int|
        0 <= e < i ==> (#[trigger] list[e]).name != name
}

proof fn lemma_named_first(list: Seq<Saved>, i: int, name: Seq<char>)
    requires
        is_named_first(list, i, name),
    ensures
        name_position(list, name) == Some(i),
    decreases list.len(),
{
    let front = list.drop_last();
    if i < front.len() {
        assert forall|e: int| 0 <= e < i implies (#[trigger] front[e]).name != name by {
            assert(front[e] == list[e]);
        }
        lemma_named_first(front, i, name);
    } else {
        lemma_name_position(front, name);
        if let Some(e) = name_position(front, name) {
            assert(list[e].name == name);
        }
    }
}

/// An account is deleted where there is one of that name and it is not the one in use; one whose
/// credentials cannot be read is never taken for that.
pub proof fn law_when_an_account_is_deleted(
    list: Seq<Saved>,
    active: Active,
    name: Seq<char>,
    i: int,
)
    ensures
        !is_profile_name(name) <==> delete_refusal(list, active, name) == Some(
            StoreError::<Seq<char>>::BadProfileName,
        ),
        is_profile_name(name) && !is_taken(list, name) <==> delete_refusal(list, active, name)
            == Some(StoreError::<Seq<char>>::Missing),
        is_profile_name(name) && is_named_first(list, i, name) ==> {
            let used = list[i].auth is Some && active is Known && identity_of(list[i].auth->0)
                == identity_of(active->Known_0@);
            &&& used ==> delete_refusal(list, active, name) == Some(StoreError::<Seq<char>>::InUse)
            &&& !used ==> delete_refusal(list, active, name) is None
        },
{
    lemma_saved_and_taken(list, name, Tree::Null);
    if is_named_first(list, i, name) {
        lemma_named_first(list, i, name);
    }
}

/// An account is put to use by writing its credentials, unless it is in use already. Those in use
/// are kept before: with their account where it is saved, and otherwise as a new one.
pub proof fn law_how_an_account_is_put_to_use(
    list: Seq<Saved>,
    active: Active,
    name: Seq<char>,
    i: int,
)
    requires
        is_profile_name(name),
        is_named_first(list, i, name),
        list[i].auth is Some,
    ensures
        ({
            let next = list[i].auth->0;
            let r = switch_to(list, active, name);
            &&& active is Missing ==> r == Ok::<_, StoreError<Seq<char>>>(Move::Write(next))
            &&& active is Unreadable ==> r is Err
            &&& active matches Active::Known(old) ==> {
                &&& r == Ok::<_, StoreError<Seq<char>>>(Move::Nothing) <==> identity_of(next)
                    == identity_of(old@)
                &&& identity_of(next) != identity_of(old@) && is_saved(list, old@) ==> (
                r matches Ok(Move::KeepAndWrite(kept, was, now)) && was == old@ && now == next
                    && exists|k: int|
                    0 <= k < list.len() && (#[trigger] list[k]).name == kept && list[k].auth is Some
                        && identity_of(list[k].auth->0) == identity_of(old@))
                &&& identity_of(next) != identity_of(old@) && !is_saved(list, old@) ==> match r {
                    Ok(m) => m matches Move::AddAndWrite(added, was, now) && was == old@ && now
                        == next && added == "saved-"@ + digest::digest_of(
                        seq![encode_utf8(identity_of(old@))],
                    ).take(12) && add_refusal(list, added, old@) is None,
                    Err(e) => add_refusal(
                        list,
                        "saved-"@ + digest::digest_of(seq![encode_utf8(identity_of(old@))]).take(
                            12,
                        ),
                        old@,
                    ) == Some(e),
                }
            }
        }),
{
    lemma_named_first(list, i, name);
    if let Active::Known(old) = active {
        lemma_saved_and_taken(list, name, old@);
        lemma_account_position(list, old@);
        if let Some(k) = account_position(list, old@) {
            assert(list[k].name == list[k].name);
        }
    }
}

/// Without a name, an account or credentials that can be read, no account is put to use.
pub proof fn law_when_no_account_is_put_to_use(
    list: Seq<Saved>,
    active: Active,
    name: Seq<char>,
    i: int,
)
    ensures
        !is_profile_name(name) ==> switch_to(list, active, name) == Err::<Move, _>(
            StoreError::<Seq<char>>::BadProfileName,
        ),
        is_profile_name(name) && !is_taken(list, name) ==> switch_to(list, active, name) == Err::<
            Move,
            _,
        >(StoreError::<Seq<char>>::Missing),
        is_profile_name(name) && is_named_first(list, i, name) && list[i].auth is None
            ==> switch_to(list, active, name) == Err::<Move, _>(
            StoreError::Unreadable(list[i].fault),
        ),
{
    lemma_saved_and_taken(list, name, Tree::Null);
    if is_named_first(list, i, name) {
        lemma_named_first(list, i, name);
    }
}

/// The list of accounts has a row for each, in their order, with its name, whether it is the one
/// in use and whether its credentials can be read.
pub proof fn law_what_the_list_shows(t: Tree, list: Seq<Saved>, active: Option<Tree>, i: int)
    requires
        lists(t, list, active),
        0 <= i < list.len(),
    ensures
        t.at("profiles"@) matches Tree::Array(rows) && {
            &&& rows.len() == list.len()
            &&& rows[i].at("name"@) == Tree::Text(list[i].name)
            &&& rows[i].at("valid"@) == Tree::Bool(list[i].auth is Some)
            &&& rows[i].at("active"@) == Tree::Bool(
                active is Some && list[i].auth is Some && identity_of(list[i].auth->0)
                    == identity_of(active->0),
            )
            &&& list[i].auth is None ==> rows[i].at("account"@) is Null
            &&& list[i].auth is Some ==> (rows[i].at("account"@) matches Tree::Text(mask) && is_mask(
                labelled(list[i].auth->0),
                mask,
            ))
        },
        active is None ==> t.at("current"@) is Null,
        active is Some ==> (t.at("current"@) matches Tree::Text(mask) && is_mask(
            labelled(active->0),
            mask,
        )),
{
    reveal_strlit("profiles");
    reveal_strlit("current");
    reveal_strlit("name");
    reveal_strlit("account");
    reveal_strlit("active");
    reveal_strlit("valid");
    assert("profiles"@.len() == 8 && "current"@.len() == 7);
    assert("name"@.len() == 4 && "account"@.len() == 7 && "active"@.len() == 6 && "valid"@.len()
        == 5);
    let (rows, current) = choose|rows: Seq<Tree>, current: Tree|
        {
            &&& rows.len() == list.len()
            &&& forall|i: int| 0 <= i < list.len() ==> describes(#[trigger] rows[i], list[i], active)
            &&& is_label(current, active)
            &&& #[trigger] listing(rows, current) == t
        };
    assert(describes(rows[i], list[i], active));
}

/// A saved limit counts where it is a number from 1 to what the machine can take; without one
/// another is used.
pub proof fn law_which_limit_counts(bytes: Seq<u8>, fallback: usize, capacity: usize)
    ensures
        limit_of(None, fallback, capacity) == Ok::<_, StoreError<Seq<char>>>(fallback),
        limit_of(Some(bytes), fallback, capacity) matches Ok(n) ==> 1 <= n <= capacity
            && json::json_document(bytes) is Some && json::json_document(bytes)->0.number() == Some(
            n as u64,
        ),
        json::json_document(bytes) matches Some(t) ==> (t.number() matches Some(n) ==> (1 <= n
            <= capacity ==> limit_of(Some(bytes), fallback, capacity) == Ok::<
            _,
            StoreError<Seq<char>>,
        >(n as usize)) && (n == 0 || capacity < n <= usize::MAX ==> limit_of(
            Some(bytes),
            fallback,
            capacity,
        ) == Err::<usize, _>(StoreError::<Seq<char>>::LimitRange))),
{
}

/// The saved accounts are the directories whose name can be that of one.
pub proof fn law_which_directories_hold_accounts(entries: Seq<(Seq<char>, bool)>, name: Seq<char>)
    ensures
        profile_names(entries).contains(name) <==> is_profile_name(name) && entries.contains(
            (name, true),
        ),
        profile_names(entries).len() <= entries.len(),
    decreases entries.len(),
{
    if entries.len() > 0 {
        let front = entries.drop_last();
        let rest = profile_names(front);
        let all = profile_names(entries);
        let end = entries.len() - 1;
        law_which_directories_hold_accounts(front, name);
        assert(entries[end] == entries.last());
        if rest.contains(name) {
            let i = choose|i: int| 0 <= i < rest.len() && rest[i] == name;
            assert(all[i] == name);
            let k = choose|k: int| 0 <= k < front.len() && front[k] == (name, true);
            assert(entries[k] == (name, true));
        } else {
            if all.contains(name) {
                let i = choose|i: int| 0 <= i < all.len() && all[i] == name;
                assert(i == rest.len());
                assert(entries[end] == (name, true));
            }
            if is_profile_name(name) && entries.contains((name, true)) {
                let k = choose|k: int| 0 <= k < entries.len() && entries[k] == (name, true);
                if k < end {
                    assert(front[k] == (name, true));
                }
                assert(all[rest.len() as int] == name);
            }
        }
    }
}

/// Fresh credentials of an account that is saved take the place of the old ones, under its name;
/// those of another are saved under the name given. The account in use is updated exactly where
/// they are its own.
pub proof fn law_where_a_login_is_saved(
    plan: LoginPlan,
    list: Seq<Saved>,
    active: Active,
    name: Seq<char>,
    auth: Tree,
)
    requires
        is_login_plan(plan, list, active, name, auth),
    ensures
        plan.updated <==> is_saved(list, auth),
        plan.updated ==> exists|i: int|
            0 <= i < list.len() && (#[trigger] list[i]).name == plan.profile@ && list[i].auth
                is Some && identity_of(list[i].auth->0) == identity_of(auth),
        !plan.updated ==> plan.profile@ == name,
        plan.active <==> active is Known && identity_of(active->Known_0@) == identity_of(auth),
{
    lemma_saved_and_taken(list, name, auth);
    lemma_account_position(list, auth);
    if let Some(i) = account_position(list, auth) {
        assert(list[i].name == plan.profile@);
    }
}

} // verus!
