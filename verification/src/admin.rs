//! What an operator asks of the administration.
use crate::json;
use crate::json::parse_json;
use crate::json::Json;
use crate::json::Quantity;
use crate::json::Tree;
use crate::queue_http::Method;
use crate::text;
use crate::text::after_prefix;
use crate::text::join2;
use crate::text::number_text;
use crate::text::parse_number;
use crate::text::same;
use vstd::prelude::*;

verus! {

broadcast use {vstd::seq_lib::group_seq_properties, vstd::map::group_map_axioms};

/// The largest request, in bytes.
pub const MAX_REQUEST: usize = 131_072;

/// Where a request goes.
#[derive(Clone, Copy, Debug, PartialEq, Eq, Structural)]
pub enum AdminRoute {
    /// The page with the accounts.
    Page,
    /// One remembered request, by its number where there is one.
    Detail(Option<u64>),
    Accounts,
    LoginStatus,
    /// A command, which is in the request's body.
    Command,
    Unsupported,
}

pub open spec fn detail_prefix() -> Seq<char> {
    "/admin/api/request?id="@
}

/// Where a request goes.
pub open spec fn route_of(method: Method, url: Seq<char>) -> AdminRoute {
    if method == Method::Get && url == "/admin/accounts"@ {
        AdminRoute::Page
    } else if method == Method::Get && detail_prefix().is_prefix_of(url) {
        AdminRoute::Detail(text::number_of(url.skip(detail_prefix().len() as int)))
    } else if method == Method::Get && url == "/admin/api/accounts"@ {
        AdminRoute::Accounts
    } else if method == Method::Get && url == "/admin/api/login-status"@ {
        AdminRoute::LoginStatus
    } else if method == Method::Post {
        AdminRoute::Command
    } else {
        AdminRoute::Unsupported
    }
}

/// Where a request goes.
pub fn route(method: Method, url: &str) -> (r: AdminRoute)
    ensures
        r == route_of(method, url@),
{
    if method == Method::Post {
        return AdminRoute::Command;
    }
    if method != Method::Get {
        return AdminRoute::Unsupported;
    }
    if same(url, "/admin/accounts") {
        return AdminRoute::Page;
    }
    if let Some(id) = after_prefix(url, "/admin/api/request?id=") {
        assert(id@ =~= url@.skip(detail_prefix().len() as int));
        return AdminRoute::Detail(parse_number(&id));
    }
    if same(url, "/admin/api/accounts") {
        return AdminRoute::Accounts;
    }
    if same(url, "/admin/api/login-status") {
        return AdminRoute::LoginStatus;
    }
    AdminRoute::Unsupported
}

/// What an operator asks for.
#[derive(Debug)]
pub enum AdminCommand {
    /// Credentials are to be saved under a name.
    Add(String, Json),
    Delete(String),
    Switch(String),
    LoginStart(String),
    /// A login is to be completed with the URL that was pasted back.
    LoginCallback(String, String),
    /// So many requests may run at once.
    Concurrency(usize),
}

/// The model of an `AdminCommand`.
pub enum Ask {
    Add(Seq<char>, Tree),
    Delete(Seq<char>),
    Switch(Seq<char>),
    LoginStart(Seq<char>),
    LoginCallback(Seq<char>, Seq<char>),
    Concurrency(usize),
}

impl View for AdminCommand {
    type V = Ask;

    open spec fn view(&self) -> Ask {
        match *self {
            AdminCommand::Add(name, auth) => Ask::Add(name@, auth@),
            AdminCommand::Delete(name) => Ask::Delete(name@),
            AdminCommand::Switch(name) => Ask::Switch(name@),
            AdminCommand::LoginStart(name) => Ask::LoginStart(name@),
            AdminCommand::LoginCallback(name, url) => Ask::LoginCallback(name@, url@),
            AdminCommand::Concurrency(n) => Ask::Concurrency(n),
        }
    }
}

/// Why an operator's request is refused.
#[derive(Clone, Copy, Debug, PartialEq, Eq, Structural)]
pub enum AdminError {
    Unsupported,
    BadNumber,
    Expired,
    TooLarge,
    NotJson,
    NoUrl,
    NotInteger,
    /// The most requests that may run at once.
    Range(usize),
    Unknown,
}

impl AdminError {
    pub open spec fn words(self) -> Seq<char> {
        match self {
            AdminError::Unsupported => "不支持的操作"@,
            AdminError::BadNumber => "无效请求编号"@,
            AdminError::Expired => "请求记录已过期或不存在"@,
            AdminError::TooLarge => "请求过大"@,
            AdminError::NotJson => "请求必须是 JSON"@,
            AdminError::NoUrl => "缺少回调链接"@,
            AdminError::NotInteger => "并发必须为整数"@,
            AdminError::Range(n) => "并发必须介于 1 和 "@ + text::decimal(n as nat),
            AdminError::Unknown => "未知管理接口"@,
        }
    }

    pub fn message(self) -> (r: String)
        ensures
            r@ == self.words(),
    {
        match self {
            AdminError::Unsupported => "不支持的操作".to_owned(),
            AdminError::BadNumber => "无效请求编号".to_owned(),
            AdminError::Expired => "请求记录已过期或不存在".to_owned(),
            AdminError::TooLarge => "请求过大".to_owned(),
            AdminError::NotJson => "请求必须是 JSON".to_owned(),
            AdminError::NoUrl => "缺少回调链接".to_owned(),
            AdminError::NotInteger => "并发必须为整数".to_owned(),
            AdminError::Range(n) => join2("并发必须介于 1 和 ", &number_text(n as u64)),
            AdminError::Unknown => "未知管理接口".to_owned(),
        }
    }
}

pub open spec fn or_empty(s: Option<Seq<char>>) -> Seq<char> {
    match s {
        Some(s) => s,
        None => Seq::empty(),
    }
}

/// What a request's body asks for.
pub open spec fn asked(url: Seq<char>, body: Tree, capacity: usize) -> Result<Ask, AdminError> {
    let name = or_empty(body.text_at("profile"@));
    if url == "/admin/api/add"@ {
        Ok(Ask::Add(name, body.at("auth"@)))
    } else if url == "/admin/api/delete"@ {
        Ok(Ask::Delete(name))
    } else if url == "/admin/api/switch"@ {
        Ok(Ask::Switch(name))
    } else if url == "/admin/api/login-start"@ {
        Ok(Ask::LoginStart(name))
    } else if url == "/admin/api/login-callback"@ {
        match body.text_at("url"@) {
            Some(callback) => Ok(Ask::LoginCallback(name, callback)),
            None => Err(AdminError::NoUrl),
        }
    } else if url == "/admin/api/concurrency"@ {
        match body.at("limit"@).number() {
            Some(n) => if 1 <= n <= capacity {
                Ok(Ask::Concurrency(n as usize))
            } else {
                Err(AdminError::Range(capacity))
            },
            None => Err(AdminError::NotInteger),
        }
    } else {
        Err(AdminError::Unknown)
    }
}

pub open spec fn command_of(url: Seq<char>, bytes: Seq<u8>, capacity: usize) -> Result<
    Ask,
    AdminError,
> {
    if bytes.len() > MAX_REQUEST {
        Err(AdminError::TooLarge)
    } else {
        match json::json_document(bytes) {
            None => Err(AdminError::NotJson),
            Some(body) => asked(url, body, capacity),
        }
    }
}

pub open spec fn command_view(r: Result<AdminCommand, AdminError>) -> Result<Ask, AdminError> {
    match r {
        Ok(c) => Ok(c@),
        Err(e) => Err(e),
    }
}

/// What a document asks for.
pub fn ask(url: &str, body: &Json, capacity: usize) -> (r: Result<AdminCommand, AdminError>)
    ensures
        command_view(r) == asked(url@, body@, capacity),
{
    let name = match body.text_at("profile") {
        Some(name) => name.clone(),
        None => String::new(),
    };
    assert(name@ =~= or_empty(body@.text_at("profile"@)));
    if same(url, "/admin/api/add") {
        let auth = match body.get("auth") {
            Some(auth) => auth.copy(),
            None => Json::Null,
        };
        Ok(AdminCommand::Add(name, auth))
    } else if same(url, "/admin/api/delete") {
        Ok(AdminCommand::Delete(name))
    } else if same(url, "/admin/api/switch") {
        Ok(AdminCommand::Switch(name))
    } else if same(url, "/admin/api/login-start") {
        Ok(AdminCommand::LoginStart(name))
    } else if same(url, "/admin/api/login-callback") {
        match body.text_at("url") {
            Some(callback) => Ok(AdminCommand::LoginCallback(name, callback.clone())),
            None => Err(AdminError::NoUrl),
        }
    } else if same(url, "/admin/api/concurrency") {
        match body.number_at("limit") {
            Some(n) => if 1 <= n && n <= capacity as u64 {
                Ok(AdminCommand::Concurrency(n as usize))
            } else {
                Err(AdminError::Range(capacity))
            },
            None => Err(AdminError::NotInteger),
        }
    } else {
        Err(AdminError::Unknown)
    }
}

/// What a request's body asks for.
pub fn control(url: &str, bytes: &[u8], capacity: usize) -> (r: Result<AdminCommand, AdminError>)
    ensures
        command_view(r) == command_of(url@, bytes@, capacity),
{
    if bytes.len() > MAX_REQUEST {
        return Err(AdminError::TooLarge);
    }
    match parse_json(bytes) {
        None => Err(AdminError::NotJson),
        Some(body) => ask(url, &body, capacity),
    }
}

/// The answer to a command that was carried out.
pub fn done() -> (r: Json)
    ensures
        r@ == Tree::Object(Map::empty().insert("ok"@, Tree::Bool(true))),
{
    let mut r = Json::object();
    r.set("ok".to_owned(), Json::Bool(true));
    r
}

/// The answer to a request that is refused.
pub fn failed(message: String) -> (r: (u16, Json))
    ensures
        r.0 == 400,
        r.1@ == Tree::Object(Map::empty().insert("error"@, Tree::Text(message@))),
{
    let mut r = Json::object();
    r.set("error".to_owned(), Json::Text(message));
    (400, r)
}

/// The answer to credentials that were saved.
pub fn saved(profile: String, updated: bool, active: bool) -> (r: Json)
    ensures
        r@ == Tree::Object(
            Map::empty().insert("ok"@, Tree::Bool(true)).insert(
                "profile"@,
                Tree::Text(profile@),
            ).insert("updated"@, Tree::Bool(updated)).insert("active"@, Tree::Bool(active)),
        ),
{
    let mut r = Json::object();
    r.set("ok".to_owned(), Json::Bool(true));
    r.set("profile".to_owned(), Json::Text(profile));
    r.set("updated".to_owned(), Json::Bool(updated));
    r.set("active".to_owned(), Json::Bool(active));
    r
}

/// The list of accounts with what is known of the queue and of the last requests.
pub fn overview(list: Json, queue: Json, capacity: usize, metrics: Json) -> (r: Json)
    ensures
        r@ == list@.with("queue"@, queue@).with(
            "capacity"@,
            Tree::Number(Quantity::Unsigned(capacity as u64)),
        ).with("metrics"@, metrics@),
{
    let mut r = list;
    r.put("queue", queue);
    r.put("capacity", Json::unsigned(capacity as u64));
    r.put("metrics", metrics);
    r
}

/// What is posted is a command, whatever the URL. The page, the accounts, the state of a login and
/// one remembered request, by its number, can be had by `GET`; everything else is not supported.
pub proof fn law_where_operators_requests_go(method: Method, url: Seq<char>, id: Seq<char>)
    ensures
        route_of(method, url) == AdminRoute::Command <==> method == Method::Post,
        route_of(method, url) == AdminRoute::Page <==> method == Method::Get && url
            == "/admin/accounts"@,
        route_of(method, url) == AdminRoute::Accounts <==> method == Method::Get && url
            == "/admin/api/accounts"@,
        route_of(method, url) == AdminRoute::LoginStatus <==> method == Method::Get && url
            == "/admin/api/login-status"@,
        route_of(Method::Get, "/admin/api/request?id="@ + id) == AdminRoute::Detail(
            text::number_of(id),
        ),
        method == Method::Other ==> route_of(method, url) == AdminRoute::Unsupported,
        method == Method::Get && url != "/admin/accounts"@ && url != "/admin/api/accounts"@ && url
            != "/admin/api/login-status"@ && !"/admin/api/request?id="@.is_prefix_of(url)
            ==> route_of(method, url) == AdminRoute::Unsupported,
{
    reveal_strlit("/admin/accounts");
    reveal_strlit("/admin/api/accounts");
    reveal_strlit("/admin/api/login-status");
    reveal_strlit("/admin/api/request?id=");
    let prefix = "/admin/api/request?id="@;
    assert("/admin/accounts"@.len() == 15 && "/admin/api/accounts"@.len() == 19
        && "/admin/api/login-status"@.len() == 23 && prefix.len() == 22);
    assert(prefix[11] == 'r' && "/admin/api/login-status"@[11] == 'l');
    assert(!prefix.is_prefix_of("/admin/api/login-status"@)) by {
        if prefix.is_prefix_of("/admin/api/login-status"@) {
            assert("/admin/api/login-status"@[11] == prefix[11]);
        }
    }
    let one = prefix + id;
    assert(prefix.is_prefix_of(one)) by {
        assert(prefix =~= one.subrange(0, 22));
    }
    assert(one.skip(22) =~= id);
    assert(one.len() >= 22);
}

/// Each command is asked for at its URL, for the profile that the body names, or the empty name: to
/// add credentials, to delete and to switch to an account, to start a login and to complete it with
/// a URL, and to set how many requests may run, from one to the capacity. There is no other.
pub proof fn law_what_an_operator_asks_for(url: Seq<char>, body: Tree, capacity: usize)
    ensures
        ({
            let r = asked(url, body, capacity);
            let name = if body.at("profile"@) is Text {
                body.at("profile"@)->Text_0
            } else {
                Seq::empty()
            };
            let limit = body.at("limit"@).number();
            &&& url == "/admin/api/add"@ ==> r == Ok::<_, AdminError>(
                Ask::Add(name, body.at("auth"@)),
            )
            &&& url == "/admin/api/delete"@ ==> r == Ok::<_, AdminError>(Ask::Delete(name))
            &&& url == "/admin/api/switch"@ ==> r == Ok::<_, AdminError>(Ask::Switch(name))
            &&& url == "/admin/api/login-start"@ ==> r == Ok::<_, AdminError>(
                Ask::LoginStart(name),
            )
            &&& url == "/admin/api/login-callback"@ && body.at("url"@) is Text ==> r == Ok::<
                _,
                AdminError,
            >(Ask::LoginCallback(name, body.at("url"@)->Text_0))
            &&& url == "/admin/api/login-callback"@ && !(body.at("url"@) is Text) ==> r == Err::<
                Ask,
                _,
            >(AdminError::NoUrl)
            &&& url == "/admin/api/concurrency"@ && limit is Some && 1 <= limit->0 <= capacity ==> r
                == Ok::<_, AdminError>(Ask::Concurrency(limit->0 as usize))
            &&& url == "/admin/api/concurrency"@ && limit is Some && !(1 <= limit->0 <= capacity)
                ==> r == Err::<Ask, _>(AdminError::Range(capacity))
            &&& url == "/admin/api/concurrency"@ && limit is None ==> r == Err::<Ask, _>(
                AdminError::NotInteger,
            )
            &&& url != "/admin/api/add"@ && url != "/admin/api/delete"@ && url
                != "/admin/api/switch"@ && url != "/admin/api/login-start"@ && url
                != "/admin/api/login-callback"@ && url != "/admin/api/concurrency"@ ==> r == Err::<
                Ask,
                _,
            >(AdminError::Unknown)
        }),
{
    reveal_strlit("/admin/api/add");
    reveal_strlit("/admin/api/delete");
    reveal_strlit("/admin/api/switch");
    reveal_strlit("/admin/api/login-start");
    reveal_strlit("/admin/api/login-callback");
    reveal_strlit("/admin/api/concurrency");
    assert("/admin/api/add"@.len() == 14 && "/admin/api/delete"@.len() == 17
        && "/admin/api/switch"@.len() == 17 && "/admin/api/login-start"@.len() == 22
        && "/admin/api/login-callback"@.len() == 25 && "/admin/api/concurrency"@.len() == 22);
    assert("/admin/api/delete"@[11] == 'd' && "/admin/api/switch"@[11] == 's');
    assert("/admin/api/login-start"@[11] == 'l' && "/admin/api/concurrency"@[11] == 'c');
}

/// A command is read from a document of 128 kibibytes at most.
pub proof fn law_commands_are_documents(url: Seq<char>, bytes: Seq<u8>, capacity: usize)
    ensures
        bytes.len() > 131_072 ==> command_of(url, bytes, capacity) == Err::<Ask, _>(
            AdminError::TooLarge,
        ),
        bytes.len() <= 131_072 && json::json_document(bytes) is None ==> command_of(
            url,
            bytes,
            capacity,
        ) == Err::<Ask, _>(AdminError::NotJson),
        bytes.len() <= 131_072 && json::json_document(bytes) is Some ==> command_of(
            url,
            bytes,
            capacity,
        ) == asked(url, json::json_document(bytes)->0, capacity),
{
}

} // verus!
