//! What is settled before requests are taken, and where each of them goes first.
use crate::accounts;
use crate::accounts::masked_account;
use crate::clock::MILLISECOND;
use crate::clock::SECOND;
use crate::json;
use crate::json::parse_text;
use crate::json::Json;
use crate::json::Tree;
use crate::queue_http::Method;
use crate::scheduler::Config;
use crate::scheduler::MAX_QUEUE_WAIT;
use crate::text;
use crate::text::begins_with;
use crate::text::cut_at;
use crate::text::join2;
use crate::text::parse_number;
use crate::text::same;
use crate::text::trim;
use vstd::prelude::*;

verus! {

broadcast use {vstd::seq_lib::group_seq_properties, vstd::map::group_map_axioms};

/// How many sessions are loaded at once where nothing else is set.
pub const DEFAULT_SESSION_POOL_SIZE: usize = 5;

/// The same with a queue.
pub const DEFAULT_QUEUE_SESSIONS: usize = 32;

/// The most sessions with a queue.
pub const MAX_QUEUE_SESSIONS: usize = 256;

/// Why the process does not start.
/// The words of another are a `String`, and in contracts its characters.
#[derive(Debug, PartialEq, Eq)]
pub enum StartupError<S> {
    PoolSizeFormat(S),
    PoolSizeZero,
    TooManySessions,
    TooFewSessions,
    NoSecret,
}

impl View for StartupError<String> {
    type V = StartupError<Seq<char>>;

    open spec fn view(&self) -> StartupError<Seq<char>> {
        match *self {
            StartupError::PoolSizeFormat(s) => StartupError::PoolSizeFormat(s@),
            StartupError::PoolSizeZero => StartupError::PoolSizeZero,
            StartupError::TooManySessions => StartupError::TooManySessions,
            StartupError::TooFewSessions => StartupError::TooFewSessions,
            StartupError::NoSecret => StartupError::NoSecret,
        }
    }
}

impl StartupError<Seq<char>> {
    pub open spec fn words(self) -> Seq<char> {
        match self {
            StartupError::PoolSizeFormat(s) => "invalid CODEX_SESSION_POOL_SIZE: "@ + s,
            StartupError::PoolSizeZero => "session pool size must be at least 1"@,
            StartupError::TooManySessions => "queue mode supports at most 256 identities"@,
            StartupError::TooFewSessions => "queue concurrency exceeds available session identities"@,
            StartupError::NoSecret => "queue mode requires a worker API key"@,
        }
    }
}

impl StartupError<String> {
    pub fn message(&self) -> (r: String)
        ensures
            r@ == self@.words(),
    {
        match self {
            StartupError::PoolSizeFormat(s) => join2("invalid CODEX_SESSION_POOL_SIZE: ", s),
            StartupError::PoolSizeZero => "session pool size must be at least 1".to_owned(),
            StartupError::TooManySessions => "queue mode supports at most 256 identities".to_owned(),
            StartupError::TooFewSessions => "queue concurrency exceeds available session identities".to_owned(),
            StartupError::NoSecret => "queue mode requires a worker API key".to_owned(),
        }
    }
}

/// How many sessions are loaded at once: as the command line says, or else the environment, or
/// else by default.
pub open spec fn pool_size(
    argument: Option<usize>,
    variable: Option<Seq<char>>,
    default_size: usize,
) -> Result<usize, StartupError<Seq<char>>> {
    let size = match argument {
        Some(size) => Some(size),
        None => match variable {
            Some(raw) => match text::number_of(text::trimmed(raw)) {
                Some(n) => if n <= usize::MAX {
                    Some(n as usize)
                } else {
                    None
                },
                None => None,
            },
            None => Some(default_size),
        },
    };
    match size {
        None => Err(StartupError::PoolSizeFormat(variable->0)),
        Some(size) => if size >= 1 {
            Ok(size)
        } else {
            Err(StartupError::PoolSizeZero)
        },
    }
}

pub open spec fn size_view(r: Result<usize, StartupError<String>>) -> Result<
    usize,
    StartupError<Seq<char>>,
> {
    match r {
        Ok(size) => Ok(size),
        Err(e) => Err(e@),
    }
}

pub open spec fn fault_view(e: Option<StartupError<String>>) -> Option<StartupError<Seq<char>>> {
    match e {
        Some(e) => Some(e@),
        None => None,
    }
}

/// How many sessions are loaded at once.
pub fn resolve_session_pool_size(
    argument: Option<usize>,
    variable: Option<&str>,
    default_size: usize,
) -> (r: Result<usize, StartupError<String>>)
    ensures
        size_view(r) == pool_size(
            argument,
            match variable {
                Some(s) => Some(s@),
                None => None,
            },
            default_size,
        ),
{
    let size: usize = match argument {
        Some(size) => size,
        None => match variable {
            Some(raw) => match parse_number(&trim(raw)) {
                Some(n) => if n <= usize::MAX as u64 {
                    n as usize
                } else {
                    return Err(StartupError::PoolSizeFormat(raw.to_owned()));
                },
                None => return Err(StartupError::PoolSizeFormat(raw.to_owned())),
            },
            None => default_size,
        },
    };
    if size >= 1 {
        Ok(size)
    } else {
        Err(StartupError::PoolSizeZero)
    }
}

/// Whether there are as many sessions as a queue needs, and no more than it may have.
pub open spec fn session_fault(sessions: usize, max_running: u16) -> Option<
    StartupError<Seq<char>>,
> {
    if sessions > MAX_QUEUE_SESSIONS {
        Some(StartupError::TooManySessions)
    } else if max_running > sessions {
        Some(StartupError::TooFewSessions)
    } else {
        None
    }
}

/// Whether there are as many sessions as a queue needs, and no more than it may have.
pub fn check_sessions(sessions: usize, max_running: u16) -> (r: Option<StartupError<String>>)
    ensures
        fault_view(r) == session_fault(sessions, max_running),
{
    if sessions > MAX_QUEUE_SESSIONS {
        return Some(StartupError::TooManySessions);
    }
    if max_running as usize > sessions {
        return Some(StartupError::TooFewSessions);
    }
    None
}

/// Whether there is the secret that a queue needs.
pub fn check_secret(secret: Option<&str>) -> (r: Option<StartupError<String>>)
    ensures
        fault_view(r) == (if secret matches Some(s) && s@.len() > 0 {
            None
        } else {
            Some(StartupError::<Seq<char>>::NoSecret)
        }),
{
    let set = match secret {
        Some(secret) => !secret.is_empty(),
        None => false,
    };
    if set {
        None
    } else {
        Some(StartupError::NoSecret)
    }
}

/// The queue's settings from what the command line says: milliseconds, and seconds for the
/// idle time.
pub open spec fn configured(
    automatic_recovery: bool,
    max_running: usize,
    gap: u64,
    user_gap: u64,
    tool_gap: u64,
    start_gap: u64,
    idle_ttl: u64,
) -> Config {
    Config {
        automatic_recovery,
        max_running,
        gap: (gap * MILLISECOND) as u128,
        user_gap: (user_gap * MILLISECOND) as u128,
        tool_gap: (tool_gap * MILLISECOND) as u128,
        idle_ttl: (idle_ttl * SECOND) as u128,
        start_gap: (start_gap * MILLISECOND) as u128,
        timeout: MAX_QUEUE_WAIT,
    }
}

/// The queue's settings from what the command line says: milliseconds, and seconds for the
/// idle time.
pub fn configure(
    automatic_recovery: bool,
    max_running: usize,
    gap: u64,
    user_gap: u64,
    tool_gap: u64,
    start_gap: u64,
    idle_ttl: u64,
) -> (r: Config)
    ensures
        r == configured(
            automatic_recovery,
            max_running,
            gap,
            user_gap,
            tool_gap,
            start_gap,
            idle_ttl,
        ),
{
    Config {
        automatic_recovery,
        max_running,
        gap: gap as u128 * MILLISECOND,
        user_gap: user_gap as u128 * MILLISECOND,
        tool_gap: tool_gap as u128 * MILLISECOND,
        idle_ttl: idle_ttl as u128 * SECOND,
        start_gap: start_gap as u128 * MILLISECOND,
        timeout: MAX_QUEUE_WAIT,
    }
}

/// The account in a file of credentials, if it names one.
pub open spec fn named_account(contents: Option<Seq<char>>) -> Option<Seq<char>> {
    match contents {
        Some(s) => match json::text_document(s) {
            Some(auth) => match auth.at("tokens"@).text_at("account_id"@) {
                Some(id) => if id.len() > 0 {
                    Some(id)
                } else {
                    None
                },
                None => None,
            },
            None => None,
        },
        None => None,
    }
}

/// How the account in use is shown, from the file with its credentials where that can be read.
pub fn configured_account_label(contents: Option<&str>) -> (r: String)
    ensures
        match named_account(
            match contents {
                Some(s) => Some(s@),
                None => None,
            },
        ) {
            Some(id) => accounts::is_mask(id, r@),
            None => r@ == "configured account"@,
        },
{
    let auth = match contents {
        Some(s) => parse_text(s),
        None => None,
    };
    if let Some(auth) = auth {
        if let Some(tokens) = auth.get("tokens") {
            if let Some(id) = tokens.text_at("account_id") {
                if !id.as_str().is_empty() {
                    return masked_account(id);
                }
            }
        }
    }
    "configured account".to_owned()
}

/// Where a request goes first in a process with a queue.
#[derive(Clone, Copy, Debug, PartialEq, Eq, Structural)]
pub enum Inbound {
    Health,
    /// The page of the administration, which holds no secrets.
    AdminPage,
    Unauthorized,
    IdentityUnavailable,
    /// A command to the administration, which may take its time.
    AdminCommand,
    /// The control plane, and else the queue.
    Control,
}

/// Where a request goes first in a process with a queue.
pub open spec fn inbound_of(
    method: Method,
    url: Seq<char>,
    authorized: bool,
    available: bool,
) -> Inbound {
    if method == Method::Get && url == "/healthz"@ {
        Inbound::Health
    } else if method == Method::Get && url == "/admin/accounts"@ {
        Inbound::AdminPage
    } else if !authorized {
        Inbound::Unauthorized
    } else if url == "/readyz"@ && !available {
        Inbound::IdentityUnavailable
    } else if method == Method::Post && "/admin/"@.is_prefix_of(url) {
        Inbound::AdminCommand
    } else {
        Inbound::Control
    }
}

/// Where a request goes first in a process with a queue, by whether it is authorized and
/// whether identities can be had.
pub fn inbound(method: Method, url: &str, authorized: bool, available: bool) -> (r: Inbound)
    ensures
        r == inbound_of(method, url@, authorized, available),
{
    if method == Method::Get && same(url, "/healthz") {
        Inbound::Health
    } else if method == Method::Get && same(url, "/admin/accounts") {
        Inbound::AdminPage
    } else if !authorized {
        Inbound::Unauthorized
    } else if same(url, "/readyz") && !available {
        Inbound::IdentityUnavailable
    } else if method == Method::Post && begins_with(url, "/admin/") {
        Inbound::AdminCommand
    } else {
        Inbound::Control
    }
}

/// What becomes of a request that the control plane leaves alone.
#[derive(Clone, Copy, Debug, PartialEq, Eq, Structural)]
pub enum Entry {
    /// The process ends.
    Shutdown,
    Health,
    Unauthorized,
    Models,
    Forbidden,
    Forward,
}

pub open spec fn path_of(url: Seq<char>) -> Seq<char> {
    match text::cut(url, '?') {
        Some((path, _)) => path,
        None => url,
    }
}

/// What becomes of a request that the control plane leaves alone.
pub open spec fn entry_of(
    method: Method,
    url: Seq<char>,
    authorized: bool,
    shutdown: bool,
) -> Entry {
    let path = path_of(url);
    if shutdown && method == Method::Get && url == "/shutdown"@ {
        if authorized {
            Entry::Shutdown
        } else {
            Entry::Unauthorized
        }
    } else if method == Method::Get && path == "/healthz"@ {
        Entry::Health
    } else if !authorized {
        Entry::Unauthorized
    } else if method == Method::Get && (path == "/v1/models"@ || "/v1/models/"@.is_prefix_of(path)) {
        Entry::Models
    } else if method == Method::Post && path == "/v1/responses"@ {
        Entry::Forward
    } else {
        Entry::Forbidden
    }
}

/// What becomes of a request that the control plane leaves alone, by whether it is authorized
/// and whether the process can be ended by a request.
pub fn entry(method: Method, url: &str, authorized: bool, shutdown: bool) -> (r: Entry)
    ensures
        r == entry_of(method, url@, authorized, shutdown),
{
    if shutdown && method == Method::Get && same(url, "/shutdown") {
        return if authorized {
            Entry::Shutdown
        } else {
            Entry::Unauthorized
        };
    }
    let path = match cut_at(url, '?') {
        Some((path, _)) => path,
        None => url.to_owned(),
    };
    if method == Method::Get && same(&path, "/healthz") {
        Entry::Health
    } else if !authorized {
        Entry::Unauthorized
    } else if method == Method::Get && (same(&path, "/v1/models") || begins_with(
        &path,
        "/v1/models/",
    )) {
        Entry::Models
    } else if method == Method::Post && same(&path, "/v1/responses") {
        Entry::Forward
    } else {
        Entry::Forbidden
    }
}

/// What is written for those who wait for the process to listen.
pub fn server_info(port: u16, process: u32) -> (r: Json)
    ensures
        r@ == Tree::Object(
            Map::empty().insert(
                "port"@,
                Tree::Number(json::Quantity::Unsigned(port as u64)),
            ).insert("pid"@, Tree::Number(json::Quantity::Unsigned(process as u64))),
        ),
{
    let mut r = Json::object();
    r.set("port".to_owned(), Json::unsigned(port as u64));
    r.set("pid".to_owned(), Json::unsigned(process as u64));
    r
}

/// Without the secret nothing but the health of the process and the page of the administration
/// can be had.
pub proof fn law_nothing_without_the_secret(
    method: Method,
    url: Seq<char>,
    available: bool,
    shutdown: bool,
)
    ensures
        ({
            let first = inbound_of(method, url, false, available);
            first == Inbound::Health || first == Inbound::AdminPage || first
                == Inbound::Unauthorized
        }),
        ({
            let next = entry_of(method, url, false, shutdown);
            next == Entry::Health || next == Entry::Unauthorized
        }),
{
}

/// The number of sessions is the one on the command line or, without one, the numeral in the
/// environment or, without either, the default; it has to be one that the machine can count and
/// not zero.
pub proof fn law_how_many_sessions(
    argument: Option<usize>,
    variable: Option<Seq<char>>,
    default_size: usize,
)
    ensures
        ({
            let r = pool_size(argument, variable, default_size);
            let n = text::number_of(text::trimmed(variable->0));
            &&& r matches Ok(size) ==> size >= 1
            &&& argument matches Some(size) ==> (size >= 1 ==> r == Ok::<
                _,
                StartupError<Seq<char>>,
            >(size)) && (size == 0 ==> r == Err::<usize, _>(
                StartupError::<Seq<char>>::PoolSizeZero,
            ))
            &&& argument is None && variable is None && default_size >= 1 ==> r == Ok::<
                _,
                StartupError<Seq<char>>,
            >(default_size)
            &&& argument is None && variable is Some && n is Some && 1 <= n->0 <= usize::MAX ==> r
                == Ok::<_, StartupError<Seq<char>>>(n->0 as usize)
            &&& argument is None && variable is Some && n == Some(0u64) ==> r == Err::<usize, _>(
                StartupError::<Seq<char>>::PoolSizeZero,
            )
            &&& argument is None && variable is Some && (n is None || n->0 > usize::MAX) ==> r
                == Err::<usize, _>(StartupError::PoolSizeFormat(variable->0))
        }),
{
}

/// A queue needs a session for each request that may run, and has 256 at most.
pub proof fn law_sessions_of_a_queue(sessions: usize, max_running: u16)
    ensures
        session_fault(sessions, max_running) == Some(StartupError::<Seq<char>>::TooManySessions)
            <==> sessions > 256,
        session_fault(sessions, max_running) == Some(StartupError::<Seq<char>>::TooFewSessions)
            <==> sessions <= 256 && sessions < max_running,
        session_fault(sessions, max_running) is None <==> max_running <= sessions <= 256,
{
}

/// The account that is shown is the one that the tokens in the file name, if they name one.
pub proof fn law_which_account_is_shown(contents: Option<Seq<char>>, auth: Tree)
    ensures
        contents is None ==> named_account(contents) is None,
        contents is Some && json::text_document(contents->0) is None ==> named_account(contents)
            is None,
        contents is Some && json::text_document(contents->0) == Some(auth) ==> {
            let id = auth.at("tokens"@).at("account_id"@);
            &&& id is Text && id->Text_0.len() > 0 ==> named_account(contents) == Some(id->Text_0)
            &&& !(id is Text && id->Text_0.len() > 0) ==> named_account(contents) is None
        },
{
}

/// The health of the process and the page of the administration can be had without the secret.
/// With it, what is posted below `/admin/` is a command; without identities the process is not
/// ready; and all else goes to the control plane.
pub proof fn law_where_requests_go(
    method: Method,
    url: Seq<char>,
    authorized: bool,
    available: bool,
)
    ensures
        ({
            let r = inbound_of(method, url, authorized, available);
            let open = method == Method::Get && (url == "/healthz"@ || url == "/admin/accounts"@);
            &&& r == Inbound::Health <==> method == Method::Get && url == "/healthz"@
            &&& r == Inbound::AdminPage <==> method == Method::Get && url == "/admin/accounts"@
            &&& r == Inbound::Unauthorized <==> !open && !authorized
            &&& r == Inbound::IdentityUnavailable <==> !open && authorized && url == "/readyz"@
                && !available
            &&& r == Inbound::AdminCommand <==> authorized && method == Method::Post
                && "/admin/"@.is_prefix_of(url)
            &&& r == Inbound::Control <==> !open && authorized && !(url == "/readyz"@ && !available)
                && !(method == Method::Post && "/admin/"@.is_prefix_of(url))
        }),
{
    reveal_strlit("/healthz");
    reveal_strlit("/admin/accounts");
    reveal_strlit("/readyz");
    reveal_strlit("/admin/");
    assert("/healthz"@.len() == 8 && "/admin/accounts"@.len() == 15 && "/readyz"@.len() == 7);
    assert("/readyz"@[1] == 'r' && "/admin/"@[1] == 'a' && "/admin/"@.len() == 7);
    if "/admin/"@.is_prefix_of(url) {
        assert(url[1] == 'a');
    }
}

/// A request that the control plane leaves alone is forwarded where it posts to `/v1/responses`,
/// and answered where it asks for the models or for one of them, whatever its query. The process
/// ends where that can be asked for. Anything else is forbidden, and without the secret all but
/// the health of the process is.
pub proof fn law_what_becomes_of_requests(
    method: Method,
    url: Seq<char>,
    authorized: bool,
    shutdown: bool,
    path: Seq<char>,
    query: Seq<char>,
)
    requires
        !path.contains('?'),
        url == path || url == path + seq!['?'] + query,
    ensures
        ({
            let r = entry_of(method, url, authorized, shutdown);
            let ends = shutdown && method == Method::Get && url == "/shutdown"@;
            let health = !ends && method == Method::Get && path == "/healthz"@;
            let models = method == Method::Get && (path == "/v1/models"@
                || "/v1/models/"@.is_prefix_of(path));
            let responses = method == Method::Post && path == "/v1/responses"@;
            &&& r == Entry::Shutdown <==> ends && authorized
            &&& r == Entry::Health <==> health
            &&& r == Entry::Unauthorized <==> !health && !authorized
            &&& r == Entry::Models <==> !ends && !health && authorized && models
            &&& r == Entry::Forward <==> authorized && responses
            &&& r == Entry::Forbidden <==> !ends && !health && authorized && !models && !responses
        }),
{
    if url == path {
        text::lemma_no_cut(url, '?');
    }
    if url == path + seq!['?'] + query {
        text::lemma_cut(url, '?', path, query);
    }
}

/// Each setting of the queue is the one of its name on the command line: the gaps in milliseconds,
/// the idle time in seconds, and the longest wait always two minutes.
pub proof fn law_settings_are_those_of_the_command_line(
    automatic_recovery: bool,
    max_running: usize,
    gap: u64,
    user_gap: u64,
    tool_gap: u64,
    start_gap: u64,
    idle_ttl: u64,
)
    ensures
        ({
            let c = configured(
                automatic_recovery,
                max_running,
                gap,
                user_gap,
                tool_gap,
                start_gap,
                idle_ttl,
            );
            &&& c.automatic_recovery == automatic_recovery
            &&& c.max_running == max_running
            &&& c.gap == gap * 1_000_000
            &&& c.user_gap == user_gap * 1_000_000
            &&& c.tool_gap == tool_gap * 1_000_000
            &&& c.start_gap == start_gap * 1_000_000
            &&& c.idle_ttl == idle_ttl * 1_000_000_000
            &&& c.timeout == 120_000_000_000
        }),
{
}

/// Without another number there are five sessions, and 32 with a queue.
pub proof fn law_default_number_of_sessions(queue: bool)
    ensures
        pool_size(
            None,
            None,
            if queue {
                DEFAULT_QUEUE_SESSIONS
            } else {
                DEFAULT_SESSION_POOL_SIZE
            },
        ) == Ok::<_, StartupError<Seq<char>>>(
            if queue {
                32usize
            } else {
                5usize
            },
        ),
{
}

} // verus!
