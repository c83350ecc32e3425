//! The small part of the thread manager's JSON-RPC that is spoken here.
use crate::conversations;
use crate::conversations::Failure;
use crate::identity;
use crate::identity::Persona;
use crate::identity::SessionIdentity;
use crate::json;
use crate::json::text_json;
use crate::json::unlisted;
use crate::json::Json;
use crate::json::Quantity;
use crate::json::Tree;
use crate::models::MAX_PAGES;
use crate::rejection::Rejection;
use crate::text;
use crate::text::join2;
use crate::text::join3;
use crate::text::list_contains;
use crate::text::number_text;
use crate::text::same;
use vstd::prelude::*;

verus! {

broadcast use {vstd::seq_lib::group_seq_properties, vstd::map::group_map_axioms};

/// The identifier of a request: no two of one process are the same.
pub open spec fn id_of(method: Seq<char>, process: u64, sequence: u64) -> Seq<char> {
    "responses-proxy-"@ + method + "-"@ + text::decimal(process as nat) + "-"@ + text::decimal(
        sequence as nat,
    )
}

/// The identifier of a request.
pub fn request_id(method: &str, process: u64, sequence: u64) -> (r: String)
    ensures
        r@ == id_of(method@, process, sequence),
{
    let head = join3("responses-proxy-", method, "-");
    let middle = join3(&head, &number_text(process), "-");
    let r = join2(&middle, &number_text(sequence));
    assert(r@ =~= id_of(method@, process, sequence));
    r
}

/// A request as it is sent.
pub open spec fn request_tree(id: Seq<char>, method: Seq<char>, params: Tree) -> Tree {
    Tree::Object(
        Map::empty().insert("jsonrpc"@, Tree::Text("2.0"@)).insert("id"@, Tree::Text(id)).insert(
            "method"@,
            Tree::Text(method),
        ).insert("params"@, params),
    )
}

/// A request as it is sent.
pub fn request(id: &str, method: &str, params: Json) -> (r: Json)
    ensures
        r@ == request_tree(id@, method@, params@),
{
    let mut r = Json::object();
    r.set("jsonrpc".to_owned(), Json::Text("2.0".to_owned()));
    r.set("id".to_owned(), Json::Text(id.to_owned()));
    r.set("method".to_owned(), Json::Text(method.to_owned()));
    r.set("params".to_owned(), params);
    r
}

/// How this process introduces itself.
pub open spec fn introduction(version: Seq<char>) -> Tree {
    Tree::Object(
        Map::empty().insert(
            "clientInfo"@,
            Tree::Object(
                Map::empty().insert("name"@, Tree::Text("codex-responses-api-proxy"@)).insert(
                    "version"@,
                    Tree::Text(version),
                ),
            ),
        ).insert(
            "capabilities"@,
            Tree::Object(
                Map::empty().insert("experimentalApi"@, Tree::Bool(true)).insert(
                    "requestAttestation"@,
                    Tree::Bool(false),
                ).insert("mcpServerOpenaiFormElicitation"@, Tree::Bool(false)).insert(
                    "optOutNotificationMethods"@,
                    Tree::Array(Seq::empty()),
                ),
            ),
        ),
    )
}

/// How this process introduces itself.
pub fn initialize(version: &str) -> (r: Json)
    ensures
        r@ == introduction(version@),
{
    let mut info = Json::object();
    info.set("name".to_owned(), Json::Text("codex-responses-api-proxy".to_owned()));
    info.set("version".to_owned(), Json::Text(version.to_owned()));
    let mut capabilities = Json::object();
    capabilities.set("experimentalApi".to_owned(), Json::Bool(true));
    capabilities.set("requestAttestation".to_owned(), Json::Bool(false));
    capabilities.set("mcpServerOpenaiFormElicitation".to_owned(), Json::Bool(false));
    capabilities.set("optOutNotificationMethods".to_owned(), Json::Array(Vec::new()));
    let mut r = Json::object();
    r.set("clientInfo".to_owned(), info);
    r.set("capabilities".to_owned(), capabilities);
    r
}

/// The notification that ends the introduction.
pub fn initialized() -> (r: Json)
    ensures
        r@ == Tree::Object(
            Map::empty().insert("jsonrpc"@, Tree::Text("2.0"@)).insert(
                "method"@,
                Tree::Text("initialized"@),
            ),
        ),
{
    let mut r = Json::object();
    r.set("jsonrpc".to_owned(), Json::Text("2.0".to_owned()));
    r.set("method".to_owned(), Json::Text("initialized".to_owned()));
    r
}

/// What a message means for a request.
#[derive(Debug)]
pub enum Reply {
    /// It is about something else.
    Other,
    Result(Json),
    /// An error with its code and its words.
    Error(i64, String),
    /// An error that is not as it should be.
    BadError,
    NoResult,
}

/// The model of a `Reply`.
pub enum Response {
    Other,
    Result(Tree),
    Error(i64, Seq<char>),
    BadError,
    NoResult,
}

impl View for Reply {
    type V = Response;

    open spec fn view(&self) -> Response {
        match *self {
            Reply::Other => Response::Other,
            Reply::Result(j) => Response::Result(j@),
            Reply::Error(code, message) => Response::Error(code, message@),
            Reply::BadError => Response::BadError,
            Reply::NoResult => Response::NoResult,
        }
    }
}

/// An error by its code and its words.
pub open spec fn error_of(error: Tree) -> Response {
    match (error.at("code"@).signed(), error.text_at("message"@)) {
        (Some(code), Some(words)) => Response::Error(code, words),
        _ => Response::BadError,
    }
}

/// What a message means for the request with an identifier.
pub open spec fn reply_of(message: Tree, id: Seq<char>) -> Response {
    if !message.says("id"@, id) {
        Response::Other
    } else {
        match (message.field("error"@), message.field("result"@)) {
            (Some(error), _) => error_of(json::record_of(error, seq!["code"@, "message"@])),
            (None, Some(result)) => Response::Result(result),
            (None, None) => Response::NoResult,
        }
    }
}

/// What a message means for the request with an identifier.
pub fn reply(message: &Json, id: &str) -> (r: Reply)
    ensures
        r@ == reply_of(message@, id@),
{
    if !message.says("id", id) {
        return Reply::Other;
    }
    if let Some(error) = message.get("error") {
        let names = ["code", "message"];
        assert(json::str_views(names@) =~= seq!["code"@, "message"@]);
        let listed = unlisted(error, &names);
        let error = match &listed {
            Some(error) => error,
            None => error,
        };
        let code = match error.get("code") {
            Some(code) => code.as_signed(),
            None => None,
        };
        return match (code, error.text_at("message")) {
            (Some(code), Some(words)) => Reply::Error(code, words.clone()),
            _ => Reply::BadError,
        };
    }
    match message.get("result") {
        Some(result) => Reply::Result(result.copy()),
        None => Reply::NoResult,
    }
}

/// The parameters with which a thread of the pool is started.
pub fn pool_thread() -> (r: Json)
    ensures
        r@ == Tree::Object(
            Map::empty().insert("ephemeral"@, Tree::Bool(true)).insert(
                "environments"@,
                Tree::Array(Seq::empty()),
            ),
        ),
{
    let mut r = Json::object();
    r.set("ephemeral".to_owned(), Json::Bool(true));
    r.set("environments".to_owned(), Json::Array(Vec::new()));
    r
}

/// The identifier of a thread that was started.
pub fn started_thread(result: &Json) -> (r: Option<String>)
    ensures
        text::text_option(r) == conversations::new_thread(result@),
{
    match result.get("thread") {
        Some(thread) => match thread.text_at("id") {
            Some(id) => Some(id.clone()),
            None => None,
        },
        None => None,
    }
}

/// A member that may be missing; nothing where it is neither null nor a text.
pub open spec fn optional_at(t: Tree, key: Seq<char>) -> Option<Option<Seq<char>>> {
    match t.at(key) {
        Tree::Null => Some(None),
        Tree::Text(s) => Some(Some(s)),
        _ => None,
    }
}

pub open spec fn flat(s: Option<Option<Seq<char>>>) -> Option<Seq<char>> {
    match s {
        Some(s) => s,
        None => None,
    }
}

/// The names of an identity's parts, in their order.
pub open spec fn identity_names() -> Seq<Seq<char>> {
    seq![
        "threadId"@,
        "sessionId"@,
        "installationId"@,
        "windowId"@,
        "parentThreadId"@,
        "turnId"@,
        "rootTurnId"@,
        "parentTurnId"@,
    ]
}

/// Whether an item is an identity.
pub open spec fn is_identity(t: Tree) -> bool {
    has_identity(json::record_of(t, identity_names()))
}

/// The identity that an item is.
pub open spec fn persona_in(t: Tree) -> Persona {
    persona_at(json::record_of(t, identity_names()))
}

/// Whether an object holds the parts of an identity.
pub open spec fn has_identity(t: Tree) -> bool {
    &&& t.text_at("threadId"@) is Some
    &&& t.text_at("sessionId"@) is Some
    &&& t.text_at("installationId"@) is Some
    &&& t.text_at("windowId"@) is Some
    &&& optional_at(t, "parentThreadId"@) is Some
    &&& optional_at(t, "turnId"@) is Some
    &&& optional_at(t, "rootTurnId"@) is Some
    &&& optional_at(t, "parentTurnId"@) is Some
}

/// The identity whose parts an object holds.
pub open spec fn persona_at(t: Tree) -> Persona {
    Persona {
        installation_id: t.text_at("installationId"@)->0,
        session_id: t.text_at("sessionId"@)->0,
        thread_id: t.text_at("threadId"@)->0,
        window_id: t.text_at("windowId"@)->0,
        parent_thread_id: flat(optional_at(t, "parentThreadId"@)),
        turn_id: flat(optional_at(t, "turnId"@)),
        root_turn_id: flat(optional_at(t, "rootTurnId"@)),
        parent_turn_id: flat(optional_at(t, "parentTurnId"@)),
    }
}

fn required(t: &Json, key: &str) -> (r: Option<String>)
    ensures
        text::text_option(r) == t@.text_at(key@),
{
    match t.text_at(key) {
        Some(s) => Some(s.clone()),
        None => None,
    }
}

fn optional(t: &Json, key: &str) -> (r: Option<Option<String>>)
    ensures
        match r {
            Some(s) => optional_at(t@, key@) == Some(text::text_option(s)),
            None => optional_at(t@, key@) is None,
        },
{
    match t.get(key) {
        None => Some(None),
        Some(Json::Null) => Some(None),
        Some(Json::Text(s)) => Some(Some(s.clone())),
        Some(_) => None,
    }
}

/// The identity that an item is, if it is one.
pub fn read_identity(t: &Json) -> (r: Option<SessionIdentity>)
    ensures
        identity::persona_option(r) == (if is_identity(t@) {
            Some(persona_in(t@))
        } else {
            None
        }),
{
    let names = [
        "threadId",
        "sessionId",
        "installationId",
        "windowId",
        "parentThreadId",
        "turnId",
        "rootTurnId",
        "parentTurnId",
    ];
    assert(json::str_views(names@) =~= identity_names());
    let listed = unlisted(t, &names);
    let t = match &listed {
        Some(t) => t,
        None => t,
    };
    match (
        required(t, "threadId"),
        required(t, "sessionId"),
        required(t, "installationId"),
        required(t, "windowId"),
    ) {
        (Some(thread_id), Some(session_id), Some(installation_id), Some(window_id)) => match (
            optional(t, "parentThreadId"),
            optional(t, "turnId"),
            optional(t, "rootTurnId"),
            optional(t, "parentTurnId"),
        ) {
            (Some(parent_thread_id), Some(turn_id), Some(root_turn_id), Some(parent_turn_id)) => {
                Some(
                    SessionIdentity {
                        installation_id,
                        session_id,
                        thread_id,
                        window_id,
                        parent_thread_id,
                        turn_id,
                        root_turn_id,
                        parent_turn_id,
                    },
                )
            },
            _ => None,
        },
        _ => None,
    }
}

/// Why a list of identities cannot be had.
#[derive(Clone, Copy, Debug, PartialEq, Eq, Structural)]
pub enum PageError {
    Page,
    Pagination,
}

impl PageError {
    pub open spec fn words(self) -> Seq<char> {
        match self {
            PageError::Page => "app-server thread/modelIdentity/list returned an unexpected response"@,
            PageError::Pagination => "app-server identity pagination repeated a cursor or exceeded 100 pages"@,
        }
    }

    pub fn message(self) -> (r: &'static str)
        ensures
            r@ == self.words(),
    {
        match self {
            PageError::Page => "app-server thread/modelIdentity/list returned an unexpected response",
            PageError::Pagination => "app-server identity pagination repeated a cursor or exceeded 100 pages",
        }
    }
}

/// A list of identities that comes in pages.
#[derive(Debug)]
pub struct Identities {
    pub items: Vec<SessionIdentity>,
    /// The pages that were announced.
    pub seen: Vec<String>,
}

/// The model of an `Identities`.
pub struct Roster {
    pub items: Seq<Persona>,
    pub seen: Seq<Seq<char>>,
}

impl View for Identities {
    type V = Roster;

    open spec fn view(&self) -> Roster {
        Roster { items: identity::personas(self.items@), seen: text::texts(self.seen@) }
    }
}

pub open spec fn all_identities(items: Seq<Tree>) -> bool {
    forall|i: int| 0 <= i < items.len() ==> is_identity(#[trigger] items[i])
}

pub open spec fn personas_in(items: Seq<Tree>) -> Seq<Persona> {
    items.map_values(|t: Tree| persona_in(t))
}

/// Whether a page is as it should be.
pub open spec fn is_page(page: Tree) -> bool {
    &&& page.at("data"@).items() matches Some(items) && all_identities(items)
    &&& optional_at(page, "nextCursor"@) is Some
}

/// A page by the names of its parts.
pub open spec fn page_record(page: Tree) -> Tree {
    json::record_of(page, seq!["data"@, "nextCursor"@])
}

/// The list after a page, and the name of the next one.
pub open spec fn paged(c: Roster, page: Tree) -> (Roster, Result<Option<Seq<char>>, PageError>) {
    turned(c, page_record(page))
}

/// The list after a page that is given by the names of its parts.
pub open spec fn turned(c: Roster, page: Tree) -> (Roster, Result<Option<Seq<char>>, PageError>) {
    if !is_page(page) {
        (c, Err(PageError::Page))
    } else {
        let items = c.items + personas_in(page.at("data"@).items()->0);
        match flat(optional_at(page, "nextCursor"@)) {
            None => (Roster { items, ..c }, Ok(None)),
            Some(next) => if c.seen.contains(next) {
                (Roster { items, ..c }, Err(PageError::Pagination))
            } else if c.seen.len() + 1 >= MAX_PAGES {
                (Roster { items, seen: c.seen.push(next) }, Err(PageError::Pagination))
            } else {
                (Roster { items, seen: c.seen.push(next) }, Ok(Some(next)))
            },
        }
    }
}

pub open spec fn cursor_result(r: Result<Option<String>, PageError>) -> Result<
    Option<Seq<char>>,
    PageError,
> {
    match r {
        Ok(s) => Ok(text::text_option(s)),
        Err(e) => Err(e),
    }
}

/// The parameters with which a page is asked for.
pub fn page_request(cursor: Option<String>) -> (r: Json)
    ensures
        r@ == Tree::Object(
            Map::empty().insert("cursor"@, json::optional_text(text::text_option(cursor))).insert(
                "limit"@,
                Tree::Number(Quantity::Unsigned(100)),
            ),
        ),
{
    let mut r = Json::object();
    r.set("cursor".to_owned(), text_json(cursor));
    r.set("limit".to_owned(), Json::unsigned(100));
    r
}

impl Identities {
    pub fn new() -> (r: Identities)
        ensures
            r@ == (Roster { items: Seq::empty(), seen: Seq::empty() }),
    {
        let r = Identities { items: Vec::new(), seen: Vec::new() };
        assert(r@.items =~= Seq::empty());
        assert(r@.seen =~= Seq::empty());
        r
    }

    /// Adds a page; the name of the next one, if any.
    pub fn page(&mut self, page: &Json) -> (r: Result<Option<String>, PageError>)
        ensures
            (final(self)@, cursor_result(r)) == paged(old(self)@, page@),
    {
        let ghost start = self@;
        let names = ["data", "nextCursor"];
        assert(json::str_views(names@) =~= seq!["data"@, "nextCursor"@]);
        let listed = unlisted(page, &names);
        let record = match &listed {
            Some(record) => record,
            None => page,
        };
        let items = match record.items_at("data") {
            Some(items) => items,
            None => return Err(PageError::Page),
        };
        let ghost trees = json::trees_of(items@);
        let mut added: Vec<SessionIdentity> = Vec::new();
        let mut i: usize = 0;
        assert(identity::personas(added@) =~= personas_in(trees).take(0));
        while i < items.len()
            invariant
                i <= items@.len(),
                *self == *old(self),
                start == old(self)@,
                record@ == page_record(page@),
                record@.at("data"@).items() == Some(trees),
                trees.len() == items@.len(),
                forall|k: int| 0 <= k < items@.len() ==> #[trigger] trees[k] == items@[k]@,
                forall|k: int| 0 <= k < i ==> is_identity(#[trigger] trees[k]),
                identity::personas(added@) == personas_in(trees).take(i as int),
            decreases items@.len() - i,
        {
            assert(trees[i as int] == items@[i as int]@);
            match read_identity(&items[i]) {
                Some(identity) => {
                    let ghost before = identity::personas(added@);
                    added.push(identity);
                    assert(identity::personas(added@) =~= before.push(identity@));
                    assert(personas_in(trees).take(i + 1) =~= personas_in(trees).take(
                        i as int,
                    ).push(persona_in(trees[i as int])));
                },
                None => {
                    assert(!is_identity(trees[i as int]));
                    return Err(PageError::Page);
                },
            }
            i += 1;
        }
        assert(all_identities(trees));
        assert(personas_in(trees).take(trees.len() as int) =~= personas_in(trees));
        let next = match optional(record, "nextCursor") {
            Some(next) => next,
            None => return Err(PageError::Page),
        };
        self.items.append(&mut added);
        assert(identity::personas(self.items@) =~= start.items + personas_in(trees));
        match next {
            None => Ok(None),
            Some(next) => {
                if list_contains(&self.seen, &next) {
                    return Err(PageError::Pagination);
                }
                self.seen.push(next.clone());
                assert(text::texts(self.seen@) =~= start.seen.push(next@));
                if self.seen.len() >= MAX_PAGES {
                    return Err(PageError::Pagination);
                }
                Ok(Some(next))
            },
        }
    }
}

/// The last identity of a thread.
pub open spec fn last_of(list: Seq<Persona>, thread: Seq<char>) -> Option<Persona>
    decreases list.len(),
{
    if list.len() == 0 {
        None
    } else if list.last().thread_id == thread {
        Some(list.last())
    } else {
        last_of(list.drop_last(), thread)
    }
}

/// Whether a pool has all its identities: every thread has one, and none is named twice.
pub open spec fn is_pool(threads: Seq<Seq<char>>, list: Seq<Persona>) -> bool {
    threads.no_duplicates() && forall|i: int|
        0 <= i < threads.len() ==> last_of(list, #[trigger] threads[i]) is Some
}

proof fn lemma_pool_so_far(threads: Seq<Seq<char>>, list: Seq<Persona>, n: int)
    requires
        0 <= n <= threads.len(),
        threads.take(n).no_duplicates(),
        forall|k: int| 0 <= k < n ==> last_of(list, #[trigger] threads[k]) is Some,
    ensures
        is_pool(threads.take(n), list),
{
    assert forall|k: int| 0 <= k < threads.take(n).len() implies last_of(
        list,
        #[trigger] threads.take(n)[k],
    ) is Some by {
        assert(threads.take(n)[k] == threads[k]);
    }
}

fn find_last(list: &Vec<SessionIdentity>, thread: &str) -> (r: Option<usize>)
    ensures
        r is Some <==> last_of(identity::personas(list@), thread@) is Some,
        r matches Some(i) ==> i < list@.len() && last_of(identity::personas(list@), thread@)
            == Some(list@[i as int]@),
{
    let ghost all = identity::personas(list@);
    let mut i: usize = list.len();
    assert(all.take(all.len() as int) =~= all);
    while i > 0
        invariant
            i <= list@.len(),
            all == identity::personas(list@),
            last_of(all, thread@) == last_of(all.take(i as int), thread@),
        decreases i,
    {
        assert(all.take(i as int).drop_last() =~= all.take(i - 1));
        assert(all.take(i as int).last() == list@[i - 1]@);
        i -= 1;
        if same(&list[i].thread_id, thread) {
            return Some(i);
        }
    }
    None
}

/// Whether a thread is the first that has no identity, or none left because it was named before.
pub open spec fn is_first_gap(threads: Seq<Seq<char>>, list: Seq<Persona>, i: int) -> bool {
    &&& 0 <= i < threads.len()
    &&& is_pool(threads.take(i), list)
    &&& last_of(list, threads[i]) is None || threads.take(i).contains(threads[i])
}

/// The identities of the pool's threads in the order in which these were made, or the first
/// thread that has none left.
pub fn select_pool_identities(thread_ids: &Vec<String>, identities: &Vec<SessionIdentity>) -> (r:
    Result<Vec<SessionIdentity>, String>)
    ensures
        r is Ok <==> is_pool(text::texts(thread_ids@), identity::personas(identities@)),
        r matches Ok(list) ==> list@.len() == thread_ids@.len() && forall|i: int|
            0 <= i < list@.len() ==> last_of(
                identity::personas(identities@),
                thread_ids@[i]@,
            ) == Some((#[trigger] list@[i])@),
        r matches Err(thread) ==> exists|i: int|
            #[trigger] is_first_gap(
                text::texts(thread_ids@),
                identity::personas(identities@),
                i,
            ) && thread@ == thread_ids@[i]@,
{
    let ghost threads = text::texts(thread_ids@);
    let ghost all = identity::personas(identities@);
    let mut out: Vec<SessionIdentity> = Vec::new();
    let mut used: Vec<String> = Vec::new();
    let mut i: usize = 0;
    assert(text::texts(used@) =~= threads.take(0));
    while i < thread_ids.len()
        invariant
            i <= thread_ids@.len(),
            threads == text::texts(thread_ids@),
            all == identity::personas(identities@),
            text::texts(used@) == threads.take(i as int),
            threads.take(i as int).no_duplicates(),
            out@.len() == i,
            forall|k: int|
                0 <= k < i ==> last_of(all, thread_ids@[k]@) == Some((#[trigger] out@[k])@),
            forall|k: int| 0 <= k < i ==> last_of(all, #[trigger] threads[k]) is Some,
        decreases thread_ids@.len() - i,
    {
        let thread = &thread_ids[i];
        assert(threads[i as int] == thread@);
        if list_contains(&used, thread) {
            proof {
                let k = choose|k: int| 0 <= k < i && threads.take(i as int)[k] == thread@;
                assert(threads[k] == threads[i as int]);
                lemma_pool_so_far(threads, all, i as int);
                assert(is_first_gap(threads, all, i as int));
            }
            return Err(thread.clone());
        }
        match find_last(identities, thread) {
            Some(at) => {
                out.push(identities[at].duplicate());
            },
            None => {
                proof {
                    assert(last_of(all, threads[i as int]) is None);
                    lemma_pool_so_far(threads, all, i as int);
                    assert(is_first_gap(threads, all, i as int));
                }
                return Err(thread.clone());
            },
        }
        let ghost before = text::texts(used@);
        used.push(thread.clone());
        proof {
            assert(text::texts(used@) =~= before.push(thread@));
            assert(threads.take(i + 1) =~= threads.take(i as int).push(thread@));
        }
        i += 1;
    }
    assert(threads.take(threads.len() as int) =~= threads);
    Ok(out)
}

/// How a failure is answered, where it does not stand for a fault of this process.
pub open spec fn failure_rejection(f: Failure) -> Option<Rejection> {
    match f {
        Failure::BindingLost => Some(Rejection::BindingLost),
        Failure::Full => Some(Rejection::Full),
        _ => None,
    }
}

/// How a failure is answered, where it does not stand for a fault of this process; where it
/// does, the connection to the thread manager is given up.
pub fn rejection_of(failure: Failure) -> (r: Option<Rejection>)
    ensures
        r == failure_rejection(failure),
{
    match failure {
        Failure::BindingLost => Some(Rejection::BindingLost),
        Failure::Full => Some(Rejection::Full),
        _ => None,
    }
}

/// What is asked of the one who speaks with the thread manager.
#[derive(Clone, Copy, Debug, PartialEq, Eq, Structural)]
pub enum CommandKind {
    Recover,
    Acquire,
    Release,
    Read,
}

/// Whether the connection is given up after a command.
pub open spec fn gives_up(kind: CommandKind, failed: bool, rejected: bool) -> bool {
    failed && kind != CommandKind::Recover && !(kind == CommandKind::Acquire && rejected)
}

/// Whether the connection is given up after a command: a failed recovery is tried again, a
/// refused acquisition is the caller's matter, and any other failure leaves it unclear what was
/// said.
pub fn is_fatal(kind: CommandKind, failed: bool, rejected: bool) -> (r: bool)
    ensures
        r == gives_up(kind, failed, rejected),
{
    match kind {
        CommandKind::Recover => false,
        CommandKind::Acquire => failed && !rejected,
        CommandKind::Release => failed,
        CommandKind::Read => failed,
    }
}

/// No page is asked for twice, and no more than there may be.
pub proof fn law_pages_are_bounded(c: Roster, page: Tree)
    requires
        c.seen.no_duplicates(),
        c.seen.len() < MAX_PAGES,
        paged(c, page).1 matches Ok(next) && next is Some,
    ensures
        paged(c, page).0.seen.no_duplicates(),
        paged(c, page).0.seen.len() < MAX_PAGES,
        paged(c, page).0.seen.len() == c.seen.len() + 1,
{
}

/// A request's answer is told from every other message by its identifier.
pub proof fn law_other_messages_are_passed_over(message: Tree, id: Seq<char>)
    requires
        message.text_at("id"@) != Some(id),
    ensures
        reply_of(message, id) == Response::Other,
{
}

/// The identifier of a request names the method, the process and its number; requests of one
/// process with different numbers have different ones.
pub proof fn law_identifiers_are_different(method: Seq<char>, process: u64, a: u64, b: u64)
    ensures
        id_of(method, process, a) == "responses-proxy-"@ + method + "-"@ + text::decimal(
            process as nat,
        ) + "-"@ + text::decimal(a as nat),
        id_of(method, process, a) == id_of(method, process, b) <==> a == b,
{
    let head = "responses-proxy-"@ + method + "-"@ + text::decimal(process as nat) + "-"@;
    let x = id_of(method, process, a);
    let y = id_of(method, process, b);
    assert(x.skip(head.len() as int) =~= text::decimal(a as nat));
    assert(y.skip(head.len() as int) =~= text::decimal(b as nat));
    text::law_numerals_stand_for_numbers(a);
    text::law_numerals_stand_for_numbers(b);
}

/// A request is sent with the version of the protocol, its identifier, its method and its
/// parameters.
pub proof fn law_how_requests_are_sent(id: Seq<char>, method: Seq<char>, params: Tree)
    ensures
        ({
            let t = request_tree(id, method, params);
            &&& t.at("jsonrpc"@) == Tree::Text("2.0"@)
            &&& t.at("id"@) == Tree::Text(id)
            &&& t.at("method"@) == Tree::Text(method)
            &&& t.at("params"@) == params
        }),
{
    reveal_strlit("jsonrpc");
    reveal_strlit("id");
    reveal_strlit("method");
    reveal_strlit("params");
    assert("jsonrpc"@.len() == 7 && "id"@.len() == 2 && "method"@.len() == 6 && "params"@.len()
        == 6);
    assert("method"@[0] == 'm' && "params"@[0] == 'p');
}

/// The process introduces itself by its name and its version, and asks for what is experimental
/// but for no attestation, no forms and all notifications.
pub proof fn law_how_the_process_introduces_itself(version: Seq<char>)
    ensures
        ({
            let t = introduction(version);
            let c = t.at("capabilities"@);
            &&& t.at("clientInfo"@).at("name"@) == Tree::Text("codex-responses-api-proxy"@)
            &&& t.at("clientInfo"@).at("version"@) == Tree::Text(version)
            &&& c.at("experimentalApi"@) == Tree::Bool(true)
            &&& c.at("requestAttestation"@) == Tree::Bool(false)
            &&& c.at("mcpServerOpenaiFormElicitation"@) == Tree::Bool(false)
            &&& c.at("optOutNotificationMethods"@) == Tree::Array(Seq::empty())
        }),
{
    reveal_strlit("clientInfo");
    reveal_strlit("capabilities");
    reveal_strlit("name");
    reveal_strlit("version");
    reveal_strlit("experimentalApi");
    reveal_strlit("requestAttestation");
    reveal_strlit("mcpServerOpenaiFormElicitation");
    reveal_strlit("optOutNotificationMethods");
    assert("clientInfo"@.len() == 10 && "capabilities"@.len() == 12 && "name"@.len() == 4
        && "version"@.len() == 7 && "experimentalApi"@.len() == 15 && "requestAttestation"@.len()
        == 18 && "mcpServerOpenaiFormElicitation"@.len() == 30 && "optOutNotificationMethods"@.len()
        == 25);
}

/// A message under the identifier of a request is its answer: an error, with its code and its
/// words, before a result, and neither where it holds neither.
pub proof fn law_what_answers_a_request(m: Map<Seq<char>, Tree>, id: Seq<char>)
    requires
        m.contains_key("id"@),
        m["id"@] == Tree::Text(id),
    ensures
        ({
            let r = reply_of(Tree::Object(m), id);
            let e = m["error"@];
            &&& m.contains_key("error"@) && e is Object ==> {
                &&& e.at("code"@).signed() is Some && e.at("message"@) is Text ==> r
                    == Response::Error(e.at("code"@).signed()->0, e.at("message"@)->Text_0)
                &&& !(e.at("code"@).signed() is Some && e.at("message"@) is Text) ==> r is BadError
            }
            &&& m.contains_key("error"@) && !(e is Object) && !(e is Array) ==> r is BadError
            &&& !m.contains_key("error"@) && m.contains_key("result"@) ==> r == Response::Result(
                m["result"@],
            )
            &&& !m.contains_key("error"@) && !m.contains_key("result"@) ==> r is NoResult
        }),
{
}

/// A text or nothing: null, or no member at all, stands for nothing.
pub open spec fn may_be_text(t: Tree, key: Seq<char>, s: Option<Seq<char>>) -> bool {
    (s is None ==> t.at(key) is Null) && (s matches Some(v) ==> t.at(key) == Tree::Text(v))
}

/// An object is an identity where its thread, its session, its installation and its window are
/// texts, and its parent and its turns are texts or null; the identity has each of them.
pub proof fn law_what_an_identity_is(m: Map<Seq<char>, Tree>)
    ensures
        ({
            let t = Tree::Object(m);
            let p = persona_in(t);
            &&& is_identity(t) <==> {
                &&& t.at("threadId"@) is Text && t.at("sessionId"@) is Text
                &&& t.at("installationId"@) is Text && t.at("windowId"@) is Text
                &&& t.at("parentThreadId"@) is Text || t.at("parentThreadId"@) is Null
                &&& t.at("turnId"@) is Text || t.at("turnId"@) is Null
                &&& t.at("rootTurnId"@) is Text || t.at("rootTurnId"@) is Null
                &&& t.at("parentTurnId"@) is Text || t.at("parentTurnId"@) is Null
            }
            &&& is_identity(t) ==> {
                &&& t.at("threadId"@) == Tree::Text(p.thread_id)
                &&& t.at("sessionId"@) == Tree::Text(p.session_id)
                &&& t.at("installationId"@) == Tree::Text(p.installation_id)
                &&& t.at("windowId"@) == Tree::Text(p.window_id)
                &&& may_be_text(t, "parentThreadId"@, p.parent_thread_id)
                &&& may_be_text(t, "turnId"@, p.turn_id)
                &&& may_be_text(t, "rootTurnId"@, p.root_turn_id)
                &&& may_be_text(t, "parentTurnId"@, p.parent_turn_id)
            }
        }),
{
}

/// The parts of an identity that is written as a list come in this order: the thread, the
/// session, the installation, the window, the parent, and then its turn, the one at its root and
/// the one before.
pub proof fn law_order_of_an_identity()
    ensures
        identity_names().len() == 8,
        identity_names()[0] == "threadId"@,
        identity_names()[1] == "sessionId"@,
        identity_names()[2] == "installationId"@,
        identity_names()[3] == "windowId"@,
        identity_names()[4] == "parentThreadId"@,
        identity_names()[5] == "turnId"@,
        identity_names()[6] == "rootTurnId"@,
        identity_names()[7] == "parentTurnId"@,
{
}

/// A page adds its identities behind those that came before. The name of the next page is asked
/// for where it was not announced before and fewer than a hundred were; without one the list is
/// complete. A page that is not as it should be adds nothing.
pub proof fn law_how_pages_are_added(c: Roster, m: Map<Seq<char>, Tree>, i: int)
    ensures
        ({
            let page = Tree::Object(m);
            let (after, r) = paged(c, page);
            let next = page.at("nextCursor"@);
            let good = page.at("data"@) is Array && (next is Null || next is Text) && forall|k: int|
                0 <= k < page.at("data"@)->Array_0.len() ==> is_identity(
                    #[trigger] page.at("data"@)->Array_0[k],
                );
            let items = page.at("data"@)->Array_0;
            &&& !good <==> r == Err::<Option<Seq<char>>, PageError>(PageError::Page)
            &&& !good ==> after == c
            &&& good ==> {
                &&& after.items.len() == c.items.len() + items.len()
                &&& after.items.take(c.items.len() as int) == c.items
                &&& 0 <= i < items.len() ==> after.items[c.items.len() + i] == persona_in(items[i])
                &&& next is Null ==> r == Ok::<Option<Seq<char>>, PageError>(None) && after.seen
                    == c.seen
                &&& next is Text && !c.seen.contains(next->Text_0) && c.seen.len() + 1 < 100 ==> r
                    == Ok::<Option<Seq<char>>, PageError>(Some(next->Text_0)) && after.seen
                    == c.seen.push(next->Text_0)
                &&& next is Text && (c.seen.contains(next->Text_0) || c.seen.len() + 1 >= 100) ==> r
                    == Err::<Option<Seq<char>>, PageError>(PageError::Pagination)
            }
        }),
{
    let page = Tree::Object(m);
    if page.at("data"@) is Array {
        let items = page.at("data"@)->Array_0;
        assert((c.items + personas_in(items)).take(c.items.len() as int) =~= c.items);
    }
}

/// The identity of a thread is the last of the list that is of it.
pub proof fn law_last_identity_counts(list: Seq<Persona>, thread: Seq<char>, i: int)
    ensures
        last_of(list, thread) is None <==> forall|k: int|
            0 <= k < list.len() ==> (#[trigger] list[k]).thread_id != thread,
        0 <= i < list.len() && list[i].thread_id == thread && (forall|k: int|
            i < k < list.len() ==> (#[trigger] list[k]).thread_id != thread) ==> last_of(
            list,
            thread,
        ) == Some(list[i]),
    decreases list.len(),
{
    if list.len() > 0 {
        let front = list.drop_last();
        let end = list.len() - 1;
        assert(list[end] == list.last());
        assert(forall|k: int| 0 <= k < end ==> #[trigger] list[k] == front[k]);
        law_last_identity_counts(front, thread, i);
        if list.last().thread_id == thread {
            assert(list[end].thread_id == thread);
        } else {
            if last_of(front, thread) is None {
                assert forall|k: int| 0 <= k < list.len() implies (#[trigger] list[k]).thread_id
                    != thread by {
                    if k < end {
                        assert(front[k].thread_id != thread);
                    }
                }
            }
            if forall|k: int| 0 <= k < list.len() ==> (#[trigger] list[k]).thread_id != thread {
                assert forall|k: int| 0 <= k < front.len() implies (#[trigger] front[k]).thread_id
                    != thread by {
                    assert(list[k].thread_id != thread);
                }
            }
            if 0 <= i < end && list[i].thread_id == thread && (forall|k: int|
                i < k < list.len() ==> (#[trigger] list[k]).thread_id != thread) {
                assert forall|k: int| i < k < front.len() implies (#[trigger] front[k]).thread_id
                    != thread by {
                    assert(list[k].thread_id != thread);
                }
            }
        }
    }
}

/// A pool is complete where no thread is named twice and each is that of an identity in the list.
pub proof fn law_when_a_pool_is_complete(threads: Seq<Seq<char>>, list: Seq<Persona>)
    ensures
        is_pool(threads, list) <==> threads.no_duplicates() && forall|i: int|
            0 <= i < threads.len() ==> exists|k: int|
                0 <= k < list.len() && (#[trigger] list[k]).thread_id == #[trigger] threads[i],
{
    assert forall|i: int| 0 <= i < threads.len() implies (last_of(list, #[trigger] threads[i])
        is Some <==> exists|k: int|
        0 <= k < list.len() && (#[trigger] list[k]).thread_id == threads[i]) by {
        law_last_identity_counts(list, threads[i], 0);
    }
    if is_pool(threads, list) {
        assert forall|i: int| 0 <= i < threads.len() implies exists|k: int|
            0 <= k < list.len() && (#[trigger] list[k]).thread_id == #[trigger] threads[i] by {
            assert(last_of(list, threads[i]) is Some);
        }
    }
}

/// Only a lost binding and a full registry are the caller's matter; every other failure is one of
/// this process.
pub proof fn law_whose_failure_it_is(f: Failure)
    ensures
        failure_rejection(f) == Some(Rejection::BindingLost) <==> f == Failure::BindingLost,
        failure_rejection(f) == Some(Rejection::Full) <==> f == Failure::Full,
        failure_rejection(f) is None <==> f != Failure::BindingLost && f != Failure::Full,
{
}

/// Pages, identities and errors may be written as lists of their values: what such a list says is
/// what the object with these members says. A page lists its data and then the name of the next
/// one, and an error its code and then its words.
pub proof fn law_lists_say_the_same(c: Roster, id: Seq<char>, a: Tree, b: Tree, m: Map<Seq<char>, Tree>)
    requires
        m.contains_key("id"@),
        m["id"@] == Tree::Text(id),
        m.contains_key("error"@),
        m["error"@] == Tree::Array(seq![a, b]),
    ensures
        paged(c, Tree::Array(seq![a, b])) == paged(
            c,
            Tree::Object(Map::empty().insert("data"@, a).insert("nextCursor"@, b)),
        ),
        reply_of(Tree::Object(m), id) == reply_of(
            Tree::Object(
                m.insert(
                    "error"@,
                    Tree::Object(Map::empty().insert("code"@, a).insert("message"@, b)),
                ),
            ),
            id,
        ),
{
    reveal_strlit("id");
    reveal_strlit("error");
    assert("id"@.len() == 2 && "error"@.len() == 5);
    let two = seq![a, b];
    let one = two.drop_last();
    assert(one =~= seq![a]);
    assert(one.drop_last() =~= Seq::empty());
    assert(two.last() == b && one.last() == a);
    let pages = seq!["data"@, "nextCursor"@];
    let errors = seq!["code"@, "message"@];
    reveal_with_fuel(json::named_values, 3);
    assert(json::named_values(two, pages) =~= Map::empty().insert("data"@, a).insert(
        "nextCursor"@,
        b,
    ));
    assert(json::named_values(two, errors) =~= Map::empty().insert("code"@, a).insert(
        "message"@,
        b,
    ));
}

/// Only a command that failed gives the connection up: a release or a read always, an acquisition
/// where it was not merely refused, and a recovery never.
pub proof fn law_when_the_connection_is_given_up(kind: CommandKind, rejected: bool)
    ensures
        !gives_up(kind, false, rejected),
        gives_up(CommandKind::Release, true, rejected),
        gives_up(CommandKind::Read, true, rejected),
        gives_up(CommandKind::Acquire, true, rejected) <==> !rejected,
        !gives_up(CommandKind::Recover, true, rejected),
{
}

} // verus!
