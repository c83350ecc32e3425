//! One upstream response as it passes: its notifications, its relay and its body.
use crate::json;
use crate::json::push_json;
use crate::json::unlisted;
use crate::json::Json;
use crate::json::Quantity;
use crate::json::Tree;
use crate::signals;
use crate::signals::Noted;
use crate::signals::Observation;
use crate::signals::Observer;
use crate::signals::Watching;
use crate::table;
use crate::table::Table;
use crate::text;
use crate::text::contains_text;
use crate::text::same;
use vstd::prelude::*;

verus! {

broadcast use {
    vstd::seq_lib::group_seq_properties,
    vstd::map::group_map_axioms,
    vstd::set::group_set_axioms,
};

/// The largest piece of a body in one notification, in bytes.
pub const MAX_CHUNK: usize = 16384;

/// The identifier of a request to the thread manager.
#[derive(Debug)]
pub enum RequestId {
    Text(String),
    Number(u64),
}

impl RequestId {
    pub open spec fn tree(self) -> Tree {
        match self {
            RequestId::Text(s) => Tree::Text(s@),
            RequestId::Number(n) => Tree::Number(Quantity::Unsigned(n)),
        }
    }
}

/// What is known of one response, for the one who asked for it. The request's own result or
/// error ends the stream.
#[derive(Debug)]
pub struct RawResponseStreamNotification {
    pub request_id: RequestId,
    pub event: RawResponseStreamEvent,
}

#[derive(Debug)]
pub enum RawResponseStreamEvent {
    Started { status: u16, headers: Table<String, String> },
    Chunk {
        /// The exact bytes, neither decoded nor parsed.
        data: Vec<u8>,
    },
}

/// What is handed on of a response: its parts, and that it is complete.
#[derive(Debug)]
pub enum Event {
    Stream(RawResponseStreamEvent),
    Completed,
}

/// The model of an `Event`.
pub enum Happening {
    Started { status: u16, headers: Map<Seq<char>, Seq<char>> },
    Chunk { data: Seq<u8> },
    Completed,
}

pub open spec fn texts_map(m: Map<Seq<char>, String>) -> Map<Seq<char>, Seq<char>> {
    m.map_values(|s: String| s@)
}

impl View for RawResponseStreamEvent {
    type V = Happening;

    open spec fn view(&self) -> Happening {
        match *self {
            RawResponseStreamEvent::Started { status, headers } => Happening::Started {
                status,
                headers: texts_map(headers@),
            },
            RawResponseStreamEvent::Chunk { data } => Happening::Chunk { data: data@ },
        }
    }
}

impl View for Event {
    type V = Happening;

    open spec fn view(&self) -> Happening {
        match *self {
            Event::Stream(e) => e@,
            Event::Completed => Happening::Completed,
        }
    }
}

impl Event {
    pub open spec fn wf(&self) -> bool {
        match *self {
            Event::Stream(e) => e.wf(),
            Event::Completed => true,
        }
    }
}

impl RawResponseStreamEvent {
    pub open spec fn wf(&self) -> bool {
        match *self {
            RawResponseStreamEvent::Started { status, headers } => headers.wf(),
            _ => true,
        }
    }
}

pub open spec fn byte_trees(data: Seq<u8>) -> Seq<Tree> {
    data.map_values(|b: u8| Tree::Number(Quantity::Unsigned(b as u64)))
}

pub open spec fn text_trees(m: Map<Seq<char>, Seq<char>>) -> Map<Seq<char>, Tree> {
    m.map_values(|s: Seq<char>| Tree::Text(s))
}

/// An event as it is sent.
pub open spec fn event_tree(e: Happening) -> Tree {
    let m = Map::<Seq<char>, Tree>::empty();
    match e {
        Happening::Started { status, headers } => Tree::Object(
            m.insert("type"@, Tree::Text("started"@)).insert(
                "status"@,
                Tree::Number(Quantity::Unsigned(status as u64)),
            ).insert("headers"@, Tree::Object(text_trees(headers))),
        ),
        Happening::Chunk { data } => Tree::Object(
            m.insert("type"@, Tree::Text("chunk"@)).insert("data"@, Tree::Array(byte_trees(data))),
        ),
        Happening::Completed => Tree::Object(m.insert("type"@, Tree::Text("completed"@))),
    }
}

fn headers_json(t: &Table<String, String>) -> (r: Json)
    requires
        t.wf(),
    ensures
        r@ == Tree::Object(text_trees(texts_map(t@))),
{
    let ghost all = t.entries@;
    let ghost f = |s: String| s@;
    let ghost g = |s: Seq<char>| Tree::Text(s);
    let mut r = Json::object();
    let mut i: usize = 0;
    assert(all.take(0) =~= Seq::empty());
    assert(table::map_of(all.take(0)).map_values(f).map_values(g) =~= Map::empty());
    while i < t.entries.len()
        invariant
            i <= t.entries@.len(),
            all == t.entries@,
            f == (|s: String| s@),
            g == (|s: Seq<char>| Tree::Text(s)),
            r@ == Tree::Object(table::map_of(all.take(i as int)).map_values(f).map_values(g)),
        decreases t.entries@.len() - i,
    {
        proof {
            assert(all.take(i + 1).drop_last() == all.take(i as int));
            let m = table::map_of(all.take(i as int));
            table::lemma_mapped_insert(m, f, all[i as int].0@, all[i as int].1);
            table::lemma_mapped_insert(m.map_values(f), g, all[i as int].0@, all[i as int].1@);
        }
        r.set(t.entries[i].0.clone(), Json::Text(t.entries[i].1.clone()));
        i += 1;
    }
    assert(all.take(all.len() as int) == all);
    r
}

fn bytes_json(data: &Vec<u8>) -> (r: Json)
    ensures
        r@ == Tree::Array(byte_trees(data@)),
{
    let ghost target = byte_trees(data@);
    let mut out: Vec<Json> = Vec::new();
    let mut i: usize = 0;
    assert(json::trees_of(out@) =~= target.take(0));
    while i < data.len()
        invariant
            i <= data@.len(),
            target == byte_trees(data@),
            json::trees_of(out@) == target.take(i as int),
        decreases data@.len() - i,
    {
        push_json(&mut out, Json::unsigned(data[i] as u64));
        assert(target.take(i + 1) =~= target.take(i as int).push(target[i as int]));
        i += 1;
    }
    assert(target.take(target.len() as int) =~= target);
    Json::Array(out)
}

impl RawResponseStreamNotification {
    /// The notification as it is sent.
    pub fn to_json(&self) -> (r: Json)
        requires
            self.event.wf(),
        ensures
            r@ == Tree::Object(
                Map::empty().insert("requestId"@, self.request_id.tree()).insert(
                    "event"@,
                    event_tree(self.event@),
                ),
            ),
    {
        let mut event = Json::object();
        match &self.event {
            RawResponseStreamEvent::Started { status, headers } => {
                event.set("type".to_owned(), Json::Text("started".to_owned()));
                event.set("status".to_owned(), Json::unsigned(*status as u64));
                event.set("headers".to_owned(), headers_json(headers));
            },
            RawResponseStreamEvent::Chunk { data } => {
                event.set("type".to_owned(), Json::Text("chunk".to_owned()));
                event.set("data".to_owned(), bytes_json(data));
            },
        }
        let id = match &self.request_id {
            RequestId::Text(s) => Json::Text(s.clone()),
            RequestId::Number(n) => Json::unsigned(*n),
        };
        let mut r = Json::object();
        r.set("requestId".to_owned(), id);
        r.set("event".to_owned(), event);
        r
    }
}

/// Whether every member of an object is a text.
pub open spec fn all_texts(m: Map<Seq<char>, Tree>) -> bool {
    forall|k: Seq<char>| #[trigger] m.contains_key(k) ==> m[k] is Text
}

pub open spec fn texts_in(m: Map<Seq<char>, Tree>) -> Map<Seq<char>, Seq<char>> {
    m.map_values(|t: Tree| t->Text_0)
}

/// Whether a value is a byte.
pub open spec fn is_byte(t: Tree) -> bool {
    t.number() matches Some(n) && n <= 255
}

pub open spec fn all_bytes(items: Seq<Tree>) -> bool {
    forall|i: int| 0 <= i < items.len() ==> is_byte(#[trigger] items[i])
}

pub open spec fn bytes_in(items: Seq<Tree>) -> Seq<u8> {
    items.map_values(|t: Tree| (t.number()->0) as u8)
}

/// The names of the parts of an event that is written as a list, by the kind that comes first.
pub open spec fn event_names(items: Seq<Tree>) -> Seq<Seq<char>> {
    if items.len() > 0 && items[0] == Tree::Text("started"@) {
        seq!["type"@, "status"@, "headers"@]
    } else if items.len() > 0 && items[0] == Tree::Text("chunk"@) {
        seq!["type"@, "data"@]
    } else {
        seq!["type"@]
    }
}

/// An event by the names of its parts.
pub open spec fn event_record(t: Tree) -> Tree {
    match t {
        Tree::Array(items) => json::record_of(t, event_names(items)),
        other => other,
    }
}

/// The event that was sent.
pub open spec fn event_of(t: Tree) -> Option<Happening> {
    event_at(event_record(t))
}

/// The event whose parts an object holds.
pub open spec fn event_at(t: Tree) -> Option<Happening> {
    if t.says("type"@, "started"@) {
        match (t.at("status"@).number(), t.at("headers"@)) {
            (Some(status), Tree::Object(m)) => if status <= 65535 && all_texts(m) {
                Some(Happening::Started { status: status as u16, headers: texts_in(m) })
            } else {
                None
            },
            _ => None,
        }
    } else if t.says("type"@, "chunk"@) {
        match t.at("data"@).items() {
            Some(items) => if all_bytes(items) {
                Some(Happening::Chunk { data: bytes_in(items) })
            } else {
                None
            },
            None => None,
        }
    } else if t.says("type"@, "completed"@) {
        Some(Happening::Completed)
    } else {
        None
    }
}

pub open spec fn event_view(e: Option<Event>) -> Option<Happening> {
    match e {
        Some(e) => Some(e@),
        None => None,
    }
}

/// The texts of an object, where every member is one.
fn read_texts(fields: &Vec<(String, Json)>) -> (r: Option<Table<String, String>>)
    ensures
        r is Some <==> all_texts(json::fields_of(fields@)),
        r matches Some(t) ==> t.wf() && texts_map(t@) == texts_in(json::fields_of(fields@)),
{
    // Of two members with one name the later counts, so the members are read from the front.
    let ghost f = |s: String| s@;
    let ghost g = |t: Tree| t->Text_0;
    let mut out: Table<String, String> = Table::new();
    let mut odd: Vec<String> = Vec::new();
    let mut i: usize = 0;
    assert(fields@.take(0) =~= Seq::empty());
    while i < fields.len()
        invariant
            i <= fields@.len(),
            out.wf(),
            texts_consistent(
                json::fields_of(fields@.take(i as int)),
                out@,
                text::texts(odd@),
            ),
        decreases fields@.len() - i,
    {
        let name = &fields[i].0;
        let ghost m = json::fields_of(fields@.take(i as int));
        let ghost before = out@;
        let ghost odd_before = text::texts(odd@);
        assert(fields@.take(i + 1).drop_last() == fields@.take(i as int));
        match &fields[i].1 {
            Json::Text(s) => {
                out.insert(name.clone(), s.clone());
                remove_text(&mut odd, name);
            },
            _ => {
                let _ = out.remove(name);
                remove_text(&mut odd, name);
                let ghost rest = text::texts(odd@);
                odd.push(name.clone());
                assert(text::texts(odd@) =~= rest.push(name@));
            },
        }
        proof {
            lemma_texts_step(
                m,
                before,
                odd_before,
                name@,
                fields@[i as int].1@,
                out@,
                text::texts(odd@),
            );
        }
        i += 1;
    }
    assert(fields@.take(fields@.len() as int) == fields@);
    let ghost m = json::fields_of(fields@);
    if odd.len() > 0 {
        proof {
            let k = text::texts(odd@)[0];
            assert(text::texts(odd@).contains(k));
            assert(m.contains_key(k) && !(m[k] is Text));
        }
        return None;
    }
    proof {
        assert forall|k: Seq<char>| #[trigger] m.contains_key(k) implies m[k] is Text by {
            if !(m[k] is Text) {
                assert(text::texts(odd@).contains(k));
            }
        }
        assert forall|k: Seq<char>| #[trigger] texts_map(out@).contains_key(k) implies texts_in(
            m,
        ).contains_key(k) && texts_map(out@)[k] == texts_in(m)[k] by {
            assert(out@.contains_key(k));
        }
        assert forall|k: Seq<char>| #[trigger] texts_in(m).contains_key(k) implies texts_map(
            out@,
        ).contains_key(k) by {
            assert(m.contains_key(k));
        }
        table::lemma_same_map(texts_map(out@), texts_in(m));
    }
    Some(out)
}

/// Whether a table holds exactly the texts of an object, and a list the names of its other
/// members.
spec fn texts_consistent(
    m: Map<Seq<char>, Tree>,
    out: Map<Seq<char>, String>,
    odd: Seq<Seq<char>>,
) -> bool {
    &&& forall|k: Seq<char>| #[trigger] out.contains_key(k) <==> m.contains_key(k) && m[k] is Text
    &&& forall|k: Seq<char>| #[trigger] out.contains_key(k) ==> m[k] == Tree::Text(out[k]@)
    &&& forall|k: Seq<char>| #[trigger] odd.contains(k) <==> m.contains_key(k) && !(m[k] is Text)
}

proof fn lemma_texts_step(
    m: Map<Seq<char>, Tree>,
    before: Map<Seq<char>, String>,
    odd_before: Seq<Seq<char>>,
    name: Seq<char>,
    value: Tree,
    after: Map<Seq<char>, String>,
    odd_after: Seq<Seq<char>>,
)
    requires
        texts_consistent(m, before, odd_before),
        value is Text ==> after == before.insert(name, after[name]) && Tree::Text(after[name]@)
            == value && (forall|k: Seq<char>| #[trigger]
            odd_after.contains(k) <==> odd_before.contains(k) && k != name),
        !(value is Text) ==> after == before.remove(name) && (forall|k: Seq<char>| #[trigger]
            odd_after.contains(k) <==> odd_before.contains(k) || k == name),
    ensures
        texts_consistent(m.insert(name, value), after, odd_after),
{
    let n = m.insert(name, value);
    assert forall|k: Seq<char>| #[trigger] after.contains_key(k) <==> n.contains_key(k)
        && n[k] is Text by {
        if k != name {
            assert(before.contains_key(k) <==> m.contains_key(k) && m[k] is Text);
        }
    }
    assert forall|k: Seq<char>| #[trigger] after.contains_key(k) implies n[k] == Tree::Text(
        after[k]@,
    ) by {
        if k != name {
            assert(before.contains_key(k));
        }
    }
    assert forall|k: Seq<char>| #[trigger] odd_after.contains(k) <==> n.contains_key(k)
        && !(n[k] is Text) by {
        assert(odd_before.contains(k) <==> m.contains_key(k) && !(m[k] is Text));
    }
}

fn remove_text(list: &mut Vec<String>, s: &str)
    ensures
        forall|k: Seq<char>| #[trigger]
            text::texts(final(list)@).contains(k) <==> text::texts(old(list)@).contains(k) && k
                != s@,
{
    let ghost all = text::texts(list@);
    let mut out: Vec<String> = Vec::new();
    let mut i: usize = 0;
    while i < list.len()
        invariant
            i <= list@.len(),
            *list == *old(list),
            all == text::texts(list@),
            forall|k: Seq<char>| #[trigger]
                text::texts(out@).contains(k) <==> all.take(i as int).contains(k) && k != s@,
        decreases list@.len() - i,
    {
        let ghost before = text::texts(out@);
        let ghost a = all.take(i as int);
        if !same(&list[i], s) {
            out.push(list[i].clone());
            assert(text::texts(out@) =~= before.push(all[i as int]));
        }
        proof {
            let b = all.take(i + 1);
            assert(b =~= a.push(all[i as int]));
            lemma_push_contains(a, all[i as int]);
            lemma_push_contains(before, all[i as int]);
        }
        i += 1;
    }
    assert(all.take(all.len() as int) == all);
    *list = out;
}

proof fn lemma_push_contains(list: Seq<Seq<char>>, a: Seq<char>)
    ensures
        forall|k: Seq<char>| #[trigger] list.push(a).contains(k) <==> list.contains(k) || k == a,
{
    assert forall|k: Seq<char>| #[trigger] list.push(a).contains(k) <==> list.contains(k) || k
        == a by {
        if list.contains(k) {
            let i = choose|i: int| 0 <= i < list.len() && list[i] == k;
            assert(list.push(a)[i] == k);
        }
        assert(list.push(a)[list.len() as int] == a);
    }
}

/// The bytes of a list, where every item is one.
fn read_bytes(items: &Vec<Json>) -> (r: Option<Vec<u8>>)
    ensures
        r is Some <==> all_bytes(json::trees_of(items@)),
        r matches Some(data) ==> data@ == bytes_in(json::trees_of(items@)),
{
    let ghost trees = json::trees_of(items@);
    let mut out: Vec<u8> = Vec::new();
    let mut i: usize = 0;
    proof {
        json::lemma_trees_of(items@);
    }
    while i < items.len()
        invariant
            i <= items@.len(),
            trees == json::trees_of(items@),
            trees.len() == items@.len(),
            forall|k: int| 0 <= k < items@.len() ==> #[trigger] trees[k] == json::tree_of(
                items@[k],
            ),
            out@.len() == i,
            forall|k: int|
                0 <= k < i ==> is_byte(#[trigger] trees[k]) && out@[k] == (trees[k].number()->0) as u8,
        decreases items@.len() - i,
    {
        assert(trees[i as int] == items@[i as int]@);
        match items[i].as_number() {
            Some(n) => {
                if n > 255 {
                    assert(!is_byte(trees[i as int]));
                    return None;
                }
                out.push(n as u8);
            },
            None => {
                assert(!is_byte(trees[i as int]));
                return None;
            },
        }
        i += 1;
    }
    assert(out@ =~= bytes_in(trees));
    Some(out)
}

/// An event that is written as a list, as an object; nothing where it is not written as a list.
fn unlisted_event(t: &Json) -> (r: Option<Json>)
    ensures
        r is Some <==> t@ is Array,
        r matches Some(j) ==> j@ == event_record(t@),
{
    let items = match t {
        Json::Array(items) => items,
        _ => return None,
    };
    let ghost trees = json::trees_of(items@);
    proof {
        json::lemma_trees_of(items@);
        if items@.len() > 0 {
            assert(trees[0] == items@[0]@);
        }
    }
    let started = items.len() > 0 && is_text(&items[0], "started");
    let chunk = items.len() > 0 && is_text(&items[0], "chunk");
    if started {
        let names = ["type", "status", "headers"];
        assert(json::str_views(names@) =~= seq!["type"@, "status"@, "headers"@]);
        unlisted(t, &names)
    } else if chunk {
        let names = ["type", "data"];
        assert(json::str_views(names@) =~= seq!["type"@, "data"@]);
        unlisted(t, &names)
    } else {
        let names = ["type"];
        assert(json::str_views(names@) =~= seq!["type"@]);
        unlisted(t, &names)
    }
}

fn is_text(t: &Json, s: &str) -> (r: bool)
    ensures
        r == (t@ == Tree::Text(s@)),
{
    match t {
        Json::Text(other) => same(other, s),
        _ => false,
    }
}

/// Reads an event that was sent.
pub fn read_event(t: &Json) -> (r: Option<Event>)
    ensures
        event_view(r) == event_of(t@),
        r matches Some(e) ==> e.wf(),
{
    let listed = unlisted_event(t);
    let t = match &listed {
        Some(t) => t,
        None => t,
    };
    if t.says("type", "started") {
        let status: u64 = match t.number_at("status") {
            Some(n) => n,
            None => return None,
        };
        match t.get("headers") {
            Some(Json::Object(fields)) => {
                if status > 65535 {
                    return None;
                }
                match read_texts(fields) {
                    Some(headers) => Some(
                        Event::Stream(
                            RawResponseStreamEvent::Started { status: status as u16, headers },
                        ),
                    ),
                    None => None,
                }
            },
            _ => None,
        }
    } else if t.says("type", "chunk") {
        match t.items_at("data") {
            Some(items) => match read_bytes(items) {
                Some(data) => Some(Event::Stream(RawResponseStreamEvent::Chunk { data })),
                None => None,
            },
            None => None,
        }
    } else if t.says("type", "completed") {
        Some(Event::Completed)
    } else {
        None
    }
}

/// What is sent is read back as it was: the status, the headers and the exact bytes.
pub proof fn law_events_read_back(e: Happening)
    ensures
        event_of(event_tree(e)) == Some(e),
{
    reveal_strlit("type");
    reveal_strlit("status");
    reveal_strlit("headers");
    reveal_strlit("data");
    reveal_strlit("started");
    reveal_strlit("chunk");
    reveal_strlit("completed");
    assert("type"@[0] == 't' && "data"@[0] == 'd');
    assert("type"@.len() == 4 && "status"@.len() == 6 && "headers"@.len() == 7);
    assert("started"@.len() == 7 && "chunk"@.len() == 5 && "completed"@.len() == 9);
    match e {
        Happening::Started { status, headers } => {
            let m = text_trees(headers);
            assert(texts_in(m) =~= headers);
            let t = event_tree(e);
            assert(t.at("status"@).number() == Some(status as u64));
            assert(t.at("headers"@) == Tree::Object(m));
        },
        Happening::Chunk { data } => {
            let items = byte_trees(data);
            assert(bytes_in(items) =~= data);
        },
        Happening::Completed => {},
    }
}

/// A response on its way from the thread manager.
#[derive(Debug)]
pub struct Relay {
    /// The identifier of the request.
    pub id: String,
    /// Whether a stream was asked for.
    pub streaming: bool,
    pub observer: Observer,
    pub status: u16,
}

/// The model of a `Relay`.
pub struct Passage {
    pub id: Seq<char>,
    pub streaming: bool,
    pub watch: Watching,
    pub status: u16,
}

impl View for Relay {
    type V = Passage;

    open spec fn view(&self) -> Passage {
        Passage {
            id: self.id@,
            streaming: self.streaming,
            watch: self.observer@,
            status: self.status,
        }
    }
}

/// What a message of the thread manager means for a response.
#[derive(Debug)]
pub enum Relayed {
    /// It is about something else.
    Ignored,
    /// A part of the response is to be handed on, and whether it is what the account answers a
    /// request with that it turns away.
    Part(RawResponseStreamEvent, bool),
    /// The thread manager said so itself that the response is complete.
    Completed,
    /// The request is over.
    Done,
    /// The request failed; nothing more comes of it here.
    Failed(Json),
    NoResult,
    BadEvent,
}

/// The model of a `Relayed`.
pub enum Handed {
    Ignored,
    /// An event, and whether it tells of the account.
    Event(Happening, bool),
    Done,
    Failed(Tree),
    NoResult,
    BadEvent,
}

impl View for Relayed {
    type V = Handed;

    open spec fn view(&self) -> Handed {
        match *self {
            Relayed::Ignored => Handed::Ignored,
            Relayed::Part(e, told) => Handed::Event(e@, told),
            Relayed::Completed => Handed::Event(Happening::Completed, false),
            Relayed::Done => Handed::Done,
            Relayed::Failed(j) => Handed::Failed(j@),
            Relayed::NoResult => Handed::NoResult,
            Relayed::BadEvent => Handed::BadEvent,
        }
    }
}

/// Whether a response comes as a stream: as its content type says, or else as was asked for.
pub open spec fn is_stream(p: Passage, status: u16, headers: Map<Seq<char>, Seq<char>>) -> bool {
    if headers.contains_key("content-type"@) {
        text::occurs(headers["content-type"@], "text/event-stream"@)
    } else {
        p.streaming && status < 400
    }
}

/// Whether an event is the start of a response that turns the request away, which tells of the
/// account.
pub open spec fn turns_away(e: Happening) -> bool {
    e matches Happening::Started { status, headers } && status >= 400
}

/// A response after one of its events.
pub open spec fn passed(p: Passage, e: Happening) -> Passage {
    match e {
        Happening::Started { status, headers } => Passage {
            status,
            watch: signals::fresh_watch(is_stream(p, status, headers), p.watch.recording),
            ..p
        },
        Happening::Chunk { data } => Passage { watch: signals::fed(p.watch, data), ..p },
        Happening::Completed => p,
    }
}

/// What a message means for a response, and the response after it.
pub open spec fn relayed(p: Passage, message: Tree) -> (Passage, Handed) {
    if message.says("id"@, p.id) {
        match (message.field("error"@), message.field("result"@)) {
            (Some(error), _) => (p, Handed::Failed(error)),
            (None, Some(_)) => (p, Handed::Done),
            (None, None) => (p, Handed::NoResult),
        }
    } else if message.says("method"@, "rawResponse/stream"@) && message.at("params"@).says(
        "requestId"@,
        p.id,
    ) {
        match event_of(message.at("params"@).at("event"@)) {
            Some(e) => (passed(p, e), Handed::Event(e, turns_away(e))),
            None => (p, Handed::BadEvent),
        }
    } else {
        (p, Handed::Ignored)
    }
}

/// A response of which nothing came yet.
pub open spec fn expected(id: Seq<char>, params: Tree) -> Passage {
    let streaming = params.at("rawResponses"@).is("stream"@, true);
    Passage { id, streaming, watch: signals::fresh_watch(streaming, false), status: 0 }
}

/// How a response ended for the queue.
#[derive(Debug)]
pub enum Ending {
    /// It is known how.
    Confirmed(Observation),
    /// The request ended without a sign of how the response did.
    Unknown,
    /// The request failed, with no sign either.
    Broken,
}

/// The model of an `Ending`.
pub enum Closing {
    Confirmed(Noted),
    Unknown,
    Broken,
}

impl View for Ending {
    type V = Closing;

    open spec fn view(&self) -> Closing {
        match *self {
            Ending::Confirmed(o) => Closing::Confirmed(o@),
            Ending::Unknown => Closing::Unknown,
            Ending::Broken => Closing::Broken,
        }
    }
}

/// How a response ended. A terminal event of the model counts whatever came of the request; an
/// answer that is no success needs its whole body, not only its headers.
pub open spec fn ended(p: Passage, ok: bool) -> Closing {
    let seen = signals::concluded(p.watch).seen;
    if seen.terminal || (ok && p.status >= 300) {
        if 200 <= p.status < 300 {
            Closing::Confirmed(seen)
        } else {
            Closing::Confirmed(Noted { successful: false, rate_limited: false, ..seen })
        }
    } else if ok {
        Closing::Unknown
    } else {
        Closing::Broken
    }
}

impl Relay {
    /// A response to a request with these parameters.
    pub fn new(id: String, params: &Json) -> (r: Relay)
        ensures
            r@ == expected(id@, params@),
    {
        let streaming = match params.get("rawResponses") {
            Some(body) => body.is("stream", true),
            None => false,
        };
        Relay { id, streaming, observer: Observer::new(streaming), status: 0 }
    }

    /// Takes in a message of the thread manager.
    pub fn message(&mut self, message: &Json) -> (r: Relayed)
        ensures
            (final(self)@, r@) == relayed(old(self)@, message@),
            r matches Relayed::Part(e, told) ==> e.wf(),
    {
        if message.says("id", &self.id) {
            if let Some(error) = message.get("error") {
                return Relayed::Failed(error.copy());
            }
            return if message.get("result").is_some() {
                Relayed::Done
            } else {
                Relayed::NoResult
            };
        }
        if !message.says("method", "rawResponse/stream") {
            return Relayed::Ignored;
        }
        let params = match message.get("params") {
            Some(params) => params,
            None => return Relayed::Ignored,
        };
        if !params.says("requestId", &self.id) {
            return Relayed::Ignored;
        }
        let event = match params.get("event") {
            Some(event) => read_event(event),
            None => {
                assert(event_of(Tree::Null) is None);
                None
            },
        };
        match event {
            None => Relayed::BadEvent,
            Some(Event::Completed) => Relayed::Completed,
            Some(Event::Stream(event)) => {
                self.pass(&event);
                let told = match &event {
                    RawResponseStreamEvent::Started { status, headers } => *status >= 400,
                    RawResponseStreamEvent::Chunk { data } => false,
                };
                Relayed::Part(event, told)
            },
        }
    }

    fn pass(&mut self, event: &RawResponseStreamEvent)
        requires
            event.wf(),
        ensures
            final(self)@ == passed(old(self)@, event@),
    {
        match event {
            RawResponseStreamEvent::Started { status, headers } => {
                let name = "content-type".to_owned();
                let stream = match headers.get(&name) {
                    Some(value) => contains_text(value, "text/event-stream"),
                    None => self.streaming && *status < 400,
                };
                self.status = *status;
                let recording = self.observer.recording;
                self.observer = Observer::new(stream);
                self.observer.recording = recording;
            },
            RawResponseStreamEvent::Chunk { data } => {
                self.observer.bytes(data);
            },
        }
    }

    /// How the response ended, by whether the request did without an error, and the events
    /// that no recorder has taken yet.
    pub fn end(self, ok: bool) -> (r: (Ending, Vec<Json>))
        ensures
            r.0@ == ended(self@, ok),
            json::trees_of(r.1@) == signals::concluded(self@.watch).events,
    {
        let status = self.status;
        let mut observer = self.observer;
        observer.conclude();
        let events = observer.take_events();
        let mut seen = observer.observation;
        if seen.terminal || (ok && status >= 300) {
            if !(200 <= status && status < 300) {
                seen.successful = false;
                seen.rate_limited = false;
            }
            (Ending::Confirmed(seen), events)
        } else if ok {
            (Ending::Unknown, events)
        } else {
            (Ending::Broken, events)
        }
    }
}

/// A terminal event of the model is not lost to an error that the request ends with.
pub proof fn law_terminal_survives_request_error(p: Passage, ok: bool)
    requires
        signals::concluded(p.watch).seen.terminal,
    ensures
        ended(p, ok) is Confirmed,
{
}

/// A successful response without a terminal event is never taken as ended, whatever the
/// request says.
pub proof fn law_truncated_response_stays_unknown(p: Passage, ok: bool)
    requires
        p.status < 300,
        !signals::concluded(p.watch).seen.terminal,
    ensures
        !(ended(p, ok) is Confirmed),
{
}

/// A body that is handed on as it comes.
#[derive(Debug)]
pub struct StreamBody {
    /// What came and was not read yet.
    pub pending: Vec<u8>,
    pub complete: bool,
}

/// Why a body cannot go on.
#[derive(Clone, Copy, Debug, PartialEq, Eq, Structural)]
pub enum BodyError {
    DuplicateHeaders,
}

impl StreamBody {
    pub fn new() -> (r: StreamBody)
        ensures
            r.pending@.len() == 0,
            !r.complete,
    {
        StreamBody { pending: Vec::new(), complete: false }
    }

    /// At most so many bytes of what came, nothing once the body is complete; `None` where more
    /// has to come first.
    pub fn read(&mut self, limit: usize) -> (r: Option<Vec<u8>>)
        ensures
            final(self).complete == old(self).complete,
            r is None <==> limit > 0 && old(self).pending@.len() == 0 && !old(self).complete,
            r is None ==> final(self).pending == old(self).pending,
            // What is handed out comes first, and nothing is lost.
            r matches Some(data) ==> data@ + final(self).pending@ == old(self).pending@ && data@.len()
                == (if old(self).pending@.len() < limit {
                old(self).pending@.len()
            } else {
                limit as nat
            }),
    {
        if limit == 0 {
            let r: Vec<u8> = Vec::new();
            assert(r@ + self.pending@ =~= self.pending@);
            return Some(r);
        }
        if self.pending.len() == 0 {
            if self.complete {
                let r: Vec<u8> = Vec::new();
                assert(r@ + self.pending@ =~= self.pending@);
                return Some(r);
            }
            return None;
        }
        if self.pending.len() <= limit {
            let mut r: Vec<u8> = Vec::new();
            r.append(&mut self.pending);
            assert(r@ + self.pending@ =~= old(self).pending@);
            return Some(r);
        }
        let rest = self.pending.split_off(limit);
        let mut r: Vec<u8> = Vec::new();
        r.append(&mut self.pending);
        self.pending = rest;
        assert(r@ + self.pending@ =~= old(self).pending@);
        Some(r)
    }

    /// Takes in an event once everything that came before was read.
    pub fn accept(&mut self, event: Event) -> (r: Result<(), BodyError>)
        requires
            old(self).pending@.len() == 0,
            !old(self).complete,
        ensures
            match event@ {
                Happening::Chunk { data } => r is Ok && final(self).pending@ == data
                    && !final(self).complete,
                Happening::Completed => r is Ok && final(self).complete
                    && final(self).pending@.len() == 0,
                Happening::Started { status, headers } => r == Err::<(), BodyError>(
                    BodyError::DuplicateHeaders,
                ) && *final(self) == *old(self),
            },
    {
        match event {
            Event::Stream(RawResponseStreamEvent::Chunk { data }) => {
                self.pending = data;
                Ok(())
            },
            Event::Completed => {
                self.complete = true;
                Ok(())
            },
            Event::Stream(RawResponseStreamEvent::Started { status, headers }) => Err(
                BodyError::DuplicateHeaders,
            ),
        }
    }
}

proof fn lemma_event_names()
    ensures
        "type"@.len() == 4 && "type"@[0] == 't',
        "data"@.len() == 4 && "data"@[0] == 'd',
        "status"@.len() == 6,
        "headers"@.len() == 7,
        "started"@.len() == 7,
        "chunk"@.len() == 5,
        "completed"@.len() == 9,
{
    reveal_strlit("type");
    reveal_strlit("status");
    reveal_strlit("headers");
    reveal_strlit("data");
    reveal_strlit("started");
    reveal_strlit("chunk");
    reveal_strlit("completed");
}

/// The start of a response is sent with its status and each of its headers, a part with each of
/// its bytes as a number, and the end by itself.
pub proof fn law_how_events_are_sent(
    status: u16,
    headers: Map<Seq<char>, Seq<char>>,
    data: Seq<u8>,
    name: Seq<char>,
    i: int,
)
    ensures
        ({
            let t = event_tree(Happening::Started { status, headers });
            &&& t.at("type"@) == Tree::Text("started"@)
            &&& t.at("status"@).number() == Some(status as u64)
            &&& t.at("headers"@) matches Tree::Object(m) && m.dom() == headers.dom() && (
            headers.contains_key(name) ==> m[name] == Tree::Text(headers[name]))
        }),
        ({
            let t = event_tree(Happening::Chunk { data });
            &&& t.at("type"@) == Tree::Text("chunk"@)
            &&& t.at("data"@) matches Tree::Array(items) && items.len() == data.len() && (0 <= i
                < data.len() ==> items[i].number() == Some(data[i] as u64))
        }),
        event_tree(Happening::Completed).at("type"@) == Tree::Text("completed"@),
{
    lemma_event_names();
    assert(text_trees(headers).dom() =~= headers.dom());
}

/// An event is read by its type: a start with a status of sixteen bits and headers that are texts,
/// a part whose data are bytes, or the end; nothing else is one.
pub proof fn law_which_events_are_read(m: Map<Seq<char>, Tree>)
    ensures
        ({
            let t = Tree::Object(m);
            let kind = t.at("type"@);
            let status = t.at("status"@).number();
            let headers = t.at("headers"@);
            let data = t.at("data"@);
            let good_start = status is Some && status->0 <= 65535 && headers is Object && forall|
                k: Seq<char>,
            | #[trigger]
                headers->Object_0.contains_key(k) ==> headers->Object_0[k] is Text;
            let good_part = data is Array && forall|i: int|
                0 <= i < data->Array_0.len() ==> ((#[trigger] data->Array_0[i]).number() is Some
                    && data->Array_0[i].number()->0 <= 255);
            let e = event_of(t);
            &&& e is Some && e->0 is Started <==> kind == Tree::Text("started"@) && good_start
            &&& e is Some && e->0 is Chunk <==> kind == Tree::Text("chunk"@) && good_part
            &&& e is Some && e->0 is Completed <==> kind == Tree::Text("completed"@)
            &&& e matches Some(Happening::Started { status: s, headers: h }) ==> s == status->0
                && h.dom() == headers->Object_0.dom() && forall|k: Seq<char>| #[trigger]
                h.contains_key(k) ==> headers->Object_0[k] == Tree::Text(h[k])
            &&& e matches Some(Happening::Chunk { data: d }) ==> d.len() == data->Array_0.len()
                && forall|i: int|
                0 <= i < d.len() ==> data->Array_0[i].number() == Some(#[trigger] d[i] as u64)
        }),
{
    lemma_event_names();
    let t = Tree::Object(m);
    let headers = t.at("headers"@);
    let data = t.at("data"@);
    if headers is Object {
        assert(texts_in(headers->Object_0).dom() =~= headers->Object_0.dom());
    }
    if data is Array {
        let items = data->Array_0;
        assert(all_bytes(items) <==> forall|i: int|
            0 <= i < items.len() ==> ((#[trigger] items[i]).number() is Some
                && items[i].number()->0 <= 255)) by {
            if all_bytes(items) {
                assert forall|i: int| 0 <= i < items.len() implies ((#[trigger] items[i]).number()
                    is Some && items[i].number()->0 <= 255) by {
                    assert(is_byte(items[i]));
                }
            }
        }
        if all_bytes(items) {
            assert forall|i: int| 0 <= i < items.len() implies items[i].number() == Some(
                #[trigger] bytes_in(items)[i] as u64,
            ) by {
                assert(is_byte(items[i]));
            }
        }
    }
}

/// A message under the request's identifier ends it: as failed where it holds an error, as done
/// where it holds a result, and without a result where it holds neither; the response stays as it
/// is.
pub proof fn law_how_a_request_ends(p: Passage, m: Map<Seq<char>, Tree>)
    requires
        m.contains_key("id"@),
        m["id"@] == Tree::Text(p.id),
    ensures
        ({
            let (after, handed) = relayed(p, Tree::Object(m));
            &&& after == p
            &&& m.contains_key("error"@) ==> handed == Handed::Failed(m["error"@])
            &&& !m.contains_key("error"@) && m.contains_key("result"@) ==> handed is Done
            &&& !m.contains_key("error"@) && !m.contains_key("result"@) ==> handed is NoResult
        }),
{
}

/// A message about the stream of the request is handed on and taken in where it is an event; a
/// response that starts with a status of 400 or more turns the request away. A message about
/// anything else is ignored.
pub proof fn law_what_is_handed_on(p: Passage, t: Tree)
    requires
        t.at("id"@) != Tree::Text(p.id),
    ensures
        ({
            let (after, handed) = relayed(p, t);
            let ours = t.at("method"@) == Tree::Text("rawResponse/stream"@) && t.at("params"@).at(
                "requestId"@,
            ) == Tree::Text(p.id);
            let e = event_of(t.at("params"@).at("event"@));
            &&& !ours ==> after == p && handed is Ignored
            &&& ours && e is None ==> after == p && handed is BadEvent
            &&& ours && e is Some ==> after == passed(p, e->0) && (
            handed matches Handed::Event(h, away) && h == e->0 && away == (
            e->0 matches Happening::Started { status, headers } && status >= 400))
        }),
{
}

/// The start of a response sets its status, and anew how it is watched: as a stream where its
/// content type says so or, where it has none, where one was asked for and the status is below
/// 400. Its parts are watched, and its end changes nothing.
pub proof fn law_how_a_response_passes(
    p: Passage,
    status: u16,
    headers: Map<Seq<char>, Seq<char>>,
    data: Seq<u8>,
)
    ensures
        ({
            let after = passed(p, Happening::Started { status, headers });
            let typed = headers.contains_key("content-type"@);
            &&& after.status == status
            &&& after.id == p.id && after.streaming == p.streaming
            &&& after.watch.recording == p.watch.recording
            &&& after.watch.seen.valid && !after.watch.seen.terminal
            &&& after.watch.data.len() == 0 && after.watch.line.len() == 0
            &&& typed ==> (after.watch.streaming <==> text::occurs(
                headers["content-type"@],
                "text/event-stream"@,
            ))
            &&& !typed ==> (after.watch.streaming <==> p.streaming && status < 400)
        }),
        passed(p, Happening::Chunk { data }).watch == signals::fed(p.watch, data),
        passed(p, Happening::Chunk { data }).status == p.status,
        passed(p, Happening::Completed) == p,
{
}

/// It is known how a response ended where a terminal event of the model was seen, or where the
/// request went well and its status is 300 or more. It is a success, or a sign of too many
/// requests, only with a status from 200 to 299. Otherwise the response is not known to have ended
/// where the request went well, and broken where not.
pub proof fn law_when_an_end_is_known(p: Passage, ok: bool)
    ensures
        ({
            let seen = signals::concluded(p.watch).seen;
            let known = seen.terminal || (ok && p.status >= 300);
            &&& ended(p, ok) is Confirmed <==> known
            &&& ended(p, ok) is Unknown <==> !known && ok
            &&& ended(p, ok) is Broken <==> !known && !ok
            &&& ended(p, ok) matches Closing::Confirmed(o) ==> {
                &&& 200 <= p.status < 300 ==> o == seen
                &&& p.status < 200 || p.status >= 300 ==> !o.successful && !o.rate_limited
                    && o.quota_exhausted == seen.quota_exhausted && o.terminal == seen.terminal
                    && o.valid == seen.valid && o.calls == seen.calls && o.response_id
                    == seen.response_id
            }
        }),
{
}

/// A request is named by a text or by a number, as it is.
pub proof fn law_how_requests_are_named(id: RequestId)
    ensures
        id matches RequestId::Text(s) ==> id.tree() == Tree::Text(s@),
        id matches RequestId::Number(n) ==> id.tree().number() == Some(n),
{
}

/// An event may be written as the list of its values, its type first: a start then with its status
/// and its headers, and a part with its data.
pub proof fn law_listed_events_say_the_same(a: Tree, b: Tree)
    ensures
        event_of(Tree::Array(seq![Tree::Text("started"@), a, b])) == event_of(
            Tree::Object(
                Map::empty().insert("type"@, Tree::Text("started"@)).insert("status"@, a).insert(
                    "headers"@,
                    b,
                ),
            ),
        ),
        event_of(Tree::Array(seq![Tree::Text("chunk"@), a])) == event_of(
            Tree::Object(
                Map::empty().insert("type"@, Tree::Text("chunk"@)).insert("data"@, a),
            ),
        ),
        event_of(Tree::Array(seq![Tree::Text("completed"@)])) == Some(Happening::Completed),
{
    lemma_event_names();
    let three = seq![Tree::Text("started"@), a, b];
    let two = seq![Tree::Text("started"@), a];
    let one = seq![Tree::Text("started"@)];
    assert(three.drop_last() =~= two);
    assert(two.drop_last() =~= one);
    assert(one.drop_last() =~= Seq::empty());
    reveal_with_fuel(json::named_values, 4);
    assert(json::named_values(three, seq!["type"@, "status"@, "headers"@]) =~= Map::empty().insert(
        "type"@,
        Tree::Text("started"@),
    ).insert("status"@, a).insert("headers"@, b));
    let part = seq![Tree::Text("chunk"@), a];
    let head = seq![Tree::Text("chunk"@)];
    assert(part.drop_last() =~= head);
    assert(head.drop_last() =~= Seq::empty());
    assert(json::named_values(part, seq!["type"@, "data"@]) =~= Map::empty().insert(
        "type"@,
        Tree::Text("chunk"@),
    ).insert("data"@, a));
    let end = seq![Tree::Text("completed"@)];
    assert(end.drop_last() =~= Seq::empty());
    assert(json::named_values(end, seq!["type"@]) =~= Map::empty().insert(
        "type"@,
        Tree::Text("completed"@),
    ));
}

/// A response is expected as a stream exactly where its request asks for one; nothing is seen of
/// it, and so it has not ended well or badly.
pub proof fn law_what_is_expected(id: Seq<char>, params: Tree)
    ensures
        ({
            let p = expected(id, params);
            &&& p.id == id && p.status == 0
            &&& p.streaming <==> params.at("rawResponses"@).at("stream"@) == Tree::Bool(true)
            &&& p.watch.streaming == p.streaming && !p.watch.recording
            &&& p.watch.seen.valid && !p.watch.seen.terminal && !p.watch.seen.successful
            &&& !p.watch.seen.quota_exhausted && !p.watch.seen.rate_limited
            &&& p.watch.seen.response_id is None && p.watch.seen.calls.len() == 0
            &&& p.watch.data.len() == 0 && p.watch.line.len() == 0 && p.watch.events.len() == 0
        }),
{
}

} // verus!
